use vstd::prelude::*;

use crate::value::{SValue, Value};

verus! {

/// The model of a dictionary: its keys with their values, in order.
pub type Entries = Seq<(Seq<u8>, SValue)>;

/// `j` is the first place where key `k` stands in `d`.
pub open spec fn first_at(d: Entries, k: Seq<u8>, j: int) -> bool {
    0 <= j < d.len() && d[j].0 == k && forall|i: int| 0 <= i < j ==> (#[trigger] d[i]).0 != k
}

/// Where key `k` stands in `d`, if it does.
pub open spec fn key_pos(d: Entries, k: Seq<u8>) -> Option<int> {
    if exists|j: int| first_at(d, k, j) {
        Some(choose|j: int| first_at(d, k, j))
    } else {
        None
    }
}

/// The value stored under `k`.
pub open spec fn lookup(d: Entries, k: Seq<u8>) -> Option<SValue> {
    match key_pos(d, k) {
        Some(j) => Some(d[j].1),
        None => None,
    }
}

/// Stores `v` under `k`: in place where `k` is present, at the end otherwise.
pub open spec fn insert(d: Entries, k: Seq<u8>, v: SValue) -> Entries {
    match key_pos(d, k) {
        Some(j) => d.update(j, (k, v)),
        None => d.push((k, v)),
    }
}

/// The dictionary made by inserting the pairs of `ps` in order.
pub open spec fn build(ps: Entries) -> Entries
    decreases ps.len(),
{
    if ps.len() == 0 {
        seq![]
    } else {
        insert(build(ps.drop_last()), ps.last().0, ps.last().1)
    }
}

/// The value of the last pair of `ps` with key `k`.
pub open spec fn last_value(ps: Entries, k: Seq<u8>) -> Option<SValue>
    decreases ps.len(),
{
    if ps.len() == 0 {
        None
    } else if ps.last().0 == k {
        Some(ps.last().1)
    } else {
        last_value(ps.drop_last(), k)
    }
}

/// No key stands twice.
pub open spec fn keys_unique(d: Entries) -> bool {
    forall|i: int, j: int| 0 <= i < j < d.len() ==> (#[trigger] d[i]).0 != (#[trigger] d[j]).0
}

proof fn lemma_key_pos(d: Entries, k: Seq<u8>)
    ensures
        match key_pos(d, k) {
            Some(j) => first_at(d, k, j),
            None => forall|i: int| 0 <= i < d.len() ==> (#[trigger] d[i]).0 != k,
        },
{
    if key_pos(d, k) is None {
        assert forall|i: int| 0 <= i < d.len() implies (#[trigger] d[i]).0 != k by {
            if d[i].0 == k {
                lemma_first_exists(d, k, i);
            }
        }
    }
}

proof fn lemma_first_exists(d: Entries, k: Seq<u8>, i: int)
    requires
        0 <= i < d.len(),
        d[i].0 == k,
    ensures
        exists|j: int| first_at(d, k, j),
    decreases i,
{
    if exists|m: int| 0 <= m < i && d[m].0 == k {
        let m = choose|m: int| 0 <= m < i && d[m].0 == k;
        lemma_first_exists(d, k, m);
    } else {
        assert(first_at(d, k, i));
    }
}

proof fn lemma_first_unique(d: Entries, k: Seq<u8>, a: int, b: int)
    requires
        first_at(d, k, a),
        first_at(d, k, b),
    ensures
        a == b,
{
    if a < b {
        assert(d[a].0 != k);
    } else if b < a {
        assert(d[b].0 != k);
    }
}

proof fn lemma_pos_at(d: Entries, k: Seq<u8>, j: int)
    requires
        first_at(d, k, j),
    ensures
        key_pos(d, k) == Some(j),
{
    let c = choose|c: int| first_at(d, k, c);
    lemma_first_unique(d, k, c, j);
}

/// After `insert(d, k, v)`, `k` reads `v` and every other key reads as before.
pub proof fn lemma_insert_lookup(d: Entries, k: Seq<u8>, v: SValue, q: Seq<u8>)
    ensures
        lookup(insert(d, k, v), q) == (if q == k { Some(v) } else { lookup(d, q) }),
{
    lemma_key_pos(d, k);
    lemma_key_pos(d, q);
    let e = insert(d, k, v);
    match key_pos(d, k) {
        Some(j) => {
            assert(e[j] == (k, v));
            assert forall|i: int| 0 <= i < e.len() && i != j implies #[trigger] e[i] == d[i] by {}
            if q == k {
                assert(first_at(e, k, j));
                lemma_pos_at(e, k, j);
            } else {
                match key_pos(d, q) {
                    Some(p) => {
                        assert(first_at(e, q, p));
                        lemma_pos_at(e, q, p);
                    },
                    None => {
                        lemma_key_pos(e, q);
                        if key_pos(e, q) is Some {
                            let p = key_pos(e, q)->0;
                            assert(e[p] == d[p]);
                        }
                    },
                }
            }
        },
        None => {
            assert(e[d.len() as int] == (k, v));
            assert forall|i: int| 0 <= i < d.len() implies #[trigger] e[i] == d[i] by {}
            if q == k {
                assert(first_at(e, k, d.len() as int));
                lemma_pos_at(e, k, d.len() as int);
            } else {
                match key_pos(d, q) {
                    Some(p) => {
                        assert(first_at(e, q, p));
                        lemma_pos_at(e, q, p);
                    },
                    None => {
                        lemma_key_pos(e, q);
                        if key_pos(e, q) is Some {
                            let p = key_pos(e, q)->0;
                            assert(p < d.len());
                            assert(e[p] == d[p]);
                        }
                    },
                }
            }
        },
    }
}

/// Where a key is given several times, the dictionary holds the value of its
/// last occurrence; a key never given is absent.
pub proof fn lemma_last_write_wins(ps: Entries, k: Seq<u8>)
    ensures
        lookup(build(ps), k) == last_value(ps, k),
    decreases ps.len(),
{
    if ps.len() == 0 {
        lemma_key_pos(build(ps), k);
    } else {
        lemma_last_write_wins(ps.drop_last(), k);
        lemma_insert_lookup(build(ps.drop_last()), ps.last().0, ps.last().1, k);
    }
}

/// Inserting into a dictionary whose keys are unique keeps them unique.
pub proof fn lemma_insert_keeps_unique(d: Entries, k: Seq<u8>, v: SValue)
    requires
        keys_unique(d),
    ensures
        keys_unique(insert(d, k, v)),
{
    lemma_key_pos(d, k);
    let e = insert(d, k, v);
    match key_pos(d, k) {
        Some(j) => {
            assert forall|a: int, b: int| 0 <= a < b < e.len() implies (#[trigger] e[a]).0 != (
            #[trigger] e[b]).0 by {
                assert(e[a].0 == d[a].0);
                assert(e[b].0 == d[b].0);
            }
        },
        None => {
            assert forall|a: int, b: int| 0 <= a < b < e.len() implies (#[trigger] e[a]).0 != (
            #[trigger] e[b]).0 by {
                if b == d.len() {
                    assert(d[a].0 != k);
                } else {
                    assert(e[a] == d[a] && e[b] == d[b]);
                }
            }
        },
    }
}

/// A dictionary built by inserting pairs never holds a key twice.
pub proof fn lemma_build_keys_unique(ps: Entries)
    ensures
        keys_unique(build(ps)),
    decreases ps.len(),
{
    if ps.len() > 0 {
        lemma_build_keys_unique(ps.drop_last());
        lemma_insert_keeps_unique(build(ps.drop_last()), ps.last().0, ps.last().1);
    }
}

/// Inserting the entries of a dictionary again, in their order, rebuilds the
/// same dictionary.
pub proof fn lemma_rebuild(d: Entries)
    requires
        keys_unique(d),
    ensures
        build(d) == d,
    decreases d.len(),
{
    if d.len() > 0 {
        let t = d.drop_last();
        assert(keys_unique(t)) by {
            assert forall|a: int, b: int| 0 <= a < b < t.len() implies (#[trigger] t[a]).0 != (
            #[trigger] t[b]).0 by {
                assert(t[a] == d[a] && t[b] == d[b]);
            }
        }
        lemma_rebuild(t);
        let k = d.last().0;
        lemma_key_pos(t, k);
        if key_pos(t, k) is Some {
            let j = key_pos(t, k)->0;
            assert(t[j] == d[j]);
            assert(d[j].0 != d[d.len() - 1].0);
        }
        assert(t.push(d.last()) =~= d);
    }
}

/// An ordered dictionary from byte-string keys to values, each key once.
#[derive(Debug)]
pub struct DictHandler {
    data: Vec<(Vec<u8>, Value)>,
}

/// The model of a list of stored entries.
pub open spec fn entries_view(v: Vec<(Vec<u8>, Value)>) -> Entries {
    v@.map_values(|e: (Vec<u8>, Value)| (e.0@, e.1@))
}

impl View for DictHandler {
    type V = Entries;

    closed spec fn view(&self) -> Entries {
        entries_view(self.data)
    }
}

fn same_bytes(a: &Vec<u8>, b: &Vec<u8>) -> (r: bool)
    ensures
        r == (a@ == b@),
{
    if a.len() != b.len() {
        return false;
    }
    let mut i: usize = 0;
    while i < a.len()
        invariant
            i <= a.len(),
            a.len() == b.len(),
            forall|j: int| 0 <= j < i ==> a@[j] == b@[j],
        decreases a.len() - i,
    {
        if a[i] != b[i] {
            return false;
        }
        i = i + 1;
    }
    assert(a@ =~= b@);
    true
}

impl DictHandler {
    /// An empty dictionary.
    pub fn new() -> (r: Self)
        ensures
            r@ == Seq::<(Seq<u8>, SValue)>::empty(),
            keys_unique(r@),
    {
        let r = DictHandler { data: Vec::new() };
        assert(r@ =~= Seq::<(Seq<u8>, SValue)>::empty());
        r
    }

    /// The number of keys.
    pub fn len(&self) -> (r: usize)
        ensures
            r == self@.len(),
    {
        self.data.len()
    }

    fn position(&self, k: &Vec<u8>) -> (r: Option<usize>)
        ensures
            match r {
                Some(j) => key_pos(self@, k@) == Some(j as int),
                None => key_pos(self@, k@) is None,
            },
    {
        let ghost d = self@;
        let mut i: usize = 0;
        while i < self.data.len()
            invariant
                i <= self.data.len(),
                d == self@,
                d.len() == self.data.len(),
                forall|j: int| 0 <= j < i ==> (#[trigger] d[j]).0 != k@,
            decreases self.data.len() - i,
        {
            assert(d[i as int].0 == self.data[i as int].0@);
            if same_bytes(&self.data[i].0, k) {
                proof {
                    assert(first_at(d, k@, i as int));
                    lemma_pos_at(d, k@, i as int);
                }
                return Some(i);
            }
            i = i + 1;
        }
        proof {
            lemma_key_pos(d, k@);
            if key_pos(d, k@) is Some {
                let p = key_pos(d, k@)->0;
                assert(d[p].0 == k@);
            }
        }
        None
    }

    /// The value stored under `k`.
    pub fn get(&self, k: &Vec<u8>) -> (r: Option<&Value>)
        ensures
            match r {
                Some(v) => lookup(self@, k@) == Some(v@),
                None => lookup(self@, k@) is None,
            },
    {
        match self.position(k) {
            Some(j) => Some(&self.data[j].1),
            None => None,
        }
    }

    /// Stores `v` under `k`, replacing the value already there.
    pub fn insert(&mut self, k: Vec<u8>, v: Value)
        ensures
            final(self)@ == insert(old(self)@, k@, v@),
            keys_unique(old(self)@) ==> keys_unique(final(self)@),
    {
        proof {
            if keys_unique(self@) {
                lemma_insert_keeps_unique(self@, k@, v@);
            }
        }
        let ghost kv = (k@, v@);
        match self.position(&k) {
            Some(j) => {
                self.data.set(j, (k, v));
                assert(self@ =~= old(self)@.update(j as int, kv));
            },
            None => {
                self.data.push((k, v));
                assert(self@ =~= old(self)@.push(kv));
            },
        }
    }

    /// The key and value at place `i`, in order of first insertion.
    pub fn entry(&self, i: usize) -> (r: (&Vec<u8>, &Value))
        requires
            i < self@.len(),
        ensures
            (r.0@, r.1@) == self@[i as int],
    {
        let e = &self.data[i];
        (&e.0, &e.1)
    }
}

} // verus!
