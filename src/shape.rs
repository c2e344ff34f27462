use vstd::prelude::*;

use crate::scalar::{
    bool_literal, byte_is_ws, coerce_scalar, float_literal, int_literal, int_text_value,
    is_bool_lit, is_float_lit, is_int_lit, is_true_lit, is_ws, scalar_of,
};
use crate::value::{SValue, Value, texts_view, text_rows_view, ints_view, int_rows_view, bool_rows_view};

verus! {

/// The whitespace-separated words of `s` from offset `i` on, `cur` being the
/// part of a word read so far.
pub open spec fn words_from(s: Seq<u8>, i: int, cur: Seq<u8>) -> Seq<Seq<u8>>
    decreases s.len() - i,
{
    if i >= s.len() {
        if cur.len() > 0 { seq![cur] } else { seq![] }
    } else if is_ws(s[i]) {
        (if cur.len() > 0 { seq![cur] } else { seq![] }) + words_from(s, i + 1, seq![])
    } else {
        words_from(s, i + 1, cur.push(s[i]))
    }
}

/// The whitespace-separated words of `s`, none of them empty.
pub open spec fn words(s: Seq<u8>) -> Seq<Seq<u8>> {
    words_from(s, 0, seq![])
}

/// The pieces of `s` between occurrences of `sep` from offset `i` on; empty
/// pieces are kept.
pub open spec fn pieces_from(s: Seq<u8>, sep: u8, i: int, cur: Seq<u8>) -> Seq<Seq<u8>>
    decreases s.len() - i,
{
    if i >= s.len() {
        seq![cur]
    } else if s[i] == sep {
        seq![cur] + pieces_from(s, sep, i + 1, seq![])
    } else {
        pieces_from(s, sep, i + 1, cur.push(s[i]))
    }
}

/// `s` cut at each occurrence of `sep`.
pub open spec fn pieces(s: Seq<u8>, sep: u8) -> Seq<Seq<u8>> {
    pieces_from(s, sep, 0, seq![])
}

/// Splits `s` into its whitespace-separated words.
pub fn split_words(s: &[u8]) -> (r: Vec<Vec<u8>>)
    ensures
        texts_view(r) == words(s@),
{
    let mut acc: Vec<Vec<u8>> = Vec::new();
    let mut cur: Vec<u8> = Vec::new();
    let mut i: usize = 0;
    assert(texts_view(acc) + words(s@) =~= words(s@));
    while i < s.len()
        invariant
            i <= s.len(),
            texts_view(acc) + words_from(s@, i as int, cur@) == words(s@),
        decreases s.len() - i,
    {
        let b = s[i];
        if byte_is_ws(b) {
            let ghost old_acc = texts_view(acc);
            let ghost rest = words_from(s@, i + 1, seq![]);
            if cur.len() > 0 {
                let w = cur;
                cur = Vec::new();
                let ghost wv = w@;
                acc.push(w);
                assert(texts_view(acc) =~= old_acc.push(wv));
                assert(texts_view(acc) + rest =~= old_acc + (seq![wv] + rest));
            } else {
                assert(old_acc + rest =~= old_acc + (Seq::<Seq<u8>>::empty() + rest));
            }
            assert(cur@ =~= Seq::<u8>::empty());
        } else {
            cur.push(b);
        }
        i = i + 1;
    }
    if cur.len() > 0 {
        let ghost old_acc = texts_view(acc);
        let ghost wv = cur@;
        acc.push(cur);
        assert(texts_view(acc) =~= old_acc.push(wv));
        assert(old_acc + seq![wv] =~= old_acc.push(wv));
    } else {
        assert(texts_view(acc) + Seq::<Seq<u8>>::empty() =~= texts_view(acc));
    }
    acc
}

/// Cuts `s` at each occurrence of `sep`.
pub fn split_pieces(s: &[u8], sep: u8) -> (r: Vec<Vec<u8>>)
    ensures
        texts_view(r) == pieces(s@, sep),
        r.len() >= 1,
{
    let mut acc: Vec<Vec<u8>> = Vec::new();
    let mut cur: Vec<u8> = Vec::new();
    let mut i: usize = 0;
    assert(texts_view(acc) + pieces(s@, sep) =~= pieces(s@, sep));
    while i < s.len()
        invariant
            i <= s.len(),
            texts_view(acc) + pieces_from(s@, sep, i as int, cur@) == pieces(s@, sep),
        decreases s.len() - i,
    {
        let b = s[i];
        if b == sep {
            let ghost old_acc = texts_view(acc);
            let ghost rest = pieces_from(s@, sep, i + 1, seq![]);
            let w = cur;
            cur = Vec::new();
            let ghost wv = w@;
            acc.push(w);
            assert(texts_view(acc) =~= old_acc.push(wv));
            assert(texts_view(acc) + rest =~= old_acc + (seq![wv] + rest));
            assert(cur@ =~= Seq::<u8>::empty());
        } else {
            cur.push(b);
        }
        i = i + 1;
    }
    let ghost old_acc = texts_view(acc);
    let ghost wv = cur@;
    acc.push(cur);
    assert(texts_view(acc) =~= old_acc.push(wv));
    assert(old_acc + seq![wv] =~= old_acc.push(wv));
    acc
}

/// Every word is a boolean literal.
pub open spec fn all_bool(ws: Seq<Seq<u8>>) -> bool {
    forall|k: int| 0 <= k < ws.len() ==> is_bool_lit(#[trigger] ws[k])
}

/// Every word is an integer literal.
pub open spec fn all_int(ws: Seq<Seq<u8>>) -> bool {
    forall|k: int| 0 <= k < ws.len() ==> is_int_lit(#[trigger] ws[k])
}

/// An integer or a real literal.
pub open spec fn is_number_lit(w: Seq<u8>) -> bool {
    is_int_lit(w) || is_float_lit(w)
}

/// Every word is a number.
pub open spec fn all_number(ws: Seq<Seq<u8>>) -> bool {
    forall|k: int| 0 <= k < ws.len() ==> is_number_lit(#[trigger] ws[k])
}

/// The truth value of each boolean literal.
pub open spec fn bools_of(ws: Seq<Seq<u8>>) -> Seq<bool> {
    ws.map_values(|w: Seq<u8>| is_true_lit(w))
}

/// The value of each integer literal.
pub open spec fn ints_of(ws: Seq<Seq<u8>>) -> Seq<int> {
    ws.map_values(|w: Seq<u8>| int_text_value(w))
}

/// How a list of words is typed: all booleans, else all integers, else all
/// numbers (integers widen to reals), else strings.
pub open spec fn list_value(ws: Seq<Seq<u8>>) -> SValue {
    if all_bool(ws) {
        SValue::BoolArray(bools_of(ws))
    } else if all_int(ws) {
        SValue::IntArray(ints_of(ws))
    } else if all_number(ws) {
        SValue::FloatArray(ws)
    } else {
        SValue::StrArray(ws)
    }
}

/// Every cell is a boolean literal.
pub open spec fn rows_all_bool(m: Seq<Seq<Seq<u8>>>) -> bool {
    forall|r: int| 0 <= r < m.len() ==> all_bool(#[trigger] m[r])
}

/// Every cell is an integer literal.
pub open spec fn rows_all_int(m: Seq<Seq<Seq<u8>>>) -> bool {
    forall|r: int| 0 <= r < m.len() ==> all_int(#[trigger] m[r])
}

/// Every cell is a number.
pub open spec fn rows_all_number(m: Seq<Seq<Seq<u8>>>) -> bool {
    forall|r: int| 0 <= r < m.len() ==> all_number(#[trigger] m[r])
}

/// How a matrix of words is typed, by the same rule as a list, over all cells.
pub open spec fn matrix_value(m: Seq<Seq<Seq<u8>>>) -> SValue {
    if rows_all_bool(m) {
        SValue::MatrixBool(m.map_values(|r: Seq<Seq<u8>>| bools_of(r)))
    } else if rows_all_int(m) {
        SValue::MatrixInt(m.map_values(|r: Seq<Seq<u8>>| ints_of(r)))
    } else if rows_all_number(m) {
        SValue::MatrixFloat(m)
    } else {
        SValue::MatrixStr(m)
    }
}

/// Every row has as many items as the first, and that is at least one.
pub open spec fn is_rectangular(m: Seq<Seq<Seq<u8>>>) -> bool {
    m.len() > 0 && m[0].len() > 0 && forall|r: int| 0 <= r < m.len() ==> (#[trigger] m[r]).len()
        == m[0].len()
}

/// `b` occurs in `s`.
pub open spec fn has_byte(s: Seq<u8>, b: u8) -> bool {
    exists|k: int| 0 <= k < s.len() && s[k] == b
}

/// The rows of a quoted matrix literal: pieces between `/`, each cut into words.
pub open spec fn matrix_rows(s: Seq<u8>) -> Seq<Seq<Seq<u8>>> {
    pieces(s, 47u8).map_values(|p: Seq<u8>| words(p))
}

/// The value of the contents of a quoted string: a matrix where it holds a
/// `/`, which fails unless its rows are rectangular; else a list where it holds
/// several words; else the one word typed as a scalar; else the text itself.
pub open spec fn quoted_value(s: Seq<u8>) -> Option<SValue> {
    if has_byte(s, 47u8) {
        if is_rectangular(matrix_rows(s)) {
            Some(matrix_value(matrix_rows(s)))
        } else {
            None
        }
    } else {
        let ws = words(s);
        if ws.len() == 0 {
            Some(SValue::Str(s))
        } else if ws.len() == 1 {
            Some(scalar_of(ws[0]))
        } else {
            Some(list_value(ws))
        }
    }
}

proof fn lemma_take_step(v: Seq<Seq<u8>>, k: int)
    requires
        0 <= k < v.len(),
    ensures
        all_bool(v.take(k + 1)) == (all_bool(v.take(k)) && is_bool_lit(v[k])),
        all_int(v.take(k + 1)) == (all_int(v.take(k)) && is_int_lit(v[k])),
        all_number(v.take(k + 1)) == (all_number(v.take(k)) && is_number_lit(v[k])),
{
    let t = v.take(k + 1);
    let u = v.take(k);
    assert(forall|j: int| 0 <= j < k ==> t[j] == #[trigger] u[j]);
    assert(t[k] == v[k]);
    if all_bool(t) {
        assert forall|j: int| 0 <= j < u.len() implies is_bool_lit(#[trigger] u[j]) by {
            assert(t[j] == u[j]);
        }
    }
    if all_int(t) {
        assert forall|j: int| 0 <= j < u.len() implies is_int_lit(#[trigger] u[j]) by {
            assert(t[j] == u[j]);
        }
    }
    if all_number(t) {
        assert forall|j: int| 0 <= j < u.len() implies is_number_lit(#[trigger] u[j]) by {
            assert(t[j] == u[j]);
        }
    }
}

/// Whether all words are booleans, all integers, all numbers.
fn list_flags(ws: &Vec<Vec<u8>>) -> (r: (bool, bool, bool))
    ensures
        r.0 == all_bool(texts_view(*ws)),
        r.1 == all_int(texts_view(*ws)),
        r.2 == all_number(texts_view(*ws)),
{
    let ghost v = texts_view(*ws);
    let mut b = true;
    let mut n = true;
    let mut f = true;
    let mut k: usize = 0;
    while k < ws.len()
        invariant
            k <= ws.len(),
            v == texts_view(*ws),
            b == all_bool(v.take(k as int)),
            n == all_int(v.take(k as int)),
            f == all_number(v.take(k as int)),
        decreases ws.len() - k,
    {
        let w = &ws[k];
        assert(v[k as int] == w@);
        let is_b = bool_literal(w.as_slice()).is_some();
        let is_i = int_literal(w.as_slice()).is_some();
        let is_f = is_i || float_literal(w.as_slice());
        proof {
            lemma_take_step(v, k as int);
        }
        b = b && is_b;
        n = n && is_i;
        f = f && is_f;
        k = k + 1;
    }
    assert(v.take(ws.len() as int) =~= v);
    (b, n, f)
}

/// The truth value of each word, `true` for `T` and `True`.
pub fn to_bools(ws: &Vec<Vec<u8>>) -> (r: Vec<bool>)
    ensures
        r@ == bools_of(texts_view(*ws)),
{
    let mut out: Vec<bool> = Vec::new();
    let mut k: usize = 0;
    while k < ws.len()
        invariant
            k <= ws.len(),
            out@ =~= bools_of(texts_view(*ws)).take(k as int),
        decreases ws.len() - k,
    {
        let t = bool_literal(ws[k].as_slice()) == Some(true);
        out.push(t);
        k = k + 1;
    }
    out
}

/// The value of each integer literal.
pub fn to_ints(ws: &Vec<Vec<u8>>) -> (r: Vec<i32>)
    requires
        all_int(texts_view(*ws)),
    ensures
        ints_view(r) == ints_of(texts_view(*ws)),
{
    let mut out: Vec<i32> = Vec::new();
    let mut k: usize = 0;
    while k < ws.len()
        invariant
            k <= ws.len(),
            all_int(texts_view(*ws)),
            ints_view(out) =~= ints_of(texts_view(*ws)).take(k as int),
        decreases ws.len() - k,
    {
        assert(is_int_lit(texts_view(*ws)[k as int]));
        let x = match int_literal(ws[k].as_slice()) {
            Some(x) => x,
            None => 0,
        };
        let ghost before = ints_view(out);
        out.push(x);
        assert(ints_view(out) =~= before.push(x as int));
        k = k + 1;
    }
    out
}

/// Types a list of words as one array.
pub fn coerce_list(ws: Vec<Vec<u8>>) -> (r: Value)
    ensures
        r@ == list_value(texts_view(ws)),
{
    let (b, n, f) = list_flags(&ws);
    if b {
        Value::BoolArray(to_bools(&ws))
    } else if n {
        Value::IntArray(to_ints(&ws))
    } else if f {
        Value::FloatArray(ws)
    } else {
        Value::StrArray(ws)
    }
}

fn find_byte(s: &[u8], b: u8) -> (r: bool)
    ensures
        r == has_byte(s@, b),
{
    let mut k: usize = 0;
    while k < s.len()
        invariant
            k <= s.len(),
            forall|j: int| 0 <= j < k ==> s@[j] != b,
        decreases s.len() - k,
    {
        if s[k] == b {
            return true;
        }
        k = k + 1;
    }
    false
}

/// Cuts the contents of a quoted matrix literal into rows of words.
fn split_rows(s: &[u8]) -> (r: Vec<Vec<Vec<u8>>>)
    ensures
        text_rows_view(r) == matrix_rows(s@),
{
    let ps = split_pieces(s, 47u8);
    let ghost pv = texts_view(ps);
    let mut rows: Vec<Vec<Vec<u8>>> = Vec::new();
    let mut k: usize = 0;
    while k < ps.len()
        invariant
            k <= ps.len(),
            pv == texts_view(ps),
            pv == pieces(s@, 47u8),
            text_rows_view(rows) =~= matrix_rows(s@).take(k as int),
        decreases ps.len() - k,
    {
        let row = split_words(ps[k].as_slice());
        let ghost before = text_rows_view(rows);
        let ghost rv = texts_view(row);
        rows.push(row);
        assert(text_rows_view(rows) =~= before.push(rv));
        k = k + 1;
    }
    rows
}

fn rectangular(m: &Vec<Vec<Vec<u8>>>) -> (r: bool)
    ensures
        r == is_rectangular(text_rows_view(*m)),
{
    let ghost v = text_rows_view(*m);
    if m.len() == 0 || m[0].len() == 0 {
        return false;
    }
    let w = m[0].len();
    let mut k: usize = 0;
    while k < m.len()
        invariant
            k <= m.len(),
            v == text_rows_view(*m),
            w == v[0].len(),
            forall|j: int| 0 <= j < k ==> (#[trigger] v[j]).len() == w,
        decreases m.len() - k,
    {
        assert(v[k as int].len() == m[k as int]@.len());
        if m[k].len() != w {
            return false;
        }
        k = k + 1;
    }
    true
}

/// Types a rectangular matrix of words.
fn coerce_matrix(m: Vec<Vec<Vec<u8>>>) -> (r: Value)
    ensures
        r@ == matrix_value(text_rows_view(m)),
{
    let ghost v = text_rows_view(m);
    let mut b = true;
    let mut n = true;
    let mut f = true;
    let mut k: usize = 0;
    while k < m.len()
        invariant
            k <= m.len(),
            v == text_rows_view(m),
            b == rows_all_bool(v.take(k as int)),
            n == rows_all_int(v.take(k as int)),
            f == rows_all_number(v.take(k as int)),
        decreases m.len() - k,
    {
        let (rb, rn, rf) = list_flags(&m[k]);
        let ghost t = v.take(k + 1);
        let ghost u = v.take(k as int);
        assert(forall|j: int| 0 <= j < k ==> t[j] == #[trigger] u[j]);
        assert(t[k as int] == v[k as int]);
        b = b && rb;
        n = n && rn;
        f = f && rf;
        k = k + 1;
    }
    assert(v.take(m.len() as int) =~= v);
    if b {
        let mut out: Vec<Vec<bool>> = Vec::new();
        let mut k: usize = 0;
        while k < m.len()
            invariant
                k <= m.len(),
                v == text_rows_view(m),
                bool_rows_view(out) =~= v.map_values(|r: Seq<Seq<u8>>| bools_of(r)).take(k as int),
            decreases m.len() - k,
        {
            let row = to_bools(&m[k]);
            let ghost before = bool_rows_view(out);
            let ghost rv = row@;
            out.push(row);
            assert(bool_rows_view(out) =~= before.push(rv));
            k = k + 1;
        }
        assert(bool_rows_view(out) =~= v.map_values(|r: Seq<Seq<u8>>| bools_of(r)));
        Value::MatrixBool(out)
    } else if n {
        let mut out: Vec<Vec<i32>> = Vec::new();
        let mut k: usize = 0;
        while k < m.len()
            invariant
                k <= m.len(),
                v == text_rows_view(m),
                rows_all_int(v),
                int_rows_view(out) =~= v.map_values(|r: Seq<Seq<u8>>| ints_of(r)).take(k as int),
            decreases m.len() - k,
        {
            assert(all_int(v[k as int]));
            let row = to_ints(&m[k]);
            let ghost before = int_rows_view(out);
            let ghost rv = ints_view(row);
            out.push(row);
            assert(int_rows_view(out) =~= before.push(rv));
            k = k + 1;
        }
        assert(int_rows_view(out) =~= v.map_values(|r: Seq<Seq<u8>>| ints_of(r)));
        Value::MatrixInt(out)
    } else if f {
        Value::MatrixFloat(m)
    } else {
        Value::MatrixStr(m)
    }
}

/// Types the contents of a quoted string; `None` where it is a matrix literal
/// whose rows are not all of one non-zero width.
pub fn coerce_quoted(s: &Vec<u8>) -> (r: Option<Value>)
    ensures
        match r {
            Some(v) => quoted_value(s@) == Some(v@),
            None => quoted_value(s@) is None,
        },
{
    if find_byte(s.as_slice(), 47u8) {
        let rows = split_rows(s.as_slice());
        if rectangular(&rows) {
            Some(coerce_matrix(rows))
        } else {
            None
        }
    } else {
        let ws = split_words(s.as_slice());
        if ws.len() == 0 {
            Some(Value::Str(s.clone()))
        } else if ws.len() == 1 {
            Some(coerce_scalar(&ws[0]))
        } else {
            Some(coerce_list(ws))
        }
    }
}

} // verus!
