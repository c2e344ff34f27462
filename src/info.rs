use vstd::prelude::*;

use crate::dict::{build, DictHandler, Entries};
use crate::error::ParseError;
use crate::lexer::{tokenize, tokens, tokens_view, SToken, Token};
use crate::scalar::{coerce_scalar, scalar_of};
use crate::shape::{coerce_quoted, quoted_value};
use crate::value::{SValue, Value};

verus! {

/// The offset of a token.
pub open spec fn token_at(t: SToken) -> int {
    match t {
        SToken::Word(_, a) => a,
        SToken::Quoted(_, a) => a,
        SToken::Equals(a) => a,
    }
}

/// The offset of token `j`, or `end` past the last token.
pub open spec fn pos_of(ts: Seq<SToken>, j: int, end: int) -> int {
    if 0 <= j < ts.len() { token_at(ts[j]) } else { end }
}

/// A token that can stand as a value: a word or a quoted string.
pub open spec fn is_value_token(t: SToken) -> bool {
    t is Word || t is Quoted
}

/// `r` with the pair `p` put in front, where it is a success.
pub open spec fn prepend_pair(p: (Seq<u8>, SToken), r: Result<Seq<(Seq<u8>, SToken)>, int>) -> Result<
    Seq<(Seq<u8>, SToken)>,
    int,
> {
    match r {
        Ok(ps) => Ok(seq![p] + ps),
        Err(e) => Err(e),
    }
}

/// The `key=value` pairs of the tokens from `i` on: a word, `=`, then a word
/// or a quoted string. The error is the offset where the grammar fails, `end`
/// where the line ends too early.
pub open spec fn pairs_from(ts: Seq<SToken>, i: int, end: int) -> Result<Seq<(Seq<u8>, SToken)>, int>
    decreases ts.len() - i,
{
    if i < 0 || i >= ts.len() {
        Ok(seq![])
    } else {
        match ts[i] {
            SToken::Word(k, _) => if i + 1 < ts.len() && ts[i + 1] is Equals {
                if i + 2 < ts.len() && is_value_token(ts[i + 2]) {
                    prepend_pair((k, ts[i + 2]), pairs_from(ts, i + 3, end))
                } else {
                    Err(pos_of(ts, i + 2, end))
                }
            } else {
                Err(pos_of(ts, i + 1, end))
            },
            _ => Err(token_at(ts[i])),
        }
    }
}

/// The typed value of a value token; `None` for a ragged quoted matrix.
pub open spec fn token_value(t: SToken) -> Option<SValue> {
    match t {
        SToken::Word(w, _) => Some(scalar_of(w)),
        SToken::Quoted(q, _) => quoted_value(q),
        SToken::Equals(_) => None,
    }
}

/// The value of the pair does not type.
pub open spec fn pair_fails(p: (Seq<u8>, SToken)) -> bool {
    token_value(p.1) is None
}

/// The pairs with their values typed, where none fails.
pub open spec fn typed(ps: Seq<(Seq<u8>, SToken)>) -> Entries {
    ps.map_values(|p: (Seq<u8>, SToken)| (p.0, token_value(p.1)->0))
}

/// `j` is the first pair whose value fails to type.
pub open spec fn first_fail_at(ps: Seq<(Seq<u8>, SToken)>, j: int) -> bool {
    0 <= j < ps.len() && pair_fails(ps[j]) && forall|i: int| 0 <= i < j ==> !pair_fails(
        #[trigger] ps[i],
    )
}

/// The info dictionary of a comment line.
pub open spec fn comment_info(s: Seq<u8>) -> Result<Entries, ParseError> {
    match tokens(s) {
        Err(at) => Err(ParseError::LexError { at: at as usize }),
        Ok(ts) => match pairs_from(ts, 0, s.len() as int) {
            Err(at) => Err(ParseError::GrammarError { line: 1, at: at as usize }),
            Ok(ps) => if exists|j: int| first_fail_at(ps, j) {
                Err(
                    ParseError::RaggedMatrix {
                        at: token_at(ps[choose|j: int| first_fail_at(ps, j)].1) as usize,
                    },
                )
            } else {
                Ok(build(typed(ps)))
            },
        },
    }
}

/// `r` with the pairs `p` put in front, where it is a success.
pub open spec fn with_pairs(p: Seq<(Seq<u8>, SToken)>, r: Result<Seq<(Seq<u8>, SToken)>, int>) -> Result<
    Seq<(Seq<u8>, SToken)>,
    int,
> {
    match r {
        Ok(ps) => Ok(p + ps),
        Err(e) => Err(e),
    }
}

/// The text of a word token.
pub open spec fn word_text(t: SToken) -> Seq<u8> {
    match t {
        SToken::Word(w, _) => w,
        _ => seq![],
    }
}

/// Pair `m` is the word at token `3 * m` and the value at token `3 * m + 2`.
pub open spec fn pair_matches(tv: Seq<SToken>, ps: Seq<(Seq<u8>, SToken)>, m: int) -> bool {
    &&& tv[3 * m] is Word
    &&& ps[m].0 == word_text(tv[3 * m])
    &&& ps[m].1 == tv[3 * m + 2]
    &&& is_value_token(tv[3 * m + 2])
}

/// Checks the `key=value` grammar over the tokens; on success, pair `m` is the
/// word at `3 * m` and the value at `3 * m + 2`.
fn check_pairs(ts: &Vec<Token>, end: usize) -> (r: Result<Ghost<Seq<(Seq<u8>, SToken)>>, usize>)
    ensures
        match r {
            Ok(ps) => {
                &&& pairs_from(tokens_view(*ts), 0, end as int) == Ok::<
                    Seq<(Seq<u8>, SToken)>,
                    int,
                >(ps@)
                &&& ps@.len() * 3 == ts.len()
                &&& forall|m: int|
                    0 <= m < ps@.len() ==> #[trigger] pair_matches(
                        tokens_view(*ts),
                        ps@,
                        m,
                    )
            },
            Err(at) => pairs_from(tokens_view(*ts), 0, end as int) == Err::<
                Seq<(Seq<u8>, SToken)>,
                int,
            >(at as int),
        },
{
    let ghost tv = tokens_view(*ts);
    let ghost mut acc: Seq<(Seq<u8>, SToken)> = seq![];
    let mut i: usize = 0;
    assert(with_pairs(acc, pairs_from(tv, 0, end as int)) == pairs_from(tv, 0, end as int)) by {
        match pairs_from(tv, 0, end as int) {
            Ok(ps) => { assert(acc + ps =~= ps); },
            Err(_) => {},
        }
    }
    while i < ts.len()
        invariant
            tv == tokens_view(*ts),
            tv.len() == ts.len(),
            i <= ts.len(),
            acc.len() * 3 == i,
            with_pairs(acc, pairs_from(tv, i as int, end as int)) == pairs_from(tv, 0, end as int),
            forall|m: int| 0 <= m < acc.len() ==> #[trigger] pair_matches(tv, acc, m),
        decreases ts.len() - i,
    {
        assert(tv[i as int] == ts@[i as int]@);
        match &ts[i] {
            Token::Word { .. } => {},
            Token::Quoted { at, .. } => { return Err(*at); },
            Token::Equals { at } => { return Err(*at); },
        }
        if i + 1 >= ts.len() {
            return Err(end);
        }
        assert(tv[i + 1] == ts@[i + 1]@);
        match &ts[i + 1] {
            Token::Equals { .. } => {},
            Token::Word { at, .. } => { return Err(*at); },
            Token::Quoted { at, .. } => { return Err(*at); },
        }
        if i + 2 >= ts.len() {
            return Err(end);
        }
        assert(tv[i + 2] == ts@[i + 2]@);
        match &ts[i + 2] {
            Token::Equals { at } => { return Err(*at); },
            _ => {},
        }
        let ghost pair = (word_text(tv[i as int]), tv[i + 2]);
        proof {
            let rest = pairs_from(tv, i + 3, end as int);
            match rest {
                Ok(ps) => { assert(acc.push(pair) + ps =~= acc + (seq![pair] + ps)); },
                Err(_) => {},
            }
            let old_acc = acc;
            acc = acc.push(pair);
            assert forall|m: int| 0 <= m < acc.len() implies #[trigger] pair_matches(tv, acc, m) by {
                if m < old_acc.len() {
                    assert(pair_matches(tv, old_acc, m));
                    assert(acc[m] == old_acc[m]);
                } else {
                    assert(3 * m == i);
                }
            }
        }
        i = i + 3;
    }
    proof {
        assert(acc + Seq::<(Seq<u8>, SToken)>::empty() =~= acc);
    }
    Ok(Ghost(acc))
}

/// Parses a comment line into its info dictionary: `key=value` pairs apart
/// by whitespace, each value typed, a later pair overriding an earlier one
/// with the same key.
pub fn parse_comment(s: &[u8]) -> (r: Result<DictHandler, ParseError>)
    ensures
        match r {
            Ok(d) => comment_info(s@) == Ok::<Entries, ParseError>(d@),
            Err(e) => comment_info(s@) == Err::<Entries, ParseError>(e),
        },
{
    let ts = match tokenize(s) {
        Ok(ts) => ts,
        Err(at) => { return Err(ParseError::LexError { at }); },
    };
    let ghost tv = tokens_view(ts);
    let ps = match check_pairs(&ts, s.len()) {
        Ok(ps) => ps,
        Err(at) => { return Err(ParseError::GrammarError { line: 1, at }); },
    };
    let ghost pv = ps@;
    let n = ts.len() / 3;
    let mut d = DictHandler::new();
    let mut m: usize = 0;
    while m < n
        invariant
            n == pv.len(),
            n * 3 == ts.len(),
            tv == tokens_view(ts),
            tokens(s@) == Ok::<Seq<SToken>, int>(tv),
            pairs_from(tv, 0, s@.len() as int) == Ok::<Seq<(Seq<u8>, SToken)>, int>(pv),
            m <= n,
            forall|j: int| 0 <= j < pv.len() ==> #[trigger] pair_matches(tv, pv, j),
            forall|j: int| 0 <= j < m ==> !pair_fails(#[trigger] pv[j]),
            d@ == build(typed(pv.take(m as int))),
        decreases n - m,
    {
        proof {
            assert(pair_matches(tv, pv, m as int));
            assert(tv[3 * m] == ts@[3 * m]@);
            assert(tv[3 * m + 2] == ts@[3 * m + 2]@);
        }
        let key = match &ts[3 * m] {
            Token::Word { text, .. } => text.clone(),
            _ => Vec::new(),
        };
        let v = match &ts[3 * m + 2] {
            Token::Word { text, .. } => coerce_scalar(text),
            Token::Quoted { text, at } => match coerce_quoted(text) {
                Some(v) => v,
                None => {
                    proof {
                        assert(pv[m as int].1 == SToken::Quoted(text@, *at as int));
                        assert(pair_fails(pv[m as int]));
                        assert(first_fail_at(pv, m as int));
                        let c = choose|j: int| first_fail_at(pv, j);
                        if c < m {
                            assert(!pair_fails(pv[c]));
                        } else if c > m {
                            assert(pair_fails(pv[m as int]));
                        }
                        assert(c == m);
                        assert(token_at(pv[c].1) == *at as int);
                    }
                    return Err(ParseError::RaggedMatrix { at: *at });
                },
            },
            Token::Equals { .. } => Value::Unsupported,
        };
        proof {
            let t1 = typed(pv.take(m + 1));
            assert(t1.drop_last() =~= typed(pv.take(m as int)));
            assert(t1.last() == (key@, v@));
        }
        d.insert(key, v);
        m = m + 1;
    }
    proof {
        assert(pv.take(n as int) =~= pv);
        assert(!exists|j: int| first_fail_at(pv, j));
    }
    Ok(d)
}

} // verus!
