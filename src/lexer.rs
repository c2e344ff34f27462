use vstd::prelude::*;

use crate::scalar::{byte_is_ws, is_ws};

verus! {

/// A lexeme of the comment line, with the byte offset where it starts.
#[derive(Debug)]
pub enum Token {
    /// A run of bytes that holds no whitespace, `=` or `"`.
    Word { text: Vec<u8>, at: usize },
    /// The contents of a double-quoted string, escapes resolved; `at` is the
    /// offset of the opening quote.
    Quoted { text: Vec<u8>, at: usize },
    Equals { at: usize },
}

/// The model of a `Token`.
pub enum SToken {
    Word(Seq<u8>, int),
    Quoted(Seq<u8>, int),
    Equals(int),
}

impl View for Token {
    type V = SToken;

    open spec fn view(&self) -> SToken {
        match self {
            Token::Word { text, at } => SToken::Word(text@, *at as int),
            Token::Quoted { text, at } => SToken::Quoted(text@, *at as int),
            Token::Equals { at } => SToken::Equals(*at as int),
        }
    }
}

/// Where the scanner stands: between tokens, inside a word, inside a quoted
/// string, or just after a backslash inside a quoted string.
#[derive(Clone, Copy, PartialEq, Eq, Structural)]
pub enum LexState {
    Gap,
    Word,
    Quoted,
    Escape,
}

/// `r` with the token `t` put in front, where it is a success.
pub open spec fn after(t: SToken, r: Result<Seq<SToken>, int>) -> Result<Seq<SToken>, int> {
    match r {
        Ok(ts) => Ok(seq![t] + ts),
        Err(e) => Err(e),
    }
}

/// `r` with the tokens `p` put in front, where it is a success.
pub open spec fn with_prefix(p: Seq<SToken>, r: Result<Seq<SToken>, int>) -> Result<Seq<SToken>, int> {
    match r {
        Ok(ts) => Ok(p + ts),
        Err(e) => Err(e),
    }
}

/// The tokens of `s` from offset `i` on, in state `st`, with `cur` read so far
/// of a token that began at `start`. The error is the offset of a quote that
/// is never closed.
pub open spec fn tokens_from(s: Seq<u8>, i: int, st: LexState, cur: Seq<u8>, start: int) -> Result<
    Seq<SToken>,
    int,
>
    decreases s.len() - i,
{
    if i >= s.len() {
        match st {
            LexState::Gap => Ok(seq![]),
            LexState::Word => Ok(seq![SToken::Word(cur, start)]),
            _ => Err(start),
        }
    } else {
        let b = s[i];
        match st {
            LexState::Gap => if is_ws(b) {
                tokens_from(s, i + 1, LexState::Gap, seq![], 0)
            } else if b == 61u8 {
                after(SToken::Equals(i), tokens_from(s, i + 1, LexState::Gap, seq![], 0))
            } else if b == 34u8 {
                tokens_from(s, i + 1, LexState::Quoted, seq![], i)
            } else {
                tokens_from(s, i + 1, LexState::Word, seq![b], i)
            },
            LexState::Word => if is_ws(b) {
                after(SToken::Word(cur, start), tokens_from(s, i + 1, LexState::Gap, seq![], 0))
            } else if b == 61u8 {
                after(
                    SToken::Word(cur, start),
                    after(SToken::Equals(i), tokens_from(s, i + 1, LexState::Gap, seq![], 0)),
                )
            } else if b == 34u8 {
                after(SToken::Word(cur, start), tokens_from(s, i + 1, LexState::Quoted, seq![], i))
            } else {
                tokens_from(s, i + 1, LexState::Word, cur.push(b), start)
            },
            LexState::Quoted => if b == 34u8 {
                after(SToken::Quoted(cur, start), tokens_from(s, i + 1, LexState::Gap, seq![], 0))
            } else if b == 92u8 {
                tokens_from(s, i + 1, LexState::Escape, cur, start)
            } else {
                tokens_from(s, i + 1, LexState::Quoted, cur.push(b), start)
            },
            LexState::Escape => tokens_from(s, i + 1, LexState::Quoted, cur.push(b), start),
        }
    }
}

/// The tokens of a comment line, or the offset of an unterminated quote.
pub open spec fn tokens(s: Seq<u8>) -> Result<Seq<SToken>, int> {
    tokens_from(s, 0, LexState::Gap, seq![], 0)
}

/// The model of a list of tokens.
pub open spec fn tokens_view(v: Vec<Token>) -> Seq<SToken> {
    v@.map_values(|t: Token| t@)
}

proof fn lemma_push_after(acc: Seq<SToken>, t: SToken, r: Result<Seq<SToken>, int>)
    ensures
        with_prefix(acc.push(t), r) == with_prefix(acc, after(t, r)),
{
    match r {
        Ok(ts) => {
            assert(acc.push(t) + ts =~= acc + (seq![t] + ts));
        },
        Err(_) => {},
    }
}

fn push_token(acc: &mut Vec<Token>, t: Token, Ghost(r): Ghost<Result<Seq<SToken>, int>>)
    ensures
        tokens_view(*final(acc)) == tokens_view(*old(acc)).push(t@),
        with_prefix(tokens_view(*final(acc)), r) == with_prefix(tokens_view(*old(acc)), after(t@, r)),
{
    let ghost v = t@;
    acc.push(t);
    proof {
        assert(tokens_view(*acc) =~= tokens_view(*old(acc)).push(v));
        lemma_push_after(tokens_view(*old(acc)), v, r);
    }
}

/// Splits a comment line into tokens. Fails with the offset of the opening
/// quote where a quoted string is not closed before the end of the line.
pub fn tokenize(s: &[u8]) -> (r: Result<Vec<Token>, usize>)
    ensures
        match r {
            Ok(ts) => tokens(s@) == Ok::<Seq<SToken>, int>(tokens_view(ts)),
            Err(at) => tokens(s@) == Err::<Seq<SToken>, int>(at as int),
        },
{
    let mut acc: Vec<Token> = Vec::new();
    let mut st = LexState::Gap;
    let mut cur: Vec<u8> = Vec::new();
    let mut start: usize = 0;
    let mut i: usize = 0;
    proof {
        assert(with_prefix(tokens_view(acc), tokens(s@)) == tokens(s@)) by {
            assert(tokens_view(acc) =~= seq![]);
            match tokens(s@) {
                Ok(ts) => { assert(seq![] + ts =~= ts); },
                Err(_) => {},
            }
        }
    }
    while i < s.len()
        invariant
            i <= s.len(),
            start <= i,
            st == LexState::Gap ==> cur@ == Seq::<u8>::empty(),
            with_prefix(tokens_view(acc), tokens_from(s@, i as int, st, cur@, start as int))
                == tokens(s@),
        decreases s.len() - i,
    {
        let b = s[i];
        let ghost rest_gap = tokens_from(s@, i + 1, LexState::Gap, seq![], 0);
        match st {
            LexState::Gap => {
                if byte_is_ws(b) {
                } else if b == 61u8 {
                    push_token(&mut acc, Token::Equals { at: i }, Ghost(rest_gap));
                } else if b == 34u8 {
                    st = LexState::Quoted;
                    start = i;
                } else {
                    st = LexState::Word;
                    cur = Vec::new();
                    cur.push(b);
                    start = i;
                    assert(cur@ =~= seq![b]);
                }
            },
            LexState::Word => {
                if byte_is_ws(b) {
                    let w = cur;
                    cur = Vec::new();
                    push_token(&mut acc, Token::Word { text: w, at: start }, Ghost(rest_gap));
                    st = LexState::Gap;
                    start = 0;
                } else if b == 61u8 {
                    let w = cur;
                    cur = Vec::new();
                    let ghost r2 = after(SToken::Equals(i as int), rest_gap);
                    push_token(&mut acc, Token::Word { text: w, at: start }, Ghost(r2));
                    push_token(&mut acc, Token::Equals { at: i }, Ghost(rest_gap));
                    st = LexState::Gap;
                    start = 0;
                } else if b == 34u8 {
                    let w = cur;
                    cur = Vec::new();
                    let ghost r2 = tokens_from(s@, i + 1, LexState::Quoted, seq![], i as int);
                    push_token(&mut acc, Token::Word { text: w, at: start }, Ghost(r2));
                    st = LexState::Quoted;
                    start = i;
                } else {
                    cur.push(b);
                }
            },
            LexState::Quoted => {
                if b == 34u8 {
                    let w = cur;
                    cur = Vec::new();
                    push_token(&mut acc, Token::Quoted { text: w, at: start }, Ghost(rest_gap));
                    st = LexState::Gap;
                    start = 0;
                } else if b == 92u8 {
                    st = LexState::Escape;
                } else {
                    cur.push(b);
                }
            },
            LexState::Escape => {
                cur.push(b);
                st = LexState::Quoted;
            },
        }
        i = i + 1;
    }
    match st {
        LexState::Gap => {
            assert(tokens_view(acc) + seq![] =~= tokens_view(acc));
            Ok(acc)
        },
        LexState::Word => {
            let ghost r0: Result<Seq<SToken>, int> = Ok(seq![]);
            push_token(&mut acc, Token::Word { text: cur, at: start }, Ghost(r0));
            assert(tokens_view(acc) + seq![] =~= tokens_view(acc));
            Ok(acc)
        },
        _ => Err(start),
    }
}

} // verus!
