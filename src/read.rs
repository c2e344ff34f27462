use vstd::prelude::*;
use vstd::string::StringSliceAdditionalSpecFns;

use crate::dict::{build, lookup, DictHandler, Entries};
use crate::error::ParseError;
use crate::info::{comment_info, parse_comment};
use crate::properties::{default_properties, default_properties_text, descriptor, parse_properties};
use crate::rows::{array_pairs, read_rows, rows_error, rows_ok, table};
use crate::scalar::{int_literal, int_text_value, is_int_lit};
use crate::shape::{pieces, split_pieces, split_words, words};
use crate::value::{SValue, Value, texts_view};

verus! {

/// The lines of the input, cut at each newline; a newline that ends the
/// input starts no further line.
pub open spec fn input_lines(s: Seq<u8>) -> Seq<Seq<u8>> {
    let p = pieces(s, 10u8);
    if p.len() > 1 && p.last().len() == 0 {
        p.drop_last()
    } else {
        p
    }
}

/// The atom count of the first line: one non-negative integer, whitespace
/// around it allowed.
pub open spec fn atom_count(line: Seq<u8>) -> Option<int> {
    let ws = words(line);
    if ws.len() == 1 && is_int_lit(ws[0]) && int_text_value(ws[0]) >= 0 {
        Some(int_text_value(ws[0]))
    } else {
        None
    }
}

/// The reserved key `Properties`.
pub open spec fn properties_key() -> Seq<u8> {
    seq![80u8, 114u8, 111u8, 112u8, 101u8, 114u8, 116u8, 105u8, 101u8, 115u8]
}

/// The descriptor text of an info dictionary: its `Properties` string, or the
/// default where it has none. `None` where `Properties` is not a string.
pub open spec fn properties_text(info: Entries) -> Option<Seq<u8>> {
    match lookup(info, properties_key()) {
        None => Some(default_properties()),
        Some(SValue::Str(t)) => Some(t),
        Some(_) => None,
    }
}

/// `res` is what reading the configuration `s` gives: the atom count, the
/// info dictionary of the comment line, one array per declared column, and the
/// comment line itself; or the error of the first stage that fails.
pub open spec fn reads_as(s: Seq<u8>, res: Result<(int, Entries, Entries, Seq<u8>), ParseError>) -> bool {
    let ls = input_lines(s);
    match atom_count(ls[0]) {
        None => res == Err::<(int, Entries, Entries, Seq<u8>), ParseError>(ParseError::GrammarError { line: 0, at: 0 }),
        Some(n) => if ls.len() < 2 {
            res == Err::<(int, Entries, Entries, Seq<u8>), ParseError>(ParseError::GrammarError { line: 1, at: 0 })
        } else {
            match comment_info(ls[1]) {
                Err(e) => res == Err::<(int, Entries, Entries, Seq<u8>), ParseError>(e),
                Ok(info) => match properties_text(info) {
                    None => res == Err::<(int, Entries, Entries, Seq<u8>), ParseError>(ParseError::PropertiesError),
                    Some(p) => match descriptor(p) {
                        None => res == Err::<(int, Entries, Entries, Seq<u8>), ParseError>(ParseError::PropertiesError),
                        Some(cols) => if rows_ok(ls, cols, n) {
                            res == Ok::<(int, Entries, Entries, Seq<u8>), ParseError>(
                                (n, info, build(array_pairs(cols, table(ls, n))), ls[1]),
                            )
                        } else {
                            match res {
                                Err(e) => rows_error(ls, cols, n, e),
                                Ok(_) => false,
                            }
                        },
                    },
                },
            }
        },
    }
}

fn read_count(line: &Vec<u8>) -> (r: Option<i32>)
    ensures
        match r {
            Some(n) => atom_count(line@) == Some(n as int) && n >= 0,
            None => atom_count(line@) is None,
        },
{
    let ws = split_words(line.as_slice());
    if ws.len() != 1 {
        return None;
    }
    assert(texts_view(ws)[0] == ws[0]@);
    match int_literal(ws[0].as_slice()) {
        Some(n) => if n >= 0 { Some(n) } else { None },
        None => None,
    }
}

/// Reads one extxyz configuration: the atom count on the first line, the
/// `key=value` comment line, then one row per atom whose fields follow the
/// `Properties` descriptor (`species:S:1:pos:R:3` where the comment line has
/// none). Returns the count, the info dictionary, the per-atom arrays and the
/// comment line; lines after the last atom row are not read.
pub fn extxyz_read_bytes(s: &[u8]) -> (r: Result<(i32, DictHandler, DictHandler, Vec<u8>), ParseError>)
    ensures
        reads_as(
            s@,
            match r {
                Ok((n, info, arrays, comment)) => Ok((n as int, info@, arrays@, comment@)),
                Err(e) => Err(e),
            },
        ),
{
    let mut ls = split_pieces(s, 10u8);
    if ls.len() > 1 && ls[ls.len() - 1].len() == 0 {
        let ghost before = texts_view(ls);
        ls.pop();
        assert(texts_view(ls) =~= before.drop_last());
    }
    let ghost lv = texts_view(ls);
    assert(lv == input_lines(s@));
    assert(lv[0] == ls[0]@);
    let n = match read_count(&ls[0]) {
        Some(n) => n,
        None => { return Err(ParseError::GrammarError { line: 0, at: 0 }); },
    };
    if ls.len() < 2 {
        return Err(ParseError::GrammarError { line: 1, at: 0 });
    }
    assert(lv[1] == ls[1]@);
    let info = match parse_comment(ls[1].as_slice()) {
        Ok(d) => d,
        Err(e) => { return Err(e); },
    };
    let key: Vec<u8> = vec![80u8, 114u8, 111u8, 112u8, 101u8, 114u8, 116u8, 105u8, 101u8, 115u8];
    assert(key@ =~= properties_key());
    let ptext = match info.get(&key) {
        None => default_properties_text(),
        Some(Value::Str(t)) => t.clone(),
        Some(_) => { return Err(ParseError::PropertiesError); },
    };
    let cols = match parse_properties(ptext.as_slice()) {
        Some(c) => c,
        None => { return Err(ParseError::PropertiesError); },
    };
    let arrays = match read_rows(&ls, &cols, n as usize) {
        Ok(d) => d,
        Err(e) => { return Err(e); },
    };
    Ok((n, info, arrays, ls[1].clone()))
}

/// Reads one extxyz configuration from text; see `extxyz_read_bytes`.
pub fn extxyz_read(input: &str) -> (r: Result<(i32, DictHandler, DictHandler, Vec<u8>), ParseError>)
    ensures
        reads_as(
            input.spec_bytes(),
            match r {
                Ok((n, info, arrays, comment)) => Ok((n as int, info@, arrays@, comment@)),
                Err(e) => Err(e),
            },
        ),
{
    extxyz_read_bytes(input.as_bytes())
}

} // verus!
