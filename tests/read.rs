use extxyz::dict::DictHandler;
use extxyz::error::ParseError;
use extxyz::info::parse_comment;
use extxyz::read::{extxyz_read, extxyz_read_bytes};
use extxyz::scalar::{bool_literal, int_literal, float_literal};
use extxyz::shape::coerce_quoted;
use extxyz::value::Value;

fn key(s: &str) -> Vec<u8> {
    s.as_bytes().to_vec()
}

fn as_f64(t: &[u8]) -> f64 {
    std::str::from_utf8(t).unwrap().parse::<f64>().unwrap()
}

fn get<'a>(d: &'a DictHandler, k: &str) -> &'a Value {
    d.get(&key(k)).unwrap()
}

#[test]
fn extxyz_read_default() {
    let inp = r#"8
Lattice="5.44 0.0 0.0 0.0 5.44 0.0 0.0 0.0 5.44" Properties=species:S:1:pos:R:3 Time=0.0
Si        0.00000000      0.00000000      0.00000000
Si        1.36000000      1.36000000      1.36000000
Si        2.72000000      2.72000000      0.00000000
Si        4.08000000      4.08000000      1.36000000
Si        2.72000000      0.00000000      2.72000000
Si        4.08000000      1.36000000      4.08000000
Si        0.00000000      2.72000000      2.72000000
Si        1.36000000      4.08000000      4.08000000
"#;
    let (natoms, info, arr, comment) = extxyz_read(inp).unwrap();
    assert_eq!(natoms, 8);
    assert_eq!(info.len(), 3);
    match get(&info, "Lattice") {
        Value::FloatArray(v) => {
            assert_eq!(v.len(), 9);
            assert_eq!(as_f64(&v[0]), 5.44);
            assert_eq!(as_f64(&v[1]), 0.0);
        }
        other => panic!("unexpected {:?}", other),
    }
    assert!(matches!(get(&info, "Time"), Value::Float(t) if as_f64(t) == 0.0));
    match get(&arr, "species") {
        Value::StrArray(v) => {
            assert_eq!(v.len(), 8);
            assert!(v.iter().all(|s| s == b"Si"));
        }
        other => panic!("unexpected {:?}", other),
    }
    match get(&arr, "pos") {
        Value::MatrixFloat(m) => {
            assert_eq!(m.len(), 8);
            assert_eq!(m[1].len(), 3);
            assert_eq!(as_f64(&m[1][0]), 1.36);
            assert_eq!(as_f64(&m[7][2]), 4.08);
        }
        other => panic!("unexpected {:?}", other),
    }
    assert!(comment.starts_with(b"Lattice="));
}

#[test]
fn scenario_scalars_and_default_properties() {
    let inp = "2\nkey1=5 key2=3.5 key3=hello\nC 0.0 0.0 0.0\nC 1.0 1.0 1.0\n";
    let (n, info, arrays, comment) = extxyz_read(inp).unwrap();
    assert_eq!(n, 2);
    assert_eq!(info.len(), 3);
    assert!(matches!(get(&info, "key1"), Value::Int(5)));
    assert!(matches!(get(&info, "key2"), Value::Float(t) if as_f64(t) == 3.5));
    assert!(matches!(get(&info, "key3"), Value::Str(t) if t == b"hello"));
    assert_eq!(arrays.len(), 2);
    match get(&arrays, "species") {
        Value::StrArray(v) => assert_eq!(v, &vec![key("C"), key("C")]),
        other => panic!("unexpected {:?}", other),
    }
    match get(&arrays, "pos") {
        Value::MatrixFloat(m) => {
            let vals: Vec<Vec<f64>> = m.iter().map(|r| r.iter().map(|c| as_f64(c)).collect()).collect();
            assert_eq!(vals, vec![vec![0.0, 0.0, 0.0], vec![1.0, 1.0, 1.0]]);
        }
        other => panic!("unexpected {:?}", other),
    }
    assert_eq!(comment, key("key1=5 key2=3.5 key3=hello"));
}

#[test]
fn scenario_lattice_matrix() {
    let inp = "1\nLattice=\"1.0 0.0 0.0/0.0 1.0 0.0/0.0 0.0 1.0\" Properties=species:S:1:pos:R:3\nH 0 0 0\n";
    let (_, info, _, _) = extxyz_read(inp).unwrap();
    match get(&info, "Lattice") {
        Value::MatrixFloat(m) => {
            let vals: Vec<Vec<f64>> = m.iter().map(|r| r.iter().map(|c| as_f64(c)).collect()).collect();
            assert_eq!(vals, vec![vec![1.0, 0.0, 0.0], vec![0.0, 1.0, 0.0], vec![0.0, 0.0, 1.0]]);
        }
        other => panic!("unexpected {:?}", other),
    }
}

#[test]
fn scenario_unterminated_quote() {
    let inp = "1\nkey=\"unterminated\nH 0 0 0\n";
    assert_eq!(extxyz_read(inp).err(), Some(ParseError::LexError { at: 4 }));
}

#[test]
fn ragged_matrix_fails() {
    assert!(coerce_quoted(&key("1 2/3")).is_none());
    assert!(coerce_quoted(&key("1 2/3 4 5")).is_none());
    assert!(coerce_quoted(&key("1 2/")).is_none());
    let inp = "0\nok=1 m=\"1 2/3\"\n";
    assert_eq!(extxyz_read(inp).err(), Some(ParseError::RaggedMatrix { at: 7 }));
}

#[test]
fn duplicate_key_keeps_second_value() {
    let d = parse_comment(b"k=1 other=x k=2").unwrap();
    assert_eq!(d.len(), 2);
    assert!(matches!(get(&d, "k"), Value::Int(2)));
    let (first_key, _) = d.entry(0);
    assert_eq!(first_key, &key("k"));
}

#[test]
fn field_count_checked_per_row() {
    let props = "Properties=species:S:1:pos:R:3:vel:R:3";
    let good = format!("2\n{}\nC 0 0 0 1 1 1\nC 1 1 1 0 0 0\n", props);
    let (_, _, arrays, _) = extxyz_read(&good).unwrap();
    assert!(matches!(get(&arrays, "vel"), Value::MatrixFloat(m) if m.len() == 2 && m[0].len() == 3));
    let short = format!("2\n{}\nC 0 0 0 1 1 1\nC 1 1 1 0 0\n", props);
    assert_eq!(
        extxyz_read(&short).err(),
        Some(ParseError::RowFieldCountMismatch { row: 1, expected: 7, actual: 6 })
    );
    let long = format!("2\n{}\nC 0 0 0 1 1 1 9\nC 1 1 1 0 0 0\n", props);
    assert_eq!(
        extxyz_read(&long).err(),
        Some(ParseError::RowFieldCountMismatch { row: 0, expected: 7, actual: 8 })
    );
}

#[test]
fn boolean_literals_exact() {
    assert_eq!(bool_literal(b"T"), Some(true));
    assert_eq!(bool_literal(b"F"), Some(false));
    assert_eq!(bool_literal(b"True"), Some(true));
    assert_eq!(bool_literal(b"False"), Some(false));
    assert_eq!(bool_literal(b"t"), None);
    assert_eq!(bool_literal(b"true"), None);
    assert_eq!(bool_literal(b"TRUE"), None);
    let d = parse_comment(b"a=T b=F c=t d=true e=\"T F T\"").unwrap();
    assert!(matches!(get(&d, "a"), Value::Bool(true)));
    assert!(matches!(get(&d, "b"), Value::Bool(false)));
    assert!(matches!(get(&d, "c"), Value::Str(t) if t == b"t"));
    assert!(matches!(get(&d, "d"), Value::Str(t) if t == b"true"));
    assert!(matches!(get(&d, "e"), Value::BoolArray(v) if v == &vec![true, false, true]));
}

#[test]
fn parsing_twice_gives_same_dictionary() {
    let line = b"a=1 b=\"1 2 3\" c=x d=\"1 2/3 4\" a=2.5";
    let d1 = parse_comment(line).unwrap();
    let d2 = parse_comment(line).unwrap();
    assert_eq!(format!("{:?}", d1), format!("{:?}", d2));
}

#[test]
fn number_literals() {
    assert_eq!(int_literal(b"42"), Some(42));
    assert_eq!(int_literal(b"-7"), Some(-7));
    assert_eq!(int_literal(b"+3"), Some(3));
    assert_eq!(int_literal(b"2147483647"), Some(2147483647));
    assert_eq!(int_literal(b"-2147483648"), Some(-2147483648));
    assert_eq!(int_literal(b"2147483648"), None);
    assert_eq!(int_literal(b"1.0"), None);
    assert_eq!(int_literal(b"-"), None);
    assert!(float_literal(b"1.5e-3"));
    assert!(float_literal(b".5"));
    assert!(float_literal(b"5."));
    assert!(float_literal(b"-2E+10"));
    assert!(!float_literal(b"."));
    assert!(!float_literal(b"1e"));
    assert!(!float_literal(b"abc"));
    let d = parse_comment(b"big=99999999999 e=1e3 mixed=\"1 2.5\" words=\"1 x\" ints=\"1 2 3\"").unwrap();
    assert!(matches!(get(&d, "big"), Value::Float(t) if t == b"99999999999"));
    assert!(matches!(get(&d, "e"), Value::Float(t) if as_f64(t) == 1000.0));
    assert!(matches!(get(&d, "mixed"), Value::FloatArray(v) if v.len() == 2));
    assert!(matches!(get(&d, "words"), Value::StrArray(v) if v == &vec![key("1"), key("x")]));
    assert!(matches!(get(&d, "ints"), Value::IntArray(v) if v == &vec![1, 2, 3]));
}

#[test]
fn quoted_scalars_and_escapes() {
    let d = parse_comment(b"q=\"7\" s=\"a\\\"b\" e=\"\" m=\"1 2/3 4\"").unwrap();
    assert!(matches!(get(&d, "q"), Value::Int(7)));
    assert!(matches!(get(&d, "s"), Value::Str(t) if t == b"a\"b"));
    assert!(matches!(get(&d, "e"), Value::Str(t) if t.is_empty()));
    assert!(matches!(get(&d, "m"), Value::MatrixInt(m) if m == &vec![vec![1, 2], vec![3, 4]]));
}

#[test]
fn grammar_errors() {
    assert_eq!(parse_comment(b"key value").err(), Some(ParseError::GrammarError { line: 1, at: 4 }));
    assert_eq!(parse_comment(b"key=").err(), Some(ParseError::GrammarError { line: 1, at: 4 }));
    assert_eq!(parse_comment(b"=v").err(), Some(ParseError::GrammarError { line: 1, at: 0 }));
    assert_eq!(extxyz_read("x\na=1\n").err(), Some(ParseError::GrammarError { line: 0, at: 0 }));
    assert_eq!(extxyz_read("1").err(), Some(ParseError::GrammarError { line: 1, at: 0 }));
}

#[test]
fn row_errors() {
    assert_eq!(
        extxyz_read("3\na=1\nH 0 0 0\n").err(),
        Some(ParseError::RowCountMismatch { expected: 3, actual: 1 })
    );
    assert_eq!(
        extxyz_read("1\na=1\nH 0 x 0\n").err(),
        Some(ParseError::TypeCoercionError { row: 0, field: 2 })
    );
    assert_eq!(
        extxyz_read("1\nProperties=species:S:1:pos:Q:3\nH 0 0 0\n").err(),
        Some(ParseError::PropertiesError)
    );
    assert_eq!(extxyz_read("1\nProperties=5\nH 0 0 0\n").err(), Some(ParseError::PropertiesError));
}

#[test]
fn typed_columns() {
    let inp = "2\nProperties=id:I:1:fixed:L:3:tag:S:1\n1 T F T a\n-2 F F F b\n";
    let (_, _, arrays, _) = extxyz_read_bytes(inp.as_bytes()).unwrap();
    assert!(matches!(get(&arrays, "id"), Value::IntArray(v) if v == &vec![1, -2]));
    assert!(matches!(get(&arrays, "fixed"), Value::MatrixBool(m) if m == &vec![vec![true, false, true], vec![false, false, false]]));
    assert!(matches!(get(&arrays, "tag"), Value::StrArray(v) if v == &vec![key("a"), key("b")]));
    assert_eq!(
        extxyz_read("1\nProperties=id:I:1\n1.5\n").err(),
        Some(ParseError::TypeCoercionError { row: 0, field: 0 })
    );
}

#[test]
fn empty_comment_and_zero_atoms() {
    let (n, info, arrays, comment) = extxyz_read("0\n\n").unwrap();
    assert_eq!(n, 0);
    assert_eq!(info.len(), 0);
    assert!(comment.is_empty());
    assert!(matches!(get(&arrays, "species"), Value::StrArray(v) if v.is_empty()));
    assert!(matches!(get(&arrays, "pos"), Value::MatrixFloat(m) if m.is_empty()));
    let (n, _, _, _) = extxyz_read("  3  \nProperties=x:I:1\n1\n2\n3\nextra line\n").unwrap();
    assert_eq!(n, 3);
}
