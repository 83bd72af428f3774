use std::cmp::Ordering;
use table::f64_conv::Binary64;
use table::json::{
    json_decode, json_decode_all, json_encode, json_float_literals, json_floats, json_tokens,
    json_typeid, unescape_str, JSONParseError, Token, JSON,
};

fn float(x: f64) -> JSON {
    JSON::Float(Binary64::from_bits(x.to_bits()))
}

fn floats_for(s: &str) -> Vec<Binary64> {
    json_float_literals(s)
        .iter()
        .map(|t| Binary64::from_bits(t.parse::<f64>().unwrap().to_bits()))
        .collect()
}

fn decode(s: &str) -> Result<JSON, JSONParseError> {
    json_decode(s, &floats_for(s))
}

fn decode_all(s: &str) -> Result<Vec<JSON>, JSONParseError> {
    json_decode_all(s, &floats_for(s))
}

fn encode(j: &JSON) -> String {
    let texts: Vec<String> = json_floats(j)
        .iter()
        .map(|x| format!("{}", f64::from_bits(x.to_bits())))
        .collect();
    json_encode(j, &texts)
}

fn tokens(s: &str) -> Vec<(Token, String)> {
    json_tokens(s)
}

fn tok(kind: Token, text: &str) -> (Token, String) {
    (kind, text.to_string())
}

fn unexpected(r: Result<JSON, JSONParseError>) -> String {
    match r {
        Err(JSONParseError::UnexpectedToken(t)) => t,
        other => panic!("expected an unexpected token, got {:?}", other),
    }
}

#[test]
fn tokens_of_a_mixed_text() {
    assert_eq!(
        tokens("[1, -2.5e3, \"a b\", null,{\"k\":true}]"),
        vec![
            tok(Token::Punctuation, "["),
            tok(Token::Int, "1"),
            tok(Token::Punctuation, ","),
            tok(Token::Float, "-2.5e3"),
            tok(Token::Punctuation, ","),
            tok(Token::String, "\"a b\""),
            tok(Token::Punctuation, ","),
            tok(Token::Identifier, "null"),
            tok(Token::Punctuation, ","),
            tok(Token::Punctuation, "{"),
            tok(Token::String, "\"k\""),
            tok(Token::Punctuation, ":"),
            tok(Token::Identifier, "true"),
            tok(Token::Punctuation, "}"),
            tok(Token::Punctuation, "]"),
        ]
    );
}

#[test]
fn tokens_at_the_edges() {
    assert_eq!(tokens(""), vec![]);
    assert_eq!(tokens("   \t\n "), vec![]);
    assert_eq!(tokens("1 "), vec![tok(Token::Int, "1")]);
    assert_eq!(tokens(" x"), vec![tok(Token::Identifier, "x")]);
    assert_eq!(tokens("-"), vec![tok(Token::Punctuation, "-")]);
    assert_eq!(tokens("-x"), vec![tok(Token::Punctuation, "-"), tok(Token::Identifier, "x")]);
    assert_eq!(tokens("-12"), vec![tok(Token::Int, "-12")]);
    assert_eq!(tokens("1e"), vec![tok(Token::Float, "1e")]);
    assert_eq!(tokens("1e+"), vec![tok(Token::Float, "1e+")]);
    assert_eq!(tokens("1E-7x"), vec![tok(Token::Float, "1E-7"), tok(Token::Identifier, "x")]);
    assert_eq!(
        tokens("1.2.3"),
        vec![tok(Token::Float, "1.2"), tok(Token::Punctuation, "."), tok(Token::Int, "3")]
    );
    assert_eq!(tokens("1.e5"), vec![tok(Token::Float, "1.e5")]);
    assert_eq!(tokens("12ab"), vec![tok(Token::Int, "12"), tok(Token::Identifier, "ab")]);
    assert_eq!(tokens("\"a\\\"b\"c"), vec![tok(Token::String, "\"a\\\"b\""), tok(Token::Identifier, "c")]);
    assert_eq!(tokens("\"open"), vec![tok(Token::String, "\"open")]);
    assert_eq!(tokens("\"open\\"), vec![tok(Token::String, "\"open\\")]);
    assert_eq!(tokens("::"), vec![tok(Token::Punctuation, ":"), tok(Token::Punctuation, ":")]);
    assert_eq!(tokens("é1"), vec![tok(Token::Punctuation, "é"), tok(Token::Int, "1")]);
    assert_eq!(tokens("a\u{2003}b"), vec![tok(Token::Identifier, "a"), tok(Token::Identifier, "b")]);
}

#[test]
fn unescape_strips_quotes_and_backslashes() {
    assert_eq!(unescape_str("\"\""), "");
    assert_eq!(unescape_str("\"abc\""), "abc");
    assert_eq!(unescape_str("\"a\\\"b\""), "a\"b");
    assert_eq!(unescape_str("\"a\\\\b\\n\""), "abn");
}

#[test]
fn decode_scalars() {
    assert_eq!(decode("null").unwrap(), JSON::Null);
    assert_eq!(decode("true").unwrap(), JSON::Bool(true));
    assert_eq!(decode("false").unwrap(), JSON::Bool(false));
    assert_eq!(decode("infinity").unwrap(), JSON::Infinity);
    assert_eq!(decode("42").unwrap(), JSON::Int(42));
    assert_eq!(decode("-9223372036854775808").unwrap(), JSON::Int(i64::MIN));
    assert_eq!(decode("9223372036854775807").unwrap(), JSON::Int(i64::MAX));
    assert_eq!(decode("2.5").unwrap(), float(2.5));
    assert_eq!(decode("-1e3").unwrap(), float(-1000.0));
    assert_eq!(decode("\"x y\"").unwrap(), JSON::String("x y".to_string()));
    match decode("2.5").unwrap() {
        JSON::Float(x) => assert_eq!(x.to_bits(), 2.5f64.to_bits()),
        other => panic!("not a float: {:?}", other),
    }
    match decode("3").unwrap() {
        JSON::Int(3) => {}
        other => panic!("not an integer: {:?}", other),
    }
}

#[test]
fn decode_arrays_and_objects() {
    assert_eq!(decode("[]").unwrap(), JSON::Array(vec![]));
    assert_eq!(decode("{}").unwrap(), JSON::Object(vec![]));
    assert_eq!(
        decode("[1, [2, []], {\"a\": [3]}]").unwrap(),
        JSON::Array(vec![
            JSON::Int(1),
            JSON::Array(vec![JSON::Int(2), JSON::Array(vec![])]),
            JSON::Object(vec![("a".to_string(), JSON::Array(vec![JSON::Int(3)]))]),
        ])
    );
    match decode("{\"b\": 1, \"a\": 2, \"c\": 3, \"a\": 4}").unwrap() {
        JSON::Object(entries) => {
            let keys: Vec<&str> = entries.iter().map(|e| e.0.as_str()).collect();
            assert_eq!(keys, vec!["a", "b", "c"]);
            assert_eq!(entries[0].1, JSON::Int(4));
        }
        other => panic!("not an object: {:?}", other),
    }
}

#[test]
fn decode_failures() {
    assert!(matches!(decode(""), Err(JSONParseError::EOF)));
    assert!(matches!(decode("["), Err(JSONParseError::EOF)));
    assert!(matches!(decode("[1,"), Err(JSONParseError::EOF)));
    assert!(matches!(decode("[1"), Err(JSONParseError::EOF)));
    assert!(matches!(decode("{\"a\""), Err(JSONParseError::EOF)));
    assert!(matches!(decode("{\"a\":"), Err(JSONParseError::EOF)));
    assert_eq!(unexpected(decode("]")), "]");
    assert_eq!(unexpected(decode("[1 2]")), "2");
    assert_eq!(unexpected(decode("[1,]")), "]");
    assert_eq!(unexpected(decode("[[1,]")), "]");
    assert_eq!(unexpected(decode("{1: 2}")), "1");
    assert_eq!(unexpected(decode("{\"a\" 2}")), "2");
    assert_eq!(unexpected(decode("{\"a\": 2,}")), "}");
    assert_eq!(unexpected(decode("nil")), "nil");
    assert_eq!(unexpected(decode("9223372036854775808")), "9223372036854775808");
    assert_eq!(unexpected(decode("-9223372036854775809")), "-9223372036854775809");
    assert_eq!(unexpected(decode("1e")), "1e");
    assert_eq!(unexpected(decode("1.")), "1.");
    assert_eq!(unexpected(decode("\"open")), "\"open");
    assert_eq!(unexpected(json_decode("2.5", &vec![])), "2.5");
}

#[test]
fn decode_all_reads_every_value() {
    assert_eq!(decode_all("").unwrap(), vec![]);
    assert_eq!(decode_all("  ").unwrap(), vec![]);
    assert_eq!(
        decode_all("1 2.5 \"x\" [null] ").unwrap(),
        vec![
            JSON::Int(1),
            float(2.5),
            JSON::String("x".to_string()),
            JSON::Array(vec![JSON::Null]),
        ]
    );
    assert!(matches!(decode_all("1 [2,"), Err(JSONParseError::EOF)));
    assert!(matches!(decode_all("1 ] 2"), Err(JSONParseError::UnexpectedToken(_))));
}

#[test]
fn encode_values() {
    assert_eq!(encode(&JSON::Null), "null");
    assert_eq!(encode(&JSON::Bool(true)), "true");
    assert_eq!(encode(&JSON::Bool(false)), "false");
    assert_eq!(encode(&JSON::Infinity), "infinity");
    assert_eq!(encode(&JSON::Int(0)), "0");
    assert_eq!(encode(&JSON::Int(-7)), "-7");
    assert_eq!(encode(&JSON::Int(1234567890)), "1234567890");
    assert_eq!(encode(&JSON::Int(i64::MIN)), "-9223372036854775808");
    assert_eq!(encode(&JSON::Int(i64::MAX)), "9223372036854775807");
    assert_eq!(encode(&float(2.5)), "2.5");
    assert_eq!(encode(&JSON::String("a\"b".to_string())), "\"a\\\"b\"");
    assert_eq!(encode(&JSON::Binary(vec![0x41, 0x00, 0xFF])), "\"A\\00\\FF\"");
    assert_eq!(encode(&JSON::Array(vec![])), "[]");
    assert_eq!(encode(&JSON::Object(vec![])), "{}");
    assert_eq!(
        encode(&JSON::Array(vec![JSON::Int(1), float(0.5), JSON::Array(vec![JSON::Null])])),
        "[1, 0.5, [null]]"
    );
    assert_eq!(
        encode(&JSON::Object(vec![
            ("a".to_string(), JSON::Int(1)),
            ("b".to_string(), JSON::Array(vec![float(1.5), float(-2.0)])),
        ])),
        "{\"a\": 1, \"b\": [1.5, -2]}"
    );
}

#[test]
fn floats_are_listed_in_text_order() {
    let j = JSON::Array(vec![
        float(1.5),
        JSON::Object(vec![("k".to_string(), float(2.5))]),
        JSON::Int(3),
        float(4.5),
    ]);
    let bits: Vec<u64> = json_floats(&j).iter().map(|x| x.to_bits()).collect();
    assert_eq!(bits, vec![1.5f64.to_bits(), 2.5f64.to_bits(), 4.5f64.to_bits()]);
    assert_eq!(json_float_literals("[1, 2.5, 3e1, \"4.5\", 1e, 7.25]"), vec!["2.5", "3e1", "7.25"]);
}

#[test]
fn json_round_trip() {
    let text = "[1, 2.5, \"x\", null, true, {\"a\": []}]";
    let first = decode(text).unwrap();
    let again = decode(&encode(&first)).unwrap();
    assert_eq!(first.cmp(&again), Ordering::Equal);
    assert_eq!(encode(&first), text);
}

#[test]
fn json_order_across_kinds() {
    let chain = vec![
        JSON::Null,
        JSON::Bool(false),
        JSON::Bool(true),
        float(f64::NAN),
        float(f64::NEG_INFINITY),
        JSON::Int(0),
        JSON::Int(3),
        float(3.5),
        JSON::Int(4),
        float(f64::INFINITY),
        JSON::Binary(vec![]),
        JSON::Binary(vec![1, 2]),
        JSON::Binary(vec![1, 3]),
        JSON::String("".to_string()),
        JSON::String("a".to_string()),
        JSON::String("ab".to_string()),
        JSON::String("b".to_string()),
        JSON::String("é".to_string()),
        JSON::Array(vec![]),
        JSON::Array(vec![JSON::Int(1)]),
        JSON::Array(vec![JSON::Int(1), JSON::Null]),
        JSON::Array(vec![JSON::Int(2)]),
        JSON::Object(vec![]),
        JSON::Object(vec![("a".to_string(), JSON::Int(1))]),
        JSON::Object(vec![("a".to_string(), JSON::Int(2))]),
        JSON::Object(vec![("b".to_string(), JSON::Int(0))]),
        JSON::Infinity,
    ];
    for (i, a) in chain.iter().enumerate() {
        for (j, b) in chain.iter().enumerate() {
            assert_eq!(a.cmp(b), i.cmp(&j), "{:?} against {:?}", a, b);
            assert_eq!(a == b, i == j);
            assert_eq!(a.partial_cmp(b), Some(i.cmp(&j)));
        }
    }
    assert!(float(f64::NAN) < JSON::Int(0));
    assert_eq!(JSON::Int(3).cmp(&float(3.0)), Ordering::Equal);
    assert_eq!(float(-0.0).cmp(&JSON::Int(0)), Ordering::Equal);
    assert_eq!(float(f64::NAN).cmp(&float(-f64::NAN)), Ordering::Equal);
    assert!(JSON::Infinity > float(f64::INFINITY));
}

#[test]
fn kinds_have_their_ranks() {
    assert_eq!(json_typeid(&JSON::Null), 0);
    assert_eq!(json_typeid(&JSON::Bool(true)), 1);
    assert_eq!(json_typeid(&JSON::Int(1)), 2);
    assert_eq!(json_typeid(&float(1.0)), 2);
    assert_eq!(json_typeid(&JSON::Binary(vec![])), 3);
    assert_eq!(json_typeid(&JSON::String(String::new())), 4);
    assert_eq!(json_typeid(&JSON::Array(vec![])), 5);
    assert_eq!(json_typeid(&JSON::Object(vec![])), 6);
    assert_eq!(json_typeid(&JSON::Infinity), 7);
}

fn same(a: &JSON, b: &JSON) -> bool {
    match (a, b) {
        (JSON::Null, JSON::Null) | (JSON::Infinity, JSON::Infinity) => true,
        (JSON::Bool(x), JSON::Bool(y)) => x == y,
        (JSON::Int(x), JSON::Int(y)) => x == y,
        (JSON::Float(x), JSON::Float(y)) => x.to_bits() == y.to_bits(),
        (JSON::Binary(x), JSON::Binary(y)) => x == y,
        (JSON::String(x), JSON::String(y)) => x == y,
        (JSON::Array(x), JSON::Array(y)) => {
            x.len() == y.len() && x.iter().zip(y).all(|(p, q)| same(p, q))
        }
        (JSON::Object(x), JSON::Object(y)) => {
            x.len() == y.len() && x.iter().zip(y).all(|(p, q)| p.0 == q.0 && same(&p.1, &q.1))
        }
        _ => false,
    }
}

#[test]
fn plain_values_round_trip_exactly() {
    let v = JSON::Array(vec![
        JSON::Null,
        JSON::Bool(true),
        JSON::Int(i64::MIN),
        JSON::Int(-1),
        JSON::Int(0),
        float(2.5),
        float(-0.125),
        float(1e-7),
        float(5e-324),
        JSON::String("".to_string()),
        JSON::String("say \"hi\", [ok] {x: 1}".to_string()),
        JSON::Infinity,
        JSON::Array(vec![]),
        JSON::Object(vec![]),
        JSON::Object(vec![
            ("".to_string(), JSON::Array(vec![JSON::Array(vec![float(0.5)])])),
            ("a".to_string(), JSON::Int(1)),
            ("a b".to_string(), JSON::Object(vec![("k".to_string(), JSON::Null)])),
            ("b".to_string(), float(7.75)),
        ]),
    ]);
    let text = encode(&v);
    let back = decode(&text).unwrap();
    assert!(same(&v, &back), "{} came back as {:?}", text, back);
    assert_eq!(encode(&back), text);
    assert_eq!(v.clone(), v);
    assert!(same(&v.clone(), &v));
}

#[test]
fn what_the_text_form_does_not_tell() {
    let binary = JSON::Binary(b"ab".to_vec());
    assert!(same(&decode(&encode(&binary)).unwrap(), &JSON::String("ab".to_string())));
    let backslash = JSON::String("a\\b".to_string());
    assert!(same(&decode(&encode(&backslash)).unwrap(), &JSON::String("ab".to_string())));
    let lone = JSON::String("\\".to_string());
    assert!(matches!(decode(&encode(&lone)), Err(JSONParseError::UnexpectedToken(_))));
    let whole = float(3.0);
    assert_eq!(encode(&whole), "3");
    assert!(same(&decode("3").unwrap(), &JSON::Int(3)));
    let huge = float(1e300);
    assert!(matches!(decode(&encode(&huge)), Err(JSONParseError::UnexpectedToken(_))));
    let nan = float(f64::NAN);
    assert_eq!(unexpected(decode(&encode(&nan))), "NaN");
    let unsorted = JSON::Object(vec![
        ("b".to_string(), JSON::Int(1)),
        ("a".to_string(), JSON::Int(2)),
    ]);
    let sorted = JSON::Object(vec![
        ("a".to_string(), JSON::Int(2)),
        ("b".to_string(), JSON::Int(1)),
    ]);
    assert!(same(&decode(&encode(&unsorted)).unwrap(), &sorted));
}
