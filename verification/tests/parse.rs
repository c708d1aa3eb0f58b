use jsonparse::parse;
use jsonparse::Number;
use jsonparse::Value;

/// The numeric value a parsed literal denotes, as a 64-bit float.
fn num_to_f64(n: &Number) -> f64 {
    let mut v: f64 = 0.0;
    for d in &n.int_digits {
        v = v * 10.0 + (*d as f64);
    }
    let mut scale: f64 = 0.1;
    for d in &n.frac_digits {
        v += (*d as f64) * scale;
        scale /= 10.0;
    }
    let mut e: i32 = 0;
    for d in &n.exp_digits {
        e = e.saturating_mul(10).saturating_add(*d as i32);
    }
    if n.exp_neg {
        e = -e;
    }
    v *= 10f64.powi(e);
    if n.neg {
        -v
    } else {
        v
    }
}

fn as_f64(v: &Value) -> f64 {
    match v {
        Value::Number(n) => num_to_f64(n),
        _ => panic!("expected a number"),
    }
}

fn values_equal(a: &Value, b: &Value) -> bool {
    match (a, b) {
        (Value::Object(x), Value::Object(y)) => {
            x.len() == y.len()
                && x.iter().zip(y.iter()).all(|(p, q)| p.0 == q.0 && values_equal(&p.1, &q.1))
        }
        (Value::Array(x), Value::Array(y)) => {
            x.len() == y.len() && x.iter().zip(y.iter()).all(|(p, q)| values_equal(p, q))
        }
        (Value::String(x), Value::String(y)) => x == y,
        (Value::Number(x), Value::Number(y)) => num_to_f64(x) == num_to_f64(y),
        (Value::True, Value::True) => true,
        (Value::False, Value::False) => true,
        (Value::Null, Value::Null) => true,
        _ => false,
    }
}

#[test]
fn parses_literals() {
    assert!(matches!(parse("true"), Ok(Value::True)));
    assert!(matches!(parse("false"), Ok(Value::False)));
    assert!(matches!(parse("null"), Ok(Value::Null)));
}

#[test]
fn rejects_unknown_literal() {
    let e = parse("nul").unwrap_err();
    assert_eq!(e, "unexpected EOF at 1:4");
}

#[test]
fn rejects_misspelled_literal() {
    let e = parse("trux").unwrap_err();
    assert_eq!(e, "expected 'e' at 1:5");
}

#[test]
fn rejects_unrecognized_leading_character() {
    let e = parse("@").unwrap_err();
    assert_eq!(e, "expected 'true', 'false', or 'null' at 1:1");
}

#[test]
fn parses_zero() {
    let v = parse("0").unwrap();
    assert_eq!(as_f64(&v), 0.0);
}

#[test]
fn parses_negative_fraction_exponent() {
    let v = parse("-12.5e2").unwrap();
    assert_eq!(as_f64(&v), -1250.0);
}

#[test]
fn parses_number_forms() {
    assert_eq!(as_f64(&parse("007").unwrap()), 7.0);
    assert_eq!(as_f64(&parse("3.25").unwrap()), 3.25);
    assert_eq!(as_f64(&parse("1e3").unwrap()), 1000.0);
    assert_eq!(as_f64(&parse("1E+2").unwrap()), 100.0);
    assert_eq!(as_f64(&parse("25e-1").unwrap()), 2.5);
    assert_eq!(as_f64(&parse("0.05").unwrap()), 0.05);
}

#[test]
fn number_components_are_exact() {
    match parse("-12.5e2").unwrap() {
        Value::Number(n) => {
            assert!(n.neg);
            assert_eq!(n.int_digits, vec![1, 2]);
            assert_eq!(n.frac_digits, vec![5]);
            assert!(!n.exp_neg);
            assert_eq!(n.exp_digits, vec![2]);
        }
        _ => panic!("expected a number"),
    }
}

#[test]
fn rejects_number_without_digits() {
    let e = parse("-x").unwrap_err();
    assert_eq!(e, "expected '-' or '0'..'9' at 1:2");
}

#[test]
fn rejects_fraction_without_digits() {
    let e = parse("1.x").unwrap_err();
    assert_eq!(e, "expected '-' or '0'..'9' at 1:3");
}

#[test]
fn rejects_exponent_without_digits() {
    let e = parse("1ex").unwrap_err();
    assert_eq!(e, "expected '-' or '0'..'9' at 1:3");
}

#[test]
fn digit_run_cut_by_end_of_input_is_eof() {
    assert_eq!(parse("-").unwrap_err(), "unexpected EOF at 1:2");
    assert_eq!(parse("1.").unwrap_err(), "unexpected EOF at 1:3");
    assert_eq!(parse("1e").unwrap_err(), "unexpected EOF at 1:3");
    assert_eq!(parse("1e+").unwrap_err(), "unexpected EOF at 1:4");
    assert_eq!(parse("[-").unwrap_err(), "unexpected EOF at 1:3");
    assert_eq!(parse("[1e").unwrap_err(), "unexpected EOF at 1:4");
}

#[test]
fn parses_plain_string() {
    match parse("\"hello\"").unwrap() {
        Value::String(s) => assert_eq!(s, "hello"),
        _ => panic!("expected a string"),
    }
}

#[test]
fn decodes_line_feed_escape() {
    match parse("\"a\\nb\"").unwrap() {
        Value::String(s) => assert_eq!(s, "a\nb"),
        _ => panic!("expected a string"),
    }
}

#[test]
fn decodes_simple_escapes() {
    match parse("\"\\\"\\\\\\/\\b\\f\\n\\r\\t\"").unwrap() {
        Value::String(s) => assert_eq!(s, "\"\\/\u{8}\u{c}\n\r\t"),
        _ => panic!("expected a string"),
    }
}

#[test]
fn decodes_unicode_escape() {
    match parse("\"\\u0041\\u00e9\"").unwrap() {
        Value::String(s) => assert_eq!(s, "A\u{e9}"),
        _ => panic!("expected a string"),
    }
}

#[test]
fn decodes_surrogate_pair() {
    match parse("\"\\uD83D\\uDE00\"").unwrap() {
        Value::String(s) => assert_eq!(s, "\u{1F600}"),
        _ => panic!("expected a string"),
    }
}

#[test]
fn rejects_lone_high_surrogate() {
    let e = parse("\"\\uD800\"").unwrap_err();
    assert_eq!(e, "invalid character at 1:9");
}

#[test]
fn rejects_lone_low_surrogate() {
    let e = parse("\"\\uDC00x\"").unwrap_err();
    assert_eq!(e, "invalid character at 1:8");
}

#[test]
fn rejects_bad_hex_digit() {
    let e = parse("\"\\u12g4\"").unwrap_err();
    assert_eq!(e, "invalid hex digit at 1:7");
}

#[test]
fn rejects_bad_escape() {
    let e = parse("\"\\x\"").unwrap_err();
    assert_eq!(e, "invalid character escape at 1:4");
}

#[test]
fn empty_array_and_object() {
    match parse("[]").unwrap() {
        Value::Array(v) => assert!(v.is_empty()),
        _ => panic!("expected an array"),
    }
    match parse("{}").unwrap() {
        Value::Object(m) => assert!(m.is_empty()),
        _ => panic!("expected an object"),
    }
}

#[test]
fn parses_array() {
    match parse("[1,2,3]").unwrap() {
        Value::Array(v) => {
            assert_eq!(v.len(), 3);
            assert_eq!(as_f64(&v[0]), 1.0);
            assert_eq!(as_f64(&v[1]), 2.0);
            assert_eq!(as_f64(&v[2]), 3.0);
        }
        _ => panic!("expected an array"),
    }
}

#[test]
fn whitespace_insensitive_array() {
    let a = parse(" [ 1 , 2 ] ").unwrap();
    let b = parse("[1,2]").unwrap();
    assert!(values_equal(&a, &b));
}

#[test]
fn rejects_trailing_comma() {
    let e = parse("[1,]").unwrap_err();
    assert_eq!(e, "expected 'true', 'false', or 'null' at 1:4");
}

#[test]
fn rejects_bad_array_separator() {
    let e = parse("[1;2]").unwrap_err();
    assert_eq!(e, "expected ']' or ',' at 1:4");
}

#[test]
fn empty_containers_with_whitespace() {
    match parse("[ ]").unwrap() {
        Value::Array(v) => assert!(v.is_empty()),
        _ => panic!("expected an array"),
    }
    match parse("[ \n\t ]").unwrap() {
        Value::Array(v) => assert!(v.is_empty()),
        _ => panic!("expected an array"),
    }
    match parse("{ }").unwrap() {
        Value::Object(m) => assert!(m.is_empty()),
        _ => panic!("expected an object"),
    }
}

#[test]
fn object_keys_sorted_lexicographically() {
    match parse("{\"b\":0,\"a\":1,\"ab\":2}").unwrap() {
        Value::Object(m) => {
            assert_eq!(m.len(), 3);
            assert_eq!(m[0].0, "a");
            assert_eq!(as_f64(&m[0].1), 1.0);
            assert_eq!(m[1].0, "ab");
            assert_eq!(as_f64(&m[1].1), 2.0);
            assert_eq!(m[2].0, "b");
            assert_eq!(as_f64(&m[2].1), 0.0);
        }
        _ => panic!("expected an object"),
    }
}

#[test]
fn duplicate_key_keeps_sorted_position() {
    match parse("{\"b\":0,\"a\":1,\"b\":2}").unwrap() {
        Value::Object(m) => {
            assert_eq!(m.len(), 2);
            assert_eq!(m[0].0, "a");
            assert_eq!(as_f64(&m[0].1), 1.0);
            assert_eq!(m[1].0, "b");
            assert_eq!(as_f64(&m[1].1), 2.0);
        }
        _ => panic!("expected an object"),
    }
}

#[test]
fn parses_object() {
    match parse("{\"a\":1,\"b\":true}").unwrap() {
        Value::Object(m) => {
            assert_eq!(m.len(), 2);
            assert_eq!(m[0].0, "a");
            assert_eq!(as_f64(&m[0].1), 1.0);
            assert_eq!(m[1].0, "b");
            assert!(matches!(m[1].1, Value::True));
        }
        _ => panic!("expected an object"),
    }
}

#[test]
fn duplicate_key_last_write_wins() {
    match parse("{\"a\":1,\"a\":2}").unwrap() {
        Value::Object(m) => {
            assert_eq!(m.len(), 1);
            assert_eq!(m[0].0, "a");
            assert_eq!(as_f64(&m[0].1), 2.0);
        }
        _ => panic!("expected an object"),
    }
}

#[test]
fn rejects_bad_object_key() {
    let e = parse("{x").unwrap_err();
    assert_eq!(e, "expected '\"' or '}' at 1:2");
}

#[test]
fn rejects_missing_colon() {
    let e = parse("{\"a\" 1}").unwrap_err();
    assert_eq!(e, "expected ':' at 1:7");
}

#[test]
fn rejects_bad_object_separator() {
    let e = parse("{\"a\":1;}").unwrap_err();
    assert_eq!(e, "expected '}' or ',' at 1:8");
}

#[test]
fn nested_values() {
    match parse("{\"a\":{\"b\":[1,true,null]}}").unwrap() {
        Value::Object(m) => {
            assert_eq!(m[0].0, "a");
            match &m[0].1 {
                Value::Object(inner) => {
                    assert_eq!(inner[0].0, "b");
                    match &inner[0].1 {
                        Value::Array(v) => {
                            assert_eq!(v.len(), 3);
                            assert_eq!(as_f64(&v[0]), 1.0);
                            assert!(matches!(v[1], Value::True));
                            assert!(matches!(v[2], Value::Null));
                        }
                        _ => panic!("expected an array"),
                    }
                }
                _ => panic!("expected an object"),
            }
        }
        _ => panic!("expected an object"),
    }
}

#[test]
fn truncated_inputs_fail_with_eof() {
    assert_eq!(parse("").unwrap_err(), "unexpected EOF at 1:1");
    assert_eq!(parse("[1,2").unwrap_err(), "unexpected EOF at 1:5");
    assert_eq!(parse("{\"a\":1").unwrap_err(), "unexpected EOF at 1:7");
    assert_eq!(parse("\"abc").unwrap_err(), "unexpected EOF at 1:5");
    assert_eq!(parse("[").unwrap_err(), "unexpected EOF at 1:2");
    assert_eq!(parse("{").unwrap_err(), "unexpected EOF at 1:2");
}

#[test]
fn error_position_counts_lines() {
    let e = parse("{\n  \"a\": }").unwrap_err();
    assert_eq!(e, "expected 'true', 'false', or 'null' at 2:8");
}

#[test]
fn trailing_content_is_ignored() {
    assert!(matches!(parse("true false"), Ok(Value::True)));
    assert_eq!(as_f64(&parse("1 2").unwrap()), 1.0);
}

#[test]
fn leading_whitespace_skipped() {
    assert!(matches!(parse(" \t\r\n true"), Ok(Value::True)));
}
