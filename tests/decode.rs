use syrup_rs::{decode, from_str, DecodeError, Value};

fn text(s: &str) -> Value {
    Value::String(s.to_string())
}

fn sym(s: &str) -> Value {
    Value::Symbol(s.to_string())
}

fn bytes(s: &str) -> Value {
    Value::ByteString(s.as_bytes().to_vec())
}

fn integer(n: i64) -> Value {
    Value::SignedInteger(n)
}

#[test]
fn test_boolean() {
    let mut input = "t";
    let response = from_str(&mut input).expect("Failed to parse boolean test");
    assert_eq!(Value::Boolean(true), response);

    let mut second_input = "f";
    let second_response = from_str(&mut second_input).expect("Failed to parse boolean test");
    assert_eq!(Value::Boolean(false), second_response);
}

#[test]
fn test_positive_integer() {
    let mut input = "42+";
    let response = from_str(&mut input).expect("Failed to parse integer test");
    assert_eq!(integer(42), response);
}

#[test]
fn test_negative_integer() {
    let mut input = "756-";
    let response = from_str(&mut input).expect("Failed to parse integer test");
    assert_eq!(integer(-756), response);
}

#[test]
fn test_bytestring() {
    let mut input = "12:a bytestring";
    let response = from_str(&mut input).expect("Failed to parse integer test");
    let expected: Vec<u8> = vec![
        0x61, 0x20, 0x62, 0x79, 0x74, 0x65, 0x73, 0x74, 0x72, 0x69, 0x6e, 0x67,
    ];
    assert_eq!(Value::ByteString(expected), response);
}

#[test]
fn test_string() {
    let mut input = "8\"a string";
    let response = from_str(&mut input).expect("Failed to parse string test");
    assert_eq!(text("a string"), response);
}

#[test]
fn test_symbol() {
    let mut input = "3'foo";
    let response = from_str(&mut input).expect("Failed to parse symbol test");
    assert_eq!(sym("foo"), response);
}

#[test]
fn test_dictionary() {
    let mut input = "{4\"name3\"bob3\"age12+8\"favorite5\"pizza}";
    let response = from_str(&mut input).expect("Failed to parse dictionary test");
    let expected = Value::Dictionary(vec![
        (text("name"), text("bob")),
        (text("age"), integer(12)),
        (text("favorite"), text("pizza")),
    ]);
    assert_eq!(expected, response);
}

#[test]
fn test_list() {
    let mut input = "[4\"name3\"bob3\"age12+8\"favorite5\"pizza]";
    let response = from_str(&mut input).expect("Failed to parse dictionary test");
    let expected = Value::Sequence(vec![
        text("name"),
        text("bob"),
        text("age"),
        integer(12),
        text("favorite"),
        text("pizza"),
    ]);
    assert_eq!(expected, response);
}

#[test]
fn test_record() {
    let mut input = "<4\"recd3\"bob3\"age12+8\"favorite5\"pizza>";
    let response = from_str(&mut input).expect("Failed to parse dictionary test");
    let expected = Value::Record(
        Box::new(text("recd")),
        vec![text("bob"), text("age"), integer(12), text("favorite"), text("pizza")],
    );
    assert_eq!(expected, response);
}

#[test]
fn test_set() {
    let mut input = "#3\"set3\"bob3\"age12+8\"favorite5\"pizza$";
    let response = from_str(&mut input).expect("Failed to parse dictionary test");
    let expected = Value::SetOf(vec![
        text("set"),
        text("bob"),
        text("age"),
        integer(12),
        text("favorite"),
        text("pizza"),
    ]);
    assert_eq!(expected, response);
}

#[test]
fn boolean_consumes_one_character() {
    let mut input = "tf";
    assert_eq!(from_str(&mut input), Ok(Value::Boolean(true)));
    assert_eq!(input, "f");
    assert_eq!(from_str(&mut input), Ok(Value::Boolean(false)));
    assert_eq!(input, "");
}

#[test]
fn other_single_characters_match_no_form() {
    for c in ["x", "T", "+", "}", "$", "9", "é"] {
        let mut input = c;
        assert_eq!(from_str(&mut input), Err(DecodeError::SyntaxMismatch), "{}", c);
        assert_eq!(input, c);
    }
}

#[test]
fn integer_extremes() {
    assert_eq!(decode(b"0+"), Ok((integer(0), 2)));
    assert_eq!(decode(b"0-"), Ok((integer(0), 2)));
    assert_eq!(decode(b"9223372036854775807+"), Ok((integer(i64::MAX), 20)));
    assert_eq!(decode(b"9223372036854775807-"), Ok((integer(-i64::MAX), 20)));
    assert_eq!(decode(b"007+"), Ok((integer(7), 4)));
}

#[test]
fn integer_overflow_is_reported() {
    assert_eq!(decode(b"9223372036854775808+"), Err(DecodeError::MalformedInteger));
    assert_eq!(
        decode(b"99999999999999999999999999-"),
        Err(DecodeError::MalformedInteger)
    );
}

#[test]
fn digits_without_delimiter() {
    assert_eq!(decode(b"42"), Err(DecodeError::SyntaxMismatch));
    assert_eq!(decode(b"42x"), Err(DecodeError::SyntaxMismatch));
}

#[test]
fn text_round_trip_and_symbol_differs() {
    let name = decode(b"4\"name").unwrap().0;
    assert_eq!(name, text("name"));
    let foo_symbol = decode(b"3'foo").unwrap().0;
    let foo_text = decode(b"3\"foo").unwrap().0;
    assert_eq!(foo_symbol, sym("foo"));
    assert_ne!(foo_symbol, foo_text);
}

#[test]
fn length_counts_bytes() {
    let mut input = "2\"éx";
    assert_eq!(from_str(&mut input), Ok(text("é")));
    assert_eq!(input, "x");
}

#[test]
fn bytestring_is_raw() {
    let input: &[u8] = &[b'3', b':', 0xff, 0x00, 0xc3, b'z'];
    assert_eq!(
        decode(input),
        Ok((Value::ByteString(vec![0xff, 0x00, 0xc3]), 5))
    );
    assert_eq!(decode(b"0:"), Ok((Value::ByteString(vec![]), 2)));
}

#[test]
fn bytestring_splitting_a_character() {
    let mut input = "1:é";
    assert_eq!(from_str(&mut input), Err(DecodeError::InvalidEncoding));
    assert_eq!(input, "1:é");
}

#[test]
fn invalid_utf8_payload() {
    let input: &[u8] = &[b'2', b'"', 0xc3, 0x28];
    assert_eq!(decode(input), Err(DecodeError::InvalidEncoding));
    let input: &[u8] = &[b'1', b'\'', 0xff];
    assert_eq!(decode(input), Err(DecodeError::InvalidEncoding));
}

#[test]
fn later_duplicate_key_wins() {
    let d = decode(b"{3\"key1+3\"key2+}").unwrap();
    assert_eq!(d, (Value::Dictionary(vec![(text("key"), integer(2))]), 16));
}

#[test]
fn record_label_and_fields() {
    let (v, n) = decode(b"<4\"recd3\"bob3\"age12+8\"favorite5\"pizza>").unwrap();
    assert_eq!(n, 38);
    match v {
        Value::Record(label, fields) => {
            assert_eq!(*label, text("recd"));
            assert_eq!(fields.len(), 5);
            assert_eq!(
                fields,
                vec![text("bob"), text("age"), integer(12), text("favorite"), text("pizza")]
            );
        }
        other => panic!("not a record: {:?}", other),
    }
}

#[test]
fn record_without_fields() {
    assert_eq!(
        decode(b"<3'nil>"),
        Ok((Value::Record(Box::new(sym("nil")), vec![]), 7))
    );
    assert_eq!(decode(b"<>"), Err(DecodeError::SyntaxMismatch));
}

#[test]
fn set_collapses_equal_elements() {
    let (v, _) = decode(b"#1+2+1+$").unwrap();
    assert_eq!(v, Value::SetOf(vec![integer(1), integer(2)]));
    let (w, _) = decode(b"#[1+2+]3\"abc[1+2+]$").unwrap();
    match w {
        Value::SetOf(items) => assert_eq!(items.len(), 2),
        other => panic!("not a set: {:?}", other),
    }
}

#[test]
fn truncated_string() {
    let mut input = "5\"ab";
    assert_eq!(from_str(&mut input), Err(DecodeError::UnexpectedEnd));
    assert_eq!(input, "5\"ab");
}

#[test]
fn unclosed_containers() {
    for c in ["[", "{", "<", "#", "[1+", "{1+", "{1+2+", "<1+", "#t"] {
        assert_eq!(decode(c.as_bytes()), Err(DecodeError::UnexpectedEnd), "{}", c);
    }
}

#[test]
fn empty_input_matches_no_form() {
    assert_eq!(decode(b""), Err(DecodeError::SyntaxMismatch));
    let mut input = "";
    assert_eq!(from_str(&mut input), Err(DecodeError::SyntaxMismatch));
}

#[test]
fn dictionary_missing_value() {
    assert_eq!(decode(b"{1+}"), Err(DecodeError::SyntaxMismatch));
    assert_eq!(decode(b"[1+x]"), Err(DecodeError::SyntaxMismatch));
}

#[test]
fn nested_containers() {
    let (v, n) = decode(b"<[#{t<f>}$]{[]#$}>rest").unwrap();
    assert_eq!(n, 18);
    let inner_dict = Value::Dictionary(vec![(
        Value::Boolean(true),
        Value::Record(Box::new(Value::Boolean(false)), vec![]),
    )]);
    let expected = Value::Record(
        Box::new(Value::Sequence(vec![Value::SetOf(vec![inner_dict])])),
        vec![Value::Dictionary(vec![(
            Value::Sequence(vec![]),
            Value::SetOf(vec![]),
        )])],
    );
    assert_eq!(v, expected);
}

#[test]
fn zoo_like_document() {
    let doc = "<3:zoo[{3'age12+4'eats#4:fish4:mice$4'name7\"Tabatha6'alive?t}{3'age12-4'eats#$6'alive?f}]>";
    let (v, n) = decode(doc.as_bytes()).unwrap();
    assert_eq!(n, doc.len());
    let animal1 = Value::Dictionary(vec![
        (sym("age"), integer(12)),
        (sym("eats"), Value::SetOf(vec![bytes("fish"), bytes("mice")])),
        (sym("name"), text("Tabatha")),
        (sym("alive?"), Value::Boolean(true)),
    ]);
    let animal2 = Value::Dictionary(vec![
        (sym("age"), integer(-12)),
        (sym("eats"), Value::SetOf(vec![])),
        (sym("alive?"), Value::Boolean(false)),
    ]);
    let expected = Value::Record(
        Box::new(bytes("zoo")),
        vec![Value::Sequence(vec![animal1, animal2])],
    );
    assert_eq!(v, expected);
}

#[test]
fn dictionary_order_does_not_matter() {
    let (a, _) = decode(b"{1+t2+f}").unwrap();
    let (b, _) = decode(b"{2+f1+t}").unwrap();
    assert_eq!(a, b);
    let (c, _) = decode(b"{2+t1+f}").unwrap();
    assert_ne!(a, c);
}

#[test]
fn set_order_does_not_matter() {
    let (a, _) = decode(b"#1+2+3+$").unwrap();
    let (b, _) = decode(b"#3+1+2+$").unwrap();
    assert_eq!(a, b);
    let (c, _) = decode(b"#1+2+$").unwrap();
    assert_ne!(a, c);
}

#[test]
fn reordered_sets_collapse_as_set_elements() {
    let (v, _) = decode(b"#{1+t2+f}{2+f1+t}$").unwrap();
    match v {
        Value::SetOf(items) => assert_eq!(items.len(), 1),
        other => panic!("not a set: {:?}", other),
    }
}

#[test]
fn reordered_keys_overwrite() {
    let (v, _) = decode(b"{#1+2+$3\"one#2+1+$3\"two}").unwrap();
    match v {
        Value::Dictionary(entries) => {
            assert_eq!(entries.len(), 1);
            assert_eq!(entries[0].1, text("two"));
        }
        other => panic!("not a dictionary: {:?}", other),
    }
}

#[test]
fn lists_nest_deeply() {
    let depth = 200;
    let text_in = format!("{}{}", "[".repeat(depth), "]".repeat(depth));
    let (mut v, n) = decode(text_in.as_bytes()).unwrap();
    assert_eq!(n, 2 * depth);
    for _ in 1..depth {
        v = match v {
            Value::Sequence(mut items) => {
                assert_eq!(items.len(), 1);
                items.pop().unwrap()
            }
            other => panic!("not a sequence: {:?}", other),
        };
    }
    assert_eq!(v, Value::Sequence(vec![]));
}
