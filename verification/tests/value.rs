use keyfile::Double;
use keyfile::Error;
use keyfile::ErrorKind;
use keyfile::Reason;
use keyfile::Value;

fn double(text: &str) -> Double {
    Double::parse(text).unwrap()
}

fn invalid(reason: Reason) -> Error {
    Error { kind: ErrorKind::InvalidValue { reason } }
}

#[test]
fn test_value_from() {
    {
        let input = "foo".to_string();
        let expected = Value::String(input.clone());
        let value: Value = input.into();
        assert_eq!(value, expected);
    }
}

#[test]
fn test_value_parse() {
    {
        let input = "true".to_string();
        let expected = Value::Bool(true);
        let value = Value::parse(input).unwrap();
        assert_eq!(value, expected);
    }
    {
        let input = "false".to_string();
        let expected = Value::Bool(false);
        let value = Value::parse(input).unwrap();
        assert_eq!(value, expected);
    }
    {
        let input = "-10".to_string();
        let expected = Value::Integer(-10);
        let value = Value::parse(input).unwrap();
        assert_eq!(value, expected);
    }
    {
        let input = "4.2".to_string();
        let expected = Value::Double(double("4.2"));
        let value = Value::parse(input).unwrap();
        assert_eq!(value, expected);
        match value {
            Value::Double(d) => assert_eq!(d.as_str().parse::<f64>().unwrap(), 4.2),
            _ => panic!("not a double"),
        }
    }
    {
        let input = "foo".to_string();
        let expected = Value::String(input.clone());
        let value = Value::parse(input).unwrap();
        assert_eq!(value, expected);
    }
}

#[test]
fn value_from_other_scalars() {
    assert_eq!(Value::from(true), Value::Bool(true));
    assert_eq!(Value::from(-7i128), Value::Integer(-7));
    assert_eq!(Value::from("true"), Value::String("true".to_string()));
    assert_eq!(Value::from(double("1e3")), Value::Double(double("1e3")));
}

#[test]
fn scalar_priority() {
    assert_eq!(Value::parse_single("true"), Value::Bool(true));
    assert_eq!(Value::parse_single("false"), Value::Bool(false));
    assert_eq!(Value::parse_single("10"), Value::Integer(10));
    assert_eq!(Value::parse_single("+10"), Value::Integer(10));
    assert_eq!(Value::parse_single("-0"), Value::Integer(0));
    assert_eq!(Value::parse_single("007"), Value::Integer(7));
    assert_eq!(Value::parse_single("4.2"), Value::Double(double("4.2")));
    assert_eq!(Value::parse_single("foo"), Value::String("foo".to_string()));
    assert_eq!(Value::parse_single(""), Value::String(String::new()));
    assert_eq!(Value::parse_single("True"), Value::String("True".to_string()));
    assert_eq!(Value::parse_single(" 10"), Value::String(" 10".to_string()));
    assert_eq!(Value::parse_single("1_000"), Value::String("1_000".to_string()));
}

#[test]
fn integer_limits() {
    let max = "170141183460469231731687303715884105727";
    let min = "-170141183460469231731687303715884105728";
    assert_eq!(Value::parse_single(max), Value::Integer(i128::MAX));
    assert_eq!(Value::parse_single(min), Value::Integer(i128::MIN));
    let over = "170141183460469231731687303715884105728";
    let under = "-170141183460469231731687303715884105729";
    assert_eq!(Value::parse_single(over), Value::Double(double(over)));
    assert_eq!(Value::parse_single(under), Value::Double(double(under)));
    assert_eq!(Value::parse_single("+"), Value::String("+".to_string()));
    assert_eq!(Value::parse_single("-"), Value::String("-".to_string()));
    assert_eq!(Value::parse_single("1-"), Value::String("1-".to_string()));
}

#[test]
fn double_literals_follow_the_float_parser() {
    let cases = [
        "4.2", "1.", ".5", "-.5", "+1.5e10", "1e5", "1E5", "1e-5", "1e+5", "inf", "-inf", "+inf",
        "INF", "Infinity", "infinity", "nan", "NaN", "-nan", "0.0", "1", "-1", "00.00",
        "1.e3", ".5E-2", "", "+", "-", ".", "+.", "e5", "1e", "1e+", "1e5.0", "1.5.2", "1 ",
        " 1", "in", "infinit", "infinityy", "na", "nan0", "1_0", "0x10", "1f", "--1", "+-1",
        "1e5e5", "\u{212a}", "1\u{0661}", "٣",
    ];
    for text in cases {
        assert_eq!(
            Double::parse(text).is_some(),
            text.parse::<f64>().is_ok(),
            "literal {:?}",
            text
        );
    }
}

#[test]
fn integer_literals_follow_the_integer_parser() {
    let cases = [
        "0", "-0", "+0", "10", "-10", "+10", "007", "", "+", "-", "1-", "1+1", " 1", "1 ", "1_0",
        "0x10", "١٢٣", "170141183460469231731687303715884105727",
        "170141183460469231731687303715884105728", "-170141183460469231731687303715884105728",
        "-170141183460469231731687303715884105729", "99999999999999999999999999999999999999999",
    ];
    for text in cases {
        let expected = match text.parse::<i128>() {
            Ok(n) => Some(Value::Integer(n)),
            Err(_) => None,
        };
        let got = match Value::parse_single(text) {
            Value::Integer(n) => Some(Value::Integer(n)),
            _ => None,
        };
        assert_eq!(got, expected, "literal {:?}", text);
    }
}

#[test]
fn list_starts_with_last_segment() {
    let value = Value::parse("1;2;3".to_string()).unwrap();
    assert_eq!(value, Value::IntegerList(vec![3, 1, 2]));
    let value = Value::parse("a;b;c;d".to_string()).unwrap();
    assert_eq!(
        value,
        Value::StringList(vec!["d".to_string(), "a".to_string(), "b".to_string(), "c".to_string()])
    );
    let value = Value::parse("true;false".to_string()).unwrap();
    assert_eq!(value, Value::BoolList(vec![false, true]));
    let value = Value::parse("1.5;2.5;inf".to_string()).unwrap();
    assert_eq!(value, Value::DoubleList(vec![double("inf"), double("1.5"), double("2.5")]));
}

#[test]
fn trailing_separator_gives_an_empty_segment() {
    let value = Value::parse("a;b;".to_string()).unwrap();
    assert_eq!(
        value,
        Value::StringList(vec![String::new(), "a".to_string(), "b".to_string()])
    );
    let value = Value::parse(";".to_string()).unwrap();
    assert_eq!(value, Value::StringList(vec![String::new(), String::new()]));
    assert_eq!(
        Value::parse("1;".to_string()),
        Err(invalid(Reason::MismatchedTypes))
    );
}

#[test]
fn empty_input_is_the_empty_string() {
    assert_eq!(Value::parse(String::new()), Ok(Value::String(String::new())));
}

#[test]
fn mixed_kinds_are_refused() {
    for input in ["true;foo", "1;foo", "1;2.5", "foo;1;bar", "true;1", "1.5;x", "a;b;3"] {
        assert_eq!(
            Value::parse(input.to_string()),
            Err(invalid(Reason::MismatchedTypes)),
            "input {:?}",
            input
        );
    }
}

#[test]
fn no_segment_is_refused() {
    assert_eq!(
        Value::parse_collection(&Vec::new()),
        Err(invalid(Reason::EmptyValue))
    );
    assert_eq!(
        Value::parse_collection(&vec!["7".to_string()]),
        Ok(Value::Integer(7))
    );
    assert_eq!(
        Value::parse_collection(&vec!["7".to_string(), "8".to_string()]),
        Ok(Value::IntegerList(vec![8, 7]))
    );
}

#[test]
fn merge_scalars_keeps_left_then_right() {
    assert_eq!(
        Value::merge(Value::Integer(1), Value::Integer(2)),
        Ok(Value::IntegerList(vec![1, 2]))
    );
    assert_eq!(
        Value::merge(Value::Bool(true), Value::Bool(false)),
        Ok(Value::BoolList(vec![true, false]))
    );
    assert_eq!(
        Value::merge(Value::from("a"), Value::from("b")),
        Ok(Value::StringList(vec!["a".to_string(), "b".to_string()]))
    );
    assert_eq!(
        Value::merge(Value::Double(double("1.0")), Value::Double(double("2.0"))),
        Ok(Value::DoubleList(vec![double("1.0"), double("2.0")]))
    );
}

#[test]
fn merge_appends_scalar_to_list_on_either_side() {
    assert_eq!(
        Value::merge(Value::IntegerList(vec![1, 2]), Value::Integer(3)),
        Ok(Value::IntegerList(vec![1, 2, 3]))
    );
    assert_eq!(
        Value::merge(Value::Integer(3), Value::IntegerList(vec![1, 2])),
        Ok(Value::IntegerList(vec![1, 2, 3]))
    );
    assert_eq!(
        Value::merge(Value::Bool(true), Value::BoolList(vec![])),
        Ok(Value::BoolList(vec![true]))
    );
    assert_eq!(
        Value::merge(Value::StringList(vec!["x".to_string()]), Value::from("y")),
        Ok(Value::StringList(vec!["x".to_string(), "y".to_string()]))
    );
    assert_eq!(
        Value::merge(Value::Double(double("nan")), Value::DoubleList(vec![double("1.")])),
        Ok(Value::DoubleList(vec![double("1."), double("nan")]))
    );
}

#[test]
fn merge_refuses_other_pairs() {
    let mismatch = Err(invalid(Reason::MismatchedTypes));
    assert_eq!(Value::merge(Value::Bool(true), Value::from("foo")), mismatch);
    assert_eq!(Value::merge(Value::Integer(1), Value::Double(double("1.0"))), mismatch);
    assert_eq!(Value::merge(Value::IntegerList(vec![1]), Value::Bool(true)), mismatch);
    assert_eq!(
        Value::merge(Value::IntegerList(vec![1]), Value::IntegerList(vec![2])),
        mismatch
    );
    assert_eq!(Value::merge(Value::from("a"), Value::BoolList(vec![])), mismatch);
}

#[test]
fn display_forms() {
    assert_eq!(Value::Bool(true).to_string(), "true");
    assert_eq!(Value::Bool(false).to_string(), "false");
    assert_eq!(Value::Integer(0).to_string(), "0");
    assert_eq!(Value::Integer(-10).to_string(), "-10");
    assert_eq!(Value::Integer(1234567890).to_string(), "1234567890");
    assert_eq!(Value::Integer(i128::MAX).to_string(), i128::MAX.to_string());
    assert_eq!(Value::Integer(i128::MIN).to_string(), i128::MIN.to_string());
    assert_eq!(Value::Double(double("4.2")).to_string(), "4.2");
    assert_eq!(Value::from("value 1").to_string(), "value 1");
    assert_eq!(Value::IntegerList(vec![1, 2]).to_string(), "");
    assert_eq!(Value::BoolList(vec![true]).to_string(), "");
    assert_eq!(Value::StringList(vec!["a".to_string()]).to_string(), "");
    assert_eq!(Value::DoubleList(vec![double("1.5")]).to_string(), "");
}

#[test]
fn scalars_written_and_read_again() {
    let values = vec![
        Value::Bool(true),
        Value::Bool(false),
        Value::Integer(0),
        Value::Integer(-1),
        Value::Integer(i128::MAX),
        Value::Integer(i128::MIN),
        Value::Double(double("4.2")),
        Value::Double(double("-inf")),
        Value::from("foo"),
        Value::from(""),
        Value::from("a b=c"),
    ];
    for value in values {
        let again = Value::parse(value.to_string()).unwrap();
        assert_eq!(again, value);
    }
}

#[test]
fn reasons_in_words() {
    assert_eq!(Reason::MissingGroupStart.message(), "missing group start marker");
    assert_eq!(Reason::MissingGroupEnd.message(), "missing group end marker");
    assert_eq!(Reason::OutsideGroup.message(), "content outside of group context");
    assert_eq!(Reason::MissingSeparator.message(), "invalid key-value format");
    assert_eq!(Reason::EmptyValue.message(), "empty value");
    assert_eq!(Reason::MismatchedTypes.message(), "mismatched types");
}

#[test]
fn error_parts() {
    let e = Error::malformed(3, Reason::MissingGroupEnd);
    assert_eq!(e.line(), Some(3));
    assert_eq!(e.reason(), Some(Reason::MissingGroupEnd));
    let e = Error::invalid_value(Reason::EmptyValue);
    assert_eq!(e.line(), None);
    assert_eq!(e.reason(), Some(Reason::EmptyValue));
    let e = Error::failed_read(9);
    assert_eq!(e.kind, ErrorKind::FailedRead { line: 9 });
    assert_eq!(e.line(), Some(9));
    assert_eq!(e.reason(), None);
    let e = Error::failed_write();
    assert_eq!(e.kind, ErrorKind::FailedWrite);
    assert_eq!(e.line(), None);
    assert_eq!(e.reason(), None);
}

fn short_texts(alphabet: &[char], longest: usize) -> Vec<String> {
    let mut all = vec![String::new()];
    let mut last = vec![String::new()];
    for _ in 0..longest {
        let mut next = Vec::new();
        for text in &last {
            for c in alphabet {
                let mut longer = text.clone();
                longer.push(*c);
                next.push(longer);
            }
        }
        all.extend(next.iter().cloned());
        last = next;
    }
    all
}

#[test]
fn short_texts_are_classified_as_the_number_parsers_do() {
    let alphabet = ['0', '7', '.', 'e', 'E', '+', '-', 'i', 'n', 'f', 'a', 'N', ' '];
    for text in short_texts(&alphabet, 4) {
        let expected = if let Ok(n) = text.parse::<i128>() {
            Value::Integer(n)
        } else if text.parse::<f64>().is_ok() {
            Value::Double(double(&text))
        } else {
            Value::String(text.clone())
        };
        assert_eq!(Value::parse_single(&text), expected, "text {:?}", text);
    }
}

#[test]
fn special_words_in_any_case() {
    let alphabet = ['i', 'I', 'n', 'N', 'f', 'F', 'a', 'A', 't', 'y', 'Y'];
    for text in short_texts(&alphabet, 3) {
        assert_eq!(
            Double::parse(&text).is_some(),
            text.parse::<f64>().is_ok(),
            "text {:?}",
            text
        );
    }
    for text in ["infinity", "INFINITY", "InFiNiTy", "+Infinity", "-INFINITY", "infinitY", "infinite"] {
        assert_eq!(
            Double::parse(text).is_some(),
            text.parse::<f64>().is_ok(),
            "text {:?}",
            text
        );
    }
}
