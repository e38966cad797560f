use keyfile::parser::is_new_group;
use keyfile::parser::is_silent;
use keyfile::parser::parse_group;
use keyfile::parser::parse_kv;
use keyfile::parser::parse_buf;
use keyfile::parser::parse_text;
use keyfile::parser::text_lines;
use keyfile::parser::Parser;
use keyfile::writer::to_text;
use keyfile::writer::write_buf;
use keyfile::writer::write_group;
use keyfile::Double;
use keyfile::Error;
use keyfile::ErrorKind;
use keyfile::Keyfile;
use keyfile::Reason;
use keyfile::Value;

fn malformed(line: usize, reason: Reason) -> Error {
    Error { kind: ErrorKind::Malformed { line, reason } }
}

fn failure(text: &str) -> Error {
    match parse_text(text) {
        Ok(_) => panic!("parsed {:?}", text),
        Err(e) => e,
    }
}

#[test]
fn test_basic_from_reader() {
    let input = r#"
# Random comment
[single-group]
mykey = value 1;value 2;value 3
"#;
    let kf = parse_text(input).unwrap();

    let groups: Vec<_> = kf.groups_labels();
    assert_eq!(groups, vec!["single-group"]);
}

#[test]
fn test_basic_to_writer() {
    let expected = r#"[single-group]
mykey = value 1
"#;
    let mut kf = Keyfile::new();
    kf.insert(
        "single-group".to_string(),
        "mykey".to_string(),
        "value 1".into(),
    );

    let mut buf = String::new();
    write_buf(&kf, &mut buf);
    assert_eq!(buf.as_bytes(), expected.as_bytes());
}

#[test]
fn integer_list_is_rotated() {
    let kf = parse_text("[g]\nk = 1;2;3\n").unwrap();
    assert_eq!(kf.groups_labels(), vec!["g"]);
    assert_eq!(kf.get("g", "k"), Some(&Value::IntegerList(vec![3, 1, 2])));
}

#[test]
fn comment_and_blank_lines_are_skipped() {
    let kf = parse_text("\n# comment\n[g]\nk = v\n").unwrap();
    assert_eq!(kf.groups_labels(), vec!["g"]);
    assert_eq!(kf.len(), 1);
    assert_eq!(kf.entries_len(0), 1);
    assert_eq!(kf.get("g", "k"), Some(&Value::String("v".to_string())));
}

#[test]
fn entry_before_any_group_is_refused() {
    assert_eq!(failure("k = v\n"), malformed(1, Reason::OutsideGroup));
    assert_eq!(failure("\n\nno separator here\n[g]\n"), malformed(3, Reason::OutsideGroup));
    assert_eq!(failure("# c\nk = true;foo\n"), malformed(2, Reason::OutsideGroup));
}

#[test]
fn header_without_end_is_refused() {
    assert_eq!(failure("[g\nk = v\n"), malformed(1, Reason::MissingGroupEnd));
    assert_eq!(failure("[a]\nx = 1\n[b] \n"), malformed(3, Reason::MissingGroupEnd));
}

#[test]
fn written_bool_entry() {
    let mut kf = Keyfile::new();
    kf.insert("g".to_string(), "k".to_string(), Value::Bool(true));
    assert_eq!(to_text(&kf), "[g]\nk = true\n");
}

#[test]
fn mismatched_list_in_document_is_refused() {
    assert_eq!(
        failure("[g]\nk = true;foo\n"),
        Error { kind: ErrorKind::InvalidValue { reason: Reason::MismatchedTypes } }
    );
}

#[test]
fn line_without_separator_is_refused() {
    assert_eq!(failure("[g]\nk\n"), malformed(2, Reason::MissingSeparator));
    assert_eq!(failure("[g]\na = 1\nabc]\n"), malformed(3, Reason::MissingSeparator));
}

#[test]
fn group_markers() {
    assert_eq!(
        parse_group(4, "[abc".to_string()),
        Err(malformed(4, Reason::MissingGroupEnd))
    );
    assert_eq!(
        parse_group(5, "abc]".to_string()),
        Err(malformed(5, Reason::MissingGroupStart))
    );
    assert_eq!(
        parse_group(6, String::new()),
        Err(malformed(6, Reason::MissingGroupStart))
    );
    assert_eq!(parse_group(1, "[".to_string()), Err(malformed(1, Reason::MissingGroupEnd)));
    assert_ne!(Reason::MissingGroupEnd.message(), Reason::MissingGroupStart.message());
}

#[test]
fn group_identifier_is_trimmed() {
    assert_eq!(parse_group(1, "[abc]".to_string()), Ok("abc".to_string()));
    assert_eq!(parse_group(1, "[  abc \t]".to_string()), Ok("abc".to_string()));
    assert_eq!(parse_group(1, "[[a]]".to_string()), Ok("[a]".to_string()));
    assert_eq!(parse_group(1, "[[a b]]".to_string()), Ok("[a b]".to_string()));
    assert_eq!(parse_group(1, "[ [x] ]".to_string()), Ok("[x]".to_string()));
    assert_eq!(parse_group(1, "[]".to_string()), Ok(String::new()));
    assert_eq!(parse_group(1, "[ ] ]".to_string()), Ok("]".to_string()));
    assert_eq!(parse_group(1, "[\u{a0}x\u{3000}]".to_string()), Ok("x".to_string()));
    assert_eq!(parse_group(1, "[a]b]".to_string()), Ok("a]b".to_string()));
    assert_eq!(parse_group(1, "[]]".to_string()), Ok("]".to_string()));
    assert_eq!(parse_group(1, "[[]".to_string()), Ok("[".to_string()));
    assert_eq!(parse_group(1, "[   ]".to_string()), Ok(String::new()));
}

#[test]
fn key_value_parts() {
    assert_eq!(
        parse_kv(1, "k = v".to_string()),
        Ok(("k".to_string(), Value::String("v".to_string())))
    );
    assert_eq!(
        parse_kv(1, "k=a=b".to_string()),
        Ok(("k".to_string(), Value::String("a=b".to_string())))
    );
    assert_eq!(
        parse_kv(1, "  key \t=   12  ".to_string()),
        Ok(("  key".to_string(), Value::String("12  ".to_string())))
    );
    assert_eq!(
        parse_kv(1, "k =   12".to_string()),
        Ok(("k".to_string(), Value::Integer(12)))
    );
    assert_eq!(
        parse_kv(1, "=".to_string()),
        Ok((String::new(), Value::String(String::new())))
    );
    assert_eq!(
        parse_kv(1, "k = 1.5;2.5".to_string()),
        Ok((
            "k".to_string(),
            Value::DoubleList(vec![Double::parse("2.5").unwrap(), Double::parse("1.5").unwrap()])
        ))
    );
    assert_eq!(parse_kv(7, "k".to_string()), Err(malformed(7, Reason::MissingSeparator)));
    assert_eq!(
        parse_kv(7, "k = 1;x".to_string()),
        Err(Error { kind: ErrorKind::InvalidValue { reason: Reason::MismatchedTypes } })
    );
}

#[test]
fn silent_lines() {
    assert!(is_silent(""));
    assert!(is_silent("# comment"));
    assert!(is_silent("#"));
    assert!(!is_silent(" # comment"));
    assert!(!is_silent(" "));
    assert!(!is_silent("k = v"));
    assert!(!is_silent("[g]"));
}

#[test]
fn group_lines() {
    assert!(is_new_group("[g]"));
    assert!(is_new_group("[g"));
    assert!(is_new_group("["));
    assert!(!is_new_group(""));
    assert!(!is_new_group(" [g]"));
    assert!(!is_new_group("g]"));
}

#[test]
fn blank_line_of_spaces_is_content() {
    assert_eq!(failure("[g]\n  \n"), malformed(2, Reason::MissingSeparator));
}

#[test]
fn reopened_group_keeps_its_entries() {
    let kf = parse_text("[a]\nx = 1\n[b]\ny = 2\n[a]\nz = 3\nx = 4\n").unwrap();
    assert_eq!(kf.groups_labels(), vec!["a", "b"]);
    assert_eq!(kf.get("a", "x"), Some(&Value::Integer(4)));
    assert_eq!(kf.get("a", "z"), Some(&Value::Integer(3)));
    assert_eq!(kf.get("b", "y"), Some(&Value::Integer(2)));
    assert_eq!(kf.get("b", "x"), None);
    assert_eq!(kf.get("c", "x"), None);
    assert_eq!(kf.entries_len(0), 2);
    assert_eq!(kf.entry(0, 0), ("x", &Value::Integer(4)));
    assert_eq!(kf.entry(0, 1), ("z", &Value::Integer(3)));
    assert_eq!(kf.label(1), "b");
}

#[test]
fn empty_group_is_registered() {
    let kf = parse_text("[only]\n").unwrap();
    assert_eq!(kf.groups_labels(), vec!["only"]);
    assert!(kf.has_group("only"));
    assert!(!kf.has_group("other"));
    assert_eq!(kf.entries_len(0), 0);
    assert_eq!(to_text(&kf), "[only]\n");
}

#[test]
fn empty_text_is_the_empty_document() {
    let kf = parse_text("").unwrap();
    assert_eq!(kf.len(), 0);
    assert_eq!(kf.groups_labels(), Vec::<&str>::new());
    assert_eq!(to_text(&kf), "");
}

#[test]
fn insert_overwrites() {
    let mut kf = Keyfile::new();
    kf.insert("g".to_string(), "k".to_string(), Value::Integer(1));
    kf.insert("g".to_string(), "l".to_string(), Value::Integer(2));
    kf.insert("h".to_string(), "k".to_string(), Value::Integer(3));
    kf.insert("g".to_string(), "k".to_string(), Value::Bool(false));
    assert_eq!(kf.groups_labels(), vec!["g", "h"]);
    assert_eq!(kf.get("g", "k"), Some(&Value::Bool(false)));
    assert_eq!(kf.get("g", "l"), Some(&Value::Integer(2)));
    assert_eq!(kf.get("h", "k"), Some(&Value::Integer(3)));
    assert_eq!(to_text(&kf), "[g]\nk = false\nl = 2\n[h]\nk = 3\n");
}

#[test]
fn add_group_keeps_what_is_there() {
    let mut kf = Keyfile::new();
    kf.add_group("g".to_string());
    kf.insert("g".to_string(), "k".to_string(), Value::Integer(1));
    kf.add_group("g".to_string());
    kf.add_group("h".to_string());
    assert_eq!(kf.groups_labels(), vec!["g", "h"]);
    assert_eq!(kf.get("g", "k"), Some(&Value::Integer(1)));
}

#[test]
fn lines_of_a_text() {
    assert_eq!(text_lines(""), Vec::<String>::new());
    assert_eq!(text_lines("\n"), vec![String::new()]);
    assert_eq!(text_lines("a"), vec!["a".to_string()]);
    assert_eq!(text_lines("a\n"), vec!["a".to_string()]);
    assert_eq!(text_lines("a\nb"), vec!["a".to_string(), "b".to_string()]);
    assert_eq!(text_lines("a\r\nb\r\n"), vec!["a".to_string(), "b".to_string()]);
    assert_eq!(text_lines("a\r"), vec!["a\r".to_string()]);
    assert_eq!(text_lines("a\r\r\n"), vec!["a\r".to_string()]);
    assert_eq!(text_lines("a\n\nb\n"), vec!["a".to_string(), String::new(), "b".to_string()]);
    for text in ["", "\n", "a", "a\n\n", "x\r\ny\rz\n", "\r\n\r", "é\n√\r\nç"] {
        let expected: Vec<String> = text.lines().map(|l| l.to_string()).collect();
        assert_eq!(text_lines(text), expected, "text {:?}", text);
    }
}

#[test]
fn windows_line_ends() {
    let kf = parse_text("[g]\r\nk = v\r\n").unwrap();
    assert_eq!(kf.groups_labels(), vec!["g"]);
    assert_eq!(kf.get("g", "k"), Some(&Value::String("v".to_string())));
}

#[test]
fn lines_are_parsed_as_the_text() {
    let lines = vec!["[g]".to_string(), "# c".to_string(), "k = 5".to_string()];
    let kf = parse_buf(&lines).unwrap();
    assert_eq!(kf.get("g", "k"), Some(&Value::Integer(5)));
    let lines = vec![String::new(), "k = 5".to_string()];
    assert_eq!(parse_buf(&lines).err(), Some(malformed(2, Reason::OutsideGroup)));
}

#[test]
fn parser_line_by_line() {
    let mut parser = Parser::new();
    assert_eq!(parser.line_number(), 1);
    assert_eq!(parser.feed("# comment".to_string()), Ok(()));
    assert_eq!(parser.feed("k = v".to_string()), Err(malformed(2, Reason::OutsideGroup)));
    assert_eq!(parser.line_number(), 2);
    assert_eq!(parser.feed("[g]".to_string()), Ok(()));
    assert_eq!(parser.feed("k = v".to_string()), Ok(()));
    assert_eq!(parser.feed("[h".to_string()), Err(malformed(4, Reason::MissingGroupEnd)));
    assert_eq!(parser.feed("k = 1;a".to_string()).is_err(), true);
    assert_eq!(parser.line_number(), 4);
    let kf = parser.finish();
    assert_eq!(kf.groups_labels(), vec!["g"]);
    assert_eq!(kf.get("g", "k"), Some(&Value::String("v".to_string())));
}

#[test]
fn groups_are_written_one_by_one() {
    let kf = parse_text("[a]\nx = 1\n[b]\ny = true\nz = 2.50\n").unwrap();
    let mut first = String::from(">");
    write_group(&kf, 0, &mut first);
    assert_eq!(first, ">[a]\nx = 1\n");
    let mut second = String::new();
    write_group(&kf, 1, &mut second);
    assert_eq!(second, "[b]\ny = true\nz = 2.50\n");
}

#[test]
fn lists_are_written_empty() {
    let kf = parse_text("[g]\nk = 1;2;3\n").unwrap();
    let text = to_text(&kf);
    assert_eq!(text, "[g]\nk = \n");
    let again = parse_text(&text).unwrap();
    assert_eq!(again.get("g", "k"), Some(&Value::String(String::new())));
    assert_ne!(again.get("g", "k"), kf.get("g", "k"));
}

#[test]
fn document_written_and_read_again() {
    let text = "[first]\nname = some text\nflag = true\ncount = -42\nratio = 4.2\n[second]\nempty = \n";
    let kf = parse_text(text).unwrap();
    let written = to_text(&kf);
    assert_eq!(written, text);
    let again = parse_text(&written).unwrap();
    assert_eq!(again.groups_labels(), kf.groups_labels());
    for (index, group) in kf.groups_labels().iter().enumerate() {
        assert_eq!(again.entries_len(index), kf.entries_len(index));
        for position in 0..kf.entries_len(index) {
            let (key, value) = kf.entry(index, position);
            assert_eq!(again.get(group, key), Some(value));
        }
    }
}

#[test]
fn default_is_the_empty_document() {
    let kf = Keyfile::default();
    assert_eq!(kf.len(), 0);
    assert_eq!(to_text(&kf), "");
    assert_eq!(format!("{:?}", kf), format!("{:?}", Keyfile::new()));
}

#[test]
fn keys_and_groups_are_kept_as_written() {
    let kf = parse_text("[ a b ]\n  indented key  =  spaced value  \n").unwrap();
    assert_eq!(kf.groups_labels(), vec!["a b"]);
    assert_eq!(
        kf.get("a b", "  indented key"),
        Some(&Value::String("spaced value  ".to_string()))
    );
    assert_eq!(kf.get("a b", "indented key"), None);
}

#[test]
fn value_side_keeps_later_separators() {
    let kf = parse_text("[g]\nurl = a=b=c\nempty =\n").unwrap();
    assert_eq!(kf.get("g", "url"), Some(&Value::String("a=b=c".to_string())));
    assert_eq!(kf.get("g", "empty"), Some(&Value::String(String::new())));
}

#[test]
fn label_with_brackets_is_read_again() {
    let mut kf = Keyfile::new();
    kf.insert("[x]".to_string(), "k".to_string(), Value::Integer(1));
    let text = to_text(&kf);
    assert_eq!(text, "[[x]]\nk = 1\n");
    let again = parse_text(&text).unwrap();
    assert_eq!(again.groups_labels(), vec!["[x]"]);
    assert_eq!(again.get("[x]", "k"), Some(&Value::Integer(1)));
}
