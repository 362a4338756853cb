use rsass_front::error::{ErrPos, Error};
use rsass_front::parser::{
    parse_imported_scss_file, parse_scss_data, parse_scss_file, parse_value_data, ParseError,
    MAX_NESTING,
};
use rsass_front::pos::{SourceName, SourcePos};
use rsass_front::scan::ErrorKind;
use rsass_front::value::Value;

#[test]
fn malformed_value_reports_line_two() {
    match parse_scss_file("input.scss", b"a {\n  b: ;\n}\n") {
        Err(Error::ParseError { pos, .. }) => {
            assert_eq!(pos.line_no, 2);
            assert_eq!(pos.line_pos, 6);
            assert_eq!(pos.line, "  b: ;");
            assert_eq!(pos.file.name(), "input.scss");
            assert!(pos.file.imported_from().is_none());
        }
        other => panic!("expected a parse error, got {:?}", other),
    }
}

#[test]
fn column_counts_characters_not_bytes() {
    let src = "\u{e5}\u{e4} x".as_bytes();
    let p = SourcePos::magic_pos(src, 5, SourceName::root("f"));
    assert_eq!((p.line_no, p.line_pos), (1, 4));
    assert_eq!(p.line, "\u{e5}\u{e4} x");
}

#[test]
fn line_that_is_not_utf8_is_replaced() {
    let src = b"ok\n\xff\xfe x\nmore";
    let p = SourcePos::magic_pos(src, 6, SourceName::root("f"));
    assert_eq!(p.line_no, 2);
    assert_eq!(p.line, "<<failed to display line>>");
    let q = SourcePos::magic_pos(src, 10, SourceName::root("f"));
    assert_eq!((q.line_no, q.line_pos, q.line.as_str()), (3, 3, "more"));
}

#[test]
fn import_chain_renders_two_lines() {
    let at_import = SourcePos {
        line: "@import 'b';".to_string(),
        line_no: 3,
        line_pos: 5,
        file: SourceName::root("a.scss"),
    };
    let err = parse_imported_scss_file("b.scss", b"x {\n  y: ;\n}\n", at_import).unwrap_err();
    let text = String::from_utf8(err.render()).unwrap();
    assert_eq!(
        text,
        "Parse error: Tag\
         \n  ,\
         \n2 |   y: ;\
         \n  |      ^ Parse error: Tag\
         \n  '\
         \n  b.scss 2:6  import\
         \n  a.scss 3:5  root stylesheet"
    );
}

#[test]
fn gutter_is_as_wide_as_the_line_number() {
    let mut src = Vec::new();
    for _ in 0..11 {
        src.extend_from_slice(b"a { b: c; }\n");
    }
    src.extend_from_slice(b"x { y: ; }\n");
    let err = parse_scss_file("w.scss", &src).unwrap_err();
    let text = String::from_utf8(err.render()).unwrap();
    let lines: Vec<&str> = text.lines().collect();
    assert_eq!(lines[1], "   ,");
    assert_eq!(lines[2], "12 | x { y: ; }");
    assert_eq!(lines[5], "   w.scss 12:8  root stylesheet");
}

#[test]
fn deep_nesting_fails_as_too_deep() {
    let depth = MAX_NESTING + 5;
    let mut src = Vec::new();
    for _ in 0..depth {
        src.extend_from_slice(b"a{");
    }
    for _ in 0..depth {
        src.push(b'}');
    }
    match parse_scss_data(&src) {
        Err(ParseError { err, .. }) => assert_eq!(err, Some(ErrorKind::TooDeep)),
        Ok(_) => panic!("deep input should fail"),
    }
}

#[test]
fn nesting_below_the_limit_parses() {
    let depth = MAX_NESTING - 1;
    let mut src = Vec::new();
    for _ in 0..depth {
        src.extend_from_slice(b"a{");
    }
    for _ in 0..depth {
        src.push(b'}');
    }
    assert_eq!(parse_scss_data(&src).unwrap().len(), 1);
}

#[test]
fn byte_order_mark_and_empty_input() {
    assert_eq!(parse_scss_data(b"\xef\xbb\xbf").unwrap().len(), 0);
    assert_eq!(parse_scss_data(b"").unwrap().len(), 0);
    assert_eq!(parse_scss_data(b"\xef\xbb\xbfa { b: c; }\n// end\n").unwrap().len(), 1);
}

#[test]
fn unclosed_block_is_an_error() {
    let e = parse_scss_data(b"a { b: c;").unwrap_err();
    assert_eq!(e, ParseError { err: Some(ErrorKind::Tag), pos: 9 });
}

#[test]
fn value_data_must_be_consumed() {
    assert_eq!(parse_value_data(b"1px solid").unwrap().text(), b"1px solid".to_vec());
    let e = parse_value_data(b"a;").unwrap_err();
    assert_eq!(e, ParseError { err: None, pos: 1 });
}

#[test]
fn undefined_variable_message() {
    let e = Error::undefined_variable("x");
    assert_eq!(String::from_utf8(e.render()).unwrap(), "Undefined variable: \"$x\"");
}

#[test]
fn bad_value_message() {
    let v = Value::Quoted(b"q".to_vec());
    match Error::bad_value("a number", &v) {
        Error::BadValue(m) => assert_eq!(m, "expected a number, got string = \"q\""),
        other => panic!("{:?}", other),
    }
    match Error::badarg("a color", &Value::Null) {
        Error::BadArguments(m) => assert_eq!(m, "expected a color, got null = null"),
        other => panic!("{:?}", other),
    }
    match Error::badargs(&["a", "b"], &[&Value::Variable(b"v".to_vec())]) {
        Error::BadArguments(m) => assert_eq!(m, "expected [\"a\", \"b\"], got [$v]"),
        other => panic!("{:?}", other),
    }
}

#[test]
fn input_error_message() {
    let e = Error::Input("x.scss".to_string(), "not found".to_string());
    assert_eq!(String::from_utf8(e.render()).unwrap(), "Failed to read \"x.scss\": not found");
    let p = ErrPos { line: String::new(), line_no: 1, line_pos: 1, file: SourceName::root("r") };
    let e = Error::ParseError { msg: "m".to_string(), pos: p };
    assert!(String::from_utf8(e.render()).unwrap().ends_with("r 1:1  root stylesheet"));
}

#[test]
fn imports_record_where_targets_start() {
    let items = parse_scss_data(b"@import \"a.css\", url(\"b.css\") screen;\n").unwrap();
    match &items[0] {
        rsass_front::parser::Item::Import(targets, args, at) => {
            assert_eq!(targets.len(), 2);
            assert_eq!(args.text(), b"screen".to_vec());
            assert_eq!(*at, 8);
        }
        other => panic!("{:?}", other),
    }
}

#[test]
fn realistic_stylesheet_parses() {
    let src = b"// header\n\
        $base: 4px !default;\n\
        /* block */\n\
        @mixin pad($n: 2) { padding: $n * $base; }\n\
        .card > .title, a:hover {\n\
          color: #fff;\n\
          @include pad(3);\n\
          &:focus { outline: none }\n\
          @media screen and (max-width: 100px) { margin: 0; }\n\
        }\n";
    let items = parse_scss_data(src).unwrap();
    assert_eq!(items.len(), 4);
    assert!(matches!(items[1], rsass_front::parser::Item::Comment(_)));
    match &items[3] {
        rsass_front::parser::Item::Rule(sels, body) => {
            assert_eq!(sels.text(), b".card > .title, a:hover".to_vec());
            assert_eq!(body.len(), 4);
        }
        other => panic!("{:?}", other),
    }
}

#[test]
fn other_errors_render_their_debugging_view() {
    for e in [
        Error::BadValue("expected a number, got string = \"q\"".to_string()),
        Error::BadArguments("tab\there".to_string()),
        Error::IoError("back\\slash\nline".to_string()),
        Error::Encoding("bell\u{7}".to_string()),
        Error::BadValue("next line\u{85} and e\u{301}".to_string()),
    ] {
        assert_eq!(String::from_utf8(e.render()).unwrap(), format!("{:?}", e));
    }
    let s = Error::S("plain".to_string());
    assert_eq!(String::from_utf8(s.render()).unwrap(), "plain");
}

#[test]
fn comment_that_is_not_utf8_fails() {
    let e = parse_scss_data(b"/* \xff */").unwrap_err();
    assert_eq!(e, ParseError { err: Some(ErrorKind::Encoding), pos: 2 });
}

#[test]
fn statement_fails_where_its_syntax_breaks() {
    assert_eq!(parse_scss_data(b"$x: ;").unwrap_err(), ParseError { err: Some(ErrorKind::Value), pos: 4 });
    assert_eq!(
        parse_scss_data(b"a { @for $i in 1 {} }").unwrap_err(),
        ParseError { err: Some(ErrorKind::Tag), pos: 12 }
    );
    assert_eq!(
        parse_scss_data(b"@mixin {}").unwrap_err(),
        ParseError { err: Some(ErrorKind::Name), pos: 7 }
    );
}
