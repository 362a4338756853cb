use rsass_front::parser::{
    if_statement, mixin_call, mixin_declaration, property_or_namespace_rule, top_level_item,
    body_item, variable_declaration, Item,
};
use rsass_front::scan::{comment, spacelike2, Failure};
use rsass_front::selectors::selectors;
use rsass_front::value::{check_media_args, unit, ListSeparator, Unit, Value};

fn assert_value(result: Result<(usize, Item), Failure>, src: &[u8], value: Item, rest: &[u8]) {
    let (end, item) = result.expect("statement should parse");
    assert_eq!(item, value);
    assert_eq!(&src[end..], rest);
}

fn string(v: &str) -> Value {
    Value::Literal(v.as_bytes().to_vec())
}

fn percentage(v: isize) -> Value {
    Value::Numeric(v.to_string().into_bytes(), Unit::Percent)
}

fn bytes(v: &str) -> Vec<u8> {
    v.as_bytes().to_vec()
}

#[test]
fn test_media_args_1() {
    assert!(check_media_args(b"#{$media} and ($key + \"-foo\": $value + 5);"))
}

#[test]
fn test_media_args_2() {
    assert!(check_media_args(
        b"print and (foo: 1 2 3), (bar: 3px hux(muz)), not screen;",
    ))
}

#[test]
fn if_with_no_else() {
    let src = b"@if true { p { color: black; } }\n";
    assert_value(
        if_statement(src, 0, 0),
        src,
        Item::IfStatement(
            string("true"),
            vec![Item::Rule(
                selectors(b"p", 0).unwrap().1,
                vec![Item::Property(bytes("color"), string("black"))],
            )],
            vec![],
        ),
        b"\n",
    )
}

#[test]
fn test_mixin_call_noargs() {
    let src = b"@include foo;\n";
    assert_value(
        mixin_call(src, 0, 0),
        src,
        Item::MixinCall { name: bytes("foo"), args: vec![], body: vec![] },
        b"\n",
    )
}

#[test]
fn test_mixin_call_pos_args() {
    let src = b"@include foo(bar, baz);\n";
    assert_value(
        mixin_call(src, 0, 0),
        src,
        Item::MixinCall {
            name: bytes("foo"),
            args: vec![(None, string("bar")), (None, string("baz"))],
            body: vec![],
        },
        b"\n",
    )
}

#[test]
fn test_mixin_call_named_args() {
    let src = b"@include foo($x: bar, $y: baz);\n";
    assert_value(
        mixin_call(src, 0, 0),
        src,
        Item::MixinCall {
            name: bytes("foo"),
            args: vec![(Some(bytes("x")), string("bar")), (Some(bytes("y")), string("baz"))],
            body: vec![],
        },
        b"\n",
    )
}

#[test]
fn test_mixin_declaration_empty() {
    let src = b"@mixin foo() {}\n";
    assert_value(
        mixin_declaration(src, 0, 0),
        src,
        Item::MixinDeclaration { name: bytes("foo"), args: vec![], body: vec![] },
        b"\n",
    )
}

#[test]
fn test_mixin_declaration() {
    let src = b"@mixin foo($x) {\n  foo-bar: baz $x;\n}\n";
    assert_value(
        mixin_declaration(src, 0, 0),
        src,
        Item::MixinDeclaration {
            name: bytes("foo"),
            args: vec![(bytes("x"), Value::Null)],
            body: vec![Item::Property(
                bytes("foo-bar"),
                Value::List(
                    vec![string("baz"), Value::Variable(bytes("x"))],
                    ListSeparator::Space,
                ),
            )],
        },
        b"\n",
    )
}

#[test]
fn test_mixin_declaration_default_and_subrules() {
    let src = b"@mixin bar($a, $b: flug) {\
              \n  foo-bar: baz;\
              \n  foo, bar {\
              \n    property: $b;\
              \n  }\
              \n}\n";
    assert_value(
        mixin_declaration(src, 0, 0),
        src,
        Item::MixinDeclaration {
            name: bytes("bar"),
            args: vec![(bytes("a"), Value::Null), (bytes("b"), string("flug"))],
            body: vec![
                Item::Property(bytes("foo-bar"), string("baz")),
                Item::Rule(
                    selectors(b"foo, bar", 0).unwrap().1,
                    vec![Item::Property(bytes("property"), Value::Variable(bytes("b")))],
                ),
            ],
        },
        b"\n",
    )
}

#[test]
fn test_simple_property() {
    let src = b"color: red;\n";
    assert_value(
        property_or_namespace_rule(src, 0, 0),
        src,
        Item::Property(bytes("color"), string("red")),
        b"",
    )
}

#[test]
fn test_property_2() {
    let src = b"background-position: 90% 50%;\n";
    assert_value(
        property_or_namespace_rule(src, 0, 0),
        src,
        Item::Property(
            bytes("background-position"),
            Value::List(vec![percentage(90), percentage(50)], ListSeparator::Space),
        ),
        b"",
    )
}

#[test]
fn test_variable_declaration_simple() {
    let src = b"$foo: bar;\n";
    assert_value(
        variable_declaration(src, 0),
        src,
        Item::VariableDeclaration {
            name: bytes("foo"),
            val: string("bar"),
            default: false,
            global: false,
        },
        b"",
    )
}

#[test]
fn test_variable_declaration_global() {
    let src = b"$y: some value !global;\n";
    assert_value(
        variable_declaration(src, 0),
        src,
        Item::VariableDeclaration {
            name: bytes("y"),
            val: Value::List(vec![string("some"), string("value")], ListSeparator::Space),
            default: false,
            global: true,
        },
        b"",
    )
}

#[test]
fn test_variable_declaration_default() {
    let src = b"$y: some value !default;\n";
    assert_value(
        variable_declaration(src, 0),
        src,
        Item::VariableDeclaration {
            name: bytes("y"),
            val: Value::List(vec![string("some"), string("value")], ListSeparator::Space),
            default: true,
            global: false,
        },
        b"",
    )
}

fn do_comment_test(src: &[u8], content: &[u8], trail: &[u8]) {
    let (end, (a, b)) = comment(src, 0).expect("comment should parse");
    assert_eq!((&src[end..], &src[a..b]), (trail, content));
}

#[test]
fn comment_simple() {
    do_comment_test(b"/* hello */\n", b" hello ", b"\n")
}

#[test]
fn comment_with_stars() {
    do_comment_test(b"/**** hello ****/\n", b"*** hello ***", b"\n")
}

#[test]
fn comment_with_stars2() {
    do_comment_test(
        b"/* / * / * / * hello * \\ * \\ * \\ */\n",
        b" / * / * / * hello * \\ * \\ * \\ ",
        b"\n",
    )
}

#[test]
fn each_keyword_routes_to_each_loop() {
    let src = b"@each $x in a, b { c: $x; }";
    let (end, item) = top_level_item(src, 0, 0).unwrap();
    assert_eq!(end, src.len());
    match item {
        Item::Each(names, _, body) => {
            assert_eq!(names, vec![bytes("x")]);
            assert_eq!(body.len(), 1);
        }
        other => panic!("expected an each loop, got {:?}", other),
    }
    let (_, item) = body_item(src, 0, 1).unwrap();
    assert!(matches!(item, Item::Each(..)));
}

#[test]
fn other_at_keyword_is_generic_at_rule() {
    let src = b"@media screen { a { b: c; } }";
    let (end, item) = top_level_item(src, 0, 0).unwrap();
    assert_eq!(end, src.len());
    match item {
        Item::AtRule { name, args, body } => {
            assert_eq!(name, bytes("media"));
            assert_eq!(args, string("screen"));
            assert_eq!(body.map(|b| b.len()), Some(1));
        }
        other => panic!("expected an at-rule, got {:?}", other),
    }
}

#[test]
fn comment_item_normalizes_line_breaks() {
    let src = b"/* a\r\nb\rc\x0cd */";
    let (_, item) = top_level_item(src, 0, 0).unwrap();
    assert_eq!(item, Item::Comment(bytes(" a\nb\nc\nd ")));
}

#[test]
fn empty_statement_in_block() {
    let src = b";x";
    let (end, item) = body_item(src, 0, 1).unwrap();
    assert_eq!((end, item), (1, Item::NoOp));
}

#[test]
fn units_are_tried_in_table_order() {
    assert_eq!(unit(b"3kHz", 1), (4, Unit::Khz));
    assert_eq!(unit(b"2ms", 1), (3, Unit::Ms));
    assert_eq!(unit(b"2rem", 1), (4, Unit::Rem));
    assert_eq!(unit(b"5", 1), (1, Unit::Unitless));
    assert_eq!(unit(b"5zz", 1), (1, Unit::Unitless));
}

#[test]
fn numbers_carry_their_unit() {
    let src = b"width: 1.5em foo2 3x;";
    let (_, item) = property_or_namespace_rule(src, 0, 0).unwrap();
    assert_eq!(
        item,
        Item::Property(
            bytes("width"),
            Value::List(
                vec![
                    Value::Numeric(bytes("1.5"), Unit::Em),
                    string("foo2"),
                    string("3x"),
                ],
                ListSeparator::Space,
            ),
        )
    );
}

#[test]
fn for_loop_head() {
    let src = b"@for $i from 1 through 3 { a: $i; }";
    let (end, item) = top_level_item(src, 0, 0).unwrap();
    assert_eq!(end, src.len());
    match item {
        Item::For { name, from, to, inclusive, body } => {
            assert_eq!(name, bytes("i"));
            assert_eq!(*from, Value::Numeric(bytes("1"), Unit::Unitless));
            assert_eq!(*to, Value::Numeric(bytes("3"), Unit::Unitless));
            assert!(inclusive);
            assert_eq!(body.len(), 1);
        }
        other => panic!("expected a for loop, got {:?}", other),
    }
    let (_, item) = top_level_item(b"@for $i from 1 to $n {}", 0, 0).unwrap();
    assert!(matches!(item, Item::For { inclusive: false, .. }));
    assert!(top_level_item(b"@for $i in 1 to 3 {}", 0, 0).is_err());
}

#[test]
fn while_and_at_root() {
    let (_, item) = body_item(b"@while $i > 0 { $i: $i - 1; }", 0, 1).unwrap();
    match item {
        Item::While(cond, body) => {
            assert_eq!(cond.text(), b"$i > 0".to_vec());
            assert_eq!(body.len(), 1);
        }
        other => panic!("{:?}", other),
    }
    let (_, item) = body_item(b"@at-root { a { b: c; } }", 0, 1).unwrap();
    match item {
        Item::AtRoot { selectors, body } => {
            assert_eq!(selectors, rsass_front::selectors::Selectors::root());
            assert_eq!(body.len(), 1);
        }
        other => panic!("{:?}", other),
    }
    let (_, item) = body_item(b"@at-root .x { b: c; }", 0, 1).unwrap();
    match item {
        Item::AtRoot { selectors, .. } => assert_eq!(selectors.text(), b".x".to_vec()),
        other => panic!("{:?}", other),
    }
}

#[test]
fn namespace_rule_groups_properties() {
    let src = b"font: 12px { family: serif; }";
    let (end, item) = property_or_namespace_rule(src, 0, 0).unwrap();
    assert_eq!(end, src.len());
    match item {
        Item::NamespaceRule(name, value, body) => {
            assert_eq!(name, bytes("font"));
            assert_eq!(value, Value::Numeric(bytes("12"), Unit::Px));
            assert_eq!(body, vec![Item::Property(bytes("family"), string("serif"))]);
        }
        other => panic!("{:?}", other),
    }
    let (_, item) = property_or_namespace_rule(b"font: { size: 1em; }", 0, 0).unwrap();
    assert!(matches!(item, Item::NamespaceRule(_, Value::Null, _)));
    assert!(property_or_namespace_rule(b"font: ;", 0, 0).is_err());
}

#[test]
fn function_declaration_and_directives() {
    let src = b"@function double($n) { @return $n * 2; }";
    let (end, item) = top_level_item(src, 0, 0).unwrap();
    assert_eq!(end, src.len());
    match item {
        Item::FunctionDeclaration { name, args, body } => {
            assert_eq!(name, bytes("double"));
            assert_eq!(args, vec![(bytes("n"), Value::Null)]);
            match &body[0] {
                Item::Return(v) => assert_eq!(v.text(), b"$n * 2".to_vec()),
                other => panic!("{:?}", other),
            }
        }
        other => panic!("{:?}", other),
    }
    let (_, item) = top_level_item(b"@warn \"careful\";", 0, 0).unwrap();
    assert_eq!(item, Item::Warn(Value::Quoted(bytes("careful"))));
    let (_, item) = top_level_item(b"@error oops;", 0, 0).unwrap();
    assert_eq!(item, Item::Error(string("oops")));
    assert!(top_level_item(b"@warn;", 0, 0).is_err());
    let (end, item) = body_item(b"@content;", 0, 1).unwrap();
    assert_eq!((end, item), (9, Item::Content));
}

#[test]
fn at_rule_without_block() {
    let src = b"@charset \"utf-8\";";
    let (end, item) = top_level_item(src, 0, 0).unwrap();
    assert_eq!(end, src.len());
    assert_eq!(
        item,
        Item::AtRule { name: bytes("charset"), args: Value::Quoted(bytes("utf-8")), body: None }
    );
}

#[test]
fn spacelike_then_comments() {
    let src = b" // x\n /* y */ z";
    assert_eq!(spacelike2(src, 0).unwrap().0, 15);
    assert!(spacelike2(b"/* y */ z", 0).is_err());
}

#[test]
fn interpolated_property_name() {
    let src = b"#{$p}-top: 1px;";
    let (end, item) = body_item(src, 0, 1).unwrap();
    assert_eq!(end, src.len());
    assert_eq!(item, Item::Property(bytes("#{$p}-top"), Value::Numeric(bytes("1"), Unit::Px)));
}
