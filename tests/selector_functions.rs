use rsass_front::error::Error;
use rsass_front::functions::{
    parse_selector, parse_selectors, register, selector_append, selector_nest, SassFunction,
};
use rsass_front::selectors::{SelectorPart, Selectors};

fn text(s: &Selectors) -> String {
    String::from_utf8(s.text()).unwrap()
}

fn args(v: &[&str]) -> Vec<Vec<u8>> {
    v.iter().map(|a| a.as_bytes().to_vec()).collect()
}

#[test]
fn round_trip_of_two_selectors() {
    let first = parse_selectors(b"foo, bar").unwrap();
    let formatted = first.text();
    assert_eq!(formatted, b"foo, bar".to_vec());
    let second = parse_selectors(&formatted).unwrap();
    assert_eq!(first, second);
}

#[test]
fn round_trip_normalizes_white_space() {
    let first = parse_selectors(b"a  >b ,  c   d").unwrap();
    assert_eq!(text(&first), "a > b, c d");
    let second = parse_selectors(&first.text()).unwrap();
    assert_eq!(first, second);
}

#[test]
fn trailing_comma_and_blanks_are_consumed() {
    let s = parse_selectors(b"a b,").unwrap();
    assert_eq!(s.s.len(), 1);
    assert_eq!(text(&s), "a b");
    assert_eq!(text(&parse_selectors(b"a b  ").unwrap()), "a b");
    match parse_selectors(b"a b , ") {
        Err(Error::S(msg)) => assert_eq!(msg, "Unexpected remains in parse_selectors:  , "),
        other => panic!("expected remains error, got {:?}", other),
    }
}

#[test]
fn unexpected_remains_are_an_error() {
    match parse_selectors(b"a { b") {
        Err(Error::S(msg)) => {
            assert!(msg.starts_with("Unexpected remains in parse_selectors: "));
            assert!(msg.ends_with("{ b"));
        }
        other => panic!("expected remains error, got {:?}", other),
    }
}

#[test]
fn no_selector_is_a_parse_error() {
    assert!(matches!(parse_selectors(b"{"), Err(Error::ParseError { .. })));
}

#[test]
fn empty_input_is_the_root() {
    let s = parse_selectors(b"").unwrap();
    assert_eq!(s, Selectors::root());
    assert_eq!(s.s.len(), 1);
    assert!(s.s[0].parts.is_empty());
    assert_eq!(text(&s), "");
}

#[test]
fn nesting_with_root_is_identity() {
    let s = parse_selectors(b"a > b, c").unwrap();
    let root = Selectors::root();
    assert_eq!(s.inside(&root), s);
    assert_eq!(root.inside(&s), s);
}

#[test]
fn nesting_bar_inside_foo() {
    let s = selector_nest(&args(&["foo", "bar"])).unwrap();
    assert_eq!(text(&s), "foo bar");
}

#[test]
fn nesting_lists_is_outer_major() {
    let s = selector_nest(&args(&["a, b", "c, d"])).unwrap();
    assert_eq!(text(&s), "a c, a d, b c, b d");
}

#[test]
fn nesting_keeps_a_leading_combinator() {
    let s = selector_nest(&args(&["a", "> b"])).unwrap();
    assert_eq!(text(&s), "a > b");
    assert_eq!(s.s[0].parts[1], SelectorPart::RelOp(b'>'));
}

#[test]
fn appending_suffix_onto_foo() {
    let s = selector_append(&args(&["foo", "-suffix"])).unwrap();
    assert_eq!(text(&s), "foo-suffix");
    assert_eq!(s.s[0].parts, vec![SelectorPart::Simple(b"foo-suffix".to_vec())]);
}

#[test]
fn appending_is_a_cartesian_product() {
    let s = selector_append(&args(&["a, b", ".x, .y"])).unwrap();
    assert_eq!(text(&s), "a.x, a.y, b.x, b.y");
}

#[test]
fn appending_that_does_not_reparse_fails() {
    assert!(selector_append(&args(&["a", "{"])).is_err());
}

#[test]
fn single_selector_must_take_all_input() {
    assert_eq!(parse_selector(b"a.b").unwrap().parts, vec![SelectorPart::Simple(b"a.b".to_vec())]);
    match parse_selector(b"a, b") {
        Err(Error::S(msg)) => assert_eq!(msg, "Unexpected remains in parse_selector: , b"),
        other => panic!("{:?}", other),
    }
    assert!(matches!(parse_selector(b"{"), Err(Error::ParseError { .. })));
}

#[test]
fn selector_with_brackets_keeps_spaces_inside() {
    let s = parse_selectors(b"div:lang(nb), a[x=\"1 2\"]").unwrap();
    assert_eq!(text(&s), "div:lang(nb), a[x=\"1 2\"]");
}

#[test]
fn register_adds_the_three_functions() {
    let mut f = vec![("other", SassFunction::SelectorParse)];
    register(&mut f);
    let names: Vec<&str> = f.iter().map(|(n, _)| *n).collect();
    assert_eq!(names, vec!["other", "selector-nest", "selector-append", "selector-parse"]);
    assert_eq!(f[1].1, SassFunction::SelectorNest);
}

#[test]
fn selector_parse_takes_one_argument() {
    let f = SassFunction::SelectorParse;
    assert!(matches!(f.call(&args(&["a", "b"])), Err(Error::BadArguments(_))));
    assert_eq!(text(&f.call(&args(&["a  b"])).unwrap()), "a b");
    assert_eq!(text(&SassFunction::SelectorNest.call(&args(&["x", "y"])).unwrap()), "x y");
    assert_eq!(text(&SassFunction::SelectorAppend.call(&args(&["x", "y"])).unwrap()), "xy");
}

#[test]
fn appending_after_a_trailing_combinator() {
    let s = selector_append(&args(&["a >", "b"])).unwrap();
    assert_eq!(text(&s), "a > b");
    assert_eq!(parse_selector(b"a > ").unwrap().parts.len(), 2);
}
