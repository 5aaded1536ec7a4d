use ospf_viz::block::{get_indent, parse_nested_blocks, Block};

fn leaf(head: &str) -> Block {
    Block { head: head.to_string(), subs: vec![] }
}

fn node(head: &str, subs: Vec<Block>) -> Block {
    Block { head: head.to_string(), subs }
}

#[test]
fn test_get_indent() {
    assert_eq!(("  \t  ".to_string(), "abc".to_string()), get_indent("  \t  abc"));
}

#[test]
fn test_parse_nbs0() {
    assert_eq!(parse_nested_blocks(""), Vec::<Block>::new());
}

#[test]
fn test_parse_nbs1() {
    assert_eq!(parse_nested_blocks("a"), [leaf("a")]);
    assert_eq!(parse_nested_blocks("a\n"), [leaf("a")]);
}

#[test]
fn test_parse_nbs2() {
    assert_eq!(parse_nested_blocks("a\nb"), [leaf("a"), leaf("b")]);
    assert_eq!(parse_nested_blocks("a\n\r\nb\n"), [leaf("a"), leaf("b")]);
}

#[test]
fn test_parse_nbs3() {
    assert_eq!(parse_nested_blocks("a\n  b"), [node("a", vec![leaf("b")])]);
    assert_eq!(parse_nested_blocks("a\n\r\n  b\n"), [node("a", vec![leaf("b")])]);
    assert_eq!(
        parse_nested_blocks("a\n\r\n  b\nc"),
        [node("a", vec![leaf("b")]), leaf("c")]
    );
}

#[test]
fn siblings_and_children() {
    assert_eq!(
        parse_nested_blocks("a\n  b\n  c\nd"),
        [node("a", vec![leaf("b"), leaf("c")]), leaf("d")]
    );
}

#[test]
fn shallower_line_closes_deeper_scopes() {
    assert_eq!(
        parse_nested_blocks("a\n  b\n    c\n  d\ne"),
        [node("a", vec![node("b", vec![leaf("c")]), leaf("d")]), leaf("e")]
    );
}

#[test]
fn mixed_indentation_widths() {
    assert_eq!(
        parse_nested_blocks("a\n\tb\n\t\tc\nd\n    e"),
        [node("a", vec![node("b", vec![leaf("c")])]), node("d", vec![leaf("e")])]
    );
}

#[test]
fn diverging_indentation_is_not_nested() {
    assert_eq!(
        parse_nested_blocks("a\n  b\n\tc"),
        [node("a", vec![leaf("b"), leaf("c")])]
    );
}

#[test]
fn heads_keep_line_order() {
    let forest = parse_nested_blocks("x\n  y\n\n   \n  z\n    w\nv\n");
    fn walk(b: &Block, out: &mut Vec<String>) {
        out.push(b.head.clone());
        for s in &b.subs {
            walk(s, out);
        }
    }
    let mut heads = Vec::new();
    for b in &forest {
        walk(b, &mut heads);
    }
    assert_eq!(heads, vec!["x", "y", "z", "w", "v"]);
}

#[test]
fn unicode_whitespace_is_indentation() {
    assert_eq!(
        get_indent("\u{3000}\u{a0}x y"),
        ("\u{3000}\u{a0}".to_string(), "x y".to_string())
    );
    assert_eq!(get_indent("   "), ("   ".to_string(), String::new()));
}

#[test]
fn carriage_return_before_newline_is_dropped() {
    assert_eq!(parse_nested_blocks("a\r\n  b\r\n"), [node("a", vec![leaf("b")])]);
}
