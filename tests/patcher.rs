use cairo_plugin_demo::patcher::{
    duplicate, interpolate_patched, render, CodeMapping, PatchBuilder, RewriteNode, SourceNode,
    Span, TemplateError,
};

fn span(start: usize, end: usize) -> Span {
    Span { start, end }
}

fn copied(text: &str, start: usize, end: usize) -> RewriteNode {
    RewriteNode::Copied(SourceNode { text: text.to_string(), span: span(start, end) })
}

fn text(s: &str) -> RewriteNode {
    RewriteNode::Text(s.to_string())
}

#[test]
fn text_only_renders_without_mappings() {
    let (code, maps) = render(&RewriteNode::Modified(vec![text("ab"), text("cd")]));
    assert_eq!(code, "abcd");
    assert!(maps.is_empty());
}

#[test]
fn copied_maps_to_its_own_span() {
    let (code, maps) = render(&RewriteNode::Modified(vec![text("xx"), copied("foo", 10, 13)]));
    assert_eq!(code, "xxfoo");
    assert_eq!(maps, vec![CodeMapping { span: span(2, 5), origin: span(10, 13) }]);
}

#[test]
fn mapped_replaces_inner_mappings() {
    let inner = RewriteNode::Modified(vec![copied("a", 1, 2), text("--"), copied("b", 5, 6)]);
    let node = RewriteNode::Modified(vec![
        text(">"),
        RewriteNode::Mapped { node: Box::new(inner), origin: span(100, 200) },
    ]);
    let (code, maps) = render(&node);
    assert_eq!(code, ">a--b");
    assert_eq!(maps, vec![CodeMapping { span: span(1, 5), origin: span(100, 200) }]);
}

#[test]
fn offsets_count_bytes() {
    let node = RewriteNode::Modified(vec![text("é"), copied("ü", 0, 2), copied("z", 7, 8)]);
    let (code, maps) = render(&node);
    assert_eq!(code, "éüz");
    assert_eq!(
        maps,
        vec![
            CodeMapping { span: span(2, 4), origin: span(0, 2) },
            CodeMapping { span: span(4, 5), origin: span(7, 8) },
        ]
    );
}

#[test]
fn nested_modified_keeps_order_and_offsets() {
    let node = RewriteNode::Modified(vec![
        RewriteNode::Modified(vec![copied("ab", 0, 2), text("-")]),
        RewriteNode::Modified(vec![]),
        RewriteNode::Modified(vec![text("+"), copied("cd", 4, 6)]),
    ]);
    let (code, maps) = render(&node);
    assert_eq!(code, "ab-+cd");
    assert_eq!(
        maps,
        vec![
            CodeMapping { span: span(0, 2), origin: span(0, 2) },
            CodeMapping { span: span(4, 6), origin: span(4, 6) },
        ]
    );
    for m in &maps {
        assert!(m.span.start <= m.span.end && m.span.end <= code.len());
    }
}

#[test]
fn builder_appends_after_existing_text() {
    let mut b = PatchBuilder::new();
    b.add_node(&text("abc"));
    b.add_node(&copied("d", 3, 4));
    let (code, maps) = b.build();
    assert_eq!(code, "abcd");
    assert_eq!(maps, vec![CodeMapping { span: span(3, 4), origin: span(3, 4) }]);
}

#[test]
fn empty_tree_renders_nothing() {
    let (code, maps) = render(&RewriteNode::Modified(vec![]));
    assert_eq!(code, "");
    assert!(maps.is_empty());
}

#[test]
fn interpolation_fills_placeholders() {
    let patches = vec![
        ("name".to_string(), text("m")),
        ("body".to_string(), copied("x;", 7, 9)),
    ];
    let node = interpolate_patched("mod $name$ { $body$ }", &patches).expect("bound template");
    let (code, maps) = render(&node);
    assert_eq!(code, "mod m { x; }");
    assert_eq!(maps, vec![CodeMapping { span: span(8, 10), origin: span(7, 9) }]);
}

#[test]
fn interpolation_repeats_and_escapes() {
    let patches = vec![("a".to_string(), copied("A", 0, 1)), ("a".to_string(), text("other"))];
    let node = interpolate_patched("$a$-$$-$a$", &patches).expect("bound template");
    let (code, maps) = render(&node);
    assert_eq!(code, "A-$-A");
    assert_eq!(
        maps,
        vec![
            CodeMapping { span: span(0, 1), origin: span(0, 1) },
            CodeMapping { span: span(4, 5), origin: span(0, 1) },
        ]
    );
}

#[test]
fn interpolation_rejects_unbound_placeholder() {
    let patches = vec![("a".to_string(), text("x"))];
    match interpolate_patched("$a$ and $b$", &patches) {
        Err(TemplateError::Unbound(name)) => assert_eq!(name, "b"),
        other => panic!("unexpected result: {:?}", other),
    }
}

#[test]
fn interpolation_rejects_open_placeholder() {
    let patches = vec![("a".to_string(), text("x"))];
    assert!(matches!(interpolate_patched("x $a", &patches), Err(TemplateError::Unterminated)));
}

#[test]
fn interpolation_of_plain_text() {
    let node = interpolate_patched("no holes", &vec![]).expect("plain template");
    assert_eq!(render(&node).0, "no holes");
}

#[test]
fn duplicate_renders_the_same() {
    let n = RewriteNode::Modified(vec![
        text("a"),
        RewriteNode::Mapped { node: Box::new(copied("b", 3, 4)), origin: span(1, 9) },
    ]);
    assert_eq!(render(&duplicate(&n)), render(&n));
}
