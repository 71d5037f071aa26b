use cairo_plugin_demo::patcher::{render, CodeMapping, RewriteNode, SourceNode, Span};
use cairo_plugin_demo::plugin::{is_ref_marker, rewrite_function, rewrite_parameters};
use cairo_plugin_demo::syntax::{get_parameter_info, FunctionSyntax, ParamInfo, ParamSyntax};

fn param(name: &str, ty: &str) -> ParamSyntax {
    ParamSyntax {
        name: name.to_string(),
        modifiers: String::new(),
        type_text: ty.to_string(),
        text: format!("{}: {}", name.trim(), ty.trim()),
    }
}

#[test]
fn marker_parameter_gives_ref_receiver() {
    let params = vec![param("a", "u32"), param("r", "R"), param("b", "felt252")];
    assert_eq!(rewrite_parameters(&params), "ref self: ContractState, a: u32, b: felt252");
}

#[test]
fn no_marker_gives_snapshot_receiver() {
    let params = vec![param("a", "u32"), param("b", "felt252")];
    assert_eq!(rewrite_parameters(&params), "self: @ContractState, a: u32, b: felt252");
}

#[test]
fn empty_parameters_give_receiver_only() {
    assert_eq!(rewrite_parameters(&vec![]), "self: @ContractState");
}

#[test]
fn marker_is_matched_after_trimming() {
    let params = vec![param(" r", " R ")];
    assert_eq!(rewrite_parameters(&params), "ref self: ContractState");
}

#[test]
fn marker_needs_both_name_and_type() {
    let params = vec![param("r", "u8"), param("x", "R")];
    assert_eq!(rewrite_parameters(&params), "self: @ContractState, r: u8, x: R");
}

#[test]
fn every_marker_is_dropped() {
    let params = vec![param("r", "R"), param("a", "u8"), param("r", "R")];
    assert_eq!(rewrite_parameters(&params), "ref self: ContractState, a: u8");
}

#[test]
fn parameter_info_is_trimmed() {
    let p = ParamSyntax {
        name: " value ".to_string(),
        modifiers: " ref ".to_string(),
        type_text: "\tu64\n".to_string(),
        text: "ref value: u64".to_string(),
    };
    let info = get_parameter_info(&p);
    assert_eq!(info.name, "value");
    assert_eq!(info.modifiers, "ref");
    assert_eq!(info.param_type, "u64");
}

#[test]
fn function_is_rewritten_with_mapped_statements() {
    let f = FunctionSyntax {
        name: "f".to_string(),
        params: vec![param("x", "u32")],
        return_type: "-> u32".to_string(),
        declaration_span: Span { start: 3, end: 20 },
        statements: vec![
            SourceNode { text: "let y = x;".to_string(), span: Span { start: 24, end: 34 } },
            SourceNode { text: "y".to_string(), span: Span { start: 39, end: 40 } },
        ],
    };
    let nodes = rewrite_function(&f);
    assert_eq!(nodes.len(), 6);
    let (code, maps) = render(&RewriteNode::Modified(nodes));
    let decl = "fn f(self: @ContractState, x: u32) -> u32 {\n";
    let injected = "let a = 32;\nlet _b = a + 4;\n";
    assert_eq!(code, format!("{decl}{injected}let y = x;y\n}}"));
    let s1 = decl.len() + injected.len();
    assert_eq!(
        maps,
        vec![
            CodeMapping { span: Span { start: 0, end: decl.len() }, origin: Span { start: 3, end: 20 } },
            CodeMapping { span: Span { start: s1, end: s1 + 10 }, origin: Span { start: 24, end: 34 } },
            CodeMapping { span: Span { start: s1 + 10, end: s1 + 11 }, origin: Span { start: 39, end: 40 } },
        ]
    );
}

fn info(name: &str, ty: &str) -> ParamInfo {
    ParamInfo { name: name.to_string(), modifiers: String::new(), param_type: ty.to_string() }
}

#[test]
fn ref_marker_is_exactly_r_of_type_r() {
    assert!(is_ref_marker(&info("r", "R")));
    assert!(!is_ref_marker(&info("r", "u8")));
    assert!(!is_ref_marker(&info("R", "R")));
    assert!(!is_ref_marker(&info(" r", "R")));
}

#[test]
fn unicode_whitespace_is_trimmed() {
    let params = vec![param("\u{3000}r\u{a0}", "\u{2009}R")];
    assert_eq!(rewrite_parameters(&params), "ref self: ContractState");
}

#[test]
fn function_nodes_in_order() {
    let f = FunctionSyntax {
        name: "f".to_string(),
        params: vec![param("r", "R")],
        return_type: String::new(),
        declaration_span: Span { start: 0, end: 9 },
        statements: vec![SourceNode { text: "stmt1;".to_string(), span: Span { start: 12, end: 18 } }],
    };
    let nodes = rewrite_function(&f);
    assert_eq!(nodes.len(), 5);
    match &nodes[0] {
        RewriteNode::Mapped { node, origin } => {
            assert_eq!(*origin, Span { start: 0, end: 9 });
            assert!(matches!(&**node, RewriteNode::Text(t) if t == "fn f(ref self: ContractState)  {\n"));
        }
        other => panic!("unexpected node: {:?}", other),
    }
    assert!(matches!(&nodes[1], RewriteNode::Text(t) if t == "let a = 32;\n"));
    assert!(matches!(&nodes[2], RewriteNode::Text(t) if t == "let _b = a + 4;\n"));
    match &nodes[3] {
        RewriteNode::Mapped { node, origin } => {
            assert_eq!(*origin, Span { start: 12, end: 18 });
            assert!(matches!(&**node, RewriteNode::Copied(c) if c.text == "stmt1;" && c.span == *origin));
        }
        other => panic!("unexpected node: {:?}", other),
    }
    assert!(matches!(&nodes[4], RewriteNode::Text(t) if t == "\n}"));
}
