use cairo_plugin_demo::compiler::DemoCompiler;
use cairo_plugin_demo::patcher::{CodeMapping, SourceNode, Span};
use cairo_plugin_demo::plugin::{
    demo_plugin_suite, BuiltinDemoPlugin, PluginResult, Severity, MY_ATTR, PACKAGE_NAME,
};
use cairo_plugin_demo::syntax::{
    FunctionSyntax, ImplItemSyntax, ImplSyntax, ItemSyntax, ModuleItemSyntax, ModuleSyntax,
    ParamSyntax,
};

const PREFIX_HEAD: &str = "\n            #[starknet::contract]\n            mod ";
const PREFIX_TAIL: &str = " {\n\n                ";
const SUFFIX: &str = "\nstruct S {}\n\n\n            }\n            ";

fn node(text: &str, start: usize, end: usize) -> SourceNode {
    SourceNode { text: text.to_string(), span: Span { start, end } }
}

fn span(start: usize, end: usize) -> Span {
    Span { start, end }
}

fn impl_foo(name: &str, start: usize, end: usize) -> ImplSyntax {
    ImplSyntax {
        attributes: String::new(),
        name: name.to_string(),
        trait_path: "Bar".to_string(),
        span: span(start, end),
        body: Some(vec![ImplItemSyntax::Function(FunctionSyntax {
            name: "f".to_string(),
            params: vec![ParamSyntax {
                name: "r".to_string(),
                modifiers: String::new(),
                type_text: "R".to_string(),
                text: "r: R".to_string(),
            }],
            return_type: String::new(),
            declaration_span: span(start + 20, start + 28),
            statements: vec![node("stmt1;", start + 31, start + 37)],
        })]),
    }
}

fn module(attrs: Vec<&str>, body: Option<Vec<ModuleItemSyntax>>) -> ModuleSyntax {
    ModuleSyntax {
        attributes: attrs.into_iter().map(|a| a.to_string()).collect(),
        name: "m".to_string(),
        body,
    }
}

fn is_empty(r: &PluginResult) -> bool {
    r.code.is_none() && r.diagnostics.is_empty() && !r.remove_original_item
}

#[test]
fn module_without_attribute_is_left_alone() {
    let m = module(vec!["other"], Some(vec![ModuleItemSyntax::Other(node("fn g() {}", 0, 9))]));
    assert!(is_empty(&BuiltinDemoPlugin.handle_mod(&m)));
    assert!(is_empty(&BuiltinDemoPlugin.generate_code(&ItemSyntax::Module(m))));
}

#[test]
fn other_items_are_left_alone() {
    let r = BuiltinDemoPlugin.generate_code(&ItemSyntax::Other(node("fn g() {}", 0, 9)));
    assert!(is_empty(&r));
}

#[test]
fn module_without_body_is_left_alone() {
    let m = module(vec![MY_ATTR], None);
    assert!(is_empty(&BuiltinDemoPlugin.handle_mod(&m)));
}

#[test]
fn module_with_impl_and_other_item() {
    let m = module(
        vec![MY_ATTR],
        Some(vec![
            ModuleItemSyntax::Other(node("use a::b;", 10, 19)),
            ModuleItemSyntax::Impl(impl_foo("Foo", 20, 60)),
        ]),
    );
    let r = BuiltinDemoPlugin.generate_code(&ItemSyntax::Module(m));
    assert!(r.diagnostics.is_empty());
    assert!(r.remove_original_item);
    let file = r.code.expect("generated module");
    assert_eq!(file.name, "m");
    let header = " impl Foo of Bar {\n";
    let body = "fn f(ref self: ContractState)  {\nlet a = 32;\nlet _b = a + 4;\nstmt1;\n}";
    let expected =
        format!("{PREFIX_HEAD}m{PREFIX_TAIL}use a::b;{header}{body}\n}}{SUFFIX}");
    assert_eq!(file.content, expected);
    let p = PREFIX_HEAD.len() + 1 + PREFIX_TAIL.len();
    let h = p + 9 + header.len();
    assert_eq!(
        file.code_mappings,
        vec![
            CodeMapping { span: span(p, p + 9), origin: span(10, 19) },
            CodeMapping { span: span(p + 9, h), origin: span(20, 60) },
            CodeMapping { span: span(h, h + body.len()), origin: span(20, 60) },
        ]
    );
}

#[test]
fn impl_without_body_keeps_header_and_brace() {
    let mut i = impl_foo("Foo", 0, 12);
    i.body = None;
    i.attributes = "#[abi(embed_v0)]".to_string();
    let m = module(vec!["x", MY_ATTR], Some(vec![ModuleItemSyntax::Impl(i)]));
    let r = BuiltinDemoPlugin.handle_mod(&m);
    let file = r.code.expect("generated module");
    let header = "#[abi(embed_v0)] impl Foo of Bar {\n";
    assert_eq!(file.content, format!("{PREFIX_HEAD}m{PREFIX_TAIL}{header}\n}}{SUFFIX}"));
    let p = PREFIX_HEAD.len() + 1 + PREFIX_TAIL.len();
    assert_eq!(
        file.code_mappings,
        vec![CodeMapping { span: span(p, p + header.len()), origin: span(0, 12) }]
    );
}

#[test]
fn impl_named_bad_gives_one_error_at_its_span() {
    let m = module(
        vec![MY_ATTR],
        Some(vec![
            ModuleItemSyntax::Impl(impl_foo("Foo", 0, 40)),
            ModuleItemSyntax::Other(node("const X: u8 = 1;", 41, 57)),
            ModuleItemSyntax::Impl(impl_foo("bad", 60, 100)),
        ]),
    );
    let r = BuiltinDemoPlugin.handle_mod(&m);
    assert_eq!(r.diagnostics.len(), 1);
    let d = &r.diagnostics[0];
    assert_eq!(d.severity, Severity::Error);
    assert_eq!(d.message, "Invalid impl name");
    assert_eq!(d.location, span(60, 100));
    // The impl is still rewritten.
    assert!(r.code.expect("generated module").content.contains(" impl bad of Bar {\n"));
}

#[test]
fn empty_module_body_gets_only_the_struct() {
    let m = module(vec![MY_ATTR], Some(vec![]));
    let file = BuiltinDemoPlugin.handle_mod(&m).code.expect("generated module");
    assert_eq!(file.content, format!("{PREFIX_HEAD}m{PREFIX_TAIL}{SUFFIX}"));
    assert!(file.code_mappings.is_empty());
}

#[test]
fn declares_the_trigger_attribute() {
    assert_eq!(BuiltinDemoPlugin.declared_attributes(), vec!["custom::contract".to_string()]);
}

#[test]
fn suite_holds_one_plugin() {
    assert_eq!(demo_plugin_suite().plugins.len(), 1);
}

#[test]
fn plugin_identity() {
    let id = BuiltinDemoPlugin.id();
    assert_eq!(id.name, PACKAGE_NAME);
    assert_eq!(id.version, "0.2.0");
    assert_eq!(id.repository, "https://github.com/glihm/cairo_plugin_demo");
    assert_eq!(id.tag, "v0.2.0");
}

#[test]
fn artifact_file_names() {
    let c = DemoCompiler;
    assert_eq!(c.target_kind(), "demo");
    assert_eq!(c.source_file_name(&"demo::contract::Counter".to_string()), "demo_contract_Counter.cairo");
    assert_eq!(c.source_file_name(&"a:::b".to_string()), "a_:b.cairo");
    assert_eq!(c.class_file_name(&"demo::Counter".to_string()), "demo::Counter.sierra.json");
}
