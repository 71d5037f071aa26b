use vstd::prelude::*;
use crate::patcher::{
    is_mapped_copy, is_mapped_text, is_text, lemma_maps_append, lemma_push, lemma_texts_append,
    lemma_width_concat, mapping, maps_of, maps_seq, render, text_of, texts_of, width, CodeMapping,
    RewriteNode, SourceNode, Span,
};
use crate::syntax::{
    get_parameter_info, trimmed, ParamInfo, FunctionSyntax, ImplItemSyntax, ImplSyntax, ItemSyntax,
    ModuleItemSyntax, ModuleSyntax, ParamSyntax,
};

verus! {

/// The name under which the plugin is published.
pub const PACKAGE_NAME: &'static str = "cairo_plugin_demo";

/// The attribute that opts a module into the rewrite.
pub const MY_ATTR: &'static str = "custom::contract";

/// A parameter `r: R` asks for a mutable receiver.
pub open spec fn is_marker(p: ParamSyntax) -> bool {
    trimmed(p.name@) == "r"@ && trimmed(p.type_text@) == "R"@
}

pub open spec fn uses_ref(ps: Seq<ParamSyntax>) -> bool {
    exists|i: int| 0 <= i < ps.len() && is_marker(#[trigger] ps[i])
}

/// Whether a parameter, given its name and type without trivia, is the
/// marker `r: R` that asks for a mutable receiver.
pub fn is_ref_marker(info: &ParamInfo) -> (r: bool)
    ensures
        r == (info.name@ == "r"@ && info.param_type@ == "R"@),
{
    let r_name = String::from_str("r");
    let r_type = String::from_str("R");
    info.name == r_name && info.param_type == r_type
}

/// `", " + text` for each parameter that is not a marker, in order.
pub open spec fn kept_text(ps: Seq<ParamSyntax>) -> Seq<char>
    decreases ps.len(),
{
    if ps.len() == 0 {
        Seq::empty()
    } else {
        let last = ps[ps.len() - 1];
        kept_text(ps.subrange(0, ps.len() - 1)) + if is_marker(last) {
            Seq::empty()
        } else {
            ", "@ + last.text@
        }
    }
}

pub open spec fn receiver(use_ref: bool) -> Seq<char> {
    if use_ref {
        "ref self: ContractState"@
    } else {
        "self: @ContractState"@
    }
}

/// The rewritten parameter list: the receiver, then every parameter but the
/// markers, joined by `", "`.
pub open spec fn params_text(ps: Seq<ParamSyntax>) -> Seq<char> {
    receiver(uses_ref(ps)) + kept_text(ps)
}

/// Rewrites the parameters of a function: every `r: R` is dropped and
/// `ref self: ContractState` leads the list if there was one, otherwise
/// `self: @ContractState` does.
pub fn rewrite_parameters(params: &Vec<ParamSyntax>) -> (r: String)
    ensures
        r@ == params_text(params@),
{
    let mut use_ref = false;
    let mut rest = String::new();
    let mut i: usize = 0;
    while i < params.len()
        invariant
            0 <= i <= params@.len(),
            rest@ == kept_text(params@.subrange(0, i as int)),
            use_ref == uses_ref(params@.subrange(0, i as int)),
        decreases params@.len() - i,
    {
        let ghost pre = params@.subrange(0, i as int);
        let ghost next = params@.subrange(0, i + 1);
        assert(next.subrange(0, i as int) =~= pre);
        let info = get_parameter_info(&params[i]);
        if is_ref_marker(&info) {
            use_ref = true;
            assert(is_marker(next[i as int]));
        } else {
            rest.append(", ");
            rest.append(params[i].text.as_str());
            proof {
                reveal_strlit(", ");
            }
            assert(rest@ =~= kept_text(next));
        }
        assert(use_ref == uses_ref(next)) by {
            if uses_ref(next) {
                let j = choose|j: int| 0 <= j < next.len() && is_marker(#[trigger] next[j]);
                if j < i {
                    assert(pre[j] == next[j]);
                }
            }
            if uses_ref(pre) {
                let j = choose|j: int| 0 <= j < pre.len() && is_marker(#[trigger] pre[j]);
                assert(pre[j] == next[j]);
            }
        }
        i = i + 1;
    }
    assert(params@.subrange(0, params@.len() as int) =~= params@);
    let head = if use_ref {
        String::from_str("ref self: ContractState")
    } else {
        String::from_str("self: @ContractState")
    };
    head.concat(rest.as_str())
}

/// The new declaration of a rewritten function.
pub open spec fn declaration_text(f: FunctionSyntax) -> Seq<char> {
    "fn "@ + f.name@ + "("@ + params_text(f.params@) + ") "@ + f.return_type@ + " {\n"@
}

/// The statements put in front of the function's own.
pub open spec fn injected_text() -> Seq<char> {
    "let a = 32;\n"@ + "let _b = a + 4;\n"@
}

/// The texts of the nodes, concatenated.
pub open spec fn source_texts(s: Seq<SourceNode>) -> Seq<char>
    decreases s.len(),
{
    if s.len() == 0 {
        Seq::empty()
    } else {
        source_texts(s.subrange(0, s.len() - 1)) + s[s.len() - 1].text@
    }
}

/// One mapping per node, each to its own span, laid out one after another from `off`.
pub open spec fn source_maps(s: Seq<SourceNode>, off: int) -> Seq<CodeMapping>
    decreases s.len(),
{
    if s.len() == 0 {
        Seq::empty()
    } else {
        let init = s.subrange(0, s.len() - 1);
        let start = off + width(source_texts(init));
        source_maps(init, off) + seq![
            mapping(start, start + width(s[s.len() - 1].text@), s[s.len() - 1].span),
        ]
    }
}

/// The text of a rewritten function.
pub open spec fn function_text(f: FunctionSyntax) -> Seq<char> {
    declaration_text(f) + injected_text() + source_texts(f.statements@) + "\n}"@
}

/// The mappings of a rewritten function rendered at `off`: the declaration to
/// the original declaration, each statement to its own span.
pub open spec fn function_maps(f: FunctionSyntax, off: int) -> Seq<CodeMapping> {
    let d = width(declaration_text(f));
    seq![mapping(off, off + d, f.declaration_span)] + source_maps(
        f.statements@,
        off + d + width(injected_text()),
    )
}

fn copy_node(n: &SourceNode) -> (r: SourceNode)
    ensures
        r.text@ == n.text@,
        r.span == n.span,
{
    SourceNode { text: n.text.clone(), span: n.span }
}

/// Rewrites a function: a new declaration mapped to the original one, two
/// injected statements, each original statement mapped to itself, and a
/// closing brace.
pub fn rewrite_function(f: &FunctionSyntax) -> (r: Vec<RewriteNode>)
    ensures
        r@.len() == f.statements@.len() + 4,
        is_mapped_text(r@[0], declaration_text(*f), f.declaration_span),
        is_text(r@[1], "let a = 32;\n"@),
        is_text(r@[2], "let _b = a + 4;\n"@),
        forall|k: int|
            3 <= k < r@.len() - 1 ==> is_mapped_copy(#[trigger] r@[k], f.statements@[k - 3]),
        is_text(r@[r@.len() - 1], "\n}"@),
        texts_of(r@) == function_text(*f),
        forall|off: int| #[trigger] maps_seq(r@, off) == function_maps(*f, off),
{
    let params_str = rewrite_parameters(&f.params);
    let decl = String::from_str("fn ").concat(f.name.as_str()).concat("(").concat(
        params_str.as_str(),
    ).concat(") ").concat(f.return_type.as_str()).concat(" {\n");
    let mut nodes: Vec<RewriteNode> = Vec::new();
    let ghost d = width(declaration_text(*f));
    let ghost inj = width(injected_text());
    assert(decl@ =~= declaration_text(*f));
    let n0 = RewriteNode::Mapped { node: Box::new(RewriteNode::Text(decl)), origin: f.declaration_span };
    assert(text_of(n0) == declaration_text(*f)) by {
        reveal_with_fuel(text_of, 2);
    }
    proof {
        lemma_push(nodes@, n0);
        assert(texts_of(Seq::<RewriteNode>::empty()) == Seq::<char>::empty());
    }
    nodes.push(n0);
    assert(texts_of(nodes@) =~= declaration_text(*f));
    let a1 = RewriteNode::Text(String::from_str("let a = 32;\n"));
    assert(text_of(a1) == "let a = 32;\n"@);
    proof {
        lemma_push(nodes@, a1);
    }
    nodes.push(a1);
    let a2 = RewriteNode::Text(String::from_str("let _b = a + 4;\n"));
    assert(text_of(a2) == "let _b = a + 4;\n"@);
    proof {
        lemma_push(nodes@, a2);
    }
    nodes.push(a2);
    let ghost head = nodes@;
    proof {
        lemma_width_concat(declaration_text(*f), injected_text());
        assert(texts_of(head) =~= declaration_text(*f) + injected_text());
        assert forall|off: int| #[trigger] maps_seq(head, off) == seq![mapping(off, off + d, f.declaration_span)] by {
            assert(maps_seq(head, off) =~= seq![mapping(off, off + d, f.declaration_span)]);
        }
    }
    let mut i: usize = 0;
    while i < f.statements.len()
        invariant
            0 <= i <= f.statements@.len(),
            nodes@.len() == 3 + i,
            nodes@.subrange(0, 3) == head,
            is_mapped_text(head[0], declaration_text(*f), f.declaration_span),
            is_text(head[1], "let a = 32;\n"@),
            is_text(head[2], "let _b = a + 4;\n"@),
            forall|k: int| 3 <= k < nodes@.len() ==> is_mapped_copy(#[trigger] nodes@[k], f.statements@[k - 3]),
            texts_of(head) == declaration_text(*f) + injected_text(),
            width(texts_of(head)) == d + inj,
            d == width(declaration_text(*f)),
            inj == width(injected_text()),
            forall|off: int| #[trigger] maps_seq(head, off) == seq![mapping(off, off + d, f.declaration_span)],
            texts_of(nodes@) == texts_of(head) + source_texts(f.statements@.subrange(0, i as int)),
            forall|off: int|
                #[trigger] maps_seq(nodes@, off) == maps_seq(head, off) + source_maps(
                    f.statements@.subrange(0, i as int),
                    off + d + inj,
                ),
        decreases f.statements@.len() - i,
    {
        let ghost pre = f.statements@.subrange(0, i as int);
        let ghost next = f.statements@.subrange(0, i + 1);
        assert(next.subrange(0, i as int) =~= pre);
        let s = &f.statements[i];
        let n = RewriteNode::Mapped { node: Box::new(RewriteNode::Copied(copy_node(s))), origin: s.span };
        let ghost old_nodes = nodes@;
        proof {
            lemma_push(old_nodes, n);
            lemma_width_concat(texts_of(head), source_texts(pre));
        }
        nodes.push(n);
        assert(next[i as int] == f.statements@[i as int]);
        assert(text_of(n) == s.text@) by {
            reveal_with_fuel(text_of, 2);
        }
        assert(texts_of(nodes@) =~= texts_of(head) + source_texts(next));
        assert forall|off: int|
            #[trigger] maps_seq(nodes@, off) == maps_seq(head, off) + source_maps(next, off + d + inj) by {
            assert(maps_seq(nodes@, off) == maps_seq(old_nodes, off) + maps_of(n, off + width(texts_of(old_nodes))));
            assert(maps_seq(nodes@, off) =~= maps_seq(head, off) + source_maps(next, off + d + inj));
        }
        assert(nodes@.subrange(0, 3) =~= old_nodes.subrange(0, 3));
        assert(is_mapped_copy(nodes@[3 + i], f.statements@[i as int]));
        assert forall|k: int| 3 <= k < nodes@.len() implies is_mapped_copy(#[trigger] nodes@[k], f.statements@[k - 3]) by {
            if k < nodes@.len() - 1 {
                assert(nodes@[k] == old_nodes[k]);
            }
        }
        i = i + 1;
    }
    assert(f.statements@.subrange(0, f.statements@.len() as int) =~= f.statements@);
    let close = RewriteNode::Text(String::from_str("\n}"));
    proof {
        lemma_push(nodes@, close);
        reveal_strlit("\n}");
    }
    nodes.push(close);
    proof {
        reveal_strlit("let a = 32;\n");
        reveal_strlit("let _b = a + 4;\n");
    }
    assert(texts_of(nodes@) =~= function_text(*f));
    assert(nodes@[0] == head[0] && nodes@[1] == head[1] && nodes@[2] == head[2]);
    assert forall|off: int| #[trigger] maps_seq(nodes@, off) == function_maps(*f, off) by {
        assert(maps_seq(nodes@, off) =~= function_maps(*f, off));
    }
    nodes
}

/// The severity of a diagnostic.
#[derive(Clone, Copy, Debug, PartialEq, Eq, Structural)]
pub enum Severity {
    Error,
    Warning,
}

/// A diagnostic on the original source.
#[derive(Debug)]
pub struct PluginDiagnostic {
    pub location: Span,
    pub message: String,
    pub severity: Severity,
}

/// The generated replacement of an item.
#[derive(Debug)]
pub struct PluginGeneratedFile {
    pub name: String,
    pub content: String,
    pub code_mappings: Vec<CodeMapping>,
}

/// What one call of the plugin hands back to the host.
#[derive(Debug)]
pub struct PluginResult {
    pub code: Option<PluginGeneratedFile>,
    pub diagnostics: Vec<PluginDiagnostic>,
    pub remove_original_item: bool,
}

/// No code, no diagnostics, and the original item kept.
pub open spec fn is_empty_result(r: PluginResult) -> bool {
    r.code is None && r.diagnostics@.len() == 0 && !r.remove_original_item
}

impl Default for PluginResult {
    fn default() -> (r: PluginResult)
        ensures
            is_empty_result(r),
    {
        PluginResult { code: None, diagnostics: Vec::new(), remove_original_item: false }
    }
}

/// The header that replaces an impl's own.
pub open spec fn header_text(i: ImplSyntax) -> Seq<char> {
    i.attributes@ + " impl "@ + i.name@ + " of "@ + i.trait_path@ + " {\n"@
}

pub open spec fn impl_item_text(it: ImplItemSyntax) -> Seq<char> {
    match it {
        ImplItemSyntax::Function(f) => function_text(f),
        ImplItemSyntax::Other(n) => n.text@,
    }
}

/// The rewritten items of an impl body, concatenated.
pub open spec fn impl_body_text(items: Seq<ImplItemSyntax>) -> Seq<char>
    decreases items.len(),
{
    if items.len() == 0 {
        Seq::empty()
    } else {
        impl_body_text(items.subrange(0, items.len() - 1)) + impl_item_text(items[items.len() - 1])
    }
}

/// The text of a rewritten impl.
pub open spec fn impl_text(i: ImplSyntax) -> Seq<char> {
    header_text(i) + match i.body {
        Some(b) => impl_body_text(b@),
        None => Seq::empty(),
    } + "\n}"@
}

/// The mappings of a rewritten impl at `off`: its header, and its body if it has
/// one, each mapped as a whole to the impl's span.
pub open spec fn impl_maps(i: ImplSyntax, off: int) -> Seq<CodeMapping> {
    let h = off + width(header_text(i));
    seq![mapping(off, h, i.span)] + match i.body {
        Some(b) => seq![mapping(h, h + width(impl_body_text(b@)), i.span)],
        None => Seq::empty(),
    }
}

/// Every mapping of a rewritten impl points at the impl's own span: one for
/// its header and one for its body when it has one. The declarations,
/// statements and items inside it get no mapping of their own.
pub proof fn lemma_impl_origin(i: ImplSyntax, off: int)
    ensures
        impl_maps(i, off).len() == if i.body is Some {
            2int
        } else {
            1int
        },
        forall|k: int|
            0 <= k < impl_maps(i, off).len() ==> #[trigger] impl_maps(i, off)[k].origin == i.span,
{
}

pub open spec fn item_text(it: ModuleItemSyntax) -> Seq<char> {
    match it {
        ModuleItemSyntax::Impl(i) => impl_text(i),
        ModuleItemSyntax::Other(n) => n.text@,
    }
}

pub open spec fn item_maps(it: ModuleItemSyntax, off: int) -> Seq<CodeMapping> {
    match it {
        ModuleItemSyntax::Impl(i) => impl_maps(i, off),
        ModuleItemSyntax::Other(n) => seq![mapping(off, off + width(n.text@), n.span)],
    }
}

/// The rewritten items of a module body, concatenated.
pub open spec fn items_text(items: Seq<ModuleItemSyntax>) -> Seq<char>
    decreases items.len(),
{
    if items.len() == 0 {
        Seq::empty()
    } else {
        items_text(items.subrange(0, items.len() - 1)) + item_text(items[items.len() - 1])
    }
}

/// The mappings of the rewritten items of a module body laid out from `off`.
pub open spec fn items_maps(items: Seq<ModuleItemSyntax>, off: int) -> Seq<CodeMapping>
    decreases items.len(),
{
    if items.len() == 0 {
        Seq::empty()
    } else {
        let init = items.subrange(0, items.len() - 1);
        items_maps(init, off) + item_maps(items[items.len() - 1], off + width(items_text(init)))
    }
}

/// The spans of the impls named `bad`, in order.
pub open spec fn bad_impl_spans(items: Seq<ModuleItemSyntax>) -> Seq<Span>
    decreases items.len(),
{
    if items.len() == 0 {
        Seq::empty()
    } else {
        let init = bad_impl_spans(items.subrange(0, items.len() - 1));
        match items[items.len() - 1] {
            ModuleItemSyntax::Impl(i) => if i.name@ == "bad"@ {
                init.push(i.span)
            } else {
                init
            },
            ModuleItemSyntax::Other(n) => init,
        }
    }
}

/// `d` is the error on an impl named `bad` at `span`.
pub open spec fn is_bad_name_error(d: PluginDiagnostic, span: Span) -> bool {
    d.severity == Severity::Error && d.message@ == "Invalid impl name"@ && d.location == span
}

pub open spec fn module_prefix(m: ModuleSyntax) -> Seq<char> {
    "\n            #[starknet::contract]\n            mod "@ + m.name@ + " {\n\n                "@
}

pub open spec fn module_suffix() -> Seq<char> {
    "\nstruct S {}\n"@ + "\n\n            }\n            "@
}

/// The generated module: the contract attribute, the module's name, its
/// rewritten items and one added struct.
pub open spec fn module_text(m: ModuleSyntax) -> Seq<char> {
    module_prefix(m) + items_text(m.body->Some_0@) + module_suffix()
}

/// The mappings of the generated module.
pub open spec fn module_maps(m: ModuleSyntax) -> Seq<CodeMapping> {
    items_maps(m.body->Some_0@, width(module_prefix(m)) as int)
}

/// The module carries the trigger attribute.
pub open spec fn has_attr(m: ModuleSyntax) -> bool {
    exists|i: int| 0 <= i < m.attributes@.len() && #[trigger] m.attributes@[i]@ == MY_ATTR@
}

/// What handling module `m` gives: nothing unless it carries the trigger
/// attribute and has a body; otherwise the generated module named after it, its
/// mappings, one error per impl named `bad`, and the original removed.
pub open spec fn mod_result(m: ModuleSyntax, r: PluginResult) -> bool {
    &&& !has_attr(m) || m.body is None ==> is_empty_result(r)
    &&& has_attr(m) && m.body is Some ==> {
        let items = m.body->Some_0@;
        &&& r.code is Some
        &&& r.code->Some_0.name@ == m.name@
        &&& r.code->Some_0.content@ == module_text(m)
        &&& r.code->Some_0.code_mappings@ == module_maps(m)
        &&& r.diagnostics@.len() == bad_impl_spans(items).len()
        &&& forall|k: int|
            0 <= k < r.diagnostics@.len() ==> is_bad_name_error(
                #[trigger] r.diagnostics@[k],
                bad_impl_spans(items)[k],
            )
        &&& r.remove_original_item
    }
}

/// The generated module's length in bytes fits in a `usize`.
pub open spec fn generated_fits(m: ModuleSyntax) -> bool {
    m.body is Some ==> width(module_text(m)) <= usize::MAX
}

fn rewrite_impl_body(items: &Vec<ImplItemSyntax>) -> (r: Vec<RewriteNode>)
    ensures
        texts_of(r@) == impl_body_text(items@),
{
    let mut nodes: Vec<RewriteNode> = Vec::new();
    let mut i: usize = 0;
    while i < items.len()
        invariant
            0 <= i <= items@.len(),
            texts_of(nodes@) == impl_body_text(items@.subrange(0, i as int)),
        decreases items@.len() - i,
    {
        let ghost pre = items@.subrange(0, i as int);
        let ghost next = items@.subrange(0, i + 1);
        assert(next.subrange(0, i as int) =~= pre);
        assert(next[i as int] == items@[i as int]);
        match &items[i] {
            ImplItemSyntax::Function(f) => {
                let mut fn_nodes = rewrite_function(f);
                proof {
                    lemma_texts_append(nodes@, fn_nodes@);
                }
                nodes.append(&mut fn_nodes);
            },
            ImplItemSyntax::Other(n) => {
                let c = RewriteNode::Copied(copy_node(n));
                proof {
                    lemma_push(nodes@, c);
                }
                nodes.push(c);
            },
        }
        assert(texts_of(nodes@) =~= impl_body_text(next));
        i = i + 1;
    }
    assert(items@.subrange(0, items@.len() as int) =~= items@);
    nodes
}

fn rewrite_impl(i: &ImplSyntax) -> (r: Vec<RewriteNode>)
    ensures
        texts_of(r@) == impl_text(*i),
        forall|off: int| #[trigger] maps_seq(r@, off) == impl_maps(*i, off),
{
    let header = i.attributes.clone().concat(" impl ").concat(i.name.as_str()).concat(
        " of ",
    ).concat(i.trait_path.as_str()).concat(" {\n");
    assert(header@ =~= header_text(*i));
    let mut nodes: Vec<RewriteNode> = Vec::new();
    let h = RewriteNode::Mapped { node: Box::new(RewriteNode::Text(header)), origin: i.span };
    assert(text_of(h) == header_text(*i)) by {
        reveal_with_fuel(text_of, 2);
    }
    proof {
        lemma_push(nodes@, h);
        assert(texts_of(Seq::<RewriteNode>::empty()) == Seq::<char>::empty());
    }
    nodes.push(h);
    let ghost hw = width(header_text(*i));
    assert(texts_of(nodes@) =~= header_text(*i));
    assert forall|off: int| #[trigger] maps_seq(nodes@, off) == seq![mapping(off, off + hw, i.span)] by {
        assert(maps_seq(nodes@, off) =~= seq![mapping(off, off + hw, i.span)]);
    }
    match &i.body {
        Some(items) => {
            let b = rewrite_impl_body(items);
            let mb = RewriteNode::Mapped {
                node: Box::new(RewriteNode::Modified(b)),
                origin: i.span,
            };
            assert(text_of(mb) == impl_body_text(items@)) by {
                reveal_with_fuel(text_of, 2);
            }
            let ghost before = nodes@;
            proof {
                lemma_push(before, mb);
            }
            nodes.push(mb);
            assert(texts_of(nodes@) =~= header_text(*i) + impl_body_text(items@));
            assert forall|off: int| #[trigger]
                maps_seq(nodes@, off) == impl_maps(*i, off).subrange(0, 2) by {
                assert(maps_seq(nodes@, off) =~= impl_maps(*i, off).subrange(0, 2));
            }
        },
        None => {
            assert(texts_of(nodes@) =~= header_text(*i) + Seq::<char>::empty());
            assert forall|off: int| #[trigger]
                maps_seq(nodes@, off) == impl_maps(*i, off).subrange(0, 1) by {
                assert(maps_seq(nodes@, off) =~= impl_maps(*i, off).subrange(0, 1));
            }
        },
    }
    let close = RewriteNode::Text(String::from_str("\n}"));
    let ghost before = nodes@;
    proof {
        lemma_push(before, close);
        reveal_strlit("\n}");
    }
    nodes.push(close);
    assert(texts_of(nodes@) =~= impl_text(*i));
    assert forall|off: int| #[trigger] maps_seq(nodes@, off) == impl_maps(*i, off) by {
        assert(maps_seq(nodes@, off) =~= impl_maps(*i, off));
    }
    nodes
}

fn module_has_attr(m: &ModuleSyntax) -> (r: bool)
    ensures
        r == has_attr(*m),
{
    let attr = String::from_str(MY_ATTR);
    let mut i: usize = 0;
    while i < m.attributes.len()
        invariant
            0 <= i <= m.attributes@.len(),
            attr@ == MY_ATTR@,
            forall|k: int| 0 <= k < i ==> #[trigger] m.attributes@[k]@ != MY_ATTR@,
        decreases m.attributes@.len() - i,
    {
        if m.attributes[i] == attr {
            return true;
        }
        i = i + 1;
    }
    false
}

/// The plugin that rewrites modules marked with `#[custom::contract]`.
#[derive(Clone, Copy, Debug, Default)]
pub struct BuiltinDemoPlugin;

impl BuiltinDemoPlugin {
    /// Rewrites a module that carries the trigger attribute into a contract
    /// module: items other than impls are copied, each impl gets a new header
    /// and rewritten functions, and a struct is added at the end.
    pub fn handle_mod(&self, module: &ModuleSyntax) -> (r: PluginResult)
        requires
            generated_fits(*module),
        ensures
            mod_result(*module, r),
    {
        if !module_has_attr(module) {
            return PluginResult { code: None, diagnostics: Vec::new(), remove_original_item: false };
        }
        let items = match &module.body {
            Some(items) => items,
            None => {
                return PluginResult::default();
            },
        };
        let bad = String::from_str("bad");
        let mut diagnostics: Vec<PluginDiagnostic> = Vec::new();
        let mut body_nodes: Vec<RewriteNode> = Vec::new();
        let mut i: usize = 0;
        while i < items.len()
            invariant
                0 <= i <= items@.len(),
                bad@ == "bad"@,
                texts_of(body_nodes@) == items_text(items@.subrange(0, i as int)),
                forall|off: int|
                    #[trigger] maps_seq(body_nodes@, off) == items_maps(
                        items@.subrange(0, i as int),
                        off,
                    ),
                diagnostics@.len() == bad_impl_spans(items@.subrange(0, i as int)).len(),
                forall|k: int|
                    0 <= k < diagnostics@.len() ==> is_bad_name_error(
                        #[trigger] diagnostics@[k],
                        bad_impl_spans(items@.subrange(0, i as int))[k],
                    ),
            decreases items@.len() - i,
        {
            let ghost pre = items@.subrange(0, i as int);
            let ghost next = items@.subrange(0, i + 1);
            assert(next.subrange(0, i as int) =~= pre);
            assert(next[i as int] == items@[i as int]);
            let ghost before = body_nodes@;
            match &items[i] {
                ModuleItemSyntax::Impl(imp) => {
                    if imp.name == bad {
                        diagnostics.push(
                            PluginDiagnostic {
                                location: imp.span,
                                message: String::from_str("Invalid impl name"),
                                severity: Severity::Error,
                            },
                        );
                    }
                    let mut impl_nodes = rewrite_impl(imp);
                    let ghost added = impl_nodes@;
                    proof {
                        lemma_texts_append(before, added);
                        assert forall|off: int| #[trigger]
                            maps_seq(before + added, off) == items_maps(next, off) by {
                            lemma_maps_append(before, added, off);
                            assert(maps_seq(before + added, off) =~= items_maps(next, off));
                        }
                    }
                    body_nodes.append(&mut impl_nodes);
                },
                ModuleItemSyntax::Other(n) => {
                    let c = RewriteNode::Copied(copy_node(n));
                    proof {
                        lemma_push(before, c);
                        assert forall|off: int| #[trigger]
                            maps_seq(before.push(c), off) == items_maps(next, off) by {
                            assert(maps_seq(before.push(c), off) =~= items_maps(next, off));
                        }
                    }
                    body_nodes.push(c);
                },
            }
            assert(texts_of(body_nodes@) =~= items_text(next));
            assert(bad_impl_spans(next).len() == diagnostics@.len());
            i = i + 1;
        }
        assert(items@.subrange(0, items@.len() as int) =~= items@);
        let s = RewriteNode::Text(String::from_str("\nstruct S {}\n"));
        let ghost bn = body_nodes@;
        proof {
            lemma_push(bn, s);
        }
        body_nodes.push(s);
        let mut parts: Vec<RewriteNode> = Vec::new();
        let lead = RewriteNode::Text(String::from_str("\n            #[starknet::contract]\n            mod "));
        let name_part = RewriteNode::Text(module.name.clone());
        let open_part = RewriteNode::Text(String::from_str(" {\n\n                "));
        let body_part = RewriteNode::Modified(body_nodes);
        let close_part = RewriteNode::Text(String::from_str("\n\n            }\n            "));
        let ghost seq_a = parts@;
        proof {
            lemma_push(seq_a, lead);
        }
        parts.push(lead);
        let ghost seq_b = parts@;
        proof {
            lemma_push(seq_b, name_part);
        }
        parts.push(name_part);
        let ghost seq_c = parts@;
        proof {
            lemma_push(seq_c, open_part);
        }
        parts.push(open_part);
        let ghost seq_d = parts@;
        proof {
            lemma_push(seq_d, body_part);
        }
        parts.push(body_part);
        let ghost seq_e = parts@;
        proof {
            lemma_push(seq_e, close_part);
        }
        parts.push(close_part);
        let tree = RewriteNode::Modified(parts);
        assert(texts_of(seq_a) == Seq::<char>::empty());
        assert(texts_of(seq_d) =~= module_prefix(*module));
        assert(text_of(tree) =~= module_text(*module));
        assert(maps_seq(seq_a, 0) == Seq::<CodeMapping>::empty());
        assert(maps_seq(seq_d, 0) =~= Seq::<CodeMapping>::empty());
        let ghost w = width(texts_of(seq_d)) as int;
        assert(w == width(module_prefix(*module)) as int);
        assert(maps_seq(bn, w) == items_maps(items@, w));
        assert(maps_seq(bn.push(s), w) == maps_seq(bn, w));
        assert(maps_of(body_part, w) == maps_seq(bn.push(s), w));
        assert(maps_seq(seq_e, 0) =~= maps_of(body_part, w));
        assert(maps_seq(parts@, 0) == maps_seq(seq_e, 0));
        assert(maps_of(tree, 0) =~= module_maps(*module));
        let (content, code_mappings) = render(&tree);
        PluginResult {
            code: Some(PluginGeneratedFile { name: module.name.clone(), content, code_mappings }),
            diagnostics,
            remove_original_item: true,
        }
    }
}


/// How the plugin is known to the host's registry.
#[derive(Debug)]
pub struct PluginId {
    pub name: String,
    pub version: String,
    /// The git repository the plugin comes from.
    pub repository: String,
    /// The git tag of this version.
    pub tag: String,
}

/// A collection of plugins for the host to install.
#[derive(Debug)]
pub struct PluginSuite {
    pub plugins: Vec<BuiltinDemoPlugin>,
}

impl BuiltinDemoPlugin {
    /// Handles one item: a module with the trigger attribute is rewritten, any
    /// other item is left alone.
    pub fn generate_code(&self, item: &ItemSyntax) -> (r: PluginResult)
        requires
            item is Module ==> generated_fits(item->Module_0),
        ensures
            !(item is Module && has_attr(item->Module_0)) ==> is_empty_result(r),
            item is Module ==> mod_result(item->Module_0, r),
    {
        match item {
            ItemSyntax::Module(m) => {
                if module_has_attr(m) {
                    self.handle_mod(m)
                } else {
                    PluginResult::default()
                }
            },
            ItemSyntax::Other(_) => PluginResult::default(),
        }
    }

    /// The attributes that the plugin handles.
    pub fn declared_attributes(&self) -> (r: Vec<String>)
        ensures
            r@.len() == 1,
            r@[0]@ == MY_ATTR@,
    {
        let mut r: Vec<String> = Vec::new();
        r.push(String::from_str(MY_ATTR));
        r
    }

    /// The plugin's name, version and source.
    pub fn id(&self) -> (r: PluginId)
        ensures
            r.name@ == PACKAGE_NAME@,
            r.version@ == "0.2.0"@,
            r.repository@ == "https://github.com/glihm/"@ + PACKAGE_NAME@,
            r.tag@ == "v"@ + "0.2.0"@,
    {
        let version = String::from_str("0.2.0");
        let repository = String::from_str("https://github.com/glihm/").concat(PACKAGE_NAME);
        let tag = String::from_str("v").concat(version.as_str());
        PluginId { name: String::from_str(PACKAGE_NAME), version, repository, tag }
    }
}

/// The suite that installs this plugin, and only it.
pub fn demo_plugin_suite() -> (r: PluginSuite)
    ensures
        r.plugins@.len() == 1,
{
    let mut plugins: Vec<BuiltinDemoPlugin> = Vec::new();
    plugins.push(BuiltinDemoPlugin);
    PluginSuite { plugins }
}

} // verus!
