use vstd::prelude::*;
use crate::patcher::{SourceNode, Span};

verus! {

/// One parameter of a function, as the host's syntax tree gives it: the text of
/// its name, of its modifiers and of its type, each possibly with surrounding
/// trivia, and the text of the whole parameter.
#[derive(Debug)]
pub struct ParamSyntax {
    pub name: String,
    pub modifiers: String,
    pub type_text: String,
    pub text: String,
}

/// A function with a body inside an `impl` block.
#[derive(Debug)]
pub struct FunctionSyntax {
    /// The function's name.
    pub name: String,
    pub params: Vec<ParamSyntax>,
    /// The text of the return type clause, such as `-> felt252`, or empty.
    pub return_type: String,
    /// The span of the declaration (name, parameters, return type).
    pub declaration_span: Span,
    /// The statements of the body, in order.
    pub statements: Vec<SourceNode>,
}

/// An item of an `impl` body.
#[derive(Debug)]
pub enum ImplItemSyntax {
    Function(FunctionSyntax),
    Other(SourceNode),
}

/// An `impl <name> of <trait_path> { ... }` item.
#[derive(Debug)]
pub struct ImplSyntax {
    /// The text of the attributes in front of the `impl`.
    pub attributes: String,
    pub name: String,
    pub trait_path: String,
    /// The span of the whole impl.
    pub span: Span,
    /// The items of the body that are active under the current configuration,
    /// or `None` for an impl without a body.
    pub body: Option<Vec<ImplItemSyntax>>,
}

/// An item of a module body.
#[derive(Debug)]
pub enum ModuleItemSyntax {
    Impl(ImplSyntax),
    Other(SourceNode),
}

/// A `mod <name> { ... }` item.
#[derive(Debug)]
pub struct ModuleSyntax {
    /// The paths of the attributes on the module, such as `custom::contract`.
    pub attributes: Vec<String>,
    pub name: String,
    /// The items of the body, or `None` for `mod name;`.
    pub body: Option<Vec<ModuleItemSyntax>>,
}

/// A top-level item handed to the plugin.
#[derive(Debug)]
pub enum ItemSyntax {
    Module(ModuleSyntax),
    Other(SourceNode),
}

/// The characters with the Unicode property White_Space.
pub open spec fn is_white_space(c: char) -> bool {
    let v = c as u32;
    (0x9 <= v <= 0xd) || v == 0x20 || v == 0x85 || v == 0xa0 || v == 0x1680 || (0x2000 <= v
        <= 0x200a) || v == 0x2028 || v == 0x2029 || v == 0x202f || v == 0x205f || v == 0x3000
}

/// `s` without its leading whitespace.
pub open spec fn trim_start(s: Seq<char>) -> Seq<char>
    decreases s.len(),
{
    if s.len() > 0 && is_white_space(s[0]) {
        trim_start(s.subrange(1, s.len() as int))
    } else {
        s
    }
}

/// `s` without its trailing whitespace.
pub open spec fn trim_end(s: Seq<char>) -> Seq<char>
    decreases s.len(),
{
    if s.len() > 0 && is_white_space(s[s.len() - 1]) {
        trim_end(s.subrange(0, s.len() - 1))
    } else {
        s
    }
}

/// `s` without leading and trailing whitespace.
pub open spec fn trimmed(s: Seq<char>) -> Seq<char> {
    trim_end(trim_start(s))
}

/// Relies on `str::trim`: the text without leading and trailing characters
/// that have the Unicode property White_Space.
#[verifier::external_body]
fn trim(s: &String) -> (r: String)
    ensures
        r@ == trimmed(s@),
{
    s.trim().to_string()
}

/// Name, modifiers and type of a parameter, without trivia.
#[derive(Debug)]
pub struct ParamInfo {
    pub name: String,
    pub modifiers: String,
    pub param_type: String,
}

/// Gets the name, modifiers and type of a function parameter.
pub fn get_parameter_info(param: &ParamSyntax) -> (r: ParamInfo)
    ensures
        r.name@ == trimmed(param.name@),
        r.modifiers@ == trimmed(param.modifiers@),
        r.param_type@ == trimmed(param.type_text@),
{
    let name = trim(&param.name);
    let modifiers = trim(&param.modifiers);
    let param_type = trim(&param.type_text);
    ParamInfo { name, modifiers, param_type }
}

} // verus!
