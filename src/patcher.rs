use vstd::prelude::*;
use vstd::utf8::encode_utf8;

verus! {

/// A range of byte offsets, `start..end`.
#[derive(Clone, Copy, Debug, PartialEq, Eq, Structural)]
pub struct Span {
    pub start: usize,
    pub end: usize,
}

/// A node of the original source: its text and its span without trivia.
#[derive(Debug)]
pub struct SourceNode {
    pub text: String,
    pub span: Span,
}

/// A generated range and the range of the original source it stands for.
#[derive(Clone, Copy, Debug, PartialEq, Eq, Structural)]
pub struct CodeMapping {
    pub span: Span,
    pub origin: Span,
}

/// What to emit, and where it came from.
#[derive(Debug)]
pub enum RewriteNode {
    /// Literal text, with no origin.
    Text(String),
    /// The exact text of an original node, mapped to that node's span.
    Copied(SourceNode),
    /// Whatever `node` renders to, mapped as a whole to `origin`.
    Mapped { node: Box<RewriteNode>, origin: Span },
    /// The renderings of the children, in order.
    Modified(Vec<RewriteNode>),
}

/// `n` is `Text(s)`.
pub open spec fn is_text(n: RewriteNode, s: Seq<char>) -> bool {
    match n {
        RewriteNode::Text(t) => t@ == s,
        _ => false,
    }
}

/// `n` is `Mapped { Text(s), origin }`.
pub open spec fn is_mapped_text(n: RewriteNode, s: Seq<char>, origin: Span) -> bool {
    match n {
        RewriteNode::Mapped { node, origin: o } => o == origin && is_text(*node, s),
        _ => false,
    }
}

/// `n` is `Mapped { Copied(src), origin: src.span }`.
pub open spec fn is_mapped_copy(n: RewriteNode, src: SourceNode) -> bool {
    match n {
        RewriteNode::Mapped { node, origin } => origin == src.span && match *node {
            RewriteNode::Copied(c) => c.text@ == src.text@ && c.span == src.span,
            _ => false,
        },
        _ => false,
    }
}

/// The number of bytes of the UTF-8 encoding of `s`.
pub open spec fn width(s: Seq<char>) -> nat {
    encode_utf8(s).len()
}

pub open spec fn mapping(start: int, end: int, origin: Span) -> CodeMapping {
    CodeMapping { span: Span { start: start as usize, end: end as usize }, origin }
}

/// The text that `n` renders to: its leaves in tree order.
pub open spec fn text_of(n: RewriteNode) -> Seq<char>
    decreases n,
{
    match n {
        RewriteNode::Text(s) => s@,
        RewriteNode::Copied(c) => c.text@,
        RewriteNode::Mapped { node, origin } => text_of(*node),
        RewriteNode::Modified(v) => texts_of(v@),
    }
}

/// The texts of a sequence of nodes, concatenated.
pub open spec fn texts_of(s: Seq<RewriteNode>) -> Seq<char>
    decreases s,
{
    if s.len() == 0 {
        Seq::empty()
    } else {
        texts_of(s.subrange(0, s.len() - 1)) + text_of(s[s.len() - 1])
    }
}

/// The mappings that rendering `n` at generated offset `off` records.
pub open spec fn maps_of(n: RewriteNode, off: int) -> Seq<CodeMapping>
    decreases n,
{
    match n {
        RewriteNode::Text(s) => Seq::empty(),
        RewriteNode::Copied(c) => seq![mapping(off, off + width(c.text@), c.span)],
        RewriteNode::Mapped { node, origin } => seq![
            mapping(off, off + width(text_of(*node)), origin),
        ],
        RewriteNode::Modified(v) => maps_seq(v@, off),
    }
}

/// The mappings of a sequence of nodes rendered one after another from `off`.
pub open spec fn maps_seq(s: Seq<RewriteNode>, off: int) -> Seq<CodeMapping>
    decreases s,
{
    if s.len() == 0 {
        Seq::empty()
    } else {
        let init = s.subrange(0, s.len() - 1);
        maps_seq(init, off) + maps_of(s[s.len() - 1], off + width(texts_of(init)))
    }
}

pub proof fn lemma_width_concat(a: Seq<char>, b: Seq<char>)
    ensures
        width(a + b) == width(a) + width(b),
    decreases a.len(),
{
    if a.len() == 0 {
        assert(a + b =~= b);
    } else {
        assert((a + b).drop_first() =~= a.drop_first() + b);
        lemma_width_concat(a.drop_first(), b);
    }
}

pub proof fn lemma_texts_append(a: Seq<RewriteNode>, b: Seq<RewriteNode>)
    ensures
        texts_of(a + b) == texts_of(a) + texts_of(b),
    decreases b.len(),
{
    if b.len() == 0 {
        assert(a + b =~= a);
        assert(texts_of(a) + texts_of(b) =~= texts_of(a));
    } else {
        let bi = b.subrange(0, b.len() - 1);
        assert((a + b).subrange(0, (a + b).len() - 1) =~= a + bi);
        lemma_texts_append(a, bi);
        assert(texts_of(a + b) =~= texts_of(a) + texts_of(b));
    }
}

pub proof fn lemma_maps_append(a: Seq<RewriteNode>, b: Seq<RewriteNode>, off: int)
    ensures
        maps_seq(a + b, off) == maps_seq(a, off) + maps_seq(b, off + width(texts_of(a))),
    decreases b.len(),
{
    if b.len() == 0 {
        assert(a + b =~= a);
        assert(maps_seq(a, off) + maps_seq(b, off + width(texts_of(a))) =~= maps_seq(a, off));
    } else {
        let bi = b.subrange(0, b.len() - 1);
        assert((a + b).subrange(0, (a + b).len() - 1) =~= a + bi);
        lemma_maps_append(a, bi, off);
        lemma_texts_append(a, bi);
        lemma_width_concat(texts_of(a), texts_of(bi));
        assert(maps_seq(a + b, off) =~= maps_seq(a, off) + maps_seq(b, off + width(texts_of(a))));
    }
}

pub proof fn lemma_push(s: Seq<RewriteNode>, x: RewriteNode)
    ensures
        texts_of(s.push(x)) == texts_of(s) + text_of(x),
        forall|off: int|
            #[trigger] maps_seq(s.push(x), off) == maps_seq(s, off) + maps_of(x, off + width(texts_of(s))),
{
    assert(s.push(x).subrange(0, s.len() as int) =~= s);
    assert(s.push(x)[s.len() as int] == x);
}

/// Appends rendered text and collects the mappings of what it renders.
pub struct PatchBuilder {
    pub code: String,
    pub code_mappings: Vec<CodeMapping>,
}

impl PatchBuilder {
    pub fn new() -> (r: PatchBuilder)
        ensures
            r.code@ == Seq::<char>::empty(),
            r.code_mappings@ == Seq::<CodeMapping>::empty(),
    {
        PatchBuilder { code: String::new(), code_mappings: Vec::new() }
    }

    /// Renders `node` at the end of the text built so far.
    pub fn add_node(&mut self, node: &RewriteNode)
        requires
            width(old(self).code@) + width(text_of(*node)) <= usize::MAX,
        ensures
            final(self).code@ == old(self).code@ + text_of(*node),
            final(self).code_mappings@ == old(self).code_mappings@ + maps_of(
                *node,
                width(old(self).code@) as int,
            ),
        decreases node,
    {
        match node {
            RewriteNode::Text(s) => {
                self.code.append(s.as_str());
                assert(maps_of(*node, width(old(self).code@) as int) =~= Seq::<CodeMapping>::empty());
                assert(self.code_mappings@ =~= old(self).code_mappings@ + maps_of(
                    *node,
                    width(old(self).code@) as int,
                ));
            },
            RewriteNode::Copied(c) => {
                let start = self.code.as_str().len();
                self.code.append(c.text.as_str());
                proof {
                    lemma_width_concat(old(self).code@, c.text@);
                }
                let end = self.code.as_str().len();
                self.code_mappings.push(CodeMapping { span: Span { start, end }, origin: c.span });
            },
            RewriteNode::Mapped { node: inner, origin } => {
                let start = self.code.as_str().len();
                let mut scratch = PatchBuilder::new();
                scratch.add_node(inner);
                self.code.append(scratch.code.as_str());
                proof {
                    lemma_width_concat(old(self).code@, scratch.code@);
                }
                let end = self.code.as_str().len();
                self.code_mappings.push(CodeMapping { span: Span { start, end }, origin: *origin });
            },
            RewriteNode::Modified(children) => {
                let ghost code0 = self.code@;
                let ghost maps0 = self.code_mappings@;
                let ghost off = width(code0) as int;
                let mut i: usize = 0;
                while i < children.len()
                    invariant
                        0 <= i <= children@.len(),
                        *node == RewriteNode::Modified(*children),
                        off == width(code0) as int,
                        width(code0) + width(texts_of(children@)) <= usize::MAX,
                        self.code@ == code0 + texts_of(children@.subrange(0, i as int)),
                        self.code_mappings@ == maps0 + maps_seq(children@.subrange(0, i as int), off),
                    decreases children@.len() - i,
                {
                    let ghost pre = children@.subrange(0, i as int);
                    let ghost next = children@.subrange(0, i + 1);
                    assert(next.subrange(0, i as int) =~= pre);
                    assert(next[i as int] == children@[i as int]);
                    proof {
                        lemma_texts_prefix_width(children@, i as int + 1);
                        lemma_width_concat(code0, texts_of(pre));
                        lemma_width_concat(texts_of(pre), text_of(children@[i as int]));
                    }
                    let ghost before = self.code@;
                    assert(width(before) == off + width(texts_of(pre)));
                    proof {
                        broadcast use vstd::std_specs::vec::axiom_vec_index_decreases;
                        assert(decreases_to!(*children => children[i as int]));
                        assert((*node)->Modified_0 == *children);
                        assert(decreases_to!(*node => (*node)->Modified_0));
                    }
                    self.add_node(&children[i]);
                    assert(maps_seq(next, off) == maps_seq(pre, off) + maps_of(
                        children@[i as int],
                        off + width(texts_of(pre)),
                    ));
                    assert(self.code@ =~= code0 + texts_of(next));
                    assert(self.code_mappings@ =~= maps0 + maps_seq(next, off));
                    i = i + 1;
                }
                assert(children@.subrange(0, children@.len() as int) =~= children@);
            },
        }
    }

    /// Consumes the builder: the text and the mappings.
    pub fn build(self) -> (r: (String, Vec<CodeMapping>))
        ensures
            r.0@ == self.code@,
            r.1@ == self.code_mappings@,
    {
        (self.code, self.code_mappings)
    }
}

/// The texts of a prefix are no wider than those of the whole sequence.
pub proof fn lemma_texts_prefix_width(s: Seq<RewriteNode>, k: int)
    requires
        0 <= k <= s.len(),
    ensures
        width(texts_of(s.subrange(0, k))) <= width(texts_of(s)),
    decreases s.len() - k,
{
    if k < s.len() {
        let next = s.subrange(0, k + 1);
        assert(next.subrange(0, k) =~= s.subrange(0, k));
        lemma_width_concat(texts_of(s.subrange(0, k)), text_of(next[k]));
        lemma_texts_prefix_width(s, k + 1);
    } else {
        assert(s.subrange(0, k) =~= s);
    }
}

/// Renders `node` from an empty text: the generated text and its mappings.
pub fn render(node: &RewriteNode) -> (r: (String, Vec<CodeMapping>))
    requires
        width(text_of(*node)) <= usize::MAX,
    ensures
        r.0@ == text_of(*node),
        r.1@ == maps_of(*node, 0),
{
    let mut builder = PatchBuilder::new();
    builder.add_node(node);
    assert(builder.code@ =~= text_of(*node));
    assert(builder.code_mappings@ =~= maps_of(*node, 0));
    builder.build()
}

/// Whether `n` holds a `Copied` or a `Mapped` node.
pub open spec fn has_origin(n: RewriteNode) -> bool
    decreases n,
{
    match n {
        RewriteNode::Text(s) => false,
        RewriteNode::Copied(c) => true,
        RewriteNode::Mapped { node, origin } => true,
        RewriteNode::Modified(v) => has_origin_seq(v@),
    }
}

pub open spec fn has_origin_seq(s: Seq<RewriteNode>) -> bool
    decreases s,
{
    if s.len() == 0 {
        false
    } else {
        has_origin_seq(s.subrange(0, s.len() - 1)) || has_origin(s[s.len() - 1])
    }
}

/// Each generated range ends before the next one starts.
pub open spec fn ordered(ms: Seq<CodeMapping>) -> bool {
    forall|k: int, l: int| 0 <= k < l < ms.len() ==> #[trigger] ms[k].span.end <= #[trigger] ms[l].span.start
}

/// The generated range of `m` lies within `lo..hi`.
pub open spec fn within(m: CodeMapping, lo: int, hi: int) -> bool {
    lo <= m.span.start <= m.span.end <= hi
}

proof fn lemma_coverage_node(n: RewriteNode, off: int)
    requires
        0 <= off,
        off + width(text_of(n)) <= usize::MAX,
    ensures
        forall|k: int|
            0 <= k < maps_of(n, off).len() ==> within(
                #[trigger] maps_of(n, off)[k],
                off,
                off + width(text_of(n)),
            ),
        has_origin(n) ==> maps_of(n, off).len() > 0,
        ordered(maps_of(n, off)),
    decreases n,
{
    match n {
        RewriteNode::Modified(v) => {
            lemma_coverage_seq(v@, off);
            assert(maps_of(n, off) == maps_seq(v@, off));
            assert(text_of(n) == texts_of(v@));
        },
        _ => {},
    }
}

proof fn lemma_coverage_seq(s: Seq<RewriteNode>, off: int)
    requires
        0 <= off,
        off + width(texts_of(s)) <= usize::MAX,
    ensures
        forall|k: int|
            0 <= k < maps_seq(s, off).len() ==> within(
                #[trigger] maps_seq(s, off)[k],
                off,
                off + width(texts_of(s)),
            ),
        has_origin_seq(s) ==> maps_seq(s, off).len() > 0,
        ordered(maps_seq(s, off)),
    decreases s,
{
    if s.len() > 0 {
        let init = s.subrange(0, s.len() - 1);
        let last = s[s.len() - 1];
        let mid = off + width(texts_of(init));
        lemma_width_concat(texts_of(init), text_of(last));
        lemma_coverage_seq(init, off);
        lemma_coverage_node(last, mid);
        let a = maps_seq(init, off);
        let b = maps_of(last, mid);
        assert forall|k: int|
            0 <= k < maps_seq(s, off).len() implies within(
                #[trigger] maps_seq(s, off)[k],
                off,
                off + width(texts_of(s)),
            ) by {
            if k < a.len() {
                assert(maps_seq(s, off)[k] == a[k]);
            } else {
                assert(maps_seq(s, off)[k] == b[k - a.len()]);
            }
        }
        let m = maps_seq(s, off);
        assert forall|k: int, l: int| 0 <= k < l < m.len() implies #[trigger] m[k].span.end
            <= #[trigger] m[l].span.start by {
            if l < a.len() {
                assert(m[k] == a[k] && m[l] == a[l]);
                assert(a[k].span.end <= a[l].span.start);
            } else if k >= a.len() {
                assert(m[k] == b[k - a.len()] && m[l] == b[l - a.len()]);
                assert(b[k - a.len()].span.end <= b[l - a.len()].span.start);
            } else {
                assert(m[k] == a[k] && m[l] == b[l - a.len()]);
                assert(within(b[l - a.len()], mid, off + width(texts_of(s))));
                assert(within(a[k], off, mid));
            }
        }
    }
}

/// Rendering a tree that holds a `Copied` or `Mapped` node records at least one
/// mapping, and every recorded generated range lies within the generated text.
pub proof fn lemma_mapping_coverage(n: RewriteNode)
    requires
        width(text_of(n)) <= usize::MAX,
    ensures
        forall|k: int|
            0 <= k < maps_of(n, 0).len() ==> within(#[trigger] maps_of(n, 0)[k], 0, width(text_of(n)) as int),
        has_origin(n) ==> maps_of(n, 0).len() > 0,
{
    lemma_coverage_node(n, 0);
}

/// The mappings of a rendered tree come in the order of their generated
/// ranges, which do not overlap.
pub proof fn lemma_mappings_ordered(n: RewriteNode)
    requires
        width(text_of(n)) <= usize::MAX,
    ensures
        ordered(maps_of(n, 0)),
{
    lemma_coverage_node(n, 0);
}

/// Rendering `Mapped { node, origin }` records one mapping, to `origin`, over all
/// that `node` renders to: no mapping of `node` itself survives.
pub proof fn lemma_origin_substitution(n: RewriteNode, off: int)
    requires
        n is Mapped,
    ensures
        maps_of(n, off) == seq![mapping(off, off + width(text_of(n)), n->origin)],
        forall|k: int| 0 <= k < maps_of(n, off).len() ==> #[trigger] maps_of(n, off)[k].origin == n->origin,
{
}

/// Makes a node that renders and maps exactly as `n` does.
pub fn duplicate(n: &RewriteNode) -> (r: RewriteNode)
    ensures
        text_of(r) == text_of(*n),
        forall|off: int| #[trigger] maps_of(r, off) == maps_of(*n, off),
    decreases n,
{
    match n {
        RewriteNode::Text(s) => {
            let r = RewriteNode::Text(s.clone());
            assert forall|off: int| #[trigger] maps_of(r, off) == maps_of(*n, off) by {
                assert(maps_of(r, off) =~= maps_of(*n, off));
            }
            r
        },
        RewriteNode::Copied(c) => {
            let r = RewriteNode::Copied(SourceNode { text: c.text.clone(), span: c.span });
            assert forall|off: int| #[trigger] maps_of(r, off) == maps_of(*n, off) by {
                assert(maps_of(r, off) =~= maps_of(*n, off));
            }
            r
        },
        RewriteNode::Mapped { node, origin } => {
            let inner = duplicate(node);
            let r = RewriteNode::Mapped { node: Box::new(inner), origin: *origin };
            assert forall|off: int| #[trigger] maps_of(r, off) == maps_of(*n, off) by {
                assert(maps_of(r, off) =~= maps_of(*n, off));
            }
            r
        },
        RewriteNode::Modified(children) => {
            let mut out: Vec<RewriteNode> = Vec::new();
            let mut i: usize = 0;
            while i < children.len()
                invariant
                    0 <= i <= children@.len(),
                    *n == RewriteNode::Modified(*children),
                    texts_of(out@) == texts_of(children@.subrange(0, i as int)),
                    forall|off: int|
                        #[trigger] maps_seq(out@, off) == maps_seq(children@.subrange(0, i as int), off),
                decreases children@.len() - i,
            {
                let ghost pre = children@.subrange(0, i as int);
                let ghost next = children@.subrange(0, i + 1);
                assert(next.subrange(0, i as int) =~= pre);
                assert(next[i as int] == children@[i as int]);
                proof {
                    broadcast use vstd::std_specs::vec::axiom_vec_index_decreases;
                    assert(decreases_to!(*children => children[i as int]));
                    assert((*n)->Modified_0 == *children);
                    assert(decreases_to!(*n => (*n)->Modified_0));
                }
                let c = duplicate(&children[i]);
                let ghost before = out@;
                proof {
                    lemma_push(before, c);
                }
                out.push(c);
                assert(texts_of(out@) =~= texts_of(next));
                assert forall|off: int| #[trigger] maps_seq(out@, off) == maps_seq(next, off) by {
                    assert(maps_seq(out@, off) =~= maps_seq(next, off));
                }
                i = i + 1;
            }
            assert(children@.subrange(0, children@.len() as int) =~= children@);
            let r = RewriteNode::Modified(out);
            assert forall|off: int| #[trigger] maps_of(r, off) == maps_of(*n, off) by {
                assert(maps_of(r, off) == maps_seq(r->Modified_0@, off));
                assert(maps_of(*n, off) == maps_seq(children@, off));
            }
            r
        },
    }
}

/// Why a template could not be filled.
#[derive(Debug)]
pub enum TemplateError {
    /// A `$name$` placeholder with no substitution of that name.
    Unbound(String),
    /// A `$` that no later `$` closes.
    Unterminated,
}

/// A template error as a value: the unbound name, or `None` when unterminated.
pub open spec fn fault_of(e: TemplateError) -> Option<Seq<char>> {
    match e {
        TemplateError::Unbound(name) => Some(name@),
        TemplateError::Unterminated => None,
    }
}

/// One unit of a filled template: a literal character, or the substitution
/// at an index.
pub enum Piece {
    Lit(char),
    Sub(usize),
}

/// The `$` at `j` is the first one of `s`.
pub open spec fn closes_at(s: Seq<char>, j: int) -> bool {
    0 <= j < s.len() && s[j] == '$' && forall|k: int| 0 <= k < j ==> s[k] != '$'
}

/// The first substitution named `name` is at index `k`.
pub open spec fn first_named(subs: Seq<(String, RewriteNode)>, name: Seq<char>, k: int) -> bool {
    0 <= k < subs.len() && subs[k].0@ == name && forall|l: int| 0 <= l < k ==> subs[l].0@ != name
}

pub open spec fn prepend_all(d: Seq<Piece>, r: Result<Seq<Piece>, Option<Seq<char>>>) -> Result<
    Seq<Piece>,
    Option<Seq<char>>,
> {
    match r {
        Ok(ps) => Ok(d + ps),
        Err(e) => Err(e),
    }
}

/// Reads a template: characters are literal, `$$` is a literal `$`, and
/// `$name$` is the first substitution called `name`. Fails on a `$` that is
/// not closed (`None`) or on a name without a substitution (`Some(name)`).
pub open spec fn scan(t: Seq<char>, subs: Seq<(String, RewriteNode)>) -> Result<
    Seq<Piece>,
    Option<Seq<char>>,
>
    decreases t.len(),
{
    if t.len() == 0 {
        Ok(Seq::empty())
    } else if t[0] != '$' {
        prepend_all(seq![Piece::Lit(t[0])], scan(t.subrange(1, t.len() as int), subs))
    } else {
        let rest = t.subrange(1, t.len() as int);
        if exists|j: int| closes_at(rest, j) {
            let j = choose|j: int| closes_at(rest, j);
            let name = rest.subrange(0, j);
            let after = rest.subrange(j + 1, rest.len() as int);
            if name.len() == 0 {
                prepend_all(seq![Piece::Lit('$')], scan(after, subs))
            } else if exists|k: int| first_named(subs, name, k) {
                let k = choose|k: int| first_named(subs, name, k);
                prepend_all(seq![Piece::Sub(k as usize)], scan(after, subs))
            } else {
                Err(Some(name))
            }
        } else {
            Err(None)
        }
    }
}

pub open spec fn piece_text(p: Piece, subs: Seq<(String, RewriteNode)>) -> Seq<char> {
    match p {
        Piece::Lit(c) => seq![c],
        Piece::Sub(k) => text_of(subs[k as int].1),
    }
}

/// The text of a filled template.
pub open spec fn pieces_text(ps: Seq<Piece>, subs: Seq<(String, RewriteNode)>) -> Seq<char>
    decreases ps.len(),
{
    if ps.len() == 0 {
        Seq::empty()
    } else {
        pieces_text(ps.subrange(0, ps.len() - 1), subs) + piece_text(ps[ps.len() - 1], subs)
    }
}

/// The mappings of a filled template rendered at `off`: those of each
/// substitution, at its place.
pub open spec fn pieces_maps(ps: Seq<Piece>, subs: Seq<(String, RewriteNode)>, off: int) -> Seq<
    CodeMapping,
>
    decreases ps.len(),
{
    if ps.len() == 0 {
        Seq::empty()
    } else {
        let init = ps.subrange(0, ps.len() - 1);
        pieces_maps(init, subs, off) + match ps[ps.len() - 1] {
            Piece::Lit(c) => Seq::empty(),
            Piece::Sub(k) => maps_of(subs[k as int].1, off + width(pieces_text(init, subs))),
        }
    }
}

proof fn lemma_pieces_push(ps: Seq<Piece>, p: Piece, subs: Seq<(String, RewriteNode)>)
    ensures
        pieces_text(ps.push(p), subs) == pieces_text(ps, subs) + piece_text(p, subs),
        forall|off: int|
            #[trigger] pieces_maps(ps.push(p), subs, off) == pieces_maps(ps, subs, off) + match p {
                Piece::Lit(c) => Seq::empty(),
                Piece::Sub(k) => maps_of(subs[k as int].1, off + width(pieces_text(ps, subs))),
            },
{
    assert(ps.push(p).subrange(0, ps.len() as int) =~= ps);
}

fn find_patch(patches: &Vec<(String, RewriteNode)>, name: &String) -> (r: Option<usize>)
    ensures
        r is Some <==> exists|k: int| first_named(patches@, name@, k),
        r is Some ==> first_named(patches@, name@, r->Some_0 as int),
{
    let mut i: usize = 0;
    while i < patches.len()
        invariant
            0 <= i <= patches@.len(),
            forall|l: int| 0 <= l < i ==> patches@[l].0@ != name@,
        decreases patches@.len() - i,
    {
        if patches[i].0 == *name {
            assert(first_named(patches@, name@, i as int));
            return Some(i);
        }
        i = i + 1;
    }
    assert forall|k: int| !first_named(patches@, name@, k) by {}
    None
}

/// Fills `code`, whose `$name$` placeholders are replaced by the first node of
/// `patches` with that name and whose `$$` stands for `$`. The result renders
/// the template's text with each placeholder's node in its place, and keeps
/// the mappings of those nodes. A placeholder without a node, or a `$` left
/// open, is an error.
pub fn interpolate_patched(code: &str, patches: &Vec<(String, RewriteNode)>) -> (r: Result<
    RewriteNode,
    TemplateError,
>)
    ensures
        r is Ok <==> scan(code@, patches@) is Ok,
        r is Ok ==> text_of(r->Ok_0) == pieces_text(scan(code@, patches@)->Ok_0, patches@),
        r is Ok ==> forall|off: int|
            #[trigger] maps_of(r->Ok_0, off) == pieces_maps(
                scan(code@, patches@)->Ok_0,
                patches@,
                off,
            ),
        r is Err ==> scan(code@, patches@) == Err::<Seq<Piece>, _>(fault_of(r->Err_0)),
{
    let n = code.unicode_len();
    let ghost t = code@;
    let ghost subs = patches@;
    let mut children: Vec<RewriteNode> = Vec::new();
    let mut pending = String::new();
    let ghost mut done: Seq<Piece> = Seq::empty();
    let mut i: usize = 0;
    assert(t.subrange(0, n as int) =~= t);
    assert(prepend_all(done, scan(t, subs)) =~= scan(t, subs)) by {
        assert(Seq::<Piece>::empty() + Seq::<Piece>::empty() =~= Seq::<Piece>::empty());
        match scan(t, subs) {
            Ok(ps) => assert(done + ps =~= ps),
            Err(e) => {},
        }
    }
    while i < n
        invariant
            n == t.len(),
            t == code@,
            subs == patches@,
            0 <= i <= n,
            scan(t, subs) == prepend_all(done, scan(t.subrange(i as int, n as int), subs)),
            texts_of(children@) + pending@ == pieces_text(done, subs),
            forall|off: int| #[trigger] maps_seq(children@, off) == pieces_maps(done, subs, off),
        decreases n - i,
    {
        let ghost rest = t.subrange(i as int, n as int);
        let c = code.get_char(i);
        if c != '$' {
            let ghost d0 = done;
            pending.append(code.substring_char(i, i + 1));
            proof {
                lemma_pieces_push(d0, Piece::Lit(c), subs);
                done = d0.push(Piece::Lit(c));
                assert(rest.subrange(1, rest.len() as int) =~= t.subrange(i + 1, n as int));
                assert(t.subrange(i as int, i + 1) =~= seq![c]);
                match scan(t.subrange(i + 1, n as int), subs) {
                    Ok(ps) => assert(d0 + (seq![Piece::Lit(c)] + ps) =~= done + ps),
                    Err(e) => {},
                }
                assert(texts_of(children@) + pending@ =~= pieces_text(done, subs));
                assert forall|off: int| #[trigger] maps_seq(children@, off) == pieces_maps(done, subs, off) by {
                    assert(pieces_maps(done, subs, off) =~= pieces_maps(d0, subs, off));
                }
            }
            i = i + 1;
        } else {
            let ghost inner = rest.subrange(1, rest.len() as int);
            let mut j: usize = i + 1;
            while j < n && code.get_char(j) != '$'
                invariant
                    n == t.len(),
                    t == code@,
                    i + 1 <= j <= n,
                    inner == t.subrange(i + 1, n as int),
                    forall|k: int| i + 1 <= k < j ==> t[k] != '$',
                decreases n - j,
            {
                j = j + 1;
            }
            if j == n {
                assert forall|jj: int| !closes_at(inner, jj) by {
                    if 0 <= jj < inner.len() {
                        assert(inner[jj] == t[i + 1 + jj]);
                    }
                }
                return Err(TemplateError::Unterminated);
            }
            let ghost jr = j - i - 1;
            assert(closes_at(inner, jr)) by {
                assert forall|k: int| 0 <= k < jr implies inner[k] != '$' by {
                    assert(inner[k] == t[i + 1 + k]);
                }
            }
            assert(forall|jj: int| closes_at(inner, jj) ==> jj == jr) by {
                assert forall|jj: int| closes_at(inner, jj) implies jj == jr by {
                    if jj < jr {
                        assert(inner[jj] == t[i + 1 + jj]);
                    } else if jj > jr {
                        assert(inner[jr] == '$');
                    }
                }
            }
            let ghost after = inner.subrange(jr + 1, inner.len() as int);
            assert(after =~= t.subrange(j + 1, n as int));
            assert(rest[0] == '$');
            let ghost name = inner.subrange(0, jr);
            if j == i + 1 {
                let ghost d0 = done;
                pending.append("$");
                proof {
                    reveal_strlit("$");
                    lemma_pieces_push(d0, Piece::Lit('$'), subs);
                    done = d0.push(Piece::Lit('$'));
                    match scan(after, subs) {
                        Ok(ps) => assert(d0 + (seq![Piece::Lit('$')] + ps) =~= done + ps),
                        Err(e) => {},
                    }
                    assert(texts_of(children@) + pending@ =~= pieces_text(done, subs));
                    assert forall|off: int| #[trigger] maps_seq(children@, off) == pieces_maps(done, subs, off) by {
                        assert(pieces_maps(done, subs, off) =~= pieces_maps(d0, subs, off));
                    }
                }
                i = j + 1;
            } else {
                let name_str = String::from_str(code.substring_char(i + 1, j));
                assert(name_str@ =~= name);
                match find_patch(patches, &name_str) {
                    None => {
                        return Err(TemplateError::Unbound(name_str));
                    },
                    Some(k) => {
                        assert(forall|kk: int| first_named(subs, name, kk) ==> kk == k) by {
                            assert forall|kk: int| first_named(subs, name, kk) implies kk == k by {
                                if kk < k {
                                    assert(subs[kk].0@ == name);
                                } else if kk > k {
                                    assert(subs[k as int].0@ == name);
                                }
                            }
                        }
                        if pending.as_str().unicode_len() > 0 {
                            let flushed = RewriteNode::Text(pending);
                            let ghost before = children@;
                            proof {
                                lemma_push(before, flushed);
                            }
                            children.push(flushed);
                            pending = String::new();
                            assert(texts_of(children@) + pending@ =~= pieces_text(done, subs));
                            assert forall|off: int| #[trigger] maps_seq(children@, off) == pieces_maps(done, subs, off) by {
                                assert(maps_seq(children@, off) =~= maps_seq(before, off));
                            }
                        } else {
                            assert(texts_of(children@) =~= texts_of(children@) + pending@);
                        }
                        let node = duplicate(&patches[k].1);
                        let ghost d0 = done;
                        let ghost before = children@;
                        proof {
                            lemma_push(before, node);
                            lemma_pieces_push(d0, Piece::Sub(k), subs);
                            done = d0.push(Piece::Sub(k));
                        }
                        children.push(node);
                        proof {
                            match scan(after, subs) {
                                Ok(ps) => assert(d0 + (seq![Piece::Sub(k)] + ps) =~= done + ps),
                                Err(e) => {},
                            }
                            assert(texts_of(before) =~= texts_of(before) + pending@);
                            assert(texts_of(children@) + pending@ =~= pieces_text(done, subs));
                            assert forall|off: int| #[trigger] maps_seq(children@, off) == pieces_maps(done, subs, off) by {
                                assert(maps_seq(children@, off) =~= pieces_maps(done, subs, off));
                            }
                        }
                        i = j + 1;
                    },
                }
            }
        }
    }
    assert(t.subrange(n as int, n as int) =~= Seq::<char>::empty());
    assert(scan(t, subs) =~= Ok::<_, Option<Seq<char>>>(done)) by {
        assert(done + Seq::<Piece>::empty() =~= done);
    }
    if pending.as_str().unicode_len() > 0 {
        let flushed = RewriteNode::Text(pending);
        let ghost before = children@;
        proof {
            lemma_push(before, flushed);
        }
        children.push(flushed);
        assert forall|off: int| #[trigger] maps_seq(children@, off) == pieces_maps(done, subs, off) by {
            assert(maps_seq(children@, off) =~= maps_seq(before, off));
        }
    } else {
        assert(texts_of(children@) =~= texts_of(children@) + pending@);
    }
    let r = RewriteNode::Modified(children);
    assert forall|off: int| #[trigger] maps_of(r, off) == pieces_maps(done, subs, off) by {
        assert(maps_of(r, off) == maps_seq(r->Modified_0@, off));
    }
    Ok(r)
}

} // verus!
