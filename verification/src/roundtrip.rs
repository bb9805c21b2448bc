//! Re-parsing a serialized tree: writing a well-formed node tree back out
//! as HTML and running the parser over it yields an equivalent tree.

use crate::chars::{is_ws_char, sub_at};
use crate::parser::{find_closing_from, find_ws_in, parse_at, spec_parse, ParseErrorView};
use crate::structs::{
    classify, classify_lowered, lower_seq, special_kind, with_parent_s, NodeTypeView, NodeView,
};
use vstd::prelude::*;

verus! {

/// The canonical source name of an element kind.
#[verifier::opaque]
pub open spec fn tag_text(k: NodeTypeView) -> Seq<char> {
    match k {
        NodeTypeView::Html => "html"@,
        NodeTypeView::Head => "head"@,
        NodeTypeView::Style => "style"@,
        NodeTypeView::Link => "link"@,
        NodeTypeView::Script => "script"@,
        NodeTypeView::Meta => "meta"@,
        NodeTypeView::Title => "title"@,
        NodeTypeView::Body => "body"@,
        NodeTypeView::H1 => "h1"@,
        NodeTypeView::H2 => "h2"@,
        NodeTypeView::H3 => "h3"@,
        NodeTypeView::H4 => "h4"@,
        NodeTypeView::H5 => "h5"@,
        NodeTypeView::H6 => "h6"@,
        NodeTypeView::P => "p"@,
        NodeTypeView::Div => "div"@,
        NodeTypeView::Strong => "strong"@,
        NodeTypeView::Em => "em"@,
        NodeTypeView::A => "a"@,
        NodeTypeView::Ul => "ul"@,
        NodeTypeView::Ol => "ol"@,
        NodeTypeView::Li => "li"@,
        NodeTypeView::Pre => "pre"@,
        NodeTypeView::Code => "code"@,
        NodeTypeView::Hr => "hr"@,
        NodeTypeView::Br => "br"@,
        NodeTypeView::Blockquote => "blockquote"@,
        NodeTypeView::Unknown(t) => t,
        _ => Seq::empty(),
    }
}

/// A character that may stand in a serialized tag name: it neither ends
/// nor restructures the tag.
pub open spec fn name_char(c: char) -> bool {
    &&& !is_ws_char(c)
    &&& c != '<'
    &&& c != '>'
    &&& c != '/'
    &&& c != '!'
    &&& c != '"'
    &&& c != '\''
}

/// An element kind that can be written out and read back: not a leaf
/// kind, with a name made of safe characters that the classifier maps
/// back to the kind itself.
pub open spec fn wf_kind(k: NodeTypeView) -> bool {
    &&& !(k is Text)
    &&& !(k is Comment)
    &&& tag_text(k).len() > 0
    &&& (forall|j: int| 0 <= j < tag_text(k).len() ==> name_char(#[trigger] tag_text(k)[j]))
    &&& classify(tag_text(k)) == k
}

/// The named kinds all satisfy [`wf_kind`]; only `Unknown` names need
/// their own conditions.
pub proof fn lemma_named_kinds_wf(k: NodeTypeView)
    requires
        !(k is Text),
        !(k is Comment),
        !(k is Unknown),
    ensures
        wf_kind(k),
{
    reveal(tag_text);
    reveal(classify_lowered);
    reveal_strlit("html");
    reveal_strlit("head");
    reveal_strlit("style");
    reveal_strlit("link");
    reveal_strlit("script");
    reveal_strlit("meta");
    reveal_strlit("title");
    reveal_strlit("body");
    reveal_strlit("h1");
    reveal_strlit("h2");
    reveal_strlit("h3");
    reveal_strlit("h4");
    reveal_strlit("h5");
    reveal_strlit("h6");
    reveal_strlit("p");
    reveal_strlit("div");
    reveal_strlit("strong");
    reveal_strlit("em");
    reveal_strlit("a");
    reveal_strlit("ul");
    reveal_strlit("ol");
    reveal_strlit("li");
    reveal_strlit("pre");
    reveal_strlit("code");
    reveal_strlit("hr");
    reveal_strlit("br");
    reveal_strlit("blockquote");
    assert(crate::chars::all_ascii(tag_text(k)));
    assert(lower_seq(tag_text(k)) =~= tag_text(k));
    match k {
        NodeTypeView::Html => {
            assert(classify_lowered(tag_text(NodeTypeView::Html)) == NodeTypeView::Html);
        },
        NodeTypeView::Head => {
            assert("head"@[1] != "html"@[1]);
            assert(classify_lowered(tag_text(NodeTypeView::Head)) == NodeTypeView::Head);
        },
        NodeTypeView::Style => {
            assert(classify_lowered(tag_text(NodeTypeView::Style)) == NodeTypeView::Style);
        },
        NodeTypeView::Link => {
            assert("link"@[0] != "html"@[0]);
            assert("link"@[0] != "head"@[0]);
            assert(classify_lowered(tag_text(NodeTypeView::Link)) == NodeTypeView::Link);
        },
        NodeTypeView::Script => {
            assert(classify_lowered(tag_text(NodeTypeView::Script)) == NodeTypeView::Script);
        },
        NodeTypeView::Meta => {
            assert("meta"@[0] != "html"@[0]);
            assert("meta"@[0] != "head"@[0]);
            assert("meta"@[0] != "link"@[0]);
            assert(classify_lowered(tag_text(NodeTypeView::Meta)) == NodeTypeView::Meta);
        },
        NodeTypeView::Title => {
            assert("title"@[0] != "style"@[0]);
            assert(classify_lowered(tag_text(NodeTypeView::Title)) == NodeTypeView::Title);
        },
        NodeTypeView::Body => {
            assert("body"@[0] != "html"@[0]);
            assert("body"@[0] != "head"@[0]);
            assert("body"@[0] != "link"@[0]);
            assert("body"@[0] != "meta"@[0]);
            assert(classify_lowered(tag_text(NodeTypeView::Body)) == NodeTypeView::Body);
        },
        NodeTypeView::H1 => {
            assert(classify_lowered(tag_text(NodeTypeView::H1)) == NodeTypeView::H1);
        },
        NodeTypeView::H2 => {
            assert("h2"@[1] != "h1"@[1]);
            assert(classify_lowered(tag_text(NodeTypeView::H2)) == NodeTypeView::H2);
        },
        NodeTypeView::H3 => {
            assert("h3"@[1] != "h1"@[1]);
            assert("h3"@[1] != "h2"@[1]);
            assert(classify_lowered(tag_text(NodeTypeView::H3)) == NodeTypeView::H3);
        },
        NodeTypeView::H4 => {
            assert("h4"@[1] != "h1"@[1]);
            assert("h4"@[1] != "h2"@[1]);
            assert("h4"@[1] != "h3"@[1]);
            assert(classify_lowered(tag_text(NodeTypeView::H4)) == NodeTypeView::H4);
        },
        NodeTypeView::H5 => {
            assert("h5"@[1] != "h1"@[1]);
            assert("h5"@[1] != "h2"@[1]);
            assert("h5"@[1] != "h3"@[1]);
            assert("h5"@[1] != "h4"@[1]);
            assert(classify_lowered(tag_text(NodeTypeView::H5)) == NodeTypeView::H5);
        },
        NodeTypeView::H6 => {
            assert("h6"@[1] != "h1"@[1]);
            assert("h6"@[1] != "h2"@[1]);
            assert("h6"@[1] != "h3"@[1]);
            assert("h6"@[1] != "h4"@[1]);
            assert("h6"@[1] != "h5"@[1]);
            assert(classify_lowered(tag_text(NodeTypeView::H6)) == NodeTypeView::H6);
        },
        NodeTypeView::P => {
            assert(classify_lowered(tag_text(NodeTypeView::P)) == NodeTypeView::P);
        },
        NodeTypeView::Div => {
            assert(classify_lowered(tag_text(NodeTypeView::Div)) == NodeTypeView::Div);
        },
        NodeTypeView::Strong => {
            assert("strong"@[1] != "script"@[1]);
            assert(classify_lowered(tag_text(NodeTypeView::Strong)) == NodeTypeView::Strong);
        },
        NodeTypeView::Em => {
            assert("em"@[0] != "h1"@[0]);
            assert("em"@[0] != "h2"@[0]);
            assert("em"@[0] != "h3"@[0]);
            assert("em"@[0] != "h4"@[0]);
            assert("em"@[0] != "h5"@[0]);
            assert("em"@[0] != "h6"@[0]);
            assert(classify_lowered(tag_text(NodeTypeView::Em)) == NodeTypeView::Em);
        },
        NodeTypeView::A => {
            assert("a"@[0] != "p"@[0]);
            assert(classify_lowered(tag_text(NodeTypeView::A)) == NodeTypeView::A);
        },
        NodeTypeView::Ul => {
            assert("ul"@[0] != "h1"@[0]);
            assert("ul"@[0] != "h2"@[0]);
            assert("ul"@[0] != "h3"@[0]);
            assert("ul"@[0] != "h4"@[0]);
            assert("ul"@[0] != "h5"@[0]);
            assert("ul"@[0] != "h6"@[0]);
            assert("ul"@[0] != "em"@[0]);
            assert(classify_lowered(tag_text(NodeTypeView::Ul)) == NodeTypeView::Ul);
        },
        NodeTypeView::Ol => {
            assert("ol"@[0] != "h1"@[0]);
            assert("ol"@[0] != "h2"@[0]);
            assert("ol"@[0] != "h3"@[0]);
            assert("ol"@[0] != "h4"@[0]);
            assert("ol"@[0] != "h5"@[0]);
            assert("ol"@[0] != "h6"@[0]);
            assert("ol"@[0] != "em"@[0]);
            assert("ol"@[0] != "ul"@[0]);
            assert(classify_lowered(tag_text(NodeTypeView::Ol)) == NodeTypeView::Ol);
        },
        NodeTypeView::Li => {
            assert("li"@[0] != "h1"@[0]);
            assert("li"@[0] != "h2"@[0]);
            assert("li"@[0] != "h3"@[0]);
            assert("li"@[0] != "h4"@[0]);
            assert("li"@[0] != "h5"@[0]);
            assert("li"@[0] != "h6"@[0]);
            assert("li"@[0] != "em"@[0]);
            assert("li"@[0] != "ul"@[0]);
            assert("li"@[0] != "ol"@[0]);
            assert(classify_lowered(tag_text(NodeTypeView::Li)) == NodeTypeView::Li);
        },
        NodeTypeView::Pre => {
            assert("pre"@[0] != "div"@[0]);
            assert(classify_lowered(tag_text(NodeTypeView::Pre)) == NodeTypeView::Pre);
        },
        NodeTypeView::Code => {
            assert("code"@[0] != "html"@[0]);
            assert("code"@[0] != "head"@[0]);
            assert("code"@[0] != "link"@[0]);
            assert("code"@[0] != "meta"@[0]);
            assert("code"@[0] != "body"@[0]);
            assert(classify_lowered(tag_text(NodeTypeView::Code)) == NodeTypeView::Code);
        },
        NodeTypeView::Hr => {
            assert("hr"@[1] != "h1"@[1]);
            assert("hr"@[1] != "h2"@[1]);
            assert("hr"@[1] != "h3"@[1]);
            assert("hr"@[1] != "h4"@[1]);
            assert("hr"@[1] != "h5"@[1]);
            assert("hr"@[1] != "h6"@[1]);
            assert("hr"@[0] != "em"@[0]);
            assert("hr"@[0] != "ul"@[0]);
            assert("hr"@[0] != "ol"@[0]);
            assert("hr"@[0] != "li"@[0]);
            assert(classify_lowered(tag_text(NodeTypeView::Hr)) == NodeTypeView::Hr);
        },
        NodeTypeView::Br => {
            assert("br"@[0] != "h1"@[0]);
            assert("br"@[0] != "h2"@[0]);
            assert("br"@[0] != "h3"@[0]);
            assert("br"@[0] != "h4"@[0]);
            assert("br"@[0] != "h5"@[0]);
            assert("br"@[0] != "h6"@[0]);
            assert("br"@[0] != "em"@[0]);
            assert("br"@[0] != "ul"@[0]);
            assert("br"@[0] != "ol"@[0]);
            assert("br"@[0] != "li"@[0]);
            assert("br"@[0] != "hr"@[0]);
            assert(classify_lowered(tag_text(NodeTypeView::Br)) == NodeTypeView::Br);
        },
        NodeTypeView::Blockquote => {
            assert(classify_lowered(tag_text(NodeTypeView::Blockquote)) == NodeTypeView::Blockquote);
        },
        _ => {
            assert(false);
        },
    }
}


// ---------------------------------------------------------------------------
// Serialization and well-formedness
// ---------------------------------------------------------------------------

/// The HTML text a node writes back to: its tag around its children, or
/// the literal text of a `Text` leaf.
#[verifier::opaque]
pub open spec fn ser_node(n: NodeView) -> Seq<char>
    decreases n, 0int, 0int,
{
    match n.tag_name {
        Some(NodeTypeView::Text) => match n.value {
            Some(t) => t,
            None => Seq::empty(),
        },
        Some(k) => "<"@ + tag_text(k) + ">"@ + ser_children(n.children, 0) + "</"@ + tag_text(k)
            + ">"@,
        None => ser_children(n.children, 0),
    }
}

/// The concatenated HTML text of the children from `from` on.
pub open spec fn ser_children(cs: Seq<NodeView>, from: int) -> Seq<char>
    decreases cs, 1int, cs.len() - from,
{
    if from < 0 || from >= cs.len() {
        Seq::empty()
    } else {
        ser_node(cs[from]) + ser_children(cs, from + 1)
    }
}

/// A text leaf that survives a round trip: it has text that is not empty,
/// holds neither `<` nor a newline, and is not whitespace alone.
pub open spec fn wf_text(n: NodeView) -> bool {
    &&& n.tag_name == Some(NodeTypeView::Text)
    &&& n.attributes is None
    &&& n.value is Some
    &&& n.value->0.len() > 0
    &&& (forall|j: int| 0 <= j < n.value->0.len() ==> n.value->0[j] != '<' && n.value->0[j]
        != '\n')
    &&& (exists|j: int| 0 <= j < n.value->0.len() && !is_ws_char(n.value->0[j]))
    &&& n.children.len() == 0
}

/// A tree that survives a round trip: a well-formed text leaf, or an
/// element of a well-formed kind, without a value or attributes, whose
/// children are themselves well formed and never put two text leaves side
/// by side (adjacent text runs would merge on re-parse).
pub open spec fn wf_node(n: NodeView) -> bool
    decreases n, 0int, 0int,
{
    ||| wf_text(n)
    ||| {
        &&& n.tag_name is Some
        &&& wf_kind(n.tag_name->0)
        &&& n.value is None
        &&& n.attributes is None
        &&& wf_children(n.children, 0)
    }
}

/// Well-formedness of the children from `from` on.
pub open spec fn wf_children(cs: Seq<NodeView>, from: int) -> bool
    decreases cs, 1int, cs.len() - from,
{
    if from < 0 || from >= cs.len() {
        true
    } else {
        &&& wf_node(cs[from])
        &&& (cs[from].tag_name == Some(NodeTypeView::Text) && from + 1 < cs.len()
            ==> cs[from + 1].tag_name != Some(NodeTypeView::Text))
        &&& wf_children(cs, from + 1)
    }
}

// ---------------------------------------------------------------------------
// What the parser reads back
// ---------------------------------------------------------------------------

/// The ancestor context a fresh child receives under a parent of kind `k`
/// whose own context is `w`.
pub open spec fn next_ctx(k: NodeTypeView, w: Option<Seq<NodeTypeView>>) -> Option<
    Seq<NodeTypeView>,
> {
    if special_kind(k) {
        Some(
            match w {
                Some(l) => l.push(k),
                None => seq![k],
            },
        )
    } else {
        w
    }
}

/// The ancestor context a fresh child receives under `parent`.
pub open spec fn child_ctx(parent: NodeView) -> Option<Seq<NodeTypeView>> {
    let w0 = if parent.within_special_tag is Some {
        parent.within_special_tag
    } else {
        None
    };
    match parent.tag_name {
        Some(pk) => next_ctx(pk, w0),
        None => w0,
    }
}

/// The context the parser assigns to a node attached under the given
/// stack: none at top level, the top's child context otherwise.
pub open spec fn ctx_of_stack(stack: Seq<NodeView>) -> Option<Seq<NodeTypeView>> {
    if stack.len() == 0 {
        None
    } else {
        child_ctx(stack.last())
    }
}

/// The tree the parser reads back from `ser_node(n)` when the node is
/// assigned context `w`: the same kinds and text, with the ancestor
/// context recomputed from the tree's own shape.
pub open spec fn re_node(n: NodeView, w: Option<Seq<NodeTypeView>>) -> NodeView
    decreases n, 0int, 0int,
{
    match n.tag_name {
        Some(NodeTypeView::Text) => NodeView {
            tag_name: n.tag_name,
            value: n.value,
            attributes: None,
            within_special_tag: w,
            children: Seq::empty(),
        },
        Some(k) => NodeView {
            tag_name: n.tag_name,
            value: None,
            attributes: None,
            within_special_tag: w,
            children: re_children(n.children, next_ctx(k, w), 0),
        },
        None => NodeView {
            tag_name: None,
            value: None,
            attributes: None,
            within_special_tag: w,
            children: Seq::empty(),
        },
    }
}

/// The children read back from `from` on, each under context `w`.
pub open spec fn re_children(cs: Seq<NodeView>, w: Option<Seq<NodeTypeView>>, from: int) -> Seq<
    NodeView,
>
    decreases cs, 1int, cs.len() - from,
{
    if from < 0 || from >= cs.len() {
        Seq::empty()
    } else {
        seq![re_node(cs[from], w)] + re_children(cs, w, from + 1)
    }
}

// ---------------------------------------------------------------------------
// Tree equivalence
// ---------------------------------------------------------------------------

/// Two trees are equivalent when kinds, text and attributes agree
/// everywhere; the derived ancestor context is left out of the
/// comparison.
pub open spec fn similar(a: NodeView, b: NodeView) -> bool
    decreases a, 0int, 0int,
{
    &&& a.tag_name == b.tag_name
    &&& a.value == b.value
    &&& a.attributes == b.attributes
    &&& a.children.len() == b.children.len()
    &&& similar_children(a.children, b.children, 0)
}

/// Pointwise equivalence of children from `from` on.
pub open spec fn similar_children(xs: Seq<NodeView>, ys: Seq<NodeView>, from: int) -> bool
    decreases xs, 1int, xs.len() - from,
{
    if from < 0 || from >= xs.len() {
        true
    } else {
        &&& from < ys.len()
        &&& similar(xs[from], ys[from])
        &&& similar_children(xs, ys, from + 1)
    }
}

/// The read-back children have one entry per child.
pub proof fn lemma_re_children_len(cs: Seq<NodeView>, w: Option<Seq<NodeTypeView>>, from: int)
    requires
        0 <= from <= cs.len(),
    ensures
        re_children(cs, w, from).len() == cs.len() - from,
        forall|j: int|
            from <= j < cs.len() ==> re_children(cs, w, from)[j - from] == re_node(#[trigger] cs[j], w),
    decreases cs.len() - from,
{
    if from < cs.len() {
        lemma_re_children_len(cs, w, from + 1);
    }
}

/// Reading a well-formed tree back preserves it up to [`similar`].
pub proof fn lemma_re_similar(n: NodeView, w: Option<Seq<NodeTypeView>>)
    requires
        wf_node(n),
    ensures
        similar(re_node(n, w), n),
    decreases n, 0int, 0int,
{
    if wf_text(n) {
        assert(similar_children(re_node(n, w).children, n.children, 0));
    } else {
        let k = n.tag_name->0;
        lemma_re_children_len(n.children, next_ctx(k, w), 0);
        lemma_re_similar_children(n.children, next_ctx(k, w), 0);
        assert(!(k is Text));
        lemma_similar_children_shift(
            re_children(n.children, next_ctx(k, w), 0),
            n.children,
            next_ctx(k, w),
        );
    }
}

/// Each read-back child is equivalent to its source, pointwise.
proof fn lemma_re_similar_children(cs: Seq<NodeView>, w: Option<Seq<NodeTypeView>>, from: int)
    requires
        0 <= from <= cs.len(),
        wf_children(cs, from),
    ensures
        forall|j: int| from <= j < cs.len() ==> similar(re_node(#[trigger] cs[j], w), cs[j]),
    decreases cs, 1int, cs.len() - from,
{
    if from < cs.len() {
        lemma_re_similar(cs[from], w);
        lemma_re_similar_children(cs, w, from + 1);
    }
}

/// Pointwise equivalence of the read-back children gives the recursive
/// children equivalence.
proof fn lemma_similar_children_shift(
    rs: Seq<NodeView>,
    cs: Seq<NodeView>,
    w: Option<Seq<NodeTypeView>>,
)
    requires
        rs == re_children(cs, w, 0),
        forall|j: int| 0 <= j < cs.len() ==> similar(re_node(#[trigger] cs[j], w), cs[j]),
    ensures
        similar_children(rs, cs, 0),
{
    lemma_re_children_len(cs, w, 0);
    lemma_similar_children_from(rs, cs, w, 0);
}

proof fn lemma_similar_children_from(
    rs: Seq<NodeView>,
    cs: Seq<NodeView>,
    w: Option<Seq<NodeTypeView>>,
    from: int,
)
    requires
        rs == re_children(cs, w, 0),
        0 <= from <= cs.len(),
        forall|j: int| 0 <= j < cs.len() ==> similar(re_node(#[trigger] cs[j], w), cs[j]),
    ensures
        similar_children(rs, cs, from),
    decreases cs.len() - from,
{
    lemma_re_children_len(cs, w, 0);
    if from < cs.len() {
        assert(rs[from] == re_node(cs[from], w));
        lemma_similar_children_from(rs, cs, w, from + 1);
    }
}


// ---------------------------------------------------------------------------
// Search determinism
// ---------------------------------------------------------------------------

/// `find_char_from` is pinned once the first occurrence is exhibited.
proof fn lemma_find_char_at(s: Seq<char>, from: int, c: char, m: int)
    requires
        0 <= from <= m <= s.len(),
        forall|k: int| from <= k < m ==> s[k] != c,
        m < s.len() ==> s[m] == c,
    ensures
        crate::chars::find_char_from(s, from, c) == (if m < s.len() {
            Some(m)
        } else {
            None::<int>
        }),
{
    crate::parser::lemma_find_char_from(s, from, c);
    match crate::chars::find_char_from(s, from, c) {
        Some(j) => {
            if m < s.len() {
                if j < m {
                    assert(s[j] != c);
                } else if j > m {
                    assert(s[m] != c);
                }
            } else {
                assert(s[j] != c);
            }
        },
        None => {
            if m < s.len() {
                assert(s[m] != c);
            }
        },
    }
}

/// `find_closing_from` is pinned when no quote or `>` precedes the `>` at
/// `m`.
proof fn lemma_find_closing_at(s: Seq<char>, from: int, m: int)
    requires
        0 <= from <= m < s.len(),
        s[m] == '>',
        forall|k: int| from <= k < m ==> s[k] != '"' && s[k] != '\'' && s[k] != '>',
    ensures
        find_closing_from(s, from, Seq::empty()) == Some(m),
    decreases m - from,
{
    if from < m {
        lemma_find_closing_at(s, from + 1, m);
    }
}

/// `find_ws_in` finds nothing in a whitespace-free range.
proof fn lemma_find_ws_none(s: Seq<char>, from: int, to: int)
    requires
        0 <= from,
        to <= s.len(),
        forall|k: int| from <= k < to ==> !is_ws_char(s[k]),
    ensures
        find_ws_in(s, from, to) is None,
{
    crate::parser::lemma_find_ws_in(s, from, to);
    match find_ws_in(s, from, to) {
        Some(j) => {
            assert(!is_ws_char(s[j]));
        },
        None => {},
    }
}

// ---------------------------------------------------------------------------
// The shape of a serialized element
// ---------------------------------------------------------------------------

/// The serialized element laid out position by position.
proof fn lemma_ser_elem_chars(n: NodeView)
    requires
        wf_node(n),
        !wf_text(n),
    ensures
        ({
            let k = n.tag_name->0;
            let name = tag_text(k);
            let nl = name.len() as int;
            let body = ser_children(n.children, 0);
            let bl = body.len() as int;
            let ser = ser_node(n);
            &&& ser.len() == 5 + 2 * nl + bl
            &&& ser[0] == '<'
            &&& (forall|j: int| 0 <= j < nl ==> ser[1 + j] == name[j])
            &&& ser[1 + nl] == '>'
            &&& ser.subrange(2 + nl, 2 + nl + bl) == body
            &&& ser[2 + nl + bl] == '<'
            &&& ser[3 + nl + bl] == '/'
            &&& (forall|j: int| 0 <= j < nl ==> ser[4 + nl + bl + j] == name[j])
            &&& ser[4 + 2 * nl + bl] == '>'
        }),
{
    reveal(ser_node);
    reveal_strlit("<");
    reveal_strlit(">");
    reveal_strlit("</");
    let k = n.tag_name->0;
    let name = tag_text(k);
    let nl = name.len() as int;
    let body = ser_children(n.children, 0);
    let bl = body.len() as int;
    let ser = ser_node(n);
    assert(!(k is Text));
    assert(ser == "<"@ + name + ">"@ + body + "</"@ + name + ">"@);
    assert(ser.subrange(2 + nl, 2 + nl + bl) =~= body);
}

// ---------------------------------------------------------------------------
// Running the machine over a serialized tree
// ---------------------------------------------------------------------------

/// The stack with the top element's children extended by `kids`.
pub open spec fn extend_top(stack: Seq<NodeView>, kids: Seq<NodeView>) -> Seq<NodeView>
    recommends
        stack.len() > 0,
{
    let t = stack.last();
    stack.update(stack.len() - 1, NodeView { children: t.children + kids, ..t })
}


/// The element node the machine pushes on reading an opening tag.
pub open spec fn mk_open(k: NodeTypeView, w: Option<Seq<NodeTypeView>>) -> NodeView {
    NodeView {
        tag_name: Some(k),
        value: None,
        attributes: None,
        within_special_tag: w,
        children: Seq::empty(),
    }
}

/// Reading an opening tag `<name>` pushes a fresh element of its kind.
#[verifier::rlimit(100)]
proof fn lemma_step_open(
    s: Seq<char>,
    i: int,
    stack: Seq<NodeView>,
    roots: Seq<NodeView>,
    k: NodeTypeView,
)
    requires
        wf_kind(k),
        0 <= i,
        i + 1 + tag_text(k).len() < s.len(),
        s[i] == '<',
        s[i + 1 + tag_text(k).len()] == '>',
        forall|j: int| 0 <= j < tag_text(k).len() ==> s[i + 1 + j] == tag_text(k)[j],
    ensures
        parse_at(s, i, stack, roots) == parse_at(
            s,
            i + 2 + tag_text(k).len(),
            stack.push(mk_open(k, ctx_of_stack(stack))),
            roots,
        ),
{
    reveal_strlit("<!");
    reveal_strlit("</");
    let name = tag_text(k);
    let nl = name.len() as int;
    let p1 = i + 1 + nl;
    assert(!sub_at(s, i, "<!"@)) by {
        if sub_at(s, i, "<!"@) {
            assert(s.subrange(i, i + 2)[1] == s[i + 1]);
            assert(s[i + 1] == name[0]);
            assert(name_char(name[0]));
        }
    }
    assert forall|kk: int| i <= kk < p1 implies s[kk] != '"' && s[kk] != '\'' && s[kk]
        != '>' by {
        if kk > i {
            assert(s[kk] == name[kk - i - 1]);
            assert(name_char(name[kk - i - 1]));
        }
    }
    lemma_find_closing_at(s, i, p1);
    assert(s[p1 - 1] != '/') by {
        assert(s[i + 1 + (nl - 1)] == name[nl - 1]);
        assert(name_char(name[nl - 1]));
    }
    assert forall|kk: int| i + 1 <= kk < p1 implies !is_ws_char(s[kk]) by {
        assert(s[kk] == name[kk - i - 1]);
        assert(name_char(name[kk - i - 1]));
    }
    lemma_find_ws_none(s, i + 1, p1);
    assert(!sub_at(s, i, "</"@)) by {
        if sub_at(s, i, "</"@) {
            assert(s.subrange(i, i + 2)[1] == s[i + 1]);
            assert(s[i + 1] == name[0]);
            assert(name_char(name[0]));
        }
    }
    assert(s.subrange(i + 1, p1) =~= name);
    assert(classify(s.subrange(i + 1, p1)) == k);
    let fresh = crate::parser::fresh_node(k, None);
    let node2 = if stack.len() > 0 {
        with_parent_s(fresh, stack.last())
    } else {
        fresh
    };
    assert(node2 =~= mk_open(k, ctx_of_stack(stack)));
    assert(!(k is Text));
    assert(parse_at(s, i, stack, roots) == parse_at(s, p1 + 1, stack.push(node2), roots));
}

/// Reading a closing tag `</name>` pops the stack's top element and
/// attaches it: to the element below, or as a new root.
#[verifier::rlimit(100)]
proof fn lemma_step_close(
    s: Seq<char>,
    p2: int,
    stack: Seq<NodeView>,
    roots: Seq<NodeView>,
    name: Seq<char>,
)
    requires
        stack.len() >= 1,
        name.len() >= 1,
        forall|j: int| 0 <= j < name.len() ==> name_char(#[trigger] name[j]),
        0 <= p2,
        p2 + 2 + name.len() < s.len(),
        s[p2] == '<',
        s[p2 + 1] == '/',
        s[p2 + 2 + name.len()] == '>',
        forall|j: int| 0 <= j < name.len() ==> s[p2 + 2 + j] == name[j],
    ensures
        stack.len() == 1 ==> parse_at(s, p2, stack, roots) == parse_at(
            s,
            p2 + 3 + name.len(),
            stack.drop_last(),
            roots.push(stack.last()),
        ),
        stack.len() > 1 ==> parse_at(s, p2, stack, roots) == parse_at(
            s,
            p2 + 3 + name.len(),
            crate::parser::push_child_to_top(stack.drop_last(), stack.last()),
            roots,
        ),
{
    reveal_strlit("<!");
    reveal_strlit("</");
    let nl = name.len() as int;
    let p3 = p2 + 2 + nl;
    assert(!sub_at(s, p2, "<!"@)) by {
        if sub_at(s, p2, "<!"@) {
            assert(s.subrange(p2, p2 + 2)[1] == s[p2 + 1]);
        }
    }
    assert forall|kk: int| p2 <= kk < p3 implies s[kk] != '"' && s[kk] != '\'' && s[kk]
        != '>' by {
        if kk >= p2 + 2 {
            assert(s[kk] == name[kk - p2 - 2]);
            assert(name_char(name[kk - p2 - 2]));
        }
    }
    lemma_find_closing_at(s, p2, p3);
    assert(s[p3 - 1] != '/') by {
        assert(s[p2 + 2 + (nl - 1)] == name[nl - 1]);
        assert(name_char(name[nl - 1]));
    }
    assert forall|kk: int| p2 + 1 <= kk < p3 implies !is_ws_char(s[kk]) by {
        if kk >= p2 + 2 {
            assert(s[kk] == name[kk - p2 - 2]);
            assert(name_char(name[kk - p2 - 2]));
        } else {
            assert(s[kk] == '/');
        }
    }
    lemma_find_ws_none(s, p2 + 1, p3);
    assert(sub_at(s, p2, "</"@)) by {
        assert(s.subrange(p2, p2 + 2) =~= "</"@);
    }
}

/// Reading a text run up to the next `<` attaches a `Text` leaf.
#[verifier::rlimit(100)]
proof fn lemma_step_text(
    s: Seq<char>,
    i: int,
    e: int,
    stack: Seq<NodeView>,
    roots: Seq<NodeView>,
)
    requires
        0 <= i < e <= s.len(),
        forall|kk: int| i <= kk < e ==> s[kk] != '<',
        exists|kk: int| i <= kk < e && !is_ws_char(s[kk]),
        e == s.len() || s[e] == '<',
    ensures
        stack.len() > 0 ==> parse_at(s, i, stack, roots) == parse_at(
            s,
            e,
            crate::parser::push_child_to_top(
                stack,
                with_parent_s(
                    crate::parser::fresh_text_node(NodeTypeView::Text, s.subrange(i, e)),
                    stack.last(),
                ),
            ),
            roots,
        ),
        stack.len() == 0 ==> parse_at(s, i, stack, roots) == parse_at(
            s,
            e,
            stack,
            roots.push(crate::parser::fresh_text_node(NodeTypeView::Text, s.subrange(i, e))),
        ),
{
    reveal_strlit("<!");
    assert(s[i] != '<');
    assert(!sub_at(s, i, "<!"@)) by {
        if sub_at(s, i, "<!"@) {
            assert(s.subrange(i, i + 2)[0] == s[i]);
        }
    }
    lemma_find_char_at(s, i, '<', e);
    let kw = choose|kk: int| i <= kk < e && !is_ws_char(s[kk]);
    assert(!crate::chars::all_ws_in(s, i, e));
}

/// The serialized element, located inside `s` position by position; `nl`
/// and `bl` name the lengths of the tag name and of the serialized
/// children.
#[verifier::rlimit(100)]
#[verifier::spinoff_prover]
proof fn lemma_ser_elem_at_open(s: Seq<char>, i: int, n: NodeView, nl: int, bl: int)
    requires
        wf_node(n),
        !wf_text(n),
        0 <= i,
        i + ser_node(n).len() <= s.len(),
        s.subrange(i, i + ser_node(n).len()) == ser_node(n),
        nl == tag_text(n.tag_name->0).len(),
        bl == ser_children(n.children, 0).len(),
    ensures
        ser_node(n).len() == 5 + 2 * nl + bl,
        s[i] == '<',
        forall|j: int| 0 <= j < nl ==> s[i + 1 + j] == tag_text(n.tag_name->0)[j],
        s[i + 1 + nl] == '>',
{
    lemma_ser_elem_chars(n);
    let ser = ser_node(n);
    let sl = ser.len() as int;
    let name = tag_text(n.tag_name->0);
    assert(s[i] == '<') by {
        assert(s.subrange(i, i + sl)[0] == s[i + 0]);
    }
    assert forall|j: int| 0 <= j < nl implies s[i + 1 + j] == name[j] by {
        assert(s.subrange(i, i + sl)[1 + j] == s[i + (1 + j)]);
        assert(ser[1 + j] == name[j]);
    }
    assert(s[i + 1 + nl] == '>') by {
        assert(s.subrange(i, i + sl)[1 + nl] == s[i + (1 + nl)]);
        assert(ser[1 + nl] == '>');
    }
}

#[verifier::rlimit(100)]
#[verifier::spinoff_prover]
proof fn lemma_ser_elem_at_body(s: Seq<char>, i: int, n: NodeView, nl: int, bl: int)
    requires
        wf_node(n),
        !wf_text(n),
        0 <= i,
        i + ser_node(n).len() <= s.len(),
        s.subrange(i, i + ser_node(n).len()) == ser_node(n),
        nl == tag_text(n.tag_name->0).len(),
        bl == ser_children(n.children, 0).len(),
    ensures
        s.subrange(i + 2 + nl, i + 2 + nl + bl) == ser_children(n.children, 0),
{
    lemma_ser_elem_chars(n);
    let ser = ser_node(n);
    let sl = ser.len() as int;
    let body = ser_children(n.children, 0);
    assert(s.subrange(i + 2 + nl, i + 2 + nl + bl) =~= body) by {
        assert forall|j: int| 0 <= j < bl implies s.subrange(i + 2 + nl, i + 2 + nl + bl)[j]
            == body[j] by {
            assert(s.subrange(i, i + sl)[2 + nl + j] == s[i + (2 + nl + j)]);
            assert(s.subrange(i + 2 + nl, i + 2 + nl + bl)[j] == s[i + 2 + nl + j]);
            assert(ser.subrange(2 + nl, 2 + nl + bl)[j] == ser[2 + nl + j]);
        }
    }
}

#[verifier::rlimit(100)]
#[verifier::spinoff_prover]
proof fn lemma_ser_elem_at_close(s: Seq<char>, i: int, n: NodeView, nl: int, bl: int)
    requires
        wf_node(n),
        !wf_text(n),
        0 <= i,
        i + ser_node(n).len() <= s.len(),
        s.subrange(i, i + ser_node(n).len()) == ser_node(n),
        nl == tag_text(n.tag_name->0).len(),
        bl == ser_children(n.children, 0).len(),
    ensures
        s[i + 2 + nl + bl] == '<',
        s[i + 3 + nl + bl] == '/',
        forall|j: int| 0 <= j < nl ==> s[i + 4 + nl + bl + j] == tag_text(n.tag_name->0)[j],
        s[i + 4 + 2 * nl + bl] == '>',
{
    lemma_ser_elem_chars(n);
    let ser = ser_node(n);
    let sl = ser.len() as int;
    let name = tag_text(n.tag_name->0);
    assert(s[i + 2 + nl + bl] == '<') by {
        assert(s.subrange(i, i + sl)[2 + nl + bl] == s[i + (2 + nl + bl)]);
    }
    assert(s[i + 3 + nl + bl] == '/') by {
        assert(s.subrange(i, i + sl)[3 + nl + bl] == s[i + (3 + nl + bl)]);
    }
    assert forall|j: int| 0 <= j < nl implies s[i + 4 + nl + bl + j] == name[j] by {
        assert(s.subrange(i, i + sl)[4 + nl + bl + j] == s[i + (4 + nl + bl + j)]);
    }
    assert(s[i + 4 + 2 * nl + bl] == '>') by {
        assert(s.subrange(i, i + sl)[4 + 2 * nl + bl] == s[i + (4 + 2 * nl + bl)]);
    }
}

/// Consuming one serialized well-formed element: opening tag, children,
/// closing tag.
#[verifier::rlimit(100)]
proof fn lemma_machine_elem(
    s: Seq<char>,
    i: int,
    stack: Seq<NodeView>,
    roots: Seq<NodeView>,
    n: NodeView,
)
    requires
        wf_node(n),
        !wf_text(n),
        0 <= i,
        i + ser_node(n).len() <= s.len(),
        s.subrange(i, i + ser_node(n).len()) == ser_node(n),
    ensures
        stack.len() > 0 ==> parse_at(s, i, stack, roots) == parse_at(
            s,
            i + ser_node(n).len(),
            crate::parser::push_child_to_top(stack, re_node(n, ctx_of_stack(stack))),
            roots,
        ),
        stack.len() == 0 ==> parse_at(s, i, stack, roots) == parse_at(
            s,
            i + ser_node(n).len(),
            stack,
            roots.push(re_node(n, None)),
        ),
    decreases n, 0int, 0int,
{
    let k = n.tag_name->0;
    let name = tag_text(k);
    let nl = name.len() as int;
    let body = ser_children(n.children, 0);
    let bl = body.len() as int;
    let sl = ser_node(n).len() as int;
    lemma_ser_elem_at_open(s, i, n, nl, bl);
    lemma_ser_elem_at_body(s, i, n, nl, bl);
    lemma_ser_elem_at_close(s, i, n, nl, bl);
    let p1 = i + 1 + nl;
    let p2 = i + 2 + nl + bl;
    let p3 = i + 4 + 2 * nl + bl;
    // opening tag
    lemma_step_open(s, i, stack, roots, k);
    let w = ctx_of_stack(stack);
    let node2 = mk_open(k, w);
    let stack2 = stack.push(node2);
    // children
    assert(child_ctx(node2) == next_ctx(k, w));
    lemma_machine_children(s, p1 + 1, stack2, roots, n.children, 0);
    let kids = re_children(n.children, next_ctx(k, w), 0);
    let stack3 = extend_top(stack2, kids);
    let node3 = re_node(n, w);
    assert(stack3 =~= stack.push(node3)) by {
        assert(Seq::<NodeView>::empty() + kids =~= kids);
    }
    // closing tag
    lemma_step_close(s, p2, stack.push(node3), roots, name);
    assert(stack.push(node3).drop_last() =~= stack);
    assert(stack.push(node3).last() == node3);
    assert(p3 + 1 == i + sl);
}

/// Consuming one serialized well-formed node: the machine advances past
/// its text and attaches the read-back tree, to the top of the stack or
/// as a new root.
#[verifier::rlimit(100)]
proof fn lemma_machine_node(
    s: Seq<char>,
    i: int,
    stack: Seq<NodeView>,
    roots: Seq<NodeView>,
    n: NodeView,
)
    requires
        wf_node(n),
        0 <= i,
        i + ser_node(n).len() <= s.len(),
        s.subrange(i, i + ser_node(n).len()) == ser_node(n),
        wf_text(n) ==> (i + ser_node(n).len() == s.len() || s[i + ser_node(n).len()] == '<'),
    ensures
        stack.len() > 0 ==> parse_at(s, i, stack, roots) == parse_at(
            s,
            i + ser_node(n).len(),
            crate::parser::push_child_to_top(stack, re_node(n, ctx_of_stack(stack))),
            roots,
        ),
        stack.len() == 0 ==> parse_at(s, i, stack, roots) == parse_at(
            s,
            i + ser_node(n).len(),
            stack,
            roots.push(re_node(n, None)),
        ),
    decreases n, 1int, 0int,
{
    let ser = ser_node(n);
    let sl = ser.len() as int;
    if wf_text(n) {
        let t = n.value->0;
        assert(ser == t) by {
            reveal(ser_node);
        }
        assert forall|j: int| 0 <= j < sl implies s[i + j] == ser[j] by {
            assert(s.subrange(i, i + sl)[j] == s[i + j]);
        }
        assert forall|kk: int| i <= kk < i + sl implies s[kk] != '<' by {
            assert(s[kk] == t[kk - i]);
        }
        let jw = choose|j: int| 0 <= j < t.len() && !is_ws_char(t[j]);
        assert(s[i + jw] == t[jw]);
        lemma_step_text(s, i, i + sl, stack, roots);
        assert(s.subrange(i, i + sl) == t);
        let tnode = crate::parser::fresh_text_node(NodeTypeView::Text, s.subrange(i, i + sl));
        if stack.len() > 0 {
            assert(with_parent_s(tnode, stack.last()) =~= re_node(n, ctx_of_stack(stack)));
        } else {
            assert(tnode =~= re_node(n, None));
        }
    } else {
        lemma_machine_elem(s, i, stack, roots, n);
    }
}

/// Consuming the serialized children in order: the machine advances past
/// all of them, extending the children of the stack's top element by the
/// read-back children.
#[verifier::rlimit(100)]
proof fn lemma_machine_children(
    s: Seq<char>,
    i: int,
    stack: Seq<NodeView>,
    roots: Seq<NodeView>,
    cs: Seq<NodeView>,
    from: int,
)
    requires
        0 <= from <= cs.len(),
        wf_children(cs, from),
        stack.len() > 0,
        0 <= i,
        i + ser_children(cs, from).len() <= s.len(),
        s.subrange(i, i + ser_children(cs, from).len()) == ser_children(cs, from),
        i + ser_children(cs, from).len() == s.len() || s[i + ser_children(cs, from).len()]
            == '<',
    ensures
        parse_at(s, i, stack, roots) == parse_at(
            s,
            i + ser_children(cs, from).len(),
            extend_top(stack, re_children(cs, child_ctx(stack.last()), from)),
            roots,
        ),
    decreases cs, 1int, cs.len() - from,
{
    let w = child_ctx(stack.last());
    let len = ser_children(cs, from).len() as int;
    reveal(ser_children);
    if from >= cs.len() {
        assert(re_children(cs, w, from) =~= Seq::<NodeView>::empty());
        assert(extend_top(stack, Seq::<NodeView>::empty()) =~= stack) by {
            assert(stack.last().children + Seq::<NodeView>::empty() =~= stack.last().children);
            assert((NodeView {
                children: stack.last().children + Seq::<NodeView>::empty(),
                ..stack.last()
            }) =~= stack.last());
        }
    } else {
        let child = cs[from];
        let cl = ser_node(child).len() as int;
        let rest = ser_children(cs, from + 1);
        let rl = rest.len() as int;
        assert(ser_children(cs, from) == ser_node(child) + rest) by {
            reveal(ser_node);
            reveal(ser_children);
        }
        assert(len == cl + rl);
        assert forall|j: int| 0 <= j < len implies s[i + j] == ser_children(cs, from)[j] by {
            assert(s.subrange(i, i + len)[j] == s[i + j]);
        }
        assert(s.subrange(i, i + cl) =~= ser_node(child)) by {
            assert forall|j: int| 0 <= j < cl implies s[i + j] == ser_node(child)[j] by {
                assert(s[i + j] == ser_children(cs, from)[j]);
            }
        }
        assert(s.subrange(i + cl, i + cl + rl) =~= rest) by {
            assert forall|j: int| 0 <= j < rl implies s[i + cl + j] == rest[j] by {
                assert(s[i + (cl + j)] == ser_children(cs, from)[cl + j]);
            }
        }
        if wf_text(child) && from + 1 < cs.len() {
            let next = cs[from + 1];
            assert(wf_children(cs, from + 1));
            assert(wf_node(next));
            assert(next.tag_name != Some(NodeTypeView::Text));
            assert(!wf_text(next));
            lemma_ser_elem_chars(next);
            assert(rest[0] == ser_node(next)[0]) by {
                assert(rest == ser_node(next) + ser_children(cs, from + 2)) by {
                    reveal(ser_node);
                    reveal(ser_children);
                }
            }
            assert(rest.len() > 0) by {
                assert(rest == ser_node(next) + ser_children(cs, from + 2)) by {
                    reveal(ser_node);
                    reveal(ser_children);
                }
                assert(ser_node(next).len() > 0);
            }
            assert(s[i + cl] == '<') by {
                assert(s.subrange(i + cl, i + cl + rl)[0] == s[i + cl]);
                assert(ser_node(next)[0] == '<');
            }
        }
        lemma_machine_node(s, i, stack, roots, child);
        let rechild = re_node(child, w);
        assert(ctx_of_stack(stack) == w);
        let stack2 = crate::parser::push_child_to_top(stack, rechild);
        assert(parse_at(s, i, stack, roots) == parse_at(s, i + cl, stack2, roots));
        assert(stack2.len() == stack.len());
        assert(stack2.last().tag_name == stack.last().tag_name);
        assert(stack2.last().within_special_tag == stack.last().within_special_tag);
        assert(child_ctx(stack2.last()) == w);
        lemma_machine_children(s, i + cl, stack2, roots, cs, from + 1);
        assert(parse_at(s, i + cl, stack2, roots) == parse_at(
            s,
            i + len,
            extend_top(stack2, re_children(cs, w, from + 1)),
            roots,
        ));
        assert(extend_top(stack2, re_children(cs, w, from + 1)) =~= extend_top(
            stack,
            re_children(cs, w, from),
        )) by {
            assert(re_children(cs, w, from) == seq![rechild] + re_children(cs, w, from + 1));
            assert(stack2.last().children =~= stack.last().children.push(rechild));
            assert(stack.last().children.push(rechild) + re_children(cs, w, from + 1)
                =~= stack.last().children + (seq![rechild] + re_children(cs, w, from + 1)));
        }
    }
}

/// No character of `s` is a newline.
pub open spec fn no_newline(s: Seq<char>) -> bool {
    forall|j: int| 0 <= j < s.len() ==> s[j] != '\n'
}

/// Concatenation preserves the absence of newlines.
proof fn lemma_no_newline_concat(a: Seq<char>, b: Seq<char>)
    requires
        no_newline(a),
        no_newline(b),
    ensures
        no_newline(a + b),
{
    assert forall|j: int| 0 <= j < (a + b).len() implies (a + b)[j] != '\n' by {
        if j < a.len() {
            assert((a + b)[j] == a[j]);
        } else {
            assert((a + b)[j] == b[j - a.len()]);
        }
    }
}

/// A serialized well-formed node holds no newline.
proof fn lemma_ser_no_newline(n: NodeView)
    requires
        wf_node(n),
    ensures
        no_newline(ser_node(n)),
    decreases n, 0int, 0int,
{
    reveal(ser_node);
    reveal_strlit("<");
    reveal_strlit(">");
    reveal_strlit("</");
    if wf_text(n) {
        assert(no_newline(n.value->0));
    } else {
        let k = n.tag_name->0;
        let name = tag_text(k);
        assert(no_newline(name)) by {
            assert forall|j: int| 0 <= j < name.len() implies name[j] != '\n' by {
                assert(name_char(name[j]));
            }
        }
        lemma_ser_children_no_newline(n.children, 0);
        lemma_no_newline_concat("<"@, name);
        lemma_no_newline_concat("<"@ + name, ">"@);
        lemma_no_newline_concat("<"@ + name + ">"@, ser_children(n.children, 0));
        lemma_no_newline_concat("<"@ + name + ">"@ + ser_children(n.children, 0), "</"@);
        lemma_no_newline_concat(
            "<"@ + name + ">"@ + ser_children(n.children, 0) + "</"@,
            name,
        );
        lemma_no_newline_concat(
            "<"@ + name + ">"@ + ser_children(n.children, 0) + "</"@ + name,
            ">"@,
        );
    }
}

/// Serialized well-formed children hold no newline.
proof fn lemma_ser_children_no_newline(cs: Seq<NodeView>, from: int)
    requires
        0 <= from <= cs.len(),
        wf_children(cs, from),
    ensures
        no_newline(ser_children(cs, from)),
    decreases cs, 1int, cs.len() - from,
{
    reveal(ser_node);
    reveal(ser_children);
    if from < cs.len() {
        lemma_ser_no_newline(cs[from]);
        lemma_ser_children_no_newline(cs, from + 1);
        lemma_no_newline_concat(ser_node(cs[from]), ser_children(cs, from + 1));
        assert(ser_children(cs, from) == ser_node(cs[from]) + ser_children(cs, from + 1));
    } else {
        assert(ser_children(cs, from) =~= Seq::<char>::empty());
    }
}

/// Removing newlines from newline-free text changes nothing.
proof fn lemma_strip_newlines_id(s: Seq<char>)
    requires
        no_newline(s),
    ensures
        crate::chars::strip_newlines(s) == s,
    decreases s.len(),
{
    if s.len() > 0 {
        assert(no_newline(s.drop_last())) by {
            assert(forall|j: int|
                0 <= j < s.len() - 1 ==> #[trigger] s.drop_last()[j] == s[j]);
        }
        lemma_strip_newlines_id(s.drop_last());
        assert(crate::chars::strip_newlines(s) =~= s);
    }
}

/// Idempotence of a whitespace-insensitive re-parse: writing a
/// well-formed tree back out as HTML and parsing it again succeeds and
/// yields an equivalent tree — the same kinds, text and attributes, with
/// only the derived ancestor context recomputed from the tree's shape.
pub proof fn lemma_reparse_round_trip(n: NodeView)
    requires
        wf_node(n),
    ensures
        spec_parse(ser_node(n)) is Ok,
        similar(spec_parse(ser_node(n))->Ok_0, n),
{
    let s = ser_node(n);
    lemma_ser_no_newline(n);
    lemma_strip_newlines_id(s);
    assert(s.subrange(0, s.len() as int) =~= s);
    lemma_machine_node(s, 0, Seq::empty(), Seq::empty(), n);
    let re = re_node(n, None);
    let roots1 = Seq::<NodeView>::empty().push(re);
    assert(parse_at(s, 0, Seq::empty(), Seq::empty()) == parse_at(
        s,
        s.len() as int,
        Seq::empty(),
        roots1,
    ));
    assert((roots1 + Seq::<NodeView>::empty()).len() == 1);
    assert((roots1 + Seq::<NodeView>::empty())[0] == re);
    assert(parse_at(s, s.len() as int, Seq::empty(), roots1) == Ok::<
        NodeView,
        ParseErrorView,
    >(re));
    lemma_re_similar(n, None);
}


/// Consuming the serialized top-level nodes with an empty stack: each
/// becomes a further root.
#[verifier::rlimit(100)]
proof fn lemma_machine_roots(
    s: Seq<char>,
    i: int,
    roots: Seq<NodeView>,
    cs: Seq<NodeView>,
    from: int,
)
    requires
        0 <= from <= cs.len(),
        wf_children(cs, from),
        0 <= i,
        i + ser_children(cs, from).len() <= s.len(),
        s.subrange(i, i + ser_children(cs, from).len()) == ser_children(cs, from),
        i + ser_children(cs, from).len() == s.len(),
    ensures
        parse_at(s, i, Seq::empty(), roots) == parse_at(
            s,
            i + ser_children(cs, from).len(),
            Seq::empty(),
            roots + re_children(cs, None, from),
        ),
    decreases cs.len() - from,
{
    let len = ser_children(cs, from).len() as int;
    reveal(ser_children);
    if from >= cs.len() {
        assert(re_children(cs, None, from) =~= Seq::<NodeView>::empty());
        assert(roots + Seq::<NodeView>::empty() =~= roots);
    } else {
        let child = cs[from];
        let cl = ser_node(child).len() as int;
        let rest = ser_children(cs, from + 1);
        let rl = rest.len() as int;
        assert(ser_children(cs, from) == ser_node(child) + rest) by {
            reveal(ser_node);
            reveal(ser_children);
        }
        assert forall|j: int| 0 <= j < len implies s[i + j] == ser_children(cs, from)[j] by {
            assert(s.subrange(i, i + len)[j] == s[i + j]);
        }
        assert(s.subrange(i, i + cl) =~= ser_node(child)) by {
            assert forall|j: int| 0 <= j < cl implies s[i + j] == ser_node(child)[j] by {
                assert(s[i + j] == ser_children(cs, from)[j]);
            }
        }
        assert(s.subrange(i + cl, i + cl + rl) =~= rest) by {
            assert forall|j: int| 0 <= j < rl implies s[i + cl + j] == rest[j] by {
                assert(s[i + (cl + j)] == ser_children(cs, from)[cl + j]);
            }
        }
        if wf_text(child) && from + 1 < cs.len() {
            let next = cs[from + 1];
            assert(wf_children(cs, from + 1));
            assert(wf_node(next));
            assert(next.tag_name != Some(NodeTypeView::Text));
            assert(!wf_text(next));
            lemma_ser_elem_chars(next);
            assert(rest[0] == ser_node(next)[0]) by {
                assert(rest == ser_node(next) + ser_children(cs, from + 2)) by {
                    reveal(ser_node);
                    reveal(ser_children);
                }
            }
            assert(rest.len() > 0) by {
                assert(rest == ser_node(next) + ser_children(cs, from + 2)) by {
                    reveal(ser_node);
                    reveal(ser_children);
                }
                assert(ser_node(next).len() > 0);
            }
            assert(s[i + cl] == '<') by {
                assert(s.subrange(i + cl, i + cl + rl)[0] == s[i + cl]);
                assert(ser_node(next)[0] == '<');
            }
        }
        lemma_machine_node(s, i, Seq::empty(), roots, child);
        let rechild = re_node(child, None);
        lemma_machine_roots(s, i + cl, roots.push(rechild), cs, from + 1);
        assert(roots.push(rechild) + re_children(cs, None, from + 1) =~= roots + re_children(
            cs,
            None,
            from,
        )) by {
            assert(re_children(cs, None, from) == seq![rechild] + re_children(cs, None, from + 1));
        }
    }
}

/// Idempotence of the re-parse for a forest: writing a synthetic root
/// with several (or zero) well-formed top-level children back out and
/// parsing it again yields an equivalent wrapped forest. A single child
/// is excluded: the parser returns it unwrapped, as the single-root
/// collapse states.
pub proof fn lemma_reparse_round_trip_forest(n: NodeView)
    requires
        n.tag_name is None,
        n.value is None,
        n.attributes is None,
        wf_children(n.children, 0),
        n.children.len() != 1,
    ensures
        spec_parse(ser_node(n)) is Ok,
        similar(spec_parse(ser_node(n))->Ok_0, n),
{
    let s = ser_node(n);
    assert(s == ser_children(n.children, 0)) by {
        reveal(ser_node);
    }
    lemma_ser_children_no_newline(n.children, 0);
    lemma_strip_newlines_id(s);
    assert(s.subrange(0, s.len() as int) =~= s);
    lemma_machine_roots(s, 0, Seq::empty(), n.children, 0);
    let res = re_children(n.children, None, 0);
    assert(Seq::<NodeView>::empty() + res =~= res);
    lemma_re_children_len(n.children, None, 0);
    assert(res.len() == n.children.len());
    assert(parse_at(s, 0, Seq::empty(), Seq::empty()) == parse_at(
        s,
        s.len() as int,
        Seq::empty(),
        res,
    ));
    assert(res + Seq::<NodeView>::empty() =~= res);
    let wrapped = NodeView {
        tag_name: None,
        value: None,
        attributes: None,
        within_special_tag: None,
        children: res,
    };
    assert(parse_at(s, s.len() as int, Seq::empty(), res) == Ok::<NodeView, ParseErrorView>(
        wrapped,
    ));
    lemma_re_similar_children(n.children, None, 0);
    lemma_similar_children_shift(res, n.children, None);
}

} // verus!
