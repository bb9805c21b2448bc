//! The HTML parser: a single left-to-right pass over the input with a LIFO
//! stack of open elements. The whole pass is pinned down by the
//! specification machine [`parse_at`]; [`safe_parse_html`] returns exactly
//! what the machine states, both for finished trees and for errors.

use crate::chars::{
    all_ws_in, append_chars, byte_pos, dec_str, end_non_ws, find_char_from, find_sub_from,
    first_non_ws, is_ws_char, push_dec_u128, string_from_range, sub_at, wrap32,
};
use crate::structs::{
    classify, kinds_view, node_view, nodes_view, with_parent_s, AttributeValueView,
    AttributeValues, Attributes, AttributesView, Node, NodeType, NodeTypeView, NodeView,
};
use vstd::prelude::*;

verus! {

broadcast use crate::structs::lemma_nodes_view_len, crate::structs::lemma_nodes_view_index, crate::structs::lemma_nodes_view_push;

// ---------------------------------------------------------------------------
// Errors
// ---------------------------------------------------------------------------

/// What is malformed about a tag; the payload is the offset into the input
/// where the failing tag begins.
#[derive(Debug, PartialEq, Eq)]
pub enum MalformedTagError {
    /// The closing bracket of the tag is missing.
    MissingClosingBracket(u32),
    /// The tag name is missing.
    MissingTagName(u32),
}

/// What is malformed about an attribute; the payload is the offset into the
/// input where the enclosing tag begins.
#[derive(Debug, PartialEq, Eq)]
pub enum MalformedAttributeError {
    /// A quotation mark is left unclosed.
    MissingQuotationMark(u32),
    /// An attribute name is missing.
    MissingAttributeName(u32),
    /// An attribute value is missing.
    MissingAttributeValue(u32),
}

/// Why a parse failed, with the raw text of the offending fragment.
#[derive(Debug, PartialEq, Eq)]
pub enum ParseHTMLError {
    /// The tag is malformed.
    MalformedTag(String, MalformedTagError),
    /// The attribute is malformed.
    MalformedAttribute(String, MalformedAttributeError),
}

/// Ghost mirror of [`ParseHTMLError`].
#[verifier::ext_equal]
pub ghost enum ParseErrorView {
    MalformedTag(Seq<char>, MalformedTagError),
    MalformedAttribute(Seq<char>, MalformedAttributeError),
}

impl View for ParseHTMLError {
    type V = ParseErrorView;

    open spec fn view(&self) -> ParseErrorView {
        match self {
            ParseHTMLError::MalformedTag(raw, e) => ParseErrorView::MalformedTag(raw@, *e),
            ParseHTMLError::MalformedAttribute(raw, e) => ParseErrorView::MalformedAttribute(
                raw@,
                *e,
            ),
        }
    }
}

/// The diagnostic line for an error, in the reference format
/// `"Malformed tag: {fragment} - {reason} at around index {offset}"`.
pub open spec fn error_message(e: ParseErrorView) -> Seq<char> {
    match e {
        ParseErrorView::MalformedTag(tag, MalformedTagError::MissingClosingBracket(i)) =>
            "Malformed tag: "@ + tag + " - Missing closing bracket at around index "@ + dec_str(
                i as int,
            ),
        ParseErrorView::MalformedTag(tag, MalformedTagError::MissingTagName(i)) =>
            "Malformed tag: "@ + tag + " - Missing tag name at around index "@ + dec_str(i as int),
        ParseErrorView::MalformedAttribute(
            attr,
            MalformedAttributeError::MissingQuotationMark(i),
        ) => "Malformed attribute: "@ + attr + " - Missing quotation mark at around index "@
            + dec_str(i as int),
        ParseErrorView::MalformedAttribute(
            attr,
            MalformedAttributeError::MissingAttributeName(i),
        ) => "Malformed attribute: "@ + attr + " - Missing attribute name at around index "@
            + dec_str(i as int),
        ParseErrorView::MalformedAttribute(
            attr,
            MalformedAttributeError::MissingAttributeValue(i),
        ) => "Malformed attribute: "@ + attr + " - Missing attribute value at around index "@
            + dec_str(i as int),
    }
}

impl ParseHTMLError {
    /// Renders the diagnostic line that [`error_message`] states.
    pub fn message(&self) -> (r: String)
        ensures
            r@ == error_message(self@),
    {
        let mut s: String = String::new();
        match self {
            ParseHTMLError::MalformedTag(tag, e) => {
                s.append("Malformed tag: ");
                s.append(tag.as_str());
                match e {
                    MalformedTagError::MissingClosingBracket(i) => {
                        s.append(" - Missing closing bracket at around index ");
                        let mut digits: Vec<char> = Vec::new();
                        push_dec_u128(&mut digits, *i as u128);
                        append_chars(&mut s, &digits);
                    },
                    MalformedTagError::MissingTagName(i) => {
                        s.append(" - Missing tag name at around index ");
                        let mut digits: Vec<char> = Vec::new();
                        push_dec_u128(&mut digits, *i as u128);
                        append_chars(&mut s, &digits);
                    },
                }
            },
            ParseHTMLError::MalformedAttribute(attr, e) => {
                s.append("Malformed attribute: ");
                s.append(attr.as_str());
                match e {
                    MalformedAttributeError::MissingQuotationMark(i) => {
                        s.append(" - Missing quotation mark at around index ");
                        let mut digits: Vec<char> = Vec::new();
                        push_dec_u128(&mut digits, *i as u128);
                        append_chars(&mut s, &digits);
                    },
                    MalformedAttributeError::MissingAttributeName(i) => {
                        s.append(" - Missing attribute name at around index ");
                        let mut digits: Vec<char> = Vec::new();
                        push_dec_u128(&mut digits, *i as u128);
                        append_chars(&mut s, &digits);
                    },
                    MalformedAttributeError::MissingAttributeValue(i) => {
                        s.append(" - Missing attribute value at around index ");
                        let mut digits: Vec<char> = Vec::new();
                        push_dec_u128(&mut digits, *i as u128);
                        append_chars(&mut s, &digits);
                    },
                }
            },
        }
        s
    }
}

// ---------------------------------------------------------------------------
// Search lemmas
// ---------------------------------------------------------------------------

/// Characterises [`find_char_from`]: the result is the first occurrence.
pub proof fn lemma_find_char_from(s: Seq<char>, from: int, c: char)
    requires
        0 <= from,
    ensures
        match find_char_from(s, from, c) {
            Some(j) => from <= j < s.len() && s[j] == c && forall|k: int|
                from <= k < j ==> s[k] != c,
            None => forall|k: int| from <= k < s.len() ==> s[k] != c,
        },
    decreases s.len() - from,
{
    if from < s.len() && s[from] != c {
        lemma_find_char_from(s, from + 1, c);
    }
}

/// Characterises [`find_sub_from`]: the result is the first occurrence.
pub proof fn lemma_find_sub_from(s: Seq<char>, from: int, p: Seq<char>)
    requires
        0 <= from,
        p.len() > 0,
    ensures
        match find_sub_from(s, from, p) {
            Some(j) => from <= j && j + p.len() <= s.len() && sub_at(s, j, p) && forall|k: int|
                from <= k < j ==> !sub_at(s, k, p),
            None => forall|k: int| from <= k ==> !sub_at(s, k, p),
        },
    decreases s.len() - from,
{
    if from + p.len() > s.len() {
        assert forall|k: int| from <= k implies !sub_at(s, k, p) by {}
    } else if !sub_at(s, from, p) {
        lemma_find_sub_from(s, from + 1, p);
    }
}

/// Locating the end of a tag: the first `>` outside quoted attribute
/// values. A quote character matching the top of the quote stack pops it,
/// any other quote character is pushed.
pub open spec fn find_closing_from(s: Seq<char>, from: int, quotes: Seq<char>) -> Option<int>
    decreases s.len() - from,
{
    if from < 0 || from >= s.len() {
        None
    } else {
        let c = s[from];
        let q2 = if c == '"' || c == '\'' {
            if quotes.len() > 0 && quotes.last() == c {
                quotes.drop_last()
            } else {
                quotes.push(c)
            }
        } else {
            quotes
        };
        if c == '>' && q2.len() == 0 {
            Some(from)
        } else {
            find_closing_from(s, from + 1, q2)
        }
    }
}

/// Bounds for [`find_closing_from`].
pub proof fn lemma_find_closing_from(s: Seq<char>, from: int, quotes: Seq<char>)
    requires
        0 <= from,
    ensures
        match find_closing_from(s, from, quotes) {
            Some(j) => from <= j < s.len() && s[j] == '>',
            None => true,
        },
    decreases s.len() - from,
{
    if from < s.len() {
        let c = s[from];
        let q2 = if c == '"' || c == '\'' {
            if quotes.len() > 0 && quotes.last() == c {
                quotes.drop_last()
            } else {
                quotes.push(c)
            }
        } else {
            quotes
        };
        if !(c == '>' && q2.len() == 0) {
            lemma_find_closing_from(s, from + 1, q2);
        }
    }
}

/// First whitespace character in `[from, to)`, if any.
pub open spec fn find_ws_in(s: Seq<char>, from: int, to: int) -> Option<int>
    decreases to - from,
{
    if from < 0 || from >= to || from >= s.len() {
        None
    } else if is_ws_char(s[from]) {
        Some(from)
    } else {
        find_ws_in(s, from + 1, to)
    }
}

/// Characterises [`find_ws_in`].
pub proof fn lemma_find_ws_in(s: Seq<char>, from: int, to: int)
    requires
        0 <= from,
        to <= s.len(),
    ensures
        match find_ws_in(s, from, to) {
            Some(j) => from <= j < to && is_ws_char(s[j]) && forall|k: int|
                from <= k < j ==> !is_ws_char(s[k]),
            None => forall|k: int| from <= k < to ==> !is_ws_char(s[k]),
        },
    decreases to - from,
{
    if from < to && from < s.len() && !is_ws_char(s[from]) {
        lemma_find_ws_in(s, from + 1, to);
    }
}

// ---------------------------------------------------------------------------
// Stripping comment delimiters
// ---------------------------------------------------------------------------

/// Removes every leading repetition of `p` from `s`.
pub open spec fn strip_start_all(s: Seq<char>, p: Seq<char>) -> Seq<char>
    decreases s.len(),
{
    if p.len() > 0 && s.len() >= p.len() && s.subrange(0, p.len() as int) == p {
        strip_start_all(s.skip(p.len() as int), p)
    } else {
        s
    }
}

/// Removes every trailing repetition of `p` from `s`.
pub open spec fn strip_end_all(s: Seq<char>, p: Seq<char>) -> Seq<char>
    decreases s.len(),
{
    if p.len() > 0 && s.len() >= p.len() && s.subrange(s.len() - p.len(), s.len() as int) == p {
        strip_end_all(s.take(s.len() - p.len()), p)
    } else {
        s
    }
}

/// The text carried by a comment node: the raw span with the `<!`, `--` and
/// `-->` delimiters stripped.
pub open spec fn comment_text(raw: Seq<char>) -> Seq<char> {
    strip_end_all(strip_start_all(strip_start_all(raw, "<!"@), "--"@), "-->"@)
}

// ---------------------------------------------------------------------------
// The attribute machine
// ---------------------------------------------------------------------------

/// The running state of the attribute parser: the key and value being
/// accumulated, the two mode flags, and the attributes built so far.
#[verifier::ext_equal]
pub ghost struct AttrState {
    pub key: Seq<char>,
    pub val: Seq<char>,
    pub in_quotes: bool,
    pub maybe_nq: bool,
    pub attrs: AttributesView,
}

impl AttrState {
    /// The state the machine starts in.
    pub open spec fn init() -> AttrState {
        AttrState {
            key: Seq::empty(),
            val: Seq::empty(),
            in_quotes: false,
            maybe_nq: false,
            attrs: AttributesView::empty(),
        }
    }
}

/// Records `key = val` unless either side is empty.
pub open spec fn attr_add(
    m: AttributesView,
    key: Seq<char>,
    val: Seq<char>,
) -> AttributesView {
    if key.len() == 0 || val.len() == 0 {
        m
    } else {
        m.insert_v(key, AttributeValueView::Str(val))
    }
}

/// One step of the attribute machine on character `c`; `Err` means a
/// missing attribute name.
pub open spec fn attrs_step(st: AttrState, c: char) -> Result<AttrState, ()> {
    if st.in_quotes {
        if c == '"' {
            Ok(
                AttrState {
                    key: Seq::empty(),
                    val: Seq::empty(),
                    in_quotes: false,
                    maybe_nq: st.maybe_nq,
                    attrs: attr_add(st.attrs, st.key, st.val),
                },
            )
        } else {
            Ok(AttrState { val: st.val.push(c), ..st })
        }
    } else if c == '"' {
        if st.key.len() == 0 {
            Err(())
        } else {
            Ok(AttrState { in_quotes: true, maybe_nq: false, ..st })
        }
    } else if is_ws_char(c) {
        if st.maybe_nq {
            if st.val.len() == 0 {
                Ok(st)
            } else {
                Ok(
                    AttrState {
                        key: Seq::empty(),
                        val: Seq::empty(),
                        in_quotes: st.in_quotes,
                        maybe_nq: false,
                        attrs: attr_add(st.attrs, st.key, st.val),
                    },
                )
            }
        } else if st.key.len() > 0 {
            Ok(
                AttrState {
                    key: Seq::empty(),
                    attrs: st.attrs.insert_v(st.key, AttributeValueView::Flag(true)),
                    ..st
                },
            )
        } else {
            Ok(st)
        }
    } else if !st.maybe_nq && c == '=' {
        if st.key.len() == 0 {
            Err(())
        } else {
            Ok(AttrState { maybe_nq: true, ..st })
        }
    } else if st.maybe_nq {
        Ok(AttrState { val: st.val.push(c), ..st })
    } else {
        Ok(AttrState { key: st.key.push(c), ..st })
    }
}

/// Runs the attribute machine over `s[j..hi)`.
pub open spec fn attrs_run(s: Seq<char>, j: int, hi: int, st: AttrState) -> Result<AttrState, ()>
    decreases hi - j,
{
    if j < 0 || j >= hi || j >= s.len() {
        Ok(st)
    } else {
        match attrs_step(st, s[j]) {
            Err(e) => Err(e),
            Ok(st2) => attrs_run(s, j + 1, hi, st2),
        }
    }
}

/// What parsing the attribute text in `s[lo..hi)` yields, `toff` being the
/// offset of the enclosing tag. The text is trimmed first; empty text and a
/// run that records nothing both yield `None`. At the end of the run, a
/// pending unquoted value is recorded, and a pending key that was not
/// reading a value is recorded as presence-only.
pub open spec fn parse_attrs_s(s: Seq<char>, lo: int, hi: int, toff: int) -> Result<
    Option<AttributesView>,
    ParseErrorView,
> {
    let a = first_non_ws(s, lo, hi);
    let b = end_non_ws(s, a, hi);
    let trimmed = s.subrange(a, b);
    if a >= b {
        Ok(None)
    } else {
        match attrs_run(s, a, b, AttrState::init()) {
            Err(_) => Err(
                ParseErrorView::MalformedAttribute(
                    trimmed,
                    MalformedAttributeError::MissingAttributeName(wrap32(byte_pos(s, toff))),
                ),
            ),
            Ok(st) => {
                let st0 = if st.maybe_nq && st.val.len() > 0 {
                    AttrState { attrs: attr_add(st.attrs, st.key, st.val), ..st }
                } else {
                    st
                };
                let st1 = if !st0.in_quotes && !st0.maybe_nq && st0.key.len() > 0 {
                    AttrState {
                        key: Seq::empty(),
                        attrs: st0.attrs.insert_v(st0.key, AttributeValueView::Flag(true)),
                        ..st0
                    }
                } else {
                    st0
                };
                if st1.in_quotes {
                    Err(
                        ParseErrorView::MalformedAttribute(
                            st1.val,
                            MalformedAttributeError::MissingQuotationMark(wrap32(byte_pos(s, toff))),
                        ),
                    )
                } else if st1.attrs.is_empty_v() {
                    Ok(None)
                } else {
                    Ok(Some(st1.attrs))
                }
            },
        }
    }
}

// ---------------------------------------------------------------------------
// The document machine
// ---------------------------------------------------------------------------

/// Appends `child` to the children of the last element of `stack`.
pub open spec fn push_child_to_top(stack: Seq<NodeView>, child: NodeView) -> Seq<NodeView>
    recommends
        stack.len() > 0,
{
    let t = stack.last();
    stack.update(stack.len() - 1, NodeView { children: t.children.push(child), ..t })
}

/// A fresh element node, before any ancestor context is attached.
pub open spec fn fresh_node(
    kind: NodeTypeView,
    attrs: Option<AttributesView>,
) -> NodeView {
    NodeView {
        tag_name: Some(kind),
        value: None,
        attributes: attrs,
        within_special_tag: None,
        children: Seq::empty(),
    }
}

/// A fresh leaf carrying text: a `Text` or `Comment` node.
pub open spec fn fresh_text_node(kind: NodeTypeView, text: Seq<char>) -> NodeView {
    NodeView {
        tag_name: Some(kind),
        value: Some(text),
        attributes: None,
        within_special_tag: None,
        children: Seq::empty(),
    }
}

/// End of input: any still-open elements become further roots; a single
/// root is returned as is, several are wrapped under a kindless node.
pub open spec fn parse_finish(stack: Seq<NodeView>, roots: Seq<NodeView>) -> Result<
    NodeView,
    ParseErrorView,
> {
    let all = roots + stack;
    if all.len() == 1 {
        Ok(all[0])
    } else {
        Ok(
            NodeView {
                tag_name: None,
                value: None,
                attributes: None,
                within_special_tag: None,
                children: all,
            },
        )
    }
}

/// The document machine, scanning `s` at position `i` with the given open
/// stack and finished roots. Each branch mirrors one shape of input:
/// comments and doctype declarations, closing tags, self-closing tags,
/// opening tags, and text runs.
pub open spec fn parse_at(
    s: Seq<char>,
    i: int,
    stack: Seq<NodeView>,
    roots: Seq<NodeView>,
) -> Result<NodeView, ParseErrorView>
    decreases s.len() - i,
    when 0 <= i <= s.len()
{
    if i >= s.len() {
        parse_finish(stack, roots)
    } else if sub_at(s, i, "<!"@) {
        if sub_at(s, i, "<!DOCTYPE"@) {
            match find_char_from(s, i, '>') {
                Some(j) => {
                    proof {
                        lemma_find_char_from(s, i, '>');
                    }
                    parse_at(s, j + 1, stack, roots)
                },
                None => Err(
                    ParseErrorView::MalformedTag(
                        s.subrange(i, s.len() as int),
                        MalformedTagError::MissingClosingBracket(wrap32(byte_pos(s, i))),
                    ),
                ),
            }
        } else {
            match find_sub_from(s, i, "-->"@) {
                Some(j) => {
                    proof {
                        reveal_strlit("-->");
                        lemma_find_sub_from(s, i, "-->"@);
                    }
                    let node = fresh_text_node(
                        NodeTypeView::Comment,
                        comment_text(s.subrange(i, j + 3)),
                    );
                    if stack.len() > 0 {
                        parse_at(s, j + 3, push_child_to_top(stack, node), roots)
                    } else {
                        parse_at(s, j + 3, stack, roots.push(node))
                    }
                },
                None => Err(
                    ParseErrorView::MalformedTag(
                        s.subrange(i, s.len() as int),
                        MalformedTagError::MissingClosingBracket(wrap32(byte_pos(s, i))),
                    ),
                ),
            }
        }
    } else if s[i] == '<' {
        match find_closing_from(s, i, Seq::empty()) {
            None => Err(
                ParseErrorView::MalformedTag(
                    s.subrange(i, s.len() as int),
                    MalformedTagError::MissingClosingBracket(wrap32(byte_pos(s, i))),
                ),
            ),
            Some(cb) => {
                proof {
                    lemma_find_closing_from(s, i, Seq::empty());
                }
                let self_closing = s[cb - 1] == '/';
                let ce = if self_closing {
                    cb - 1
                } else {
                    cb
                };
                let name_end = match find_ws_in(s, i + 1, ce) {
                    Some(w) => w,
                    None => ce,
                };
                let attrs_res = match find_ws_in(s, i + 1, ce) {
                    Some(w) => parse_attrs_s(s, w, ce, i),
                    None => Ok(None),
                };
                match attrs_res {
                    Err(e) => Err(e),
                    Ok(attrs_opt) => {
                        if name_end <= i + 1 {
                            Err(
                                ParseErrorView::MalformedTag(
                                    s.subrange(i + 1, ce),
                                    MalformedTagError::MissingTagName(wrap32(byte_pos(s, i))),
                                ),
                            )
                        } else if sub_at(s, i, "</"@) {
                            if stack.len() > 0 {
                                let last = stack.last();
                                proof {
                                    lemma_find_ws_in(s, i + 1, ce);
                                }
                                if stack.len() == 1 {
                                    parse_at(s, ce + 1, stack.drop_last(), roots.push(last))
                                } else {
                                    parse_at(
                                        s,
                                        ce + 1,
                                        push_child_to_top(stack.drop_last(), last),
                                        roots,
                                    )
                                }
                            } else {
                                let raw = match find_char_from(s, i, '>') {
                                    Some(j) => s.subrange(i, j + 1),
                                    None => s.subrange(i, s.len() as int),
                                };
                                Err(
                                    ParseErrorView::MalformedTag(
                                        raw,
                                        MalformedTagError::MissingClosingBracket(wrap32(byte_pos(s, i))),
                                    ),
                                )
                            }
                        } else {
                            let node = fresh_node(
                                classify(s.subrange(i + 1, name_end)),
                                attrs_opt,
                            );
                            if self_closing {
                                proof {
                                    lemma_find_ws_in(s, i + 1, ce);
                                }
                                if stack.len() > 0 {
                                    parse_at(
                                        s,
                                        ce + 2,
                                        push_child_to_top(
                                            stack,
                                            with_parent_s(node, stack.last()),
                                        ),
                                        roots,
                                    )
                                } else {
                                    parse_at(s, ce + 2, stack, roots.push(node))
                                }
                            } else {
                                let node2 = if stack.len() > 0 {
                                    with_parent_s(node, stack.last())
                                } else {
                                    node
                                };
                                parse_at(s, cb + 1, stack.push(node2), roots)
                            }
                        }
                    },
                }
            },
        }
    } else {
        let nxt = match find_char_from(s, i, '<') {
            Some(j) => j,
            None => s.len() as int,
        };
        proof {
            lemma_find_char_from(s, i, '<');
        }
        if all_ws_in(s, i, nxt) {
            parse_at(s, nxt, stack, roots)
        } else {
            let tnode = fresh_text_node(NodeTypeView::Text, s.subrange(i, nxt));
            if stack.len() > 0 {
                parse_at(
                    s,
                    nxt,
                    push_child_to_top(stack, with_parent_s(tnode, stack.last())),
                    roots,
                )
            } else {
                parse_at(s, nxt, stack, roots.push(tnode))
            }
        }
    }
}

/// What parsing the whole input yields: newlines are removed first, then
/// the document machine runs over what is left.
pub open spec fn spec_parse(s: Seq<char>) -> Result<NodeView, ParseErrorView> {
    parse_at(crate::chars::strip_newlines(s), 0, Seq::empty(), Seq::empty())
}

/// A parse that ends with exactly one top-level element returns that
/// element directly, not wrapped under a synthetic root.
pub proof fn lemma_single_root_collapse(stack: Seq<NodeView>, roots: Seq<NodeView>)
    requires
        (roots + stack).len() == 1,
    ensures
        parse_finish(stack, roots) == Ok::<NodeView, ParseErrorView>((roots + stack)[0]),
{
}

/// A parse that ends with several top-level elements (or none) wraps them
/// all, in document order, under a node without a kind.
pub proof fn lemma_multi_root_wrap(stack: Seq<NodeView>, roots: Seq<NodeView>)
    requires
        (roots + stack).len() != 1,
    ensures
        parse_finish(stack, roots) == Ok::<NodeView, ParseErrorView>(
            NodeView {
                tag_name: None,
                value: None,
                attributes: None,
                within_special_tag: None,
                children: roots + stack,
            },
        ),
{
}

/// Every node of `ns` carries a kind.
pub open spec fn all_kinds_some(ns: Seq<NodeView>) -> bool {
    forall|i: int| 0 <= i < ns.len() ==> (#[trigger] ns[i]).tag_name is Some
}

proof fn lemma_kinds_push(ns: Seq<NodeView>, n: NodeView)
    requires
        all_kinds_some(ns),
        n.tag_name is Some,
    ensures
        all_kinds_some(ns.push(n)),
{
    assert forall|k: int| 0 <= k < ns.push(n).len() implies (#[trigger] ns.push(n)[k]).tag_name
        is Some by {
        if k < ns.len() {
            assert(ns.push(n)[k] == ns[k]);
        } else {
            assert(ns.push(n)[k] == n);
        }
    }
}

proof fn lemma_kinds_drop_last(ns: Seq<NodeView>)
    requires
        all_kinds_some(ns),
        ns.len() > 0,
    ensures
        all_kinds_some(ns.drop_last()),
{
    assert forall|k: int| 0 <= k < ns.drop_last().len() implies (#[trigger] ns.drop_last()[
        k
    ]).tag_name is Some by {
        assert(ns.drop_last()[k] == ns[k]);
    }
}

proof fn lemma_kinds_push_child(stack: Seq<NodeView>, child: NodeView)
    requires
        all_kinds_some(stack),
        stack.len() > 0,
    ensures
        all_kinds_some(push_child_to_top(stack, child)),
{
    let r = push_child_to_top(stack, child);
    assert forall|k: int| 0 <= k < r.len() implies (#[trigger] r[k]).tag_name is Some by {
        if k < stack.len() - 1 {
            assert(r[k] == stack[k]);
        } else {
            assert(stack.last().tag_name is Some);
        }
    }
}

proof fn lemma_kinds_concat(a: Seq<NodeView>, b: Seq<NodeView>)
    requires
        all_kinds_some(a),
        all_kinds_some(b),
    ensures
        all_kinds_some(a + b),
{
    assert forall|k: int| 0 <= k < (a + b).len() implies (#[trigger] (a + b)[k]).tag_name
        is Some by {
        if k < a.len() {
            assert((a + b)[k] == a[k]);
        } else {
            assert((a + b)[k] == b[k - a.len()]);
        }
    }
}

/// Along any run of the machine from a state whose nodes all carry
/// kinds, a finished tree without a kind is the synthetic wrapper: it
/// holds a number of roots other than one, each root carrying a kind,
/// and nothing else.
#[verifier::rlimit(100)]
proof fn lemma_parse_root_shape(s: Seq<char>, i: int, stack: Seq<NodeView>, roots: Seq<NodeView>)
    requires
        0 <= i <= s.len(),
        all_kinds_some(stack),
        all_kinds_some(roots),
    ensures
        match parse_at(s, i, stack, roots) {
            Ok(n) => n.tag_name is None ==> {
                &&& n.children.len() != 1
                &&& all_kinds_some(n.children)
                &&& n.value is None
                &&& n.attributes is None
                &&& n.within_special_tag is None
            },
            Err(_) => true,
        },
    decreases s.len() - i,
{
    if i >= s.len() {
        lemma_kinds_concat(roots, stack);
    } else if sub_at(s, i, "<!"@) {
        if sub_at(s, i, "<!DOCTYPE"@) {
            match find_char_from(s, i, '>') {
                Some(j) => {
                    lemma_find_char_from(s, i, '>');
                    lemma_parse_root_shape(s, j + 1, stack, roots);
                },
                None => {},
            }
        } else {
            match find_sub_from(s, i, "-->"@) {
                Some(j) => {
                    reveal_strlit("-->");
                    lemma_find_sub_from(s, i, "-->"@);
                    let node = fresh_text_node(
                        NodeTypeView::Comment,
                        comment_text(s.subrange(i, j + 3)),
                    );
                    if stack.len() > 0 {
                        lemma_kinds_push_child(stack, node);
                        lemma_parse_root_shape(s, j + 3, push_child_to_top(stack, node), roots);
                    } else {
                        lemma_kinds_push(roots, node);
                        lemma_parse_root_shape(s, j + 3, stack, roots.push(node));
                    }
                },
                None => {},
            }
        }
    } else if s[i] == '<' {
        match find_closing_from(s, i, Seq::empty()) {
            None => {},
            Some(cb) => {
                lemma_find_closing_from(s, i, Seq::empty());
                let self_closing = s[cb - 1] == '/';
                let ce = if self_closing {
                    cb - 1
                } else {
                    cb
                };
                let name_end = match find_ws_in(s, i + 1, ce) {
                    Some(w) => w,
                    None => ce,
                };
                let attrs_res = match find_ws_in(s, i + 1, ce) {
                    Some(w) => parse_attrs_s(s, w, ce, i),
                    None => Ok::<Option<AttributesView>, ParseErrorView>(None),
                };
                lemma_find_ws_in(s, i + 1, ce);
                match attrs_res {
                    Err(_) => {},
                    Ok(attrs_opt) => {
                        if name_end <= i + 1 {
                        } else if sub_at(s, i, "</"@) {
                            if stack.len() > 0 {
                                let last = stack.last();
                                assert(last.tag_name is Some);
                                lemma_kinds_drop_last(stack);
                                if stack.len() == 1 {
                                    lemma_kinds_push(roots, last);
                                    lemma_parse_root_shape(
                                        s,
                                        ce + 1,
                                        stack.drop_last(),
                                        roots.push(last),
                                    );
                                } else {
                                    lemma_kinds_push_child(stack.drop_last(), last);
                                    lemma_parse_root_shape(
                                        s,
                                        ce + 1,
                                        push_child_to_top(stack.drop_last(), last),
                                        roots,
                                    );
                                }
                            }
                        } else {
                            let node = fresh_node(
                                classify(s.subrange(i + 1, name_end)),
                                attrs_opt,
                            );
                            if self_closing {
                                if stack.len() > 0 {
                                    lemma_kinds_push_child(
                                        stack,
                                        with_parent_s(node, stack.last()),
                                    );
                                    lemma_parse_root_shape(
                                        s,
                                        ce + 2,
                                        push_child_to_top(
                                            stack,
                                            with_parent_s(node, stack.last()),
                                        ),
                                        roots,
                                    );
                                } else {
                                    lemma_kinds_push(roots, node);
                                    lemma_parse_root_shape(s, ce + 2, stack, roots.push(node));
                                }
                            } else {
                                let node2 = if stack.len() > 0 {
                                    with_parent_s(node, stack.last())
                                } else {
                                    node
                                };
                                assert(node2.tag_name is Some);
                                lemma_kinds_push(stack, node2);
                                lemma_parse_root_shape(s, cb + 1, stack.push(node2), roots);
                            }
                        }
                    },
                }
            },
        }
    } else {
        let nxt = match find_char_from(s, i, '<') {
            Some(j) => j,
            None => s.len() as int,
        };
        lemma_find_char_from(s, i, '<');
        if all_ws_in(s, i, nxt) {
            lemma_parse_root_shape(s, nxt, stack, roots);
        } else {
            let tnode = fresh_text_node(NodeTypeView::Text, s.subrange(i, nxt));
            if stack.len() > 0 {
                lemma_kinds_push_child(stack, with_parent_s(tnode, stack.last()));
                lemma_parse_root_shape(
                    s,
                    nxt,
                    push_child_to_top(stack, with_parent_s(tnode, stack.last())),
                    roots,
                );
            } else {
                lemma_kinds_push(roots, tnode);
                lemma_parse_root_shape(s, nxt, stack, roots.push(tnode));
            }
        }
    }
}

/// Single-root collapse, stated of the entry point: a successful parse
/// returns the synthetic kindless wrapper exactly when the document did
/// not produce a single top-level root. A returned node without a kind
/// wraps a number of roots other than one, each carrying a kind; a
/// returned node with a kind is itself the single root.
pub proof fn lemma_parse_single_root(s: Seq<char>)
    ensures
        spec_parse(s) matches Ok(n) ==> (n.tag_name is None ==> n.children.len() != 1
            && all_kinds_some(n.children)),
{
    lemma_parse_root_shape(
        crate::chars::strip_newlines(s),
        0,
        Seq::empty(),
        Seq::empty(),
    );
}

/// The view of a parse result.
pub open spec fn parse_result_view(r: Result<Node, ParseHTMLError>) -> Result<
    NodeView,
    ParseErrorView,
> {
    match r {
        Ok(n) => Ok(node_view(n)),
        Err(e) => Err(e@),
    }
}

/// The view of an attribute-parsing result.
pub open spec fn attrs_result_view(r: Result<Option<Attributes>, ParseHTMLError>) -> Result<
    Option<AttributesView>,
    ParseErrorView,
> {
    match r {
        Ok(Some(a)) => Ok(Some(a@)),
        Ok(None) => Ok(None),
        Err(e) => Err(e@),
    }
}

// ---------------------------------------------------------------------------
// Executable search helpers
// ---------------------------------------------------------------------------

/// Decides whether `p` occurs in `v` starting at `i`.
pub fn starts_lit(v: &Vec<char>, i: usize, p: &str) -> (r: bool)
    ensures
        r == sub_at(v@, i as int, p@),
{
    let plen: usize = p.unicode_len();
    let n: usize = v.len();
    if plen > n || i > n - plen {
        return false;
    }
    let mut k: usize = 0;
    while k < plen
        invariant
            0 <= k <= plen,
            plen == p@.len(),
            n == v@.len(),
            i + plen <= n,
            forall|t: int| 0 <= t < k ==> v@[i + t] == p@[t],
        decreases plen - k,
    {
        if v[i + k] != p.get_char(k) {
            proof {
                if sub_at(v@, i as int, p@) {
                    assert(v@.subrange(i as int, i + p@.len())[k as int] == v@[i + k]);
                }
            }
            return false;
        }
        k = k + 1;
    }
    proof {
        assert(v@.subrange(i as int, i + p@.len()) =~= p@);
    }
    true
}

/// Finds the first occurrence of `c` in `v` at or after `from`.
pub fn find_char_exec(v: &Vec<char>, from: usize, c: char) -> (r: Option<usize>)
    ensures
        match r {
            Some(j) => find_char_from(v@, from as int, c) == Some(j as int),
            None => find_char_from(v@, from as int, c) is None,
        },
{
    let n: usize = v.len();
    let mut j: usize = from;
    while j < n
        invariant
            from <= j,
            n == v@.len(),
            find_char_from(v@, from as int, c) == find_char_from(v@, j as int, c),
        decreases n - j,
    {
        if v[j] == c {
            return Some(j);
        }
        j = j + 1;
    }
    None
}

/// Finds the first occurrence of `p` in `v` at or after `from`.
pub fn find_sub_exec(v: &Vec<char>, from: usize, p: &str) -> (r: Option<usize>)
    requires
        p@.len() > 0,
    ensures
        match r {
            Some(j) => find_sub_from(v@, from as int, p@) == Some(j as int),
            None => find_sub_from(v@, from as int, p@) is None,
        },
{
    let n: usize = v.len();
    let plen: usize = p.unicode_len();
    if plen > n {
        return None;
    }
    let mut j: usize = from;
    while j <= n - plen
        invariant
            from <= j,
            n == v@.len(),
            plen == p@.len(),
            0 < plen <= n,
            find_sub_from(v@, from as int, p@) == find_sub_from(v@, j as int, p@),
        decreases n - j,
    {
        if starts_lit(v, j, p) {
            return Some(j);
        }
        j = j + 1;
    }
    None
}

/// Locates the end of a tag starting at `from`: the first `>` outside
/// quoted attribute values, as [`find_closing_from`] states.
pub fn find_closing_bracket_index(v: &Vec<char>, from: usize) -> (r: Option<usize>)
    ensures
        match r {
            Some(j) => find_closing_from(v@, from as int, Seq::empty()) == Some(j as int),
            None => find_closing_from(v@, from as int, Seq::empty()) is None,
        },
{
    let n: usize = v.len();
    let mut j: usize = from;
    let mut quotes: Vec<char> = Vec::new();
    proof {
        assert(quotes@ =~= Seq::<char>::empty());
    }
    while j < n
        invariant
            from <= j,
            n == v@.len(),
            find_closing_from(v@, from as int, Seq::empty()) == find_closing_from(
                v@,
                j as int,
                quotes@,
            ),
        decreases n - j,
    {
        let c: char = v[j];
        let ghost oldq: Seq<char> = quotes@;
        if c == '"' || c == '\'' {
            let qlen: usize = quotes.len();
            if qlen > 0 && quotes[qlen - 1] == c {
                quotes.pop();
                proof {
                    assert(quotes@ =~= oldq.drop_last());
                }
            } else {
                quotes.push(c);
            }
        }
        if c == '>' && quotes.len() == 0 {
            return Some(j);
        }
        j = j + 1;
    }
    None
}

/// Finds the first whitespace character of `v` in `[from, to)`.
pub fn find_ws_exec(v: &Vec<char>, from: usize, to: usize) -> (r: Option<usize>)
    requires
        to <= v@.len(),
    ensures
        match r {
            Some(j) => find_ws_in(v@, from as int, to as int) == Some(j as int),
            None => find_ws_in(v@, from as int, to as int) is None,
        },
{
    let mut j: usize = from;
    while j < to
        invariant
            from <= j,
            to <= v@.len(),
            find_ws_in(v@, from as int, to as int) == find_ws_in(v@, j as int, to as int),
        decreases to - j,
    {
        if crate::chars::is_whitespace_char(v[j]) {
            return Some(j);
        }
        j = j + 1;
    }
    None
}

/// Computes [`first_non_ws`] on a range of `v`.
pub fn first_non_ws_exec(v: &Vec<char>, from: usize, to: usize) -> (r: usize)
    requires
        from <= to <= v@.len(),
    ensures
        r == first_non_ws(v@, from as int, to as int),
        from <= r <= to,
{
    let mut j: usize = from;
    while j < to
        invariant
            from <= j <= to,
            to <= v@.len(),
            first_non_ws(v@, from as int, to as int) == first_non_ws(v@, j as int, to as int),
        decreases to - j,
    {
        if !crate::chars::is_whitespace_char(v[j]) {
            return j;
        }
        j = j + 1;
    }
    j
}

/// Computes [`end_non_ws`] on a range of `v`.
pub fn end_non_ws_exec(v: &Vec<char>, from: usize, to: usize) -> (r: usize)
    requires
        from <= to <= v@.len(),
    ensures
        r == end_non_ws(v@, from as int, to as int),
        from <= r <= to,
{
    let mut j: usize = to;
    while j > from
        invariant
            from <= j <= to,
            to <= v@.len(),
            end_non_ws(v@, from as int, to as int) == end_non_ws(v@, from as int, j as int),
        decreases j,
    {
        if !crate::chars::is_whitespace_char(v[j - 1]) {
            return j;
        }
        j = j - 1;
    }
    j
}

// ---------------------------------------------------------------------------
// Executable stripping of comment delimiters
// ---------------------------------------------------------------------------

/// Advances `lo` past every leading repetition of `p` inside `v[lo..hi)`.
fn strip_prefix_reps(v: &Vec<char>, lo: usize, hi: usize, p: &str) -> (a: usize)
    requires
        lo <= hi <= v@.len(),
        p@.len() > 0,
    ensures
        lo <= a <= hi,
        strip_start_all(v@.subrange(lo as int, hi as int), p@) == v@.subrange(a as int, hi as int),
{
    let plen: usize = p.unicode_len();
    let mut a: usize = lo;
    loop
        invariant
            lo <= a <= hi <= v@.len(),
            plen == p@.len(),
            plen > 0,
            strip_start_all(v@.subrange(lo as int, hi as int), p@) == strip_start_all(
                v@.subrange(a as int, hi as int),
                p@,
            ),
        decreases hi - a,
    {
        if hi - a >= plen && starts_lit(v, a, p) {
            proof {
                assert(v@.subrange(a as int, hi as int).subrange(0, plen as int) =~= v@.subrange(
                    a as int,
                    a + plen,
                ));
                assert(v@.subrange(a as int, hi as int).skip(plen as int) =~= v@.subrange(
                    a + plen,
                    hi as int,
                ));
            }
            a = a + plen;
        } else {
            proof {
                if a + plen <= hi && v@.subrange(a as int, hi as int).len() >= plen
                    && v@.subrange(a as int, hi as int).subrange(0, plen as int) == p@ {
                    assert(v@.subrange(a as int, a + plen) =~= v@.subrange(
                        a as int,
                        hi as int,
                    ).subrange(0, plen as int));
                }
                assert(strip_start_all(v@.subrange(a as int, hi as int), p@) == v@.subrange(
                    a as int,
                    hi as int,
                ));
            }
            return a;
        }
    }
}

/// Pulls `hi` back across every trailing repetition of `p` inside
/// `v[lo..hi)`.
fn strip_suffix_reps(v: &Vec<char>, lo: usize, hi: usize, p: &str) -> (b: usize)
    requires
        lo <= hi <= v@.len(),
        p@.len() > 0,
    ensures
        lo <= b <= hi,
        strip_end_all(v@.subrange(lo as int, hi as int), p@) == v@.subrange(lo as int, b as int),
{
    let plen: usize = p.unicode_len();
    let mut b: usize = hi;
    loop
        invariant
            lo <= b <= hi <= v@.len(),
            plen == p@.len(),
            plen > 0,
            strip_end_all(v@.subrange(lo as int, hi as int), p@) == strip_end_all(
                v@.subrange(lo as int, b as int),
                p@,
            ),
        decreases b,
    {
        if b - lo >= plen && starts_lit(v, b - plen, p) {
            proof {
                let sub = v@.subrange(lo as int, b as int);
                assert(sub.subrange(sub.len() - plen, sub.len() as int) =~= v@.subrange(
                    b - plen,
                    b as int,
                ));
                assert(sub.take(sub.len() - plen) =~= v@.subrange(lo as int, b - plen));
            }
            b = b - plen;
        } else {
            proof {
                let sub = v@.subrange(lo as int, b as int);
                if lo + plen <= b && sub.len() >= plen && sub.subrange(
                    sub.len() - plen,
                    sub.len() as int,
                ) == p@ {
                    assert(v@.subrange(b - plen, b as int) =~= sub.subrange(
                        sub.len() - plen,
                        sub.len() as int,
                    ));
                }
                assert(strip_end_all(v@.subrange(lo as int, b as int), p@) == v@.subrange(
                    lo as int,
                    b as int,
                ));
            }
            return b;
        }
    }
}


// ---------------------------------------------------------------------------
// Executable attribute parsing
// ---------------------------------------------------------------------------

/// Records `key = val` in `map` unless either side is empty.
pub fn add_to_attribute_map(map: &mut Attributes, key: &Vec<char>, val: &Vec<char>)
    ensures
        final(map)@ == attr_add(old(map)@, key@, val@),
{
    if key.len() == 0 || val.len() == 0 {
        return;
    }
    let klen: usize = key.len();
    let vlen: usize = val.len();
    let ks: String = string_from_range(key, 0, klen);
    let vs: String = string_from_range(val, 0, vlen);
    proof {
        assert(key@.subrange(0, klen as int) =~= key@);
        assert(val@.subrange(0, vlen as int) =~= val@);
    }
    map.insert(ks, AttributeValues::String(vs));
}

/// Parses the attribute text of a tag, the characters of `v` in
/// `[lo, hi)`; `tag_off` is the offset of the enclosing tag, carried into
/// any error. The result is exactly what [`parse_attrs_s`] states.
pub fn parse_tag_attributes(v: &Vec<char>, lo: usize, hi: usize, tag_off: usize) -> (r: Result<
    Option<Attributes>,
    ParseHTMLError,
>)
    requires
        lo <= hi <= v@.len(),
        tag_off <= v@.len(),
    ensures
        attrs_result_view(r) == parse_attrs_s(v@, lo as int, hi as int, tag_off as int),
{
    let a: usize = first_non_ws_exec(v, lo, hi);
    let b: usize = end_non_ws_exec(v, a, hi);
    if a >= b {
        return Ok(None);
    }
    let mut key: Vec<char> = Vec::new();
    let mut val: Vec<char> = Vec::new();
    let mut in_quotes: bool = false;
    let mut maybe_nq: bool = false;
    let mut map: Attributes = Attributes::new();
    let mut j: usize = a;
    proof {
        assert(AttrState {
            key: key@,
            val: val@,
            in_quotes: in_quotes,
            maybe_nq: maybe_nq,
            attrs: map@,
        } =~= AttrState::init());
    }
    while j < b
        invariant
            lo <= a <= j <= b <= hi <= v@.len(),
            tag_off <= v@.len(),
            a < b,
            a == first_non_ws(v@, lo as int, hi as int),
            b == end_non_ws(v@, a as int, hi as int),
            attrs_run(v@, a as int, b as int, AttrState::init()) == attrs_run(
                v@,
                j as int,
                b as int,
                AttrState {
                    key: key@,
                    val: val@,
                    in_quotes: in_quotes,
                    maybe_nq: maybe_nq,
                    attrs: map@,
                },
            ),
        decreases b - j,
    {
        let ghost st: AttrState = AttrState {
            key: key@,
            val: val@,
            in_quotes: in_quotes,
            maybe_nq: maybe_nq,
            attrs: map@,
        };
        let c: char = v[j];
        if in_quotes {
            if c == '"' {
                add_to_attribute_map(&mut map, &key, &val);
                key.clear();
                val.clear();
                in_quotes = false;
            } else {
                val.push(c);
            }
        } else if c == '"' {
            if key.len() == 0 {
                let raw: String = string_from_range(v, a, b);
                return Err(ParseHTMLError::MalformedAttribute(
                    raw,
                    MalformedAttributeError::MissingAttributeName(crate::chars::wrap32_u128(
                        crate::chars::byte_pos_exec(v, tag_off),
                    )),
                ));
            }
            in_quotes = true;
            maybe_nq = false;
        } else if crate::chars::is_whitespace_char(c) {
            if maybe_nq {
                if val.len() == 0 {
                } else {
                    add_to_attribute_map(&mut map, &key, &val);
                    key.clear();
                    val.clear();
                    maybe_nq = false;
                }
            } else if key.len() > 0 {
                let klen: usize = key.len();
                let ks: String = string_from_range(&key, 0, klen);
                proof {
                    assert(key@.subrange(0, klen as int) =~= key@);
                }
                map.insert(ks, AttributeValues::Bool(true));
                key.clear();
            }
        } else if !maybe_nq && c == '=' {
            if key.len() == 0 {
                let raw: String = string_from_range(v, a, b);
                return Err(ParseHTMLError::MalformedAttribute(
                    raw,
                    MalformedAttributeError::MissingAttributeName(crate::chars::wrap32_u128(
                        crate::chars::byte_pos_exec(v, tag_off),
                    )),
                ));
            }
            maybe_nq = true;
        } else if maybe_nq {
            val.push(c);
        } else {
            key.push(c);
        }
        proof {
            let st2 = AttrState {
                key: key@,
                val: val@,
                in_quotes: in_quotes,
                maybe_nq: maybe_nq,
                attrs: map@,
            };
            assert(attrs_step(st, v@[j as int]) == Ok::<AttrState, ()>(st2)) by {
                assert(st2 =~= match attrs_step(st, v@[j as int]) {
                    Ok(x) => x,
                    Err(_) => st2,
                });
            }
        }
        j = j + 1;
    }
    if maybe_nq && val.len() > 0 {
        add_to_attribute_map(&mut map, &key, &val);
    }
    if !in_quotes && !maybe_nq && key.len() > 0 {
        let klen: usize = key.len();
        let ks: String = string_from_range(&key, 0, klen);
        proof {
            assert(key@.subrange(0, klen as int) =~= key@);
        }
        map.insert(ks, AttributeValues::Bool(true));
        key.clear();
    }
    if in_quotes {
        let vlen: usize = val.len();
        let raw: String = string_from_range(&val, 0, vlen);
        proof {
            assert(val@.subrange(0, vlen as int) =~= val@);
        }
        return Err(ParseHTMLError::MalformedAttribute(
            raw,
            MalformedAttributeError::MissingQuotationMark(crate::chars::wrap32_u128(crate::chars::byte_pos_exec(v, tag_off))),
        ));
    }
    if map.is_empty() {
        Ok(None)
    } else {
        Ok(Some(map))
    }
}

// ---------------------------------------------------------------------------
// Attaching ancestor context
// ---------------------------------------------------------------------------

/// Copies a kind list, preserving its view.
fn clone_kinds(v: &Vec<NodeType>) -> (r: Vec<NodeType>)
    ensures
        kinds_view(r@) == kinds_view(v@),
{
    let n: usize = v.len();
    let mut r: Vec<NodeType> = Vec::new();
    let mut i: usize = 0;
    while i < n
        invariant
            0 <= i <= n,
            n == v@.len(),
            r@.len() == i,
            forall|t: int| 0 <= t < i ==> r@[t]@ == v@[t]@,
        decreases n - i,
    {
        r.push(crate::structs::clone_kind(&v[i]));
        i = i + 1;
    }
    proof {
        assert(kinds_view(r@) =~= kinds_view(v@));
    }
    r
}

/// Attaches the parent's ancestor context to `node`, as [`with_parent_s`]
/// states: the parent's recorded special ancestors are inherited, and the
/// parent's own kind is appended when it is itself special.
pub fn modify_node_with_parent(node: &mut Node, parent: &Node)
    ensures
        node_view(*final(node)) == with_parent_s(node_view(*old(node)), node_view(*parent)),
{
    if parent.within_special_tag.is_some() {
        node.within_special_tag = match &parent.within_special_tag {
            Some(w) => Some(clone_kinds(w)),
            None => None,
        };
    }
    if let Some(parent_tag) = &parent.tag_name {
        if parent_tag.is_special_tag() {
            let appended: Vec<NodeType> = match &node.within_special_tag {
                Some(w) => {
                    let mut w2: Vec<NodeType> = clone_kinds(w);
                    w2.push(crate::structs::clone_kind(parent_tag));
                    proof {
                        assert(kinds_view(w2@) =~= kinds_view(w@).push(parent_tag@));
                    }
                    w2
                },
                None => {
                    let single: Vec<NodeType> = vec![crate::structs::clone_kind(parent_tag)];
                    proof {
                        assert(kinds_view(single@) =~= seq![parent_tag@]);
                    }
                    single
                },
            };
            node.within_special_tag = Some(appended);
        }
    }
    proof {
        assert(node_view(*node) =~= with_parent_s(node_view(*old(node)), node_view(*parent)));
    }
}


// ---------------------------------------------------------------------------
// The parser
// ---------------------------------------------------------------------------

/// Characterises [`first_non_ws`]: everything before the result is
/// whitespace, and the result, when inside the range, is not.
pub proof fn lemma_first_non_ws(s: Seq<char>, from: int, to: int)
    requires
        0 <= from <= to <= s.len(),
    ensures
        from <= first_non_ws(s, from, to) <= to,
        forall|k: int| from <= k < first_non_ws(s, from, to) ==> is_ws_char(#[trigger] s[k]),
        first_non_ws(s, from, to) < to ==> !is_ws_char(s[first_non_ws(s, from, to)]),
        first_non_ws(s, from, to) == to <==> all_ws_in(s, from, to),
    decreases to - from,
{
    if from < to && is_ws_char(s[from]) {
        lemma_first_non_ws(s, from + 1, to);
    }
}

/// Replacing the top of a viewed stack after appending a child equals
/// [`push_child_to_top`] on the view.
proof fn lemma_push_child_top(stack0: Seq<Node>, parent2: Node, childv: NodeView)
    requires
        stack0.len() > 0,
        node_view(parent2) == (NodeView {
            children: node_view(stack0.last()).children.push(childv),
            ..node_view(stack0.last())
        }),
    ensures
        nodes_view(stack0.drop_last().push(parent2)) == push_child_to_top(
            nodes_view(stack0),
            childv,
        ),
{
    broadcast use crate::structs::lemma_nodes_view_len, crate::structs::lemma_nodes_view_index, crate::structs::lemma_nodes_view_push;

    let lhs = nodes_view(stack0.drop_last().push(parent2));
    let rhs = push_child_to_top(nodes_view(stack0), childv);
    assert(nodes_view(stack0).last() == node_view(stack0.last()));
    assert forall|k: int| 0 <= k < stack0.len() - 1 implies lhs[k] == rhs[k] by {
        assert(stack0.drop_last()[k] == stack0[k]);
        assert(nodes_view(stack0.drop_last())[k] == node_view(stack0.drop_last()[k]));
        assert(nodes_view(stack0)[k] == node_view(stack0[k]));
    }
    assert(lhs =~= rhs);
}

/// Attaches `new_node` to the element stack: appended as the last child of
/// the top element (inheriting its ancestor context), or pushed as a new
/// stack entry when the stack is empty.
pub fn modify_stack_with_node(stack: &mut Vec<Node>, new_node: Node)
    ensures
        old(stack)@.len() > 0 ==> nodes_view(final(stack)@) == push_child_to_top(
            nodes_view(old(stack)@),
            with_parent_s(node_view(new_node), node_view(old(stack)@.last())),
        ),
        old(stack)@.len() == 0 ==> nodes_view(final(stack)@) == nodes_view(old(stack)@).push(
            node_view(new_node),
        ),
{
    let mut new_node = new_node;
    if stack.len() > 0 {
        let ghost stack0: Seq<Node> = stack@;
        let mut parent: Node = match stack.pop() {
            Some(p) => p,
            None => (Node {
                tag_name: None,
                value: None,
                attributes: None,
                within_special_tag: None,
                children: Vec::new(),
            }),
        };
        modify_node_with_parent(&mut new_node, &parent);
        let ghost childv: NodeView = node_view(new_node);
        let ghost childn: Node = new_node;
        parent.children.push(new_node);
        let ghost parent2: Node = parent;
        stack.push(parent);
        proof {
            crate::structs::lemma_nodes_view_push(stack0.last().children@, childn);
            assert(node_view(parent2) =~= (NodeView {
                children: node_view(stack0.last()).children.push(childv),
                ..node_view(stack0.last())
            }));
            lemma_push_child_top(stack0, parent2, childv);
            assert(stack@ =~= stack0.drop_last().push(parent2));
        }
    } else {
        stack.push(new_node);
    }
}


/// Appends `child` as the last child of the stack's top element, without
/// touching the child's ancestor context.
fn attach_child_to_top(stack: &mut Vec<Node>, child: Node)
    requires
        old(stack)@.len() > 0,
    ensures
        nodes_view(final(stack)@) == push_child_to_top(
            nodes_view(old(stack)@),
            node_view(child),
        ),
{
    let ghost stack0: Seq<Node> = stack@;
    let ghost childv: NodeView = node_view(child);
    let ghost childn: Node = child;
    let mut parent: Node = match stack.pop() {
        Some(p) => p,
        None => (Node {
            tag_name: None,
            value: None,
            attributes: None,
            within_special_tag: None,
            children: Vec::new(),
        }),
    };
    parent.children.push(child);
    let ghost parent2: Node = parent;
    stack.push(parent);
    proof {
        crate::structs::lemma_nodes_view_push(stack0.last().children@, childn);
        assert(node_view(parent2) =~= (NodeView {
            children: node_view(stack0.last()).children.push(childv),
            ..node_view(stack0.last())
        }));
        lemma_push_child_top(stack0, parent2, childv);
        assert(stack@ =~= stack0.drop_last().push(parent2));
    }
}

/// One step of the parser on a comment or doctype declaration
/// (`s[i]` starts `<!`).
#[verifier::rlimit(50)]
fn comment_step(v: &Vec<char>, i: usize, stack: &mut Vec<Node>, nodes: &mut Vec<Node>) -> (r:
    Result<usize, ParseHTMLError>)
    requires
        i < v@.len(),
        sub_at(v@, i as int, "<!"@),
    ensures
        match r {
            Ok(i2) => i < i2 <= v@.len() && parse_at(
                v@,
                i as int,
                nodes_view(old(stack)@),
                nodes_view(old(nodes)@),
            ) == parse_at(v@, i2 as int, nodes_view(final(stack)@), nodes_view(final(nodes)@)),
            Err(e) => parse_at(v@, i as int, nodes_view(old(stack)@), nodes_view(old(nodes)@))
                == Err::<NodeView, ParseErrorView>(e@),
        },
{
    let ghost s: Seq<char> = v@;
    let ghost i0: int = i as int;
    let ghost stv: Seq<NodeView> = nodes_view(stack@);
    let ghost rt0: Seq<NodeView> = nodes_view(nodes@);
    let n: usize = v.len();
    proof {
        reveal_strlit("-->");
        reveal_strlit("<!");
        reveal_strlit("--");
    }
    if starts_lit(v, i, "<!DOCTYPE") {
        match find_char_exec(v, i, '>') {
            Some(j) => {
                proof {
                    lemma_find_char_from(s, i0, '>');
                }
                Ok(j + 1)
            },
            None => {
                let raw: String = string_from_range(v, i, n);
                Err(ParseHTMLError::MalformedTag(
                    raw,
                    MalformedTagError::MissingClosingBracket(crate::chars::wrap32_u128(crate::chars::byte_pos_exec(v, i))),
                ))
            },
        }
    } else {
        match find_sub_exec(v, i, "-->") {
            Some(j) => {
                proof {
                    reveal_strlit("-->");
                    lemma_find_sub_from(s, i0, "-->"@);
                }
                let a1: usize = strip_prefix_reps(v, i, j + 3, "<!");
                let a2: usize = strip_prefix_reps(v, a1, j + 3, "--");
                let b2: usize = strip_suffix_reps(v, a2, j + 3, "-->");
                let text: String = string_from_range(v, a2, b2);
                let cnode: Node = Node {
                    tag_name: Some(NodeType::Comment),
                    value: Some(text),
                    attributes: None,
                    within_special_tag: None,
                    children: Vec::new(),
                };
                let ghost cnodeg: Node = cnode;
                proof {
                    assert(node_view(cnodeg) =~= fresh_text_node(
                        NodeTypeView::Comment,
                        comment_text(s.subrange(i0, j + 3)),
                    ));
                }
                if stack.len() > 0 {
                    attach_child_to_top(stack, cnode);
                    proof {
                        assert(parse_at(s, i0, stv, rt0) == parse_at(
                            s,
                            j + 3,
                            push_child_to_top(stv, node_view(cnodeg)),
                            rt0,
                        ));
                    }
                } else {
                    let ghost nodes0: Seq<Node> = nodes@;
                    nodes.push(cnode);
                    proof {
                        crate::structs::lemma_nodes_view_push(nodes0, cnodeg);
                        assert(parse_at(s, i0, stv, rt0) == parse_at(
                            s,
                            j + 3,
                            stv,
                            rt0.push(node_view(cnodeg)),
                        ));
                    }
                }
                Ok(j + 3)
            },
            None => {
                let raw: String = string_from_range(v, i, n);
                Err(ParseHTMLError::MalformedTag(
                    raw,
                    MalformedTagError::MissingClosingBracket(crate::chars::wrap32_u128(crate::chars::byte_pos_exec(v, i))),
                ))
            },
        }
    }
}

/// One step of the parser on a tag (`s[i]` is `<` and does not start
/// `<!`): a closing, self-closing or opening tag.
#[verifier::rlimit(100)]
fn tag_step(v: &Vec<char>, i: usize, stack: &mut Vec<Node>, nodes: &mut Vec<Node>) -> (r: Result<
    usize,
    ParseHTMLError,
>)
    requires
        i < v@.len(),
        !sub_at(v@, i as int, "<!"@),
        v@[i as int] == '<',
    ensures
        match r {
            Ok(i2) => i < i2 <= v@.len() && parse_at(
                v@,
                i as int,
                nodes_view(old(stack)@),
                nodes_view(old(nodes)@),
            ) == parse_at(v@, i2 as int, nodes_view(final(stack)@), nodes_view(final(nodes)@)),
            Err(e) => parse_at(v@, i as int, nodes_view(old(stack)@), nodes_view(old(nodes)@))
                == Err::<NodeView, ParseErrorView>(e@),
        },
{
    let ghost s: Seq<char> = v@;
    let ghost i0: int = i as int;
    let ghost stko: Seq<Node> = stack@;
    let ghost st0: Seq<NodeView> = nodes_view(stack@);
    let ghost rt0: Seq<NodeView> = nodes_view(nodes@);
    let n: usize = v.len();
    match find_closing_bracket_index(v, i) {
        None => {
            let raw: String = string_from_range(v, i, n);
            Err(ParseHTMLError::MalformedTag(
                raw,
                MalformedTagError::MissingClosingBracket(crate::chars::wrap32_u128(crate::chars::byte_pos_exec(v, i))),
            ))
        },
        Some(cb) => {
            proof {
                lemma_find_closing_from(s, i0, Seq::empty());
            }
            let self_closing: bool = v[cb - 1] == '/';
            let ce: usize = if self_closing {
                cb - 1
            } else {
                cb
            };
            let wsj: Option<usize> = find_ws_exec(v, i + 1, ce);
            proof {
                lemma_find_ws_in(s, i0 + 1, ce as int);
            }
            let name_end: usize;
            let mut attrs_opt: Option<Attributes> = None;
            match wsj {
                Some(w) => {
                    match parse_tag_attributes(v, w, ce, i) {
                        Ok(m) => {
                            attrs_opt = m;
                            name_end = w;
                        },
                        Err(e) => {
                            return Err(e);
                        },
                    }
                },
                None => {
                    name_end = ce;
                },
            }
            if name_end <= i + 1 {
                let raw: String = string_from_range(v, i + 1, ce);
                return Err(ParseHTMLError::MalformedTag(
                    raw,
                    MalformedTagError::MissingTagName(crate::chars::wrap32_u128(crate::chars::byte_pos_exec(v, i))),
                ));
            }
            if starts_lit(v, i, "</") {
                match stack.pop() {
                    Some(last_node) => {
                        proof {
                            crate::structs::lemma_nodes_view_index(stko, stko.len() - 1);
                            assert(node_view(last_node) == st0.last());
                            assert(nodes_view(stack@) =~= st0.drop_last());
                        }
                        if stack.len() == 0 {
                            let ghost lastg: Node = last_node;
                            let ghost nodes0: Seq<Node> = nodes@;
                            nodes.push(last_node);
                            proof {
                                crate::structs::lemma_nodes_view_push(nodes0, lastg);
                                assert(nodes_view(stack@) =~= st0.drop_last());
                                assert(parse_at(s, i0, st0, rt0) == parse_at(
                                    s,
                                    ce + 1,
                                    st0.drop_last(),
                                    rt0.push(st0.last()),
                                ));
                            }
                        } else {
                            let ghost mid: Seq<Node> = stack@;
                            attach_child_to_top(stack, last_node);
                            proof {
                                assert(nodes_view(mid) == st0.drop_last());
                                assert(parse_at(s, i0, st0, rt0) == parse_at(
                                    s,
                                    ce + 1,
                                    push_child_to_top(st0.drop_last(), st0.last()),
                                    rt0,
                                ));
                            }
                        }
                        Ok(ce + 1)
                    },
                    None => {
                        let raw: String = match find_char_exec(v, i, '>') {
                            Some(j2) => {
                                proof {
                                    lemma_find_char_from(s, i0, '>');
                                }
                                string_from_range(v, i, j2 + 1)
                            },
                            None => string_from_range(v, i, n),
                        };
                        Err(ParseHTMLError::MalformedTag(
                            raw,
                            MalformedTagError::MissingClosingBracket(crate::chars::wrap32_u128(crate::chars::byte_pos_exec(v, i))),
                        ))
                    },
                }
            } else {
                let name_str: String = string_from_range(v, i + 1, name_end);
                let node_type: NodeType = NodeType::from_tag_str(name_str.as_str());
                let new_node: Node = Node {
                    tag_name: Some(node_type),
                    value: None,
                    attributes: attrs_opt,
                    within_special_tag: None,
                    children: Vec::new(),
                };
                let ghost freshv: NodeView = node_view(new_node);
                proof {
                    assert(freshv =~= fresh_node(
                        classify(s.subrange(i0 + 1, name_end as int)),
                        freshv.attributes,
                    ));
                }
                if self_closing {
                    if stack.len() > 0 {
                        proof {
                            crate::structs::lemma_nodes_view_index(stko, stko.len() - 1);
                            assert(node_view(stko.last()) == st0.last());
                        }
                        modify_stack_with_node(stack, new_node);
                        proof {
                            assert(parse_at(s, i0, st0, rt0) == parse_at(
                                s,
                                ce + 2,
                                push_child_to_top(st0, with_parent_s(freshv, st0.last())),
                                rt0,
                            ));
                        }
                    } else {
                        let ghost ng: Node = new_node;
                        let ghost nodes0: Seq<Node> = nodes@;
                        nodes.push(new_node);
                        proof {
                            crate::structs::lemma_nodes_view_push(nodes0, ng);
                            assert(parse_at(s, i0, st0, rt0) == parse_at(
                                s,
                                ce + 2,
                                st0,
                                rt0.push(freshv),
                            ));
                        }
                    }
                    Ok(ce + 2)
                } else {
                    let mut new_node = new_node;
                    if stack.len() > 0 {
                        let parent_idx: usize = stack.len() - 1;
                        proof {
                            crate::structs::lemma_nodes_view_index(stko, stko.len() - 1);
                            assert(node_view(stko.last()) == st0.last());
                        }
                        modify_node_with_parent(&mut new_node, &stack[parent_idx]);
                    }
                    let ghost ng: Node = new_node;
                    let ghost stack1: Seq<Node> = stack@;
                    stack.push(new_node);
                    proof {
                        crate::structs::lemma_nodes_view_push(stack1, ng);
                        let node2 = if st0.len() > 0 {
                            with_parent_s(freshv, st0.last())
                        } else {
                            freshv
                        };
                        assert(node_view(ng) == node2);
                        assert(parse_at(s, i0, st0, rt0) == parse_at(
                            s,
                            cb + 1,
                            st0.push(node2),
                            rt0,
                        ));
                    }
                    Ok(cb + 1)
                }
            }
        },
    }
}

/// One step of the parser on a text run (`s[i]` is not `<`): whitespace is
/// skipped, anything else becomes a `Text` leaf.
#[verifier::rlimit(50)]
fn text_step(v: &Vec<char>, i: usize, stack: &mut Vec<Node>, nodes: &mut Vec<Node>) -> (i2: usize)
    requires
        i < v@.len(),
        !sub_at(v@, i as int, "<!"@),
        v@[i as int] != '<',
    ensures
        i < i2 <= v@.len(),
        parse_at(v@, i as int, nodes_view(old(stack)@), nodes_view(old(nodes)@)) == parse_at(
            v@,
            i2 as int,
            nodes_view(final(stack)@),
            nodes_view(final(nodes)@),
        ),
{
    let ghost s: Seq<char> = v@;
    let ghost i0: int = i as int;
    let ghost st0: Seq<NodeView> = nodes_view(stack@);
    let ghost rt0: Seq<NodeView> = nodes_view(nodes@);
    let n: usize = v.len();
    let nxt: usize = match find_char_exec(v, i, '<') {
        Some(j) => j,
        None => n,
    };
    proof {
        lemma_find_char_from(s, i0, '<');
        lemma_first_non_ws(s, i0, nxt as int);
    }
    let fnw: usize = first_non_ws_exec(v, i, nxt);
    if fnw >= nxt {
        proof {
            assert(all_ws_in(s, i0, nxt as int));
        }
        nxt
    } else {
        let text: String = string_from_range(v, i, nxt);
        let tnode: Node = Node {
            tag_name: Some(NodeType::Text),
            value: Some(text),
            attributes: None,
            within_special_tag: None,
            children: Vec::new(),
        };
        let ghost tv: NodeView = node_view(tnode);
        proof {
            assert(!all_ws_in(s, i0, nxt as int));
            assert(tv =~= fresh_text_node(NodeTypeView::Text, s.subrange(i0, nxt as int)));
        }
        if stack.len() > 0 {
            proof {
                crate::structs::lemma_nodes_view_index(stack@, stack@.len() - 1);
                assert(node_view(stack@.last()) == st0.last());
            }
            modify_stack_with_node(stack, tnode);
            proof {
                assert(parse_at(s, i0, st0, rt0) == parse_at(
                    s,
                    nxt as int,
                    push_child_to_top(st0, with_parent_s(tv, st0.last())),
                    rt0,
                ));
            }
        } else {
            let ghost tg: Node = tnode;
            let ghost nodes0: Seq<Node> = nodes@;
            nodes.push(tnode);
            proof {
                crate::structs::lemma_nodes_view_push(nodes0, tg);
                assert(parse_at(s, i0, st0, rt0) == parse_at(
                    s,
                    nxt as int,
                    st0,
                    rt0.push(tv),
                ));
            }
        }
        nxt
    }
}

/// Parses a string of HTML into a node tree, or reports the first
/// malformed construct. The result is exactly what [`spec_parse`] states:
/// the run of the document machine over the input's characters, newlines
/// removed first.
#[verifier::rlimit(50)]
pub fn safe_parse_html(input: String) -> (r: Result<Node, ParseHTMLError>)
    ensures
        parse_result_view(r) == spec_parse(input@),
{
    let v: Vec<char> = crate::chars::str_chars_without_newlines(input.as_str());
    let n: usize = v.len();
    let ghost s: Seq<char> = v@;
    let mut i: usize = 0;
    let mut nodes: Vec<Node> = Vec::new();
    let mut stack: Vec<Node> = Vec::new();
    proof {
        assert(nodes_view(stack@) =~= Seq::<NodeView>::empty());
        assert(nodes_view(nodes@) =~= Seq::<NodeView>::empty());
    }
    while i < n
        invariant
            0 <= i <= n,
            n == v@.len(),
            s == v@,
            s == crate::chars::strip_newlines(input@),
            spec_parse(input@) == parse_at(s, i as int, nodes_view(stack@), nodes_view(nodes@)),
        decreases n - i,
    {
        if starts_lit(&v, i, "<!") {
            match comment_step(&v, i, &mut stack, &mut nodes) {
                Ok(i2) => {
                    i = i2;
                },
                Err(e) => {
                    return Err(e);
                },
            }
        } else if v[i] == '<' {
            match tag_step(&v, i, &mut stack, &mut nodes) {
                Ok(i2) => {
                    i = i2;
                },
                Err(e) => {
                    return Err(e);
                },
            }
        } else {
            i = text_step(&v, i, &mut stack, &mut nodes);
        }
    }
    let ghost st_end: Seq<NodeView> = nodes_view(stack@);
    let ghost rt_end: Seq<NodeView> = nodes_view(nodes@);
    let ghost allv: Seq<NodeView> = rt_end + st_end;
    while stack.len() > 0
        invariant
            spec_parse(input@) == parse_finish(nodes_view(stack@), nodes_view(nodes@)),
            nodes_view(nodes@) + nodes_view(stack@) == allv,
        decreases stack@.len(),
    {
        let ghost stack0: Seq<Node> = stack@;
        let ghost nodes0: Seq<Node> = nodes@;
        let x: Node = stack.remove(0);
        let ghost xg: Node = x;
        nodes.push(x);
        proof {
            crate::structs::lemma_nodes_view_push(nodes0, xg);
            assert(stack@ =~= stack0.drop_first());
            assert forall|k: int| 0 <= k < stack0.len() - 1 implies nodes_view(stack@)[k]
                == nodes_view(stack0)[k + 1] by {
                assert(stack@[k] == stack0[k + 1]);
            }
            assert(nodes_view(nodes@) + nodes_view(stack@) =~= nodes_view(nodes0) + nodes_view(
                stack0,
            ));
            assert(parse_finish(nodes_view(stack@), nodes_view(nodes@)) =~= parse_finish(
                nodes_view(stack0),
                nodes_view(nodes0),
            ));
        }
    }
    proof {
        assert(nodes_view(stack@) =~= Seq::<NodeView>::empty());
        assert(nodes_view(nodes@) =~= nodes_view(nodes@) + nodes_view(stack@));
    }
    if nodes.len() == 1 {
        let ghost nodesfin: Seq<Node> = nodes@;
        let root: Node = match nodes.pop() {
            Some(x) => x,
            None => (Node {
                tag_name: None,
                value: None,
                attributes: None,
                within_special_tag: None,
                children: Vec::new(),
            }),
        };
        proof {
            assert(node_view(root) == nodes_view(nodesfin)[0]);
        }
        return Ok(root);
    }
    let wrapper: Node = Node {
        tag_name: None,
        value: None,
        attributes: None,
        within_special_tag: None,
        children: nodes,
    };
    proof {
        assert(node_view(wrapper) =~= (NodeView {
            tag_name: None,
            value: None,
            attributes: None,
            within_special_tag: None,
            children: nodes_view(wrapper.children@),
        }));
    }
    Ok(wrapper)
}

/// Parses a string of HTML into a node tree. Deprecated in favour of
/// [`safe_parse_html`]: this entry point requires the input to be well
/// formed, where the safe one reports the malformed construct instead.
pub fn parse_html(input: String) -> (r: Node)
    requires
        spec_parse(input@) is Ok,
    ensures
        spec_parse(input@) == Ok::<NodeView, ParseErrorView>(node_view(r)),
{
    match safe_parse_html(input) {
        Ok(node) => node,
        Err(_) => {
            proof {
                assert(false);
            }
            Node {
                tag_name: None,
                value: None,
                attributes: None,
                within_special_tag: None,
                children: Vec::new(),
            }
        },
    }
}

} // verus!
