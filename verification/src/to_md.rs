//! The Markdown renderer: a recursive walk over a finished node tree,
//! emitting CommonMark-flavored text. The output is pinned down, character
//! for character, by the specification function [`md_node`].

use crate::chars::{
    dec_str, is_ws_char, parse_usize_s, push_dec_u128, str_chars, string_from_range,
};
use crate::parser::{find_ws_in, lemma_find_ws_in, spec_parse, ParseHTMLError};
use crate::structs::{
    kinds_view, leading_spaces_s, node_view, nodes_view, val_text, AttributeValueView,
    AttributeValues, Attributes, AttributesView, Node, NodeType, NodeTypeView, NodeView,
    ToMdConfig,
};
use vstd::prelude::*;
use vstd::utf8::{decode_utf8, encode_utf8, valid_utf8};

verus! {

broadcast use crate::structs::lemma_nodes_view_len, crate::structs::lemma_nodes_view_index;

// ---------------------------------------------------------------------------
// Percent-decoding of link destinations
// ---------------------------------------------------------------------------

/// An ASCII hexadecimal digit, as `char::to_digit(16)` accepts it.
pub open spec fn is_hex_digit(b: u8) -> bool {
    (0x30 <= b && b <= 0x39) || (0x61 <= b && b <= 0x66) || (0x41 <= b && b <= 0x46)
}

/// Value of an ASCII hexadecimal digit.
pub open spec fn hex_val(b: u8) -> int {
    if 0x30 <= b && b <= 0x39 {
        b - 0x30
    } else if 0x61 <= b && b <= 0x66 {
        b - 0x57
    } else {
        b - 0x37
    }
}

/// Percent-decoding over bytes: each `%` followed by two hexadecimal
/// digits becomes the byte they denote; any other byte passes through.
pub open spec fn pct_decode_bytes(b: Seq<u8>) -> Seq<u8>
    decreases b.len(),
{
    if b.len() == 0 {
        Seq::empty()
    } else if b[0] == 0x25 && b.len() >= 3 && is_hex_digit(b[1]) && is_hex_digit(b[2]) {
        seq![(hex_val(b[1]) * 16 + hex_val(b[2])) as u8] + pct_decode_bytes(b.skip(3))
    } else {
        seq![b[0]] + pct_decode_bytes(b.skip(1))
    }
}

/// The link destination actually written out: the percent-decoded text
/// when it decodes to valid UTF-8, the raw value otherwise.
pub open spec fn decoded_href(link: Seq<char>) -> Seq<char> {
    let db = pct_decode_bytes(encode_utf8(link));
    if valid_utf8(db) {
        decode_utf8(db)
    } else {
        link
    }
}

/// Relies on `percent_encoding::percent_decode` followed by its
/// `decode_utf8`: every `%` with two hexadecimal digits after it turns
/// into the byte they denote, every other byte passes through, and the
/// decoded bytes must form valid UTF-8 for the call to succeed.
#[verifier::external_body]
fn decode_percent_utf8(link: &str) -> (r: Option<String>)
    ensures
        r is Some <==> valid_utf8(pct_decode_bytes(encode_utf8(link@))),
        r is Some ==> r->0@ == decode_utf8(pct_decode_bytes(encode_utf8(link@))),
{
    percent_encoding::percent_decode(link.as_bytes()).decode_utf8().ok().map(|s| s.to_string())
}

// ---------------------------------------------------------------------------
// What the renderer consults in a node
// ---------------------------------------------------------------------------

/// Whether `k` is one of the kinds the configuration suppresses.
pub open spec fn kind_ignored(k: NodeTypeView, ignore: Seq<NodeTypeView>) -> bool {
    exists|i: int| 0 <= i < ignore.len() && ignore[i] == k
}

/// The text of the `href` attribute, if the node carries one.
pub open spec fn href_text(attrs: Option<AttributesView>) -> Option<Seq<char>> {
    match attrs {
        Some(a) => match a.lookup("href"@) {
            Some(v) => Some(val_text(v)),
            None => None,
        },
        None => None,
    }
}

/// Where an ordered list starts counting: the `start` attribute parsed as
/// a number, or 1.
pub open spec fn ol_start(attrs: Option<AttributesView>) -> int {
    match attrs {
        Some(a) => match a.lookup("start"@) {
            Some(AttributeValueView::Str(st)) => match parse_usize_s(st) {
                Some(n) => n,
                None => 1,
            },
            Some(AttributeValueView::Num(n)) => if n >= 0 {
                n
            } else {
                1
            },
            _ => 1,
        },
        None => 1,
    }
}

/// Whether some entry of `l` is a blockquote.
pub open spec fn has_blockquote(l: Seq<NodeTypeView>) -> bool {
    exists|i: int| 0 <= i < l.len() && l[i] is Blockquote
}

/// Whether some child is a paragraph.
pub open spec fn has_p_child(cs: Seq<NodeView>) -> bool {
    exists|j: int| 0 <= j < cs.len() && cs[j].tag_name == Some(NodeTypeView::P)
}

/// The position right after the token starting at `from`: the next
/// whitespace character, or the end.
pub open spec fn token_end(s: Seq<char>, from: int) -> int {
    match find_ws_in(s, from, s.len() as int) {
        Some(j) => j,
        None => s.len() as int,
    }
}

/// The first whitespace-separated token of `s` (at or after `from`) that
/// starts with `language-`, with that prefix removed.
pub open spec fn lang_token_from(s: Seq<char>, from: int) -> Option<Seq<char>>
    decreases s.len() - from,
{
    if from < 0 || from >= s.len() {
        None
    } else if is_ws_char(s[from]) {
        lang_token_from(s, from + 1)
    } else {
        let e = token_end(s, from);
        let tok = s.subrange(from, e);
        if tok.len() >= 9 && tok.subrange(0, 9) == "language-"@ {
            Some(tok.skip(9))
        } else {
            proof {
                lemma_find_ws_in(s, from, s.len() as int);
            }
            lang_token_from(s, e)
        }
    }
}

/// The code-fence language taken from the `class` attribute, if any.
pub open spec fn code_lang(attrs: Option<AttributesView>) -> Option<Seq<char>> {
    match attrs {
        Some(a) => match a.class {
            Some(c) => lang_token_from(c, 0),
            None => None,
        },
        None => None,
    }
}

/// The opening of a code fence: the language follows the backticks when
/// one is found (without a newline), a bare fence line otherwise.
pub open spec fn code_head(attrs: Option<AttributesView>) -> Seq<char> {
    match code_lang(attrs) {
        Some(lang) => "```"@ + lang,
        None => "```\n"@,
    }
}

/// The text a `Text` node emits: a quote prefix when a blockquote
/// ancestor is recorded, then the literal value.
pub open spec fn text_out(n: NodeView) -> Seq<char> {
    let prefix: Seq<char> = match n.within_special_tag {
        Some(l) => if has_blockquote(l) {
            "> "@
        } else {
            Seq::empty()
        },
        None => Seq::empty(),
    };
    let value: Seq<char> = match n.value {
        Some(t) => t,
        None => Seq::empty(),
    };
    prefix + value
}

/// The destination part of a rendered link: wrapped in angle brackets
/// when the decoded destination contains a space.
pub open spec fn link_tail(link: Seq<char>) -> Seq<char> {
    if exists|i: int| 0 <= i < link.len() && link[i] == ' ' {
        "](<"@ + link + ">)"@
    } else {
        "]("@ + link + ")"@
    }
}

// ---------------------------------------------------------------------------
// The rendering specification
// ---------------------------------------------------------------------------

/// What a node renders to under the given ignore list.
pub open spec fn md_node(n: NodeView, ignore: Seq<NodeTypeView>) -> Seq<char>
    decreases n, 0int,
{
    match n.tag_name {
        None => md_children(n.children, ignore, 0),
        Some(k) => {
            if kind_ignored(k, ignore) {
                Seq::empty()
            } else {
                match k {
                    NodeTypeView::H1 => "# "@ + md_children(n.children, ignore, 0) + "\n"@,
                    NodeTypeView::H2 => "## "@ + md_children(n.children, ignore, 0) + "\n"@,
                    NodeTypeView::H3 => "### "@ + md_children(n.children, ignore, 0) + "\n"@,
                    NodeTypeView::H4 => "#### "@ + md_children(n.children, ignore, 0) + "\n"@,
                    NodeTypeView::H5 => "##### "@ + md_children(n.children, ignore, 0) + "\n"@,
                    NodeTypeView::H6 => "###### "@ + md_children(n.children, ignore, 0) + "\n"@,
                    NodeTypeView::Strong => "**"@ + md_children(n.children, ignore, 0) + "**"@,
                    NodeTypeView::Em => "*"@ + md_children(n.children, ignore, 0) + "*"@,
                    NodeTypeView::A => match href_text(n.attributes) {
                        Some(h) => "["@ + md_children(n.children, ignore, 0) + link_tail(
                            decoded_href(h),
                        ),
                        None => "["@ + md_children(n.children, ignore, 0) + "]"@,
                    },
                    NodeTypeView::Ul => md_ul_items(n.children, 0),
                    NodeTypeView::Ol => md_ol_items(n.children, 0, ol_start(n.attributes)),
                    NodeTypeView::Li => md_children(n.children, ignore, 0) + (if has_p_child(
                        n.children,
                    ) {
                        Seq::<char>::empty()
                    } else {
                        "\n"@
                    }),
                    NodeTypeView::P => if n.children.len() == 0 {
                        Seq::empty()
                    } else {
                        md_children(n.children, ignore, 0) + "\n"@
                    },
                    NodeTypeView::Code => code_head(n.attributes) + md_children(
                        n.children,
                        ignore,
                        0,
                    ) + "```\n"@,
                    NodeTypeView::Hr => "***\n"@,
                    NodeTypeView::Br => "  \n"@,
                    NodeTypeView::Text => text_out(n),
                    NodeTypeView::Title => Seq::empty(),
                    NodeTypeView::Comment => "<!--"@ + (match n.value {
                        Some(t) => t,
                        None => Seq::<char>::empty(),
                    }) + "-->"@,
                    NodeTypeView::Unknown(t) => "<"@ + t + ">"@ + md_children(
                        n.children,
                        ignore,
                        0,
                    ) + "</"@ + t + ">"@,
                    _ => md_children(n.children, ignore, 0),
                }
            }
        },
    }
}

/// What the children from position `from` on render to, concatenated.
pub open spec fn md_children(cs: Seq<NodeView>, ignore: Seq<NodeTypeView>, from: int) -> Seq<char>
    decreases cs, 1int, cs.len() - from,
{
    if from < 0 || from >= cs.len() {
        Seq::empty()
    } else {
        md_node(cs[from], ignore) + md_children(cs, ignore, from + 1)
    }
}

/// What the items of an unordered list render to: each child is indented
/// by its own list depth, prefixed with a dash, and rendered under the
/// default configuration.
pub open spec fn md_ul_items(cs: Seq<NodeView>, from: int) -> Seq<char>
    decreases cs, 1int, cs.len() - from,
{
    if from < 0 || from >= cs.len() {
        Seq::empty()
    } else {
        leading_spaces_s(cs[from].within_special_tag) + "- "@ + md_node(cs[from], Seq::empty())
            + md_ul_items(cs, from + 1)
    }
}

/// What the items of an ordered list render to: like the unordered case,
/// but numbered from `counter` upward.
pub open spec fn md_ol_items(cs: Seq<NodeView>, from: int, counter: int) -> Seq<char>
    decreases cs, 1int, cs.len() - from,
{
    if from < 0 || from >= cs.len() {
        Seq::empty()
    } else {
        leading_spaces_s(cs[from].within_special_tag) + dec_str(counter) + ". "@ + md_node(
            cs[from],
            Seq::empty(),
        ) + md_ol_items(cs, from + 1, counter + 1)
    }
}


/// A kind listed in the ignore configuration contributes no output at
/// all: the node and its whole subtree render as the empty string, and
/// its children are never consulted.
pub proof fn lemma_ignored_kind_renders_nothing(n: NodeView, ignore: Seq<NodeTypeView>)
    requires
        n.tag_name is Some,
        kind_ignored(n.tag_name->0, ignore),
    ensures
        md_node(n, ignore) == Seq::<char>::empty(),
{
}

// ---------------------------------------------------------------------------
// The renderer
// ---------------------------------------------------------------------------

/// Concatenates a literal head, a rendered body and a literal tail.
fn wrap3(head: &str, body: String, tail: &str) -> (r: String)
    ensures
        r@ == head@ + body@ + tail@,
{
    let mut out: String = String::from_str(head);
    out.append(body.as_str());
    out.append(tail);
    proof {
        assert(out@ =~= head@ + body@ + tail@);
    }
    out
}

/// Whether the configuration suppresses `k`.
fn kind_in_config(config: &ToMdConfig, k: &NodeType) -> (r: bool)
    ensures
        r == kind_ignored(k@, config@),
{
    let n: usize = config.ignore_rendering.len();
    let mut i: usize = 0;
    while i < n
        invariant
            0 <= i <= n,
            n == config.ignore_rendering@.len(),
            forall|j: int| 0 <= j < i ==> kinds_view(config.ignore_rendering@)[j] != k@,
        decreases n - i,
    {
        if crate::structs::kind_eq(&config.ignore_rendering[i], k) {
            assert(kinds_view(config.ignore_rendering@)[i as int] == k@);
            return true;
        }
        i = i + 1;
    }
    proof {
        assert(!kind_ignored(k@, config@));
    }
    false
}

/// Whether any entry of `w` is a blockquote.
fn has_blockquote_exec(w: &Vec<NodeType>) -> (r: bool)
    ensures
        r == has_blockquote(kinds_view(w@)),
{
    let n: usize = w.len();
    let mut i: usize = 0;
    while i < n
        invariant
            0 <= i <= n,
            n == w@.len(),
            forall|j: int| 0 <= j < i ==> !(kinds_view(w@)[j] is Blockquote),
        decreases n - i,
    {
        if matches!(&w[i], NodeType::Blockquote) {
            assert(kinds_view(w@)[i as int] is Blockquote);
            return true;
        }
        i = i + 1;
    }
    proof {
        assert(!has_blockquote(kinds_view(w@)));
    }
    false
}

/// Whether some child is a paragraph.
fn has_p_child_exec(cs: &Vec<Node>) -> (r: bool)
    ensures
        r == has_p_child(nodes_view(cs@)),
{
    let n: usize = cs.len();
    let mut i: usize = 0;
    while i < n
        invariant
            0 <= i <= n,
            n == cs@.len(),
            forall|j: int| 0 <= j < i ==> nodes_view(cs@)[j].tag_name != Some(NodeTypeView::P),
        decreases n - i,
    {
        let is_p: bool = match &cs[i].tag_name {
            Some(k) => matches!(k, NodeType::P),
            None => false,
        };
        proof {
            assert(nodes_view(cs@)[i as int] == node_view(cs@[i as int]));
        }
        if is_p {
            assert(nodes_view(cs@)[i as int].tag_name == Some(NodeTypeView::P));
            return true;
        }
        i = i + 1;
    }
    proof {
        assert(!has_p_child(nodes_view(cs@)));
    }
    false
}

/// Finds the code-fence language in a `class` value, as
/// [`lang_token_from`] states.
fn lang_token_exec(v: &Vec<char>) -> (r: Option<String>)
    ensures
        r is Some <==> lang_token_from(v@, 0) is Some,
        r is Some ==> lang_token_from(v@, 0) == Some(r->0@),
{
    let n: usize = v.len();
    let mut j: usize = 0;
    while j < n
        invariant
            0 <= j <= n,
            n == v@.len(),
            lang_token_from(v@, 0) == lang_token_from(v@, j as int),
        decreases n - j,
    {
        if crate::chars::is_whitespace_char(v[j]) {
            j = j + 1;
        } else {
            let e: usize = match crate::parser::find_ws_exec(v, j, n) {
                Some(w) => w,
                None => n,
            };
            proof {
                lemma_find_ws_in(v@, j as int, n as int);
                assert(token_end(v@, j as int) == e as int);
            }
            if e - j >= 9 && crate::parser::starts_lit(v, j, "language-") {
                proof {
                    reveal_strlit("language-");
                    assert(v@.subrange(j as int, e as int).subrange(0, 9) =~= v@.subrange(
                        j as int,
                        j + 9,
                    ));
                    assert(v@.subrange(j as int, e as int).skip(9) =~= v@.subrange(j + 9, e as int));
                }
                return Some(string_from_range(v, j + 9, e));
            }
            proof {
                reveal_strlit("language-");
                let tok = v@.subrange(j as int, e as int);
                if tok.len() >= 9 && tok.subrange(0, 9) == "language-"@ {
                    assert(v@.subrange(j as int, j + 9) =~= tok.subrange(0, 9));
                }
            }
            j = e;
        }
    }
    None
}

/// Where the ordered list starts counting, as [`ol_start`] states.
fn ol_start_exec(attrs: &Option<Attributes>) -> (r: u128)
    ensures
        r as int == ol_start(crate::structs::opt_attrs_view(*attrs)),
        r <= usize::MAX as u128,
{
    match attrs {
        Some(a) => {
            match a.get("start") {
                Some(AttributeValues::String(st)) => {
                    let cs: Vec<char> = str_chars(st.as_str());
                    match crate::chars::parse_usize_chars(&cs) {
                        Some(k) => k as u128,
                        None => 1,
                    }
                },
                Some(AttributeValues::Number(k)) => {
                    if k >= 0 {
                        k as u128
                    } else {
                        1
                    }
                },
                Some(AttributeValues::Bool(_)) => 1,
                None => 1,
            }
        },
        None => 1,
    }
}

/// Renders one node, as [`md_node`] states.
#[verifier::rlimit(100)]
fn render_node(node: &Node, config: &ToMdConfig) -> (out: String)
    ensures
        out@ == md_node(node_view(*node), config@),
    decreases *node, 0int,
{
    let ghost nv: NodeView = node_view(*node);
    match &node.tag_name {
        None => render_children(&node.children, config),
        Some(k) => {
            if kind_in_config(config, k) {
                String::new()
            } else {
                match k {
                    NodeType::H1 => wrap3("# ", render_children(&node.children, config), "\n"),
                    NodeType::H2 => wrap3("## ", render_children(&node.children, config), "\n"),
                    NodeType::H3 => wrap3("### ", render_children(&node.children, config), "\n"),
                    NodeType::H4 => wrap3("#### ", render_children(&node.children, config), "\n"),
                    NodeType::H5 => wrap3("##### ", render_children(&node.children, config), "\n"),
                    NodeType::H6 => wrap3("###### ", render_children(&node.children, config), "\n"),
                    NodeType::Strong => wrap3("**", render_children(&node.children, config), "**"),
                    NodeType::Em => wrap3("*", render_children(&node.children, config), "*"),
                    NodeType::A => {
                        let href_val: Option<AttributeValues> = match &node.attributes {
                            Some(a) => a.get("href"),
                            None => None,
                        };
                        match href_val {
                            Some(vv) => {
                                let h: String = vv.to_text();
                                let ghost hg: Seq<char> = h@;
                                let decoded: Option<String> = decode_percent_utf8(h.as_str());
                                let link: String = match decoded {
                                    Some(d) => d,
                                    None => h,
                                };
                                proof {
                                    assert(link@ == decoded_href(hg));
                                }
                                let lchars: Vec<char> = str_chars(link.as_str());
                                let has_space: bool = match crate::parser::find_char_exec(
                                    &lchars,
                                    0,
                                    ' ',
                                ) {
                                    Some(_) => true,
                                    None => false,
                                };
                                proof {
                                    crate::parser::lemma_find_char_from(link@, 0, ' ');
                                    assert(has_space == exists|t: int|
                                        0 <= t < link@.len() && link@[t] == ' ');
                                }
                                let body: String = render_children(&node.children, config);
                                let tail: String = if has_space {
                                    wrap3("](<", link, ">)")
                                } else {
                                    wrap3("](", link, ")")
                                };
                                let mut out: String = String::from_str("[");
                                out.append(body.as_str());
                                out.append(tail.as_str());
                                proof {
                                    assert(out@ =~= "["@ + body@ + link_tail(decoded_href(hg)));
                                }
                                out
                            },
                            None => wrap3("[", render_children(&node.children, config), "]"),
                        }
                    },
                    NodeType::Ul => render_ul_items(&node.children),
                    NodeType::Ol => {
                        let start: u128 = ol_start_exec(&node.attributes);
                        render_ol_items(&node.children, start)
                    },
                    NodeType::Li => {
                        let mut body: String = render_children(&node.children, config);
                        if has_p_child_exec(&node.children) {
                            body
                        } else {
                            body.append("\n");
                            body
                        }
                    },
                    NodeType::P => {
                        if node.children.len() == 0 {
                            String::new()
                        } else {
                            let mut body: String = render_children(&node.children, config);
                            body.append("\n");
                            body
                        }
                    },
                    NodeType::Code => {
                        let cls: Option<&String> = match &node.attributes {
                            Some(a) => a.get_class(),
                            None => None,
                        };
                        let lang_opt: Option<String> = match cls {
                            Some(c) => {
                                let cchars: Vec<char> = str_chars(c.as_str());
                                lang_token_exec(&cchars)
                            },
                            None => None,
                        };
                        let head: String = match lang_opt {
                            Some(lang) => {
                                let mut h: String = String::from_str("```");
                                h.append(lang.as_str());
                                h
                            },
                            None => String::from_str("```\n"),
                        };
                        proof {
                            assert(head@ == code_head(nv.attributes));
                        }
                        let body: String = render_children(&node.children, config);
                        let mut out: String = head;
                        out.append(body.as_str());
                        out.append("```\n");
                        proof {
                            assert(out@ =~= code_head(nv.attributes) + body@ + "```\n"@);
                        }
                        out
                    },
                    NodeType::Hr => String::from_str("***\n"),
                    NodeType::Br => String::from_str("  \n"),
                    NodeType::Text => {
                        let mut out: String = String::new();
                        let bq: bool = match &node.within_special_tag {
                            Some(w) => has_blockquote_exec(w),
                            None => false,
                        };
                        if bq {
                            out.append("> ");
                        }
                        match &node.value {
                            Some(t) => out.append(t.as_str()),
                            None => (),
                        }
                        proof {
                            assert(out@ =~= text_out(nv));
                        }
                        out
                    },
                    NodeType::Title => String::new(),
                    NodeType::Comment => {
                        let mut out: String = String::from_str("<!--");
                        match &node.value {
                            Some(t) => out.append(t.as_str()),
                            None => (),
                        }
                        out.append("-->");
                        proof {
                            assert(out@ =~= md_node(nv, config@));
                        }
                        out
                    },
                    NodeType::Unknown(t) => {
                        let head: String = wrap3("<", t.clone(), ">");
                        let tail: String = wrap3("</", t.clone(), ">");
                        let body: String = render_children(&node.children, config);
                        let mut out: String = head;
                        out.append(body.as_str());
                        out.append(tail.as_str());
                        proof {
                            assert(out@ =~= "<"@ + t@ + ">"@ + body@ + "</"@ + t@ + ">"@);
                        }
                        out
                    },
                    NodeType::Html | NodeType::Head | NodeType::Style | NodeType::Link
                        | NodeType::Script | NodeType::Meta | NodeType::Body | NodeType::Div
                        | NodeType::Pre | NodeType::Blockquote => render_children(
                        &node.children,
                        config,
                    ),
                }
            }
        },
    }
}

/// Renders all children in order, as [`md_children`] states.
#[verifier::rlimit(50)]
fn render_children(children: &Vec<Node>, config: &ToMdConfig) -> (out: String)
    ensures
        out@ == md_children(nodes_view(children@), config@, 0),
    decreases children@, 1int,
{
    let ghost cs: Seq<NodeView> = nodes_view(children@);
    let n: usize = children.len();
    let mut out: String = String::new();
    let mut i: usize = 0;
    while i < n
        invariant
            0 <= i <= n,
            n == children@.len(),
            cs == nodes_view(children@),
            md_children(cs, config@, 0) == out@ + md_children(cs, config@, i as int),
        decreases n - i,
    {
        proof {
            assert(decreases_to!(children@, 1int => children@[i as int], 0int));
        }
        let piece: String = render_node(&children[i], config);
        out.append(piece.as_str());
        proof {
            assert(cs[i as int] == node_view(children@[i as int]));
            assert(md_children(cs, config@, 0) =~= out@ + md_children(cs, config@, i + 1));
        }
        i = i + 1;
    }
    out
}

/// Renders the items of an unordered list, as [`md_ul_items`] states.
#[verifier::rlimit(50)]
fn render_ul_items(children: &Vec<Node>) -> (out: String)
    ensures
        out@ == md_ul_items(nodes_view(children@), 0),
    decreases children@, 1int,
{
    let ghost cs: Seq<NodeView> = nodes_view(children@);
    let n: usize = children.len();
    let mut out: String = String::new();
    let empty_cfg: ToMdConfig = ToMdConfig { ignore_rendering: Vec::new() };
    proof {
        assert(empty_cfg@ =~= Seq::<NodeTypeView>::empty());
    }
    let mut i: usize = 0;
    while i < n
        invariant
            0 <= i <= n,
            n == children@.len(),
            cs == nodes_view(children@),
            empty_cfg@ == Seq::<NodeTypeView>::empty(),
            md_ul_items(cs, 0) == out@ + md_ul_items(cs, i as int),
        decreases n - i,
    {
        proof {
            assert(decreases_to!(children@, 1int => children@[i as int], 0int));
        }
        let spaces: String = children[i].leading_spaces();
        out.append(spaces.as_str());
        out.append("- ");
        let body: String = render_node(&children[i], &empty_cfg);
        out.append(body.as_str());
        proof {
            assert(cs[i as int] == node_view(children@[i as int]));
            assert(md_ul_items(cs, 0) =~= out@ + md_ul_items(cs, i + 1));
        }
        i = i + 1;
    }
    out
}

/// Renders the items of an ordered list numbered from `start`, as
/// [`md_ol_items`] states.
#[verifier::rlimit(50)]
fn render_ol_items(children: &Vec<Node>, start: u128) -> (out: String)
    requires
        start <= usize::MAX as u128,
    ensures
        out@ == md_ol_items(nodes_view(children@), 0, start as int),
    decreases children@, 1int,
{
    let ghost cs: Seq<NodeView> = nodes_view(children@);
    let n: usize = children.len();
    let mut out: String = String::new();
    let empty_cfg: ToMdConfig = ToMdConfig { ignore_rendering: Vec::new() };
    proof {
        assert(empty_cfg@ =~= Seq::<NodeTypeView>::empty());
    }
    let mut counter: u128 = start;
    let mut i: usize = 0;
    while i < n
        invariant
            0 <= i <= n,
            n == children@.len(),
            cs == nodes_view(children@),
            empty_cfg@ == Seq::<NodeTypeView>::empty(),
            start <= usize::MAX as u128,
            counter == start + i as u128,
            md_ol_items(cs, 0, start as int) == out@ + md_ol_items(cs, i as int, counter as int),
        decreases n - i,
    {
        proof {
            assert(decreases_to!(children@, 1int => children@[i as int], 0int));
        }
        let spaces: String = children[i].leading_spaces();
        out.append(spaces.as_str());
        let mut digits: Vec<char> = Vec::new();
        push_dec_u128(&mut digits, counter);
        crate::chars::append_chars(&mut out, &digits);
        out.append(". ");
        let body: String = render_node(&children[i], &empty_cfg);
        out.append(body.as_str());
        proof {
            assert(cs[i as int] == node_view(children@[i as int]));
            assert(md_ol_items(cs, 0, start as int) =~= out@ + md_ol_items(
                cs,
                i + 1,
                counter + 1,
            ));
        }
        counter = counter + 1;
        i = i + 1;
    }
    out
}

// ---------------------------------------------------------------------------
// The public entry points
// ---------------------------------------------------------------------------

/// Converts a node tree to Markdown under the default configuration.
pub fn to_md(node: Node) -> (r: String)
    ensures
        r@ == md_node(node_view(node), Seq::<NodeTypeView>::empty()),
{
    let cfg: ToMdConfig = ToMdConfig { ignore_rendering: Vec::new() };
    proof {
        assert(cfg@ =~= Seq::<NodeTypeView>::empty());
    }
    to_md_with_config(node, &cfg)
}

/// Converts a node tree to Markdown, suppressing the kinds the
/// configuration lists.
pub fn to_md_with_config(node: Node, config: &ToMdConfig) -> (r: String)
    ensures
        r@ == md_node(node_view(node), config@),
{
    render_node(&node, config)
}

/// Converts a string of HTML to Markdown. Deprecated in favour of
/// [`safe_from_html_to_md`]: this entry point requires the input to be
/// well formed.
pub fn from_html_to_md(input: String) -> (r: String)
    requires
        spec_parse(input@) is Ok,
    ensures
        r@ == md_node(spec_parse(input@)->Ok_0, Seq::<NodeTypeView>::empty()),
{
    to_md(crate::parser::parse_html(input))
}

/// Converts a string of HTML to Markdown, or reports the first malformed
/// construct.
pub fn safe_from_html_to_md(input: String) -> (r: Result<String, ParseHTMLError>)
    ensures
        spec_parse(input@) is Ok ==> r is Ok && r->Ok_0@ == md_node(
            spec_parse(input@)->Ok_0,
            Seq::<NodeTypeView>::empty(),
        ),
        spec_parse(input@) is Err ==> r is Err && r->Err_0@ == spec_parse(input@)->Err_0,
{
    match crate::parser::safe_parse_html(input) {
        Ok(node) => Ok(to_md(node)),
        Err(e) => Err(e),
    }
}

/// Converts a string of HTML to Markdown under a custom configuration, or
/// reports the first malformed construct.
pub fn safe_from_html_to_md_with_config(input: String, config: &ToMdConfig) -> (r: Result<
    String,
    ParseHTMLError,
>)
    ensures
        spec_parse(input@) is Ok ==> r is Ok && r->Ok_0@ == md_node(
            spec_parse(input@)->Ok_0,
            config@,
        ),
        spec_parse(input@) is Err ==> r is Err && r->Err_0@ == spec_parse(input@)->Err_0,
{
    match crate::parser::safe_parse_html(input) {
        Ok(node) => Ok(to_md_with_config(node, config)),
        Err(e) => Err(e),
    }
}

} // verus!
