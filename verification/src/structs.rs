//! The data model: node kinds, tree nodes, attributes and the rendering
//! configuration, together with the ghost views that contracts speak of.

use crate::chars::{dec_str_signed, push_dec_i32, str_chars, str_eq, string_from_range};
use vstd::prelude::*;

verus! {

// ---------------------------------------------------------------------------
// Node kinds
// ---------------------------------------------------------------------------

/// The kinds of HTML elements that the library gives first-class treatment;
/// any other tag name is carried through as `Unknown`.
#[derive(Debug, PartialEq, Eq)]
pub enum NodeType {
    Html,
    Head,
    Style,
    Link,
    Script,
    Meta,
    Title,
    Body,
    H1,
    H2,
    H3,
    H4,
    H5,
    H6,
    P,
    Div,
    Strong,
    Em,
    A,
    Ul,
    Ol,
    Li,
    Pre,
    Code,
    Hr,
    Br,
    Blockquote,
    Text,
    Comment,
    Unknown(String),
}

/// Ghost mirror of [`NodeType`]: the `Unknown` tag name becomes a character
/// sequence.
#[verifier::ext_equal]
pub ghost enum NodeTypeView {
    Html,
    Head,
    Style,
    Link,
    Script,
    Meta,
    Title,
    Body,
    H1,
    H2,
    H3,
    H4,
    H5,
    H6,
    P,
    Div,
    Strong,
    Em,
    A,
    Ul,
    Ol,
    Li,
    Pre,
    Code,
    Hr,
    Br,
    Blockquote,
    Text,
    Comment,
    Unknown(Seq<char>),
}

impl View for NodeType {
    type V = NodeTypeView;

    open spec fn view(&self) -> NodeTypeView {
        match self {
            NodeType::Html => NodeTypeView::Html,
            NodeType::Head => NodeTypeView::Head,
            NodeType::Style => NodeTypeView::Style,
            NodeType::Link => NodeTypeView::Link,
            NodeType::Script => NodeTypeView::Script,
            NodeType::Meta => NodeTypeView::Meta,
            NodeType::Title => NodeTypeView::Title,
            NodeType::Body => NodeTypeView::Body,
            NodeType::H1 => NodeTypeView::H1,
            NodeType::H2 => NodeTypeView::H2,
            NodeType::H3 => NodeTypeView::H3,
            NodeType::H4 => NodeTypeView::H4,
            NodeType::H5 => NodeTypeView::H5,
            NodeType::H6 => NodeTypeView::H6,
            NodeType::P => NodeTypeView::P,
            NodeType::Div => NodeTypeView::Div,
            NodeType::Strong => NodeTypeView::Strong,
            NodeType::Em => NodeTypeView::Em,
            NodeType::A => NodeTypeView::A,
            NodeType::Ul => NodeTypeView::Ul,
            NodeType::Ol => NodeTypeView::Ol,
            NodeType::Li => NodeTypeView::Li,
            NodeType::Pre => NodeTypeView::Pre,
            NodeType::Code => NodeTypeView::Code,
            NodeType::Hr => NodeTypeView::Hr,
            NodeType::Br => NodeTypeView::Br,
            NodeType::Blockquote => NodeTypeView::Blockquote,
            NodeType::Text => NodeTypeView::Text,
            NodeType::Comment => NodeTypeView::Comment,
            NodeType::Unknown(s) => NodeTypeView::Unknown(s@),
        }
    }
}

/// A kind whose presence as an ancestor changes how descendants render.
pub open spec fn special_kind(k: NodeTypeView) -> bool {
    k is Blockquote || k is Ul || k is Ol
}

/// ASCII lowercasing of one character.
pub open spec fn lower_char(c: char) -> char {
    if 0x41 <= c as u32 && c as u32 <= 0x5a {
        ((c as u32 + 0x20) as u8) as char
    } else {
        c
    }
}

/// ASCII lowercasing of a character sequence.
pub open spec fn lower_seq(s: Seq<char>) -> Seq<char> {
    Seq::new(s.len(), |i: int| lower_char(s[i]))
}

/// What `str::to_lowercase` returns on text that is not all ASCII; the
/// result depends on the characters alone.
pub uninterp spec fn lower_of_non_ascii(s: Seq<char>) -> Seq<char>;

/// What `str::to_lowercase` returns: on ASCII text exactly the ASCII
/// lowercasing, elsewhere the named result of that call.
pub open spec fn lower_of(s: Seq<char>) -> Seq<char> {
    if crate::chars::all_ascii(s) {
        lower_seq(s)
    } else {
        lower_of_non_ascii(s)
    }
}

/// Relies on `str::to_lowercase`: the result is a function of the
/// characters alone, and an ASCII string lowercases exactly as
/// [`lower_seq`] states, `A`..`Z` mapping to `a`..`z` and every other
/// character unchanged.
#[verifier::external_body]
fn to_lowercase_str(s: &str) -> (r: String)
    ensures
        r@ == (if crate::chars::all_ascii(s@) {
            lower_seq(s@)
        } else {
            lower_of_non_ascii(s@)
        }),
{
    s.to_lowercase()
}

/// The kind that a (already lowercased) tag name denotes.
#[verifier::opaque]
pub open spec fn classify_lowered(l: Seq<char>) -> NodeTypeView {
    if l == "html"@ {
        NodeTypeView::Html
    } else if l == "head"@ {
        NodeTypeView::Head
    } else if l == "style"@ {
        NodeTypeView::Style
    } else if l == "link"@ {
        NodeTypeView::Link
    } else if l == "script"@ {
        NodeTypeView::Script
    } else if l == "meta"@ {
        NodeTypeView::Meta
    } else if l == "title"@ {
        NodeTypeView::Title
    } else if l == "body"@ {
        NodeTypeView::Body
    } else if l == "h1"@ {
        NodeTypeView::H1
    } else if l == "h2"@ {
        NodeTypeView::H2
    } else if l == "h3"@ {
        NodeTypeView::H3
    } else if l == "h4"@ {
        NodeTypeView::H4
    } else if l == "h5"@ {
        NodeTypeView::H5
    } else if l == "h6"@ {
        NodeTypeView::H6
    } else if l == "p"@ {
        NodeTypeView::P
    } else if l == "div"@ {
        NodeTypeView::Div
    } else if l == "strong"@ {
        NodeTypeView::Strong
    } else if l == "em"@ {
        NodeTypeView::Em
    } else if l == "a"@ {
        NodeTypeView::A
    } else if l == "ul"@ {
        NodeTypeView::Ul
    } else if l == "ol"@ {
        NodeTypeView::Ol
    } else if l == "li"@ {
        NodeTypeView::Li
    } else if l == "pre"@ {
        NodeTypeView::Pre
    } else if l == "code"@ {
        NodeTypeView::Code
    } else if l == "hr"@ {
        NodeTypeView::Hr
    } else if l == "br"@ {
        NodeTypeView::Br
    } else if l == "blockquote"@ {
        NodeTypeView::Blockquote
    } else {
        NodeTypeView::Unknown(l)
    }
}

/// The kind denoted by a raw tag name: its lowercasing, classified.
pub open spec fn classify(s: Seq<char>) -> NodeTypeView {
    classify_lowered(lower_of(s))
}

impl NodeType {
    /// Whether this kind is one of the special ancestors (`Blockquote`,
    /// `Ul`, `Ol`).
    pub fn is_special_tag(&self) -> (r: bool)
        ensures
            r == special_kind(self@),
    {
        matches!(self, NodeType::Blockquote | NodeType::Ul | NodeType::Ol)
    }

    /// Classifies a raw tag name, lowercasing it first; names outside the
    /// known set yield `Unknown` carrying the lowercased name.
    pub fn from_tag_str(input: &str) -> (r: NodeType)
        ensures
            r@ == classify(input@),
    {
        let lowered: String = to_lowercase_str(input);
        let chars: Vec<char> = str_chars(lowered.as_str());
        kind_of_lowered(chars)
    }
}

/// Maps an already lowercased tag name to its kind.
fn kind_of_lowered(lowered: Vec<char>) -> (r: NodeType)
    ensures
        r@ == classify_lowered(lowered@),
{
    proof {
        reveal(classify_lowered);
    }
    if chars_eq_str(&lowered, "html") {
        NodeType::Html
    } else if chars_eq_str(&lowered, "head") {
        NodeType::Head
    } else if chars_eq_str(&lowered, "style") {
        NodeType::Style
    } else if chars_eq_str(&lowered, "link") {
        NodeType::Link
    } else if chars_eq_str(&lowered, "script") {
        NodeType::Script
    } else if chars_eq_str(&lowered, "meta") {
        NodeType::Meta
    } else if chars_eq_str(&lowered, "title") {
        NodeType::Title
    } else if chars_eq_str(&lowered, "body") {
        NodeType::Body
    } else if chars_eq_str(&lowered, "h1") {
        NodeType::H1
    } else if chars_eq_str(&lowered, "h2") {
        NodeType::H2
    } else if chars_eq_str(&lowered, "h3") {
        NodeType::H3
    } else if chars_eq_str(&lowered, "h4") {
        NodeType::H4
    } else if chars_eq_str(&lowered, "h5") {
        NodeType::H5
    } else if chars_eq_str(&lowered, "h6") {
        NodeType::H6
    } else if chars_eq_str(&lowered, "p") {
        NodeType::P
    } else if chars_eq_str(&lowered, "div") {
        NodeType::Div
    } else if chars_eq_str(&lowered, "strong") {
        NodeType::Strong
    } else if chars_eq_str(&lowered, "em") {
        NodeType::Em
    } else if chars_eq_str(&lowered, "a") {
        NodeType::A
    } else if chars_eq_str(&lowered, "ul") {
        NodeType::Ul
    } else if chars_eq_str(&lowered, "ol") {
        NodeType::Ol
    } else if chars_eq_str(&lowered, "li") {
        NodeType::Li
    } else if chars_eq_str(&lowered, "pre") {
        NodeType::Pre
    } else if chars_eq_str(&lowered, "code") {
        NodeType::Code
    } else if chars_eq_str(&lowered, "hr") {
        NodeType::Hr
    } else if chars_eq_str(&lowered, "br") {
        NodeType::Br
    } else if chars_eq_str(&lowered, "blockquote") {
        NodeType::Blockquote
    } else {
        let n: usize = lowered.len();
        NodeType::Unknown(string_from_range(&lowered, 0, n))
    }
}

/// Decides whether a character vector holds the same characters as a string
/// slice.
pub fn chars_eq_str(v: &Vec<char>, s: &str) -> (r: bool)
    ensures
        r == (v@ == s@),
{
    let n: usize = s.unicode_len();
    if v.len() != n {
        assert(v@ != s@) by {
            assert(v@.len() != s@.len());
        }
        return false;
    }
    let mut i: usize = 0;
    while i < n
        invariant
            0 <= i <= n,
            n == s@.len(),
            n == v@.len(),
            forall|j: int| 0 <= j < i ==> v@[j] == s@[j],
        decreases n - i,
    {
        if v[i] != s.get_char(i) {
            return false;
        }
        i = i + 1;
    }
    proof {
        assert(v@ =~= s@);
    }
    true
}

/// Decides whether two kinds are the same, comparing `Unknown` names
/// character for character.
pub fn kind_eq(a: &NodeType, b: &NodeType) -> (r: bool)
    ensures
        r == (a@ == b@),
{
    match (a, b) {
        (NodeType::Html, NodeType::Html) => true,
        (NodeType::Head, NodeType::Head) => true,
        (NodeType::Style, NodeType::Style) => true,
        (NodeType::Link, NodeType::Link) => true,
        (NodeType::Script, NodeType::Script) => true,
        (NodeType::Meta, NodeType::Meta) => true,
        (NodeType::Title, NodeType::Title) => true,
        (NodeType::Body, NodeType::Body) => true,
        (NodeType::H1, NodeType::H1) => true,
        (NodeType::H2, NodeType::H2) => true,
        (NodeType::H3, NodeType::H3) => true,
        (NodeType::H4, NodeType::H4) => true,
        (NodeType::H5, NodeType::H5) => true,
        (NodeType::H6, NodeType::H6) => true,
        (NodeType::P, NodeType::P) => true,
        (NodeType::Div, NodeType::Div) => true,
        (NodeType::Strong, NodeType::Strong) => true,
        (NodeType::Em, NodeType::Em) => true,
        (NodeType::A, NodeType::A) => true,
        (NodeType::Ul, NodeType::Ul) => true,
        (NodeType::Ol, NodeType::Ol) => true,
        (NodeType::Li, NodeType::Li) => true,
        (NodeType::Pre, NodeType::Pre) => true,
        (NodeType::Code, NodeType::Code) => true,
        (NodeType::Hr, NodeType::Hr) => true,
        (NodeType::Br, NodeType::Br) => true,
        (NodeType::Blockquote, NodeType::Blockquote) => true,
        (NodeType::Text, NodeType::Text) => true,
        (NodeType::Comment, NodeType::Comment) => true,
        (NodeType::Unknown(x), NodeType::Unknown(y)) => str_eq(x.as_str(), y.as_str()),
        _ => false,
    }
}

impl Clone for NodeType {
    /// Clones the kind, preserving its view.
    fn clone(&self) -> (r: NodeType)
        ensures
            r@ == self@,
    {
        clone_kind(self)
    }
}

/// Copies a kind, preserving its view.
pub fn clone_kind(k: &NodeType) -> (r: NodeType)
    ensures
        r@ == k@,
{
    match k {
        NodeType::Html => NodeType::Html,
        NodeType::Head => NodeType::Head,
        NodeType::Style => NodeType::Style,
        NodeType::Link => NodeType::Link,
        NodeType::Script => NodeType::Script,
        NodeType::Meta => NodeType::Meta,
        NodeType::Title => NodeType::Title,
        NodeType::Body => NodeType::Body,
        NodeType::H1 => NodeType::H1,
        NodeType::H2 => NodeType::H2,
        NodeType::H3 => NodeType::H3,
        NodeType::H4 => NodeType::H4,
        NodeType::H5 => NodeType::H5,
        NodeType::H6 => NodeType::H6,
        NodeType::P => NodeType::P,
        NodeType::Div => NodeType::Div,
        NodeType::Strong => NodeType::Strong,
        NodeType::Em => NodeType::Em,
        NodeType::A => NodeType::A,
        NodeType::Ul => NodeType::Ul,
        NodeType::Ol => NodeType::Ol,
        NodeType::Li => NodeType::Li,
        NodeType::Pre => NodeType::Pre,
        NodeType::Code => NodeType::Code,
        NodeType::Hr => NodeType::Hr,
        NodeType::Br => NodeType::Br,
        NodeType::Blockquote => NodeType::Blockquote,
        NodeType::Text => NodeType::Text,
        NodeType::Comment => NodeType::Comment,
        NodeType::Unknown(s) => NodeType::Unknown(s.clone()),
    }
}

// ---------------------------------------------------------------------------
// Attribute values
// ---------------------------------------------------------------------------

/// The value carried by one attribute: explicit text, bare presence, or a
/// number.
#[derive(Debug, PartialEq, Eq)]
pub enum AttributeValues {
    /// An explicit, possibly quoted, textual value.
    String(String),
    /// A presence-only attribute.
    Bool(bool),
    /// A numeric value.
    Number(i32),
}

/// Ghost mirror of [`AttributeValues`].
#[verifier::ext_equal]
pub ghost enum AttributeValueView {
    Str(Seq<char>),
    Flag(bool),
    Num(int),
}

impl View for AttributeValues {
    type V = AttributeValueView;

    open spec fn view(&self) -> AttributeValueView {
        match self {
            AttributeValues::String(s) => AttributeValueView::Str(s@),
            AttributeValues::Bool(b) => AttributeValueView::Flag(*b),
            AttributeValues::Number(n) => AttributeValueView::Num(*n as int),
        }
    }
}

/// The text of an attribute value: explicit text as is, presence as
/// `true`/`false`, numbers in decimal.
pub open spec fn val_text(v: AttributeValueView) -> Seq<char> {
    match v {
        AttributeValueView::Str(s) => s,
        AttributeValueView::Flag(b) => if b {
            "true"@
        } else {
            "false"@
        },
        AttributeValueView::Num(n) => dec_str_signed(n),
    }
}

impl AttributeValues {
    /// The textual form of this value, as [`val_text`] states it.
    pub fn to_text(&self) -> (r: String)
        ensures
            r@ == val_text(self@),
    {
        match self {
            AttributeValues::String(s) => s.clone(),
            AttributeValues::Bool(b) => {
                if *b {
                    String::from_str("true")
                } else {
                    String::from_str("false")
                }
            },
            AttributeValues::Number(n) => {
                let mut digits: Vec<char> = Vec::new();
                push_dec_i32(&mut digits, *n);
                let len: usize = digits.len();
                string_from_range(&digits, 0, len)
            },
        }
    }

    /// Copies a value, preserving its view.
    pub fn duplicate(&self) -> (r: AttributeValues)
        ensures
            r@ == self@,
    {
        match self {
            AttributeValues::String(s) => AttributeValues::String(s.clone()),
            AttributeValues::Bool(b) => AttributeValues::Bool(*b),
            AttributeValues::Number(n) => AttributeValues::Number(*n),
        }
    }
}

impl Clone for AttributeValues {
    /// Clones the value, preserving its view.
    fn clone(&self) -> (r: AttributeValues)
        ensures
            r@ == self@,
    {
        self.duplicate()
    }
}

// ---------------------------------------------------------------------------
// Attributes
// ---------------------------------------------------------------------------

/// The attributes of one element. `id` and `class` are held apart from the
/// generic mapping; every other attribute sits in `attributes` in first
/// insertion order, each key at most once.
#[derive(Debug, PartialEq, Eq, Default)]
pub struct Attributes {
    pub(crate) id: Option<String>,
    pub(crate) class: Option<String>,
    pub(crate) attributes: Vec<(String, AttributeValues)>,
}

/// Ghost mirror of [`Attributes`].
#[verifier::ext_equal]
pub ghost struct AttributesView {
    pub id: Option<Seq<char>>,
    pub class: Option<Seq<char>>,
    pub attributes: Seq<(Seq<char>, AttributeValueView)>,
}

/// View of a list of attribute pairs.
pub open spec fn pairs_view(v: Seq<(String, AttributeValues)>) -> Seq<
    (Seq<char>, AttributeValueView),
> {
    Seq::new(v.len(), |i: int| (v[i].0@, v[i].1@))
}

impl View for Attributes {
    type V = AttributesView;

    closed spec fn view(&self) -> AttributesView {
        AttributesView {
            id: match self.id {
                Some(s) => Some(s@),
                None => None,
            },
            class: match self.class {
                Some(s) => Some(s@),
                None => None,
            },
            attributes: pairs_view(self.attributes@),
        }
    }
}

/// The value under the first occurrence of `k` in `pairs`, if any.
pub open spec fn pairs_lookup(
    pairs: Seq<(Seq<char>, AttributeValueView)>,
    k: Seq<char>,
) -> Option<AttributeValueView>
    decreases pairs.len(),
{
    if pairs.len() == 0 {
        None
    } else if pairs[0].0 == k {
        Some(pairs[0].1)
    } else {
        pairs_lookup(pairs.drop_first(), k)
    }
}

/// Replaces the value under the first occurrence of `k`, or appends the
/// binding if `k` is absent.
pub open spec fn pairs_insert(
    pairs: Seq<(Seq<char>, AttributeValueView)>,
    k: Seq<char>,
    v: AttributeValueView,
) -> Seq<(Seq<char>, AttributeValueView)>
    decreases pairs.len(),
{
    if pairs.len() == 0 {
        seq![(k, v)]
    } else if pairs[0].0 == k {
        seq![(k, v)] + pairs.drop_first()
    } else {
        seq![pairs[0]] + pairs_insert(pairs.drop_first(), k, v)
    }
}

impl AttributesView {
    /// The attribute set with nothing in it.
    pub open spec fn empty() -> AttributesView {
        AttributesView { id: None, class: None, attributes: Seq::empty() }
    }

    /// The value stored under `k`: `id` and `class` come from their
    /// dedicated fields, anything else from the generic mapping.
    pub open spec fn lookup(self, k: Seq<char>) -> Option<AttributeValueView> {
        if k == "id"@ {
            match self.id {
                Some(s) => Some(AttributeValueView::Str(s)),
                None => None,
            }
        } else if k == "class"@ {
            match self.class {
                Some(s) => Some(AttributeValueView::Str(s)),
                None => None,
            }
        } else {
            pairs_lookup(self.attributes, k)
        }
    }

    /// Stores `v` under `k`; an `id` or `class` key lands in its dedicated
    /// field as the value's text, and an existing key is overwritten.
    pub open spec fn insert_v(self, k: Seq<char>, v: AttributeValueView) -> AttributesView {
        if k == "id"@ {
            AttributesView { id: Some(val_text(v)), ..self }
        } else if k == "class"@ {
            AttributesView { class: Some(val_text(v)), ..self }
        } else {
            AttributesView { attributes: pairs_insert(self.attributes, k, v), ..self }
        }
    }

    /// No `id`, no `class`, and an empty mapping.
    pub open spec fn is_empty_v(self) -> bool {
        self.id is None && self.class is None && self.attributes.len() == 0
    }
}

/// View of an optional attribute value.
pub open spec fn opt_val_view(o: Option<AttributeValues>) -> Option<AttributeValueView> {
    match o {
        Some(v) => Some(v@),
        None => None,
    }
}

impl Attributes {
    /// Creates an empty attribute set.
    pub fn new() -> (r: Attributes)
        ensures
            r@ == AttributesView::empty(),
    {
        let r = Attributes { id: None, class: None, attributes: Vec::new() };
        proof {
            assert(r@ =~= AttributesView::empty());
        }
        r
    }

    /// Returns the value stored under `key`, if any.
    pub fn get(&self, key: &str) -> (r: Option<AttributeValues>)
        ensures
            opt_val_view(r) == self@.lookup(key@),
    {
        if str_eq(key, "id") {
            match &self.id {
                Some(s) => Some(AttributeValues::String(s.clone())),
                None => None,
            }
        } else if str_eq(key, "class") {
            match &self.class {
                Some(s) => Some(AttributeValues::String(s.clone())),
                None => None,
            }
        } else {
            let n: usize = self.attributes.len();
            let mut i: usize = 0;
            proof {
                assert(self@.attributes.skip(0) =~= self@.attributes);
            }
            while i < n
                invariant
                    0 <= i <= n,
                    n == self.attributes@.len(),
                    key@ != "id"@,
                    key@ != "class"@,
                    pairs_lookup(self@.attributes, key@) == pairs_lookup(
                        self@.attributes.skip(i as int),
                        key@,
                    ),
                    forall|j: int| 0 <= j < i ==> #[trigger] self@.attributes[j].0 != key@,
                decreases n - i,
            {
                proof {
                    assert(self@.attributes.skip(i as int)[0] == self@.attributes[i as int]);
                    assert(self@.attributes.skip(i as int).drop_first() =~= self@.attributes.skip(
                        i + 1,
                    ));
                }
                if str_eq(self.attributes[i].0.as_str(), key) {
                    let r = Some(self.attributes[i].1.duplicate());
                    proof {
                        assert(pairs_lookup(self@.attributes.skip(i as int), key@) == Some(
                            self@.attributes[i as int].1,
                        ));
                    }
                    return r;
                }
                i = i + 1;
            }
            proof {
                assert(self@.attributes.skip(n as int) =~= Seq::<
                    (Seq<char>, AttributeValueView),
                >::empty());
            }
            None
        }
    }

    /// Returns the `id` attribute, if any.
    pub fn get_id(&self) -> (r: Option<&String>)
        ensures
            r is Some <==> self@.id is Some,
            r is Some ==> r->0@ == self@.id->0,
    {
        self.id.as_ref()
    }

    /// Returns the `class` attribute, if any.
    pub fn get_class(&self) -> (r: Option<&String>)
        ensures
            r is Some <==> self@.class is Some,
            r is Some ==> r->0@ == self@.class->0,
    {
        self.class.as_ref()
    }

    /// Whether some value is stored under `key`.
    pub fn contains(&self, key: &str) -> (r: bool)
        ensures
            r == (self@.lookup(key@) is Some),
    {
        if str_eq(key, "id") {
            self.id.is_some()
        } else if str_eq(key, "class") {
            self.class.is_some()
        } else {
            let n: usize = self.attributes.len();
            let mut i: usize = 0;
            proof {
                assert(self@.attributes.skip(0) =~= self@.attributes);
            }
            while i < n
                invariant
                    0 <= i <= n,
                    n == self.attributes@.len(),
                    key@ != "id"@,
                    key@ != "class"@,
                    pairs_lookup(self@.attributes, key@) == pairs_lookup(
                        self@.attributes.skip(i as int),
                        key@,
                    ),
                decreases n - i,
            {
                proof {
                    assert(self@.attributes.skip(i as int)[0] == self@.attributes[i as int]);
                    assert(self@.attributes.skip(i as int).drop_first() =~= self@.attributes.skip(
                        i + 1,
                    ));
                }
                if str_eq(self.attributes[i].0.as_str(), key) {
                    proof {
                        assert(pairs_lookup(self@.attributes.skip(i as int), key@) == Some(
                            self@.attributes[i as int].1,
                        ));
                    }
                    return true;
                }
                i = i + 1;
            }
            proof {
                assert(self@.attributes.skip(n as int) =~= Seq::<
                    (Seq<char>, AttributeValueView),
                >::empty());
            }
            false
        }
    }

    /// Stores `value` under `key`, as [`AttributesView::insert_v`] states.
    pub fn insert(&mut self, key: String, value: AttributeValues)
        ensures
            final(self)@ == old(self)@.insert_v(key@, value@),
    {
        if str_eq(key.as_str(), "id") {
            self.id = Some(value.to_text());
            proof {
                assert(self@ =~= old(self)@.insert_v(key@, value@));
            }
        } else if str_eq(key.as_str(), "class") {
            self.class = Some(value.to_text());
            proof {
                assert(self@ =~= old(self)@.insert_v(key@, value@));
            }
        } else {
            let ghost kv: Seq<char> = key@;
            let ghost vv: AttributeValueView = value@;
            let n: usize = self.attributes.len();
            let mut i: usize = 0;
            while i < n
                invariant
                    0 <= i <= n,
                    n == self.attributes@.len(),
                    *self == *old(self),
                    kv == key@,
                    vv == value@,
                    kv != "id"@,
                    kv != "class"@,
                    forall|j: int| 0 <= j < i ==> #[trigger] self@.attributes[j].0 != kv,
                decreases n - i,
            {
                if str_eq(self.attributes[i].0.as_str(), key.as_str()) {
                    self.attributes[i] = (key, value);
                    proof {
                        lemma_pairs_insert_found(old(self)@.attributes, kv, vv, i as int);
                        assert(self@.attributes =~= old(self)@.attributes.update(
                            i as int,
                            (kv, vv),
                        ));
                        assert(self@ =~= old(self)@.insert_v(kv, vv));
                    }
                    return;
                }
                i = i + 1;
            }
            self.attributes.push((key, value));
            proof {
                lemma_pairs_insert_absent(old(self)@.attributes, kv, vv);
                assert(self@.attributes =~= old(self)@.attributes.push((kv, vv)));
                assert(self@ =~= old(self)@.insert_v(kv, vv));
            }
        }
    }

    /// Whether the element carries no attribute at all.
    pub fn is_empty(&self) -> (r: bool)
        ensures
            r == self@.is_empty_v(),
    {
        self.id.is_none() && self.class.is_none() && self.attributes.is_empty()
    }

    /// Builds an attribute set by inserting the pairs of `vec` in order.
    pub fn from(vec: Vec<(String, AttributeValues)>) -> (r: Attributes)
        ensures
            r@ == pairs_to_attrs(pairs_view(vec@)),
    {
        let mut attributes = Attributes::new();
        let n: usize = vec.len();
        let ghost pairs: Seq<(Seq<char>, AttributeValueView)> = pairs_view(vec@);
        let mut i: usize = 0;
        while i < n
            invariant
                0 <= i <= n,
                n == vec@.len(),
                pairs == pairs_view(vec@),
                attributes@ == pairs_to_attrs(pairs.take(i as int)),
            decreases n - i,
        {
            let key: String = vec[i].0.clone();
            let value: AttributeValues = vec[i].1.duplicate();
            attributes.insert(key, value);
            proof {
                assert(pairs.take(i + 1).drop_last() =~= pairs.take(i as int));
                assert(pairs.take(i + 1).last() == pairs[i as int]);
            }
            i = i + 1;
        }
        proof {
            assert(pairs.take(n as int) =~= pairs);
        }
        attributes
    }
}

impl Clone for Attributes {
    /// Clones the attribute set, preserving its view.
    fn clone(&self) -> (r: Attributes)
        ensures
            r@ == self@,
    {
        let id2: Option<String> = match &self.id {
            Some(t) => Some(t.clone()),
            None => None,
        };
        let class2: Option<String> = match &self.class {
            Some(t) => Some(t.clone()),
            None => None,
        };
        let n: usize = self.attributes.len();
        let mut pairs: Vec<(String, AttributeValues)> = Vec::new();
        let mut i: usize = 0;
        while i < n
            invariant
                0 <= i <= n,
                n == self.attributes@.len(),
                pairs@.len() == i,
                forall|j: int|
                    0 <= j < i ==> #[trigger] pairs_view(pairs@)[j] == pairs_view(
                        self.attributes@,
                    )[j],
            decreases n - i,
        {
            let key: String = self.attributes[i].0.clone();
            let value: AttributeValues = self.attributes[i].1.duplicate();
            let ghost kv: Seq<char> = key@;
            let ghost vv: AttributeValueView = value@;
            let ghost pairs0: Seq<(String, AttributeValues)> = pairs@;
            pairs.push((key, value));
            proof {
                assert(pairs_view(pairs@)[i as int] == (kv, vv));
                assert forall|j: int| 0 <= j < i implies #[trigger] pairs_view(pairs@)[j]
                    == pairs_view(self.attributes@)[j] by {
                    assert(pairs@[j] == pairs0[j]);
                    assert(pairs_view(pairs0)[j] == pairs_view(self.attributes@)[j]);
                }
            }
            i = i + 1;
        }
        let r = Attributes { id: id2, class: class2, attributes: pairs };
        proof {
            assert(r@ =~= self@);
        }
        r
    }
}

/// Folds a pair list into an attribute set by inserting left to right.
pub open spec fn pairs_to_attrs(pairs: Seq<(Seq<char>, AttributeValueView)>) -> AttributesView
    decreases pairs.len(),
{
    if pairs.len() == 0 {
        AttributesView::empty()
    } else {
        pairs_to_attrs(pairs.drop_last()).insert_v(pairs.last().0, pairs.last().1)
    }
}

proof fn lemma_pairs_insert_found(
    pairs: Seq<(Seq<char>, AttributeValueView)>,
    k: Seq<char>,
    v: AttributeValueView,
    i: int,
)
    requires
        0 <= i < pairs.len(),
        pairs[i].0 == k,
        forall|j: int| 0 <= j < i ==> #[trigger] pairs[j].0 != k,
    ensures
        pairs_insert(pairs, k, v) == pairs.update(i, (k, v)),
    decreases pairs.len(),
{
    if i == 0 {
        assert(pairs_insert(pairs, k, v) =~= pairs.update(0, (k, v)));
    } else {
        assert(forall|j: int| 0 <= j < i - 1 ==> #[trigger] pairs.drop_first()[j].0 != k);
        lemma_pairs_insert_found(pairs.drop_first(), k, v, i - 1);
        assert(pairs_insert(pairs, k, v) =~= pairs.update(i, (k, v)));
    }
}

proof fn lemma_pairs_insert_absent(
    pairs: Seq<(Seq<char>, AttributeValueView)>,
    k: Seq<char>,
    v: AttributeValueView,
)
    requires
        forall|j: int| 0 <= j < pairs.len() ==> #[trigger] pairs[j].0 != k,
    ensures
        pairs_insert(pairs, k, v) == pairs.push((k, v)),
    decreases pairs.len(),
{
    if pairs.len() == 0 {
        assert(pairs_insert(pairs, k, v) =~= pairs.push((k, v)));
    } else {
        assert(forall|j: int|
            0 <= j < pairs.len() - 1 ==> #[trigger] pairs.drop_first()[j].0 != k);
        lemma_pairs_insert_absent(pairs.drop_first(), k, v);
        assert(pairs_insert(pairs, k, v) =~= pairs.push((k, v)));
    }
}

// ---------------------------------------------------------------------------
// Nodes
// ---------------------------------------------------------------------------

/// A node of the parsed tree.
#[derive(Debug, PartialEq, Eq, Default)]
pub struct Node {
    /// The node's kind; `None` only for the synthetic wrapper around several
    /// top-level roots.
    pub tag_name: Option<NodeType>,
    /// Literal text, held only by `Text` and `Comment` nodes.
    pub value: Option<String>,
    /// The attributes written on the source tag, if any.
    pub attributes: Option<Attributes>,
    /// The special ancestors enclosing this node, outermost first.
    pub within_special_tag: Option<Vec<NodeType>>,
    /// The children, in document order.
    pub children: Vec<Node>,
}

/// Ghost mirror of [`Node`].
#[verifier::ext_equal]
pub ghost struct NodeView {
    pub tag_name: Option<NodeTypeView>,
    pub value: Option<Seq<char>>,
    pub attributes: Option<AttributesView>,
    pub within_special_tag: Option<Seq<NodeTypeView>>,
    pub children: Seq<NodeView>,
}

/// View of an optional kind.
pub open spec fn opt_kind_view(o: Option<NodeType>) -> Option<NodeTypeView> {
    match o {
        Some(k) => Some(k@),
        None => None,
    }
}

/// View of an optional string.
pub open spec fn opt_str_view(o: Option<String>) -> Option<Seq<char>> {
    match o {
        Some(s) => Some(s@),
        None => None,
    }
}

/// View of an optional attribute set.
pub open spec fn opt_attrs_view(o: Option<Attributes>) -> Option<AttributesView> {
    match o {
        Some(a) => Some(a@),
        None => None,
    }
}

/// View of a kind list.
pub open spec fn kinds_view(ks: Seq<NodeType>) -> Seq<NodeTypeView> {
    Seq::new(ks.len(), |i: int| ks[i]@)
}

/// View of an optional kind list.
pub open spec fn opt_kinds_view(o: Option<Vec<NodeType>>) -> Option<Seq<NodeTypeView>> {
    match o {
        Some(v) => Some(kinds_view(v@)),
        None => None,
    }
}

/// Recursive view of a node.
pub open spec fn node_view(n: Node) -> NodeView
    decreases n,
{
    NodeView {
        tag_name: opt_kind_view(n.tag_name),
        value: opt_str_view(n.value),
        attributes: opt_attrs_view(n.attributes),
        within_special_tag: opt_kinds_view(n.within_special_tag),
        children: nodes_view(n.children@),
    }
}

/// View of a node list.
pub open spec fn nodes_view(ns: Seq<Node>) -> Seq<NodeView>
    decreases ns,
{
    if ns.len() == 0 {
        Seq::empty()
    } else {
        nodes_view(ns.drop_last()).push(node_view(ns.last()))
    }
}

/// A node list and its view have the same length.
pub broadcast proof fn lemma_nodes_view_len(ns: Seq<Node>)
    ensures
        #[trigger] nodes_view(ns).len() == ns.len(),
    decreases ns,
{
    if ns.len() > 0 {
        lemma_nodes_view_len(ns.drop_last());
    }
}

/// The view of a node list views each node in place.
pub broadcast proof fn lemma_nodes_view_index(ns: Seq<Node>, i: int)
    requires
        0 <= i < ns.len(),
    ensures
        #[trigger] nodes_view(ns)[i] == node_view(ns[i]),
    decreases ns,
{
    lemma_nodes_view_len(ns);
    if ns.len() > 0 && i < ns.len() - 1 {
        lemma_nodes_view_len(ns.drop_last());
        lemma_nodes_view_index(ns.drop_last(), i);
    }
}

/// Viewing distributes over appending one node.
pub broadcast proof fn lemma_nodes_view_push(ns: Seq<Node>, n: Node)
    ensures
        #[trigger] nodes_view(ns.push(n)) == nodes_view(ns).push(node_view(n)),
{
    assert(ns.push(n).drop_last() =~= ns);
    assert(ns.push(n).last() == n);
}

impl View for Node {
    type V = NodeView;

    open spec fn view(&self) -> NodeView {
        node_view(*self)
    }
}

/// How many entries of `ks` are list kinds (`Ul` or `Ol`).
pub open spec fn count_list_kinds(ks: Seq<NodeTypeView>) -> int
    decreases ks.len(),
{
    if ks.len() == 0 {
        0
    } else {
        count_list_kinds(ks.drop_last()) + if ks.last() is Ul || ks.last() is Ol {
            1int
        } else {
            0int
        }
    }
}

/// A sequence of `n` spaces.
pub open spec fn spaces(n: int) -> Seq<char>
    decreases n,
{
    if n <= 0 {
        Seq::empty()
    } else {
        spaces(n - 1).push(' ')
    }
}

/// The list indentation owed to a node: two spaces for every enclosing list
/// beyond the first; none when no enclosing list is recorded.
pub open spec fn leading_spaces_s(w: Option<Seq<NodeTypeView>>) -> Seq<char> {
    match w {
        None => Seq::empty(),
        Some(ks) => {
            let c = count_list_kinds(ks);
            if c >= 1 {
                spaces((c - 1) * 2)
            } else {
                Seq::empty()
            }
        },
    }
}

/// Some entry of `ks` is also an entry of `tags`.
pub open spec fn contains_any(ks: Seq<NodeTypeView>, tags: Seq<NodeTypeView>) -> bool {
    exists|i: int, j: int|
        0 <= i < ks.len() && 0 <= j < tags.len() && ks[i] == tags[j]
}

/// Whether a node's recorded special ancestors meet `tags`.
pub open spec fn in_special_tag(w: Option<Seq<NodeTypeView>>, tags: Seq<NodeTypeView>) -> bool {
    match w {
        None => false,
        Some(ks) => contains_any(ks, tags),
    }
}

/// The ancestor context a child inherits when attached under `parent`:
/// the parent's recorded special ancestors (when it has any), extended by
/// the parent's own kind when that kind is itself special.
pub open spec fn with_parent_s(node: NodeView, parent: NodeView) -> NodeView {
    let w0 = if parent.within_special_tag is Some {
        parent.within_special_tag
    } else {
        node.within_special_tag
    };
    let w1 = match parent.tag_name {
        Some(pk) => if special_kind(pk) {
            Some(
                match w0 {
                    Some(l) => l.push(pk),
                    None => seq![pk],
                },
            )
        } else {
            w0
        },
        None => w0,
    };
    NodeView { within_special_tag: w1, ..node }
}

impl Node {
    /// Creates a node from its parts.
    pub fn new(
        tag_name: Option<NodeType>,
        value: Option<String>,
        attributes: Option<Attributes>,
        within_special_tag: Option<Vec<NodeType>>,
        children: Vec<Node>,
    ) -> (r: Node)
        ensures
            r == (Node { tag_name, value, attributes, within_special_tag, children }),
    {
        Node { tag_name, value, attributes, within_special_tag, children }
    }

    /// Whether the node sits within any of the special tags in `tags`.
    pub fn is_in_special_tag(&self, tags: &[NodeType]) -> (r: bool)
        ensures
            r == in_special_tag(self@.within_special_tag, kinds_view(tags@)),
    {
        match &self.within_special_tag {
            None => false,
            Some(ks) => {
                let n: usize = ks.len();
                let m: usize = tags.len();
                let mut i: usize = 0;
                while i < n
                    invariant
                        0 <= i <= n,
                        n == ks@.len(),
                        m == tags@.len(),
                        self@.within_special_tag == Some(kinds_view(ks@)),
                        forall|a: int, b: int|
                            0 <= a < i && 0 <= b < m ==> kinds_view(ks@)[a] != kinds_view(
                                tags@,
                            )[b],
                    decreases n - i,
                {
                    let mut j: usize = 0;
                    while j < m
                        invariant
                            0 <= i < n,
                            0 <= j <= m,
                            n == ks@.len(),
                            m == tags@.len(),
                            self@.within_special_tag == Some(kinds_view(ks@)),
                            forall|b: int|
                                0 <= b < j ==> kinds_view(ks@)[i as int] != kinds_view(
                                    tags@,
                                )[b],
                        decreases m - j,
                    {
                        if kind_eq(&ks[i], &tags[j]) {
                            assert(kinds_view(ks@)[i as int] == kinds_view(tags@)[j as int]);
                            return true;
                        }
                        j = j + 1;
                    }
                    i = i + 1;
                }
                proof {
                    assert(!contains_any(kinds_view(ks@), kinds_view(tags@)));
                }
                false
            },
        }
    }

    /// The indentation owed to this node inside nested lists, as
    /// [`leading_spaces_s`] states it.
    pub fn leading_spaces(&self) -> (r: String)
        ensures
            r@ == leading_spaces_s(self@.within_special_tag),
    {
        match &self.within_special_tag {
            None => String::new(),
            Some(ks) => {
                let n: usize = ks.len();
                let mut cnt: usize = 0;
                let mut i: usize = 0;
                while i < n
                    invariant
                        0 <= i <= n,
                        n == ks@.len(),
                        cnt <= i,
                        cnt == count_list_kinds(kinds_view(ks@).take(i as int)),
                    decreases n - i,
                {
                    let is_list: bool = matches!(ks[i], NodeType::Ul | NodeType::Ol);
                    proof {
                        assert(kinds_view(ks@).take(i + 1).drop_last() =~= kinds_view(ks@).take(
                            i as int,
                        ));
                        assert(kinds_view(ks@).take(i + 1).last() == kinds_view(ks@)[i as int]);
                    }
                    if is_list {
                        cnt = cnt + 1;
                    }
                    i = i + 1;
                }
                proof {
                    assert(kinds_view(ks@).take(n as int) =~= kinds_view(ks@));
                }
                let mut r: String = String::new();
                if cnt >= 1 {
                    let target: usize = cnt - 1;
                    let mut k: usize = 0;
                    while k < target
                        invariant
                            0 <= k <= target,
                            r@ == spaces(2 * k),
                        decreases target - k,
                    {
                        crate::chars::push_char(&mut r, ' ');
                        crate::chars::push_char(&mut r, ' ');
                        proof {
                            assert(spaces(2 * k + 1) == spaces(2 * k).push(' '));
                            assert(spaces(2 * k + 2) == spaces(2 * k + 1).push(' '));
                        }
                        k = k + 1;
                    }
                    proof {
                        assert(r@ =~= spaces((cnt - 1) * 2));
                    }
                }
                r
            },
        }
    }
}

impl Clone for Node {
    /// Clones the whole tree, preserving its view.
    fn clone(&self) -> (r: Node)
        ensures
            node_view(r) == node_view(*self),
        decreases *self,
    {
        let tag_name: Option<NodeType> = match &self.tag_name {
            Some(k) => Some(clone_kind(k)),
            None => None,
        };
        let value: Option<String> = match &self.value {
            Some(t) => Some(t.clone()),
            None => None,
        };
        let attributes: Option<Attributes> = match &self.attributes {
            Some(a) => Some(a.clone()),
            None => None,
        };
        let within_special_tag: Option<Vec<NodeType>> = match &self.within_special_tag {
            Some(w) => {
                let m: usize = w.len();
                let mut ks: Vec<NodeType> = Vec::new();
                let mut j: usize = 0;
                while j < m
                    invariant
                        0 <= j <= m,
                        m == w@.len(),
                        ks@.len() == j,
                        forall|t: int| 0 <= t < j ==> #[trigger] ks@[t]@ == w@[t]@,
                    decreases m - j,
                {
                    ks.push(clone_kind(&w[j]));
                    j = j + 1;
                }
                proof {
                    assert(kinds_view(ks@) =~= kinds_view(w@));
                }
                Some(ks)
            },
            None => None,
        };
        let n: usize = self.children.len();
        let mut children: Vec<Node> = Vec::new();
        let mut i: usize = 0;
        while i < n
            invariant
                0 <= i <= n,
                n == self.children@.len(),
                children@.len() == i,
                forall|t: int|
                    0 <= t < i ==> #[trigger] node_view(children@[t]) == node_view(
                        self.children@[t],
                    ),
            decreases n - i,
        {
            proof {
                assert(decreases_to!(*self, 0int => self.children@[i as int], 0int));
            }
            children.push(self.children[i].clone());
            i = i + 1;
        }
        let r = Node { tag_name, value, attributes, within_special_tag, children };
        proof {
            lemma_nodes_view_pointwise(children@, self.children@);
            assert(node_view(r) =~= node_view(*self));
        }
        r
    }
}

/// Node lists with pointwise equal views have equal views.
pub proof fn lemma_nodes_view_pointwise(xs: Seq<Node>, ys: Seq<Node>)
    requires
        xs.len() == ys.len(),
        forall|t: int| 0 <= t < xs.len() ==> #[trigger] node_view(xs[t]) == node_view(ys[t]),
    ensures
        nodes_view(xs) == nodes_view(ys),
{
    lemma_nodes_view_len(xs);
    lemma_nodes_view_len(ys);
    assert forall|t: int| 0 <= t < xs.len() implies nodes_view(xs)[t] == nodes_view(ys)[t] by {
        lemma_nodes_view_index(xs, t);
        lemma_nodes_view_index(ys, t);
    }
    assert(nodes_view(xs) =~= nodes_view(ys));
}

// ---------------------------------------------------------------------------
// Rendering configuration
// ---------------------------------------------------------------------------

/// Configuration for the Markdown renderer.
#[derive(Debug, Default)]
pub struct ToMdConfig {
    /// Kinds whose whole subtree renders as nothing.
    pub ignore_rendering: Vec<NodeType>,
}

impl View for ToMdConfig {
    type V = Seq<NodeTypeView>;

    open spec fn view(&self) -> Seq<NodeTypeView> {
        kinds_view(self.ignore_rendering@)
    }
}

} // verus!
