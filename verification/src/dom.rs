//! The HTML document that EPUB export works on: elements with their tags,
//! attributes and children, and the document's metadata.
use vstd::prelude::*;

use crate::timestamp::Datetime;

verus! {

/// A value that is either chosen automatically or given explicitly.
#[derive(Clone, Copy, Debug, PartialEq, Eq, Structural)]
pub enum Smart<T> {
    /// Chosen automatically.
    Auto,
    /// Given explicitly.
    Custom(T),
}

/// A child of an HTML element.
#[derive(Debug)]
pub enum HtmlNode {
    /// An introspection marker; it holds nothing that export reads.
    Tag,
    /// Plain text.
    Text(String),
    /// Another element.
    Element(HtmlElement),
    /// Layouted content embedded as an SVG, with the identifier assigned to it.
    Frame(HtmlFrame),
}

/// Layouted content that is embedded into HTML as an SVG.
#[derive(Clone, Debug)]
pub struct HtmlFrame {
    /// An ID to assign to the SVG itself.
    pub id: Option<String>,
}

/// An HTML element.
#[derive(Debug)]
pub struct HtmlElement {
    /// The tag name.
    pub tag: String,
    /// The attributes, as name and value, in order.
    pub attrs: Vec<(String, String)>,
    /// The children.
    pub children: Vec<HtmlNode>,
}

/// A locale: a language code and an optional region code.
#[derive(Clone, Debug)]
pub struct Locale {
    /// The ISO 639 language code, in lowercase.
    pub lang: String,
    /// The ISO 3166-1 alpha-2 region code, in uppercase.
    pub region: Option<String>,
}

/// Details about the document.
#[derive(Clone, Debug)]
pub struct DocumentInfo {
    /// The document's title.
    pub title: Option<String>,
    /// The document's author(s).
    pub author: Vec<String>,
    /// The document's description.
    pub description: Option<String>,
    /// The document's keywords.
    pub keywords: Vec<String>,
    /// The document's creation date.
    pub date: Smart<Option<Datetime>>,
    /// The document's language.
    pub locale: Smart<Locale>,
}

/// An HTML document: its root element and its metadata.
#[derive(Debug)]
pub struct HtmlDocument {
    /// The root element.
    pub root: HtmlElement,
    /// Details about the document.
    pub info: DocumentInfo,
}

/// The contents of an element, with strings as character sequences.
pub struct ElemV {
    pub tag: Seq<char>,
    pub attrs: Seq<(Seq<char>, Seq<char>)>,
    pub children: Seq<NodeV>,
}

/// The contents of a node, with strings as character sequences.
pub enum NodeV {
    Tag,
    Text(Seq<char>),
    Element(ElemV),
    Frame(Option<Seq<char>>),
}

pub open spec fn opt_view(o: Option<String>) -> Option<Seq<char>> {
    match o {
        Some(s) => Some(s@),
        None => None,
    }
}

pub open spec fn strings_view(v: Seq<String>) -> Seq<Seq<char>> {
    v.map_values(|s: String| s@)
}

pub open spec fn attrs_view(a: Seq<(String, String)>) -> Seq<(Seq<char>, Seq<char>)> {
    a.map_values(|p: (String, String)| (p.0@, p.1@))
}

pub open spec fn elem_view(e: HtmlElement) -> ElemV
    decreases e, 1int,
{
    ElemV { tag: e.tag@, attrs: attrs_view(e.attrs@), children: nodes_view(e.children@) }
}

pub open spec fn nodes_view(ns: Seq<HtmlNode>) -> Seq<NodeV>
    decreases ns, 0int,
{
    if ns.len() == 0 {
        Seq::empty()
    } else {
        nodes_view(ns.drop_last()).push(node_view(ns.last()))
    }
}

pub open spec fn node_view(n: HtmlNode) -> NodeV
    decreases n, 2int,
{
    match n {
        HtmlNode::Tag => NodeV::Tag,
        HtmlNode::Text(t) => NodeV::Text(t@),
        HtmlNode::Element(e) => NodeV::Element(elem_view(e)),
        HtmlNode::Frame(f) => NodeV::Frame(opt_view(f.id)),
    }
}

pub proof fn lemma_nodes_view(ns: Seq<HtmlNode>)
    ensures
        nodes_view(ns).len() == ns.len(),
        forall|i: int| 0 <= i < ns.len() ==> #[trigger] nodes_view(ns)[i] == node_view(ns[i]),
    decreases ns.len(),
{
    if ns.len() > 0 {
        lemma_nodes_view(ns.drop_last());
    }
}

/// The value of the first attribute called `name`, as `HtmlAttrs::get` finds it.
pub open spec fn attr_value(attrs: Seq<(Seq<char>, Seq<char>)>, name: Seq<char>) -> Option<Seq<char>>
    decreases attrs.len(),
{
    if attrs.len() == 0 {
        None
    } else if attrs[0].0 == name {
        Some(attrs[0].1)
    } else {
        attr_value(attrs.drop_first(), name)
    }
}

/// The position of the first attribute called `name`.
pub open spec fn attr_position(attrs: Seq<(Seq<char>, Seq<char>)>, name: Seq<char>) -> Option<int>
    decreases attrs.len(),
{
    if attrs.len() == 0 {
        None
    } else if attrs[0].0 == name {
        Some(0)
    } else {
        match attr_position(attrs.drop_first(), name) {
            Some(i) => Some(i + 1),
            None => None,
        }
    }
}

pub proof fn lemma_attr_position(attrs: Seq<(Seq<char>, Seq<char>)>, name: Seq<char>)
    ensures
        match attr_position(attrs, name) {
            Some(i) => {
                &&& 0 <= i < attrs.len()
                &&& attrs[i].0 == name
                &&& forall|j: int| 0 <= j < i ==> attrs[j].0 != name
                &&& attr_value(attrs, name) == Some(attrs[i].1)
            },
            None => {
                &&& forall|j: int| 0 <= j < attrs.len() ==> attrs[j].0 != name
                &&& attr_value(attrs, name) is None
            },
        },
    decreases attrs.len(),
{
    if attrs.len() > 0 {
        lemma_attr_position(attrs.drop_first(), name);
        if attrs[0].0 != name {
            match attr_position(attrs.drop_first(), name) {
                Some(i) => {
                    assert forall|j: int| 0 <= j < i + 1 implies attrs[j].0 != name by {
                        if j > 0 {
                            assert(attrs[j] == attrs.drop_first()[j - 1]);
                        }
                    }
                },
                None => {
                    assert forall|j: int| 0 <= j < attrs.len() implies attrs[j].0 != name by {
                        if j > 0 {
                            assert(attrs[j] == attrs.drop_first()[j - 1]);
                        }
                    }
                },
            }
        }
    }
}

/// Finds the position of the first attribute called `name`.
pub fn find_attr(attrs: &Vec<(String, String)>, name: &str) -> (r: Option<usize>)
    ensures
        match (r, attr_position(attrs_view(attrs@), name@)) {
            (Some(i), Some(j)) => i == j,
            (None, None) => true,
            _ => false,
        },
{
    proof { lemma_attr_position(attrs_view(attrs@), name@); }
    let mut i: usize = 0;
    while i < attrs.len()
        invariant
            i <= attrs.len(),
            forall|j: int| 0 <= j < i ==> attrs_view(attrs@)[j].0 != name@,
        decreases attrs.len() - i,
    {
        if crate::text::same_text(attrs[i].0.as_str(), name) {
            proof {
                let av = attrs_view(attrs@);
                lemma_attr_position(av, name@);
                match attr_position(av, name@) {
                    Some(j) => {
                        if j < i {
                        } else if j > i {
                            assert(av[i as int].0 == name@);
                        }
                    },
                    None => {
                        assert(av[i as int].0 == name@);
                    },
                }
            }
            return Some(i);
        }
        i = i + 1;
    }
    None
}

/// A copy of a list of nodes.
pub fn copy_nodes(ns: &Vec<HtmlNode>) -> (r: Vec<HtmlNode>)
    ensures
        nodes_view(r@) == nodes_view(ns@),
    decreases ns@, 0int,
{
    let mut r: Vec<HtmlNode> = Vec::new();
    let mut i: usize = 0;
    while i < ns.len()
        invariant
            i <= ns.len(),
            nodes_view(r@) == nodes_view(ns@.take(i as int)),
        decreases ns.len() - i,
    {
        let c = copy_node(&ns[i]);
        let ghost rp = r@;
        r.push(c);
        proof {
            assert(r@.drop_last() =~= rp);
            assert(ns@.take(i + 1).drop_last() =~= ns@.take(i as int));
        }
        i = i + 1;
    }
    assert(ns@.take(ns.len() as int) =~= ns@);
    r
}

/// A copy of a node.
pub fn copy_node(n: &HtmlNode) -> (r: HtmlNode)
    ensures
        node_view(r) == node_view(*n),
    decreases *n, 1int,
{
    match n {
        HtmlNode::Tag => HtmlNode::Tag,
        HtmlNode::Text(t) => HtmlNode::Text(t.clone()),
        HtmlNode::Element(e) => HtmlNode::Element(copy_element(e)),
        HtmlNode::Frame(f) => HtmlNode::Frame(HtmlFrame { id: copy_opt(&f.id) }),
    }
}

/// A copy of an element.
pub fn copy_element(e: &HtmlElement) -> (r: HtmlElement)
    ensures
        elem_view(r) == elem_view(*e),
    decreases *e, 2int,
{
    let children = copy_nodes(&e.children);
    let attrs = copy_attrs(&e.attrs);
    HtmlElement { tag: e.tag.clone(), attrs, children }
}

/// A copy of an optional string.
pub fn copy_opt(o: &Option<String>) -> (r: Option<String>)
    ensures
        opt_view(r) == opt_view(*o),
{
    match o {
        Some(s) => Some(s.clone()),
        None => None,
    }
}

/// A copy of a list of strings.
pub fn copy_strings(v: &Vec<String>) -> (r: Vec<String>)
    ensures
        strings_view(r@) == strings_view(v@),
{
    let mut r: Vec<String> = Vec::new();
    let mut i: usize = 0;
    while i < v.len()
        invariant
            i <= v.len(),
            r.len() == i,
            forall|k: int| 0 <= k < i ==> r@[k]@ == v@[k]@,
        decreases v.len() - i,
    {
        let s = v[i].clone();
        r.push(s);
        i = i + 1;
    }
    assert(strings_view(r@) =~= strings_view(v@));
    r
}

/// A copy of an attribute list.
pub fn copy_attrs(v: &Vec<(String, String)>) -> (r: Vec<(String, String)>)
    ensures
        attrs_view(r@) == attrs_view(v@),
{
    let mut r: Vec<(String, String)> = Vec::new();
    let mut i: usize = 0;
    while i < v.len()
        invariant
            i <= v.len(),
            r.len() == i,
            forall|k: int| 0 <= k < i ==> r@[k].0@ == v@[k].0@ && r@[k].1@ == v@[k].1@,
        decreases v.len() - i,
    {
        let a = v[i].0.clone();
        let b = v[i].1.clone();
        r.push((a, b));
        i = i + 1;
    }
    assert(attrs_view(r@) =~= attrs_view(v@));
    r
}

pub proof fn lemma_nodes_take(ns: Seq<HtmlNode>, j: int)
    requires
        0 <= j <= ns.len(),
    ensures
        nodes_view(ns).take(j) == nodes_view(ns.take(j)),
{
    lemma_nodes_view(ns);
    lemma_nodes_view(ns.take(j));
    assert(nodes_view(ns).take(j) =~= nodes_view(ns.take(j)));
}


/// A locale with its strings as character sequences.
pub struct LocaleV {
    pub lang: Seq<char>,
    pub region: Option<Seq<char>>,
}

/// Document details with strings as character sequences.
pub struct InfoV {
    pub title: Option<Seq<char>>,
    pub author: Seq<Seq<char>>,
    pub description: Option<Seq<char>>,
    pub keywords: Seq<Seq<char>>,
    pub date: Smart<Option<Datetime>>,
    pub locale: Smart<LocaleV>,
}

pub open spec fn locale_view(l: Locale) -> LocaleV {
    LocaleV { lang: l.lang@, region: opt_view(l.region) }
}

pub open spec fn info_view(i: DocumentInfo) -> InfoV {
    InfoV {
        title: opt_view(i.title),
        author: strings_view(i.author@),
        description: opt_view(i.description),
        keywords: strings_view(i.keywords@),
        date: i.date,
        locale: match i.locale {
            Smart::Auto => Smart::Auto,
            Smart::Custom(l) => Smart::Custom(locale_view(l)),
        },
    }
}

/// A copy of a locale.
pub fn copy_locale(l: &Locale) -> (r: Locale)
    ensures
        locale_view(r) == locale_view(*l),
{
    Locale { lang: l.lang.clone(), region: copy_opt(&l.region) }
}

/// A copy of the document details.
pub fn copy_info(i: &DocumentInfo) -> (r: DocumentInfo)
    ensures
        info_view(r) == info_view(*i),
{
    let locale = match &i.locale {
        Smart::Auto => Smart::Auto,
        Smart::Custom(l) => Smart::Custom(copy_locale(l)),
    };
    DocumentInfo {
        title: copy_opt(&i.title),
        author: copy_strings(&i.author),
        description: copy_opt(&i.description),
        keywords: copy_strings(&i.keywords),
        date: i.date,
        locale,
    }
}

/// The default locale: English without a region.
pub open spec fn default_locale() -> LocaleV {
    LocaleV { lang: seq!['e', 'n'], region: None }
}

/// The document language, English when chosen automatically.
pub open spec fn language_of(info: InfoV) -> LocaleV {
    match info.locale {
        Smart::Custom(l) => l,
        Smart::Auto => default_locale(),
    }
}

/// The RFC 3066 tag of a locale: the language, then `-` and the region if
/// there is one.
pub open spec fn rfc_3066_of(l: LocaleV) -> Seq<char> {
    match l.region {
        Some(r) => l.lang + seq!['-'] + r,
        None => l.lang,
    }
}

impl Locale {
    /// The default locale: English without a region.
    pub fn default_locale() -> (l: Locale)
        ensures
            locale_view(l) == default_locale(),
    {
        let lang = crate::text::string_of(vec!['e', 'n'].as_slice());
        Locale { lang, region: None }
    }

    /// The RFC 3066 tag of the locale, as `typst`'s `Locale::rfc_3066` writes it.
    pub fn rfc_3066(&self) -> (tag: String)
        ensures
            tag@ == rfc_3066_of(locale_view(*self)),
    {
        let mut buf = self.lang.clone();
        match &self.region {
            Some(region) => {
                buf.push('-');
                crate::text::push_str(&mut buf, region.as_str());
            },
            None => {},
        }
        buf
    }
}

/// A writing direction.
#[derive(Clone, Copy, Debug, PartialEq, Eq, Structural)]
pub enum Dir {
    /// Left to right.
    LTR,
    /// Right to left.
    RTL,
}

/// The languages that `typst` writes right to left by default: Arabic,
/// Divehi, Persian, Hebrew, Kashmiri, Punjabi, Pashto, Sindhi, Uyghur, Urdu
/// and Yiddish.
pub open spec fn rtl_language(lang: Seq<char>) -> bool {
    ||| lang == seq!['a', 'r']
    ||| lang == seq!['d', 'v']
    ||| lang == seq!['f', 'a']
    ||| lang == seq!['h', 'e']
    ||| lang == seq!['k', 's']
    ||| lang == seq!['p', 'a']
    ||| lang == seq!['p', 's']
    ||| lang == seq!['s', 'd']
    ||| lang == seq!['u', 'g']
    ||| lang == seq!['u', 'r']
    ||| lang == seq!['y', 'i']
}

/// The default direction of a language.
pub fn lang_dir(lang: &str) -> (d: Dir)
    ensures
        d == (if rtl_language(lang@) { Dir::RTL } else { Dir::LTR }),
{
    let c = crate::text::chars_of(lang);
    if c.len() != 2 {
        return Dir::LTR;
    }
    let a = c[0];
    let b = c[1];
    assert(c@ =~= seq![a, b]);
    if (a == 'a' && b == 'r') || (a == 'd' && b == 'v') || (a == 'f' && b == 'a') || (a == 'h'
        && b == 'e') || (a == 'k' && b == 's') || (a == 'p' && b == 'a') || (a == 'p' && b == 's')
        || (a == 's' && b == 'd') || (a == 'u' && b == 'g') || (a == 'u' && b == 'r') || (a
        == 'y' && b == 'i') {
        Dir::RTL
    } else {
        Dir::LTR
    }
}

} // verus!
