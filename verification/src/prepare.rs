//! Adapting an HTML document to the restrictions of EPUB: embedded images
//! become separate resources, headings get identifiers for the navigation
//! document, and the content properties of the manifest are collected.
use vstd::prelude::*;

use crate::dom::{
    attr_value, elem_view, find_attr, lemma_attr_position, node_view, nodes_view, ElemV,
    HtmlElement, HtmlNode, NodeV,
};
use crate::dom::{
    attr_position, attrs_view, copy_element, copy_info, copy_locale, info_view, language_of,
    lemma_nodes_take, locale_view, DocumentInfo, HtmlDocument, Locale, Smart,
};
use crate::ids::{heading_id, next_heading_id, IdSet};
use crate::resource::{
    decode_data_resource, decode_failure_message, embedding_of, is_remote, is_remote_url,
    Embedding,
};
use crate::text::str_starts_with;
use crate::EpubError;
use crate::text::{
    chars_of, collapse_white_space, collapse_white_space_chars, is_word, join, lemma_words_of_join,
    string_of, words,
};

verus! {

/// An extracted resource that will be stored in the EPUB container.
#[derive(Debug)]
pub struct Resource {
    /// Path relative to the EPUB content directory.
    pub path: String,
    /// Internet media type for the package manifest.
    pub media_type: &'static str,
    /// Raw resource data.
    pub data: Vec<u8>,
}

/// A heading exposed in the EPUB navigation document.
#[derive(Debug)]
pub struct Heading {
    /// HTML heading level.
    pub level: u8,
    /// Fragment identifier in the content document.
    pub id: String,
    /// Plain-text heading title.
    pub title: String,
}

/// Special content properties required in the package manifest.
#[derive(Debug, Copy, Clone, PartialEq, Eq, Structural)]
pub struct ContentProperties {
    pub mathml: bool,
    pub remote_resources: bool,
    pub scripted: bool,
    pub svg: bool,
}

/// A resource with its strings as character sequences.
pub struct ResourceV {
    pub path: Seq<char>,
    pub media_type: Seq<char>,
    pub data: Seq<u8>,
}

/// A heading with its strings as character sequences.
pub struct HeadingV {
    pub level: u8,
    pub id: Seq<char>,
    pub title: Seq<char>,
}

pub open spec fn resource_view(r: Resource) -> ResourceV {
    ResourceV { path: r.path@, media_type: r.media_type@, data: r.data@ }
}

pub open spec fn heading_view(h: Heading) -> HeadingV {
    HeadingV { level: h.level, id: h.id@, title: h.title@ }
}

pub open spec fn headings_view(hs: Seq<Heading>) -> Seq<HeadingV> {
    hs.map_values(|h: Heading| heading_view(h))
}

pub open spec fn resources_view(rs: Seq<Resource>) -> Seq<ResourceV> {
    rs.map_values(|r: Resource| resource_view(r))
}

impl Default for ContentProperties {
    fn default() -> (p: Self)
        ensures
            p == (ContentProperties {
                mathml: false,
                remote_resources: false,
                scripted: false,
                svg: false,
            }),
    {
        ContentProperties { mathml: false, remote_resources: false, scripted: false, svg: false }
    }
}

/// The names of the set properties, in the order `mathml`,
/// `remote-resources`, `scripted`, `svg`.
pub open spec fn property_names(p: ContentProperties) -> Seq<Seq<char>> {
    Seq::<Seq<char>>::empty()
        .add(if p.mathml { seq![seq!['m', 'a', 't', 'h', 'm', 'l']] } else { Seq::empty() })
        .add(if p.remote_resources {
            seq![seq!['r', 'e', 'm', 'o', 't', 'e', '-', 'r', 'e', 's', 'o', 'u', 'r', 'c', 'e', 's']]
        } else {
            Seq::empty()
        })
        .add(if p.scripted {
            seq![seq!['s', 'c', 'r', 'i', 'p', 't', 'e', 'd']]
        } else {
            Seq::empty()
        })
        .add(if p.svg { seq![seq!['s', 'v', 'g']] } else { Seq::empty() })
}

/// The manifest `properties` value: the names of the set properties,
/// separated by spaces.
pub open spec fn manifest_value_text(p: ContentProperties) -> Seq<char> {
    join(property_names(p), seq![' '])
}

/// Each property's name is one of the words of the manifest value exactly
/// when the property is set, whatever the other properties are.
pub proof fn lemma_manifest_value_words(p: ContentProperties)
    ensures
        words(manifest_value_text(p)).contains("mathml"@) <==> p.mathml,
        words(manifest_value_text(p)).contains("remote-resources"@) <==> p.remote_resources,
        words(manifest_value_text(p)).contains("scripted"@) <==> p.scripted,
        words(manifest_value_text(p)).contains("svg"@) <==> p.svg,
{
    reveal_strlit("mathml");
    reveal_strlit("remote-resources");
    reveal_strlit("scripted");
    reveal_strlit("svg");
    let names = property_names(p);
    let m = seq!['m', 'a', 't', 'h', 'm', 'l'];
    let r = seq!['r', 'e', 'm', 'o', 't', 'e', '-', 'r', 'e', 's', 'o', 'u', 'r', 'c', 'e', 's'];
    let sc = seq!['s', 'c', 'r', 'i', 'p', 't', 'e', 'd'];
    let sv = seq!['s', 'v', 'g'];
    assert(m =~= "mathml"@);
    assert(r =~= "remote-resources"@);
    assert(sc =~= "scripted"@);
    assert(sv =~= "svg"@);
    assert(is_word(m));
    assert(is_word(r));
    assert(is_word(sc));
    assert(is_word(sv));
    assert forall|j: int| 0 <= j < names.len() implies is_word(#[trigger] names[j]) by {
        assert(names[j] == m || names[j] == r || names[j] == sc || names[j] == sv);
    }
    lemma_words_of_join(names);
    assert(words(manifest_value_text(p)) == names);
    assert(forall|j: int| 0 <= j < names.len() ==> (#[trigger] names[j] == m || names[j] == r
        || names[j] == sc || names[j] == sv));
    assert(forall|j: int| 0 <= j < names.len() ==> (#[trigger] names[j] == m ==> p.mathml));
    assert(forall|j: int| 0 <= j < names.len() ==> (#[trigger] names[j] == r ==> p.remote_resources));
    assert(forall|j: int| 0 <= j < names.len() ==> (#[trigger] names[j] == sc ==> p.scripted));
    assert(forall|j: int| 0 <= j < names.len() ==> (#[trigger] names[j] == sv ==> p.svg));
    let k0: int = 0;
    let k1: int = if p.mathml { 1 } else { 0 };
    let k2: int = k1 + if p.remote_resources { 1int } else { 0 };
    let k3: int = k2 + if p.scripted { 1int } else { 0 };
    if p.mathml {
        assert(names[k0] == m);
    }
    if p.remote_resources {
        assert(names[k1] == r);
    }
    if p.scripted {
        assert(names[k2] == sc);
    }
    if p.svg {
        assert(names[k3] == sv);
    }
}

impl ContentProperties {
    /// Serialize properties in a stable order.
    pub fn manifest_value(self) -> (s: String)
        ensures
            s@ == manifest_value_text(self),
    {
        let mut names: Vec<Vec<char>> = Vec::new();
        if self.mathml {
            names.push(vec!['m', 'a', 't', 'h', 'm', 'l']);
        }
        if self.remote_resources {
            names.push(
                vec!['r', 'e', 'm', 'o', 't', 'e', '-', 'r', 'e', 's', 'o', 'u', 'r', 'c', 'e', 's'],
            );
        }
        if self.scripted {
            names.push(vec!['s', 'c', 'r', 'i', 'p', 't', 'e', 'd']);
        }
        if self.svg {
            names.push(vec!['s', 'v', 'g']);
        }
        let ghost parts = names@.map_values(|v: Vec<char>| v@);
        assert(parts =~= property_names(self));
        join_chars(&names, ' ')
    }
}

/// The strings of `parts` joined by the separator `sep`.
pub fn join_chars(parts: &Vec<Vec<char>>, sep: char) -> (s: String)
    ensures
        s@ == join(parts@.map_values(|v: Vec<char>| v@), seq![sep]),
{
    let ghost all = parts@.map_values(|v: Vec<char>| v@);
    let mut out: Vec<char> = Vec::new();
    let mut i: usize = 0;
    while i < parts.len()
        invariant
            i <= parts.len(),
            all == parts@.map_values(|v: Vec<char>| v@),
            out@ == join(all.take(i as int), seq![sep]),
        decreases parts.len() - i,
    {
        let ghost before = out@;
        if i > 0 {
            out.push(sep);
        }
        let part = &parts[i];
        let mut k: usize = 0;
        let ghost mid = out@;
        while k < part.len()
            invariant
                k <= part.len(),
                out@ == mid + part@.take(k as int),
            decreases part.len() - k,
        {
            out.push(part[k]);
            k = k + 1;
            assert(out@ =~= mid + part@.take(k as int));
        }
        proof {
            assert(part@.take(part.len() as int) =~= part@);
            assert(all.take(i + 1).drop_last() =~= all.take(i as int));
            assert(all.take(i + 1).last() == part@);
            if i == 0 {
                assert(out@ =~= join(all.take(i + 1), seq![sep]));
            } else {
                assert(out@ =~= join(all.take(i + 1), seq![sep]));
            }
        }
        i = i + 1;
    }
    assert(all.take(parts.len() as int) =~= all);
    string_of(out.as_slice())
}

/// The level of a heading tag `h1` to `h6`.
pub open spec fn heading_level_of(tag: Seq<char>) -> Option<u8> {
    if tag == seq!['h', '1'] {
        Some(1u8)
    } else if tag == seq!['h', '2'] {
        Some(2u8)
    } else if tag == seq!['h', '3'] {
        Some(3u8)
    } else if tag == seq!['h', '4'] {
        Some(4u8)
    } else if tag == seq!['h', '5'] {
        Some(5u8)
    } else if tag == seq!['h', '6'] {
        Some(6u8)
    } else {
        None
    }
}

/// Find the level of an HTML heading element.
pub fn heading_level(element: &HtmlElement) -> (r: Option<u8>)
    ensures
        r == heading_level_of(element.tag@),
{
    let t = chars_of(element.tag.as_str());
    if t.len() != 2 || t[0] != 'h' {
        assert(t@.len() != 2 || t@[0] != 'h');
        return None;
    }
    let c = t[1];
    assert(t@ =~= seq!['h', c]);
    if c == '1' {
        Some(1)
    } else if c == '2' {
        Some(2)
    } else if c == '3' {
        Some(3)
    } else if c == '4' {
        Some(4)
    } else if c == '5' {
        Some(5)
    } else if c == '6' {
        Some(6)
    } else {
        None
    }
}



/// The text that a list of nodes holds: its text nodes and those of its
/// elements, in document order.
pub open spec fn text_of_nodes(ns: Seq<NodeV>) -> Seq<char>
    decreases ns, 0int,
{
    if ns.len() == 0 {
        Seq::empty()
    } else {
        text_of_nodes(ns.drop_last()) + text_of_node(ns.last())
    }
}

pub open spec fn text_of_node(n: NodeV) -> Seq<char>
    decreases n, 1int,
{
    match n {
        NodeV::Text(t) => t,
        NodeV::Element(e) => text_of_nodes(e.children),
        _ => Seq::empty(),
    }
}

/// The plain text of a list of nodes: its text with whitespace runs collapsed
/// to single spaces and trimmed.
pub open spec fn plain_text_of(ns: Seq<NodeV>) -> Seq<char> {
    collapse_white_space(text_of_nodes(ns))
}

fn collect_text(nodes: &Vec<HtmlNode>, output: &mut Vec<char>)
    ensures
        final(output)@ == old(output)@ + text_of_nodes(nodes_view(nodes@)),
    decreases nodes@,
{
    let ghost start = output@;
    let mut i: usize = 0;
    while i < nodes.len()
        invariant
            i <= nodes.len(),
            output@ == start + text_of_nodes(nodes_view(nodes@.take(i as int))),
        decreases nodes.len() - i,
    {
        let ghost before = output@;
        match &nodes[i] {
            HtmlNode::Text(t) => {
                let cs = chars_of(t.as_str());
                let mut k: usize = 0;
                while k < cs.len()
                    invariant
                        k <= cs.len(),
                        output@ == before + cs@.take(k as int),
                    decreases cs.len() - k,
                {
                    output.push(cs[k]);
                    k = k + 1;
                    assert(output@ =~= before + cs@.take(k as int));
                }
                assert(cs@.take(cs.len() as int) =~= cs@);
            },
            HtmlNode::Element(e) => {
                assert(decreases_to!(nodes@ => nodes@[i as int]));
                collect_text(&e.children, output);
            },
            _ => {},
        }
        proof {
            assert(nodes@.take(i + 1).drop_last() =~= nodes@.take(i as int));
            assert(nodes@.take(i + 1).last() == nodes@[i as int]);
            let pre = nodes_view(nodes@.take(i as int));
            let nv = nodes_view(nodes@.take(i + 1));
            assert(nv == pre.push(node_view(nodes@[i as int])));
            assert(nv.drop_last() =~= pre);
            assert(text_of_nodes(nv) == text_of_nodes(pre) + text_of_node(node_view(nodes@[i as int])));
            assert(output@ =~= before + text_of_node(node_view(nodes@[i as int])));
            assert(output@ =~= start + text_of_nodes(nodes_view(nodes@.take(i + 1))));
        }
        i = i + 1;
    }
    assert(nodes@.take(nodes.len() as int) =~= nodes@);
}

/// Collect and normalize the textual contents of a node list.
pub fn plain_text(nodes: &Vec<HtmlNode>) -> (text: String)
    ensures
        text@ == plain_text_of(nodes_view(nodes@)),
{
    let mut chars: Vec<char> = Vec::new();
    collect_text(nodes, &mut chars);
    assert(chars@ =~= text_of_nodes(nodes_view(nodes@)));
    collapse_white_space_chars(chars.as_slice())
}


/// The name `id`.
pub open spec fn id_name() -> Seq<char> {
    seq!['i', 'd']
}

/// The fragment identifiers that an element and its descendants carry: the
/// first `id` attribute of each element and the identifiers of frames.
pub open spec fn ids_in_elem(e: ElemV) -> Set<Seq<char>>
    decreases e, 1int,
{
    let own = match attr_value(e.attrs, id_name()) {
        Some(v) => Set::empty().insert(v),
        None => Set::empty(),
    };
    own.union(ids_in_nodes(e.children))
}

pub open spec fn ids_in_nodes(ns: Seq<NodeV>) -> Set<Seq<char>>
    decreases ns, 0int,
{
    if ns.len() == 0 {
        Set::empty()
    } else {
        ids_in_nodes(ns.drop_last()).union(ids_in_node(ns.last()))
    }
}

pub open spec fn ids_in_node(n: NodeV) -> Set<Seq<char>>
    decreases n, 2int,
{
    match n {
        NodeV::Element(e) => ids_in_elem(e),
        NodeV::Frame(Some(id)) => Set::empty().insert(id),
        _ => Set::empty(),
    }
}

/// The number of nodes of an element's subtree, the element included.
pub open spec fn elem_size(e: ElemV) -> nat
    decreases e, 1int,
{
    1 + nodes_size(e.children)
}

pub open spec fn nodes_size(ns: Seq<NodeV>) -> nat
    decreases ns, 0int,
{
    if ns.len() == 0 {
        0
    } else {
        nodes_size(ns.drop_last()) + node_size(ns.last())
    }
}

pub open spec fn node_size(n: NodeV) -> nat
    decreases n, 2int,
{
    match n {
        NodeV::Element(e) => elem_size(e),
        _ => 1,
    }
}

proof fn lemma_nodes_step(ns: Seq<HtmlNode>, i: int)
    requires
        0 <= i < ns.len(),
    ensures
        nodes_view(ns.take(i + 1)) == nodes_view(ns.take(i)).push(node_view(ns[i])),
        nodes_view(ns.take(i + 1)).drop_last() == nodes_view(ns.take(i)),
        nodes_view(ns.take(i + 1)).last() == node_view(ns[i]),
{
    assert(ns.take(i + 1).drop_last() =~= ns.take(i));
    assert(nodes_view(ns.take(i)).push(node_view(ns[i])).drop_last() =~= nodes_view(ns.take(i)));
}

proof fn lemma_nodes_size_prefix(ns: Seq<NodeV>, i: int)
    requires
        0 <= i <= ns.len(),
    ensures
        nodes_size(ns.take(i)) <= nodes_size(ns),
    decreases ns.len() - i,
{
    if i < ns.len() {
        lemma_nodes_size_prefix(ns, i + 1);
        assert(ns.take(i + 1).drop_last() =~= ns.take(i));
    } else {
        assert(ns.take(i) =~= ns);
    }
}

/// Collect all existing fragment identifiers before assigning heading IDs.
pub fn collect_ids(element: &HtmlElement, ids: &mut IdSet)
    ensures
        final(ids)@ == old(ids)@.union(ids_in_elem(elem_view(*element))),
        final(ids).stored() <= old(ids).stored() + elem_size(elem_view(*element)),
    decreases *element,
{
    let ghost ev = elem_view(*element);
    let ghost start = ids@;
    let ghost stored0 = ids.stored();
    proof { lemma_attr_position(ev.attrs, id_name()); }
    let idname = string_of(vec!['i', 'd'].as_slice());
    match find_attr(&element.attrs, idname.as_str()) {
        Some(p) => {
            ids.insert(element.attrs[p].1.clone());
        },
        None => {},
    }
    let ghost own = match attr_value(ev.attrs, id_name()) {
        Some(v) => Set::empty().insert(v),
        None => Set::empty(),
    };
    assert(ids@ =~= start.union(own));
    let ghost mid = ids@;
    let ghost mid_stored = ids.stored();
    let mut i: usize = 0;
    while i < element.children.len()
        invariant
            i <= element.children.len(),
            ev == elem_view(*element),
            ids@ == mid.union(ids_in_nodes(nodes_view(element.children@.take(i as int)))),
            ids.stored() <= mid_stored + nodes_size(nodes_view(element.children@.take(i as int))),
        decreases element.children.len() - i,
    {
        let ghost before = ids@;
        let ghost before_stored = ids.stored();
        match &element.children[i] {
            HtmlNode::Element(child) => {
                assert(decreases_to!(*element => element.children@[i as int]));
                collect_ids(child, ids);
            },
            HtmlNode::Frame(frame) => {
                match &frame.id {
                    Some(id) => {
                        ids.insert(id.clone());
                    },
                    None => {},
                }
            },
            _ => {},
        }
        proof {
            lemma_nodes_step(element.children@, i as int);
            let pre = nodes_view(element.children@.take(i as int));
            let nv = nodes_view(element.children@.take(i + 1));
            assert(ids_in_nodes(nv) == ids_in_nodes(pre).union(ids_in_node(node_view(element.children@[i as int]))));
            assert(ids@ =~= before.union(ids_in_node(node_view(element.children@[i as int]))));
            assert(ids@ =~= mid.union(ids_in_nodes(nv)));
            assert(nodes_size(nv) == nodes_size(pre) + node_size(node_view(element.children@[i as int])));
        }
        i = i + 1;
    }
    proof {
        assert(element.children@.take(element.children.len() as int) =~= element.children@);
        assert(ids@ =~= start.union(ids_in_elem(ev)));
    }
}


/// The order of strings: lexicographic by code point, which is the order of
/// their UTF-8 bytes and thus the order of `String`'s `Ord`.
pub open spec fn text_lt(a: Seq<char>, b: Seq<char>) -> bool
    decreases a.len(),
{
    if a.len() == 0 {
        b.len() > 0
    } else if b.len() == 0 {
        false
    } else if a[0] != b[0] {
        (a[0] as int) < (b[0] as int)
    } else {
        text_lt(a.drop_first(), b.drop_first())
    }
}

proof fn lemma_text_lt_irreflexive(a: Seq<char>)
    ensures
        !text_lt(a, a),
    decreases a.len(),
{
    if a.len() > 0 {
        lemma_text_lt_irreflexive(a.drop_first());
    }
}

proof fn lemma_text_lt_transitive(a: Seq<char>, b: Seq<char>, c: Seq<char>)
    requires
        text_lt(a, b),
        text_lt(b, c),
    ensures
        text_lt(a, c),
    decreases a.len(),
{
    if a.len() > 0 && b.len() > 0 && c.len() > 0 {
        if a[0] == b[0] && b[0] == c[0] {
            lemma_text_lt_transitive(a.drop_first(), b.drop_first(), c.drop_first());
        }
    }
}

proof fn lemma_text_lt_total(a: Seq<char>, b: Seq<char>)
    requires
        a != b,
    ensures
        text_lt(a, b) || text_lt(b, a),
    decreases a.len(),
{
    if a.len() > 0 && b.len() > 0 && a[0] == b[0] {
        if a.drop_first() == b.drop_first() {
            assert(a =~= seq![a[0]] + a.drop_first());
            assert(b =~= seq![b[0]] + b.drop_first());
        }
        lemma_text_lt_total(a.drop_first(), b.drop_first());
    } else if a.len() == 0 && b.len() == 0 {
        assert(a =~= b);
    }
}

/// Whether `a` orders before `b`.
pub fn text_less(a: &[char], b: &[char]) -> (r: bool)
    ensures
        r == text_lt(a@, b@),
{
    let mut i: usize = 0;
    assert(a@.skip(0) =~= a@);
    assert(b@.skip(0) =~= b@);
    while i < a.len() && i < b.len() && a[i] == b[i]
        invariant
            i <= a.len(),
            i <= b.len(),
            text_lt(a@, b@) == text_lt(a@.skip(i as int), b@.skip(i as int)),
        decreases a.len() - i,
    {
        proof {
            let x = a@.skip(i as int);
            let y = b@.skip(i as int);
            assert(x.drop_first() =~= a@.skip(i + 1));
            assert(y.drop_first() =~= b@.skip(i + 1));
        }
        i = i + 1;
    }
    if i == a.len() {
        i < b.len()
    } else if i == b.len() {
        false
    } else {
        proof {
            assert(a@.skip(i as int)[0] == a@[i as int]);
            assert(b@.skip(i as int)[0] == b@[i as int]);
        }
        a[i] < b[i]
    }
}

/// Whether the paths of `rs` strictly increase.
pub open spec fn paths_increase(rs: Seq<ResourceV>) -> bool {
    forall|i: int, j: int| 0 <= i < j < rs.len() ==> text_lt(rs[i].path, rs[j].path)
}

/// The position of the first resource whose path does not order before `p`.
pub open spec fn lower_bound(rs: Seq<ResourceV>, p: Seq<char>) -> int
    decreases rs.len(),
{
    if rs.len() == 0 {
        0
    } else if !text_lt(rs[0].path, p) {
        0
    } else {
        1 + lower_bound(rs.drop_first(), p)
    }
}

pub(crate) proof fn lemma_lower_bound(rs: Seq<ResourceV>, p: Seq<char>)
    ensures
        0 <= lower_bound(rs, p) <= rs.len(),
        forall|k: int| 0 <= k < lower_bound(rs, p) ==> text_lt(#[trigger] rs[k].path, p),
        lower_bound(rs, p) < rs.len() ==> !text_lt(rs[lower_bound(rs, p)].path, p),
    decreases rs.len(),
{
    if rs.len() > 0 && text_lt(rs[0].path, p) {
        lemma_lower_bound(rs.drop_first(), p);
        assert forall|k: int| 0 <= k < lower_bound(rs, p) implies text_lt(#[trigger] rs[k].path, p) by {
            if k > 0 {
                assert(rs[k] == rs.drop_first()[k - 1]);
            }
        }
    }
}

/// The resources with `r` added in path order, unless a resource with the
/// same path is already present (the first one seen under a path stays).
pub open spec fn add_resource(rs: Seq<ResourceV>, r: ResourceV) -> Seq<ResourceV> {
    let i = lower_bound(rs, r.path);
    if 0 <= i < rs.len() && rs[i].path == r.path {
        rs
    } else {
        rs.insert(i, r)
    }
}

pub(crate) proof fn lemma_add_resource(rs: Seq<ResourceV>, r: ResourceV)
    requires
        paths_increase(rs),
    ensures
        paths_increase(add_resource(rs, r)),
        exists|k: int| 0 <= k < add_resource(rs, r).len() && #[trigger] add_resource(rs, r)[k].path == r.path,
        (exists|k: int| 0 <= k < rs.len() && #[trigger] rs[k].path == r.path) ==> add_resource(rs, r) == rs,
{
    lemma_lower_bound(rs, r.path);
    let i = lower_bound(rs, r.path);
    if 0 <= i < rs.len() && rs[i].path == r.path {
        assert(rs[i].path == r.path);
    } else {
        let out = rs.insert(i, r);
        if i < rs.len() {
            lemma_text_lt_total(rs[i].path, r.path);
        }
        assert forall|a: int, b: int| 0 <= a < b < out.len() implies text_lt(out[a].path, out[b].path) by {
            if a < i && b == i {
            } else if a < i && b > i {
                assert(out[b] == rs[b - 1]);
                if b - 1 > i {
                    lemma_text_lt_transitive(r.path, rs[i].path, rs[b - 1].path);
                }
                lemma_text_lt_transitive(rs[a].path, r.path, rs[b - 1].path);
            } else if a == i {
                assert(out[b] == rs[b - 1]);
                if b - 1 > i {
                    lemma_text_lt_transitive(r.path, rs[i].path, rs[b - 1].path);
                }
            } else if a > i {
                assert(out[a] == rs[a - 1]);
                assert(out[b] == rs[b - 1]);
            } else {
                assert(out[a] == rs[a]);
                assert(out[b] == rs[b]);
            }
        }
        assert(out[i].path == r.path);
        if exists|k: int| 0 <= k < rs.len() && #[trigger] rs[k].path == r.path {
            let k = choose|k: int| 0 <= k < rs.len() && #[trigger] rs[k].path == r.path;
            if k < i {
                lemma_text_lt_irreflexive(r.path);
            } else if k > i {
                lemma_text_lt_transitive(r.path, rs[i].path, rs[k].path);
                lemma_text_lt_irreflexive(r.path);
            }
        }
    }
}

/// Adds a resource under its path, keeping the resources in path order and
/// the first resource seen under each path.
pub fn insert_resource(resources: &mut Vec<Resource>, resource: Resource)
    ensures
        resources_view(final(resources)@) == add_resource(
            resources_view(old(resources)@),
            resource_view(resource),
        ),
{
    let ghost rv = resources_view(resources@);
    let ghost p = resource.path@;
    proof { lemma_lower_bound(rv, p); }
    let path = chars_of(resource.path.as_str());
    let mut i: usize = 0;
    let mut done = false;
    while !done && i < resources.len()
        invariant
            i <= resources.len(),
            rv == resources_view(resources@),
            path@ == p,
            forall|k: int| 0 <= k < i ==> text_lt(#[trigger] rv[k].path, p),
            done ==> i < resources.len() && !text_lt(rv[i as int].path, p),
        decreases resources.len() - i, if done { 0int } else { 1int },
    {
        let here = chars_of(resources[i].path.as_str());
        if !text_less(here.as_slice(), path.as_slice()) {
            done = true;
        } else {
            i = i + 1;
        }
    }
    proof {
        lemma_lower_bound(rv, p);
        let lb = lower_bound(rv, p);
        if lb < i {
            assert(text_lt(rv[lb].path, p));
        }
        if i < lb {
            assert(text_lt(rv[i as int].path, p));
        }
        assert(lb == i);
    }
    if i < resources.len() && crate::text::same_text(resources[i].path.as_str(), resource.path.as_str()) {
        return;
    }
    resources.insert(i, resource);
    proof {
        assert(resources_view(resources@) =~= rv.insert(i as int, resource_view(resource)));
    }
}


/// Whether an element with the tag name `name` is one of the MathML
/// namespace, as `typst_html::tag::mathml::is_mathml` lists them (its list
/// also holds `annotation-xml`, a name that `HtmlTag::intern` refuses, so no
/// element of a document carries it).
pub open spec fn mathml_tag(name: Seq<char>) -> bool {
    ||| name == "annotation"@
    ||| name == "maction"@
    ||| name == "math"@
    ||| name == "merror"@
    ||| name == "mfrac"@
    ||| name == "mi"@
    ||| name == "mmultiscripts"@
    ||| name == "mn"@
    ||| name == "mo"@
    ||| name == "mover"@
    ||| name == "mpadded"@
    ||| name == "mphantom"@
    ||| name == "mprescripts"@
    ||| name == "mroot"@
    ||| name == "mrow"@
    ||| name == "ms"@
    ||| name == "mspace"@
    ||| name == "msqrt"@
    ||| name == "mstyle"@
    ||| name == "msub"@
    ||| name == "msubsup"@
    ||| name == "msup"@
    ||| name == "mtable"@
    ||| name == "mtd"@
    ||| name == "mtext"@
    ||| name == "mtr"@
    ||| name == "munder"@
    ||| name == "munderover"@
    ||| name == "semantics"@
}

/// Interns the tag name with `typst_html::HtmlTag::intern` and calls
/// `typst_html::tag::mathml::is_mathml` on it; a name that does not intern is
/// no MathML tag. The contract claims that the answer is whether the name is
/// one of the MathML names that intern: an interned name equals a constant
/// tag exactly when the strings are equal.
#[verifier::external_body]
fn is_mathml(name: &str) -> (r: bool)
    ensures
        r == mathml_tag(name@),
{
    match typst_html::HtmlTag::intern(name) {
        Ok(tag) => typst_html::tag::mathml::is_mathml(tag),
        Err(_) => false,
    }
}

/// The state that the traversal threads through the document: identifiers
/// in use, the next heading number to try, the headings found, the extracted
/// resources in path order and the content properties seen.
pub struct VisitState {
    pub ids: Set<Seq<char>>,
    pub index: nat,
    pub headings: Seq<HeadingV>,
    pub resources: Seq<ResourceV>,
    pub properties: ContentProperties,
}

pub open spec fn state_of(
    ids: Set<Seq<char>>,
    index: usize,
    headings: Seq<Heading>,
    resources: Seq<Resource>,
    properties: ContentProperties,
) -> VisitState {
    VisitState {
        ids,
        index: index as nat,
        headings: headings_view(headings),
        resources: resources_view(resources),
        properties,
    }
}

pub open spec fn script_name() -> Seq<char> {
    seq!['s', 'c', 'r', 'i', 'p', 't']
}

pub open spec fn svg_name() -> Seq<char> {
    seq!['s', 'v', 'g']
}

pub open spec fn src_name() -> Seq<char> {
    seq!['s', 'r', 'c']
}

/// Attribute names under which a remote URL makes the content use remote
/// resources.
pub open spec fn is_source_name(name: Seq<char>) -> bool {
    name == seq!['d', 'a', 't', 'a'] || name == seq!['p', 'o', 's', 't', 'e', 'r'] || name
        == src_name()
}

/// What an element's tag tells of the content: MathML, scripting, SVG.
pub open spec fn tag_properties(p: ContentProperties, tag: Seq<char>) -> ContentProperties {
    ContentProperties {
        mathml: p.mathml || mathml_tag(tag),
        remote_resources: p.remote_resources,
        scripted: p.scripted || tag == script_name(),
        svg: p.svg || tag == svg_name(),
    }
}

/// What an element's attributes tell of the content: an event handler
/// attribute (`on...`) means scripting, a remote URL under `data`, `poster`
/// or `src` means remote resources.
pub open spec fn attr_properties(
    p: ContentProperties,
    attrs: Seq<(Seq<char>, Seq<char>)>,
) -> ContentProperties {
    ContentProperties {
        mathml: p.mathml,
        remote_resources: p.remote_resources || exists|i: int|
            0 <= i < attrs.len() && is_source_name(#[trigger] attrs[i].0) && is_remote_url(
                attrs[i].1,
            ),
        scripted: p.scripted || exists|i: int|
            0 <= i < attrs.len() && seq!['o', 'n'].is_prefix_of(#[trigger] attrs[i].0),
        svg: p.svg,
    }
}

/// The first `src` attribute, if it holds an embedded image, is pointed at
/// the extracted resource, which joins the resources; `None` when the image
/// does not decode.
pub open spec fn embed_step(
    attrs: Seq<(Seq<char>, Seq<char>)>,
    resources: Seq<ResourceV>,
) -> Option<(Seq<(Seq<char>, Seq<char>)>, Seq<ResourceV>)> {
    match attr_position(attrs, src_name()) {
        None => Some((attrs, resources)),
        Some(i) => match embedding_of(attrs[i].1) {
            Embedding::NotEmbedded => Some((attrs, resources)),
            Embedding::Undecodable => None,
            Embedding::Embedded(r) => Some(
                (attrs.update(i, (attrs[i].0, r.path)), add_resource(resources, r)),
            ),
        },
    }
}

/// Whether every heading identifier numbered from 1 below `index` is in use.
pub open spec fn ids_cover(ids: Set<Seq<char>>, index: nat) -> bool {
    forall|j: nat| 1 <= j < index ==> ids.contains(#[trigger] heading_id(j))
}

/// The least number from `index` on whose heading identifier is not in use.
pub open spec fn fresh_heading_number(ids: Set<Seq<char>>, index: nat) -> nat {
    choose|k: nat|
        index <= k && !ids.contains(heading_id(k)) && forall|j: nat|
            index <= j < k ==> ids.contains(#[trigger] heading_id(j))
}

/// A heading element with a non-empty plain text becomes a navigation entry;
/// without an `id` attribute it receives a fresh identifier, appended as its
/// last attribute.
pub open spec fn heading_step(
    tag: Seq<char>,
    attrs: Seq<(Seq<char>, Seq<char>)>,
    children: Seq<NodeV>,
    st: VisitState,
) -> (Seq<(Seq<char>, Seq<char>)>, VisitState) {
    match heading_level_of(tag) {
        None => (attrs, st),
        Some(level) => {
            let title = plain_text_of(children);
            if title.len() == 0 {
                (attrs, st)
            } else {
                match attr_value(attrs, id_name()) {
                    Some(id) => (
                        attrs,
                        VisitState {
                            headings: st.headings.push(HeadingV { level, id, title }),
                            ..st
                        },
                    ),
                    None => {
                        let k = fresh_heading_number(st.ids, st.index);
                        let id = heading_id(k);
                        (
                            attrs.push((id_name(), id)),
                            VisitState {
                                ids: st.ids.insert(id),
                                index: k + 1,
                                headings: st.headings.push(HeadingV { level, id, title }),
                                ..st
                            },
                        )
                    },
                }
            }
        },
    }
}

/// Visiting an element: its tag and attributes update the content
/// properties, an embedded image in `src` is extracted, a heading is
/// recorded, then the children are visited in order. `None` when an
/// embedded image does not decode.
pub open spec fn visit_elem(e: ElemV, st: VisitState) -> Option<(ElemV, VisitState)>
    decreases e, 1int,
{
    let props = attr_properties(tag_properties(st.properties, e.tag), e.attrs);
    match embed_step(e.attrs, st.resources) {
        None => None,
        Some((attrs1, resources1)) => {
            let st1 = VisitState { properties: props, resources: resources1, ..st };
            let (attrs2, st2) = heading_step(e.tag, attrs1, e.children, st1);
            match visit_nodes(e.children, st2) {
                None => None,
                Some((children, st3)) => Some(
                    (ElemV { tag: e.tag, attrs: attrs2, children }, st3),
                ),
            }
        },
    }
}

/// Visiting a list of nodes from first to last.
pub open spec fn visit_nodes(ns: Seq<NodeV>, st: VisitState) -> Option<(Seq<NodeV>, VisitState)>
    decreases ns, 0int,
{
    if ns.len() == 0 {
        Some((Seq::empty(), st))
    } else {
        match visit_nodes(ns.drop_last(), st) {
            None => None,
            Some((done, st1)) => match visit_node(ns.last(), st1) {
                None => None,
                Some((n, st2)) => Some((done.push(n), st2)),
            },
        }
    }
}

/// Visiting a node: elements are visited, a frame means SVG content.
pub open spec fn visit_node(n: NodeV, st: VisitState) -> Option<(NodeV, VisitState)>
    decreases n, 2int,
{
    match n {
        NodeV::Element(e) => match visit_elem(e, st) {
            None => None,
            Some((e2, st2)) => Some((NodeV::Element(e2), st2)),
        },
        NodeV::Frame(id) => Some(
            (
                NodeV::Frame(id),
                VisitState {
                    properties: ContentProperties { svg: true, ..st.properties },
                    ..st
                },
            ),
        ),
        _ => Some((n, st)),
    }
}


/// Whether an element's first `src` attribute holds a supported base64 image
/// whose payload does not decode.
pub open spec fn own_undecodable(e: ElemV) -> bool {
    match attr_position(e.attrs, src_name()) {
        Some(i) => embedding_of(e.attrs[i].1) is Undecodable,
        None => false,
    }
}

/// Whether an element of the subtree has an undecodable image.
pub open spec fn undecodable_in_elem(e: ElemV) -> bool
    decreases e, 1int,
{
    own_undecodable(e) || undecodable_in_nodes(e.children)
}

pub open spec fn undecodable_in_nodes(ns: Seq<NodeV>) -> bool
    decreases ns, 0int,
{
    ns.len() > 0 && (undecodable_in_nodes(ns.drop_last()) || undecodable_in_node(ns.last()))
}

pub open spec fn undecodable_in_node(n: NodeV) -> bool
    decreases n, 2int,
{
    match n {
        NodeV::Element(e) => undecodable_in_elem(e),
        _ => false,
    }
}

pub(crate) proof fn lemma_visit_elem_fails(e: ElemV, st: VisitState)
    ensures
        visit_elem(e, st) is None <==> undecodable_in_elem(e),
    decreases e, 1int,
{
    match embed_step(e.attrs, st.resources) {
        None => {},
        Some((attrs1, resources1)) => {
            let props = attr_properties(
                tag_properties(st.properties, e.tag),
                e.attrs,
            );
            let st1 = VisitState { properties: props, resources: resources1, ..st };
            let st2 = heading_step(e.tag, attrs1, e.children, st1).1;
            lemma_visit_nodes_fails(e.children, st2);
        },
    }
}

pub(crate) proof fn lemma_visit_nodes_fails(ns: Seq<NodeV>, st: VisitState)
    ensures
        visit_nodes(ns, st) is None <==> undecodable_in_nodes(ns),
    decreases ns, 0int,
{
    if ns.len() > 0 {
        lemma_visit_nodes_fails(ns.drop_last(), st);
        match visit_nodes(ns.drop_last(), st) {
            None => {},
            Some((done, st1)) => lemma_visit_node_fails(ns.last(), st1),
        }
    }
}

pub(crate) proof fn lemma_visit_node_fails(n: NodeV, st: VisitState)
    ensures
        visit_node(n, st) is None <==> undecodable_in_node(n),
    decreases n, 2int,
{
    match n {
        NodeV::Element(e) => lemma_visit_elem_fails(e, st),
        _ => {},
    }
}


/// Where preparation stops on an image that does not decode: the positions
/// among the children, from the element down to the first element in
/// document order (an element before its children, children in order) whose
/// first `src` attribute holds an undecodable image.
pub open spec fn failure_in_elem(e: ElemV) -> Seq<int>
    decreases e, 1int,
{
    if own_undecodable(e) {
        Seq::empty()
    } else {
        failure_in_nodes(e.children)
    }
}

pub open spec fn failure_in_nodes(ns: Seq<NodeV>) -> Seq<int>
    decreases ns, 0int,
{
    if ns.len() == 0 {
        Seq::empty()
    } else if undecodable_in_nodes(ns.drop_last()) {
        failure_in_nodes(ns.drop_last())
    } else {
        seq![ns.len() - 1] + failure_in_node(ns.last())
    }
}

pub open spec fn failure_in_node(n: NodeV) -> Seq<int>
    decreases n, 2int,
{
    match n {
        NodeV::Element(e) => failure_in_elem(e),
        _ => Seq::empty(),
    }
}

/// The element that `path` leads to from `e`, following elements among the
/// children.
pub open spec fn element_at(e: ElemV, path: Seq<int>) -> Option<ElemV>
    decreases path.len(),
{
    if path.len() == 0 {
        Some(e)
    } else if 0 <= path[0] < e.children.len() {
        match e.children[path[0]] {
            NodeV::Element(c) => element_at(c, path.drop_first()),
            _ => None,
        }
    } else {
        None
    }
}

/// The positions of a path as integers.
pub open spec fn path_view(path: Vec<usize>) -> Seq<int> {
    path@.map_values(|k: usize| k as int)
}

/// When the first nodes hold no undecodable image and the next one does,
/// the failure lies in that next one.
proof fn lemma_failure_at(ns: Seq<NodeV>, i: int, j: int)
    requires
        0 <= i < j <= ns.len(),
        !undecodable_in_nodes(ns.take(i)),
        undecodable_in_node(ns[i]),
    ensures
        undecodable_in_nodes(ns.take(j)),
        failure_in_nodes(ns.take(j)) == seq![i] + failure_in_node(ns[i]),
    decreases j - i,
{
    if j == i + 1 {
        assert(ns.take(j).drop_last() =~= ns.take(i));
        assert(ns.take(j).last() == ns[i]);
    } else {
        lemma_failure_at(ns, i, j - 1);
        assert(ns.take(j).drop_last() =~= ns.take(j - 1));
    }
}

fn update_tag_properties(properties: &mut ContentProperties, tag: &str)
    ensures
        *final(properties) == tag_properties(*old(properties), tag@),
{
    let mathml = is_mathml(tag);
    let script = string_of(vec!['s', 'c', 'r', 'i', 'p', 't'].as_slice());
    let svg = string_of(vec!['s', 'v', 'g'].as_slice());
    let is_script = crate::text::same_text(tag, script.as_str());
    let is_svg = crate::text::same_text(tag, svg.as_str());
    properties.mathml = properties.mathml || mathml;
    properties.scripted = properties.scripted || is_script;
    properties.svg = properties.svg || is_svg;
}

fn is_source_attr(name: &str) -> (r: bool)
    ensures
        r == is_source_name(name@),
{
    let data = string_of(vec!['d', 'a', 't', 'a'].as_slice());
    let poster = string_of(vec!['p', 'o', 's', 't', 'e', 'r'].as_slice());
    let src = string_of(vec!['s', 'r', 'c'].as_slice());
    crate::text::same_text(name, data.as_str()) || crate::text::same_text(name, poster.as_str())
        || crate::text::same_text(name, src.as_str())
}

fn update_attr_properties(properties: &mut ContentProperties, attrs: &Vec<(String, String)>)
    ensures
        *final(properties) == attr_properties(*old(properties), attrs_view(attrs@)),
{
    let ghost p0 = *properties;
    let ghost av = attrs_view(attrs@);
    let on = string_of(vec!['o', 'n'].as_slice());
    let mut i: usize = 0;
    while i < attrs.len()
        invariant
            i <= attrs.len(),
            av == attrs_view(attrs@),
            on@ == seq!['o', 'n'],
            *properties == attr_properties(p0, av.take(i as int)),
        decreases attrs.len() - i,
    {
        let name = attrs[i].0.as_str();
        let value = attrs[i].1.as_str();
        let handler = str_starts_with(name, on.as_str());
        let remote = is_source_attr(name) && is_remote(value);
        let ghost before = *properties;
        properties.scripted = properties.scripted || handler;
        properties.remote_resources = properties.remote_resources || remote;
        proof {
            let t0 = av.take(i as int);
            let t1 = av.take(i + 1);
            assert(t1[i as int] == av[i as int]);
            assert(av[i as int].0 == name@);
            assert(av[i as int].1 == value@);
            assert forall|k: int| 0 <= k < i implies #[trigger] t1[k] == t0[k] by {}
            let q1 = exists|k: int|
                0 <= k < t1.len() && seq!['o', 'n'].is_prefix_of(#[trigger] t1[k].0);
            let q0 = exists|k: int|
                0 <= k < t0.len() && seq!['o', 'n'].is_prefix_of(#[trigger] t0[k].0);
            if q1 {
                let k = choose|k: int| 0 <= k < t1.len() && seq!['o', 'n'].is_prefix_of(#[trigger] t1[k].0);
                if k < i {
                    assert(t0[k] == t1[k]);
                }
            }
            if q0 {
                let k = choose|k: int| 0 <= k < t0.len() && seq!['o', 'n'].is_prefix_of(#[trigger] t0[k].0);
                assert(t1[k] == t0[k]);
            }
            let r1 = exists|k: int|
                0 <= k < t1.len() && is_source_name(#[trigger] t1[k].0) && is_remote_url(t1[k].1);
            let r0 = exists|k: int|
                0 <= k < t0.len() && is_source_name(#[trigger] t0[k].0) && is_remote_url(t0[k].1);
            if r1 {
                let k = choose|k: int| 0 <= k < t1.len() && is_source_name(#[trigger] t1[k].0) && is_remote_url(t1[k].1);
                if k < i {
                    assert(t0[k] == t1[k]);
                }
            }
            if r0 {
                let k = choose|k: int| 0 <= k < t0.len() && is_source_name(#[trigger] t0[k].0) && is_remote_url(t0[k].1);
                assert(t1[k] == t0[k]);
            }
        }
        i = i + 1;
    }
    assert(av.take(attrs.len() as int) =~= av);
}

/// Extracts the embedded image of the first `src` attribute, if any.
fn embed_source(attrs: &mut Vec<(String, String)>, resources: &mut Vec<Resource>) -> (r: Result<
    (),
    EpubError,
>)
    requires
        paths_increase(resources_view(old(resources)@)),
    ensures
        match (r, embed_step(attrs_view(old(attrs)@), resources_view(old(resources)@))) {
            (Ok(()), Some((a, rs))) => attrs_view(final(attrs)@) == a && resources_view(
                final(resources)@,
            ) == rs,
            (Err(e), None) => decode_failure_message(e.message@),
            _ => false,
        },
        r is Ok ==> paths_increase(resources_view(final(resources)@)),
{
    let ghost av = attrs_view(attrs@);
    proof { lemma_attr_position(av, src_name()); }
    let src = string_of(vec!['s', 'r', 'c'].as_slice());
    match find_attr(attrs, src.as_str()) {
        None => Ok(()),
        Some(pos) => {
            assert(av[pos as int].1 == attrs@[pos as int].1@);
            match decode_data_resource(attrs[pos].1.as_str()) {
                Err(e) => Err(e),
                Ok(None) => Ok(()),
                Ok(Some(resource)) => {
                    let path = resource.path.clone();
                    proof { lemma_add_resource(resources_view(resources@), resource_view(resource)); }
                    insert_resource(resources, resource);
                    let name = attrs[pos].0.clone();
                    attrs.set(pos, (name, path));
                    assert(attrs_view(attrs@) =~= av.update(pos as int, (av[pos as int].0, path@)));
                    Ok(())
                },
            }
        },
    }
}

proof fn lemma_fresh_heading_number(ids: Set<Seq<char>>, index: nat, k: nat)
    requires
        index <= k,
        !ids.contains(heading_id(k)),
        forall|j: nat| index <= j < k ==> ids.contains(#[trigger] heading_id(j)),
    ensures
        fresh_heading_number(ids, index) == k,
{
    let c = fresh_heading_number(ids, index);
    assert(index <= c && !ids.contains(heading_id(c)) && forall|j: nat|
        index <= j < c ==> ids.contains(#[trigger] heading_id(j)));
    if c < k {
        assert(ids.contains(heading_id(c)));
    } else if k < c {
        assert(ids.contains(heading_id(k)));
    }
}

/// The heading identifiers below `index` being in use bounds `index` by the
/// number of stored identifiers.
proof fn lemma_cover_bound(ids: &IdSet, index: nat)
    requires
        ids_cover(ids@, index),
        index >= 1,
    ensures
        index <= ids.stored() + 1,
{
    ids.lemma_size();
    crate::ids::lemma_taken_ids_bound(1, index, ids@);
}

/// Records a heading element in the navigation, giving it an identifier if it
/// has none.
fn record_heading(
    element: &mut HtmlElement,
    ids: &mut IdSet,
    index: &mut usize,
    headings: &mut Vec<Heading>,
    Ghost(st): Ghost<VisitState>,
)
    requires
        ids_cover(old(ids)@, *old(index) as nat),
        *old(index) >= 1,
        2 * old(ids).stored() + 2 < usize::MAX,
        st.ids == old(ids)@,
        st.index == *old(index) as nat,
        st.headings == headings_view(old(headings)@),
    ensures
        ({
            let (a, st2) = heading_step(
                old(element).tag@,
                attrs_view(old(element).attrs@),
                nodes_view(old(element).children@),
                st,
            );
            &&& attrs_view(final(element).attrs@) == a
            &&& final(ids)@ == st2.ids
            &&& *final(index) as nat == st2.index
            &&& headings_view(final(headings)@) == st2.headings
        }),
        final(element).tag == old(element).tag,
        final(element).children == old(element).children,
        ids_cover(final(ids)@, *final(index) as nat),
        *final(index) >= 1,
        final(ids).stored() <= old(ids).stored() + 1,
{
    let ghost av = attrs_view(element.attrs@);
    let level = match heading_level(element) {
        Some(level) => level,
        None => return,
    };
    let title = plain_text(&element.children);
    if title.as_str().is_empty() {
        return;
    }
    proof { lemma_attr_position(av, id_name()); }
    let idname = string_of(vec!['i', 'd'].as_slice());
    let id = match find_attr(&element.attrs, idname.as_str()) {
        Some(p) => {
            assert(av[p as int].1 == element.attrs@[p as int].1@);
            element.attrs[p].1.clone()
        },
        None => {
            proof { lemma_cover_bound(ids, *index as nat); }
            let ghost ids0 = ids@;
            let ghost index0 = *index;
            let id = next_heading_id(ids, index);
            proof {
                lemma_fresh_heading_number(ids0, index0 as nat, (*index - 1) as nat);
                assert forall|j: nat| 1 <= j < *index implies ids@.contains(#[trigger] heading_id(j)) by {
                    if j < index0 {
                        assert(ids0.contains(heading_id(j)));
                    } else if j < *index - 1 {
                        assert(ids0.contains(heading_id(j)));
                    }
                }
            }
            let idname2 = string_of(vec!['i', 'd'].as_slice());
            element.attrs.push((idname2, id.clone()));
            assert(attrs_view(element.attrs@) =~= av.push((id_name(), id@)));
            id
        },
    };
    headings.push(Heading { level, id, title });
    assert(headings_view(headings@) =~= st.headings.push(
        HeadingV { level, id: headings@.last().id@, title: headings@.last().title@ },
    ));
}


proof fn lemma_visit_nodes_failed(ns: Seq<NodeV>, j: int, st: VisitState)
    requires
        0 <= j <= ns.len(),
        visit_nodes(ns.take(j), st) is None,
    ensures
        visit_nodes(ns, st) is None,
    decreases ns.len() - j,
{
    if j < ns.len() {
        assert(ns.take(j + 1).drop_last() =~= ns.take(j));
        lemma_visit_nodes_failed(ns, j + 1, st);
    } else {
        assert(ns.take(j) =~= ns);
    }
}

/// Visit the DOM, extracting resources and building navigation metadata.
fn visit(
    element: &mut HtmlElement,
    ids: &mut IdSet,
    index: &mut usize,
    headings: &mut Vec<Heading>,
    resources: &mut Vec<Resource>,
    properties: &mut ContentProperties,
) -> (r: Result<(), EpubError>)
    requires
        ids_cover(old(ids)@, *old(index) as nat),
        *old(index) >= 1,
        2 * (old(ids).stored() + elem_size(elem_view(*old(element)))) + 2 < usize::MAX,
        paths_increase(resources_view(old(resources)@)),
    ensures
        match (
            r,
            visit_elem(
                elem_view(*old(element)),
                state_of(old(ids)@, *old(index), old(headings)@, old(resources)@, *old(properties)),
            ),
        ) {
            (Ok(()), Some((e2, st2))) => elem_view(*final(element)) == e2 && state_of(
                final(ids)@,
                *final(index),
                final(headings)@,
                final(resources)@,
                *final(properties),
            ) == st2,
            (Err(e), None) => decode_failure_message(e.message@) && (e.element matches Some(p)
                && path_view(p) == failure_in_elem(elem_view(*old(element)))),
            _ => false,
        },
        r is Ok ==> {
            &&& ids_cover(final(ids)@, *final(index) as nat)
            &&& *final(index) >= 1
            &&& final(ids).stored() <= old(ids).stored() + elem_size(elem_view(*old(element)))
            &&& paths_increase(resources_view(final(resources)@))
        },
    decreases *old(element),
{
    let ghost ev = elem_view(*element);
    let ghost st0 = state_of(ids@, *index, headings@, resources@, *properties);
    let ghost stored0 = ids.stored();
    update_tag_properties(properties, element.tag.as_str());
    update_attr_properties(properties, &element.attrs);
    match embed_source(&mut element.attrs, resources) {
        Err(e) => {
            let here: Vec<usize> = Vec::new();
            assert(path_view(here) =~= Seq::<int>::empty());
            return Err(EpubError { message: e.message, element: Some(here) });
        },
        Ok(()) => {},
    }
    assert(!own_undecodable(ev));
    let ghost st1 = state_of(ids@, *index, headings@, resources@, *properties);
    assert(st1 == VisitState {
        properties: attr_properties(tag_properties(st0.properties, ev.tag), ev.attrs),
        resources: embed_step(ev.attrs, st0.resources).unwrap().1,
        ..st0
    });
    record_heading(element, ids, index, headings, Ghost(st1));
    let ghost st2 = state_of(ids@, *index, headings@, resources@, *properties);
    let ghost attrs2 = attrs_view(element.attrs@);
    proof {
        let attrs1 = embed_step(ev.attrs, st0.resources).unwrap().0;
        let hs = heading_step(ev.tag, attrs1, ev.children, st1);
        assert(attrs2 == hs.0);
        assert(st2 == hs.1);
    }
    let ghost cs0 = element.children@;
    let ghost stored_mid = ids.stored();
    assert(nodes_view(cs0) == ev.children);
    let n = element.children.len();
    let mut i: usize = 0;
    assert(cs0.take(0) =~= Seq::<HtmlNode>::empty());
    assert(element.children@.take(0) =~= Seq::<HtmlNode>::empty());
    while i < n
        invariant
            cs0 == old(element).children@,
            ev == elem_view(*old(element)),
            !own_undecodable(ev),
            st0 == state_of(old(ids)@, *old(index), old(headings)@, old(resources)@, *old(properties)),
            visit_elem(ev, st0) == match visit_nodes(nodes_view(cs0), st2) {
                None => None,
                Some((c, s)) => Some((ElemV { tag: ev.tag, attrs: attrs2, children: c }, s)),
            },
            n == element.children.len(),
            n == cs0.len(),
            i <= n,
            element.tag@ == ev.tag,
            attrs_view(element.attrs@) == attrs2,
            forall|k: int| i <= k < n ==> element.children@[k] == cs0[k],
            visit_nodes(nodes_view(cs0.take(i as int)), st2) == Some(
                (
                    nodes_view(element.children@.take(i as int)),
                    state_of(ids@, *index, headings@, resources@, *properties),
                ),
            ),
            ids_cover(ids@, *index as nat),
            *index >= 1,
            ids.stored() <= stored_mid + nodes_size(nodes_view(cs0.take(i as int))),
            2 * (stored_mid + nodes_size(nodes_view(cs0))) + 2 < usize::MAX,
            paths_increase(resources_view(resources@)),
        decreases n - i,
    {
        let ghost cur = state_of(ids@, *index, headings@, resources@, *properties);
        let ghost done = nodes_view(element.children@.take(i as int));
        proof {
            lemma_nodes_step(cs0, i as int);
            crate::dom::lemma_nodes_view(cs0);
            lemma_nodes_size_prefix(nodes_view(cs0), i + 1);
            lemma_nodes_take(cs0, i + 1);
        }
        let ghost pre = element.children@;
        let mut node = HtmlNode::Tag;
        element.children.set_and_swap(i, &mut node);
        assert(node == cs0[i as int]);
        match node {
            HtmlNode::Element(mut child) => {
                assert(decreases_to!(*old(element) => old(element).children@[i as int]));
                proof {
                    let nv = nodes_view(cs0.take(i + 1));
                    assert(node_view(cs0[i as int]) == NodeV::Element(elem_view(child)));
                    assert(nv.len() > 0);
                    assert(nodes_size(nv) == nodes_size(nv.drop_last()) + node_size(nv.last()));
                    assert(nodes_size(nv) == nodes_size(nodes_view(cs0.take(i as int))) + elem_size(elem_view(child)));
                    assert(nodes_size(nv) <= nodes_size(nodes_view(cs0)));
                }
                let ghost child_view = elem_view(child);
                match visit(&mut child, ids, index, headings, resources, properties) {
                    Err(e) => {
                        proof {
                            let nv = nodes_view(cs0.take(i + 1));
                            assert(visit_node(node_view(cs0[i as int]), cur) is None);
                            assert(visit_nodes(nv, st2) is None);
                            lemma_visit_nodes_failed(nodes_view(cs0), i + 1, st2);
                            let all = nodes_view(cs0);
                            lemma_nodes_take(cs0, i as int);
                            lemma_visit_nodes_fails(all.take(i as int), st2);
                            lemma_visit_elem_fails(child_view, cur);
                            assert(all[i as int] == NodeV::Element(child_view));
                            lemma_failure_at(all, i as int, all.len() as int);
                            assert(all.take(all.len() as int) =~= all);
                        }
                        let path = match e.element {
                            Some(p) => {
                                let mut p = p;
                                let ghost below = path_view(p);
                                p.insert(0, i);
                                assert(path_view(p) =~= seq![i as int] + below);
                                Some(p)
                            },
                            None => None,
                        };
                        return Err(EpubError { message: e.message, element: path });
                    },
                    Ok(()) => {},
                }
                element.children.set(i, HtmlNode::Element(child));
            },
            HtmlNode::Frame(frame) => {
                properties.svg = true;
                element.children.set(i, HtmlNode::Frame(frame));
            },
            other => {
                element.children.set(i, other);
            },
        }
        proof {
            assert(element.children@.take(i as int) =~= pre.take(i as int));
            lemma_nodes_step(element.children@, i as int);
        }
        i = i + 1;
    }
    proof {
        assert(cs0.take(n as int) =~= cs0);
        assert(element.children@.take(n as int) =~= element.children@);
        lemma_nodes_take(cs0, 0);
    }
    Ok(())
}


/// A document prepared for serialization into an EPUB.
#[derive(Debug)]
pub struct Prepared {
    pub document: HtmlDocument,
    pub headings: Vec<Heading>,
    pub resources: Vec<Resource>,
    pub properties: ContentProperties,
}

/// No content properties set.
pub open spec fn no_properties() -> ContentProperties {
    ContentProperties { mathml: false, remote_resources: false, scripted: false, svg: false }
}

/// The state before the traversal: the identifiers of the document in use,
/// heading numbers starting at 1, nothing found yet.
pub open spec fn initial_state(root: ElemV) -> VisitState {
    VisitState {
        ids: ids_in_elem(root),
        index: 1,
        headings: Seq::empty(),
        resources: Seq::empty(),
        properties: no_properties(),
    }
}

/// The prepared root element and the final traversal state, or `None` when
/// an embedded image does not decode.
pub open spec fn prepared_of(root: ElemV) -> Option<(ElemV, VisitState)> {
    visit_elem(root, initial_state(root))
}

/// Clone and adapt an HTML document for the restrictions of EPUB.
pub fn prepare(document: &HtmlDocument) -> (r: Result<Prepared, EpubError>)
    requires
        4 * elem_size(elem_view(document.root)) + 2 < usize::MAX,
    ensures
        match (r, prepared_of(elem_view(document.root))) {
            (Ok(p), Some((root, st))) => {
                &&& elem_view(p.document.root) == root
                &&& info_view(p.document.info) == info_view(document.info)
                &&& headings_view(p.headings@) == st.headings
                &&& resources_view(p.resources@) == st.resources
                &&& p.properties == st.properties
            },
            (Err(e), None) => decode_failure_message(e.message@) && (e.element matches Some(p)
                && path_view(p) == failure_in_elem(elem_view(document.root))),
            _ => false,
        },
        r matches Ok(p) ==> paths_increase(resources_view(p.resources@)),
{
    let mut root = copy_element(&document.root);
    let info = copy_info(&document.info);
    let mut used_ids = IdSet::new();
    collect_ids(&root, &mut used_ids);
    assert(used_ids@ =~= ids_in_elem(elem_view(document.root)));
    let mut headings: Vec<Heading> = Vec::new();
    let mut resources: Vec<Resource> = Vec::new();
    let mut properties = ContentProperties::default();
    let mut heading_index: usize = 1;
    proof {
        assert(headings_view(headings@) =~= Seq::<HeadingV>::empty());
        assert(resources_view(resources@) =~= Seq::<ResourceV>::empty());
    }
    match visit(
        &mut root,
        &mut used_ids,
        &mut heading_index,
        &mut headings,
        &mut resources,
        &mut properties,
    ) {
        Err(e) => Err(e),
        Ok(()) => Ok(
            Prepared { document: HtmlDocument { root, info }, headings, resources, properties },
        ),
    }
}

/// Resolve the document language, defaulting to English.
pub fn language(info: &DocumentInfo) -> (l: Locale)
    ensures
        locale_view(l) == language_of(info_view(*info)),
{
    match &info.locale {
        Smart::Custom(locale) => copy_locale(locale),
        Smart::Auto => Locale::default_locale(),
    }
}

} // verus!
