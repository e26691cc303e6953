//! What preparation changes in a document and what it keeps: the tree keeps
//! its shape, only a `src` value may change and an `id` may be added; every
//! heading becomes a navigation entry, and the identifiers that headings
//! receive collide with none of the document's.
use vstd::prelude::*;

use crate::dom::{attr_position, attr_value, ElemV, NodeV};
use crate::resource::{embedding_of, is_remote_url, Embedding};
use crate::ids::{heading_id, lemma_taken_ids_bound};
use crate::prepare::{
    embed_step, heading_level_of, heading_step, id_name, ids_in_elem, ids_in_node, ids_in_nodes,
    plain_text_of, prepared_of, src_name, visit_elem, visit_node, visit_nodes, fresh_heading_number,
    HeadingV, ResourceV, VisitState, initial_state, add_resource, lemma_add_resource,
    lemma_visit_elem_fails, undecodable_in_elem, undecodable_in_nodes, undecodable_in_node,
    own_undecodable, failure_in_elem, failure_in_nodes, failure_in_node, element_at,
    lemma_lower_bound, lower_bound, paths_increase, attr_properties, tag_properties, is_source_name,
    text_of_nodes, text_of_node, mathml_tag, ContentProperties,
};

verus! {

/// A `src` value after extraction: the path of the resource that it
/// embeds, or the value itself.
pub open spec fn extracted_value(value: Seq<char>) -> Seq<char> {
    match embedding_of(value) {
        Embedding::Embedded(r) => r.path,
        _ => value,
    }
}

/// The attributes `b` are `a` adapted: the names stay in order, the first
/// `src` attribute points at the resource that it embedded, every other value
/// stays, and an `id` attribute may be appended where `a` has none.
pub open spec fn attrs_adapted(
    a: Seq<(Seq<char>, Seq<char>)>,
    b: Seq<(Seq<char>, Seq<char>)>,
) -> bool {
    &&& a.len() <= b.len() <= a.len() + 1
    &&& forall|i: int|
        0 <= i < a.len() ==> #[trigger] b[i].0 == a[i].0 && b[i].1 == if attr_position(
            a,
            src_name(),
        ) == Some(i) {
            extracted_value(a[i].1)
        } else {
            a[i].1
        }
    &&& b.len() == a.len() + 1 ==> b.last().0 == id_name() && attr_value(a, id_name()) is None
}

/// `b` is `a` with adapted attributes: the same tags, texts, frames and
/// children, in the same places.
pub open spec fn same_shape_elem(a: ElemV, b: ElemV) -> bool
    decreases a, 1int,
{
    &&& a.tag == b.tag
    &&& attrs_adapted(a.attrs, b.attrs)
    &&& same_shape_nodes(a.children, b.children)
}

pub open spec fn same_shape_nodes(a: Seq<NodeV>, b: Seq<NodeV>) -> bool
    decreases a, 0int,
{
    &&& a.len() == b.len()
    &&& a.len() > 0 ==> same_shape_nodes(a.drop_last(), b.drop_last()) && same_shape_node(
        a.last(),
        b.last(),
    )
}

pub open spec fn same_shape_node(a: NodeV, b: NodeV) -> bool
    decreases a, 2int,
{
    match a {
        NodeV::Element(x) => match b {
            NodeV::Element(y) => same_shape_elem(x, y),
            _ => false,
        },
        _ => a == b,
    }
}

proof fn lemma_embed_adapts(attrs: Seq<(Seq<char>, Seq<char>)>, resources: Seq<ResourceV>)
    requires
        embed_step(attrs, resources) is Some,
    ensures
        ({
            let attrs1 = embed_step(attrs, resources).unwrap().0;
            &&& attrs1.len() == attrs.len()
            &&& forall|i: int|
                0 <= i < attrs.len() ==> #[trigger] attrs1[i].0 == attrs[i].0 && attrs1[i].1
                    == if attr_position(attrs, src_name()) == Some(i) {
                    extracted_value(attrs[i].1)
                } else {
                    attrs[i].1
                }
            &&& attr_value(attrs1, id_name()) == attr_value(attrs, id_name())
        }),
{
    crate::dom::lemma_attr_position(attrs, src_name());
    let attrs1 = embed_step(attrs, resources).unwrap().0;
    lemma_attr_value_same_names(attrs, attrs1, id_name());
}

/// Two attribute lists with the same names, and the same values under
/// `name`, give the same value for `name`.
proof fn lemma_attr_value_same_names(
    a: Seq<(Seq<char>, Seq<char>)>,
    b: Seq<(Seq<char>, Seq<char>)>,
    name: Seq<char>,
)
    requires
        a.len() == b.len(),
        forall|i: int| 0 <= i < a.len() ==> #[trigger] b[i].0 == a[i].0,
        forall|i: int| 0 <= i < a.len() && a[i].0 == name ==> #[trigger] b[i].1 == a[i].1,
    ensures
        attr_value(a, name) == attr_value(b, name),
    decreases a.len(),
{
    if a.len() > 0 {
        assert(b[0].0 == a[0].0);
        assert forall|i: int| 0 <= i < a.drop_first().len() implies #[trigger] b.drop_first()[i].0
            == a.drop_first()[i].0 by {
            assert(b[i + 1].0 == a[i + 1].0);
        }
        assert forall|i: int|
            0 <= i < a.drop_first().len() && a.drop_first()[i].0 == name implies #[trigger] b.drop_first()[i].1
            == a.drop_first()[i].1 by {
            assert(a[i + 1].0 == name);
            assert(b[i + 1].1 == a[i + 1].1);
        }
        if a[0].0 == name {
            assert(b[0].1 == a[0].1);
        } else {
            lemma_attr_value_same_names(a.drop_first(), b.drop_first(), name);
        }
    }
}

proof fn lemma_visit_elem_shape(e: ElemV, st: VisitState)
    requires
        visit_elem(e, st) is Some,
    ensures
        same_shape_elem(e, visit_elem(e, st).unwrap().0),
    decreases e, 1int,
{
    lemma_embed_adapts(e.attrs, st.resources);
    let (attrs1, resources1) = embed_step(e.attrs, st.resources).unwrap();
    let props = crate::prepare::attr_properties(
        crate::prepare::tag_properties(st.properties, e.tag),
        e.attrs,
    );
    let st1 = VisitState { properties: props, resources: resources1, ..st };
    let (attrs2, st2) = heading_step(e.tag, attrs1, e.children, st1);
    lemma_visit_nodes_shape(e.children, st2);
    let e2 = visit_elem(e, st).unwrap().0;
    assert(e2.attrs == attrs2);
    assert(attrs_adapted(e.attrs, attrs2)) by {
        if attrs2.len() == attrs1.len() + 1 {
            assert(attrs2 == attrs1.push((id_name(), attrs2.last().1)));
            assert forall|i: int| 0 <= i < e.attrs.len() implies #[trigger] attrs2[i].0
                == e.attrs[i].0 && attrs2[i].1 == if attr_position(e.attrs, src_name()) == Some(i) {
                extracted_value(e.attrs[i].1)
            } else {
                e.attrs[i].1
            } by {
                assert(attrs2[i] == attrs1[i]);
                assert(attrs1[i].0 == e.attrs[i].0);
            }
        }
    }
}

proof fn lemma_visit_nodes_shape(ns: Seq<NodeV>, st: VisitState)
    requires
        visit_nodes(ns, st) is Some,
    ensures
        same_shape_nodes(ns, visit_nodes(ns, st).unwrap().0),
    decreases ns, 0int,
{
    if ns.len() > 0 {
        lemma_visit_nodes_shape(ns.drop_last(), st);
        let (done, st1) = visit_nodes(ns.drop_last(), st).unwrap();
        lemma_visit_node_shape(ns.last(), st1);
        let out = visit_nodes(ns, st).unwrap().0;
        let n = visit_node(ns.last(), st1).unwrap().0;
        assert(out == done.push(n));
        assert(out.drop_last() =~= done);
    }
}

proof fn lemma_visit_node_shape(n: NodeV, st: VisitState)
    requires
        visit_node(n, st) is Some,
    ensures
        same_shape_node(n, visit_node(n, st).unwrap().0),
    decreases n, 2int,
{
    match n {
        NodeV::Element(e) => lemma_visit_elem_shape(e, st),
        _ => {},
    }
}

/// Preparation keeps the document's tree: the prepared root has the same
/// tags, texts, frames and children in the same places as the original, and
/// its attributes differ only in the value of a `src` attribute and in an
/// `id` attribute appended to an element that had none.
pub proof fn lemma_prepare_keeps_shape(root: ElemV)
    requires
        prepared_of(root) is Some,
    ensures
        same_shape_elem(root, prepared_of(root).unwrap().0),
{
    lemma_visit_elem_shape(root, initial_state(root));
}

/// A heading element as preparation meets it, in document order: its level,
/// the identifier it carries, if any, and its plain text.
pub struct HeadingSite {
    pub level: u8,
    pub id: Option<Seq<char>>,
    pub title: Seq<char>,
}

/// The element itself as a heading site: a heading element `h1` to `h6` whose
/// plain text is not empty.
pub open spec fn own_site(e: ElemV) -> Seq<HeadingSite> {
    match heading_level_of(e.tag) {
        Some(level) => if plain_text_of(e.children).len() > 0 {
            seq![
                HeadingSite {
                    level,
                    id: attr_value(e.attrs, id_name()),
                    title: plain_text_of(e.children),
                },
            ]
        } else {
            Seq::empty()
        },
        None => Seq::empty(),
    }
}

/// The heading sites of an element's subtree, in document order.
pub open spec fn sites_in_elem(e: ElemV) -> Seq<HeadingSite>
    decreases e, 1int,
{
    own_site(e) + sites_in_nodes(e.children)
}

pub open spec fn sites_in_nodes(ns: Seq<NodeV>) -> Seq<HeadingSite>
    decreases ns, 0int,
{
    if ns.len() == 0 {
        Seq::empty()
    } else {
        sites_in_nodes(ns.drop_last()) + sites_in_node(ns.last())
    }
}

pub open spec fn sites_in_node(n: NodeV) -> Seq<HeadingSite>
    decreases n, 2int,
{
    match n {
        NodeV::Element(e) => sites_in_elem(e),
        _ => Seq::empty(),
    }
}

/// `entry` is the navigation entry of the heading `site`: same level and
/// text, and the site's identifier if it has one, else an identifier
/// `heading-<k>` that is not among `document_ids`.
pub open spec fn entry_for(site: HeadingSite, entry: HeadingV, document_ids: Set<Seq<char>>) -> bool {
    &&& entry.level == site.level
    &&& entry.title == site.title
    &&& match site.id {
        Some(id) => entry.id == id,
        None => !document_ids.contains(entry.id) && exists|k: nat|
            1 <= k && entry.id == #[trigger] heading_id(k),
    }
}

/// The traversal state holds one entry for each of `sites`, and the
/// identifiers in use include the document's identifiers `original` and
/// those of all entries; a given identifier is one of the document's, and a
/// new one is the identifier of no other entry.
pub open spec fn entries_identified(
    original: Set<Seq<char>>,
    sites: Seq<HeadingSite>,
    st: VisitState,
) -> bool {
    &&& st.ids.finite()
    &&& original.subset_of(st.ids)
    &&& st.index >= 1
    &&& st.headings.len() == sites.len()
    &&& forall|j: int|
        0 <= j < sites.len() ==> #[trigger] entry_for(sites[j], st.headings[j], original)
    &&& forall|j: int| 0 <= j < sites.len() ==> st.ids.contains(#[trigger] st.headings[j].id)
    &&& forall|j: int|
        0 <= j < sites.len() && #[trigger] sites[j].id is Some ==> original.contains(
            sites[j].id.unwrap(),
        )
    &&& forall|i: int, j: int|
        #![trigger st.headings[i], sites[j]]
        0 <= i < sites.len() && 0 <= j < sites.len() && i != j && sites[j].id is None
            ==> st.headings[i].id != st.headings[j].id
}

/// The least number from `index` on whose heading identifier is not in
/// `ids`, given one such number `k0`.
proof fn lemma_first_free(ids: Set<Seq<char>>, index: nat, k0: nat) -> (k: nat)
    requires
        index <= k0,
        !ids.contains(heading_id(k0)),
    ensures
        index <= k <= k0,
        !ids.contains(heading_id(k)),
        forall|j: nat| index <= j < k ==> ids.contains(#[trigger] heading_id(j)),
    decreases k0 - index,
{
    if !ids.contains(heading_id(index)) {
        index
    } else {
        let k = lemma_first_free(ids, index + 1, k0);
        assert forall|j: nat| index <= j < k implies ids.contains(#[trigger] heading_id(j)) by {
            if j > index {
                assert(index + 1 <= j);
            }
        }
        k
    }
}

/// With finitely many identifiers in use, a free heading number exists.
proof fn lemma_fresh_number(ids: Set<Seq<char>>, index: nat)
    requires
        ids.finite(),
    ensures
        index <= fresh_heading_number(ids, index),
        !ids.contains(heading_id(fresh_heading_number(ids, index))),
        forall|j: nat|
            index <= j < fresh_heading_number(ids, index) ==> ids.contains(#[trigger] heading_id(j)),
{
    let end = index + ids.len() + 1;
    if forall|j: nat| index <= j < end ==> ids.contains(#[trigger] heading_id(j)) {
        lemma_taken_ids_bound(index, end, ids);
    }
    assert(exists|j: nat| index <= j < end && !ids.contains(#[trigger] heading_id(j)));
    let k0 = choose|j: nat| index <= j < end && !ids.contains(#[trigger] heading_id(j));
    let k = lemma_first_free(ids, index, k0);
    assert(index <= k && !ids.contains(heading_id(k)) && forall|j: nat|
        index <= j < k ==> ids.contains(#[trigger] heading_id(j)));
}

proof fn lemma_ids_finite_elem(e: ElemV)
    ensures
        ids_in_elem(e).finite(),
    decreases e, 1int,
{
    lemma_ids_finite_nodes(e.children);
}

proof fn lemma_ids_finite_nodes(ns: Seq<NodeV>)
    ensures
        ids_in_nodes(ns).finite(),
    decreases ns, 0int,
{
    if ns.len() > 0 {
        lemma_ids_finite_nodes(ns.drop_last());
        lemma_ids_finite_node(ns.last());
    }
}

proof fn lemma_ids_finite_node(n: NodeV)
    ensures
        ids_in_node(n).finite(),
    decreases n, 2int,
{
    match n {
        NodeV::Element(e) => lemma_ids_finite_elem(e),
        _ => {},
    }
}

/// The heading step adds the entry of the element's own heading site.
proof fn lemma_heading_step_entries(
    e: ElemV,
    attrs1: Seq<(Seq<char>, Seq<char>)>,
    st: VisitState,
    original: Set<Seq<char>>,
    sites: Seq<HeadingSite>,
)
    requires
        entries_identified(original, sites, st),
        ids_in_elem(e).subset_of(original),
        attr_value(attrs1, id_name()) == attr_value(e.attrs, id_name()),
    ensures
        entries_identified(original, sites + own_site(e), heading_step(e.tag, attrs1, e.children, st).1),
{
    let st2 = heading_step(e.tag, attrs1, e.children, st).1;
    let all = sites + own_site(e);
    match heading_level_of(e.tag) {
        None => {
            assert(all =~= sites);
        },
        Some(level) => {
            let title = plain_text_of(e.children);
            if title.len() == 0 {
                assert(all =~= sites);
            } else {
                let n = sites.len() as int;
                let site = HeadingSite { level, id: attr_value(e.attrs, id_name()), title };
                assert(all =~= sites.push(site));
                match attr_value(e.attrs, id_name()) {
                    Some(id) => {
                        assert(ids_in_elem(e).contains(id));
                        assert(st2.headings == st.headings.push(HeadingV { level, id, title }));
                        assert(entry_for(site, st2.headings[n], original));
                        assert forall|j: int| 0 <= j < all.len() implies #[trigger] entry_for(
                            all[j],
                            st2.headings[j],
                            original,
                        ) by {
                            if j < n {
                                assert(all[j] == sites[j]);
                                assert(st2.headings[j] == st.headings[j]);
                            }
                        }
                        assert forall|j: int| 0 <= j < all.len() implies st2.ids.contains(
                            #[trigger] st2.headings[j].id,
                        ) by {
                            if j < n {
                                assert(st2.headings[j] == st.headings[j]);
                            }
                        }
                        assert forall|j: int|
                            0 <= j < all.len() && #[trigger] all[j].id is Some implies original.contains(
                            all[j].id.unwrap(),
                        ) by {
                            if j < n {
                                assert(all[j] == sites[j]);
                            }
                        }
                        assert forall|i: int, j: int|
                            0 <= i < all.len() && 0 <= j < all.len() && i != j && all[j].id is None implies #[trigger] st2.headings[i].id
                            != #[trigger] st2.headings[j].id by {
                            assert(j < n);
                            assert(all[j] == sites[j]);
                            assert(st2.headings[j] == st.headings[j]);
                            assert(entry_for(sites[j], st.headings[j], original));
                            if i < n {
                                assert(st2.headings[i] == st.headings[i]);
                                assert(st.headings[i].id != st.headings[j].id);
                            }
                        }
                    },
                    None => {
                        lemma_fresh_number(st.ids, st.index);
                        let k = fresh_heading_number(st.ids, st.index);
                        let id = heading_id(k);
                        assert(st2.headings == st.headings.push(HeadingV { level, id, title }));
                        assert(st2.ids == st.ids.insert(id));
                        assert(!original.contains(id));
                        assert(entry_for(site, st2.headings[n], original));
                        assert forall|j: int| 0 <= j < all.len() implies #[trigger] entry_for(
                            all[j],
                            st2.headings[j],
                            original,
                        ) by {
                            if j < n {
                                assert(all[j] == sites[j]);
                                assert(st2.headings[j] == st.headings[j]);
                            }
                        }
                        assert forall|j: int| 0 <= j < all.len() implies st2.ids.contains(
                            #[trigger] st2.headings[j].id,
                        ) by {
                            if j < n {
                                assert(st2.headings[j] == st.headings[j]);
                            }
                        }
                        assert forall|j: int|
                            0 <= j < all.len() && #[trigger] all[j].id is Some implies original.contains(
                            all[j].id.unwrap(),
                        ) by {
                            if j < n {
                                assert(all[j] == sites[j]);
                            }
                        }
                        assert forall|i: int, j: int|
                            0 <= i < all.len() && 0 <= j < all.len() && i != j && all[j].id is None implies #[trigger] st2.headings[i].id
                            != #[trigger] st2.headings[j].id by {
                            if i < n && j < n {
                                assert(all[j] == sites[j]);
                                assert(st2.headings[i] == st.headings[i]);
                                assert(st2.headings[j] == st.headings[j]);
                                assert(st.headings[i].id != st.headings[j].id);
                            } else if i < n {
                                assert(st2.headings[i] == st.headings[i]);
                                assert(st.ids.contains(st.headings[i].id));
                            } else {
                                assert(st2.headings[j] == st.headings[j]);
                                assert(st.ids.contains(st.headings[j].id));
                            }
                        }
                    },
                }
            }
        },
    }
}

proof fn lemma_visit_elem_entries(
    e: ElemV,
    st: VisitState,
    original: Set<Seq<char>>,
    sites: Seq<HeadingSite>,
)
    requires
        entries_identified(original, sites, st),
        ids_in_elem(e).subset_of(original),
        visit_elem(e, st) is Some,
    ensures
        entries_identified(original, sites + sites_in_elem(e), visit_elem(e, st).unwrap().1),
    decreases e, 1int,
{
    lemma_embed_adapts(e.attrs, st.resources);
    let (attrs1, resources1) = embed_step(e.attrs, st.resources).unwrap();
    let props = crate::prepare::attr_properties(
        crate::prepare::tag_properties(st.properties, e.tag),
        e.attrs,
    );
    let st1 = VisitState { properties: props, resources: resources1, ..st };
    lemma_heading_step_entries(e, attrs1, st1, original, sites);
    let st2 = heading_step(e.tag, attrs1, e.children, st1).1;
    assert(ids_in_nodes(e.children).subset_of(ids_in_elem(e)));
    lemma_visit_nodes_entries(e.children, st2, original, sites + own_site(e));
    assert(sites + own_site(e) + sites_in_nodes(e.children) =~= sites + sites_in_elem(e));
}

proof fn lemma_visit_nodes_entries(
    ns: Seq<NodeV>,
    st: VisitState,
    original: Set<Seq<char>>,
    sites: Seq<HeadingSite>,
)
    requires
        entries_identified(original, sites, st),
        ids_in_nodes(ns).subset_of(original),
        visit_nodes(ns, st) is Some,
    ensures
        entries_identified(original, sites + sites_in_nodes(ns), visit_nodes(ns, st).unwrap().1),
    decreases ns, 0int,
{
    if ns.len() == 0 {
        assert(sites + sites_in_nodes(ns) =~= sites);
    } else {
        assert(ids_in_nodes(ns.drop_last()).subset_of(ids_in_nodes(ns)));
        assert(ids_in_node(ns.last()).subset_of(ids_in_nodes(ns)));
        lemma_visit_nodes_entries(ns.drop_last(), st, original, sites);
        let st1 = visit_nodes(ns.drop_last(), st).unwrap().1;
        lemma_visit_node_entries(ns.last(), st1, original, sites + sites_in_nodes(ns.drop_last()));
        assert(sites + sites_in_nodes(ns.drop_last()) + sites_in_node(ns.last()) =~= sites
            + sites_in_nodes(ns));
    }
}

proof fn lemma_visit_node_entries(
    n: NodeV,
    st: VisitState,
    original: Set<Seq<char>>,
    sites: Seq<HeadingSite>,
)
    requires
        entries_identified(original, sites, st),
        ids_in_node(n).subset_of(original),
        visit_node(n, st) is Some,
    ensures
        entries_identified(original, sites + sites_in_node(n), visit_node(n, st).unwrap().1),
    decreases n, 2int,
{
    match n {
        NodeV::Element(e) => lemma_visit_elem_entries(e, st, original, sites),
        _ => {
            assert(sites + sites_in_node(n) =~= sites);
        },
    }
}

/// Preparation makes one navigation entry for each heading element `h1` to
/// `h6` with a non-empty plain text, in document order, with the heading's
/// level and text. A heading that carries an identifier keeps it in its
/// entry; one that carries none receives an identifier `heading-<k>` that no
/// element or frame of the document carries and that no other entry has.
pub proof fn lemma_prepared_headings(root: ElemV)
    requires
        prepared_of(root) is Some,
    ensures
        ({
            let headings = prepared_of(root).unwrap().1.headings;
            let sites = sites_in_elem(root);
            &&& headings.len() == sites.len()
            &&& forall|j: int|
                0 <= j < sites.len() ==> #[trigger] entry_for(sites[j], headings[j], ids_in_elem(root))
            &&& forall|i: int, j: int|
                #![trigger headings[i], sites[j]]
                0 <= i < sites.len() && 0 <= j < sites.len() && i != j && sites[j].id is None
                    ==> headings[i].id != headings[j].id
        }),
{
    lemma_ids_finite_elem(root);
    let st0 = initial_state(root);
    assert(entries_identified(ids_in_elem(root), Seq::empty(), st0));
    lemma_visit_elem_entries(root, st0, ids_in_elem(root), Seq::empty());
    assert(Seq::<HeadingSite>::empty() + sites_in_elem(root) =~= sites_in_elem(root));
}

/// The image that an element's first `src` attribute embeds, if any.
pub open spec fn own_image(e: ElemV) -> Seq<ResourceV> {
    match attr_position(e.attrs, src_name()) {
        Some(i) => match embedding_of(e.attrs[i].1) {
            Embedding::Embedded(r) => seq![r],
            _ => Seq::empty(),
        },
        None => Seq::empty(),
    }
}

/// The images that the first `src` attributes of an element's subtree
/// embed, in document order.
pub open spec fn images_in_elem(e: ElemV) -> Seq<ResourceV>
    decreases e, 1int,
{
    own_image(e) + images_in_nodes(e.children)
}

pub open spec fn images_in_nodes(ns: Seq<NodeV>) -> Seq<ResourceV>
    decreases ns, 0int,
{
    if ns.len() == 0 {
        Seq::empty()
    } else {
        images_in_nodes(ns.drop_last()) + images_in_node(ns.last())
    }
}

pub open spec fn images_in_node(n: NodeV) -> Seq<ResourceV>
    decreases n, 2int,
{
    match n {
        NodeV::Element(e) => images_in_elem(e),
        _ => Seq::empty(),
    }
}

/// Whether `images[j]` is the first of `images` with its path.
pub open spec fn first_with_path(images: Seq<ResourceV>, j: int) -> bool {
    forall|i: int| 0 <= i < j ==> #[trigger] images[i].path != images[j].path
}

/// Whether `r` is the first of `images` with its path.
pub open spec fn first_image(images: Seq<ResourceV>, r: ResourceV) -> bool {
    exists|j: int| 0 <= j < images.len() && images[j] == r && #[trigger] first_with_path(images, j)
}

/// Whether one of `rs` has the path `path`.
pub open spec fn has_path(rs: Seq<ResourceV>, path: Seq<char>) -> bool {
    exists|k: int| 0 <= k < rs.len() && #[trigger] rs[k].path == path
}

/// `rs` holds the images `images`, one per path: each resource is the first
/// image with its path, each image's path has a resource, and the paths
/// strictly increase.
pub open spec fn resources_collected(images: Seq<ResourceV>, rs: Seq<ResourceV>) -> bool {
    &&& paths_increase(rs)
    &&& forall|k: int| 0 <= k < rs.len() ==> first_image(images, #[trigger] rs[k])
    &&& forall|j: int| 0 <= j < images.len() ==> has_path(rs, #[trigger] images[j].path)
}

proof fn lemma_collect_image(images: Seq<ResourceV>, rs: Seq<ResourceV>, r: ResourceV)
    requires
        resources_collected(images, rs),
    ensures
        resources_collected(images.push(r), add_resource(rs, r)),
{
    lemma_add_resource(rs, r);
    lemma_lower_bound(rs, r.path);
    let all = images.push(r);
    let out = add_resource(rs, r);
    assert forall|j: int| 0 <= j < images.len() implies #[trigger] first_with_path(all, j)
        == first_with_path(images, j) by {
        assert forall|i: int| 0 <= i < j implies all[i] == images[i] by {}
        assert(all[j] == images[j]);
    }
    assert forall|x: ResourceV| first_image(images, x) implies first_image(all, x) by {
        let j = choose|j: int|
            0 <= j < images.len() && images[j] == x && #[trigger] first_with_path(images, j);
        assert(all[j] == x && first_with_path(all, j));
    }
    if has_path(rs, r.path) {
        assert(out == rs);
        assert forall|j: int| 0 <= j < all.len() implies has_path(out, #[trigger] all[j].path) by {
            if j < images.len() {
                assert(all[j] == images[j]);
            }
        }
    } else {
        let i = lower_bound(rs, r.path);
        assert(out == rs.insert(i, r));
        assert(first_with_path(all, images.len() as int)) by {
            assert forall|i2: int| 0 <= i2 < images.len() implies #[trigger] all[i2].path != all[images.len() as int].path by {
                assert(all[i2] == images[i2]);
                assert(has_path(rs, images[i2].path));
            }
        }
        assert(first_image(all, r)) by {
            assert(all[images.len() as int] == r);
        }
        assert forall|k: int| 0 <= k < out.len() implies first_image(all, #[trigger] out[k]) by {
            if k < i {
                assert(out[k] == rs[k]);
            } else if k > i {
                assert(out[k] == rs[k - 1]);
            }
        }
        assert forall|j: int| 0 <= j < all.len() implies has_path(out, #[trigger] all[j].path) by {
            if j < images.len() {
                assert(all[j] == images[j]);
                assert(has_path(rs, images[j].path));
                let k = choose|k: int| 0 <= k < rs.len() && #[trigger] rs[k].path == images[j].path;
                if k < i {
                    assert(out[k] == rs[k]);
                } else {
                    assert(out[k + 1] == rs[k]);
                }
            } else {
                assert(out[i].path == r.path);
            }
        }
    }
}

proof fn lemma_visit_elem_images(e: ElemV, st: VisitState, images: Seq<ResourceV>)
    requires
        resources_collected(images, st.resources),
        visit_elem(e, st) is Some,
    ensures
        resources_collected(images + images_in_elem(e), visit_elem(e, st).unwrap().1.resources),
    decreases e, 1int,
{
    crate::dom::lemma_attr_position(e.attrs, src_name());
    let (attrs1, resources1) = embed_step(e.attrs, st.resources).unwrap();
    assert(resources_collected(images + own_image(e), resources1)) by {
        match attr_position(e.attrs, src_name()) {
            Some(i) => match embedding_of(e.attrs[i].1) {
                Embedding::Embedded(r) => {
                    lemma_collect_image(images, st.resources, r);
                    assert(images + own_image(e) =~= images.push(r));
                },
                _ => {
                    assert(images + own_image(e) =~= images);
                },
            },
            None => {
                assert(images + own_image(e) =~= images);
            },
        }
    }
    let props = crate::prepare::attr_properties(
        crate::prepare::tag_properties(st.properties, e.tag),
        e.attrs,
    );
    let st1 = VisitState { properties: props, resources: resources1, ..st };
    let st2 = heading_step(e.tag, attrs1, e.children, st1).1;
    assert(st2.resources == resources1);
    lemma_visit_nodes_images(e.children, st2, images + own_image(e));
    assert(images + own_image(e) + images_in_nodes(e.children) =~= images + images_in_elem(e));
}

proof fn lemma_visit_nodes_images(ns: Seq<NodeV>, st: VisitState, images: Seq<ResourceV>)
    requires
        resources_collected(images, st.resources),
        visit_nodes(ns, st) is Some,
    ensures
        resources_collected(images + images_in_nodes(ns), visit_nodes(ns, st).unwrap().1.resources),
    decreases ns, 0int,
{
    if ns.len() == 0 {
        assert(images + images_in_nodes(ns) =~= images);
    } else {
        lemma_visit_nodes_images(ns.drop_last(), st, images);
        let st1 = visit_nodes(ns.drop_last(), st).unwrap().1;
        lemma_visit_node_images(ns.last(), st1, images + images_in_nodes(ns.drop_last()));
        assert(images + images_in_nodes(ns.drop_last()) + images_in_node(ns.last()) =~= images
            + images_in_nodes(ns));
    }
}

proof fn lemma_visit_node_images(n: NodeV, st: VisitState, images: Seq<ResourceV>)
    requires
        resources_collected(images, st.resources),
        visit_node(n, st) is Some,
    ensures
        resources_collected(images + images_in_node(n), visit_node(n, st).unwrap().1.resources),
    decreases n, 2int,
{
    match n {
        NodeV::Element(e) => lemma_visit_elem_images(e, st, images),
        _ => {
            assert(images + images_in_node(n) =~= images);
        },
    }
}

/// Preparation extracts the images that the document embeds in the first
/// `src` attribute of its elements: each resource is the first such image
/// with its path, every such image's path has a resource, and the resources
/// come in strictly increasing path order.
pub proof fn lemma_prepared_resources(root: ElemV)
    requires
        prepared_of(root) is Some,
    ensures
        resources_collected(images_in_elem(root), prepared_of(root).unwrap().1.resources),
{
    lemma_visit_elem_images(root, initial_state(root), Seq::empty());
    assert(Seq::<ResourceV>::empty() + images_in_elem(root) =~= images_in_elem(root));
}

/// Preparation fails exactly when the first `src` attribute of an element
/// holds a supported base64 image whose payload does not decode.
pub proof fn lemma_prepare_fails(root: ElemV)
    ensures
        prepared_of(root) is None <==> undecodable_in_elem(root),
{
    lemma_visit_elem_fails(root, initial_state(root));
}

proof fn lemma_failure_elem(e: ElemV)
    requires
        undecodable_in_elem(e),
    ensures
        element_at(e, failure_in_elem(e)) matches Some(x) && own_undecodable(x),
    decreases e, 1int,
{
    if !own_undecodable(e) {
        lemma_failure_nodes(e.children);
        let p = failure_in_nodes(e.children);
        assert(p.len() > 0);
        let c = e.children[p[0]]->Element_0;
        assert(element_at(e, p) == element_at(c, p.drop_first()));
    }
}

proof fn lemma_failure_nodes(ns: Seq<NodeV>)
    requires
        undecodable_in_nodes(ns),
    ensures
        ({
            let p = failure_in_nodes(ns);
            &&& p.len() > 0
            &&& 0 <= p[0] < ns.len()
            &&& ns[p[0]] matches NodeV::Element(c) && (element_at(c, p.drop_first()) matches Some(x)
                && own_undecodable(x))
        }),
    decreases ns, 0int,
{
    if undecodable_in_nodes(ns.drop_last()) {
        lemma_failure_nodes(ns.drop_last());
        let p = failure_in_nodes(ns.drop_last());
        assert(ns[p[0]] == ns.drop_last()[p[0]]);
    } else {
        lemma_failure_node(ns.last());
        let p = failure_in_nodes(ns);
        assert(p.drop_first() =~= failure_in_node(ns.last()));
    }
}

proof fn lemma_failure_node(n: NodeV)
    requires
        undecodable_in_node(n),
    ensures
        n matches NodeV::Element(c) && (element_at(c, failure_in_node(n)) matches Some(x)
            && own_undecodable(x)),
    decreases n, 2int,
{
    match n {
        NodeV::Element(e) => lemma_failure_elem(e),
        _ => {},
    }
}

/// When preparation fails, the element that the failure names (by
/// `failure_in_elem`, the first in document order) is one whose first `src`
/// attribute holds a supported base64 image that does not decode.
pub proof fn lemma_failure_names_the_image(root: ElemV)
    requires
        prepared_of(root) is None,
    ensures
        element_at(root, failure_in_elem(root)) matches Some(x) && own_undecodable(x),
{
    lemma_visit_elem_fails(root, initial_state(root));
    lemma_failure_elem(root);
}

proof fn lemma_shape_text_nodes(a: Seq<NodeV>, b: Seq<NodeV>)
    requires
        same_shape_nodes(a, b),
    ensures
        text_of_nodes(a) == text_of_nodes(b),
    decreases a, 0int,
{
    if a.len() > 0 {
        lemma_shape_text_nodes(a.drop_last(), b.drop_last());
        lemma_shape_text_node(a.last(), b.last());
    }
}

proof fn lemma_shape_text_node(a: NodeV, b: NodeV)
    requires
        same_shape_node(a, b),
    ensures
        text_of_node(a) == text_of_node(b),
    decreases a, 2int,
{
    match a {
        NodeV::Element(x) => {
            let y = b->Element_0;
            lemma_shape_text_nodes(x.children, y.children);
        },
        _ => {},
    }
}

/// An extracted `src` value embeds nothing more.
proof fn lemma_extracted_not_embedded(value: Seq<char>)
    requires
        !(embedding_of(value) is Undecodable),
    ensures
        embedding_of(extracted_value(value)) is NotEmbedded,
        is_remote_url(extracted_value(value)) ==> is_remote_url(value),
        is_remote_url(value) ==> extracted_value(value) == value,
{
    reveal_strlit("http://");
    reveal_strlit("https://");
    if let Embedding::Embedded(r) = embedding_of(value) {
        let path = extracted_value(value);
        assert(path[0] == 'a');
        assert(!seq!['d', 'a', 't', 'a', ':'].is_prefix_of(path));
        assert(!"http://"@.is_prefix_of(path));
        assert(!"https://"@.is_prefix_of(path));
        assert(value[0] == 'd');
        assert(!"http://"@.is_prefix_of(value));
        assert(!"https://"@.is_prefix_of(value));
    }
}

/// Attributes with the same names in front, and only other names behind,
/// have the first attribute called `name` at the same position.
proof fn lemma_attr_position_extended(
    a: Seq<(Seq<char>, Seq<char>)>,
    b: Seq<(Seq<char>, Seq<char>)>,
    name: Seq<char>,
)
    requires
        a.len() <= b.len(),
        forall|i: int| 0 <= i < a.len() ==> #[trigger] b[i].0 == a[i].0,
        forall|i: int| a.len() <= i < b.len() ==> #[trigger] b[i].0 != name,
    ensures
        attr_position(b, name) == attr_position(a, name),
{
    crate::dom::lemma_attr_position(a, name);
    crate::dom::lemma_attr_position(b, name);
    match attr_position(a, name) {
        Some(i) => {
            assert(b[i].0 == name);
            match attr_position(b, name) {
                Some(j) => {
                    if j < i {
                        assert(b[j].0 == a[j].0);
                    }
                },
                None => {},
            }
        },
        None => {
            match attr_position(b, name) {
                Some(j) => {
                    if j < a.len() {
                        assert(b[j].0 == a[j].0);
                    }
                },
                None => {},
            }
        },
    }
}

/// Appending an attribute called `name` to a list without one makes its
/// value the list's value for `name`.
proof fn lemma_attr_value_pushed(a: Seq<(Seq<char>, Seq<char>)>, name: Seq<char>, value: Seq<char>)
    requires
        attr_value(a, name) is None,
    ensures
        attr_value(a.push((name, value)), name) == Some(value),
{
    let b = a.push((name, value));
    crate::dom::lemma_attr_position(a, name);
    crate::dom::lemma_attr_position(b, name);
    match attr_position(b, name) {
        Some(j) => {
            if j < a.len() {
                assert(b[j] == a[j]);
            }
        },
        None => {
            assert(b[a.len() as int].0 == name);
        },
    }
}

/// The state of a second preparation pass stands to that of the first: the
/// same headings and content properties, and no resources.
pub open spec fn second_pass(first: VisitState, second: VisitState) -> bool {
    &&& second.headings == first.headings
    &&& second.properties == first.properties
    &&& second.resources.len() == 0
}

proof fn lemma_second_elem(e: ElemV, st: VisitState, st2: VisitState)
    requires
        visit_elem(e, st) is Some,
        second_pass(st, st2),
    ensures
        ({
            let (e1, s1) = visit_elem(e, st).unwrap();
            visit_elem(e1, st2) matches Some((e2, s2)) && e2 == e1 && second_pass(s1, s2)
        }),
    decreases e, 1int,
{
    let attrs0 = e.attrs;
    lemma_embed_adapts(attrs0, st.resources);
    crate::dom::lemma_attr_position(attrs0, src_name());
    let (attrs1, res1) = embed_step(attrs0, st.resources).unwrap();
    let props = attr_properties(tag_properties(st.properties, e.tag), attrs0);
    let st_a = VisitState { properties: props, resources: res1, ..st };
    let (attrs2, st_b) = heading_step(e.tag, attrs1, e.children, st_a);
    let (children1, st_c) = visit_nodes(e.children, st_b).unwrap();
    let e1 = visit_elem(e, st).unwrap().0;
    assert(e1 == ElemV { tag: e.tag, attrs: attrs2, children: children1 });
    lemma_visit_nodes_shape(e.children, st_b);
    lemma_shape_text_nodes(e.children, children1);
    // The attributes after the first pass: those of the embedding step, with
    // an identifier appended where a heading had none.
    assert(attrs2 == attrs1 || (attrs2.len() == attrs1.len() + 1 && attrs2.drop_last() == attrs1
        && attrs2.last().0 == id_name() && attr_value(attrs1, id_name()) is None)) by {
        if attrs2 != attrs1 {
            assert(attrs2.drop_last() =~= attrs1);
        }
    }
    assert forall|i: int| 0 <= i < attrs0.len() implies #[trigger] attrs2[i] == attrs1[i] by {
        if attrs2 != attrs1 {
            assert(attrs2[i] == attrs2.drop_last()[i]);
        }
    }
    assert forall|i: int| attrs0.len() <= i < attrs2.len() implies #[trigger] attrs2[i].0 == id_name() by {
        if attrs2 != attrs1 {
            assert(i == attrs2.len() - 1);
        }
    }
    // The second pass finds nothing more to embed.
    lemma_attr_position_extended(attrs0, attrs2, src_name());
    match attr_position(attrs0, src_name()) {
        Some(i) => {
            lemma_extracted_not_embedded(attrs0[i].1);
            assert(attrs2[i].1 == extracted_value(attrs0[i].1));
        },
        None => {},
    }
    assert(embed_step(attrs2, st2.resources) == Some((attrs2, st2.resources)));
    // The second pass sees the same content properties.
    assert forall|i: int| 0 <= i < attrs0.len() implies #[trigger] is_remote_url(attrs2[i].1)
        == is_remote_url(attrs0[i].1) by {
        if attr_position(attrs0, src_name()) == Some(i) {
            lemma_extracted_not_embedded(attrs0[i].1);
        }
    }
    let q = tag_properties(st.properties, e.tag);
    assert(attr_properties(q, attrs2) == props) by {
        let remote_a = exists|i: int|
            0 <= i < attrs0.len() && is_source_name(#[trigger] attrs0[i].0) && is_remote_url(attrs0[i].1);
        let remote_b = exists|i: int|
            0 <= i < attrs2.len() && is_source_name(#[trigger] attrs2[i].0) && is_remote_url(attrs2[i].1);
        if remote_a {
            let i = choose|i: int|
                0 <= i < attrs0.len() && is_source_name(#[trigger] attrs0[i].0) && is_remote_url(attrs0[i].1);
            assert(is_source_name(attrs2[i].0) && is_remote_url(attrs2[i].1));
        }
        if remote_b {
            let i = choose|i: int|
                0 <= i < attrs2.len() && is_source_name(#[trigger] attrs2[i].0) && is_remote_url(attrs2[i].1);
            if i >= attrs0.len() {
                assert(attrs2[i].0 == id_name());
                assert(attrs2[i].0[0] == 'i');
            } else {
                assert(is_source_name(attrs0[i].0) && is_remote_url(attrs0[i].1));
            }
        }
        let on = seq!['o', 'n'];
        let script_a = exists|i: int| 0 <= i < attrs0.len() && on.is_prefix_of(#[trigger] attrs0[i].0);
        let script_b = exists|i: int| 0 <= i < attrs2.len() && on.is_prefix_of(#[trigger] attrs2[i].0);
        if script_a {
            let i = choose|i: int| 0 <= i < attrs0.len() && on.is_prefix_of(#[trigger] attrs0[i].0);
            assert(on.is_prefix_of(attrs2[i].0));
        }
        if script_b {
            let i = choose|i: int| 0 <= i < attrs2.len() && on.is_prefix_of(#[trigger] attrs2[i].0);
            if i >= attrs0.len() {
                assert(attrs2[i].0 == id_name());
                assert(attrs2[i].0[0] == 'i');
            } else {
                assert(on.is_prefix_of(attrs0[i].0));
            }
        }
    }
    let st2_a = VisitState { properties: props, resources: st2.resources, ..st2 };
    // The second heading step keeps the attributes and repeats the entry.
    let (attrs3, st2_b) = heading_step(e.tag, attrs2, children1, st2_a);
    assert(attrs3 == attrs2 && second_pass(st_b, st2_b)) by {
        match heading_level_of(e.tag) {
            None => {},
            Some(level) => {
                if plain_text_of(e.children).len() > 0 {
                    match attr_value(attrs1, id_name()) {
                        Some(id) => {},
                        None => {
                            lemma_attr_value_pushed(attrs1, id_name(), attrs2.last().1);
                            assert(attrs2 =~= attrs1.push((id_name(), attrs2.last().1)));
                        },
                    }
                }
            },
        }
    }
    lemma_second_nodes(e.children, st_b, st2_b);
}

proof fn lemma_second_nodes(ns: Seq<NodeV>, st: VisitState, st2: VisitState)
    requires
        visit_nodes(ns, st) is Some,
        second_pass(st, st2),
    ensures
        ({
            let (ns1, s1) = visit_nodes(ns, st).unwrap();
            visit_nodes(ns1, st2) matches Some((ns2, s2)) && ns2 == ns1 && second_pass(s1, s2)
        }),
    decreases ns, 0int,
{
    if ns.len() > 0 {
        lemma_second_nodes(ns.drop_last(), st, st2);
        let (done, s_a) = visit_nodes(ns.drop_last(), st).unwrap();
        let s2_a = visit_nodes(done, st2).unwrap().1;
        lemma_second_node(ns.last(), s_a, s2_a);
        let (n1, s_b) = visit_node(ns.last(), s_a).unwrap();
        let ns1 = visit_nodes(ns, st).unwrap().0;
        assert(ns1 == done.push(n1));
        assert(ns1.drop_last() =~= done);
        assert(ns1.last() == n1);
        assert(ns1.len() > 0);
    }
}

proof fn lemma_second_node(n: NodeV, st: VisitState, st2: VisitState)
    requires
        visit_node(n, st) is Some,
        second_pass(st, st2),
    ensures
        ({
            let (n1, s1) = visit_node(n, st).unwrap();
            visit_node(n1, st2) matches Some((n2, s2)) && n2 == n1 && second_pass(s1, s2)
        }),
    decreases n, 2int,
{
    match n {
        NodeV::Element(e) => lemma_second_elem(e, st, st2),
        _ => {},
    }
}

/// Preparing a prepared document again changes nothing: the tree stays as it
/// is, the headings and content properties come out the same, and there is
/// no image left to extract.
pub proof fn lemma_prepare_idempotent(root: ElemV)
    requires
        prepared_of(root) is Some,
    ensures
        ({
            let (root1, st1) = prepared_of(root).unwrap();
            prepared_of(root1) matches Some((root2, st2)) && root2 == root1 && st2.headings
                == st1.headings && st2.resources.len() == 0 && st2.properties == st1.properties
        }),
{
    let root1 = prepared_of(root).unwrap().0;
    lemma_second_elem(root, initial_state(root), initial_state(root1));
}

/// Whether an attribute loads a remote resource: it is called `src`,
/// `data` or `poster` and its value starts with `http://` or `https://`.
pub open spec fn remote_source(attr: (Seq<char>, Seq<char>)) -> bool {
    &&& attr.0 == "src"@ || attr.0 == "data"@ || attr.0 == "poster"@
    &&& "http://"@.is_prefix_of(attr.1) || "https://"@.is_prefix_of(attr.1)
}

/// Both sets of properties together: each property set in either.
pub open spec fn either(p: ContentProperties, q: ContentProperties) -> ContentProperties {
    ContentProperties {
        mathml: p.mathml || q.mathml,
        remote_resources: p.remote_resources || q.remote_resources,
        scripted: p.scripted || q.scripted,
        svg: p.svg || q.svg,
    }
}

/// No property set.
pub open spec fn none_shown() -> ContentProperties {
    ContentProperties { mathml: false, remote_resources: false, scripted: false, svg: false }
}

/// What an element itself shows of the content: MathML by a MathML tag name,
/// remote resources by an attribute that loads one, scripting by a `script`
/// tag or an attribute whose name starts with `on`, SVG by an `svg` tag.
pub open spec fn own_shows(e: ElemV) -> ContentProperties {
    ContentProperties {
        mathml: mathml_tag(e.tag),
        remote_resources: exists|i: int| 0 <= i < e.attrs.len() && remote_source(#[trigger] e.attrs[i]),
        scripted: e.tag == "script"@ || exists|i: int|
            0 <= i < e.attrs.len() && "on"@.is_prefix_of(#[trigger] e.attrs[i].0),
        svg: e.tag == "svg"@,
    }
}

/// What a subtree shows: its elements' own properties, and SVG for a frame.
pub open spec fn shows_elem(e: ElemV) -> ContentProperties
    decreases e, 1int,
{
    either(own_shows(e), shows_nodes(e.children))
}

pub open spec fn shows_nodes(ns: Seq<NodeV>) -> ContentProperties
    decreases ns, 0int,
{
    if ns.len() == 0 {
        none_shown()
    } else {
        either(shows_nodes(ns.drop_last()), shows_node(ns.last()))
    }
}

pub open spec fn shows_node(n: NodeV) -> ContentProperties
    decreases n, 2int,
{
    match n {
        NodeV::Element(e) => shows_elem(e),
        NodeV::Frame(_) => ContentProperties { svg: true, ..none_shown() },
        _ => none_shown(),
    }
}

proof fn lemma_own_properties(p: ContentProperties, e: ElemV)
    ensures
        attr_properties(tag_properties(p, e.tag), e.attrs) == either(p, own_shows(e)),
{
    reveal_strlit("src");
    reveal_strlit("data");
    reveal_strlit("poster");
    reveal_strlit("http://");
    reveal_strlit("https://");
    reveal_strlit("script");
    reveal_strlit("svg");
    reveal_strlit("on");
    assert("src"@ =~= seq!['s', 'r', 'c']);
    assert("data"@ =~= seq!['d', 'a', 't', 'a']);
    assert("poster"@ =~= seq!['p', 'o', 's', 't', 'e', 'r']);
    assert("script"@ =~= seq!['s', 'c', 'r', 'i', 'p', 't']);
    assert("svg"@ =~= seq!['s', 'v', 'g']);
    assert("on"@ =~= seq!['o', 'n']);
    assert forall|i: int| 0 <= i < e.attrs.len() implies (is_source_name(#[trigger] e.attrs[i].0)
        && is_remote_url(e.attrs[i].1)) == remote_source(e.attrs[i]) by {}
}

proof fn lemma_visit_elem_properties(e: ElemV, st: VisitState)
    requires
        visit_elem(e, st) is Some,
    ensures
        visit_elem(e, st).unwrap().1.properties == either(st.properties, shows_elem(e)),
    decreases e, 1int,
{
    let (attrs1, res1) = embed_step(e.attrs, st.resources).unwrap();
    let props = attr_properties(tag_properties(st.properties, e.tag), e.attrs);
    lemma_own_properties(st.properties, e);
    let st_a = VisitState { properties: props, resources: res1, ..st };
    let st_b = heading_step(e.tag, attrs1, e.children, st_a).1;
    assert(st_b.properties == props);
    lemma_visit_nodes_properties(e.children, st_b);
}

proof fn lemma_visit_nodes_properties(ns: Seq<NodeV>, st: VisitState)
    requires
        visit_nodes(ns, st) is Some,
    ensures
        visit_nodes(ns, st).unwrap().1.properties == either(st.properties, shows_nodes(ns)),
    decreases ns, 0int,
{
    if ns.len() > 0 {
        lemma_visit_nodes_properties(ns.drop_last(), st);
        let st1 = visit_nodes(ns.drop_last(), st).unwrap().1;
        lemma_visit_node_properties(ns.last(), st1);
    }
}

proof fn lemma_visit_node_properties(n: NodeV, st: VisitState)
    requires
        visit_node(n, st) is Some,
    ensures
        visit_node(n, st).unwrap().1.properties == either(st.properties, shows_node(n)),
    decreases n, 2int,
{
    match n {
        NodeV::Element(e) => lemma_visit_elem_properties(e, st),
        _ => {},
    }
}

/// The content properties of a prepared document are exactly what its
/// elements and frames show: MathML for an element with a MathML tag name,
/// remote resources for an attribute `src`, `data` or `poster` whose value
/// starts with `http://` or `https://`, scripting for a `script` element or
/// an attribute whose name starts with `on`, SVG for an `svg` element or a
/// frame.
pub proof fn lemma_prepared_properties(root: ElemV)
    requires
        prepared_of(root) is Some,
    ensures
        prepared_of(root).unwrap().1.properties == shows_elem(root),
{
    lemma_visit_elem_properties(root, initial_state(root));
}

} // verus!
