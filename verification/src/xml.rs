//! The EPUB package document and navigation document, as the sequence of
//! calls made on an XML writer.
use vstd::prelude::*;

use xmlwriter::XmlWriter;

use crate::dom::{
    info_view, language_of, locale_view, rfc_3066_of, rtl_language, DocumentInfo, Dir, InfoV,
    Locale, LocaleV,
};
use crate::prepare::{
    manifest_value_text, resources_view, ContentProperties, Heading, HeadingV, Resource,
    ResourceV,
};
use crate::text::{digits, push_padded, push_str};
use crate::xml_writer::{
    xml_attribute, xml_calls, xml_declaration, xml_document, xml_end, xml_finish, xml_new,
    xml_options, xml_preserve_whitespaces, xml_start, xml_state, xml_text, XmlCall, XmlIndent,
    XmlOptions, XmlState,
};

verus! {

/// The options of the writers: double quotes, two-space indentation when
/// pretty, attributes on the element's line.
pub open spec fn writer_options(pretty: bool) -> XmlOptions {
    XmlOptions {
        use_single_quote: false,
        indent: if pretty { XmlIndent::Spaces(2) } else { XmlIndent::Disabled },
        attributes_indent: XmlIndent::Disabled,
    }
}

/// A text node kept exactly as given, closing its element.
pub open spec fn preserved_text_calls(value: Seq<char>) -> Seq<XmlCall> {
    seq![
        XmlCall::PreserveWhitespaces(true),
        XmlCall::Text(value),
        XmlCall::EndElement,
        XmlCall::PreserveWhitespaces(false),
    ]
}

/// `<name>value</name>`.
pub open spec fn text_element_calls(name: Seq<char>, value: Seq<char>) -> Seq<XmlCall> {
    seq![XmlCall::StartElement(name)] + preserved_text_calls(value)
}

/// `<name id="id">value</name>`.
pub open spec fn text_element_with_id_calls(
    name: Seq<char>,
    id: Seq<char>,
    value: Seq<char>,
) -> Seq<XmlCall> {
    seq![XmlCall::StartElement(name), XmlCall::Attribute("id"@, id)] + preserved_text_calls(value)
}

/// `<meta property="property">value</meta>`.
pub open spec fn property_element_calls(property: Seq<char>, value: Seq<char>) -> Seq<XmlCall> {
    seq![XmlCall::StartElement("meta"@), XmlCall::Attribute("property"@, property)]
        + preserved_text_calls(value)
}

/// `<item id=".." href=".." media-type=".." properties=".."/>`, the last
/// attribute only when given.
pub open spec fn manifest_item_calls(
    id: Seq<char>,
    href: Seq<char>,
    media_type: Seq<char>,
    properties: Option<Seq<char>>,
) -> Seq<XmlCall> {
    seq![
        XmlCall::StartElement("item"@),
        XmlCall::Attribute("id"@, id),
        XmlCall::Attribute("href"@, href),
        XmlCall::Attribute("media-type"@, media_type),
    ] + match properties {
        Some(p) => seq![XmlCall::Attribute("properties"@, p)],
        None => Seq::empty(),
    } + seq![XmlCall::EndElement]
}

/// `<a href="href">title</a>`.
pub open spec fn link_calls(href: Seq<char>, title: Seq<char>) -> Seq<XmlCall> {
    seq![XmlCall::StartElement("a"@), XmlCall::Attribute("href"@, href)] + preserved_text_calls(
        title,
    )
}

/// One text element per value, in order.
pub open spec fn text_elements_calls(name: Seq<char>, values: Seq<Seq<char>>) -> Seq<XmlCall>
    decreases values.len(),
{
    if values.len() == 0 {
        Seq::empty()
    } else {
        text_elements_calls(name, values.drop_last()) + text_element_calls(name, values.last())
    }
}

/// The manifest identifier of the `k`-th resource, counting from 1.
pub open spec fn asset_id(k: nat) -> Seq<char> {
    "asset-"@ + digits(k, 10)
}

/// One manifest item per resource, numbered from 1.
pub open spec fn asset_items_calls(rs: Seq<ResourceV>) -> Seq<XmlCall>
    decreases rs.len(),
{
    if rs.len() == 0 {
        Seq::empty()
    } else {
        asset_items_calls(rs.drop_last()) + manifest_item_calls(
            asset_id(rs.len()),
            rs.last().path,
            rs.last().media_type,
            None,
        )
    }
}

/// An optional text element.
pub open spec fn optional_text_element_calls(name: Seq<char>, value: Option<Seq<char>>) -> Seq<
    XmlCall,
> {
    match value {
        Some(v) => text_element_calls(name, v),
        None => Seq::empty(),
    }
}

/// The metadata section of the package document.
pub open spec fn metadata_calls(
    info: InfoV,
    title: Seq<char>,
    identifier: Seq<char>,
    modified: Seq<char>,
    publication_date: Option<Seq<char>>,
) -> Seq<XmlCall> {
    let lang = rfc_3066_of(language_of(info));
    seq![
        XmlCall::StartElement("metadata"@),
        XmlCall::Attribute("xmlns:dc"@, "http://purl.org/dc/elements/1.1/"@),
    ] + text_element_with_id_calls("dc:identifier"@, "pub-id"@, identifier) + text_element_calls(
        "dc:title"@,
        title,
    ) + text_element_calls("dc:language"@, lang) + text_elements_calls(
        "dc:creator"@,
        info.author,
    ) + optional_text_element_calls("dc:description"@, info.description) + text_elements_calls(
        "dc:subject"@,
        info.keywords,
    ) + optional_text_element_calls("dc:date"@, publication_date) + property_element_calls(
        "dcterms:modified"@,
        modified,
    ) + seq![XmlCall::EndElement]
}

/// The manifest section of the package document: the navigation document,
/// the content document (with its content properties, if any) and the
/// resources.
pub open spec fn manifest_calls(resources: Seq<ResourceV>, properties: ContentProperties) -> Seq<
    XmlCall,
> {
    let value = manifest_value_text(properties);
    seq![XmlCall::StartElement("manifest"@)] + manifest_item_calls(
        "nav"@,
        "nav.xhtml"@,
        "application/xhtml+xml"@,
        Some("nav"@),
    ) + manifest_item_calls(
        "content"@,
        "content.xhtml"@,
        "application/xhtml+xml"@,
        if value.len() > 0 {
            Some(value)
        } else {
            None
        },
    ) + asset_items_calls(resources) + seq![XmlCall::EndElement]
}

/// The spine of the package document: the content document only, read
/// right to left for right-to-left languages.
pub open spec fn spine_calls(locale: LocaleV) -> Seq<XmlCall> {
    seq![XmlCall::StartElement("spine"@)] + if rtl_language(locale.lang) {
        seq![XmlCall::Attribute("page-progression-direction"@, "rtl"@)]
    } else {
        Seq::empty()
    } + seq![
        XmlCall::StartElement("itemref"@),
        XmlCall::Attribute("idref"@, "content"@),
        XmlCall::EndElement,
        XmlCall::EndElement,
    ]
}

/// The calls that write the package document.
pub open spec fn package_calls(
    info: InfoV,
    title: Seq<char>,
    identifier: Seq<char>,
    modified: Seq<char>,
    publication_date: Option<Seq<char>>,
    resources: Seq<ResourceV>,
    properties: ContentProperties,
) -> Seq<XmlCall> {
    let locale = language_of(info);
    seq![
        XmlCall::Declaration,
        XmlCall::StartElement("package"@),
        XmlCall::Attribute("xmlns"@, "http://www.idpf.org/2007/opf"@),
        XmlCall::Attribute("version"@, "3.0"@),
        XmlCall::Attribute("unique-identifier"@, "pub-id"@),
        XmlCall::Attribute("xml:lang"@, rfc_3066_of(locale)),
    ] + metadata_calls(info, title, identifier, modified, publication_date) + manifest_calls(
        resources,
        properties,
    ) + spine_calls(locale)
}

/// Construct a consistently configured XML writer.
pub fn writer(pretty: bool) -> (w: XmlWriter)
    ensures
        xml_options(w) == writer_options(pretty),
        xml_calls(w) == Seq::<XmlCall>::empty(),
{
    let indent = if pretty {
        XmlIndent::Spaces(2)
    } else {
        XmlIndent::Disabled
    };
    xml_new(XmlOptions { use_single_quote: false, indent, attributes_indent: XmlIndent::Disabled })
}

/// After an opening tag one element more is open, and an attribute keeps
/// it so.
proof fn lemma_attribute_keeps_depth(c: Seq<XmlCall>, name: Seq<char>, value: Seq<char>)
    requires
        c.len() > 0,
        c.last() is StartElement,
    ensures
        crate::xml_writer::xml_depth(c.push(XmlCall::Attribute(name, value))) > 0,
{
    let d = c.push(XmlCall::Attribute(name, value));
    assert(d.drop_last() =~= c);
    assert(crate::xml_writer::xml_depth(c) == crate::xml_writer::xml_depth(c.drop_last()) + 1);
    assert(crate::xml_writer::xml_depth(d) == crate::xml_writer::xml_depth(c));
}

/// Finish an element with a compact text node.
fn preserve_text(xml: &mut XmlWriter, value: &str)
    requires
        xml_calls(*old(xml)).len() > 0,
        xml_calls(*old(xml)).last() is StartElement || xml_calls(*old(xml)).last() is Attribute,
        crate::xml_writer::xml_depth(xml_calls(*old(xml))) > 0,
    ensures
        xml_options(*final(xml)) == xml_options(*old(xml)),
        xml_calls(*final(xml)) == xml_calls(*old(xml)) + preserved_text_calls(value@),
{
    let ghost c0 = xml_calls(*xml);
    proof {
        assert(xml_state(c0) == XmlState::Attributes);
    }
    xml_preserve_whitespaces(xml, true);
    proof {
        let c = xml_calls(*xml);
        assert(c.drop_last() =~= c0);
        assert(crate::xml_writer::xml_depth(c) == crate::xml_writer::xml_depth(c0));
    }
    xml_text(xml, value);
    xml_end(xml);
    xml_preserve_whitespaces(xml, false);
    assert(xml_calls(*xml) =~= xml_calls(*old(xml)) + preserved_text_calls(value@));
}

/// Write an XML text element without introducing formatting whitespace.
fn text_element(xml: &mut XmlWriter, name: &str, value: &str)
    ensures
        xml_options(*final(xml)) == xml_options(*old(xml)),
        xml_calls(*final(xml)) == xml_calls(*old(xml)) + text_element_calls(name@, value@),
{
    xml_start(xml, name);
    preserve_text(xml, value);
    assert(xml_calls(*xml) =~= xml_calls(*old(xml)) + text_element_calls(name@, value@));
}

/// Write an XML text element with an `id` attribute.
fn text_element_with_id(xml: &mut XmlWriter, name: &str, id: &str, value: &str)
    ensures
        xml_options(*final(xml)) == xml_options(*old(xml)),
        xml_calls(*final(xml)) == xml_calls(*old(xml)) + text_element_with_id_calls(
            name@,
            id@,
            value@,
        ),
{
    xml_start(xml, name);
    let ghost c1 = xml_calls(*xml);
    xml_attribute(xml, "id", id);
    proof { lemma_attribute_keeps_depth(c1, "id"@, id@); }
    preserve_text(xml, value);
    assert(xml_calls(*xml) =~= xml_calls(*old(xml)) + text_element_with_id_calls(
        name@,
        id@,
        value@,
    ));
}

/// Write an EPUB metadata property.
fn property_element(xml: &mut XmlWriter, property: &str, value: &str)
    ensures
        xml_options(*final(xml)) == xml_options(*old(xml)),
        xml_calls(*final(xml)) == xml_calls(*old(xml)) + property_element_calls(
            property@,
            value@,
        ),
{
    xml_start(xml, "meta");
    let ghost c1 = xml_calls(*xml);
    xml_attribute(xml, "property", property);
    proof { lemma_attribute_keeps_depth(c1, "property"@, property@); }
    preserve_text(xml, value);
    assert(xml_calls(*xml) =~= xml_calls(*old(xml)) + property_element_calls(property@, value@));
}

/// Write an EPUB manifest item.
fn manifest_item(
    xml: &mut XmlWriter,
    id: &str,
    href: &str,
    media_type: &str,
    properties: Option<&str>,
)
    ensures
        xml_options(*final(xml)) == xml_options(*old(xml)),
        xml_calls(*final(xml)) == xml_calls(*old(xml)) + manifest_item_calls(
            id@,
            href@,
            media_type@,
            match properties {
                Some(p) => Some(p@),
                None => None,
            },
        ),
{
    xml_start(xml, "item");
    xml_attribute(xml, "id", id);
    xml_attribute(xml, "href", href);
    xml_attribute(xml, "media-type", media_type);
    match properties {
        Some(p) => {
            xml_attribute(xml, "properties", p);
        },
        None => {},
    }
    xml_end(xml);
    assert(xml_calls(*xml) =~= xml_calls(*old(xml)) + manifest_item_calls(
        id@,
        href@,
        media_type@,
        match properties {
            Some(p) => Some(p@),
            None => None,
        },
    ));
}

/// Write a navigation link.
fn link(xml: &mut XmlWriter, href: &str, title: &str)
    ensures
        xml_options(*final(xml)) == xml_options(*old(xml)),
        xml_calls(*final(xml)) == xml_calls(*old(xml)) + link_calls(href@, title@),
{
    xml_start(xml, "a");
    let ghost c1 = xml_calls(*xml);
    xml_attribute(xml, "href", href);
    proof { lemma_attribute_keeps_depth(c1, "href"@, href@); }
    preserve_text(xml, title);
    assert(xml_calls(*xml) =~= xml_calls(*old(xml)) + link_calls(href@, title@));
}

/// One text element per value.
fn text_elements(xml: &mut XmlWriter, name: &str, values: &Vec<String>)
    ensures
        xml_options(*final(xml)) == xml_options(*old(xml)),
        xml_calls(*final(xml)) == xml_calls(*old(xml)) + text_elements_calls(
            name@,
            crate::dom::strings_view(values@),
        ),
{
    let ghost vs = crate::dom::strings_view(values@);
    let ghost start = xml_calls(*xml);
    let mut i: usize = 0;
    while i < values.len()
        invariant
            i <= values.len(),
            vs == crate::dom::strings_view(values@),
            xml_options(*xml) == xml_options(*old(xml)),
            xml_calls(*xml) == start + text_elements_calls(name@, vs.take(i as int)),
        decreases values.len() - i,
    {
        text_element(xml, name, values[i].as_str());
        proof {
            assert(vs.take(i + 1).drop_last() =~= vs.take(i as int));
            assert(vs.take(i + 1).last() == values@[i as int]@);
            assert(xml_calls(*xml) =~= start + text_elements_calls(name@, vs.take(i + 1)));
        }
        i = i + 1;
    }
    assert(vs.take(values.len() as int) =~= vs);
}

/// The string `asset-<k>`.
fn asset_id_string(k: usize) -> (r: String)
    ensures
        r@ == asset_id(k as nat),
{
    let mut r = String::new();
    push_str(&mut r, "asset-");
    push_padded(&mut r, k as u128, 10, 1);
    proof { crate::text::lemma_digits_nonempty(k as nat, 10); }
    assert(r@ =~= asset_id(k as nat));
    r
}

/// One manifest item per resource.
fn asset_items(xml: &mut XmlWriter, resources: &[Resource])
    ensures
        xml_options(*final(xml)) == xml_options(*old(xml)),
        xml_calls(*final(xml)) == xml_calls(*old(xml)) + asset_items_calls(
            resources_view(resources@),
        ),
{
    let ghost rv = resources_view(resources@);
    let ghost start = xml_calls(*xml);
    let mut i: usize = 0;
    while i < resources.len()
        invariant
            i <= resources.len(),
            rv == resources_view(resources@),
            xml_options(*xml) == xml_options(*old(xml)),
            xml_calls(*xml) == start + asset_items_calls(rv.take(i as int)),
        decreases resources.len() - i,
    {
        let id = asset_id_string(i + 1);
        manifest_item(
            xml,
            id.as_str(),
            resources[i].path.as_str(),
            resources[i].media_type,
            None,
        );
        proof {
            assert(rv.take(i + 1).drop_last() =~= rv.take(i as int));
            assert(rv.take(i + 1).last() == rv[i as int]);
            assert(xml_calls(*xml) =~= start + asset_items_calls(rv.take(i + 1)));
        }
        i = i + 1;
    }
    assert(rv.take(resources.len() as int) =~= rv);
}


pub open spec fn opt_str_view(o: Option<&str>) -> Option<Seq<char>> {
    match o {
        Some(s) => Some(s@),
        None => None,
    }
}

fn write_metadata(
    xml: &mut XmlWriter,
    info: &DocumentInfo,
    lang: &str,
    title: &str,
    identifier: &str,
    modified: &str,
    publication_date: Option<&str>,
)
    requires
        lang@ == rfc_3066_of(language_of(info_view(*info))),
    ensures
        xml_options(*final(xml)) == xml_options(*old(xml)),
        xml_calls(*final(xml)) == xml_calls(*old(xml)) + metadata_calls(
            info_view(*info),
            title@,
            identifier@,
            modified@,
            opt_str_view(publication_date),
        ),
{
    let ghost head = xml_calls(*xml);
    let ghost iv = info_view(*info);
    xml_start(xml, "metadata");
    xml_attribute(xml, "xmlns:dc", "http://purl.org/dc/elements/1.1/");
    let ghost acc = seq![
        XmlCall::StartElement("metadata"@),
        XmlCall::Attribute("xmlns:dc"@, "http://purl.org/dc/elements/1.1/"@),
    ];
    assert(xml_calls(*xml) =~= head + acc);
    text_element_with_id(xml, "dc:identifier", "pub-id", identifier);
    proof {
        acc = acc + text_element_with_id_calls("dc:identifier"@, "pub-id"@, identifier@);
        assert(xml_calls(*xml) =~= head + acc);
    }
    text_element(xml, "dc:title", title);
    proof {
        acc = acc + text_element_calls("dc:title"@, title@);
        assert(xml_calls(*xml) =~= head + acc);
    }
    text_element(xml, "dc:language", lang);
    proof {
        acc = acc + text_element_calls("dc:language"@, lang@);
        assert(xml_calls(*xml) =~= head + acc);
    }
    text_elements(xml, "dc:creator", &info.author);
    proof {
        acc = acc + text_elements_calls("dc:creator"@, iv.author);
        assert(xml_calls(*xml) =~= head + acc);
    }
    let ghost c3 = xml_calls(*xml);
    match &info.description {
        Some(description) => text_element(xml, "dc:description", description.as_str()),
        None => {},
    }
    proof {
        assert(xml_calls(*xml) =~= c3 + optional_text_element_calls("dc:description"@, iv.description));
        acc = acc + optional_text_element_calls("dc:description"@, iv.description);
        assert(xml_calls(*xml) =~= head + acc);
    }
    text_elements(xml, "dc:subject", &info.keywords);
    proof {
        acc = acc + text_elements_calls("dc:subject"@, iv.keywords);
        assert(xml_calls(*xml) =~= head + acc);
    }
    let ghost c5 = xml_calls(*xml);
    match publication_date {
        Some(date) => text_element(xml, "dc:date", date),
        None => {},
    }
    proof {
        assert(xml_calls(*xml) =~= c5 + optional_text_element_calls("dc:date"@, opt_str_view(publication_date)));
        acc = acc + optional_text_element_calls("dc:date"@, opt_str_view(publication_date));
        assert(xml_calls(*xml) =~= head + acc);
    }
    property_element(xml, "dcterms:modified", modified);
    proof {
        acc = acc + property_element_calls("dcterms:modified"@, modified@);
        assert(xml_calls(*xml) =~= head + acc);
    }
    xml_end(xml);
    proof {
        acc = acc + seq![XmlCall::EndElement];
        assert(xml_calls(*xml) =~= head + acc);
        assert(acc =~= metadata_calls(iv, title@, identifier@, modified@, opt_str_view(publication_date)));
    }
}

fn write_manifest(xml: &mut XmlWriter, resources: &[Resource], properties: ContentProperties)
    ensures
        xml_options(*final(xml)) == xml_options(*old(xml)),
        xml_calls(*final(xml)) == xml_calls(*old(xml)) + manifest_calls(
            resources_view(resources@),
            properties,
        ),
{
    let ghost head = xml_calls(*xml);
    xml_start(xml, "manifest");
    manifest_item(xml, "nav", "nav.xhtml", "application/xhtml+xml", Some("nav"));
    let value = properties.manifest_value();
    let content_properties = if !value.as_str().is_empty() {
        Some(value.as_str())
    } else {
        None
    };
    manifest_item(xml, "content", "content.xhtml", "application/xhtml+xml", content_properties);
    asset_items(xml, resources);
    xml_end(xml);
    assert(xml_calls(*xml) =~= head + manifest_calls(resources_view(resources@), properties));
}

fn write_spine(xml: &mut XmlWriter, locale: &Locale)
    ensures
        xml_options(*final(xml)) == xml_options(*old(xml)),
        xml_calls(*final(xml)) == xml_calls(*old(xml)) + spine_calls(locale_view(*locale)),
{
    let ghost head = xml_calls(*xml);
    xml_start(xml, "spine");
    if crate::dom::lang_dir(locale.lang.as_str()) == Dir::RTL {
        xml_attribute(xml, "page-progression-direction", "rtl");
    }
    xml_start(xml, "itemref");
    xml_attribute(xml, "idref", "content");
    xml_end(xml);
    xml_end(xml);
    assert(xml_calls(*xml) =~= head + spine_calls(locale_view(*locale)));
}

/// Build the EPUB package document.
pub fn package(
    info: &DocumentInfo,
    title: &str,
    identifier: &str,
    modified: &str,
    publication_date: Option<&str>,
    resources: &[Resource],
    properties: ContentProperties,
    pretty: bool,
) -> (document: String)
    ensures
        document@ == xml_document(
            writer_options(pretty),
            package_calls(
                info_view(*info),
                title@,
                identifier@,
                modified@,
                opt_str_view(publication_date),
                resources_view(resources@),
                properties,
            ),
        ),
{
    let locale = crate::prepare::language(info);
    let lang = locale.rfc_3066();
    let mut xml = writer(pretty);
    xml_declaration(&mut xml);
    xml_start(&mut xml, "package");
    xml_attribute(&mut xml, "xmlns", "http://www.idpf.org/2007/opf");
    xml_attribute(&mut xml, "version", "3.0");
    xml_attribute(&mut xml, "unique-identifier", "pub-id");
    xml_attribute(&mut xml, "xml:lang", lang.as_str());
    let ghost head = xml_calls(xml);
    write_metadata(&mut xml, info, lang.as_str(), title, identifier, modified, publication_date);
    write_manifest(&mut xml, resources, properties);
    write_spine(&mut xml, &locale);
    proof {
        assert(xml_calls(xml) =~= package_calls(
            info_view(*info),
            title@,
            identifier@,
            modified@,
            opt_str_view(publication_date),
            resources_view(resources@),
            properties,
        ));
    }
    xml_finish(xml)
}


/// A nested table-of-contents item: the position of its heading and the
/// items nested under it.
#[derive(Debug)]
pub struct TocItem {
    pub heading: usize,
    pub children: Vec<TocItem>,
}

/// A table-of-contents item as a value.
pub struct TocV {
    pub heading: nat,
    pub children: Seq<TocV>,
}

pub open spec fn toc_view(t: TocItem) -> TocV
    decreases t, 1int,
{
    TocV { heading: t.heading as nat, children: tocs_view(t.children@) }
}

pub open spec fn tocs_view(ts: Seq<TocItem>) -> Seq<TocV>
    decreases ts, 0int,
{
    if ts.len() == 0 {
        Seq::empty()
    } else {
        tocs_view(ts.drop_last()).push(toc_view(ts.last()))
    }
}

/// The levels of the headings.
pub open spec fn levels_of(hs: Seq<HeadingV>) -> Seq<u8> {
    hs.map_values(|h: HeadingV| h.level)
}

/// The last heading at or before `j` whose level is lower than that of
/// heading `c`.
pub open spec fn parent_search(levels: Seq<u8>, c: int, j: int) -> Option<int>
    decreases j + 1,
{
    if j < 0 {
        None
    } else if levels[j] < levels[c] {
        Some(j)
    } else {
        parent_search(levels, c, j - 1)
    }
}

/// The heading under which heading `c` nests: the nearest preceding heading
/// of a lower level, if any.
pub open spec fn toc_parent(levels: Seq<u8>, c: int) -> Option<int> {
    parent_search(levels, c, c - 1)
}

/// The items, from heading `from` on, that nest directly under `parent`
/// (`None`: at the top), in document order, each with its own items.
pub open spec fn toc_children(levels: Seq<u8>, parent: Option<int>, from: int) -> Seq<TocV>
    decreases levels.len() - from,
{
    if from < 0 || from >= levels.len() {
        Seq::empty()
    } else {
        let rest = toc_children(levels, parent, from + 1);
        if toc_parent(levels, from) == parent {
            seq![TocV { heading: from as nat, children: toc_children(levels, Some(from), from + 1) }]
                + rest
        } else {
            rest
        }
    }
}

/// The table of contents of headings with the given levels.
pub open spec fn toc_forest(levels: Seq<u8>) -> Seq<TocV> {
    toc_children(levels, None, 0)
}

/// The headings of a table of contents in document order: each item, then
/// the items under it.
pub open spec fn toc_order(ts: Seq<TocV>) -> Seq<nat>
    decreases ts, 0int,
{
    if ts.len() == 0 {
        Seq::empty()
    } else {
        toc_order(ts.drop_last()) + toc_item_order(ts.last())
    }
}

pub open spec fn toc_item_order(t: TocV) -> Seq<nat>
    decreases t, 1int,
{
    seq![t.heading] + toc_order(t.children)
}

/// The numbers from `a` up to, not including, `b`.
pub open spec fn range(a: int, b: int) -> Seq<nat> {
    Seq::new((b - a) as nat, |k: int| (a + k) as nat)
}

proof fn lemma_parent_search(levels: Seq<u8>, c: int, j: int)
    requires
        0 <= c < levels.len(),
        j < c,
    ensures
        match parent_search(levels, c, j) {
            Some(k) => 0 <= k <= j && levels[k] < levels[c] && forall|m: int|
                k < m <= j ==> levels[m] >= levels[c],
            None => forall|m: int| 0 <= m <= j ==> levels[m] >= levels[c],
        },
    decreases j + 1,
{
    if j >= 0 && levels[j] >= levels[c] {
        lemma_parent_search(levels, c, j - 1);
    }
}

proof fn lemma_parent_is(levels: Seq<u8>, c: int, p: Option<int>)
    requires
        0 <= c < levels.len(),
        match p {
            Some(q) => 0 <= q < c && levels[q] < levels[c] && forall|m: int|
                q < m < c ==> levels[m] >= levels[c],
            None => forall|m: int| 0 <= m < c ==> levels[m] >= levels[c],
        },
    ensures
        toc_parent(levels, c) == p,
{
    lemma_parent_search(levels, c, c - 1);
    match (toc_parent(levels, c), p) {
        (Some(k), Some(q)) => {
            if k < q {
                assert(levels[q] >= levels[c]);
            } else if k > q {
                assert(levels[k] >= levels[c]);
            }
        },
        (Some(k), None) => {
            assert(levels[k] >= levels[c]);
        },
        (None, Some(q)) => {
            assert(levels[q] >= levels[c]);
        },
        (None, None) => {},
    }
}

/// Whether heading `j` may nest under `parent`.
pub open spec fn above(levels: Seq<u8>, parent: Option<int>, j: int) -> bool {
    match parent {
        Some(p) => levels[j] > levels[p],
        None => true,
    }
}

proof fn lemma_not_child(levels: Seq<u8>, parent: Option<int>, c: int, k: int)
    requires
        0 <= c < levels.len(),
        match parent {
            Some(p) => 0 <= p < k,
            None => 0 <= k,
        },
        k < c,
        levels[k] < levels[c],
    ensures
        toc_parent(levels, c) != parent,
{
    lemma_parent_search(levels, c, c - 1);
    match toc_parent(levels, c) {
        Some(q) => {
            if q < k {
                assert(levels[k] >= levels[c]);
            }
        },
        None => {
            assert(levels[k] >= levels[c]);
        },
    }
}

proof fn lemma_skip_children(levels: Seq<u8>, parent: Option<int>, a: int, b: int)
    requires
        0 <= a <= b <= levels.len(),
        forall|c: int| a <= c < b ==> toc_parent(levels, c) != parent,
    ensures
        toc_children(levels, parent, a) == toc_children(levels, parent, b),
    decreases b - a,
{
    if a < b {
        lemma_skip_children(levels, parent, a + 1, b);
    }
}

proof fn lemma_no_more_children(levels: Seq<u8>, p: int, e: int, c: int)
    requires
        0 <= p < e <= c,
        c <= levels.len(),
        e < levels.len(),
        levels[e] <= levels[p],
    ensures
        toc_children(levels, Some(p), c) == Seq::<TocV>::empty(),
    decreases levels.len() - c,
{
    if c < levels.len() {
        lemma_no_more_children(levels, p, e, c + 1);
        lemma_parent_search(levels, c, c - 1);
        if levels[c] > levels[p] {
            if c > e {
                lemma_not_child(levels, Some(p), c, e);
            } else {
                assert(levels[c] <= levels[p]);
            }
        } else {
            if toc_parent(levels, c) == Some(p) {
                assert(levels[p] < levels[c]);
            }
        }
    }
}

proof fn lemma_tocs_push(ts: Seq<TocItem>, t: TocItem)
    ensures
        tocs_view(ts.push(t)) == tocs_view(ts).push(toc_view(t)),
{
    assert(ts.push(t).drop_last() =~= ts);
}

proof fn lemma_order_append(a: Seq<TocV>, b: Seq<TocV>)
    ensures
        toc_order(a + b) == toc_order(a) + toc_order(b),
    decreases b.len(),
{
    if b.len() == 0 {
        assert(a + b =~= a);
        assert(toc_order(b) =~= Seq::<nat>::empty());
        assert(toc_order(a) + toc_order(b) =~= toc_order(a));
    } else {
        lemma_order_append(a, b.drop_last());
        assert((a + b).drop_last() =~= a + b.drop_last());
        assert((a + b).last() == b.last());
        assert(toc_order(a + b) =~= toc_order(a) + toc_order(b));
    }
}

/// The levels of a list of headings.
pub open spec fn heading_levels(hs: Seq<Heading>) -> Seq<u8> {
    levels_of(crate::prepare::headings_view(hs))
}

/// A heading position as an integer.
pub open spec fn parent_of(parent: Option<usize>) -> Option<int> {
    match parent {
        Some(p) => Some(p as int),
        None => None,
    }
}

/// Whether heading `j` may nest under `parent`.
fn nests_under(headings: &[Heading], j: usize, parent: Option<usize>) -> (r: bool)
    requires
        j < headings.len(),
        match parent {
            Some(p) => p < headings.len(),
            None => true,
        },
    ensures
        r == above(heading_levels(headings@), parent_of(parent), j as int),
{
    match parent {
        Some(p) => headings[j].level > headings[p].level,
        None => true,
    }
}

/// Whether every heading of the items lies below `n`.
pub open spec fn tocs_within(ts: Seq<TocV>, n: nat) -> bool
    decreases ts, 0int,
{
    ts.len() == 0 || (tocs_within(ts.drop_last(), n) && toc_within(ts.last(), n))
}

pub open spec fn toc_within(t: TocV, n: nat) -> bool
    decreases t, 1int,
{
    t.heading < n && tocs_within(t.children, n)
}

/// Builds the items that nest under `parent`, starting at heading `start`.
fn toc_build(headings: &[Heading], start: usize, parent: Option<usize>) -> (r: (
    Vec<TocItem>,
    usize,
))
    requires
        start <= headings.len(),
        match parent {
            None => start == 0,
            Some(p) => start == p + 1,
        },
    ensures
        start <= r.1 <= headings.len(),
        forall|j: int|
            start <= j < r.1 ==> #[trigger] above(heading_levels(headings@), parent_of(parent), j),
        r.1 < headings.len() ==> !above(heading_levels(headings@), parent_of(parent), r.1 as int),
        tocs_view(r.0@) == toc_children(heading_levels(headings@), parent_of(parent), start as int),
        toc_order(tocs_view(r.0@)) == range(start as int, r.1 as int),
        tocs_within(tocs_view(r.0@), headings.len() as nat),
    decreases headings.len() - start,
{
    let ghost levels = heading_levels(headings@);
    let ghost par = parent_of(parent);
    assert(levels.len() == headings.len());
    assert(forall|j: int| 0 <= j < headings.len() ==> levels[j] == headings@[j].level);
    let n = headings.len();
    let mut items: Vec<TocItem> = Vec::new();
    let mut pos = start;
    proof {
        assert(tocs_view(items@) =~= Seq::<TocV>::empty());
        assert(toc_order(Seq::<TocV>::empty()) =~= range(start as int, pos as int));
    }
    while pos < n && nests_under(headings, pos, parent)
        invariant
            n == headings.len(),
            levels == heading_levels(headings@),
            levels.len() == n,
            par == parent_of(parent),
            match parent {
                None => start == 0,
                Some(p) => start == p + 1,
            },
            start <= pos <= n,
            forall|j: int| start <= j < pos ==> above(levels, par, j),
            pos < n ==> forall|j: int| start <= j < pos ==> levels[j] >= levels[pos as int],
            tocs_view(items@) + toc_children(levels, par, pos as int) == toc_children(
                levels,
                par,
                start as int,
            ),
            toc_order(tocs_view(items@)) == range(start as int, pos as int),
            tocs_within(tocs_view(items@), n as nat),
        decreases n - pos,
    {
        let i = pos;
        proof {
            assert(levels[i as int] == headings@[i as int].level);
            match parent {
                Some(p) => {
                    assert(levels[p as int] == headings@[p as int].level);
                },
                None => {},
            }
            lemma_parent_is(levels, i as int, par);
        }
        let (children, end) = toc_build(headings, i + 1, Some(i));
        let ghost cv = tocs_view(children@);
        proof {
            // the headings inside the new item do not nest under `parent` directly
            assert forall|c: int| i + 1 <= c < end implies toc_parent(levels, c) != par by {
                assert(above(levels, Some(i as int), c));
                assert(levels[c] > levels[i as int]);
                lemma_not_child(levels, par, c, i as int);
            }
            lemma_skip_children(levels, par, i + 1, end as int);
            if end < n {
                lemma_no_more_children(levels, i as int, end as int, end as int);
            } else {
                assert(toc_children(levels, Some(i as int), end as int) == Seq::<TocV>::empty());
            }
        }
        let ghost before = tocs_view(items@);
        let item = TocItem { heading: i, children };
        proof {
            lemma_tocs_push(items@, item);
        }
        items.push(item);
        pos = end;
        proof {
            let tv = TocV { heading: i as nat, children: cv };
            assert(tocs_view(items@) == before.push(tv));
            assert(toc_children(levels, par, i as int) == seq![tv] + toc_children(levels, par, i + 1));
            assert(before.push(tv) + toc_children(levels, par, pos as int) =~= before + (seq![tv] + toc_children(levels, par, i + 1)));
            lemma_order_append(before, seq![tv]);
            assert(before + seq![tv] =~= before.push(tv));
            assert(seq![tv].drop_last() =~= Seq::<TocV>::empty());
            assert(seq![tv].last() == tv);
            assert(toc_order(Seq::<TocV>::empty()) == Seq::<nat>::empty());
            assert(toc_order(seq![tv]) =~= toc_item_order(tv));
            assert(toc_item_order(tv) == seq![i as nat] + range(i + 1, end as int));
            assert(before.push(tv).drop_last() =~= before);
            assert(toc_within(tv, n as nat));
            assert(toc_order(tocs_view(items@)) =~= range(start as int, pos as int));
            assert forall|j: int| start <= j < pos implies above(levels, par, j) by {
                if j > i {
                    assert(above(levels, Some(i as int), j));
                }
            }
            if pos < n {
                assert(!above(levels, Some(i as int), end as int));
                assert(levels[end as int] <= levels[i as int]);
                assert forall|j: int| start <= j < pos implies levels[j] >= levels[pos as int] by {
                    if j < i {
                        assert(levels[j] >= levels[i as int]);
                    } else if j > i {
                        assert(above(levels, Some(i as int), j));
                    }
                }
            }
        }
    }
    proof {
        if pos < n {
            match parent {
                Some(p) => {
                    assert(levels[pos as int] == headings@[pos as int].level);
                    assert(levels[p as int] == headings@[p as int].level);
                    lemma_no_more_children(levels, p as int, pos as int, pos as int);
                },
                None => {},
            }
        }
        assert(tocs_view(items@) + toc_children(levels, par, pos as int) =~= tocs_view(items@));
    }
    (items, pos)
}


/// Turn heading levels into a nested table of contents: each heading nests
/// under the nearest preceding heading of a lower level, and the headings
/// keep their document order.
pub fn toc_tree(headings: &[Heading]) -> (tree: Vec<TocItem>)
    ensures
        tocs_view(tree@) == toc_forest(heading_levels(headings@)),
        toc_order(tocs_view(tree@)) == range(0, headings.len() as int),
        tocs_within(tocs_view(tree@), headings.len() as nat),
{
    let (tree, end) = toc_build(headings, 0, None);
    assert(end == headings.len());
    tree
}

proof fn lemma_tocs_view(ts: Seq<TocItem>)
    ensures
        tocs_view(ts).len() == ts.len(),
        forall|i: int| 0 <= i < ts.len() ==> #[trigger] tocs_view(ts)[i] == toc_view(ts[i]),
    decreases ts.len(),
{
    if ts.len() > 0 {
        lemma_tocs_view(ts.drop_last());
    }
}

proof fn lemma_tocs_within(ts: Seq<TocV>, n: nat)
    requires
        tocs_within(ts, n),
    ensures
        forall|i: int| 0 <= i < ts.len() ==> toc_within(#[trigger] ts[i], n),
    decreases ts.len(),
{
    if ts.len() > 0 {
        lemma_tocs_within(ts.drop_last(), n);
        assert forall|i: int| 0 <= i < ts.len() implies toc_within(#[trigger] ts[i], n) by {
            if i < ts.len() - 1 {
                assert(ts[i] == ts.drop_last()[i]);
            }
        }
    }
}

/// `<ol>` with one `<li>` per item.
pub open spec fn toc_list_calls(ts: Seq<TocV>, hs: Seq<HeadingV>) -> Seq<XmlCall>
    decreases ts, 2int,
{
    seq![XmlCall::StartElement("ol"@)] + toc_items_calls(ts, hs) + seq![XmlCall::EndElement]
}

pub open spec fn toc_items_calls(ts: Seq<TocV>, hs: Seq<HeadingV>) -> Seq<XmlCall>
    decreases ts, 0int,
{
    if ts.len() == 0 {
        Seq::empty()
    } else {
        toc_items_calls(ts.drop_last(), hs) + toc_item_calls(ts.last(), hs)
    }
}

/// `<li>` with a link to the heading and, if it has items, their list.
pub open spec fn toc_item_calls(t: TocV, hs: Seq<HeadingV>) -> Seq<XmlCall>
    decreases t, 1int,
{
    let h = hs[t.heading as int];
    seq![XmlCall::StartElement("li"@)] + link_calls("content.xhtml#"@ + h.id, h.title) + if t.children.len()
        > 0 {
        toc_list_calls(t.children, hs)
    } else {
        Seq::empty()
    } + seq![XmlCall::EndElement]
}

/// Write a nested navigation list.
fn write_toc(xml: &mut XmlWriter, headings: &[Heading], items: &Vec<TocItem>)
    requires
        tocs_within(tocs_view(items@), headings.len() as nat),
    ensures
        xml_options(*final(xml)) == xml_options(*old(xml)),
        xml_calls(*final(xml)) == xml_calls(*old(xml)) + toc_list_calls(
            tocs_view(items@),
            crate::prepare::headings_view(headings@),
        ),
    decreases items@,
{
    let ghost hv = crate::prepare::headings_view(headings@);
    let ghost tv = tocs_view(items@);
    let ghost head = xml_calls(*xml);
    proof {
        lemma_tocs_view(items@);
        lemma_tocs_within(tv, headings.len() as nat);
    }
    xml_start(xml, "ol");
    let ghost start = xml_calls(*xml);
    let mut i: usize = 0;
    while i < items.len()
        invariant
            i <= items.len(),
            tv == tocs_view(items@),
            hv == crate::prepare::headings_view(headings@),
            tv.len() == items.len(),
            forall|k: int| 0 <= k < items.len() ==> #[trigger] tv[k] == toc_view(items@[k]),
            forall|k: int| 0 <= k < items.len() ==> toc_within(#[trigger] tv[k], headings.len() as nat),
            xml_options(*xml) == xml_options(*old(xml)),
            xml_calls(*xml) == start + toc_items_calls(tv.take(i as int), hv),
        decreases items.len() - i,
    {
        let item = &items[i];
        assert(toc_within(tv[i as int], headings.len() as nat));
        let ghost before = xml_calls(*xml);
        let heading = &headings[item.heading];
        xml_start(xml, "li");
        let mut href = String::new();
        push_str(&mut href, "content.xhtml#");
        push_str(&mut href, heading.id.as_str());
        link(xml, href.as_str(), heading.title.as_str());
        if item.children.len() > 0 {
            assert(decreases_to!(items@ => items@[i as int]));
            write_toc(xml, headings, &item.children);
        }
        xml_end(xml);
        proof {
            assert(tv.take(i + 1).drop_last() =~= tv.take(i as int));
            assert(tv.take(i + 1).last() == tv[i as int]);
            assert(hv[item.heading as int] == crate::prepare::heading_view(headings@[item.heading as int]));
            assert(xml_calls(*xml) =~= before + toc_item_calls(tv[i as int], hv));
        }
        i = i + 1;
    }
    xml_end(xml);
    proof {
        assert(tv.take(items.len() as int) =~= tv);
    }
    assert(xml_calls(*xml) =~= head + toc_list_calls(tv, hv));
}


/// The calls that write the navigation document: a table of contents that
/// links to each heading, nested by level, or to the content document under
/// the title when there are no headings.
pub open spec fn navigation_calls(title: Seq<char>, locale: LocaleV, hs: Seq<HeadingV>) -> Seq<
    XmlCall,
> {
    let lang = rfc_3066_of(locale);
    seq![
        XmlCall::Declaration,
        XmlCall::StartElement("html"@),
        XmlCall::Attribute("xmlns"@, "http://www.w3.org/1999/xhtml"@),
        XmlCall::Attribute("xmlns:epub"@, "http://www.idpf.org/2007/ops"@),
        XmlCall::Attribute("lang"@, lang),
        XmlCall::Attribute("xml:lang"@, lang),
        XmlCall::StartElement("head"@),
    ] + text_element_calls("title"@, title) + seq![
        XmlCall::EndElement,
        XmlCall::StartElement("body"@),
        XmlCall::StartElement("nav"@),
        XmlCall::Attribute("epub:type"@, "toc"@),
        XmlCall::Attribute("id"@, "toc"@),
    ] + text_element_calls("h1"@, "Contents"@) + if hs.len() == 0 {
        seq![XmlCall::StartElement("ol"@), XmlCall::StartElement("li"@)] + link_calls(
            "content.xhtml"@,
            title,
        ) + seq![XmlCall::EndElement, XmlCall::EndElement]
    } else {
        toc_list_calls(toc_forest(levels_of(hs)), hs)
    } + seq![XmlCall::EndElement, XmlCall::EndElement]
}

/// Build the EPUB navigation document.
pub fn navigation(title: &str, locale: Locale, headings: &[Heading], pretty: bool) -> (document:
    String)
    ensures
        document@ == xml_document(
            writer_options(pretty),
            navigation_calls(title@, locale_view(locale), crate::prepare::headings_view(headings@)),
        ),
{
    let ghost hv = crate::prepare::headings_view(headings@);
    let lang = locale.rfc_3066();
    let mut xml = writer(pretty);
    xml_declaration(&mut xml);
    xml_start(&mut xml, "html");
    xml_attribute(&mut xml, "xmlns", "http://www.w3.org/1999/xhtml");
    xml_attribute(&mut xml, "xmlns:epub", "http://www.idpf.org/2007/ops");
    xml_attribute(&mut xml, "lang", lang.as_str());
    xml_attribute(&mut xml, "xml:lang", lang.as_str());

    xml_start(&mut xml, "head");
    text_element(&mut xml, "title", title);
    xml_end(&mut xml);

    xml_start(&mut xml, "body");
    xml_start(&mut xml, "nav");
    xml_attribute(&mut xml, "epub:type", "toc");
    xml_attribute(&mut xml, "id", "toc");
    text_element(&mut xml, "h1", "Contents");
    let ghost head = xml_calls(xml);

    if headings.len() == 0 {
        xml_start(&mut xml, "ol");
        xml_start(&mut xml, "li");
        link(&mut xml, "content.xhtml", title);
        xml_end(&mut xml);
        xml_end(&mut xml);
    } else {
        let tree = toc_tree(headings);
        write_toc(&mut xml, headings, &tree);
    }
    let ghost body = xml_calls(xml);
    proof {
        let toc = if hv.len() == 0 {
            seq![XmlCall::StartElement("ol"@), XmlCall::StartElement("li"@)] + link_calls(
                "content.xhtml"@,
                title@,
            ) + seq![XmlCall::EndElement, XmlCall::EndElement]
        } else {
            toc_list_calls(toc_forest(levels_of(hv)), hv)
        };
        assert(body =~= head + toc);
    }

    xml_end(&mut xml);
    xml_end(&mut xml);
    proof {
        assert(xml_calls(xml) =~= navigation_calls(title@, locale_view(locale), hv));
    }
    xml_finish(xml)
}

/// The five writer calls of the manifest item at position `j` among those of
/// the resources.
pub open spec fn asset_item_at(rs: Seq<ResourceV>, j: int) -> Seq<XmlCall> {
    asset_items_calls(rs).subrange(5 * j, 5 * j + 5)
}

/// The manifest items of the resources come in the resources' order, five
/// writer calls each: the item of the resource at position `j` opens an
/// `item` element with the identifier `asset-<j + 1>` (in decimal), the
/// resource's path as `href` and its media type, and closes it.
pub proof fn lemma_asset_items(rs: Seq<ResourceV>)
    ensures
        asset_items_calls(rs).len() == 5 * rs.len(),
        forall|j: int|
            0 <= j < rs.len() ==> #[trigger] asset_item_at(rs, j) == seq![
                XmlCall::StartElement("item"@),
                XmlCall::Attribute("id"@, "asset-"@ + digits((j + 1) as nat, 10)),
                XmlCall::Attribute("href"@, rs[j].path),
                XmlCall::Attribute("media-type"@, rs[j].media_type),
                XmlCall::EndElement,
            ],
    decreases rs.len(),
{
    if rs.len() > 0 {
        let prev = rs.drop_last();
        lemma_asset_items(prev);
        let c = asset_items_calls(rs);
        let n = rs.len() - 1;
        let item = manifest_item_calls(asset_id(rs.len()), rs.last().path, rs.last().media_type, None);
        assert(item =~= seq![
            XmlCall::StartElement("item"@),
            XmlCall::Attribute("id"@, asset_id(rs.len())),
            XmlCall::Attribute("href"@, rs.last().path),
            XmlCall::Attribute("media-type"@, rs.last().media_type),
            XmlCall::EndElement,
        ]);
        assert(c == asset_items_calls(prev) + item);
        assert forall|j: int| 0 <= j < rs.len() implies #[trigger] asset_item_at(rs, j) == seq![
            XmlCall::StartElement("item"@),
            XmlCall::Attribute("id"@, "asset-"@ + digits((j + 1) as nat, 10)),
            XmlCall::Attribute("href"@, rs[j].path),
            XmlCall::Attribute("media-type"@, rs[j].media_type),
            XmlCall::EndElement,
        ] by {
            if j < n {
                assert(prev[j] == rs[j]);
                assert(asset_item_at(prev, j) == seq![
                    XmlCall::StartElement("item"@),
                    XmlCall::Attribute("id"@, "asset-"@ + digits((j + 1) as nat, 10)),
                    XmlCall::Attribute("href"@, prev[j].path),
                    XmlCall::Attribute("media-type"@, prev[j].media_type),
                    XmlCall::EndElement,
                ]);
                assert(asset_item_at(rs, j) =~= asset_item_at(prev, j));
            } else {
                assert(asset_item_at(rs, j) =~= item);
            }
        }
    }
}

/// No two manifest items of resources share an identifier.
pub proof fn lemma_asset_ids_distinct(rs: Seq<ResourceV>)
    ensures
        forall|i: int, j: int|
            0 <= i < j < rs.len() ==> #[trigger] asset_item_at(rs, i)[1] != #[trigger] asset_item_at(
                rs,
                j,
            )[1],
{
    lemma_asset_items(rs);
    assert forall|i: int, j: int|
        0 <= i < j < rs.len() implies #[trigger] asset_item_at(rs, i)[1] != #[trigger] asset_item_at(
            rs,
            j,
        )[1] by {
        let a = "asset-"@ + digits((i + 1) as nat, 10);
        let b = "asset-"@ + digits((j + 1) as nat, 10);
        assert(asset_item_at(rs, i)[1] == XmlCall::Attribute("id"@, a));
        assert(asset_item_at(rs, j)[1] == XmlCall::Attribute("id"@, b));
        if a == b {
            reveal_strlit("asset-");
            assert(a.skip(6) =~= digits((i + 1) as nat, 10));
            assert(b.skip(6) =~= digits((j + 1) as nat, 10));
            crate::ids::lemma_digits_injective((i + 1) as nat, (j + 1) as nat);
        }
    }
}

} // verus!
