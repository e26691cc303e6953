use typst_epub::dom::{DocumentInfo, HtmlDocument, HtmlElement, HtmlFrame, HtmlNode, Smart};
use typst_epub::ids::{next_heading_id, IdSet};
use typst_epub::prepare::{heading_level, plain_text, prepare, ContentProperties};
use typst_epub::resource::{
    decode_data_resource, is_remote, resource_from, resource_path, supported_resource,
};

#[test]
fn identifies_supported_resources() {
    assert_eq!(supported_resource("image/png"), Some(("image/png", "png")));
    assert_eq!(supported_resource("IMAGE/JPEG"), Some(("image/jpeg", "jpg")));
    assert_eq!(supported_resource("text/plain"), None);
}

#[test]
fn extracts_base64_image_resources() {
    let resource = decode_data_resource("data:image/png;base64,iVBORw0KGgo=")
        .unwrap()
        .unwrap();
    assert_eq!(resource.media_type, "image/png");
    assert!(resource.path.starts_with("assets/"));
    assert!(resource.path.ends_with(".png"));
    assert_eq!(resource.data, b"\x89PNG\r\n\x1a\n");
}

#[test]
fn creates_unique_heading_ids() {
    let mut ids = IdSet::new();
    ids.insert(String::from("heading-1"));
    let mut index = 1;
    assert_eq!(next_heading_id(&mut ids, &mut index), "heading-2");
    assert_eq!(next_heading_id(&mut ids, &mut index), "heading-3");
}

#[test]
fn maps_other_supported_media_types() {
    assert_eq!(supported_resource("image/gif"), Some(("image/gif", "gif")));
    assert_eq!(supported_resource("image/jpg"), Some(("image/jpeg", "jpg")));
    assert_eq!(supported_resource("Image/Svg+Xml"), Some(("image/svg+xml", "svg")));
    assert_eq!(supported_resource("image/webp"), Some(("image/webp", "webp")));
    assert_eq!(supported_resource("image/bmp"), None);
    assert_eq!(supported_resource(""), None);
}

#[test]
fn recognizes_remote_urls() {
    assert!(is_remote("http://example.com/a.png"));
    assert!(is_remote("https://example.com"));
    assert!(!is_remote("ftp://example.com"));
    assert!(!is_remote("HTTP://example.com"));
    assert!(!is_remote("assets/a.png"));
}

#[test]
fn ignores_values_that_are_not_embedded_images() {
    assert!(decode_data_resource("picture.png").unwrap().is_none());
    assert!(decode_data_resource("data:image/png,plain").unwrap().is_none());
    assert!(decode_data_resource("data:text/plain;base64,aGk=").unwrap().is_none());
    assert!(decode_data_resource("data:image/png;base64").unwrap().is_none());
}

#[test]
fn accepts_base64_marker_in_any_case_and_position() {
    let resource = decode_data_resource("data:IMAGE/PNG;charset=x;BASE64,aGk=")
        .unwrap()
        .unwrap();
    assert_eq!(resource.media_type, "image/png");
    assert_eq!(resource.data, b"hi");
}

#[test]
fn reports_undecodable_resources() {
    let error = decode_data_resource("data:image/png;base64,@@@").unwrap_err();
    assert!(error.message.starts_with("failed to decode EPUB resource ("));
    assert!(error.message.ends_with(')'));
}

#[test]
fn same_data_gives_same_path() {
    let a = decode_data_resource("data:image/png;base64,aGk=").unwrap().unwrap();
    let b = decode_data_resource("data:image/PNG;base64,aGk=").unwrap().unwrap();
    let c = decode_data_resource("data:image/png;base64,aGg=").unwrap().unwrap();
    assert_eq!(a.path, b.path);
    assert_eq!(a.path.len(), "assets/".len() + 32 + ".png".len());
    assert_eq!(c.data, b"hh");
    assert_ne!(a.path, c.path);
}

#[test]
fn formats_resource_paths() {
    assert_eq!(resource_path(0xab, "png"), "assets/000000000000000000000000000000ab.png");
    assert_eq!(resource_path(u128::MAX, "svg"), "assets/ffffffffffffffffffffffffffffffff.svg");
}

#[test]
fn next_heading_id_skips_taken_numbers() {
    let mut ids = IdSet::new();
    ids.insert(String::from("heading-3"));
    ids.insert(String::from("heading-4"));
    let mut index = 3;
    assert_eq!(next_heading_id(&mut ids, &mut index), "heading-5");
    assert_eq!(index, 6);
    assert!(ids.contains("heading-5"));
    assert!(!ids.insert(String::from("heading-5")));
}

#[test]
fn serializes_manifest_properties_in_order() {
    let all = ContentProperties { mathml: true, remote_resources: true, scripted: true, svg: true };
    assert_eq!(all.manifest_value(), "mathml remote-resources scripted svg");
    let some = ContentProperties { mathml: false, remote_resources: true, scripted: false, svg: true };
    assert_eq!(some.manifest_value(), "remote-resources svg");
    assert_eq!(ContentProperties::default().manifest_value(), "");
}

fn text(s: &str) -> HtmlNode {
    HtmlNode::Text(s.to_string())
}

fn element(tag: &str, attrs: &[(&str, &str)], children: Vec<HtmlNode>) -> HtmlElement {
    HtmlElement {
        tag: tag.to_string(),
        attrs: attrs.iter().map(|(k, v)| (k.to_string(), v.to_string())).collect(),
        children,
    }
}

fn info() -> DocumentInfo {
    DocumentInfo {
        title: None,
        author: vec![],
        description: None,
        keywords: vec![],
        date: Smart::Auto,
        locale: Smart::Auto,
    }
}

#[test]
fn collapses_heading_text() {
    let nodes = vec![
        text("  Hello\n"),
        HtmlNode::Element(element("em", &[], vec![text("big ")])),
        HtmlNode::Tag,
        text("\tworld  "),
    ];
    assert_eq!(plain_text(&nodes), "Hello big world");
    assert_eq!(plain_text(&vec![text(" \n ")]), "");
}

#[test]
fn finds_heading_levels() {
    assert_eq!(heading_level(&element("h1", &[], vec![])), Some(1));
    assert_eq!(heading_level(&element("h6", &[], vec![])), Some(6));
    assert_eq!(heading_level(&element("h7", &[], vec![])), None);
    assert_eq!(heading_level(&element("p", &[], vec![])), None);
}

#[test]
fn prepares_headings_resources_and_properties() {
    let body = element(
        "body",
        &[],
        vec![
            HtmlNode::Element(element("h1", &[], vec![text("Intro")])),
            HtmlNode::Element(element("h2", &[("id", "heading-1")], vec![text(" Details ")])),
            HtmlNode::Element(element("h2", &[], vec![])),
            HtmlNode::Element(element("img", &[("src", "data:image/png;base64,aGk=")], vec![])),
            HtmlNode::Element(element("img", &[("src", "data:image/png;base64,aGk=")], vec![])),
            HtmlNode::Element(element("a", &[("onclick", "x()")], vec![])),
            HtmlNode::Element(element("video", &[("poster", "https://example.com/p.png")], vec![])),
            HtmlNode::Element(element("math", &[], vec![])),
            HtmlNode::Frame(HtmlFrame { id: Some("frame".to_string()) }),
        ],
    );
    let document = HtmlDocument { root: element("html", &[], vec![HtmlNode::Element(body)]), info: info() };
    let prepared = prepare(&document).unwrap();

    assert_eq!(prepared.headings.len(), 2);
    assert_eq!(prepared.headings[0].level, 1);
    assert_eq!(prepared.headings[0].title, "Intro");
    assert_eq!(prepared.headings[0].id, "heading-2");
    assert_eq!(prepared.headings[1].level, 2);
    assert_eq!(prepared.headings[1].title, "Details");
    assert_eq!(prepared.headings[1].id, "heading-1");

    assert_eq!(prepared.resources.len(), 1);
    assert_eq!(prepared.resources[0].data, b"hi");
    assert_eq!(prepared.resources[0].media_type, "image/png");

    assert!(prepared.properties.mathml);
    assert!(prepared.properties.scripted);
    assert!(prepared.properties.remote_resources);
    assert!(prepared.properties.svg);

    let HtmlNode::Element(body) = &prepared.document.root.children[0] else { panic!() };
    let HtmlNode::Element(h1) = &body.children[0] else { panic!() };
    assert_eq!(h1.attrs, vec![("id".to_string(), "heading-2".to_string())]);
    let HtmlNode::Element(empty) = &body.children[2] else { panic!() };
    assert!(empty.attrs.is_empty());
    let HtmlNode::Element(img) = &body.children[3] else { panic!() };
    assert_eq!(img.attrs[0].1, prepared.resources[0].path);
}

#[test]
fn prepare_reports_undecodable_images() {
    let root = element("img", &[("src", "data:image/png;base64,###")], vec![]);
    let document = HtmlDocument { root, info: info() };
    let error = prepare(&document).unwrap_err();
    assert!(error.message.starts_with("failed to decode EPUB resource ("));
}

#[test]
fn prepare_keeps_plain_documents() {
    let root = element("p", &[("class", "x")], vec![text("plain")]);
    let document = HtmlDocument { root, info: info() };
    let prepared = prepare(&document).unwrap();
    assert!(prepared.headings.is_empty());
    assert!(prepared.resources.is_empty());
    assert_eq!(prepared.properties, ContentProperties::default());
    assert_eq!(prepared.document.root.attrs, vec![("class".to_string(), "x".to_string())]);
}

#[test]
fn prepare_orders_resources_by_path() {
    let root = element(
        "div",
        &[],
        vec![
            HtmlNode::Element(element("img", &[("src", "data:image/png;base64,aGk=")], vec![])),
            HtmlNode::Element(element("img", &[("src", "data:image/gif;base64,aGk=")], vec![])),
            HtmlNode::Element(element("img", &[("src", "data:image/png;base64,aG8=")], vec![])),
        ],
    );
    let prepared = prepare(&HtmlDocument { root, info: info() }).unwrap();
    assert_eq!(prepared.resources.len(), 3);
    for pair in prepared.resources.windows(2) {
        assert!(pair[0].path < pair[1].path);
    }
}

#[test]
fn generated_ids_avoid_document_ids() {
    let root = element(
        "body",
        &[("id", "heading-2")],
        vec![
            HtmlNode::Frame(HtmlFrame { id: Some("heading-1".to_string()) }),
            HtmlNode::Element(element("h1", &[], vec![text("One")])),
            HtmlNode::Element(element("h2", &[("id", "heading-4")], vec![text("Two")])),
            HtmlNode::Element(element("h3", &[], vec![text("Three")])),
            HtmlNode::Element(element("h4", &[], vec![text("Four")])),
        ],
    );
    let prepared = prepare(&HtmlDocument { root, info: info() }).unwrap();
    let ids: Vec<&str> = prepared.headings.iter().map(|h| h.id.as_str()).collect();
    assert_eq!(ids, ["heading-3", "heading-4", "heading-5", "heading-6"]);
    let levels: Vec<u8> = prepared.headings.iter().map(|h| h.level).collect();
    assert_eq!(levels, [1, 2, 3, 4]);
}

#[test]
fn prepare_keeps_the_tree() {
    let root = element(
        "div",
        &[("class", "c"), ("src", "data:image/png;base64,aGk="), ("src", "data:image/png;base64,aGk=")],
        vec![
            text(" a "),
            HtmlNode::Tag,
            HtmlNode::Frame(HtmlFrame { id: None }),
            HtmlNode::Element(element("h5", &[("lang", "en")], vec![text("Five")])),
        ],
    );
    let prepared = prepare(&HtmlDocument { root, info: info() }).unwrap();
    let out = &prepared.document.root;
    assert_eq!(out.tag, "div");
    assert_eq!(out.attrs.len(), 3);
    assert_eq!(out.attrs[0], ("class".to_string(), "c".to_string()));
    assert_eq!(out.attrs[1].0, "src");
    assert_eq!(out.attrs[1].1, prepared.resources[0].path);
    assert_eq!(out.attrs[2], ("src".to_string(), "data:image/png;base64,aGk=".to_string()));
    assert_eq!(out.children.len(), 4);
    assert!(matches!(&out.children[0], HtmlNode::Text(t) if t == " a "));
    assert!(matches!(&out.children[1], HtmlNode::Tag));
    assert!(matches!(&out.children[2], HtmlNode::Frame(f) if f.id.is_none()));
    let HtmlNode::Element(h5) = &out.children[3] else { panic!() };
    assert_eq!(h5.tag, "h5");
    assert_eq!(
        h5.attrs,
        vec![("lang".to_string(), "en".to_string()), ("id".to_string(), "heading-1".to_string())]
    );
}

#[test]
fn only_the_first_src_attribute_counts() {
    let root = element("img", &[("src", "x.png"), ("src", "data:image/png;base64,###")], vec![]);
    let prepared = prepare(&HtmlDocument { root, info: info() }).unwrap();
    assert!(prepared.resources.is_empty());
}

#[test]
fn prepare_fails_on_a_nested_undecodable_image() {
    let inner = element("img", &[("src", "data:image/gif;base64,*")], vec![]);
    let root = element(
        "div",
        &[],
        vec![HtmlNode::Element(element("p", &[], vec![HtmlNode::Element(inner)]))],
    );
    assert!(prepare(&HtmlDocument { root, info: info() }).is_err());
}

#[test]
fn each_embedded_image_has_a_resource() {
    let root = element(
        "div",
        &[],
        vec![
            HtmlNode::Element(element("img", &[("src", "data:image/jpg;base64,aGk=")], vec![])),
            HtmlNode::Element(element("img", &[("src", "data:image/jpeg;base64,aGk=")], vec![])),
            HtmlNode::Element(element("img", &[("src", "data:image/webp;base64,aGk=")], vec![])),
        ],
    );
    let prepared = prepare(&HtmlDocument { root, info: info() }).unwrap();
    assert_eq!(prepared.resources.len(), 2);
    for child in &prepared.document.root.children {
        let HtmlNode::Element(img) = child else { panic!() };
        assert!(prepared.resources.iter().any(|r| r.path == img.attrs[0].1));
    }
}

#[test]
fn plain_text_is_normalized() {
    let normalized = plain_text(&vec![text("\u{3000} a\u{a0}\u{2003}b \n\tc ")]);
    assert_eq!(normalized, "a b c");
}

#[test]
fn failure_names_the_first_undecodable_image() {
    let bad = || element("img", &[("src", "data:image/png;base64,!!")], vec![]);
    let root = element(
        "body",
        &[],
        vec![
            text("x"),
            HtmlNode::Element(element(
                "div",
                &[],
                vec![HtmlNode::Element(element("p", &[], vec![])), HtmlNode::Element(bad())],
            )),
            HtmlNode::Element(bad()),
        ],
    );
    let error = prepare(&HtmlDocument { root, info: info() }).unwrap_err();
    assert_eq!(error.element, Some(vec![1, 1]));
    assert!(error.message.starts_with("failed to decode EPUB resource ("));

    let root = bad();
    let error = prepare(&HtmlDocument { root, info: info() }).unwrap_err();
    assert_eq!(error.element, Some(vec![]));
}

#[test]
fn preparing_twice_changes_nothing() {
    let root = element(
        "body",
        &[],
        vec![
            HtmlNode::Element(element("h1", &[], vec![text("A")])),
            HtmlNode::Element(element("img", &[("src", "data:image/png;base64,aGk=")], vec![])),
            HtmlNode::Element(element("h2", &[("id", "x")], vec![text("B")])),
            HtmlNode::Frame(HtmlFrame { id: None }),
        ],
    );
    let first = prepare(&HtmlDocument { root, info: info() }).unwrap();
    let second = prepare(&first.document).unwrap();
    assert_eq!(format!("{:?}", second.document.root), format!("{:?}", first.document.root));
    assert_eq!(format!("{:?}", second.headings), format!("{:?}", first.headings));
    assert!(second.resources.is_empty());
    assert_eq!(second.properties, first.properties);
    assert_eq!(first.resources.len(), 1);
}

#[test]
fn builds_resources_from_decoded_data() {
    let resource = resource_from(vec![1, 2], 0x1f, "image/gif", "gif");
    assert_eq!(resource.path, "assets/0000000000000000000000000000001f.gif");
    assert_eq!(resource.media_type, "image/gif");
    assert_eq!(resource.data, vec![1, 2]);
}

#[test]
fn media_types_ignore_case_and_canonical_types_stay() {
    for m in ["image/png", "IMAGE/JPG", "Image/Svg+Xml", "image/webp", "text/plain", "image/GIF"] {
        let kind = supported_resource(m);
        assert_eq!(supported_resource(&m.to_ascii_uppercase()), kind);
        assert_eq!(supported_resource(&m.to_ascii_lowercase()), kind);
        if let Some((t, e)) = kind {
            assert_eq!(supported_resource(t), Some((t, e)));
        }
    }
}
