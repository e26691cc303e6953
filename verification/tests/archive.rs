use std::io::{Cursor, Read};

use typst_epub::dom::{DocumentInfo, HtmlDocument, HtmlElement, HtmlNode, Smart};
use typst_epub::prepare::{prepare, Resource};
use typst_epub::timestamp::Datetime;
use typst_epub::{assemble, EpubOptions};
use zip::{CompressionMethod, ZipArchive};

#[test]
fn writes_required_epub_entries() {
    let data = typst_epub::archive::write("content", "navigation", "package", &[]).unwrap();
    let mut archive = ZipArchive::new(Cursor::new(data)).unwrap();
    assert_eq!(archive.len(), 5);

    {
        let mut mimetype = archive.by_index(0).unwrap();
        assert_eq!(mimetype.name().unwrap(), "mimetype");
        assert_eq!(mimetype.compression(), CompressionMethod::Stored);
        let mut contents = String::new();
        mimetype.read_to_string(&mut contents).unwrap();
        assert_eq!(contents, "application/epub+zip");
    }

    for path in [
        "META-INF/container.xml",
        "EPUB/package.opf",
        "EPUB/nav.xhtml",
        "EPUB/content.xhtml",
    ] {
        assert!(archive.by_name(path).is_ok(), "missing {path}");
    }
}

fn read(archive: &mut ZipArchive<Cursor<Vec<u8>>>, name: &str) -> Vec<u8> {
    let mut file = archive.by_name(name).unwrap();
    let mut out = Vec::new();
    file.read_to_end(&mut out).unwrap();
    out
}

#[test]
fn stores_files_and_resources_in_order() {
    let resources = vec![
        Resource { path: "assets/a.png".to_string(), media_type: "image/png", data: vec![1, 2, 3] },
        Resource { path: "assets/b.gif".to_string(), media_type: "image/gif", data: vec![4] },
    ];
    let data = typst_epub::archive::write("<c/>", "<n/>", "<p/>", &resources).unwrap();
    let mut archive = ZipArchive::new(Cursor::new(data)).unwrap();
    assert_eq!(archive.len(), 7);
    let names: Vec<String> = (0..archive.len()).map(|i| archive.by_index(i).unwrap().name().unwrap().to_string()).collect();
    assert_eq!(
        names,
        [
            "mimetype",
            "META-INF/container.xml",
            "EPUB/package.opf",
            "EPUB/nav.xhtml",
            "EPUB/content.xhtml",
            "EPUB/assets/a.png",
            "EPUB/assets/b.gif",
        ]
    );
    assert_eq!(read(&mut archive, "EPUB/content.xhtml"), b"<c/>");
    assert_eq!(read(&mut archive, "EPUB/nav.xhtml"), b"<n/>");
    assert_eq!(read(&mut archive, "EPUB/package.opf"), b"<p/>");
    assert_eq!(read(&mut archive, "EPUB/assets/a.png"), vec![1, 2, 3]);
    let container = String::from_utf8(read(&mut archive, "META-INF/container.xml")).unwrap();
    assert!(container.contains("full-path=\"EPUB/package.opf\""));
    assert_eq!(archive.by_name("EPUB/assets/b.gif").unwrap().compression(), CompressionMethod::Deflated);
}

#[test]
fn same_input_gives_same_archive() {
    let a = typst_epub::archive::write("x", "y", "z", &[]).unwrap();
    let b = typst_epub::archive::write("x", "y", "z", &[]).unwrap();
    assert_eq!(a, b);
}

#[test]
fn assembles_a_complete_publication() {
    let root = HtmlElement {
        tag: "body".to_string(),
        attrs: vec![],
        children: vec![HtmlNode::Element(HtmlElement {
            tag: "h1".to_string(),
            attrs: vec![],
            children: vec![HtmlNode::Text("First".to_string())],
        })],
    };
    let info = DocumentInfo {
        title: None,
        author: vec![],
        description: None,
        keywords: vec![],
        date: Smart::Custom(Some(Datetime::Date { year: 2020, month: 2, day: 29 })),
        locale: Smart::Auto,
    };
    let prepared = prepare(&HtmlDocument { root, info }).unwrap();
    let options = EpubOptions {
        ident: Smart::Custom("urn:isbn:1".to_string()),
        timestamp: Some(Datetime::Datetime { year: 2021, month: 1, day: 2, hour: 3, minute: 4, second: 5 }),
        pretty: false,
    };
    let data = assemble(&prepared, "<html/>", &options).unwrap();
    let mut archive = ZipArchive::new(Cursor::new(data)).unwrap();
    let package = String::from_utf8(read(&mut archive, "EPUB/package.opf")).unwrap();
    assert!(package.contains("<dc:identifier id=\"pub-id\">urn:isbn:1</dc:identifier>"));
    assert!(package.contains("<dc:title>First</dc:title>"));
    assert!(package.contains("<dc:language>en</dc:language>"));
    assert!(package.contains("<dc:date>2020-02-29</dc:date>"));
    assert!(package.contains("<meta property=\"dcterms:modified\">2021-01-02T03:04:05Z</meta>"));
    let nav = String::from_utf8(read(&mut archive, "EPUB/nav.xhtml")).unwrap();
    assert!(nav.contains("<a href=\"content.xhtml#heading-1\">First</a>"));
    assert_eq!(read(&mut archive, "EPUB/content.xhtml"), b"<html/>");
}

#[test]
fn derives_identifier_and_timestamp_automatically() {
    let root = HtmlElement { tag: "body".to_string(), attrs: vec![], children: vec![] };
    let info = DocumentInfo {
        title: Some("T".to_string()),
        author: vec!["A".to_string()],
        description: None,
        keywords: vec![],
        date: Smart::Auto,
        locale: Smart::Auto,
    };
    let prepared = prepare(&HtmlDocument { root, info }).unwrap();
    let data = assemble(&prepared, "", &EpubOptions::default()).unwrap();
    let mut archive = ZipArchive::new(Cursor::new(data)).unwrap();
    let package = String::from_utf8(read(&mut archive, "EPUB/package.opf")).unwrap();
    let start = package.find("urn:typst:").unwrap();
    let hex = &package[start + "urn:typst:".len()..start + "urn:typst:".len() + 32];
    assert!(hex.chars().all(|c| c.is_ascii_hexdigit() && !c.is_ascii_uppercase()));
    assert!(package.contains("<dc:title>T</dc:title>"));
    let m = package.find("dcterms:modified\">").unwrap() + "dcterms:modified\">".len();
    assert_eq!(&package[m + 4..m + 5], "-");
    assert_eq!(&package[m + 19..m + 21], "Z<");
}

fn prepared_with(title: &str, description: Option<&str>) -> typst_epub::prepare::Prepared {
    let root = HtmlElement { tag: "body".to_string(), attrs: vec![], children: vec![] };
    let info = DocumentInfo {
        title: Some(title.to_string()),
        author: vec!["A".to_string(), "B".to_string()],
        description: description.map(|d| d.to_string()),
        keywords: vec![],
        date: Smart::Auto,
        locale: Smart::Auto,
    };
    prepare(&HtmlDocument { root, info }).unwrap()
}

fn identifier_in(data: Vec<u8>) -> String {
    let mut archive = ZipArchive::new(Cursor::new(data)).unwrap();
    let package = String::from_utf8(read(&mut archive, "EPUB/package.opf")).unwrap();
    let start = package.find("<dc:identifier id=\"pub-id\">").unwrap() + "<dc:identifier id=\"pub-id\">".len();
    let end = package[start..].find('<').unwrap();
    package[start..start + end].to_string()
}

#[test]
fn derived_identifier_depends_on_title_and_authors() {
    let options = EpubOptions::default();
    let a = identifier_in(assemble(&prepared_with("T", None), "", &options).unwrap());
    let b = identifier_in(assemble(&prepared_with("T", Some("other")), "x", &options).unwrap());
    let c = identifier_in(assemble(&prepared_with("U", None), "", &options).unwrap());
    assert!(a.starts_with("urn:typst:"));
    assert_eq!(a.len(), "urn:typst:".len() + 32);
    assert_eq!(a, b);
    assert_ne!(a, c);
}

#[test]
fn export_with_a_timestamp_is_reproducible() {
    let options = EpubOptions {
        ident: Smart::Custom("id".to_string()),
        timestamp: Some(Datetime::Date { year: 2024, month: 5, day: 6 }),
        pretty: true,
    };
    let prepared = prepared_with("T", None);
    let first = assemble(&prepared, "<html/>", &options).unwrap();
    let second = assemble(&prepared, "<html/>", &options).unwrap();
    assert_eq!(first, second);
    assert_eq!(identifier_in(first), "id");
}

#[test]
fn repeated_file_names_fail_to_write() {
    let resources = vec![
        Resource { path: "assets/a.png".to_string(), media_type: "image/png", data: vec![1] },
        Resource { path: "assets/a.png".to_string(), media_type: "image/png", data: vec![2] },
    ];
    let error = typst_epub::archive::write("c", "n", "p", &resources).unwrap_err();
    assert!(error.message.starts_with("failed to write EPUB ("));
    assert!(error.element.is_none());
}

fn title_in(prepared: &typst_epub::prepare::Prepared) -> String {
    let data = assemble(prepared, "", &EpubOptions::default()).unwrap();
    let mut archive = ZipArchive::new(Cursor::new(data)).unwrap();
    let package = String::from_utf8(read(&mut archive, "EPUB/package.opf")).unwrap();
    let start = package.find("<dc:title>").unwrap() + "<dc:title>".len();
    let end = package[start..].find('<').unwrap();
    package[start..start + end].to_string()
}

#[test]
fn blank_titles_fall_back() {
    let with_heading = HtmlElement {
        tag: "body".to_string(),
        attrs: vec![],
        children: vec![HtmlNode::Element(HtmlElement {
            tag: "h2".to_string(),
            attrs: vec![],
            children: vec![HtmlNode::Text("Heading".to_string())],
        })],
    };
    let mut info = DocumentInfo {
        title: Some(" \t ".to_string()),
        author: vec![],
        description: None,
        keywords: vec![],
        date: Smart::Auto,
        locale: Smart::Auto,
    };
    let prepared = prepare(&HtmlDocument { root: with_heading, info: info.clone() }).unwrap();
    assert_eq!(title_in(&prepared), "Heading");
    info.title = Some(String::new());
    let empty = HtmlElement { tag: "body".to_string(), attrs: vec![], children: vec![] };
    let prepared = prepare(&HtmlDocument { root: empty, info }).unwrap();
    assert_eq!(title_in(&prepared), "Untitled");
}
