use typst_epub::dom::{lang_dir, Dir, DocumentInfo, Locale, Smart};
use typst_epub::prepare::{language, ContentProperties, Heading, Resource};
use typst_epub::timestamp::{format_datetime, format_modified, format_publication_date, Datetime};
use typst_epub::xml::{navigation, package, toc_tree};

#[test]
fn formats_epub_timestamps() {
    let datetime = Datetime::Datetime { year: 2025, month: 3, day: 7, hour: 8, minute: 9, second: 10 };
    assert_eq!(format_modified(datetime).unwrap(), "2025-03-07T08:09:10Z");
    assert_eq!(format_publication_date(datetime).unwrap(), "2025-03-07T08:09:10");

    let date = Datetime::Date { year: 2025, month: 3, day: 7 };
    assert_eq!(format_modified(date).unwrap(), "2025-03-07T00:00:00Z");
    assert_eq!(format_publication_date(date).unwrap(), "2025-03-07");
}

#[test]
fn modification_timestamps_have_the_epub_form() {
    for datetime in [
        Datetime::Date { year: 0, month: 1, day: 1 },
        Datetime::Datetime { year: 9999, month: 12, day: 31, hour: 23, minute: 59, second: 59 },
        Datetime::Datetime { year: 7, month: 2, day: 3, hour: 4, minute: 5, second: 6 },
    ] {
        let text = format_modified(datetime).unwrap();
        assert_eq!(text.len(), 20);
        for (i, c) in text.chars().enumerate() {
            match i {
                4 | 7 => assert_eq!(c, '-'),
                10 => assert_eq!(c, 'T'),
                13 | 16 => assert_eq!(c, ':'),
                19 => assert_eq!(c, 'Z'),
                _ => assert!(c.is_ascii_digit()),
            }
        }
    }
    assert_eq!(
        format_modified(Datetime::Datetime { year: 7, month: 2, day: 3, hour: 4, minute: 5, second: 6 }).unwrap(),
        "0007-02-03T04:05:06Z"
    );
}

#[test]
fn rejects_timestamps_without_date_or_out_of_range() {
    let time = Datetime::Time { hour: 1, minute: 2, second: 3 };
    assert_eq!(format_modified(time), None);
    assert_eq!(format_publication_date(time), None);
    let far = Datetime::Date { year: 10000, month: 1, day: 1 };
    assert_eq!(format_modified(far), None);
    assert_eq!(format_publication_date(far), None);
    let early = Datetime::Date { year: -1, month: 1, day: 1 };
    assert_eq!(format_modified(early), None);
    let zero = Datetime::Date { year: 0, month: 1, day: 2 };
    assert_eq!(format_modified(zero).unwrap(), "0000-01-02T00:00:00Z");
}

#[test]
fn pads_datetime_fields() {
    assert_eq!(format_datetime(5, 1, 2, 3, 4, 5, true), "0005-01-02T03:04:05Z");
    assert_eq!(format_datetime(-5, 12, 31, 23, 59, 59, false), "-005-12-31T23:59:59");
    assert_eq!(format_datetime(12345, 10, 10, 10, 10, 10, false), "12345-10-10T10:10:10");
    assert_eq!(format_datetime(i32::MIN, 1, 1, 0, 0, 0, false), "-2147483648-01-01T00:00:00");
}

fn heading(level: u8, id: &str, title: &str) -> Heading {
    Heading { level, id: id.to_string(), title: title.to_string() }
}

#[test]
fn nests_heading_levels() {
    let headings = [
        heading(1, "a", "A"),
        heading(2, "b", "B"),
        heading(3, "c", "C"),
        heading(2, "d", "D"),
        heading(1, "e", "E"),
    ];
    let tree = toc_tree(&headings);
    assert_eq!(tree.len(), 2);
    assert_eq!(tree[0].children.len(), 2);
    assert_eq!(tree[0].children[0].children.len(), 1);
    assert!(tree[1].children.is_empty());
}

#[test]
fn nests_under_nearest_lower_heading() {
    let headings = [heading(2, "a", "A"), heading(1, "b", "B"), heading(3, "c", "C"), heading(2, "d", "D")];
    let tree = toc_tree(&headings);
    assert_eq!(tree.len(), 2);
    assert_eq!(tree[0].heading, 0);
    assert!(tree[0].children.is_empty());
    assert_eq!(tree[1].heading, 1);
    assert_eq!(tree[1].children.len(), 2);
    assert_eq!(tree[1].children[0].heading, 2);
    assert_eq!(tree[1].children[1].heading, 3);
    assert!(toc_tree(&[]).is_empty());
}

fn info() -> DocumentInfo {
    DocumentInfo {
        title: Some("Book".to_string()),
        author: vec!["Ann".to_string(), "Bob".to_string()],
        description: Some("About".to_string()),
        keywords: vec!["k".to_string()],
        date: Smart::Auto,
        locale: Smart::Custom(Locale { lang: "de".to_string(), region: Some("AT".to_string()) }),
    }
}

#[test]
fn resolves_locales() {
    let mut i = info();
    assert_eq!(language(&i).rfc_3066(), "de-AT");
    i.locale = Smart::Auto;
    assert_eq!(language(&i).rfc_3066(), "en");
    assert_eq!(lang_dir("ar"), Dir::RTL);
    assert_eq!(lang_dir("he"), Dir::RTL);
    assert_eq!(lang_dir("en"), Dir::LTR);
    assert_eq!(lang_dir("arq"), Dir::LTR);
}

#[test]
fn writes_compact_package_document() {
    let resources = vec![Resource { path: "assets/x.png".to_string(), media_type: "image/png", data: vec![1] }];
    let properties = ContentProperties { mathml: true, remote_resources: false, scripted: false, svg: true };
    let doc = package(&info(), "Book", "urn:x", "2025-01-01T00:00:00Z", Some("2024"), &resources, properties, false);
    let expected = [
        "<?xml version=\"1.0\" encoding=\"UTF-8\" standalone=\"no\"?>",
        "<package xmlns=\"http://www.idpf.org/2007/opf\" version=\"3.0\" unique-identifier=\"pub-id\" xml:lang=\"de-AT\">",
        "<metadata xmlns:dc=\"http://purl.org/dc/elements/1.1/\">",
        "<dc:identifier id=\"pub-id\">urn:x</dc:identifier>",
        "<dc:title>Book</dc:title>",
        "<dc:language>de-AT</dc:language>",
        "<dc:creator>Ann</dc:creator><dc:creator>Bob</dc:creator>",
        "<dc:description>About</dc:description>",
        "<dc:subject>k</dc:subject>",
        "<dc:date>2024</dc:date>",
        "<meta property=\"dcterms:modified\">2025-01-01T00:00:00Z</meta>",
        "</metadata>",
        "<manifest>",
        "<item id=\"nav\" href=\"nav.xhtml\" media-type=\"application/xhtml+xml\" properties=\"nav\"/>",
        "<item id=\"content\" href=\"content.xhtml\" media-type=\"application/xhtml+xml\" properties=\"mathml svg\"/>",
        "<item id=\"asset-1\" href=\"assets/x.png\" media-type=\"image/png\"/>",
        "</manifest>",
        "<spine><itemref idref=\"content\"/></spine>",
        "</package>",
    ]
    .concat();
    assert_eq!(doc, expected);
}

#[test]
fn marks_right_to_left_spines() {
    let mut i = info();
    i.locale = Smart::Custom(Locale { lang: "ar".to_string(), region: None });
    let doc = package(&i, "T", "id", "m", None, &[], ContentProperties::default(), false);
    assert!(doc.contains("<spine page-progression-direction=\"rtl\"><itemref idref=\"content\"/></spine>"));
    assert!(doc.contains("<item id=\"content\" href=\"content.xhtml\" media-type=\"application/xhtml+xml\"/>"));
    assert!(!doc.contains("dc:date"));
}

#[test]
fn writes_navigation_without_headings() {
    let locale = Locale { lang: "en".to_string(), region: None };
    let doc = navigation("Book", locale, &[], false);
    let expected = [
        "<?xml version=\"1.0\" encoding=\"UTF-8\" standalone=\"no\"?>",
        "<html xmlns=\"http://www.w3.org/1999/xhtml\" xmlns:epub=\"http://www.idpf.org/2007/ops\" lang=\"en\" xml:lang=\"en\">",
        "<head><title>Book</title></head>",
        "<body><nav epub:type=\"toc\" id=\"toc\"><h1>Contents</h1>",
        "<ol><li><a href=\"content.xhtml\">Book</a></li></ol>",
        "</nav></body></html>",
    ]
    .concat();
    assert_eq!(doc, expected);
}

#[test]
fn writes_nested_navigation() {
    let locale = Locale { lang: "en".to_string(), region: None };
    let headings = [heading(1, "a", "A"), heading(2, "b", "B"), heading(1, "c", "C")];
    let doc = navigation("Book", locale, &headings, false);
    assert!(doc.contains(&[
        "<ol><li><a href=\"content.xhtml#a\">A</a>",
        "<ol><li><a href=\"content.xhtml#b\">B</a></li></ol></li>",
        "<li><a href=\"content.xhtml#c\">C</a></li></ol>",
    ]
    .concat()));
}

#[test]
fn indents_pretty_documents() {
    let locale = Locale { lang: "en".to_string(), region: None };
    let doc = navigation("Book", locale, &[], true);
    assert!(doc.contains("\n  <head>\n    <title>Book</title>\n  </head>\n"));
    assert!(doc.ends_with("</html>\n"));
}

#[test]
fn publication_date_follows_the_modification_timestamp() {
    let full = Datetime::Datetime { year: 2025, month: 3, day: 7, hour: 8, minute: 9, second: 10 };
    let modified = format_modified(full).unwrap();
    assert_eq!(format_publication_date(full).unwrap(), modified[..modified.len() - 1]);
    let date = Datetime::Date { year: 812, month: 11, day: 30 };
    let modified = format_modified(date).unwrap();
    assert_eq!(format_publication_date(date).unwrap(), modified[..10]);
    let late = Datetime::Date { year: 10000, month: 1, day: 1 };
    assert!(format_modified(late).is_none());
    assert!(format_publication_date(late).is_none());
}
