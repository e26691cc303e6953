# typst-epub

EPUB 3 export of HTML documents, with its rules verified by Verus.

## Layout

- `src/` is the verified library. Its functions carry contracts that Verus
  proves, except the small trusted wrappers around outside crates, whose
  contracts are taken on trust (their doc comments say what they claim):
  - `dom.rs`: the model of an HTML document (elements, attributes, text,
    frames) and its metadata, with views as sequences of characters;
  - `prepare.rs`: adapting a document for EPUB (extracting embedded images
    into resources, giving headings identifiers, collecting the content
    properties of the manifest), specified as a traversal over the model;
  - `adaptation.rs`: what preparation changes and keeps, proved of that
    traversal;
  - `resource.rs`, `ids.rs`, `text.rs`, `timestamp.rs`: data URLs, heading
    identifiers, character helpers and EPUB timestamps;
  - `xml.rs`, `xml_writer.rs`: the package and navigation documents, written
    through the `xmlwriter` crate and described by the calls made on it;
  - `archive.rs`: the OCF ZIP container, written through the `zip` crate;
  - `lib.rs`: the export options and `assemble`, which packs a prepared
    document and its serialized content into an EPUB file.
- `app/` connects the library to Typst: it moves a `typst_html::HtmlDocument`
  into the model, serializes the adapted document with `typst_html`, and
  reports failures as Typst diagnostics.
- `tests/` holds the tests.
