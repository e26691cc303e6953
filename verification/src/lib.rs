//! Export of HTML documents into EPUB 3 publications.
//!
//! An EPUB is assembled from an HTML document in two steps: [`prepare`]
//! adapts the document (embedded images become resources of the container,
//! headings receive identifiers for the table of contents, the content
//! properties of the manifest are collected), and [`assemble`] writes the
//! package and navigation documents and packs everything, together with the
//! serialized content document, into the ZIP container.
use vstd::prelude::*;

pub mod adaptation;
pub mod archive;
pub mod text;
pub mod timestamp;
pub mod dom;
pub mod ids;
pub mod prepare;
pub mod resource;
pub mod xml;
pub mod xml_writer;

use crate::archive::{archive_failure_message, epub_calls, zip_archive, zip_writes};
use crate::dom::{info_view, language_of, InfoV, Smart};
use crate::prepare::{headings_view, resources_view, HeadingV, Prepared};
use crate::text::{has_text, hex32, is_white_space, str_has_text};
use crate::timestamp::{datetime_text, modified_text, publication_date_text, Datetime};
use crate::xml::{navigation_calls, package_calls, writer_options};
use crate::xml_writer::xml_document;

pub use crate::prepare::prepare;

verus! {

/// A failure while exporting, with the message shown to the user.
#[derive(Debug)]
pub struct EpubError {
    pub message: String,
    /// The element at fault, if the failure has one: the positions among the
    /// children, from the root element down.
    pub element: Option<Vec<usize>>,
}

/// Settings for EPUB export.
#[derive(Debug)]
pub struct EpubOptions {
    /// A unique and stable identifier for the publication.
    ///
    /// When set to [`Smart::Auto`], an identifier is derived from the title and
    /// authors. Callers that have a stable project identifier should provide it
    /// explicitly.
    pub ident: Smart<String>,
    /// The UTC modification timestamp written into the package metadata.
    ///
    /// If omitted, the current time is used.
    pub timestamp: Option<Datetime>,
    /// Whether to format XML and XHTML in a human-readable way.
    pub pretty: bool,
}

impl Default for EpubOptions {
    fn default() -> (o: Self)
        ensures
            o.ident == Smart::<String>::Auto,
            o.timestamp == None::<Datetime>,
            !o.pretty,
    {
        EpubOptions { ident: Smart::Auto, timestamp: None, pretty: false }
    }
}

/// The 128-bit SipHash that `typst_utils::hash128` computes of a title and
/// a list of authors taken together.
pub uninterp spec fn hash128_of_title_and_authors(
    title: Option<Seq<char>>,
    authors: Seq<Seq<char>>,
) -> u128;

/// Calls `typst_utils::hash128` on the pair of the title and the authors.
/// The contract claims that the hash is a function of the two alone, named
/// `hash128_of_title_and_authors` (the hash treats `usize` as `u64` on every
/// architecture, and a `String` hashes as the `EcoString` of the same text).
#[verifier::external_body]
fn hash_title_and_authors(title: &Option<String>, authors: &Vec<String>) -> (h: u128)
    ensures
        h == hash128_of_title_and_authors(crate::dom::opt_view(*title), crate::dom::strings_view(authors@)),
{
    typst_utils::hash128(&(title, authors))
}

/// The publication title: the document's title if it holds text, else the
/// first heading's if it holds text, else `Untitled` (EPUB wants a title
/// with text).
pub open spec fn title_of(info: InfoV, headings: Seq<HeadingV>) -> Seq<char> {
    if info.title is Some && has_text(info.title.unwrap()) {
        info.title.unwrap()
    } else if headings.len() > 0 && has_text(headings[0].title) {
        headings[0].title
    } else {
        "Untitled"@
    }
}

/// The publication title always holds a character other than whitespace.
pub proof fn lemma_title_has_text(info: InfoV, headings: Seq<HeadingV>)
    ensures
        has_text(title_of(info, headings)),
{
    reveal_strlit("Untitled");
    assert(!is_white_space("Untitled"@[0]));
}

/// The publication identifier: the one given, else `urn:typst:` followed by
/// the hash of title and authors in 32 hexadecimal digits.
pub open spec fn identifier_of(ident: Smart<Seq<char>>, info: InfoV) -> Seq<char> {
    match ident {
        Smart::Custom(id) => id,
        Smart::Auto => "urn:typst:"@ + hex32(hash128_of_title_and_authors(info.title, info.author)),
    }
}

/// Whether `text` is an EPUB timestamp of some moment: a date with month
/// `1..=12` and day `1..=31` and a time of day, in UTC.
pub open spec fn is_utc_timestamp(text: Seq<char>) -> bool {
    exists|year: i32, month: u8, day: u8, hour: u8, minute: u8, second: u8|
        {
            &&& 1 <= month <= 12
            &&& 1 <= day <= 31
            &&& hour <= 23
            &&& minute <= 59
            &&& second <= 59
            &&& text == datetime_text(
                year as int,
                month as nat,
                day as nat,
                hour as nat,
                minute as nat,
                second as nat,
                true,
            )
        }
}

/// Whether `modified` is the modification timestamp for the options: the
/// one given when it formats, else the current time.
pub open spec fn modified_for(timestamp: Option<Datetime>, modified: Seq<char>) -> bool {
    match timestamp {
        Some(d) => match modified_text(d) {
            Some(t) => modified == t,
            None => is_utc_timestamp(modified),
        },
        None => is_utc_timestamp(modified),
    }
}

/// The publication date of the document, if it has a date that formats.
pub open spec fn publication_date_of(info: InfoV) -> Option<Seq<char>> {
    match info.date {
        Smart::Custom(Some(d)) => publication_date_text(d),
        _ => None,
    }
}

/// The calls that write the container of a prepared document with the given
/// content document and modification timestamp.
pub open spec fn container_calls(
    info: InfoV,
    headings: Seq<HeadingV>,
    resources: Seq<crate::prepare::ResourceV>,
    properties: crate::prepare::ContentProperties,
    ident: Smart<Seq<char>>,
    pretty: bool,
    content: Seq<char>,
    modified: Seq<char>,
) -> Seq<crate::archive::ZipCall> {
    let title = title_of(info, headings);
    let navigation = xml_document(
        writer_options(pretty),
        navigation_calls(title, language_of(info), headings),
    );
    let package = xml_document(
        writer_options(pretty),
        package_calls(
            info,
            title,
            identifier_of(ident, info),
            modified,
            publication_date_of(info),
            resources,
            properties,
        ),
    );
    epub_calls(content, navigation, package, resources)
}

pub open spec fn ident_view(ident: Smart<String>) -> Smart<Seq<char>> {
    match ident {
        Smart::Custom(s) => Smart::Custom(s@),
        Smart::Auto => Smart::Auto,
    }
}

/// Packs a prepared document, whose content document has been serialized to
/// `content`, into an EPUB file.
pub fn assemble(prepared: &Prepared, content: &str, options: &EpubOptions) -> (r: Result<
    Vec<u8>,
    EpubError,
>)
    ensures
        exists|modified: Seq<char>|
            #![trigger container_calls(
                info_view(prepared.document.info),
                headings_view(prepared.headings@),
                resources_view(prepared.resources@),
                prepared.properties,
                ident_view(options.ident),
                options.pretty,
                content@,
                modified,
            )]
            {
                let calls = container_calls(
                    info_view(prepared.document.info),
                    headings_view(prepared.headings@),
                    resources_view(prepared.resources@),
                    prepared.properties,
                    ident_view(options.ident),
                    options.pretty,
                    content@,
                    modified,
                );
                &&& modified_for(options.timestamp, modified)
                &&& (r is Ok <==> zip_writes(calls))
                &&& match r {
                    Ok(bytes) => bytes@ == zip_archive(calls),
                    Err(e) => archive_failure_message(e.message@) && e.element is None,
                }
            },
{
    let info = &prepared.document.info;
    let ghost iv = info_view(*info);
    let untitled = "Untitled";
    let title: &str = match &info.title {
        Some(t) if str_has_text(t.as_str()) => t.as_str(),
        _ => if prepared.headings.len() > 0 && str_has_text(prepared.headings[0].title.as_str()) {
            prepared.headings[0].title.as_str()
        } else {
            untitled
        },
    };
    assert(title@ == title_of(iv, headings_view(prepared.headings@)));

    let identifier = match &options.ident {
        Smart::Custom(ident) => ident.clone(),
        Smart::Auto => {
            let hash = hash_title_and_authors(&info.title, &info.author);
            let mut id = crate::text::owned("urn:typst:");
            crate::text::push_padded(&mut id, hash, 16, 32);
            id
        },
    };
    assert(identifier@ == identifier_of(ident_view(options.ident), iv));

    let modified = match options.timestamp {
        Some(datetime) => match crate::timestamp::format_modified(datetime) {
            Some(text) => text,
            None => crate::timestamp::current_timestamp(),
        },
        None => crate::timestamp::current_timestamp(),
    };
    assert(modified_for(options.timestamp, modified@));

    let publication_date = match info.date {
        Smart::Custom(Some(datetime)) => crate::timestamp::format_publication_date(datetime),
        _ => None,
    };
    let date_ref: Option<&str> = match &publication_date {
        Some(d) => Some(d.as_str()),
        None => None,
    };
    assert(crate::xml::opt_str_view(date_ref) == publication_date_of(iv));

    let navigation = crate::xml::navigation(
        title,
        crate::prepare::language(info),
        prepared.headings.as_slice(),
        options.pretty,
    );
    let package = crate::xml::package(
        info,
        title,
        identifier.as_str(),
        modified.as_str(),
        date_ref,
        prepared.resources.as_slice(),
        prepared.properties,
        options.pretty,
    );
    let r = crate::archive::write(
        content,
        navigation.as_str(),
        package.as_str(),
        prepared.resources.as_slice(),
    );
    assert(container_calls(
        iv,
        headings_view(prepared.headings@),
        resources_view(prepared.resources@),
        prepared.properties,
        ident_view(options.ident),
        options.pretty,
        content@,
        modified@,
    ) == epub_calls(content@, navigation@, package@, resources_view(prepared.resources@)));
    r
}

/// The identifier derived for a publication depends on its title and
/// authors alone, and an identifier that the options give is used as it is.
pub proof fn lemma_identifier_stable(ident: Smart<Seq<char>>, a: InfoV, b: InfoV)
    requires
        a.title == b.title,
        a.author == b.author,
    ensures
        identifier_of(ident, a) == identifier_of(ident, b),
        ident matches Smart::Custom(id) ==> identifier_of(ident, a) == id,
{
}

/// Export with a modification timestamp that formats is reproducible: every
/// modification text that the timestamp admits is the formatted timestamp,
/// so the same prepared document, content and options describe the same
/// archive.
pub proof fn lemma_export_reproducible(
    info: InfoV,
    headings: Seq<HeadingV>,
    resources: Seq<crate::prepare::ResourceV>,
    properties: crate::prepare::ContentProperties,
    ident: Smart<Seq<char>>,
    pretty: bool,
    content: Seq<char>,
    timestamp: Datetime,
    first: Seq<char>,
    second: Seq<char>,
)
    requires
        modified_text(timestamp) is Some,
        modified_for(Some(timestamp), first),
        modified_for(Some(timestamp), second),
    ensures
        first == modified_text(timestamp).unwrap(),
        zip_archive(
            container_calls(info, headings, resources, properties, ident, pretty, content, first),
        ) == zip_archive(
            container_calls(info, headings, resources, properties, ident, pretty, content, second),
        ),
{
}

/// The container of a publication hands the package document's writer the
/// identifier as the text of its `dc:identifier` element (the calls from
/// the ninth on), so that with a derived identifier two publications with
/// the same title and authors give their package writers the same
/// identifier calls.
pub proof fn lemma_package_writes_identifier(
    a: InfoV,
    b: InfoV,
    title_a: Seq<char>,
    title_b: Seq<char>,
    modified_a: Seq<char>,
    modified_b: Seq<char>,
    resources_a: Seq<crate::prepare::ResourceV>,
    resources_b: Seq<crate::prepare::ResourceV>,
    properties_a: crate::prepare::ContentProperties,
    properties_b: crate::prepare::ContentProperties,
)
    requires
        a.title == b.title,
        a.author == b.author,
    ensures
        ({
            let id_calls = crate::xml::text_element_with_id_calls(
                "dc:identifier"@,
                "pub-id"@,
                identifier_of(Smart::Auto, a),
            );
            let calls_a = package_calls(
                a,
                title_a,
                identifier_of(Smart::Auto, a),
                modified_a,
                publication_date_of(a),
                resources_a,
                properties_a,
            );
            let calls_b = package_calls(
                b,
                title_b,
                identifier_of(Smart::Auto, b),
                modified_b,
                publication_date_of(b),
                resources_b,
                properties_b,
            );
            &&& calls_a.subrange(8, 8 + id_calls.len() as int) == id_calls
            &&& calls_b.subrange(8, 8 + id_calls.len() as int) == id_calls
        }),
{
    let id = identifier_of(Smart::Auto, a);
    let id_calls = crate::xml::text_element_with_id_calls("dc:identifier"@, "pub-id"@, id);
    let calls_a = package_calls(a, title_a, id, modified_a, publication_date_of(a), resources_a, properties_a);
    let calls_b = package_calls(b, title_b, id, modified_b, publication_date_of(b), resources_b, properties_b);
    assert(calls_a.subrange(8, 8 + id_calls.len() as int) =~= id_calls);
    assert(calls_b.subrange(8, 8 + id_calls.len() as int) =~= id_calls);
}

/// The document's own title is the publication title whenever it holds a
/// character other than whitespace; the first heading's title stands in only
/// for a missing or blank document title (and then only if it holds such a
/// character), and `Untitled` only when neither does.
pub proof fn lemma_title_choice(info: InfoV, headings: Seq<HeadingV>)
    ensures
        info.title is Some && (exists|i: int|
            0 <= i < info.title.unwrap().len() && !is_white_space(#[trigger] info.title.unwrap()[i]))
            ==> title_of(info, headings) == info.title.unwrap(),
        !(info.title is Some && (exists|i: int|
            0 <= i < info.title.unwrap().len() && !is_white_space(#[trigger] info.title.unwrap()[i])))
            ==> if headings.len() > 0 && (exists|i: int|
            0 <= i < headings[0].title.len() && !is_white_space(#[trigger] headings[0].title[i])) {
            title_of(info, headings) == headings[0].title
        } else {
            title_of(info, headings) == "Untitled"@
        },
{
}

} // verus!
