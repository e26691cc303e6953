//! The streaming XML writer of the `xmlwriter` crate, as the EPUB documents
//! use it. A writer is described by the options it was made with and the
//! calls made on it so far; the text it produces is named as a function of
//! those two.
use vstd::prelude::*;

use xmlwriter::XmlWriter;

verus! {

#[verifier::external_type_specification]
#[verifier::external_body]
pub struct ExXmlWriter(XmlWriter);

/// An indentation setting, as `xmlwriter::Indent` has them.
#[derive(Clone, Copy, Debug, PartialEq, Eq, Structural)]
pub enum XmlIndent {
    /// No indentation and no new lines.
    Disabled,
    /// Indentation by the given number of spaces.
    Spaces(u8),
    /// Indentation by tabs.
    Tabs,
}

/// Writer options, as `xmlwriter::Options` has them.
#[derive(Clone, Copy, Debug, PartialEq, Eq, Structural)]
pub struct XmlOptions {
    pub use_single_quote: bool,
    pub indent: XmlIndent,
    pub attributes_indent: XmlIndent,
}

/// A call made on a writer.
pub enum XmlCall {
    Declaration,
    StartElement(Seq<char>),
    Attribute(Seq<char>, Seq<char>),
    Text(Seq<char>),
    EndElement,
    PreserveWhitespaces(bool),
}

/// The calls made on a writer since it was created, in order.
pub uninterp spec fn xml_calls(w: XmlWriter) -> Seq<XmlCall>;

/// The options a writer was created with.
pub uninterp spec fn xml_options(w: XmlWriter) -> XmlOptions;

/// The text that `XmlWriter::end_document` returns for a writer created with
/// `options` after the calls `calls`.
pub uninterp spec fn xml_document(options: XmlOptions, calls: Seq<XmlCall>) -> Seq<char>;

/// Where a writer stands, as its internal state field records.
pub enum XmlState {
    Empty,
    Document,
    Attributes,
}

/// The writer's state after `calls`: a declaration, text or closing ends in
/// the document state, an opening tag or attribute in the attribute state;
/// the whitespace flag changes nothing.
pub open spec fn xml_state(calls: Seq<XmlCall>) -> XmlState
    decreases calls.len(),
{
    if calls.len() == 0 {
        XmlState::Empty
    } else {
        match calls.last() {
            XmlCall::Declaration => XmlState::Document,
            XmlCall::StartElement(_) => XmlState::Attributes,
            XmlCall::Attribute(_, _) => XmlState::Attributes,
            XmlCall::Text(_) => XmlState::Document,
            XmlCall::EndElement => XmlState::Document,
            XmlCall::PreserveWhitespaces(_) => xml_state(calls.drop_last()),
        }
    }
}

/// The number of open elements after `calls` (closing with none open does
/// nothing).
pub open spec fn xml_depth(calls: Seq<XmlCall>) -> nat
    decreases calls.len(),
{
    if calls.len() == 0 {
        0
    } else {
        let d = xml_depth(calls.drop_last());
        match calls.last() {
            XmlCall::StartElement(_) => d + 1,
            XmlCall::EndElement => if d > 0 { (d - 1) as nat } else { 0 },
            _ => d,
        }
    }
}

/// Calls `xmlwriter::XmlWriter::new` with the given options. The contract
/// claims that the writer records these options and no calls yet.
#[verifier::external_body]
pub(crate) fn xml_new(options: XmlOptions) -> (w: XmlWriter)
    ensures
        xml_options(w) == options,
        xml_calls(w) == Seq::<XmlCall>::empty(),
{
    let indent = match options.indent {
        XmlIndent::Disabled => xmlwriter::Indent::None,
        XmlIndent::Spaces(n) => xmlwriter::Indent::Spaces(n),
        XmlIndent::Tabs => xmlwriter::Indent::Tabs,
    };
    let attributes_indent = match options.attributes_indent {
        XmlIndent::Disabled => xmlwriter::Indent::None,
        XmlIndent::Spaces(n) => xmlwriter::Indent::Spaces(n),
        XmlIndent::Tabs => xmlwriter::Indent::Tabs,
    };
    let use_single_quote = options.use_single_quote;
    XmlWriter::new(xmlwriter::Options { use_single_quote, indent, attributes_indent })
}

/// Calls `XmlWriter::write_declaration`, which panics unless nothing but
/// whitespace settings was written before.
#[verifier::external_body]
pub(crate) fn xml_declaration(w: &mut XmlWriter)
    requires
        xml_state(xml_calls(*old(w))) == XmlState::Empty,
    ensures
        xml_options(*final(w)) == xml_options(*old(w)),
        xml_calls(*final(w)) == xml_calls(*old(w)).push(XmlCall::Declaration),
{
    w.write_declaration();
}

/// Calls `XmlWriter::start_element`.
#[verifier::external_body]
pub(crate) fn xml_start(w: &mut XmlWriter, name: &str)
    ensures
        xml_options(*final(w)) == xml_options(*old(w)),
        xml_calls(*final(w)) == xml_calls(*old(w)).push(XmlCall::StartElement(name@)),
{
    w.start_element(name);
}

/// Calls `XmlWriter::write_attribute` with a string value, which panics
/// unless it follows an opening tag or another attribute.
#[verifier::external_body]
pub(crate) fn xml_attribute(w: &mut XmlWriter, name: &str, value: &str)
    requires
        xml_state(xml_calls(*old(w))) == XmlState::Attributes,
    ensures
        xml_options(*final(w)) == xml_options(*old(w)),
        xml_calls(*final(w)) == xml_calls(*old(w)).push(XmlCall::Attribute(name@, value@)),
{
    w.write_attribute(name, value);
}

/// Calls `XmlWriter::write_text`, which panics unless an element is open.
#[verifier::external_body]
pub(crate) fn xml_text(w: &mut XmlWriter, text: &str)
    requires
        xml_depth(xml_calls(*old(w))) > 0,
        xml_state(xml_calls(*old(w))) != XmlState::Empty,
    ensures
        xml_options(*final(w)) == xml_options(*old(w)),
        xml_calls(*final(w)) == xml_calls(*old(w)).push(XmlCall::Text(text@)),
{
    w.write_text(text);
}

/// Calls `XmlWriter::end_element`.
#[verifier::external_body]
pub(crate) fn xml_end(w: &mut XmlWriter)
    ensures
        xml_options(*final(w)) == xml_options(*old(w)),
        xml_calls(*final(w)) == xml_calls(*old(w)).push(XmlCall::EndElement),
{
    w.end_element();
}

/// Calls `XmlWriter::set_preserve_whitespaces`.
#[verifier::external_body]
pub(crate) fn xml_preserve_whitespaces(w: &mut XmlWriter, preserve: bool)
    ensures
        xml_options(*final(w)) == xml_options(*old(w)),
        xml_calls(*final(w)) == xml_calls(*old(w)).push(XmlCall::PreserveWhitespaces(preserve)),
{
    w.set_preserve_whitespaces(preserve);
}

/// Calls `XmlWriter::end_document`, which closes the open elements and
/// returns the text. The contract claims that the text is a function of the
/// writer's options and the calls made on it, named `xml_document`.
#[verifier::external_body]
pub(crate) fn xml_finish(w: XmlWriter) -> (text: String)
    ensures
        text@ == xml_document(xml_options(w), xml_calls(w)),
{
    w.end_document()
}

} // verus!
