//! The descriptor text is XML; an outside parser turns it into the plain
//! element list the metadata parser works on.
use vstd::prelude::*;

use crate::parse::RawAttr;
use crate::parse::RawElement;
use crate::parse::RawElementV;
use crate::parse::elems_view;

verus! {

/// The descriptor text is not well-formed XML.
#[derive(Clone, Copy, PartialEq, Eq, Structural, Debug)]
pub struct XmlError;

/// The descendant nodes of the document the text parses to, in document
/// order, each reduced to whether it is an element, its tag name and its
/// attributes; `None` when the text is not well-formed XML.
pub uninterp spec fn xml_nodes_of(text: Seq<char>) -> Option<Seq<RawElementV>>;

/// Relies on roxmltree::Document::parse and the node accessors
/// (descendants, is_element, tag_name, attributes with name and value):
/// parsing with the default options is a function of the text alone,
/// succeeding exactly on the documents those options accept (well-formed XML
/// without a document type declaration), and the body only converts each
/// descendant node to plain text parts.
#[verifier::external_body]
pub(crate) fn parse_xml_nodes(text: &str) -> (r: Result<Vec<RawElement>, XmlError>)
    ensures
        match r {
            Ok(elems) => xml_nodes_of(text@) == Some(elems_view(elems@)),
            Err(e) => xml_nodes_of(text@) is None,
        },
{
    match roxmltree::Document::parse(text) {
        Err(_) => Err(XmlError),
        Ok(doc) => {
            let mut out: Vec<RawElement> = Vec::new();
            for node in doc.descendants() {
                let mut attrs: Vec<RawAttr> = Vec::new();
                for a in node.attributes() {
                    attrs.push(RawAttr { name: a.name().to_owned(), value: a.value().to_owned() });
                }
                let tag = node.tag_name().name().to_owned();
                out.push(RawElement { is_element: node.is_element(), tag, attrs });
            }
            Ok(out)
        },
    }
}

} // verus!
