//! XML support for cover pages: some EPUBs declare a "cover" resource that is
//! an XHTML wrapper page embedding an `<img>` tag rather than the image
//! itself. This module parses such a page (through the `xmltree` crate) into
//! a plain element tree and finds the embedded image's filename stem.

use crate::util::{find_last_char, last_index_of, lemma_last_index_of_bounds};
use vstd::prelude::*;

verus! {

/// A parsed XML element: its tag name, its attributes in some order, and its
/// element children in document order.
pub struct XmlNode {
    pub name: String,
    pub attrs: Vec<(String, String)>,
    pub children: Vec<XmlNode>,
}

/// The first element named `img` in a depth-first, document-order walk of
/// `node`'s tree, the node itself included.
pub open spec fn first_img(node: XmlNode) -> Option<XmlNode>
    decreases node,
{
    if node.name@ == "img"@ {
        Some(node)
    } else {
        first_img_in(node.children@)
    }
}

/// The first `img` element found in any tree of `nodes`, in order.
pub open spec fn first_img_in(nodes: Seq<XmlNode>) -> Option<XmlNode>
    decreases nodes,
{
    if nodes.len() == 0 {
        None
    } else {
        match first_img(nodes[0]) {
            Some(e) => Some(e),
            None => first_img_in(nodes.drop_first()),
        }
    }
}

/// Declares xmltree::Element so a parsed root can pass from the parse call
/// to the conversion; the value stays opaque.
#[verifier::external_type_specification]
#[verifier::external_body]
pub struct ExElement(xmltree::Element);

/// Whether these bytes parse as a well-formed XML document.
pub uninterp spec fn xml_well_formed(bytes: Seq<u8>) -> bool;

/// Relies on xmltree::Element::parse: returns the root element exactly when
/// the bytes are a well-formed XML document.
#[verifier::external_body]
fn parse_root(content: &[u8]) -> (r: Option<xmltree::Element>)
    ensures
        r is Some <==> xml_well_formed(content@),
{
    xmltree::Element::parse(content).ok()
}

/// Converts a parsed element into the library's tree, one element at a time:
/// the name, the attributes, and the element children (text and other
/// non-element nodes are dropped, as the cover search never reads them).
/// Relies on xmltree::XMLNode::as_element to tell element children apart.
#[verifier::external_body]
pub(crate) fn element_to_node(e: &xmltree::Element) -> XmlNode {
    let mut attrs: Vec<(String, String)> = Vec::new();
    for (k, v) in &e.attributes {
        attrs.push((k.clone(), v.clone()));
    }
    let mut children: Vec<XmlNode> = Vec::new();
    for c in &e.children {
        if let Some(ce) = c.as_element() {
            children.push(element_to_node(ce));
        }
    }
    XmlNode { name: e.name.clone(), attrs, children }
}

/// Parses an XML document into the library's element tree; `None` exactly
/// when the bytes are not well-formed XML.
pub fn parse_xml(content: &[u8]) -> (r: Option<XmlNode>)
    ensures
        r is Some <==> xml_well_formed(content@),
{
    match parse_root(content) {
        Some(e) => Some(element_to_node(&e)),
        None => None,
    }
}

/// Recursively looks for an `img` element, returning the first one in
/// document order.
pub fn find_img_element<'a>(element: &'a XmlNode) -> (r: Option<&'a XmlNode>)
    ensures
        match r {
            Some(e) => first_img(*element) == Some(*e),
            None => first_img(*element) is None,
        },
    decreases *element,
{
    if crate::util::str_eq(element.name.as_str(), "img") {
        return Some(element);
    }
    let n = element.children.len();
    let mut i: usize = 0;
    proof {
        assert(element.children@.skip(0) =~= element.children@);
    }
    while i < n
        invariant
            n == element.children.len(),
            i <= n,
            element.name@ != "img"@,
            first_img(*element) == first_img_in(element.children@.skip(i as int)),
        decreases n - i,
    {
        proof {
            assert(element.children@.skip(i as int)[0] == element.children@[i as int]);
            assert(element.children@.skip(i as int).drop_first() =~= element.children@.skip(
                i + 1,
            ));
        }
        let found = find_img_element(&element.children[i]);
        if found.is_some() {
            return found;
        }
        i = i + 1;
    }
    proof {
        assert(element.children@.skip(n as int) =~= Seq::<XmlNode>::empty());
    }
    None
}

/// The value of the first attribute named `name`, if any.
pub open spec fn attr_lookup(attrs: Seq<(Seq<char>, Seq<char>)>, name: Seq<char>) -> Option<
    Seq<char>,
>
    decreases attrs.len(),
{
    if attrs.len() == 0 {
        None
    } else if attrs[0].0 == name {
        Some(attrs[0].1)
    } else {
        attr_lookup(attrs.drop_first(), name)
    }
}

/// The filename stem of an image path: the characters strictly between the
/// last `/` and the last `.`, provided both occur and in that order.
pub open spec fn stem_of(src: Seq<char>) -> Option<Seq<char>> {
    match (last_index_of(src, '/'), last_index_of(src, '.')) {
        (Some(slash), Some(dot)) => if slash < dot {
            Some(src.subrange(slash + 1, dot))
        } else {
            None
        },
        _ => None,
    }
}

/// What `extract_image_source` returns: the stem of the `src` attribute of
/// the first `img` element, when every step succeeds.
pub open spec fn image_source_of(root: XmlNode) -> Option<Seq<char>> {
    match first_img(root) {
        Some(img) => match attr_lookup(img.attrs.deep_view(), "src"@) {
            Some(src) => stem_of(src),
            None => None,
        },
        None => None,
    }
}

/// The first attribute of `element` named `name`, if any.
pub(crate) fn get_attribute<'a>(element: &'a XmlNode, name: &str) -> (r: Option<&'a String>)
    ensures
        match r {
            Some(v) => attr_lookup(element.attrs.deep_view(), name@) == Some(v@),
            None => attr_lookup(element.attrs.deep_view(), name@) is None,
        },
{
    let ghost s = element.attrs.deep_view();
    let n = element.attrs.len();
    proof {
        assert(s.skip(0) =~= s);
    }
    let mut i: usize = 0;
    while i < n
        invariant
            n == element.attrs.len(),
            s == element.attrs.deep_view(),
            i <= n,
            attr_lookup(s, name@) == attr_lookup(s.skip(i as int), name@),
        decreases n - i,
    {
        proof {
            assert(element.attrs[i as int].deep_view() == s[i as int]);
            assert(s.skip(i as int)[0] == s[i as int]);
            assert(s.skip(i as int).drop_first() =~= s.skip(i + 1));
        }
        if crate::util::str_eq(element.attrs[i].0.as_str(), name) {
            return Some(&element.attrs[i].1);
        }
        i = i + 1;
    }
    proof {
        assert(s.skip(n as int) =~= Seq::empty());
    }
    None
}

/// Extracts the filename stem from the first embedded image of a cover page:
/// the `src` attribute of the first `img` element, cut down to the characters
/// between its last `/` and its last `.`.
pub fn extract_image_source(element: &XmlNode) -> (r: Option<String>)
    ensures
        match r {
            Some(stem) => image_source_of(*element) == Some(stem@),
            None => image_source_of(*element) is None,
        },
{
    let img = match find_img_element(element) {
        Some(img) => img,
        None => {
            return None;
        },
    };
    let src = match get_attribute(img, "src") {
        Some(src) => src,
        None => {
            return None;
        },
    };
    let slash = match find_last_char(src.as_str(), '/') {
        Some(i) => i,
        None => {
            return None;
        },
    };
    let dot = match find_last_char(src.as_str(), '.') {
        Some(i) => i,
        None => {
            return None;
        },
    };
    if slash < dot {
        proof {
            lemma_last_index_of_bounds(src@, '.');
        }
        let stem = src.as_str().substring_char(slash + 1, dot).to_owned();
        Some(stem)
    } else {
        None
    }
}

} // verus!
