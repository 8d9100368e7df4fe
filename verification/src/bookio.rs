//! The EPUB resource inspector: opens an EPUB container from its raw bytes
//! (through the `epub` crate) and exposes its title, its standard-convention
//! cover, and its resource manifest as plain values.
//!
//! What the container holds is a function of the bytes it was opened from,
//! so those contents are named as functions of the bytes (`epub_title`,
//! `epub_std_cover`, `epub_resource`, `epub_resources_of`). One exception:
//! the manifest is stored as an unordered map, so the *order* in which
//! `resources` hands its entries out is not reproducible — only the set of
//! entries is.

use crate::book_item::Book;
use crate::util::{
    check_epub_resource, lex_le, matching_resource, normalize_separators, regex_compiles,
    regex_match, regex_new, regex_source, sanitize_seq, sanitize_windows_filename,
};
use crate::xml::{image_source_of, parse_xml, XmlNode};
use vstd::prelude::*;

verus! {

/// One entry of an EPUB's resource manifest: the resource identifier and its
/// declared MIME type.
pub struct EpubResource {
    pub id: String,
    pub mime: String,
}

/// The mathematical value of a manifest entry.
pub struct ResourceView {
    pub id: Seq<char>,
    pub mime: Seq<char>,
}

impl View for EpubResource {
    type V = ResourceView;

    open spec fn view(&self) -> ResourceView {
        ResourceView { id: self.id@, mime: self.mime@ }
    }
}

impl DeepView for EpubResource {
    type V = ResourceView;

    open spec fn deep_view(&self) -> ResourceView {
        self.view()
    }
}

/// Whether the container library opens these bytes, on inputs whose
/// container declaration passed the rootfile-path check (see
/// `EpubFile::from_bytes` and `epub_openable`).
pub uninterp spec fn epub_ok(bytes: Seq<u8>) -> bool;

/// The content of the container declaration entry (`META-INF/container.xml`)
/// of the archive held in `bytes`, when the archive opens as a zip and
/// holds that entry.
pub uninterp spec fn epub_container_entry(bytes: Seq<u8>) -> Option<Seq<u8>>;

/// The set of `full-path` attribute values carried by `rootfile` elements
/// of the XML document held in `container` — a function of the document
/// alone, since a well-formed element names each attribute once.
pub uninterp spec fn container_rootfile_paths(container: Seq<u8>) -> Set<Seq<char>>;

/// The primary title declared in the metadata of the EPUB held in `bytes`.
pub uninterp spec fn epub_title(bytes: Seq<u8>) -> Option<Seq<char>>;

/// The content and MIME type of the cover that the EPUB held in `bytes`
/// declares through the standard convention, if it declares one —
/// meaningful only where that declaration is unambiguous (see
/// `ambiguous_std_cover`).
pub uninterp spec fn epub_std_cover(bytes: Seq<u8>) -> Option<(Seq<u8>, Seq<char>)>;

/// Whether the standard cover declaration of the EPUB held in `bytes` is
/// ambiguous: an EPUB3 container carrying the `cover-image` property on more
/// than one manifest resource. The standard forbids this, but such files
/// exist, and for them the accessor's pick follows an unordered map's
/// iteration order, so nothing ties it to the bytes alone.
pub uninterp spec fn ambiguous_std_cover(bytes: Seq<u8>) -> bool;

/// The content and MIME type of the manifest resource `id` of the EPUB held
/// in `bytes`, if the manifest has such an entry and the archive holds its
/// file.
pub uninterp spec fn epub_resource(bytes: Seq<u8>, id: Seq<char>) -> Option<(Seq<u8>, Seq<char>)>;

/// The set of manifest entries of the EPUB held in `bytes`.
pub uninterp spec fn epub_resources_of(bytes: Seq<u8>) -> Set<ResourceView>;

/// The bytes an open container was opened from.
pub uninterp spec fn file_bytes(f: EpubFile) -> Seq<u8>;

/// A declared rootfile path that is safe to hand to the container library:
/// non-empty, relative (no leading `/`), and free of `:` and `\`, so that on
/// every platform it has at least one ordinary component and therefore a
/// parent directory. (The packaging format requires `full-path` to be a
/// relative path, so real containers satisfy this.)
pub open spec fn openable_root_path(p: Seq<char>) -> bool {
    &&& p.len() > 0
    &&& p[0] != '/'
    &&& forall|i: int| 0 <= i < p.len() ==> p[i] != ':' && #[trigger] p[i] != '\\'
}

/// Every `rootfile` element in this container document declares either no
/// `full-path` at all (the opener then fails cleanly) or an openable one.
pub open spec fn container_rootfiles_open(node: XmlNode) -> bool
    decreases node,
{
    let self_ok = if node.name@ == "rootfile"@ {
        match crate::xml::attr_lookup(node.attrs.deep_view(), "full-path"@) {
            Some(p) => openable_root_path(p),
            None => true,
        }
    } else {
        true
    };
    self_ok && container_rootfiles_open_in(node.children@)
}

/// `container_rootfiles_open`, over a list of sibling trees.
pub open spec fn container_rootfiles_open_in(nodes: Seq<XmlNode>) -> bool
    decreases nodes,
{
    if nodes.len() == 0 {
        true
    } else {
        container_rootfiles_open(nodes[0]) && container_rootfiles_open_in(nodes.drop_first())
    }
}

/// The `full-path` values declared by the `rootfile` elements of this tree.
pub open spec fn rootfile_paths_of(node: XmlNode) -> Set<Seq<char>>
    decreases node,
{
    let own = if node.name@ == "rootfile"@ {
        match crate::xml::attr_lookup(node.attrs.deep_view(), "full-path"@) {
            Some(p) => Set::empty().insert(p),
            None => Set::empty(),
        }
    } else {
        Set::empty()
    };
    own.union(rootfile_paths_in(node.children@))
}

/// `rootfile_paths_of`, over a list of sibling trees.
pub open spec fn rootfile_paths_in(nodes: Seq<XmlNode>) -> Set<Seq<char>>
    decreases nodes,
{
    if nodes.len() == 0 {
        Set::empty()
    } else {
        rootfile_paths_of(nodes[0]).union(rootfile_paths_in(nodes.drop_first()))
    }
}

/// The rootfile check holds exactly when every declared `full-path` is
/// openable.
pub proof fn lemma_rootfiles_open_iff(node: XmlNode)
    ensures
        container_rootfiles_open(node) <==> (forall|p: Seq<char>|
            #[trigger] rootfile_paths_of(node).contains(p) ==> openable_root_path(p)),
    decreases node,
{
    lemma_rootfiles_open_in_iff(node.children@);
    let own = if node.name@ == "rootfile"@ {
        match crate::xml::attr_lookup(node.attrs.deep_view(), "full-path"@) {
            Some(p) => Set::empty().insert(p),
            None => Set::<Seq<char>>::empty(),
        }
    } else {
        Set::<Seq<char>>::empty()
    };
    assert(rootfile_paths_of(node) == own.union(rootfile_paths_in(node.children@)));
    if container_rootfiles_open(node) {
        assert forall|p: Seq<char>| #[trigger]
            rootfile_paths_of(node).contains(p) implies openable_root_path(p) by {
            if own.contains(p) {
            } else {
                assert(rootfile_paths_in(node.children@).contains(p));
            }
        }
    }
    if forall|p: Seq<char>| #[trigger]
        rootfile_paths_of(node).contains(p) ==> openable_root_path(p) {
        if node.name@ == "rootfile"@ {
            match crate::xml::attr_lookup(node.attrs.deep_view(), "full-path"@) {
                Some(p0) => {
                    assert(own.contains(p0));
                    assert(rootfile_paths_of(node).contains(p0));
                },
                None => {},
            }
        }
        assert forall|p: Seq<char>| #[trigger]
            rootfile_paths_in(node.children@).contains(p) implies openable_root_path(p) by {
            assert(rootfile_paths_of(node).contains(p));
        }
    }
}

/// `lemma_rootfiles_open_iff`, over a list of sibling trees.
pub proof fn lemma_rootfiles_open_in_iff(nodes: Seq<XmlNode>)
    ensures
        container_rootfiles_open_in(nodes) <==> (forall|p: Seq<char>|
            #[trigger] rootfile_paths_in(nodes).contains(p) ==> openable_root_path(p)),
    decreases nodes,
{
    if nodes.len() > 0 {
        lemma_rootfiles_open_iff(nodes[0]);
        lemma_rootfiles_open_in_iff(nodes.drop_first());
        if container_rootfiles_open_in(nodes) {
            assert forall|p: Seq<char>| #[trigger]
                rootfile_paths_in(nodes).contains(p) implies openable_root_path(p) by {
                if rootfile_paths_of(nodes[0]).contains(p) {
                } else {
                    assert(rootfile_paths_in(nodes.drop_first()).contains(p));
                }
            }
        }
        if forall|p: Seq<char>| #[trigger]
            rootfile_paths_in(nodes).contains(p) ==> openable_root_path(p) {
            assert forall|p: Seq<char>| #[trigger]
                rootfile_paths_of(nodes[0]).contains(p) implies openable_root_path(p) by {
                assert(rootfile_paths_in(nodes).contains(p));
            }
            assert forall|p: Seq<char>| #[trigger]
                rootfile_paths_in(nodes.drop_first()).contains(p) implies openable_root_path(
                p,
            ) by {
                assert(rootfile_paths_in(nodes).contains(p));
            }
        }
    }
}

/// Whether a declared rootfile path is safe to open (see
/// `openable_root_path`).
fn is_openable_root_path(p: &str) -> (r: bool)
    ensures
        r == openable_root_path(p@),
{
    let n = p.unicode_len();
    if n == 0 {
        return false;
    }
    if p.get_char(0) == '/' {
        return false;
    }
    let mut i: usize = 0;
    while i < n
        invariant
            n == p@.len(),
            i <= n,
            forall|j: int| 0 <= j < i ==> p@[j] != ':' && #[trigger] p@[j] != '\\',
        decreases n - i,
    {
        let c = p.get_char(i);
        if c == ':' || c == '\\' {
            return false;
        }
        i = i + 1;
    }
    true
}

/// Checks a parsed container document before the container library opens
/// it: true exactly when every declared rootfile path is openable.
fn check_container_rootfiles(node: &XmlNode) -> (r: bool)
    ensures
        r == container_rootfiles_open(*node),
    decreases *node,
{
    if crate::util::str_eq(node.name.as_str(), "rootfile") {
        match crate::xml::get_attribute(node, "full-path") {
            Some(p) => {
                if !is_openable_root_path(p.as_str()) {
                    return false;
                }
            },
            None => {},
        }
    }
    let n = node.children.len();
    let mut i: usize = 0;
    proof {
        assert(node.children@.skip(0) =~= node.children@);
    }
    while i < n
        invariant
            n == node.children.len(),
            i <= n,
            container_rootfiles_open_in(node.children@) == container_rootfiles_open_in(
                node.children@.skip(i as int),
            ),
        decreases n - i,
    {
        proof {
            assert(node.children@.skip(i as int)[0] == node.children@[i as int]);
            assert(node.children@.skip(i as int).drop_first() =~= node.children@.skip(i + 1));
        }
        if !check_container_rootfiles(&node.children[i]) {
            return false;
        }
        i = i + 1;
    }
    proof {
        assert(node.children@.skip(n as int) =~= Seq::<XmlNode>::empty());
    }
    true
}

/// An open EPUB container. The `epub` crate's document type is kept behind
/// an opaque boundary; everything stated about an `EpubFile` is stated over
/// `file_bytes`, the bytes it was opened from.
#[verifier::external_body]
pub struct EpubFile {
    doc: epub::doc::EpubDoc<std::io::Cursor<Vec<u8>>>,
}

/// Whether raw bytes open as an EPUB container under the guarded opening of
/// `EpubFile::from_bytes`: the archive yields a container declaration, it
/// parses, every declared rootfile path is openable, and the container
/// library then accepts the bytes.
pub open spec fn epub_openable(bytes: Seq<u8>) -> bool {
    match epub_container_entry(bytes) {
        Some(c) => {
            &&& crate::xml::xml_well_formed(c)
            &&& forall|p: Seq<char>|
                #[trigger] container_rootfile_paths(c).contains(p) ==> openable_root_path(p)
            &&& epub_ok(bytes)
        },
        None => false,
    }
}

/// Relies on epub::archive::EpubArchive::from_reader and get_container_file:
/// reads the archive's container declaration entry, the same first steps the
/// container library's opener performs, deterministically in the bytes.
#[verifier::external_body]
fn read_container_entry(bytes: &Vec<u8>) -> (r: Option<Vec<u8>>)
    ensures
        match r {
            Some(c) => epub_container_entry(bytes@) == Some(c@),
            None => epub_container_entry(bytes@) is None,
        },
{
    let probe = std::io::Cursor::new(bytes.clone());
    let mut archive = epub::archive::EpubArchive::from_reader(probe).ok()?;
    archive.get_container_file().ok()
}

/// Relies on xmltree::Element::parse (success exactly for well-formed XML)
/// and the `element_to_node` conversion: the returned tree's declared
/// rootfile paths are the document's, a function of the bytes, since a
/// well-formed element names each attribute once.
#[verifier::external_body]
fn parse_container(container: &Vec<u8>) -> (r: Option<XmlNode>)
    ensures
        r is Some <==> crate::xml::xml_well_formed(container@),
        r matches Some(tree) ==> rootfile_paths_of(tree) == container_rootfile_paths(container@),
{
    let root = xmltree::Element::parse(container.as_slice()).ok()?;
    Some(crate::xml::element_to_node(&root))
}

/// Relies on epub::doc::EpubDoc::from_reader. The `requires` demands what
/// the guard established — the container declaration exists, parses, and
/// declares only openable rootfile paths — which fences off the opener's
/// one panic (`Path::parent().expect(..)` on the declared path); on such
/// input, opening succeeds or fails deterministically in the bytes.
#[verifier::external_body]
fn open_doc(bytes: Vec<u8>) -> (r: Option<EpubFile>)
    requires
        epub_container_entry(bytes@) matches Some(c) && crate::xml::xml_well_formed(c) && (
        forall|p: Seq<char>|
            #[trigger] container_rootfile_paths(c).contains(p) ==> openable_root_path(p)),
    ensures
        r is Some <==> epub_ok(bytes@),
        r matches Some(f) ==> file_bytes(f) == bytes@,
{
    match epub::doc::EpubDoc::from_reader(std::io::Cursor::new(bytes)) {
        Ok(doc) => Some(EpubFile { doc }),
        Err(_) => None,
    }
}

impl EpubFile {
    /// The bytes this container was opened from.
    pub open spec fn spec_bytes(&self) -> Seq<u8> {
        file_bytes(*self)
    }

    /// Opens an EPUB container from raw bytes; `None` exactly when the bytes
    /// are not openable (`epub_openable`).
    ///
    /// This is the guarded opening: the underlying opener takes the
    /// container's declared `full-path` unvalidated and calls
    /// `Path::parent().expect(..)` on it, so a crafted archive declaring a
    /// parentless rootfile path (empty, or a bare root) would panic instead
    /// of failing. The guard therefore fetches the container declaration
    /// entry, parses it, and runs the verified `check_container_rootfiles`
    /// before the opener is allowed to run; a malformed container stays a
    /// skippable failure.
    pub fn from_bytes(bytes: Vec<u8>) -> (r: Option<EpubFile>)
        ensures
            r is Some <==> epub_openable(bytes@),
            r matches Some(f) ==> file_bytes(f) == bytes@,
    {
        let container = match read_container_entry(&bytes) {
            Some(c) => c,
            None => {
                return None;
            },
        };
        let tree = match parse_container(&container) {
            Some(t) => t,
            None => {
                return None;
            },
        };
        let ok = check_container_rootfiles(&tree);
        proof {
            lemma_rootfiles_open_iff(tree);
        }
        if !ok {
            return None;
        }
        open_doc(bytes)
    }

    /// The book's primary title. Relies on epub::doc::EpubDoc::get_title:
    /// the first `title` metadata item, a function of the container alone.
    #[verifier::external_body]
    pub fn get_title(&self) -> (r: Option<String>)
        ensures
            match r {
                Some(t) => epub_title(self.spec_bytes()) == Some(t@),
                None => epub_title(self.spec_bytes()) is None,
            },
    {
        self.doc.get_title()
    }

    /// The cover declared through the standard convention, if any. Relies on
    /// epub::doc::EpubDoc::get_cover: the resource named by the EPUB3
    /// `cover-image` property or the EPUB2 `cover` metadata entry. Unless
    /// the declaration is ambiguous, the outcome is a function of the
    /// container's bytes; whatever comes back is the content of some
    /// manifest resource.
    #[verifier::external_body]
    pub fn get_cover(&mut self) -> (r: Option<(Vec<u8>, String)>)
        ensures
            final(self).spec_bytes() == old(self).spec_bytes(),
            !ambiguous_std_cover(old(self).spec_bytes()) ==> match r {
                Some(c) => epub_std_cover(old(self).spec_bytes()) == Some((c.0@, c.1@)),
                None => epub_std_cover(old(self).spec_bytes()) is None,
            },
            r matches Some(c) ==> exists|rv: ResourceView|
                #![trigger epub_resources_of(old(self).spec_bytes()).contains(rv)]
                epub_resources_of(old(self).spec_bytes()).contains(rv) && epub_resource(
                    old(self).spec_bytes(),
                    rv.id,
                ) == Some((c.0@, c.1@)),
    {
        let r = self.doc.get_cover();
        r
    }

    /// The resource manifest, as one entry per declared resource, in no
    /// particular order (the container stores the manifest as an unordered
    /// map). Relies on the `resources` map of epub::doc::EpubDoc, whose keys
    /// are unique and whose values carry each resource's MIME type.
    #[verifier::external_body]
    pub fn resources(&self) -> (r: Vec<EpubResource>)
        ensures
            r.deep_view().to_set() == epub_resources_of(self.spec_bytes()),
            forall|i: int, j: int|
                0 <= i < j < r.deep_view().len() ==> r.deep_view()[i].id != r.deep_view()[j].id,
    {
        let mut out: Vec<EpubResource> = Vec::new();
        for (id, item) in &self.doc.resources {
            out.push(EpubResource { id: id.clone(), mime: item.mime.clone() });
        }
        out
    }

    /// The content and MIME type of the manifest resource `id`. Relies on
    /// epub::doc::EpubDoc::get_resource: `None` exactly when the manifest
    /// lacks the id or the archive lacks the file; on success the returned
    /// MIME type is the manifest entry's.
    #[verifier::external_body]
    pub fn get_resource(&mut self, id: &str) -> (r: Option<(Vec<u8>, String)>)
        ensures
            final(self).spec_bytes() == old(self).spec_bytes(),
            match r {
                Some(c) => epub_resource(old(self).spec_bytes(), id@) == Some((c.0@, c.1@)),
                None => epub_resource(old(self).spec_bytes(), id@) is None,
            },
            (forall|rv: ResourceView|
                epub_resources_of(old(self).spec_bytes()).contains(rv) ==> rv.id != id@) ==> r
                is None,
            forall|rv: ResourceView|
                #![trigger epub_resources_of(old(self).spec_bytes()).contains(rv)]
                epub_resources_of(old(self).spec_bytes()).contains(rv) && rv.id == id@ && r
                    is Some ==> r->Some_0.1@ == rv.mime,
    {
        let r = self.doc.get_resource(id);
        r
    }
}

/// A typed reason why no cover could be resolved for a book. The caller
/// treats every one of these as "no cover", not as a fatal failure.
#[derive(Clone, Copy, Debug, PartialEq, Eq, Structural)]
pub enum BookError {
    NoUniqueCover,
    ResourceNotFound,
    XmlParseError,
    IOError,
    BadCoverData,
}

impl BookError {
    /// A human-readable description of the failure.
    pub fn message(&self) -> (r: String)
        ensures
            r@ == match *self {
                BookError::NoUniqueCover => "Unique cover not found."@,
                BookError::ResourceNotFound => "Resource not found."@,
                BookError::XmlParseError => "Failed to parse XML."@,
                BookError::IOError => "I/O error occurred."@,
                BookError::BadCoverData => "Cover data missing or corrupted"@,
            },
    {
        match *self {
            BookError::NoUniqueCover => String::from_str("Unique cover not found."),
            BookError::ResourceNotFound => String::from_str("Resource not found."),
            BookError::XmlParseError => String::from_str("Failed to parse XML."),
            BookError::IOError => String::from_str("I/O error occurred."),
            BookError::BadCoverData => String::from_str("Cover data missing or corrupted"),
        }
    }
}

/// Some manifest entry of the EPUB in `bytes` carries exactly the content
/// `c`.
pub open spec fn some_manifest_resource(bytes: Seq<u8>, c: (Seq<u8>, Seq<char>)) -> bool {
    exists|rv: ResourceView|
        #![trigger epub_resources_of(bytes).contains(rv)]
        {
            &&& epub_resources_of(bytes).contains(rv)
            &&& epub_resource(bytes, rv.id) == Some(c)
        }
}

/// Some manifest entry carries jpeg content `c`, found through a
/// cover-pattern match.
pub open spec fn some_jpeg_resource(bytes: Seq<u8>, c: (Seq<u8>, Seq<char>)) -> bool {
    exists|rv: ResourceView|
        #![trigger epub_resources_of(bytes).contains(rv)]
        {
            &&& epub_resources_of(bytes).contains(rv)
            &&& epub_resource(bytes, rv.id) == Some(c)
            &&& regex_match("image/jpeg"@, rv.mime)
        }
}

/// Some manifest entry of the EPUB in `bytes` pairs a `cover`-matching id
/// with a jpeg MIME type: the flat scan has something to find.
pub open spec fn has_flat_cover_candidate(bytes: Seq<u8>) -> bool {
    exists|rv: ResourceView|
        #![trigger epub_resources_of(bytes).contains(rv)]
        {
            &&& epub_resources_of(bytes).contains(rv)
            &&& regex_match("(?i)cover"@, rv.id)
            &&& regex_match("image/jpeg"@, rv.mime)
        }
}

/// Some manifest entry pairs a `cover`-matching id with a jpeg MIME type and
/// carries exactly the content `c`: what a flat-scan win returns.
pub open spec fn some_flat_cover_resource(bytes: Seq<u8>, c: (Seq<u8>, Seq<char>)) -> bool {
    exists|rv: ResourceView|
        #![trigger epub_resources_of(bytes).contains(rv)]
        {
            &&& epub_resources_of(bytes).contains(rv)
            &&& regex_match("(?i)cover"@, rv.id)
            &&& regex_match("image/jpeg"@, rv.mime)
            &&& epub_resource(bytes, rv.id) == Some(c)
        }
}

/// The flat scan is certain to succeed on the EPUB in `bytes`: its two
/// (fixed, valid) patterns compile, some manifest entry pairs a
/// `cover`-matching id with a jpeg MIME type, and every such entry's file is
/// present in the archive. On such an EPUB nothing outside the bytes can
/// decide, whichever entry the manifest hand-out puts first.
pub open spec fn flat_scan_succeeds(bytes: Seq<u8>) -> bool {
    &&& regex_compiles("(?i)cover"@)
    &&& regex_compiles("image/jpeg"@)
    &&& has_flat_cover_candidate(bytes)
    &&& forall|rv: ResourceView|
        #![trigger epub_resources_of(bytes).contains(rv)]
        epub_resources_of(bytes).contains(rv) && regex_match("(?i)cover"@, rv.id) && regex_match(
            "image/jpeg"@,
            rv.mime,
        ) ==> epub_resource(bytes, rv.id) is Some
}

/// The XHTML indirection is certain to stop at the parse step on the EPUB
/// in `bytes`: the fixed patterns compile, no flat jpeg candidate exists,
/// some manifest entry pairs a `cover`-matching id with an xhtml MIME type,
/// and every such entry is fetchable but not well-formed XML.
pub open spec fn xhtml_scan_hits_malformed_page(bytes: Seq<u8>) -> bool {
    &&& regex_compiles("(?i)cover"@)
    &&& regex_compiles("image/jpeg"@)
    &&& regex_compiles("application/xhtml\\+xml"@)
    &&& !has_flat_cover_candidate(bytes)
    &&& exists|rv: ResourceView|
        #![trigger epub_resources_of(bytes).contains(rv)]
        epub_resources_of(bytes).contains(rv) && regex_match("(?i)cover"@, rv.id) && regex_match(
            "application/xhtml\\+xml"@,
            rv.mime,
        )
    &&& forall|rv: ResourceView|
        #![trigger epub_resources_of(bytes).contains(rv)]
        epub_resources_of(bytes).contains(rv) && regex_match("(?i)cover"@, rv.id) && regex_match(
            "application/xhtml\\+xml"@,
            rv.mime,
        ) ==> (epub_resource(bytes, rv.id) matches Some(c) && !crate::xml::xml_well_formed(c.0))
}

/// No manifest entry of the EPUB in `bytes` pairs a `cover`-matching id with
/// a jpeg or xhtml MIME type: nothing for the heuristic fallback to find.
pub open spec fn no_cover_candidates(bytes: Seq<u8>) -> bool {
    forall|rv: ResourceView|
        #![trigger epub_resources_of(bytes).contains(rv)]
        epub_resources_of(bytes).contains(rv) ==> !(regex_match("(?i)cover"@, rv.id) && (
        regex_match("image/jpeg"@, rv.mime) || regex_match("application/xhtml\\+xml"@, rv.mime)))
}

/// A successful scan returns the id of some entry matching both patterns; a
/// failed scan means no entry matches both.
pub proof fn lemma_matching_resource(s: Seq<ResourceView>, kp: Seq<char>, mp: Seq<char>)
    ensures
        matching_resource(s, kp, mp) is None <==> (forall|i: int|
            0 <= i < s.len() ==> !(regex_match(kp, #[trigger] s[i].id) && regex_match(
                mp,
                s[i].mime,
            ))),
        matching_resource(s, kp, mp) matches Some(id) ==> exists|i: int|
            0 <= i < s.len() && #[trigger] s[i].id == id && regex_match(kp, s[i].id)
                && regex_match(mp, s[i].mime),
    decreases s.len(),
{
    if s.len() > 0 {
        lemma_matching_resource(s.drop_first(), kp, mp);
        let rest = s.drop_first();
        assert forall|i: int| 0 <= i < rest.len() implies rest[i] == s[i + 1] by {}
        if matching_resource(s, kp, mp) is None {
            assert forall|i: int| 0 <= i < s.len() implies !(regex_match(kp, #[trigger] s[i].id)
                && regex_match(mp, s[i].mime)) by {
                if i > 0 {
                    assert(rest[i - 1] == s[i]);
                }
            }
        }
    }
}

/// Resolves the cover named indirectly by a `cover` XHTML wrapper page: takes
/// the embedded image's filename stem from `page`, uses it as a pattern over
/// the manifest (restricted to `image/jpeg` entries), and fetches the first
/// entry it matches.
pub fn resolve_stem_cover(
    resources: &Vec<EpubResource>,
    book: &mut EpubFile,
    page: &XmlNode,
    jpeg_regex: regex::Regex,
) -> (r: Result<(Vec<u8>, String), BookError>)
    requires
        resources.deep_view().to_set() == epub_resources_of(old(book).spec_bytes()),
        regex_source(jpeg_regex) == "image/jpeg"@,
    ensures
        final(book).spec_bytes() == old(book).spec_bytes(),
        ({
            let s = resources.deep_view();
            let b = old(book).spec_bytes();
            match image_source_of(*page) {
                None => r matches Err(e) && e == BookError::NoUniqueCover,
                Some(st) => {
                    if !regex_compiles(st) {
                        r matches Err(e) && e == BookError::NoUniqueCover
                    } else {
                        match matching_resource(s, st, "image/jpeg"@) {
                            None => r matches Err(e) && e == BookError::NoUniqueCover,
                            Some(id) => match epub_resource(b, id) {
                                Some(c) => r matches Ok(rc) && rc.0@ == c.0 && rc.1@ == c.1,
                                None => r matches Err(e) && e == BookError::BadCoverData,
                            },
                        }
                    }
                },
            }
        }),
        r matches Ok(c) ==> some_jpeg_resource(old(book).spec_bytes(), (c.0@, c.1@)),
{
    let ghost s = resources.deep_view();
    let ghost b = book.spec_bytes();
    let stem = match crate::xml::extract_image_source(page) {
        Some(stem) => stem,
        None => {
            return Err(BookError::NoUniqueCover);
        },
    };
    let stem_re = match regex_new(stem.as_str()) {
        Some(re) => re,
        None => {
            return Err(BookError::NoUniqueCover);
        },
    };
    match check_epub_resource(stem_re, jpeg_regex, resources) {
        Some(src) => match book.get_resource(src.as_str()) {
            Some(cover_data) => {
                proof {
                    lemma_matching_resource(s, stem@, "image/jpeg"@);
                    let i = choose|i: int|
                        0 <= i < s.len() && #[trigger] s[i].id == src@ && regex_match(
                            stem@,
                            s[i].id,
                        ) && regex_match("image/jpeg"@, s[i].mime);
                    assert(s.contains(s[i]));
                    assert(epub_resources_of(b).contains(s[i]));
                }
                Ok(cover_data)
            },
            None => Err(BookError::BadCoverData),
        },
        None => Err(BookError::NoUniqueCover),
    }
}

/// The heuristic cover search for EPUBs whose cover the standard accessor
/// misses. First a flat scan: any manifest entry whose id matches `cover`
/// (case-insensitively) with MIME type `image/jpeg`. Failing that, the XHTML
/// indirection: a `cover`-matching `application/xhtml+xml` entry is fetched
/// and parsed, and the image its first `img` tag embeds is looked up by its
/// filename stem. Whatever succeeds, the returned bytes are the content of a
/// jpeg-typed manifest entry; when the manifest offers no `cover`-matching
/// entry at all, the failure is `NoUniqueCover`.
pub fn unique_find_cover(book: &mut EpubFile) -> (r: Result<(Vec<u8>, String), BookError>)
    ensures
        final(book).spec_bytes() == old(book).spec_bytes(),
        r matches Ok(c) ==> some_jpeg_resource(old(book).spec_bytes(), (c.0@, c.1@)),
        r matches Err(e) ==> (e == BookError::NoUniqueCover || e == BookError::ResourceNotFound
            || e == BookError::XmlParseError || e == BookError::BadCoverData),
        no_cover_candidates(old(book).spec_bytes()) ==> (r matches Err(e) && e
            == BookError::NoUniqueCover),
        has_flat_cover_candidate(old(book).spec_bytes()) ==> (r is Ok || (r matches Err(e) && e
            == BookError::NoUniqueCover)),
        flat_scan_succeeds(old(book).spec_bytes()) ==> r is Ok,
        has_flat_cover_candidate(old(book).spec_bytes()) ==> (r matches Ok(c)
            ==> some_flat_cover_resource(old(book).spec_bytes(), (c.0@, c.1@))),
        xhtml_scan_hits_malformed_page(old(book).spec_bytes()) ==> (r matches Err(e) && e
            == BookError::XmlParseError),
{
    let ghost b = book.spec_bytes();
    let resources = book.resources();
    let ghost s = resources.deep_view();

    proof {
        if no_cover_candidates(b) {
            assert forall|i: int| 0 <= i < s.len() implies !(regex_match(
                "(?i)cover"@,
                #[trigger] s[i].id,
            ) && regex_match("image/jpeg"@, s[i].mime)) by {
                assert(s.contains(s[i]));
                assert(epub_resources_of(b).contains(s[i]));
            }
            assert forall|i: int| 0 <= i < s.len() implies !(regex_match(
                "(?i)cover"@,
                #[trigger] s[i].id,
            ) && regex_match("application/xhtml\\+xml"@, s[i].mime)) by {
                assert(s.contains(s[i]));
                assert(epub_resources_of(b).contains(s[i]));
            }
            lemma_matching_resource(s, "(?i)cover"@, "image/jpeg"@);
            lemma_matching_resource(s, "(?i)cover"@, "application/xhtml\\+xml"@);
        }
    }

    let key_re = match regex_new("(?i)cover") {
        Some(re) => re,
        None => {
            return Err(BookError::NoUniqueCover);
        },
    };
    let jpeg_re = match regex_new("image/jpeg") {
        Some(re) => re,
        None => {
            return Err(BookError::NoUniqueCover);
        },
    };
    match check_epub_resource(key_re, jpeg_re, &resources) {
        Some(cover_id) => {
            proof {
                lemma_matching_resource(s, "(?i)cover"@, "image/jpeg"@);
                let i = choose|i: int|
                    0 <= i < s.len() && #[trigger] s[i].id == cover_id@ && regex_match(
                        "(?i)cover"@,
                        s[i].id,
                    ) && regex_match("image/jpeg"@, s[i].mime);
                assert(s.contains(s[i]));
                assert(epub_resources_of(b).contains(s[i]));
                assert(has_flat_cover_candidate(b));
            }
            match book.get_resource(cover_id.as_str()) {
                Some(cover_data) => {
                    proof {
                        let i = choose|i: int|
                            0 <= i < s.len() && #[trigger] s[i].id == cover_id@ && regex_match(
                                "(?i)cover"@,
                                s[i].id,
                            ) && regex_match("image/jpeg"@, s[i].mime);
                        assert(s.contains(s[i]));
                        assert(epub_resources_of(b).contains(s[i]));
                    }
                    Ok(cover_data)
                },
                None => {
                    proof {
                        if flat_scan_succeeds(b) {
                            let i = choose|i: int|
                                0 <= i < s.len() && #[trigger] s[i].id == cover_id@ && regex_match(
                                    "(?i)cover"@,
                                    s[i].id,
                                ) && regex_match("image/jpeg"@, s[i].mime);
                            assert(s.contains(s[i]));
                            assert(epub_resources_of(b).contains(s[i]));
                            assert(epub_resource(b, s[i].id) is Some);
                            assert(false);
                        }
                    }
                    Err(BookError::NoUniqueCover)
                },
            }
        },
        None => {
            proof {
                lemma_matching_resource(s, "(?i)cover"@, "image/jpeg"@);
                if has_flat_cover_candidate(b) {
                    let rv = choose|rv: ResourceView|
                        #![trigger epub_resources_of(b).contains(rv)]
                        {
                            &&& epub_resources_of(b).contains(rv)
                            &&& regex_match("(?i)cover"@, rv.id)
                            &&& regex_match("image/jpeg"@, rv.mime)
                        };
                    assert(s.to_set().contains(rv));
                    let i = choose|i: int| 0 <= i < s.len() && s[i] == rv;
                    assert(regex_match("(?i)cover"@, s[i].id));
                    assert(false);
                }
            }
            let key_re2 = match regex_new("(?i)cover") {
                Some(re) => re,
                None => {
                    return Err(BookError::NoUniqueCover);
                },
            };
            let xhtml_re = match regex_new("application/xhtml\\+xml") {
                Some(re) => re,
                None => {
                    return Err(BookError::NoUniqueCover);
                },
            };
            match check_epub_resource(key_re2, xhtml_re, &resources) {
                Some(unique_cover_id) => {
                    proof {
                        lemma_matching_resource(s, "(?i)cover"@, "application/xhtml\\+xml"@);
                        let i = choose|i: int|
                            0 <= i < s.len() && #[trigger] s[i].id == unique_cover_id@
                                && regex_match("(?i)cover"@, s[i].id) && regex_match(
                                "application/xhtml\\+xml"@,
                                s[i].mime,
                            );
                        assert(s.contains(s[i]));
                        assert(epub_resources_of(b).contains(s[i]));
                    }
                    match book.get_resource(unique_cover_id.as_str()) {
                        Some(page_content) => match parse_xml(page_content.0.as_slice()) {
                            Some(root) => {
                                proof {
                                    if xhtml_scan_hits_malformed_page(b) {
                                        let i = choose|i: int|
                                            0 <= i < s.len() && #[trigger] s[i].id
                                                == unique_cover_id@ && regex_match(
                                                "(?i)cover"@,
                                                s[i].id,
                                            ) && regex_match(
                                                "application/xhtml\\+xml"@,
                                                s[i].mime,
                                            );
                                        assert(epub_resources_of(b).contains(s[i]));
                                        assert(epub_resource(b, s[i].id) matches Some(c)
                                            && !crate::xml::xml_well_formed(c.0));
                                        assert(false);
                                    }
                                }
                                match regex_new("image/jpeg") {
                                    Some(jpeg_re2) => resolve_stem_cover(
                                        &resources,
                                        book,
                                        &root,
                                        jpeg_re2,
                                    ),
                                    None => Err(BookError::NoUniqueCover),
                                }
                            },
                            None => Err(BookError::XmlParseError),
                        },
                        None => {
                            proof {
                                if xhtml_scan_hits_malformed_page(b) {
                                    let i = choose|i: int|
                                        0 <= i < s.len() && #[trigger] s[i].id == unique_cover_id@
                                            && regex_match("(?i)cover"@, s[i].id) && regex_match(
                                            "application/xhtml\\+xml"@,
                                            s[i].mime,
                                        );
                                    assert(epub_resources_of(b).contains(s[i]));
                                    assert(epub_resource(b, s[i].id) is Some);
                                    assert(false);
                                }
                            }
                            Err(BookError::ResourceNotFound)
                        },
                    }
                },
                None => {
                    proof {
                        if xhtml_scan_hits_malformed_page(b) {
                            lemma_matching_resource(s, "(?i)cover"@, "application/xhtml\\+xml"@);
                            let rv = choose|rv: ResourceView|
                                #![trigger epub_resources_of(b).contains(rv)]
                                {
                                    &&& epub_resources_of(b).contains(rv)
                                    &&& regex_match("(?i)cover"@, rv.id)
                                    &&& regex_match("application/xhtml\\+xml"@, rv.mime)
                                };
                            assert(s.to_set().contains(rv));
                            let i = choose|i: int| 0 <= i < s.len() && s[i] == rv;
                            assert(regex_match("(?i)cover"@, s[i].id));
                            assert(false);
                        }
                    }
                    Err(BookError::NoUniqueCover)
                },
            }
        },
    }
}

/// The full cover fallback chain for an open EPUB. The standard accessor has
/// the highest confidence: when the container unambiguously declares a cover
/// the standard way, exactly that cover is returned and the heuristics never
/// run. Otherwise the result is `unique_find_cover`'s.
pub fn get_book_cover_image(book: &mut EpubFile) -> (r: Result<(Vec<u8>, String), BookError>)
    ensures
        final(book).spec_bytes() == old(book).spec_bytes(),
        !ambiguous_std_cover(old(book).spec_bytes()) ==> {
            &&& epub_std_cover(old(book).spec_bytes()) matches Some(c) ==> (r matches Ok(rc)
                && rc.0@ == c.0 && rc.1@ == c.1)
            &&& epub_std_cover(old(book).spec_bytes()) is None ==> {
                &&& r matches Ok(c) ==> some_jpeg_resource(old(book).spec_bytes(), (c.0@, c.1@))
                &&& no_cover_candidates(old(book).spec_bytes()) ==> (r matches Err(e) && e
                    == BookError::NoUniqueCover)
                &&& has_flat_cover_candidate(old(book).spec_bytes()) ==> (r is Ok || (r matches Err(
                    e,
                ) && e == BookError::NoUniqueCover))
                &&& flat_scan_succeeds(old(book).spec_bytes()) ==> r is Ok
                &&& has_flat_cover_candidate(old(book).spec_bytes()) ==> (r matches Ok(c)
                    ==> some_flat_cover_resource(old(book).spec_bytes(), (c.0@, c.1@)))
                &&& xhtml_scan_hits_malformed_page(old(book).spec_bytes()) ==> (r matches Err(e)
                    && e == BookError::XmlParseError)
            }
        },
        r matches Ok(c) ==> some_manifest_resource(old(book).spec_bytes(), (c.0@, c.1@)),
        r matches Err(e) ==> (e == BookError::NoUniqueCover || e == BookError::ResourceNotFound
            || e == BookError::XmlParseError || e == BookError::BadCoverData),
{
    let ghost b = book.spec_bytes();
    match book.get_cover() {
        Some(cover_data) => Ok(cover_data),
        None => {
            let r = unique_find_cover(book);
            proof {
                match &r {
                    Ok(c) => {
                        let rv = choose|rv: ResourceView|
                            #![trigger epub_resources_of(b).contains(rv)]
                            {
                                &&& epub_resources_of(b).contains(rv)
                                &&& epub_resource(b, rv.id) == Some((c.0@, c.1@))
                                &&& regex_match("image/jpeg"@, rv.mime)
                            };
                        assert(epub_resources_of(b).contains(rv));
                    },
                    Err(_) => {},
                }
            }
            r
        },
    }
}

/// Everything the catalog needs from one scanned EPUB file, before the cover
/// image is written to disk: the title, the sanitized filename the cover
/// should be stored under, the resolved cover content (if any), and the
/// source path.
pub struct PreparedBook {
    pub title: String,
    pub cover_name: String,
    pub cover: Option<(Vec<u8>, String)>,
    pub book_location: String,
}

/// Builds the catalog candidate for one EPUB file, given the file's raw
/// bytes and its path (stored with separators normalized to `/`). `None`
/// exactly when the bytes do not open as an EPUB or the container declares
/// no (or an empty) title: such a file is skipped, never fatal. The cover is
/// resolved through the fallback chain; failing to find one leaves `cover`
/// empty and still yields a candidate.
pub fn prepare_book(bytes: Vec<u8>, book_location: String) -> (r: Option<PreparedBook>)
    ensures
        r is Some <==> (epub_openable(bytes@) && epub_title(bytes@) is Some && epub_title(
            bytes@,
        )->Some_0.len() > 0),
        r matches Some(p) ==> {
            &&& epub_title(bytes@) == Some(p.title@)
            &&& p.title@.len() > 0
            &&& p.book_location@ == normalize_separators(book_location@)
            &&& p.cover_name@ == sanitize_seq(p.title@ + ".jpg"@)
            &&& !ambiguous_std_cover(bytes@) ==> (epub_std_cover(bytes@) matches Some(c) ==> (
            p.cover matches Some(pc) && pc.0@ == c.0 && pc.1@ == c.1))
            &&& (p.cover matches Some(pc) ==> some_manifest_resource(bytes@, (pc.0@, pc.1@)))
            &&& (!ambiguous_std_cover(bytes@) && epub_std_cover(bytes@) is None
                && no_cover_candidates(bytes@)) ==> p.cover is None
            &&& (!ambiguous_std_cover(bytes@) && epub_std_cover(bytes@) is None
                && flat_scan_succeeds(bytes@)) ==> p.cover is Some
        },
{
    let ghost bb = bytes@;
    let mut file = match EpubFile::from_bytes(bytes) {
        Some(file) => file,
        None => {
            return None;
        },
    };
    let title = match file.get_title() {
        Some(title) => title,
        None => {
            return None;
        },
    };
    if title.as_str().is_empty() {
        return None;
    }
    let book_location = crate::util::normalize_path_separators(book_location.as_str());
    let cover_name = sanitize_windows_filename(title.clone().concat(".jpg"));
    let cover = match get_book_cover_image(&mut file) {
        Ok(cover_data) => Some(cover_data),
        Err(_) => None,
    };
    Some(PreparedBook { title, cover_name, cover, book_location })
}

/// The catalog is sorted when every pair of titles is in lexicographic
/// order.
pub open spec fn sorted_by_title(s: Seq<crate::book_item::BookView>) -> bool {
    forall|i: int, j: int|
        0 <= i < j < s.len() ==> lex_le(#[trigger] s[i].title, #[trigger] s[j].title)
}

/// Sorts a batch of books alphabetically by title (insertion sort): the
/// result holds exactly the same books, in lexicographic title order.
pub fn sort_books_by_title(books: Vec<Book>) -> (r: Vec<Book>)
    ensures
        sorted_by_title(r.deep_view()),
        r.deep_view().to_multiset() == books.deep_view().to_multiset(),
{
    let ghost src = books.deep_view();
    let mut out: Vec<Book> = Vec::new();
    let n = books.len();
    proof {
        assert(src.subrange(0, 0) =~= Seq::empty());
        assert(out.deep_view() =~= Seq::<crate::book_item::BookView>::empty());
        assert(out.deep_view().to_multiset() =~= src.subrange(0, 0).to_multiset());
    }
    let mut idx: usize = 0;
    while idx < n
        invariant
            n == books.len(),
            src == books.deep_view(),
            idx <= n,
            sorted_by_title(out.deep_view()),
            out.deep_view().to_multiset() == src.subrange(0, idx as int).to_multiset(),
        decreases n - idx,
    {
        let b = books[idx].clone();
        proof {
            assert(books[idx as int]@ == src[idx as int]);
        }
        let ghost bt = b@.title;
        let m = out.len();
        let mut pos: usize = 0;
        while pos < m
            invariant
                m == out.len(),
                pos <= m,
                forall|j: int| 0 <= j < pos ==> lex_le(#[trigger] out.deep_view()[j].title, bt),
                bt == b@.title,
            ensures
                pos <= m,
                m == out.len(),
                forall|j: int| 0 <= j < pos ==> lex_le(#[trigger] out.deep_view()[j].title, bt),
                pos < m ==> !lex_le(out.deep_view()[pos as int].title, bt),
            decreases m - pos,
        {
            proof {
                assert(out[pos as int]@ == out.deep_view()[pos as int]);
            }
            let c = crate::util::compare_strs(out[pos].get_title().as_str(), b.get_title().as_str());
            if c == crate::util::TitleOrder::Greater {
                break ;
            }
            proof {
                assert(lex_le(out.deep_view()[pos as int].title, bt));
            }
            pos = pos + 1;
        }
        let ghost prev = out;
        let ghost prevdv = out.deep_view();
        out.insert(pos, b);
        proof {
            crate::book_item::lemma_books_deep_view_insert(prev, out, pos as int, b);
            let dv = out.deep_view();
            if (pos as int) < prevdv.len() {
                crate::util::lemma_lex_le_total(prevdv[pos as int].title, bt);
            }
            assert forall|x: int, y: int| 0 <= x < y < dv.len() implies lex_le(
                #[trigger] dv[x].title,
                #[trigger] dv[y].title,
            ) by {
                if x < pos as int && y == pos as int {
                    assert(dv[x] == prevdv[x]);
                    assert(dv[y] == b@);
                } else if x == pos as int && y > pos as int {
                    assert(dv[x] == b@);
                    assert(dv[y] == prevdv[y - 1]);
                    if (pos as int) < y - 1 {
                        assert(lex_le(prevdv[pos as int].title, prevdv[y - 1].title));
                        crate::util::lemma_lex_le_transitive(
                            bt,
                            prevdv[pos as int].title,
                            prevdv[y - 1].title,
                        );
                    }
                } else if x < pos as int && y > pos as int {
                    assert(dv[x] == prevdv[x]);
                    assert(dv[y] == prevdv[y - 1]);
                    if x < y - 1 {
                        assert(lex_le(prevdv[x].title, prevdv[y - 1].title));
                    }
                } else if x > pos as int && y > pos as int {
                    assert(dv[x] == prevdv[x - 1]);
                    assert(dv[y] == prevdv[y - 1]);
                } else if x < pos as int && y < pos as int {
                    assert(dv[x] == prevdv[x]);
                    assert(dv[y] == prevdv[y]);
                }
            }
            crate::util::lemma_to_multiset_insert(prevdv, pos as int, b@);
            assert(src.subrange(0, idx + 1) =~= src.subrange(0, idx as int).push(src[idx as int]));
            broadcast use vstd::seq_lib::group_to_multiset_ensures;

            assert(out.deep_view().to_multiset() =~= src.subrange(0, idx + 1).to_multiset());
        }
        idx = idx + 1;
    }
    proof {
        assert(src.subrange(0, n as int) =~= src);
    }
    out
}

/// The candidate books that survived their per-file pipeline, in order:
/// failed files contribute nothing.
pub open spec fn present_books(cands: Seq<Option<crate::book_item::BookView>>) -> Seq<
    crate::book_item::BookView,
>
    decreases cands.len(),
{
    if cands.len() == 0 {
        Seq::empty()
    } else {
        let rest = present_books(cands.drop_last());
        match cands.last() {
            Some(b) => rest.push(b),
            None => rest,
        }
    }
}

/// Collects the per-file candidate results of one directory scan into the
/// batch of new books, dropping the files that failed (a bad container or a
/// missing title never aborts the scan) and sorting the survivors
/// alphabetically by title.
pub fn create_book_vec(items: Vec<Option<Book>>) -> (r: Vec<Book>)
    ensures
        sorted_by_title(r.deep_view()),
        r.deep_view().to_multiset() == present_books(items.deep_view()).to_multiset(),
{
    let ghost cands = items.deep_view();
    let mut collected: Vec<Book> = Vec::new();
    let n = items.len();
    let mut i: usize = 0;
    proof {
        assert(cands.subrange(0, 0) =~= Seq::empty());
        assert(collected.deep_view() =~= present_books(cands.subrange(0, 0)));
    }
    while i < n
        invariant
            n == items.len(),
            cands == items.deep_view(),
            i <= n,
            collected.deep_view() == present_books(cands.subrange(0, i as int)),
        decreases n - i,
    {
        proof {
            assert(cands.subrange(0, i + 1).drop_last() =~= cands.subrange(0, i as int));
            assert(cands.subrange(0, i + 1).last() == cands[i as int]);
            assert(items[i as int].deep_view() == cands[i as int]);
        }
        match &items[i] {
            Some(b) => {
                let cloned = b.clone();
                let ghost prev = collected;
                collected.push(cloned);
                proof {
                    crate::book_item::lemma_books_deep_view_push(prev, collected, cloned);
                    assert(collected.deep_view() =~= present_books(cands.subrange(0, i + 1)));
                }
            },
            None => {
                proof {
                    assert(collected.deep_view() =~= present_books(cands.subrange(0, i + 1)));
                }
            },
        }
        i = i + 1;
    }
    proof {
        assert(cands.subrange(0, n as int) =~= cands);
    }
    sort_books_by_title(collected)
}

/// Assembles the catalog record for a prepared book. The record points at
/// the stored cover file only when a cover was resolved and the caller
/// managed to write it (`cover_written`); otherwise the book falls back to
/// the default cover.
pub fn book_from_prepared(p: PreparedBook, cover_written: bool) -> (r: crate::book_item::Book)
    requires
        p.title@.len() > 0,
    ensures
        r@.title == p.title@,
        r@.book_location == p.book_location@,
        r@.cover_location == if p.cover is Some && cover_written {
            Some(p.cover_name@)
        } else {
            None::<Seq<char>>
        },
{
    let has_cover = p.cover.is_some();
    crate::book_item::Book::new(
        if has_cover && cover_written {
            Some(p.cover_name)
        } else {
            None
        },
        p.book_location,
        p.title,
    )
}

} // verus!
