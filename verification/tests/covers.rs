//! Cover resolution against synthetic EPUB containers, built in memory.

use shelf::book_item::BookCache;
use shelf::book_worker::BookWorker;
use shelf::bookio::{
    book_from_prepared, get_book_cover_image, prepare_book, unique_find_cover, BookError, EpubFile,
};
use shelf::util::{check_epub_resource, regex_new};

fn crc32(data: &[u8]) -> u32 {
    let mut c: u32 = 0xFFFF_FFFF;
    for &b in data {
        c ^= b as u32;
        for _ in 0..8 {
            c = if c & 1 != 0 { (c >> 1) ^ 0xEDB8_8320 } else { c >> 1 };
        }
    }
    !c
}

/// Builds a zip archive with stored (uncompressed) entries.
fn build_zip(entries: &[(&str, &[u8])]) -> Vec<u8> {
    let mut out: Vec<u8> = Vec::new();
    let mut central: Vec<u8> = Vec::new();
    let mut offsets: Vec<u32> = Vec::new();
    for (name, data) in entries {
        let offset = out.len() as u32;
        offsets.push(offset);
        let crc = crc32(data);
        let size = data.len() as u32;
        out.extend_from_slice(&[0x50, 0x4b, 0x03, 0x04]);
        out.extend_from_slice(&20u16.to_le_bytes());
        out.extend_from_slice(&0u16.to_le_bytes());
        out.extend_from_slice(&0u16.to_le_bytes());
        out.extend_from_slice(&0u16.to_le_bytes());
        out.extend_from_slice(&0u16.to_le_bytes());
        out.extend_from_slice(&crc.to_le_bytes());
        out.extend_from_slice(&size.to_le_bytes());
        out.extend_from_slice(&size.to_le_bytes());
        out.extend_from_slice(&(name.len() as u16).to_le_bytes());
        out.extend_from_slice(&0u16.to_le_bytes());
        out.extend_from_slice(name.as_bytes());
        out.extend_from_slice(data);
    }
    for (i, (name, data)) in entries.iter().enumerate() {
        let crc = crc32(data);
        let size = data.len() as u32;
        central.extend_from_slice(&[0x50, 0x4b, 0x01, 0x02]);
        central.extend_from_slice(&20u16.to_le_bytes());
        central.extend_from_slice(&20u16.to_le_bytes());
        central.extend_from_slice(&0u16.to_le_bytes());
        central.extend_from_slice(&0u16.to_le_bytes());
        central.extend_from_slice(&0u16.to_le_bytes());
        central.extend_from_slice(&0u16.to_le_bytes());
        central.extend_from_slice(&crc.to_le_bytes());
        central.extend_from_slice(&size.to_le_bytes());
        central.extend_from_slice(&size.to_le_bytes());
        central.extend_from_slice(&(name.len() as u16).to_le_bytes());
        central.extend_from_slice(&0u16.to_le_bytes());
        central.extend_from_slice(&0u16.to_le_bytes());
        central.extend_from_slice(&0u16.to_le_bytes());
        central.extend_from_slice(&0u16.to_le_bytes());
        central.extend_from_slice(&0u32.to_le_bytes());
        central.extend_from_slice(&offsets[i].to_le_bytes());
        central.extend_from_slice(name.as_bytes());
    }
    let cd_offset = out.len() as u32;
    let cd_size = central.len() as u32;
    out.extend_from_slice(&central);
    out.extend_from_slice(&[0x50, 0x4b, 0x05, 0x06]);
    out.extend_from_slice(&0u16.to_le_bytes());
    out.extend_from_slice(&0u16.to_le_bytes());
    out.extend_from_slice(&(entries.len() as u16).to_le_bytes());
    out.extend_from_slice(&(entries.len() as u16).to_le_bytes());
    out.extend_from_slice(&cd_size.to_le_bytes());
    out.extend_from_slice(&cd_offset.to_le_bytes());
    out.extend_from_slice(&0u16.to_le_bytes());
    out
}

fn container_xml() -> &'static str {
    "<?xml version=\"1.0\"?>\n<container version=\"1.0\" xmlns=\"urn:oasis:names:tc:opendocument:xmlns:container\">\n<rootfiles>\n<rootfile full-path=\"content.opf\" media-type=\"application/oebps-package+xml\"/>\n</rootfiles>\n</container>"
}

fn build_epub(opf: &str, extra: &[(&str, &[u8])]) -> Vec<u8> {
    let container = container_xml();
    let mut entries: Vec<(&str, &[u8])> = Vec::new();
    entries.push(("META-INF/container.xml", container.as_bytes()));
    entries.push(("content.opf", opf.as_bytes()));
    for e in extra {
        entries.push(*e);
    }
    build_zip(&entries)
}

fn opf(title: &str, metadata_extra: &str, manifest_items: &str) -> String {
    format!(
        "<?xml version=\"1.0\" encoding=\"UTF-8\"?>\n<package xmlns=\"http://www.idpf.org/2007/opf\" xmlns:dc=\"http://purl.org/dc/elements/1.1/\" version=\"2.0\" unique-identifier=\"id\">\n<metadata>\n<dc:title>{}</dc:title>\n{}\n</metadata>\n<manifest>\n{}\n</manifest>\n<spine>\n</spine>\n</package>",
        title, metadata_extra, manifest_items
    )
}

const STD_COVER: &[u8] = b"JPEG-STANDARD-COVER";
const FLAT_COVER: &[u8] = b"JPEG-FLAT-COVER";
const INDIRECT_COVER: &[u8] = b"JPEG-INDIRECT-COVER";

/// An EPUB exposing only a standard-convention cover: the cover's manifest
/// id does not match the heuristic `cover` pattern at all.
fn epub_standard_cover() -> Vec<u8> {
    let opf = opf(
        "Standard Book",
        "<meta name=\"cover\" content=\"standardimage\"/>",
        "<item id=\"standardimage\" href=\"art.jpg\" media-type=\"image/jpeg\"/>",
    );
    build_epub(&opf, &[("art.jpg", STD_COVER)])
}

/// An EPUB with no standard cover declaration, exposing only a
/// `cover`-named jpeg resource.
fn epub_flat_cover() -> Vec<u8> {
    let opf = opf(
        "Flat Book",
        "",
        "<item id=\"mycoverpic\" href=\"pic.jpg\" media-type=\"image/jpeg\"/>",
    );
    build_epub(&opf, &[("pic.jpg", FLAT_COVER)])
}

/// An EPUB whose only `cover`-named resource is an XHTML wrapper embedding
/// `<img src="images/foo.jpg">`; the true image sits under the id `foo`.
fn epub_xhtml_cover() -> Vec<u8> {
    let page = "<html><head></head><body><div><img src=\"images/foo.jpg\"/></div></body></html>";
    let opf = opf(
        "Indirect Book",
        "",
        "<item id=\"cover\" href=\"cover.xhtml\" media-type=\"application/xhtml+xml\"/>\n<item id=\"foo\" href=\"images/foo.jpg\" media-type=\"image/jpeg\"/>",
    );
    build_epub(
        &opf,
        &[("cover.xhtml", page.as_bytes()), ("images/foo.jpg", INDIRECT_COVER)],
    )
}

/// An EPUB with no cover of any kind.
fn epub_no_cover(title: &str) -> Vec<u8> {
    let opf = opf(
        title,
        "",
        "<item id=\"page1\" href=\"page1.xhtml\" media-type=\"application/xhtml+xml\"/>",
    );
    build_epub(&opf, &[("page1.xhtml", b"<html><body></body></html>")])
}

#[test]
fn standard_cover_wins() {
    let bytes = epub_standard_cover();
    let mut file = EpubFile::from_bytes(bytes).expect("epub should open");
    let cover = get_book_cover_image(&mut file).expect("cover should resolve");
    assert_eq!(cover.0.as_slice(), STD_COVER);
    assert_eq!(cover.1, "image/jpeg");
}

#[test]
fn flat_resource_scan_finds_cover() {
    let bytes = epub_flat_cover();
    let mut file = EpubFile::from_bytes(bytes).expect("epub should open");
    let cover = get_book_cover_image(&mut file).expect("cover should resolve");
    assert_eq!(cover.0.as_slice(), FLAT_COVER);
}

#[test]
fn xhtml_indirection_resolves_stem() {
    let bytes = epub_xhtml_cover();
    let mut file = EpubFile::from_bytes(bytes).expect("epub should open");
    let cover = get_book_cover_image(&mut file).expect("cover should resolve");
    assert_eq!(cover.0.as_slice(), INDIRECT_COVER);
}

#[test]
fn unique_find_cover_skips_standard_accessor() {
    let bytes = epub_flat_cover();
    let mut file = EpubFile::from_bytes(bytes).expect("epub should open");
    let cover = unique_find_cover(&mut file).expect("heuristic scan should find the cover");
    assert_eq!(cover.0.as_slice(), FLAT_COVER);
}

#[test]
fn no_cover_yields_typed_failure() {
    let bytes = epub_no_cover("Bare Book");
    let mut file = EpubFile::from_bytes(bytes).expect("epub should open");
    let err = get_book_cover_image(&mut file).expect_err("no cover to find");
    assert_eq!(err, BookError::NoUniqueCover);
}

#[test]
fn no_cover_book_prepared_without_cover() {
    let bytes = epub_no_cover("Bare Book");
    let prepared = prepare_book(bytes, String::from("/books/bare.epub")).expect("valid epub");
    assert_eq!(prepared.title, "Bare Book");
    assert!(prepared.cover.is_none());
    let book = book_from_prepared(prepared, false);
    assert_eq!(book.get_title(), "Bare Book");
    assert_eq!(book.get_cover_filename("default.jpg"), "default.jpg");
}

#[test]
fn prepared_book_carries_sanitized_cover_name() {
    let page = "<html><body></body></html>";
    let opf = opf(
        "My Book: Part 2/3?",
        "<meta name=\"cover\" content=\"standardimage\"/>",
        "<item id=\"standardimage\" href=\"art.jpg\" media-type=\"image/jpeg\"/>",
    );
    let bytes = build_epub(&opf, &[("art.jpg", STD_COVER), ("page.xhtml", page.as_bytes())]);
    let prepared = prepare_book(bytes, String::from("/books/part2.epub")).expect("valid epub");
    assert_eq!(prepared.cover_name, "My Book_ Part 2_3_.jpg");
    let book = book_from_prepared(prepared, true);
    assert_eq!(book.get_cover_filename("default.jpg"), "My Book_ Part 2_3_.jpg");
    assert_eq!(
        book.get_cover_location("/cache/covers", "default.jpg"),
        "/cache/covers/My Book_ Part 2_3_.jpg"
    );
}

#[test]
fn corrupted_file_is_skipped_not_fatal() {
    let mut blobs: Vec<Vec<u8>> = Vec::new();
    for i in 0..5 {
        blobs.push(epub_no_cover(&format!("Book {}", i)));
    }
    blobs.push(b"this is not an epub at all".to_vec());
    let mut candidates = 0;
    for (i, blob) in blobs.into_iter().enumerate() {
        let location = format!("/books/{}.epub", i);
        if prepare_book(blob, location).is_some() {
            candidates += 1;
        }
    }
    assert_eq!(candidates, 5);
}

#[test]
fn opening_garbage_bytes_fails() {
    assert!(EpubFile::from_bytes(b"garbage".to_vec()).is_none());
}

#[test]
fn parentless_rootfile_is_rejected_not_fatal() {
    // A syntactically valid zip whose container declares a rootfile path
    // with no parent must be a skippable failure, not an abort.
    for bad_path in ["", "/", "C:\\"] {
        let container = format!(
            "<?xml version=\"1.0\"?>\n<container version=\"1.0\" xmlns=\"urn:oasis:names:tc:opendocument:xmlns:container\">\n<rootfiles>\n<rootfile full-path=\"{}\" media-type=\"application/oebps-package+xml\"/>\n</rootfiles>\n</container>",
            bad_path
        );
        let bytes = build_zip(&[("META-INF/container.xml", container.as_bytes())]);
        assert!(EpubFile::from_bytes(bytes.clone()).is_none());
        assert!(prepare_book(bytes, String::from("/books/evil.epub")).is_none());
    }
}

#[test]
fn book_locations_are_separator_normalized() {
    let bytes = epub_no_cover("Windows Book");
    let prepared =
        prepare_book(bytes, String::from("C:\\books\\win.epub")).expect("valid epub");
    assert_eq!(prepared.book_location, "C:/books/win.epub");
}

#[test]
fn missing_title_is_skipped() {
    let opf = "<?xml version=\"1.0\" encoding=\"UTF-8\"?>\n<package xmlns=\"http://www.idpf.org/2007/opf\" xmlns:dc=\"http://purl.org/dc/elements/1.1/\" version=\"2.0\">\n<metadata>\n</metadata>\n<manifest>\n</manifest>\n<spine>\n</spine>\n</package>";
    let bytes = build_epub(opf, &[]);
    assert!(EpubFile::from_bytes(bytes.clone()).is_some());
    assert!(prepare_book(bytes, String::from("/books/untitled.epub")).is_none());
}

#[test]
fn manifest_scan_through_real_patterns() {
    let bytes = epub_flat_cover();
    let file = EpubFile::from_bytes(bytes).expect("epub should open");
    let resources = file.resources();
    let key = regex_new("(?i)cover").expect("pattern compiles");
    let mime = regex_new("image/jpeg").expect("pattern compiles");
    let found = check_epub_resource(key, mime, &resources);
    assert_eq!(found.as_deref(), Some("mycoverpic"));

    let key2 = regex_new("(?i)cover").expect("pattern compiles");
    let xhtml = regex_new("application/xhtml\\+xml").expect("pattern compiles");
    assert!(check_epub_resource(key2, xhtml, &resources).is_none());
}

#[test]
fn mime_gate_excludes_non_jpeg_covers() {
    let opf = opf(
        "Png Book",
        "",
        "<item id=\"coverpic\" href=\"pic.png\" media-type=\"image/png\"/>",
    );
    let bytes = build_epub(&opf, &[("pic.png", b"PNGDATA")]);
    let mut file = EpubFile::from_bytes(bytes).expect("epub should open");
    let err = get_book_cover_image(&mut file).expect_err("png cover must not match");
    assert_eq!(err, BookError::NoUniqueCover);
}

#[test]
fn malformed_cover_page_reports_xml_error() {
    let opf = opf(
        "Broken Page Book",
        "",
        "<item id=\"cover\" href=\"cover.xhtml\" media-type=\"application/xhtml+xml\"/>",
    );
    let bytes = build_epub(&opf, &[("cover.xhtml", b"<html><body><img ")]);
    let mut file = EpubFile::from_bytes(bytes).expect("epub should open");
    let err = get_book_cover_image(&mut file).expect_err("page does not parse");
    assert_eq!(err, BookError::XmlParseError);
}

#[test]
fn missing_cover_page_reports_resource_not_found() {
    // The manifest declares the XHTML wrapper, but the archive lacks the file.
    let opf = opf(
        "Ghost Page Book",
        "",
        "<item id=\"cover\" href=\"cover.xhtml\" media-type=\"application/xhtml+xml\"/>",
    );
    let bytes = build_epub(&opf, &[]);
    let mut file = EpubFile::from_bytes(bytes).expect("epub should open");
    let err = get_book_cover_image(&mut file).expect_err("page is missing");
    assert_eq!(err, BookError::ResourceNotFound);
}

#[test]
fn missing_image_file_reports_bad_cover_data() {
    // The wrapper resolves to the `foo` entry, but its image file is absent.
    let page = "<html><body><img src=\"images/foo.jpg\"/></body></html>";
    let opf = opf(
        "Ghost Image Book",
        "",
        "<item id=\"cover\" href=\"cover.xhtml\" media-type=\"application/xhtml+xml\"/>\n<item id=\"foo\" href=\"images/foo.jpg\" media-type=\"image/jpeg\"/>",
    );
    let bytes = build_epub(&opf, &[("cover.xhtml", page.as_bytes())]);
    let mut file = EpubFile::from_bytes(bytes).expect("epub should open");
    let err = get_book_cover_image(&mut file).expect_err("image is missing");
    assert_eq!(err, BookError::BadCoverData);
}

#[test]
fn wrapper_without_embedded_image_finds_no_cover() {
    let page = "<html><body><p>no picture here</p></body></html>";
    let opf = opf(
        "Pictureless Book",
        "",
        "<item id=\"cover\" href=\"cover.xhtml\" media-type=\"application/xhtml+xml\"/>",
    );
    let bytes = build_epub(&opf, &[("cover.xhtml", page.as_bytes())]);
    let mut file = EpubFile::from_bytes(bytes).expect("epub should open");
    let err = get_book_cover_image(&mut file).expect_err("nothing to resolve");
    assert_eq!(err, BookError::NoUniqueCover);
}

#[test]
fn first_sync_inserts_all_second_sync_inserts_nothing() {
    let titles = ["A", "B", "C"];
    let mut worker = BookWorker::new(Vec::new(), BookCache::new(None));

    let mut candidates: Vec<shelf::book_item::Book> = Vec::new();
    for (i, t) in titles.iter().enumerate() {
        let bytes = epub_no_cover(t);
        let prepared = prepare_book(bytes, format!("/books/{}.epub", i)).expect("valid epub");
        candidates.push(book_from_prepared(prepared, false));
    }
    let inserted = worker.update_books(candidates, Some(Vec::new()));
    assert_eq!(inserted.len(), 3);
    let first_catalog: Vec<String> = worker
        .get_book_cache()
        .get_books()
        .expect("catalog loaded")
        .iter()
        .map(|b| b.get_title().clone())
        .collect();
    assert_eq!(first_catalog, vec!["A", "B", "C"]);

    let mut candidates2: Vec<shelf::book_item::Book> = Vec::new();
    for (i, t) in titles.iter().enumerate() {
        let bytes = epub_no_cover(t);
        let prepared = prepare_book(bytes, format!("/books/{}.epub", i)).expect("valid epub");
        candidates2.push(book_from_prepared(prepared, false));
    }
    let inserted2 = worker.update_books(candidates2, Some(inserted));
    assert_eq!(inserted2.len(), 0);
    let second_catalog: Vec<String> = worker
        .get_book_cache()
        .get_books()
        .expect("catalog loaded")
        .iter()
        .map(|b| b.get_title().clone())
        .collect();
    assert_eq!(second_catalog, first_catalog);
}
