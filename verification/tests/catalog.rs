//! Catalog synchronization, lookup, settings and utility behavior.

use shelf::book_item::{Book, BookCache};
use shelf::book_worker::{
    get_dump_json_path, get_settings_path, is_epub_path, parse_settings, render_settings,
    settings_vec_insert, BookWorker,
};
use shelf::bookio::{create_book_vec, sort_books_by_title, BookError};
use shelf::database::{append_date_to_filename, check_db_health, current_datestamp};
use shelf::shelf::shelf_settings_values;
use shelf::util::{
    base64_encode_data, chunk_binary_search_index, chunk_binary_search_index_load, compare_strs,
    join_path, normalize_path_separators, sanitize_windows_filename, str_eq, TitleOrder,
};
use shelf::xml::{extract_image_source, parse_xml};

fn book(title: &str, location: &str) -> Book {
    Book::new(None, String::from(location), String::from(title))
}

#[test]
fn sanitize_replaces_windows_reserved_characters() {
    assert_eq!(
        sanitize_windows_filename(String::from("My Book: Part 2/3?.jpg")),
        "My Book_ Part 2_3_.jpg"
    );
    assert_eq!(
        sanitize_windows_filename(String::from("<>:\"/\\|?*")),
        "_________"
    );
    assert_eq!(sanitize_windows_filename(String::from("plain.jpg")), "plain.jpg");
}

#[test]
fn update_books_inserts_only_new_titles() {
    let mut worker = BookWorker::new(Vec::new(), BookCache::new(None));
    let first = worker.update_books(
        vec![book("Dune", "/books/dune.epub"), book("Emma", "/books/emma.epub")],
        Some(Vec::new()),
    );
    assert_eq!(first.len(), 2);

    // A freshly scanned "Dune" from another path must not be inserted again.
    let second = worker.update_books(
        vec![book("Dune", "/elsewhere/dune-copy.epub")],
        None,
    );
    assert_eq!(second.len(), 0);
    assert_eq!(worker.get_book_cache().get_book_amount(), 2);
}

#[test]
fn update_books_is_idempotent_without_changes() {
    let mut worker = BookWorker::new(Vec::new(), BookCache::new(None));
    let cands = || vec![book("A", "/b/a.epub"), book("B", "/b/b.epub")];
    let first = worker.update_books(cands(), Some(Vec::new()));
    assert_eq!(first.len(), 2);
    let titles_after_first: Vec<String> = worker
        .get_book_cache()
        .get_books()
        .unwrap()
        .iter()
        .map(|b| b.get_title().clone())
        .collect();

    let second = worker.update_books(cands(), None);
    assert_eq!(second.len(), 0);
    let titles_after_second: Vec<String> = worker
        .get_book_cache()
        .get_books()
        .unwrap()
        .iter()
        .map(|b| b.get_title().clone())
        .collect();
    assert_eq!(titles_after_first, titles_after_second);
}

#[test]
fn find_by_title_returns_exact_match() {
    let cache = BookCache::new(Some(vec![
        book("Dune", "/books/dune.epub"),
        book("Emma", "/books/emma.epub"),
    ]));
    let found = cache.find_by_title("Emma").expect("title present");
    assert_eq!(found.get_book_location(), "/books/emma.epub");
    assert!(cache.find_by_title("emma").is_none());
    assert!(cache.find_by_title("Missing").is_none());
}

#[test]
fn empty_cache_counts_zero_books() {
    let cache = BookCache::new(None);
    assert_eq!(cache.get_book_amount(), 0);
    assert!(cache.get_books().is_none());
    assert!(cache.find_by_title("anything").is_none());
}

#[test]
fn needs_sync_follows_the_size_heuristic() {
    let mut worker = BookWorker::new(Vec::new(), BookCache::new(None));
    assert!(worker.needs_sync(1));
    assert!(!worker.needs_sync(0));
    worker.update_book_cache(Some(vec![book("A", "/a"), book("B", "/b")]));
    assert!(!worker.needs_sync(2));
    assert!(worker.needs_sync(3));
}

#[test]
fn worker_reset_clears_catalog_and_restores_defaults() {
    let mut worker = BookWorker::new(
        vec![(String::from("book_location"), String::from("/books"))],
        BookCache::new(Some(vec![book("A", "/a")])),
    );
    worker.reset();
    assert_eq!(worker.get_book_cache().get_book_amount(), 0);
    assert_eq!(worker.get_setting("book_location").as_deref(), Some("unset"));
    assert_eq!(worker.get_setting("endless_scroll").as_deref(), Some("false"));
    assert_eq!(worker.get_setting("cover_background").as_deref(), Some("false"));
}

#[test]
fn settings_update_and_lookup() {
    let mut worker = BookWorker::new(Vec::new(), BookCache::new(None));
    assert!(worker.get_setting("book_location").is_none());
    worker.update_application_setting(String::from("book_location"), String::from("/books"));
    assert_eq!(worker.get_setting("book_location").as_deref(), Some("/books"));
    worker.update_application_setting(String::from("book_location"), String::from("/other"));
    assert_eq!(worker.get_setting("book_location").as_deref(), Some("/other"));
    assert_eq!(worker.get_application_settings().len(), 1);
}

#[test]
fn shelf_settings_values_lists_the_defaults() {
    let defaults = shelf_settings_values();
    assert_eq!(defaults.len(), 3);
    assert_eq!(defaults[0].0, "BOOK_LOCATION");
    assert_eq!(defaults[0].1 .0, "book_location");
    assert_eq!(defaults[0].1 .1, "unset");
    assert_eq!(defaults[1].1 .0, "endless_scroll");
    assert_eq!(defaults[2].1 .0, "cover_background");
}

#[test]
fn parse_settings_reads_key_value_lines() {
    let parsed = parse_settings("book_location=/books\nendless_scroll=false\n");
    assert_eq!(parsed.len(), 2);
    assert_eq!(parsed[0].0, "book_location");
    assert_eq!(parsed[0].1, "/books");
    assert_eq!(parsed[1].0, "endless_scroll");
    assert_eq!(parsed[1].1, "false");
}

#[test]
fn parse_settings_skips_malformed_lines_and_strips_cr() {
    let parsed = parse_settings("a=1\r\nnot a pair\nb=2=3\nc=4");
    assert_eq!(parsed.len(), 2);
    assert_eq!(parsed[0].0, "a");
    assert_eq!(parsed[0].1, "1");
    assert_eq!(parsed[1].0, "c");
    assert_eq!(parsed[1].1, "4");
}

#[test]
fn parse_settings_last_assignment_wins() {
    let parsed = parse_settings("a=1\na=2\n");
    assert_eq!(parsed.len(), 1);
    assert_eq!(parsed[0].1, "2");
}

#[test]
fn render_settings_round_trips_through_parse() {
    let mut settings: Vec<(String, String)> = Vec::new();
    settings_vec_insert(&mut settings, String::from("a"), String::from("1"));
    settings_vec_insert(&mut settings, String::from("b"), String::from("2"));
    let text = render_settings(&settings);
    assert_eq!(text, "a=1\nb=2\n");
    let parsed = parse_settings(&text);
    assert_eq!(parsed, settings);
}

#[test]
fn settings_paths_are_joined() {
    assert_eq!(get_settings_path("/cfg/shelf", "shelf.conf"), "/cfg/shelf/shelf.conf");
    assert_eq!(get_dump_json_path("/cache", "backup.json"), "/cache/backup.json");
    assert_eq!(join_path("/a", "b.txt"), "/a/b.txt");
}

#[test]
fn is_epub_path_checks_the_extension() {
    assert!(is_epub_path("/books/dune.epub"));
    assert!(!is_epub_path("/books/dune.EPUB"));
    assert!(!is_epub_path("/books/dune.pdf"));
    assert!(!is_epub_path(".epub"));
    // A hidden file named exactly `.epub` has no extension.
    assert!(!is_epub_path("/books/.epub"));
}

#[test]
fn path_separators_normalize_to_slashes() {
    assert_eq!(normalize_path_separators("C:\\books\\a.epub"), "C:/books/a.epub");
    assert_eq!(normalize_path_separators("/already/fine.epub"), "/already/fine.epub");
    assert_eq!(normalize_path_separators(""), "");
}

#[test]
fn backup_prefers_the_loaded_catalog() {
    let loaded = BookWorker::new(Vec::new(), BookCache::new(Some(vec![book("A", "/a")])));
    let dump = loaded.backup_source(Some(vec![book("B", "/b")])).expect("catalog loaded");
    assert_eq!(dump.len(), 1);
    assert_eq!(dump[0].get_title(), "A");

    let empty = BookWorker::new(Vec::new(), BookCache::new(None));
    let from_store = empty.backup_source(Some(vec![book("B", "/b")])).expect("store books");
    assert_eq!(from_store[0].get_title(), "B");
    assert!(empty.backup_source(None).is_none());
}

#[test]
fn db_health_requires_existing_nonempty_file() {
    assert!(check_db_health(true, 4096));
    assert!(!check_db_health(true, 0));
    assert!(!check_db_health(false, 4096));
}

#[test]
fn date_is_stamped_before_the_extension() {
    assert_eq!(
        append_date_to_filename("backup.json", "20260101"),
        "backup_20260101.json"
    );
    assert_eq!(append_date_to_filename("backup", "20260101"), "backup_20260101");
    assert_eq!(
        append_date_to_filename("a.b/backup", "20260101"),
        "a_20260101.b/backup"
    );
}

#[test]
fn current_datestamp_is_eight_digits() {
    let stamp = current_datestamp();
    assert_eq!(stamp.len(), 8);
    assert!(stamp.chars().all(|c| c.is_ascii_digit()));
}

#[test]
fn base64_encodes_standard_alphabet_with_padding() {
    assert_eq!(base64_encode_data(&b"hi".to_vec()), "aGk=");
    assert_eq!(base64_encode_data(&b"shelf".to_vec()), "c2hlbGY=");
    assert_eq!(base64_encode_data(&Vec::new()), "");
}

#[test]
fn string_comparison_orders_lexicographically() {
    assert_eq!(compare_strs("abc", "abc"), TitleOrder::Equal);
    assert_eq!(compare_strs("abc", "abd"), TitleOrder::Less);
    assert_eq!(compare_strs("abd", "abc"), TitleOrder::Greater);
    assert_eq!(compare_strs("ab", "abc"), TitleOrder::Less);
    assert_eq!(compare_strs("abc", "ab"), TitleOrder::Greater);
    assert!(str_eq("same", "same"));
    assert!(!str_eq("same", "same "));
}

#[test]
fn create_book_vec_drops_failures_and_sorts() {
    let items = vec![
        Some(book("Charlie", "/c")),
        None,
        Some(book("Alpha", "/a")),
        Some(book("Bravo", "/b")),
        None,
    ];
    let books = create_book_vec(items);
    let titles: Vec<String> = books.iter().map(|b| b.get_title().clone()).collect();
    assert_eq!(titles, vec!["Alpha", "Bravo", "Charlie"]);
}

#[test]
fn sort_is_stable_on_ties_by_content() {
    let books = sort_books_by_title(vec![
        book("B", "/1"),
        book("A", "/2"),
        book("B", "/3"),
        book("A", "/4"),
    ]);
    let titles: Vec<String> = books.iter().map(|b| b.get_title().clone()).collect();
    assert_eq!(titles, vec!["A", "A", "B", "B"]);
}

#[test]
fn chunk_search_finds_present_titles() {
    let dataset = vec![
        book("Anna", "/1"),
        book("Apple", "/2"),
        book("Bed", "/3"),
        book("Bone", "/4"),
        book("Cat", "/5"),
    ];
    let idx = chunk_binary_search_index_load(&dataset, &String::from("Bone"))
        .expect("chunk exists");
    assert_eq!(idx, 3);
    let idx2 = chunk_binary_search_index_load(&dataset, &String::from("Anna"))
        .expect("chunk exists");
    assert_eq!(idx2, 0);
    assert!(chunk_binary_search_index_load(&dataset, &String::from("Zoo")).is_none());
    // A key sharing a first letter but matching no title is still a miss.
    assert!(chunk_binary_search_index_load(&dataset, &String::from("Ant")).is_none());
}

#[test]
fn chunk_insert_position_respects_order() {
    let dataset = vec![book("Anna", "/1"), book("Apple", "/2"), book("Cat", "/3")];
    // Present titles are never inserted twice.
    assert!(chunk_binary_search_index(&dataset, &String::from("Apple")).is_none());
    // A new title within an existing chunk lands between its neighbors.
    let pos = chunk_binary_search_index(&dataset, &String::from("Ant")).expect("insertable");
    assert_eq!(pos, 1);
    // A title opening a new chunk goes to the end.
    assert_eq!(
        chunk_binary_search_index(&dataset, &String::from("Dog")),
        Some(3)
    );
}

#[test]
fn book_error_messages() {
    assert_eq!(BookError::NoUniqueCover.message(), "Unique cover not found.");
    assert_eq!(BookError::XmlParseError.message(), "Failed to parse XML.");
}

#[test]
fn xml_image_stem_extraction() {
    let page = b"<html><body><p>text</p><img src=\"images/foo.jpg\"/></body></html>";
    let root = parse_xml(page).expect("well-formed");
    assert_eq!(extract_image_source(&root).as_deref(), Some("foo"));

    let nested = b"<html><body><div><div><img src=\"a/b/c.d.png\"/></div></div></body></html>";
    let root2 = parse_xml(nested).expect("well-formed");
    assert_eq!(extract_image_source(&root2).as_deref(), Some("c.d"));

    let no_img = b"<html><body><p>nothing</p></body></html>";
    let root3 = parse_xml(no_img).expect("well-formed");
    assert!(extract_image_source(&root3).is_none());

    let bad_src = b"<html><body><img src=\"noslashordot\"/></body></html>";
    let root4 = parse_xml(bad_src).expect("well-formed");
    assert!(extract_image_source(&root4).is_none());

    assert!(parse_xml(b"<unclosed").is_none());
}

#[test]
fn cover_locations_resolve_against_directories() {
    let with_cover = Book::new(
        Some(String::from("Dune.jpg")),
        String::from("/books/dune.epub"),
        String::from("Dune"),
    );
    assert_eq!(
        with_cover.get_cover_location("/cache/covers", "default.jpg"),
        "/cache/covers/Dune.jpg"
    );
    assert_eq!(with_cover.get_cover_filename("default.jpg"), "Dune.jpg");

    let without = book("Emma", "/books/emma.epub");
    assert_eq!(without.get_cover_location("/cache/covers", "default.jpg"), "default.jpg");
}
