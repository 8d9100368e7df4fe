//! The built-in application settings: each setting's display name, its
//! store key, and its default value.

use vstd::prelude::*;

verus! {

/// The settings the application knows, as
/// `(display name, (store key, default value))` triples: the watched book
/// directory (unset until the user picks one), endless scrolling, and
/// cover-image backgrounds (both off by default).
pub fn shelf_settings_values() -> (r: Vec<(String, (String, String))>)
    ensures
        r.deep_view() == seq![
            ("BOOK_LOCATION"@, ("book_location"@, "unset"@)),
            ("ENDLESS_SCROLL"@, ("endless_scroll"@, "false"@)),
            ("COVER_BACKGROUND"@, ("cover_background"@, "false"@)),
        ],
{
    let mut r: Vec<(String, (String, String))> = Vec::new();
    r.push(
        (
            String::from_str("BOOK_LOCATION"),
            (String::from_str("book_location"), String::from_str("unset")),
        ),
    );
    r.push(
        (
            String::from_str("ENDLESS_SCROLL"),
            (String::from_str("endless_scroll"), String::from_str("false")),
        ),
    );
    r.push(
        (
            String::from_str("COVER_BACKGROUND"),
            (String::from_str("cover_background"), String::from_str("false")),
        ),
    );
    proof {
        assert(r.deep_view() =~= seq![
            ("BOOK_LOCATION"@, ("book_location"@, "unset"@)),
            ("ENDLESS_SCROLL"@, ("endless_scroll"@, "false"@)),
            ("COVER_BACKGROUND"@, ("cover_background"@, "false"@)),
        ]);
    }
    r
}

} // verus!
