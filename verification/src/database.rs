//! Catalog-store support: the store health check and the date-stamping of
//! backup filenames used by the JSON backup/restore recovery path.

use crate::util::{find_last_char, last_index_of, lemma_last_index_of_bounds};
use vstd::prelude::*;

verus! {

/// Whether the catalog store is considered healthy, judged from its database
/// file: the file must exist and must not be empty. An unhealthy store
/// triggers the backup-and-replay repair path.
pub fn check_db_health(db_file_exists: bool, db_file_size: u64) -> (r: bool)
    ensures
        r == (db_file_exists && db_file_size != 0),
{
    db_file_exists && db_file_size != 0
}

/// Today's date as the eight digits `YYYYMMDD`. Relies on
/// time::OffsetDateTime::now_utc (the clock; nothing can be promised of its
/// value) formatted through time's `[year][month][day]` description.
#[verifier::external_body]
pub fn current_datestamp() -> String {
    let format = time::format_description::parse("[year][month][day]");
    match format {
        Ok(f) => time::OffsetDateTime::now_utc().format(&f).unwrap_or(String::new()),
        Err(_) => String::new(),
    }
}

/// What date-stamping does to a filename: the stamp goes in front of the
/// extension (the last `.`), or at the end when there is no extension, set
/// off by an underscore.
pub open spec fn date_stamped(path: Seq<char>, stamp: Seq<char>) -> Seq<char> {
    match last_index_of(path, '.') {
        Some(dot) => path.subrange(0, dot) + "_"@ + stamp + path.subrange(dot, path.len() as int),
        None => path + "_"@ + stamp,
    }
}

/// Inserts a date stamp into a backup filename, in front of its extension,
/// so that successive backups rotate instead of overwriting one another.
pub fn append_date_to_filename(file_path: &str, datestamp: &str) -> (r: String)
    ensures
        r@ == date_stamped(file_path@, datestamp@),
{
    let n = file_path.unicode_len();
    let mut out = String::new();
    match find_last_char(file_path, '.') {
        Some(dot) => {
            proof {
                lemma_last_index_of_bounds(file_path@, '.');
            }
            out.append(file_path.substring_char(0, dot));
            out.append("_");
            out.append(datestamp);
            out.append(file_path.substring_char(dot, n));
            proof {
                assert(out@ =~= date_stamped(file_path@, datestamp@));
            }
        },
        None => {
            out.append(file_path);
            out.append("_");
            out.append(datestamp);
            proof {
                assert(out@ =~= date_stamped(file_path@, datestamp@));
            }
        },
    }
    out
}

} // verus!
