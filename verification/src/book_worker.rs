//! The catalog synchronizer: owns the in-memory catalog and the application
//! settings for one session, and decides which freshly scanned books are new.
//!
//! The worker never touches the filesystem or the catalog store itself; the
//! surrounding application lists directories, queries the store, and hands
//! the results in as plain values. Every decision — which candidates are
//! duplicates, what the merged catalog looks like, which settings change —
//! is made here.

use crate::book_item::{has_title, Book, BookCache, BookView};
use vstd::prelude::*;

verus! {

/// The candidates of `cands` whose titles do not already occur in `cur`,
/// in order.
pub open spec fn filter_new_books(cands: Seq<BookView>, cur: Seq<BookView>) -> Seq<BookView>
    decreases cands.len(),
{
    if cands.len() == 0 {
        Seq::empty()
    } else {
        let rest = filter_new_books(cands.drop_last(), cur);
        if has_title(cur, cands.last().title) {
            rest
        } else {
            rest.push(cands.last())
        }
    }
}

/// Which candidates count as new: all of them when there is no current
/// catalog to compare against, otherwise those whose title is absent from it.
pub open spec fn unique_new_books(cands: Seq<BookView>, current: Option<Seq<BookView>>) -> Seq<
    BookView,
> {
    match current {
        None => cands,
        Some(cur) => filter_new_books(cands, cur),
    }
}

/// The catalog after a successful merge: the previous books (none, when no
/// catalog was loaded) followed by the inserted ones.
pub open spec fn merged_catalog(old_books: Option<Seq<BookView>>, inserted: Seq<BookView>) -> Seq<
    BookView,
> {
    match old_books {
        None => inserted,
        Some(b) => b + inserted,
    }
}

/// Every book kept by `filter_new_books` comes from `cands` and its title is
/// absent from `cur`; and every candidate whose title is absent from `cur` is
/// kept.
pub proof fn lemma_filter_new_books_titles(cands: Seq<BookView>, cur: Seq<BookView>)
    ensures
        forall|i: int|
            0 <= i < filter_new_books(cands, cur).len() ==> !has_title(
                cur,
                #[trigger] filter_new_books(cands, cur)[i].title,
            ),
        forall|i: int|
            0 <= i < cands.len() && !has_title(cur, #[trigger] cands[i].title) ==> has_title(
                filter_new_books(cands, cur),
                cands[i].title,
            ),
    decreases cands.len(),
{
    if cands.len() > 0 {
        lemma_filter_new_books_titles(cands.drop_last(), cur);
        let rest = filter_new_books(cands.drop_last(), cur);
        let whole = filter_new_books(cands, cur);
        assert forall|i: int|
            0 <= i < cands.len() && !has_title(cur, #[trigger] cands[i].title) implies has_title(
            whole,
            cands[i].title,
        ) by {
            if i < cands.len() - 1 {
                assert(cands.drop_last()[i] == cands[i]);
                let j = choose|j: int| 0 <= j < rest.len() && rest[j].title == cands[i].title;
                assert(whole[j].title == cands[i].title);
            } else {
                assert(!has_title(cur, cands.last().title));
                assert(whole.last() == cands.last());
                assert(whole[whole.len() - 1].title == cands[i].title);
            }
        }
    }
}

/// No book whose title is already in the catalog is ever selected for
/// insertion: inserting is filtered by title equality alone, whatever the
/// book's file path.
pub proof fn lemma_no_duplicate_insertion(cands: Seq<BookView>, cur: Seq<BookView>, t: Seq<char>)
    requires
        has_title(cur, t),
    ensures
        !has_title(filter_new_books(cands, cur), t),
    decreases cands.len(),
{
    if cands.len() > 0 {
        lemma_no_duplicate_insertion(cands.drop_last(), cur, t);
    }
}

/// Synchronizing twice in a row against the same candidate set is idempotent:
/// after the first merge, a second pass selects nothing new and leaves the
/// catalog exactly as the first pass left it.
pub proof fn lemma_sync_idempotent(cands: Seq<BookView>, catalog: Seq<BookView>)
    ensures
        ({
            let first_new = unique_new_books(cands, Some(catalog));
            let merged = merged_catalog(Some(catalog), first_new);
            let second_new = unique_new_books(cands, Some(merged));
            &&& second_new.len() == 0
            &&& merged_catalog(Some(merged), second_new) =~= merged
        }),
{
    let first_new = unique_new_books(cands, Some(catalog));
    let merged = merged_catalog(Some(catalog), first_new);
    lemma_filter_new_books_titles(cands, catalog);
    assert forall|i: int| 0 <= i < cands.len() implies has_title(
        merged,
        #[trigger] cands[i].title,
    ) by {
        if has_title(catalog, cands[i].title) {
            let j = choose|j: int| 0 <= j < catalog.len() && catalog[j].title == cands[i].title;
            assert(merged[j].title == cands[i].title);
        } else {
            assert(has_title(first_new, cands[i].title));
            let j = choose|j: int|
                0 <= j < first_new.len() && first_new[j].title == cands[i].title;
            assert(merged[catalog.len() + j].title == cands[i].title);
        }
    }
    lemma_filter_all_present(cands, merged);
}

/// When every candidate's title is already in `cur`, nothing is selected.
proof fn lemma_filter_all_present(cands: Seq<BookView>, cur: Seq<BookView>)
    requires
        forall|i: int| 0 <= i < cands.len() ==> has_title(cur, #[trigger] cands[i].title),
    ensures
        filter_new_books(cands, cur).len() == 0,
    decreases cands.len(),
{
    if cands.len() > 0 {
        assert(cands.last() == cands[cands.len() - 1]);
        assert forall|i: int| 0 <= i < cands.drop_last().len() implies has_title(
            cur,
            #[trigger] cands.drop_last()[i].title,
        ) by {
            assert(cands.drop_last()[i] == cands[i]);
        }
        lemma_filter_all_present(cands.drop_last(), cur);
    }
}

/// True when some title of `books` equals `title`; the executable side of
/// `has_title`.
pub fn books_contain_title(books: &Vec<Book>, title: &str) -> (r: bool)
    ensures
        r == has_title(books.deep_view(), title@),
{
    let ghost s = books.deep_view();
    let n = books.len();
    let mut i: usize = 0;
    while i < n
        invariant
            n == books.len(),
            s == books.deep_view(),
            i <= n,
            forall|j: int| 0 <= j < i ==> s[j].title != title@,
        decreases n - i,
    {
        if crate::util::str_eq(books[i].get_title().as_str(), title) {
            proof {
                assert(books[i as int]@ == s[i as int]);
            }
            return true;
        }
        i = i + 1;
    }
    false
}

/// A copy of `books` with the same mathematical contents.
pub fn clone_books(books: &Vec<Book>) -> (r: Vec<Book>)
    ensures
        r.deep_view() == books.deep_view(),
{
    let ghost s = books.deep_view();
    let n = books.len();
    let mut out: Vec<Book> = Vec::new();
    let mut i: usize = 0;
    while i < n
        invariant
            n == books.len(),
            s == books.deep_view(),
            i <= n,
            out.deep_view() =~= s.subrange(0, i as int),
        decreases n - i,
    {
        let b = books[i].clone();
        let ghost prev = out;
        proof {
            assert(books[i as int]@ == s[i as int]);
        }
        out.push(b);
        proof {
            crate::book_item::lemma_books_deep_view_push(prev, out, b);
            assert(out.deep_view() =~= s.subrange(0, i + 1));
        }
        i = i + 1;
    }
    proof {
        assert(s.subrange(0, n as int) =~= s);
    }
    out
}

/// The settings store after assigning `value` to `name`: the first pair
/// carrying `name` is replaced, or the pair is appended when `name` is new.
pub open spec fn settings_insert(
    s: Seq<(Seq<char>, Seq<char>)>,
    name: Seq<char>,
    value: Seq<char>,
) -> Seq<(Seq<char>, Seq<char>)>
    decreases s.len(),
{
    if s.len() == 0 {
        seq![(name, value)]
    } else if s[0].0 == name {
        seq![(name, value)] + s.drop_first()
    } else {
        seq![s[0]] + settings_insert(s.drop_first(), name, value)
    }
}

/// The value stored under `name`, if any: the first pair carrying `name`
/// decides.
pub open spec fn settings_lookup(s: Seq<(Seq<char>, Seq<char>)>, name: Seq<char>) -> Option<
    Seq<char>,
>
    decreases s.len(),
{
    if s.len() == 0 {
        None
    } else if s[0].0 == name {
        Some(s[0].1)
    } else {
        settings_lookup(s.drop_first(), name)
    }
}

/// When the first pair named `n` sits at position `k`, inserting rewrites
/// exactly that position.
proof fn lemma_settings_insert_at(
    s: Seq<(Seq<char>, Seq<char>)>,
    n: Seq<char>,
    v: Seq<char>,
    k: int,
)
    requires
        0 <= k < s.len(),
        s[k].0 == n,
        forall|j: int| 0 <= j < k ==> s[j].0 != n,
    ensures
        settings_insert(s, n, v) =~= s.update(k, (n, v)),
    decreases k,
{
    if k == 0 {
        assert(settings_insert(s, n, v) =~= s.update(0, (n, v)));
    } else {
        assert(s[0].0 != n);
        assert(s.drop_first()[k - 1].0 == n);
        assert forall|j: int| 0 <= j < k - 1 implies s.drop_first()[j].0 != n by {
            assert(s.drop_first()[j] == s[j + 1]);
        }
        lemma_settings_insert_at(s.drop_first(), n, v, k - 1);
    }
}

/// When no pair is named `n`, inserting appends.
proof fn lemma_settings_insert_absent(s: Seq<(Seq<char>, Seq<char>)>, n: Seq<char>, v: Seq<char>)
    requires
        forall|j: int| 0 <= j < s.len() ==> s[j].0 != n,
    ensures
        settings_insert(s, n, v) =~= s.push((n, v)),
    decreases s.len(),
{
    if s.len() > 0 {
        assert forall|j: int| 0 <= j < s.drop_first().len() implies s.drop_first()[j].0 != n by {
            assert(s.drop_first()[j] == s[j + 1]);
        }
        lemma_settings_insert_absent(s.drop_first(), n, v);
    }
}

/// Updating one slot of a vector of string pairs updates the same slot of its
/// deep view.
proof fn lemma_pairs_deep_view_update(
    v1: Vec<(String, String)>,
    v2: Vec<(String, String)>,
    i: int,
    p: (String, String),
)
    requires
        0 <= i < v1@.len(),
        v2@ == v1@.update(i, p),
    ensures
        v2.deep_view() == v1.deep_view().update(i, (p.0@, p.1@)),
{
    assert forall|j: int| 0 <= j < v2@.len() implies v2.deep_view()[j] == v1.deep_view().update(
        i,
        (p.0@, p.1@),
    )[j] by {
        if j != i {
            assert(v2@[j] == v1@[j]);
            assert(v1.deep_view()[j] == v1@[j].deep_view());
        } else {
            assert(v2@[j] == p);
        }
    }
    assert(v2.deep_view() =~= v1.deep_view().update(i, (p.0@, p.1@)));
}

/// Pushing a string pair onto a vector pushes its views onto the deep view.
proof fn lemma_pairs_deep_view_push(
    v1: Vec<(String, String)>,
    v2: Vec<(String, String)>,
    p: (String, String),
)
    requires
        v2@ == v1@.push(p),
    ensures
        v2.deep_view() == v1.deep_view().push((p.0@, p.1@)),
{
    assert forall|j: int| 0 <= j < v2@.len() implies v2.deep_view()[j] == v1.deep_view().push(
        (p.0@, p.1@),
    )[j] by {
        if j < v1@.len() {
            assert(v2@[j] == v1@[j]);
            assert(v1.deep_view()[j] == v1@[j].deep_view());
        } else {
            assert(v2@[j] == p);
        }
    }
    assert(v2.deep_view() =~= v1.deep_view().push((p.0@, p.1@)));
}

/// The first position of `c` in `s`, if any.
pub open spec fn find_char(s: Seq<char>, c: char) -> Option<int>
    decreases s.len(),
{
    if s.len() == 0 {
        None
    } else if s[0] == c {
        Some(0)
    } else {
        match find_char(s.drop_first(), c) {
            Some(i) => Some(i + 1),
            None => None,
        }
    }
}

/// `find_char` returns exactly the first occurrence.
pub proof fn lemma_find_char(s: Seq<char>, c: char)
    ensures
        (find_char(s, c) is None) <==> (forall|j: int| 0 <= j < s.len() ==> s[j] != c),
        find_char(s, c) matches Some(i) ==> 0 <= i < s.len() && s[i] == c && (forall|j: int|
            0 <= j < i ==> s[j] != c),
    decreases s.len(),
{
    if s.len() > 0 && s[0] != c {
        lemma_find_char(s.drop_first(), c);
        assert forall|j: int| 0 <= j < s.drop_first().len() implies s.drop_first()[j]
            == s[j + 1] by {}
        match find_char(s.drop_first(), c) {
            None => {
                assert forall|j: int| 0 <= j < s.len() implies s[j] != c by {
                    if j > 0 {
                        assert(s.drop_first()[j - 1] == s[j]);
                    }
                }
            },
            Some(k) => {
                assert(s.drop_first()[k] == s[k + 1]);
                assert forall|j: int| 0 <= j < k + 1 implies s[j] != c by {
                    if j > 0 {
                        assert(s.drop_first()[j - 1] == s[j]);
                    }
                }
            },
        }
    }
}

/// A line with its trailing carriage return removed, as the line reader
/// strips one before each newline.
pub open spec fn strip_cr(l: Seq<char>) -> Seq<char> {
    if l.len() > 0 && l.last() == '\r' {
        l.drop_last()
    } else {
        l
    }
}

/// The lines of a settings file: split on `\n`, each stripped of one
/// trailing `\r`; a final fragment without a newline still counts.
pub open spec fn lines_of(s: Seq<char>) -> Seq<Seq<char>>
    decreases s.len(),
{
    if s.len() == 0 {
        Seq::empty()
    } else {
        match find_char(s, '\n') {
            Some(i) => if 0 <= i < s.len() {
                seq![strip_cr(s.subrange(0, i))] + lines_of(s.subrange(i + 1, s.len() as int))
            } else {
                // a found position always lies in range; see lemma_find_char
                seq![s]
            },
            None => seq![s],
        }
    }
}

/// What one settings line means: a `name=value` pair exactly when the line
/// holds exactly one `=`.
pub open spec fn parse_line(l: Seq<char>) -> Option<(Seq<char>, Seq<char>)> {
    match find_char(l, '=') {
        Some(i) => {
            let value = l.subrange(i + 1, l.len() as int);
            if find_char(value, '=') is None {
                Some((l.subrange(0, i), value))
            } else {
                None
            }
        },
        None => None,
    }
}

/// Folds settings lines into a store, first line first; an ill-formed line
/// changes nothing.
pub open spec fn settings_fold(
    start: Seq<(Seq<char>, Seq<char>)>,
    lines: Seq<Seq<char>>,
) -> Seq<(Seq<char>, Seq<char>)>
    decreases lines.len(),
{
    if lines.len() == 0 {
        start
    } else {
        let next = match parse_line(lines[0]) {
            Some(kv) => settings_insert(start, kv.0, kv.1),
            None => start,
        };
        settings_fold(next, lines.drop_first())
    }
}

/// The settings store a whole settings file describes.
pub open spec fn settings_of(contents: Seq<char>) -> Seq<(Seq<char>, Seq<char>)> {
    settings_fold(Seq::empty(), lines_of(contents))
}

/// When `c` first occurs at `k`, `find_char` says so.
proof fn lemma_find_char_at(s: Seq<char>, c: char, k: int)
    requires
        0 <= k < s.len(),
        s[k] == c,
        forall|j: int| 0 <= j < k ==> s[j] != c,
    ensures
        find_char(s, c) == Some(k),
{
    lemma_find_char(s, c);
}

/// One settings pair as its file line, newline included.
pub open spec fn setting_line(kv: (Seq<char>, Seq<char>)) -> Seq<char> {
    kv.0 + "="@ + kv.1 + "\n"@
}

/// A settings pair survives the file format: neither half contains `=`, a
/// newline, or a carriage return.
pub open spec fn setting_pair_wf(kv: (Seq<char>, Seq<char>)) -> bool {
    &&& find_char(kv.0, '=') is None
    &&& find_char(kv.1, '=') is None
    &&& find_char(kv.0, '\n') is None
    &&& find_char(kv.1, '\n') is None
    &&& find_char(kv.0, '\r') is None
    &&& find_char(kv.1, '\r') is None
}

/// A rendered store decomposes from the front: the first pair's line, then
/// the rest.
proof fn lemma_rendered_front(s: Seq<(Seq<char>, Seq<char>)>)
    requires
        s.len() > 0,
    ensures
        rendered_settings(s) == setting_line(s[0]) + rendered_settings(s.drop_first()),
    decreases s.len(),
{
    if s.len() == 1 {
        assert(s.drop_last() =~= Seq::<(Seq<char>, Seq<char>)>::empty());
        assert(s.drop_first() =~= Seq::<(Seq<char>, Seq<char>)>::empty());
        assert(rendered_settings(s) =~= setting_line(s[0]) + rendered_settings(s.drop_first()));
    } else {
        lemma_rendered_front(s.drop_last());
        assert(s.drop_last()[0] == s[0]);
        assert(s.drop_last().drop_first() =~= s.drop_first().drop_last());
        assert(s.drop_first().last() == s.last());
        assert(rendered_settings(s) =~= setting_line(s[0]) + rendered_settings(s.drop_first()));
    }
}

/// Parsing a well-formed pair's body gives the pair back.
proof fn lemma_parse_setting_line(kv: (Seq<char>, Seq<char>))
    requires
        setting_pair_wf(kv),
    ensures
        parse_line(kv.0 + "="@ + kv.1) == Some(kv),
{
    reveal_strlit("=");
    let l = kv.0 + "="@ + kv.1;
    let k = kv.0.len() as int;
    lemma_find_char(kv.0, '=');
    assert forall|j: int| 0 <= j < k implies l[j] != '=' by {
        assert(l[j] == kv.0[j]);
    }
    assert(l[k] == '=');
    lemma_find_char_at(l, '=', k);
    assert(l.subrange(k + 1, l.len() as int) =~= kv.1);
    assert(l.subrange(0, k) =~= kv.0);
    assert(parse_line(l) == Some((kv.0, kv.1)));
    assert((kv.0, kv.1) == kv);
}

/// The lines of a well-formed pair's line followed by more text: that pair's
/// body, then the lines of the rest.
proof fn lemma_lines_of_line(kv: (Seq<char>, Seq<char>), rest: Seq<char>)
    requires
        setting_pair_wf(kv),
    ensures
        lines_of(setting_line(kv) + rest) == seq![kv.0 + "="@ + kv.1] + lines_of(rest),
{
    reveal_strlit("=");
    reveal_strlit("\n");
    let body = kv.0 + "="@ + kv.1;
    let whole = setting_line(kv) + rest;
    let k = body.len() as int;
    lemma_find_char(kv.0, '\n');
    lemma_find_char(kv.1, '\n');
    lemma_find_char(kv.1, '\r');
    assert forall|j: int| 0 <= j < k implies whole[j] != '\n' by {
        assert(whole[j] == body[j]);
        if j < kv.0.len() {
            assert(body[j] == kv.0[j]);
        } else if j == kv.0.len() {
            assert(body[j] == '=');
        } else {
            assert(body[j] == kv.1[j - kv.0.len() - 1]);
        }
    }
    assert(whole[k] == '\n');
    lemma_find_char_at(whole, '\n', k);
    assert(whole.len() > 0);
    assert(whole.subrange(0, k) =~= body);
    if body.last() == '\r' {
        if kv.1.len() > 0 {
            assert(body.last() == kv.1.last());
            assert(false);
        } else {
            assert(body.last() == '=');
            assert(false);
        }
    }
    assert(strip_cr(body) == body);
    assert(whole.subrange(k + 1, whole.len() as int) =~= rest);
    assert(lines_of(whole) == seq![body] + lines_of(rest));
}

/// Folding the lines of a rendered store onto `acc` appends the store, as
/// long as its pairs are well formed and their names are new and distinct.
proof fn lemma_fold_rendered(
    acc: Seq<(Seq<char>, Seq<char>)>,
    s: Seq<(Seq<char>, Seq<char>)>,
)
    requires
        forall|i: int| 0 <= i < s.len() ==> setting_pair_wf(#[trigger] s[i]),
        forall|i: int, j: int| 0 <= i < j < s.len() ==> s[i].0 != s[j].0,
        forall|i: int, j: int| 0 <= i < acc.len() && 0 <= j < s.len() ==> acc[i].0 != s[j].0,
    ensures
        settings_fold(acc, lines_of(rendered_settings(s))) == acc + s,
    decreases s.len(),
{
    if s.len() == 0 {
        assert(rendered_settings(s) == Seq::<char>::empty());
        assert(lines_of(rendered_settings(s)) == Seq::<Seq<char>>::empty());
        assert(acc + s =~= acc);
    } else {
        lemma_rendered_front(s);
        lemma_lines_of_line(s[0], rendered_settings(s.drop_first()));
        lemma_parse_setting_line(s[0]);
        let ls = lines_of(rendered_settings(s));
        assert(ls[0] == s[0].0 + "="@ + s[0].1);
        assert(ls.len() > 0);
        assert(ls.drop_first() =~= lines_of(rendered_settings(s.drop_first())));
        assert forall|i: int| 0 <= i < acc.len() implies acc[i].0 != s[0].0 by {}
        lemma_settings_insert_absent(acc, s[0].0, s[0].1);
        let acc2 = acc.push(s[0]);
        assert(settings_insert(acc, s[0].0, s[0].1) == acc2);
        assert(settings_fold(acc, ls) == settings_fold(acc2, ls.drop_first()));
        assert forall|i: int| 0 <= i < s.drop_first().len() implies setting_pair_wf(
            #[trigger] s.drop_first()[i],
        ) by {
            assert(s.drop_first()[i] == s[i + 1]);
        }
        assert forall|i: int, j: int|
            0 <= i < j < s.drop_first().len() implies s.drop_first()[i].0 != s.drop_first()[j].0 by {
            assert(s.drop_first()[i] == s[i + 1]);
            assert(s.drop_first()[j] == s[j + 1]);
        }
        assert forall|i: int, j: int|
            0 <= i < acc2.len() && 0 <= j < s.drop_first().len() implies acc2[i].0
            != s.drop_first()[j].0 by {
            assert(s.drop_first()[j] == s[j + 1]);
            if i < acc.len() {
                assert(acc2[i] == acc[i]);
            } else {
                assert(acc2[i] == s[0]);
            }
        }
        lemma_fold_rendered(acc2, s.drop_first());
        assert(acc2 + s.drop_first() =~= acc + s);
    }
}

/// Writing a settings store out and parsing it back is the identity, for
/// stores whose names are distinct and whose names and values avoid the
/// format's delimiters (`=`, newline, carriage return).
pub proof fn lemma_settings_round_trip(s: Seq<(Seq<char>, Seq<char>)>)
    requires
        forall|i: int| 0 <= i < s.len() ==> setting_pair_wf(#[trigger] s[i]),
        forall|i: int, j: int| 0 <= i < j < s.len() ==> s[i].0 != s[j].0,
    ensures
        settings_of(rendered_settings(s)) == s,
{
    lemma_fold_rendered(Seq::empty(), s);
    assert(Seq::empty() + s =~= s);
}

/// The first position of `c` in `s`, for the settings parser.
fn find_first_char_in(s: &str, c: char) -> (r: Option<usize>)
    ensures
        match r {
            Some(i) => find_char(s@, c) == Some(i as int),
            None => find_char(s@, c) is None,
        },
{
    let n = s.unicode_len();
    let mut i: usize = 0;
    while i < n
        invariant
            n == s@.len(),
            i <= n,
            forall|j: int| 0 <= j < i ==> s@[j] != c,
        decreases n - i,
    {
        if s.get_char(i) == c {
            proof {
                lemma_find_char(s@, c);
            }
            return Some(i);
        }
        i = i + 1;
    }
    proof {
        lemma_find_char(s@, c);
    }
    None
}

/// Parses one settings line into its `name=value` pair; `None` for a line
/// without exactly one `=`.
fn parse_settings_line(line: &str) -> (r: Option<(String, String)>)
    ensures
        match r {
            Some(kv) => parse_line(line@) == Some((kv.0@, kv.1@)),
            None => parse_line(line@) is None,
        },
{
    let n = line.unicode_len();
    match find_first_char_in(line, '=') {
        None => None,
        Some(i) => {
            proof {
                lemma_find_char(line@, '=');
            }
            let value_str = line.substring_char(i + 1, n);
            match find_first_char_in(value_str, '=') {
                Some(_) => None,
                None => Some((line.substring_char(0, i).to_owned(), value_str.to_owned())),
            }
        },
    }
}

/// Parses a whole settings file (`name=value` lines) into the settings
/// store, first line first; a line without exactly one `=` is skipped.
pub fn parse_settings(contents: &str) -> (r: Vec<(String, String)>)
    ensures
        r.deep_view() == settings_of(contents@),
{
    let n = contents.unicode_len();
    let mut acc: Vec<(String, String)> = Vec::new();
    let mut pos: usize = 0;
    proof {
        assert(contents@.skip(0) =~= contents@);
        assert(acc.deep_view() =~= Seq::<(Seq<char>, Seq<char>)>::empty());
    }
    while pos < n
        invariant
            n == contents@.len(),
            pos <= n,
            settings_fold(acc.deep_view(), lines_of(contents@.skip(pos as int))) == settings_of(
                contents@,
            ),
        decreases n - pos,
    {
        let ghost rest = contents@.skip(pos as int);
        let mut j: usize = pos;
        while j < n
            invariant
                n == contents@.len(),
                pos <= j <= n,
                forall|t: int| pos <= t < j ==> contents@[t] != '\n',
            ensures
                pos <= j <= n,
                n == contents@.len(),
                forall|t: int| pos <= t < j ==> contents@[t] != '\n',
                j < n ==> contents@[j as int] == '\n',
            decreases n - j,
        {
            if contents.get_char(j) == '\n' {
                break ;
            }
            j = j + 1;
        }
        proof {
            lemma_find_char(rest, '\n');
            assert(rest.len() == n - pos);
            assert forall|t: int| 0 <= t < j - pos implies rest[t] != '\n' by {
                assert(rest[t] == contents@[pos + t]);
            }
            if j < n {
                assert(rest[(j - pos) as int] == contents@[j as int]);
                assert(find_char(rest, '\n') == Some((j - pos) as int));
            } else {
                assert(find_char(rest, '\n') is None);
            }
        }
        let strip = j < n && j > pos && contents.get_char(j - 1) == '\r';
        let line_end = if strip {
            j - 1
        } else {
            j
        };
        let line = contents.substring_char(pos, line_end);
        proof {
            let cut = rest.subrange(0, (j - pos) as int);
            assert(cut =~= contents@.subrange(pos as int, j as int));
            if j < n {
                if strip {
                    assert(strip_cr(cut) =~= contents@.subrange(pos as int, j - 1));
                    assert(line@ == strip_cr(cut));
                } else {
                    assert(strip_cr(cut) == cut);
                    assert(line@ =~= strip_cr(cut));
                }
                assert(lines_of(rest) == seq![strip_cr(cut)] + lines_of(
                    rest.subrange((j - pos + 1) as int, rest.len() as int),
                ));
                assert(rest.subrange((j - pos + 1) as int, rest.len() as int) =~= contents@.skip(
                    j + 1,
                ));
            } else {
                assert(j == n);
                assert(line@ =~= rest);
                assert(lines_of(rest) == seq![rest]);
            }
        }
        let ghost prev_acc = acc.deep_view();
        let ghost ls = lines_of(rest);
        match parse_settings_line(line) {
            Some(kv) => {
                settings_vec_insert(&mut acc, kv.0, kv.1);
            },
            None => {},
        }
        proof {
            let next = match parse_line(line@) {
                Some(kv) => settings_insert(prev_acc, kv.0, kv.1),
                None => prev_acc,
            };
            assert(acc.deep_view() == next);
            assert(ls.len() > 0);
            if j < n {
                assert(ls[0] == strip_cr(rest.subrange(0, (j - pos) as int)));
            } else {
                assert(ls[0] == rest);
            }
            assert(ls[0] == line@);
            assert(settings_fold(prev_acc, ls) == settings_fold(next, ls.drop_first()));
            if j < n {
                assert(ls.drop_first() =~= lines_of(contents@.skip(j + 1)));
                assert(settings_fold(next, ls.drop_first()) == settings_fold(
                    acc.deep_view(),
                    lines_of(contents@.skip(j + 1)),
                ));
            } else {
                assert(ls.drop_first() =~= Seq::<Seq<char>>::empty());
                assert(settings_fold(next, ls.drop_first()) == next);
                assert(contents@.skip(n as int) =~= Seq::<char>::empty());
                assert(lines_of(contents@.skip(n as int)) == Seq::<Seq<char>>::empty());
            }
        }
        pos = if j < n {
            j + 1
        } else {
            n
        };
    }
    proof {
        assert(contents@.skip(n as int) =~= Seq::<char>::empty());
    }
    acc
}

/// What a settings store looks like written out: one `name=value` line per
/// pair, each ended by a newline.
pub open spec fn rendered_settings(s: Seq<(Seq<char>, Seq<char>)>) -> Seq<char>
    decreases s.len(),
{
    if s.len() == 0 {
        Seq::empty()
    } else {
        rendered_settings(s.drop_last()) + s.last().0 + "="@ + s.last().1 + "\n"@
    }
}

/// Writes a settings store out as `name=value` lines, the form
/// `parse_settings` reads back.
pub fn render_settings(settings: &Vec<(String, String)>) -> (r: String)
    ensures
        r@ == rendered_settings(settings.deep_view()),
{
    let ghost dv = settings.deep_view();
    let n = settings.len();
    let mut out = String::new();
    let mut i: usize = 0;
    proof {
        assert(dv.subrange(0, 0) =~= Seq::empty());
        assert(out@ =~= rendered_settings(dv.subrange(0, 0)));
    }
    while i < n
        invariant
            n == settings.len(),
            dv == settings.deep_view(),
            i <= n,
            out@ == rendered_settings(dv.subrange(0, i as int)),
        decreases n - i,
    {
        proof {
            assert(settings[i as int].deep_view() == dv[i as int]);
            assert(dv.subrange(0, i + 1).drop_last() =~= dv.subrange(0, i as int));
            assert(dv.subrange(0, i + 1).last() == dv[i as int]);
        }
        out.append(settings[i].0.as_str());
        out.append("=");
        out.append(settings[i].1.as_str());
        out.append("\n");
        proof {
            assert(out@ =~= rendered_settings(dv.subrange(0, i + 1)));
        }
        i = i + 1;
    }
    proof {
        assert(dv.subrange(0, n as int) =~= dv);
    }
    out
}

/// Stores `value` under `option_name` in a settings store held as a vector
/// of pairs: the first pair with that name is replaced, or the pair is
/// appended when the name is new.
pub fn settings_vec_insert(settings: &mut Vec<(String, String)>, option_name: String, value: String)
    ensures
        final(settings).deep_view() == settings_insert(
            old(settings).deep_view(),
            option_name@,
            value@,
        ),
{
    let ghost s = settings.deep_view();
    let n = settings.len();
    let mut i: usize = 0;
    while i < n
        invariant
            n == settings.len(),
            s == settings.deep_view(),
            s == old(settings).deep_view(),
            i <= n,
            forall|j: int| 0 <= j < i ==> s[j].0 != option_name@,
        decreases n - i,
    {
        proof {
            assert(settings[i as int].deep_view() == s[i as int]);
        }
        if crate::util::str_eq(settings[i].0.as_str(), option_name.as_str()) {
            let ghost prev = *settings;
            settings.set(i, (option_name, value));
            proof {
                let p = settings@[i as int];
                lemma_pairs_deep_view_update(prev, *settings, i as int, p);
                lemma_settings_insert_at(s, p.0@, p.1@, i as int);
            }
            return ;
        }
        i = i + 1;
    }
    let ghost prev = *settings;
    settings.push((option_name, value));
    proof {
        let p = settings@[n as int];
        lemma_pairs_deep_view_push(prev, *settings, p);
        lemma_settings_insert_absent(s, p.0@, p.1@);
    }
}

/// Whether a directory entry is an EPUB file by its path: the `.epub`
/// extension, matched case-sensitively (a known limitation), with a
/// non-empty file name stem in front — a hidden file named exactly `.epub`
/// has no extension and does not count.
pub fn is_epub_path(path: &str) -> (r: bool)
    ensures
        r == (path@.len() > 5 && path@.subrange(path@.len() - 5, path@.len() as int) == ".epub"@
            && path@[path@.len() - 6] != '/'),
{
    let n = path.unicode_len();
    if n <= 5 {
        return false;
    }
    if path.get_char(n - 6) == '/' {
        return false;
    }
    let tail = path.substring_char(n - 5, n);
    let r = crate::util::str_eq(tail, ".epub");
    r
}

/// The path of the settings file inside the configuration directory.
pub fn get_settings_path(config_dir: &str, settings_file_name: &str) -> (r: String)
    ensures
        r@ == config_dir@ + "/"@ + settings_file_name@,
{
    crate::util::join_path(config_dir, settings_file_name)
}

/// The path the JSON catalog backup is dumped to, inside the cache
/// directory.
pub fn get_dump_json_path(cache_dir: &str, backup_file_name: &str) -> (r: String)
    ensures
        r@ == cache_dir@ + "/"@ + backup_file_name@,
{
    crate::util::join_path(cache_dir, backup_file_name)
}

/// Holds the per-session state: the user settings (a flat name-to-value
/// store) and the in-memory catalog.
pub struct BookWorker {
    application_user_settings: Vec<(String, String)>,
    current_book_cache: BookCache,
}

impl BookWorker {
    /// The mathematical contents of the in-memory catalog.
    pub closed spec fn spec_cache_books(&self) -> Option<Seq<BookView>> {
        self.current_book_cache.spec_books()
    }

    /// The mathematical contents of the settings store, as ordered
    /// name-value pairs.
    pub closed spec fn spec_settings(&self) -> Seq<(Seq<char>, Seq<char>)> {
        self.application_user_settings.deep_view()
    }

    pub fn new(
        application_user_settings: Vec<(String, String)>,
        current_book_cache: BookCache,
    ) -> (r: BookWorker)
        ensures
            r.spec_settings() == application_user_settings.deep_view(),
            r.spec_cache_books() == current_book_cache.spec_books(),
    {
        BookWorker { application_user_settings, current_book_cache }
    }

    pub fn set_book_cache(&mut self, new_book_cache: BookCache)
        ensures
            final(self).spec_cache_books() == new_book_cache.spec_books(),
            final(self).spec_settings() == old(self).spec_settings(),
    {
        self.current_book_cache = new_book_cache;
    }

    pub fn get_book_cache(&self) -> (r: &BookCache)
        ensures
            r.spec_books() == self.spec_cache_books(),
    {
        &self.current_book_cache
    }

    pub fn import_application_settings(&mut self, new_settings: Vec<(String, String)>)
        ensures
            final(self).spec_settings() == new_settings.deep_view(),
            final(self).spec_cache_books() == old(self).spec_cache_books(),
    {
        self.application_user_settings = new_settings;
    }

    pub fn get_application_settings(&self) -> (r: &Vec<(String, String)>)
        ensures
            r.deep_view() == self.spec_settings(),
    {
        &self.application_user_settings
    }

    /// Replaces the whole in-memory catalog.
    pub fn update_book_cache(&mut self, new_books: Option<Vec<Book>>)
        ensures
            final(self).spec_cache_books() == match new_books {
                Some(v) => Some(v.deep_view()),
                None => None::<Seq<BookView>>,
            },
            final(self).spec_settings() == old(self).spec_settings(),
    {
        self.current_book_cache.update_books(new_books);
    }

    /// Whether the catalog must be rebuilt: the size heuristic of the
    /// synchronizer. The catalog is considered out of date exactly when the
    /// number of EPUB files discovered on disk differs from the number of
    /// books currently cached. (A swap of one book for another in the same
    /// run keeps the count equal and is missed; a known limitation.)
    pub fn needs_sync(&self, discovered_count: usize) -> (r: bool)
        ensures
            r == (discovered_count != match self.spec_cache_books() {
                Some(s) => s.len(),
                None => 0,
            }),
    {
        self.current_book_cache.get_book_amount() != discovered_count
    }

    /// Whether the catalog store needs the backup-and-replay repair path:
    /// exactly when its health check failed.
    pub fn repair_db(&self, db_healthy: bool) -> (repair: bool)
        ensures
            repair == !db_healthy,
    {
        !db_healthy
    }

    /// Which books a catalog backup should dump: the in-memory catalog when
    /// one is loaded, otherwise whatever the store returned (`db_books`), and
    /// nothing when neither exists.
    pub fn backup_source(&self, db_books: Option<Vec<Book>>) -> (r: Option<Vec<Book>>)
        ensures
            match self.spec_cache_books() {
                Some(s) => r matches Some(v) && v.deep_view() == s,
                None => match db_books {
                    Some(v) => r matches Some(w) && w.deep_view() == v.deep_view(),
                    None => r is None,
                },
            },
    {
        match self.current_book_cache.get_books() {
            Some(v) => Some(clone_books(v)),
            None => db_books,
        }
    }

    /// The value currently stored for the setting `option_name`.
    pub fn get_setting(&self, option_name: &str) -> (r: Option<String>)
        ensures
            match r {
                Some(v) => settings_lookup(self.spec_settings(), option_name@) == Some(v@),
                None => settings_lookup(self.spec_settings(), option_name@) is None,
            },
    {
        let ghost s = self.spec_settings();
        let n = self.application_user_settings.len();
        proof {
            assert(s.skip(0) =~= s);
        }
        let mut i: usize = 0;
        while i < n
            invariant
                n == self.application_user_settings.len(),
                s == self.spec_settings(),
                i <= n,
                settings_lookup(s, option_name@) == settings_lookup(
                    s.skip(i as int),
                    option_name@,
                ),
            decreases n - i,
        {
            proof {
                assert(self.application_user_settings[i as int].deep_view() == s[i as int]);
                assert(s.skip(i as int)[0] == s[i as int]);
                assert(s.skip(i as int).drop_first() =~= s.skip(i + 1));
            }
            if crate::util::str_eq(
                self.application_user_settings[i].0.as_str(),
                option_name,
            ) {
                return Some(self.application_user_settings[i].1.clone());
            }
            i = i + 1;
        }
        proof {
            assert(s.skip(n as int) =~= Seq::empty());
        }
        None
    }

    /// Stores `value` under `option_name`, replacing the setting's previous
    /// value or adding the setting when it is new. (Persisting the settings
    /// file is the application's separate step.)
    pub fn update_application_setting(&mut self, option_name: String, value: String)
        ensures
            final(self).spec_settings() == settings_insert(
                old(self).spec_settings(),
                option_name@,
                value@,
            ),
            final(self).spec_cache_books() == old(self).spec_cache_books(),
    {
        settings_vec_insert(&mut self.application_user_settings, option_name, value);
    }

    /// Resets every built-in setting to its default value, leaving other
    /// settings untouched.
    pub fn restore_default_settings(&mut self)
        ensures
            final(self).spec_settings() == settings_insert(
                settings_insert(
                    settings_insert(old(self).spec_settings(), "book_location"@, "unset"@),
                    "endless_scroll"@,
                    "false"@,
                ),
                "cover_background"@,
                "false"@,
            ),
            final(self).spec_cache_books() == old(self).spec_cache_books(),
    {
        self.update_application_setting(
            String::from_str("book_location"),
            String::from_str("unset"),
        );
        self.update_application_setting(
            String::from_str("endless_scroll"),
            String::from_str("false"),
        );
        self.update_application_setting(
            String::from_str("cover_background"),
            String::from_str("false"),
        );
    }

    /// Clears the in-memory catalog and restores the default settings: the
    /// in-memory half of a full application reset. (Deleting the cache
    /// directory, the settings file and the store's table is the
    /// application's separate step.)
    pub fn reset(&mut self)
        ensures
            final(self).spec_cache_books() is None,
            final(self).spec_settings() == settings_insert(
                settings_insert(
                    settings_insert(old(self).spec_settings(), "book_location"@, "unset"@),
                    "endless_scroll"@,
                    "false"@,
                ),
                "cover_background"@,
                "false"@,
            ),
    {
        self.update_book_cache(None);
        self.restore_default_settings();
    }

    /// Merges freshly built candidate books into the catalog.
    ///
    /// `db_books` is the current contents of the catalog store, when the
    /// store could be queried; the in-memory catalog is the fallback
    /// comparison set. A candidate is inserted only when its title is absent
    /// from that comparison set, so a book that is already cataloged is never
    /// inserted twice, whatever its file path. The returned vector holds
    /// exactly the inserted books (for the caller to push to the store); when
    /// it is empty the worker is left untouched.
    pub fn update_books(
        &mut self,
        new_books: Vec<Book>,
        db_books: Option<Vec<Book>>,
    ) -> (unique_new: Vec<Book>)
        ensures
            ({
                let current = match db_books {
                    Some(v) => Some(v.deep_view()),
                    None => old(self).spec_cache_books(),
                };
                let uniq = unique_new_books(new_books.deep_view(), current);
                &&& unique_new.deep_view() == uniq
                &&& uniq.len() == 0 ==> *final(self) == *old(self)
                &&& uniq.len() > 0 ==> final(self).spec_cache_books() == Some(
                    merged_catalog(old(self).spec_cache_books(), uniq),
                )
                &&& final(self).spec_settings() == old(self).spec_settings()
            }),
    {
        let ghost cands = new_books.deep_view();
        let ghost current = match &db_books {
            Some(v) => Some(v.deep_view()),
            None => self.spec_cache_books(),
        };
        let current_ref: Option<&Vec<Book>> = match &db_books {
            Some(v) => Some(v),
            None => self.current_book_cache.get_books(),
        };

        let mut unique_new: Vec<Book> = Vec::new();
        match current_ref {
            None => {
                assert(current is None);
                let copied = clone_books(&new_books);
                unique_new = copied;
                assert(unique_new.deep_view() == unique_new_books(cands, current));
            },
            Some(cur_vec) => {
                let ghost cur = cur_vec.deep_view();
                assert(current == Some(cur));
                let n = new_books.len();
                let mut i: usize = 0;
                while i < n
                    invariant
                        n == new_books.len(),
                        cands == new_books.deep_view(),
                        cur == cur_vec.deep_view(),
                        i <= n,
                        unique_new.deep_view() =~= filter_new_books(
                            cands.subrange(0, i as int),
                            cur,
                        ),
                    decreases n - i,
                {
                    proof {
                        assert(cands.subrange(0, i + 1).drop_last() =~= cands.subrange(
                            0,
                            i as int,
                        ));
                        assert(cands.subrange(0, i + 1).last() == cands[i as int]);
                        assert(new_books[i as int]@ == cands[i as int]);
                    }
                    if !books_contain_title(cur_vec, new_books[i].get_title().as_str()) {
                        unique_new.push(new_books[i].clone());
                    }
                    i = i + 1;
                }
                proof {
                    assert(cands.subrange(0, n as int) =~= cands);
                    assert(unique_new.deep_view() =~= unique_new_books(cands, current));
                }
            },
        }

        if unique_new.len() == 0 {
            return unique_new;
        }

        let mut all_books: Vec<Book> = match self.current_book_cache.get_books() {
            Some(v) => clone_books(v),
            None => Vec::new(),
        };
        let ghost old_cache = self.spec_cache_books();
        let ghost uniq = unique_new.deep_view();
        let m = unique_new.len();
        let mut k: usize = 0;
        while k < m
            invariant
                m == unique_new.len(),
                uniq == unique_new.deep_view(),
                k <= m,
                all_books.deep_view() =~= merged_catalog(old_cache, uniq.subrange(0, k as int)),
            decreases m - k,
        {
            let b = unique_new[k].clone();
            let ghost prev = all_books;
            proof {
                assert(unique_new[k as int]@ == uniq[k as int]);
            }
            all_books.push(b);
            proof {
                crate::book_item::lemma_books_deep_view_push(prev, all_books, b);
                assert(all_books.deep_view() =~= merged_catalog(
                    old_cache,
                    uniq.subrange(0, k + 1),
                ));
            }
            k = k + 1;
        }
        proof {
            assert(uniq.subrange(0, m as int) =~= uniq);
            assert(all_books.deep_view() =~= merged_catalog(old_cache, uniq));
        }
        self.current_book_cache.update_books(Some(all_books));
        unique_new
    }
}

} // verus!
