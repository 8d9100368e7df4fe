//! Small utilities shared by the catalog: filename sanitization, string
//! comparison, and the regular-expression scan over an EPUB's resource
//! manifest.

use base64::Engine;

use crate::book_item::{has_title, Book};
use crate::bookio::{EpubResource, ResourceView};
use vstd::prelude::*;

verus! {

/// Declares regex::Regex so compiled patterns can pass through signatures;
/// the value stays opaque.
#[verifier::external_type_specification]
#[verifier::external_body]
pub struct ExRegex(regex::Regex);

/// Whether `pattern` is a valid regular expression.
pub uninterp spec fn regex_compiles(pattern: Seq<char>) -> bool;

/// Whether the regular expression `pattern` matches somewhere in `text`.
pub uninterp spec fn regex_match(pattern: Seq<char>, text: Seq<char>) -> bool;

/// The pattern a compiled regular expression was built from.
pub uninterp spec fn regex_source(re: regex::Regex) -> Seq<char>;

/// Relies on regex::Regex::new: compiling succeeds exactly for valid pattern
/// syntax, and (per Regex::as_str) the compiled value determines the pattern
/// it was built from.
#[verifier::external_body]
pub fn regex_new(pattern: &str) -> (r: Option<regex::Regex>)
    ensures
        r is Some <==> regex_compiles(pattern@),
        r matches Some(re) ==> regex_source(re) == pattern@,
{
    regex::Regex::new(pattern).ok()
}

/// Relies on regex::Regex::is_match: whether a match exists depends on the
/// compiled pattern and the text alone.
#[verifier::external_body]
pub fn regex_is_match(re: &regex::Regex, text: &str) -> (r: bool)
    ensures
        r == regex_match(regex_source(*re), text@),
{
    re.is_match(text)
}

/// The identifier of the first manifest entry whose id matches `key_pat` and
/// whose declared MIME type matches `mime_pat`, in the order given.
pub open spec fn matching_resource(
    resources: Seq<ResourceView>,
    key_pat: Seq<char>,
    mime_pat: Seq<char>,
) -> Option<Seq<char>>
    decreases resources.len(),
{
    if resources.len() == 0 {
        None
    } else if regex_match(key_pat, resources[0].id) && regex_match(mime_pat, resources[0].mime) {
        Some(resources[0].id)
    } else {
        matching_resource(resources.drop_first(), key_pat, mime_pat)
    }
}

/// Looks in an EPUB's resource manifest for an entry whose identifier
/// matches `key_regex` and whose declared MIME type matches `mime_regex`,
/// returning the first such identifier in the manifest's order. (That order
/// is whatever the container library yielded; it is not guaranteed stable
/// across runs.)
pub fn check_epub_resource(
    key_regex: regex::Regex,
    mime_regex: regex::Regex,
    epub_resources: &Vec<EpubResource>,
) -> (r: Option<String>)
    ensures
        ({
            let found = matching_resource(
                epub_resources.deep_view(),
                regex_source(key_regex),
                regex_source(mime_regex),
            );
            match r {
                Some(id) => found == Some(id@),
                None => found is None,
            }
        }),
{
    let ghost s = epub_resources.deep_view();
    let ghost kp = regex_source(key_regex);
    let ghost mp = regex_source(mime_regex);
    let n = epub_resources.len();
    proof {
        assert(s.skip(0) =~= s);
    }
    let mut i: usize = 0;
    while i < n
        invariant
            n == epub_resources.len(),
            s == epub_resources.deep_view(),
            kp == regex_source(key_regex),
            mp == regex_source(mime_regex),
            i <= n,
            matching_resource(s, kp, mp) == matching_resource(s.skip(i as int), kp, mp),
        decreases n - i,
    {
        proof {
            assert(epub_resources[i as int].deep_view() == s[i as int]);
            assert(s.skip(i as int)[0] == s[i as int]);
            assert(s.skip(i as int).drop_first() =~= s.skip(i + 1));
        }
        if regex_is_match(&key_regex, epub_resources[i].id.as_str()) && regex_is_match(
            &mime_regex,
            epub_resources[i].mime.as_str(),
        ) {
            return Some(epub_resources[i].id.clone());
        }
        i = i + 1;
    }
    proof {
        assert(s.skip(n as int) =~= Seq::empty());
    }
    None
}

/// Lexicographic order on character sequences, by code point: the order in
/// which titles are kept sorted.
pub open spec fn lex_le(a: Seq<char>, b: Seq<char>) -> bool
    decreases a.len(),
{
    if a.len() == 0 {
        true
    } else if b.len() == 0 {
        false
    } else if a[0] == b[0] {
        lex_le(a.drop_first(), b.drop_first())
    } else {
        (a[0] as int) < (b[0] as int)
    }
}

/// Any two strings are ordered.
pub proof fn lemma_lex_le_total(a: Seq<char>, b: Seq<char>)
    ensures
        lex_le(a, b) || lex_le(b, a),
    decreases a.len(),
{
    if a.len() > 0 && b.len() > 0 && a[0] == b[0] {
        lemma_lex_le_total(a.drop_first(), b.drop_first());
    }
}

/// Two strings each at most the other are equal.
pub proof fn lemma_lex_le_antisymmetric(a: Seq<char>, b: Seq<char>)
    requires
        lex_le(a, b),
        lex_le(b, a),
    ensures
        a == b,
    decreases a.len(),
{
    if a.len() > 0 && b.len() > 0 && a[0] == b[0] {
        lemma_lex_le_antisymmetric(a.drop_first(), b.drop_first());
        assert(a =~= seq![a[0]] + a.drop_first());
        assert(b =~= seq![b[0]] + b.drop_first());
    }
}

/// The order is transitive.
pub proof fn lemma_lex_le_transitive(a: Seq<char>, b: Seq<char>, c: Seq<char>)
    requires
        lex_le(a, b),
        lex_le(b, c),
    ensures
        lex_le(a, c),
    decreases a.len(),
{
    if a.len() > 0 && b.len() > 0 && c.len() > 0 && a[0] == b[0] && b[0] == c[0] {
        lemma_lex_le_transitive(a.drop_first(), b.drop_first(), c.drop_first());
    }
}

/// Between ordered strings that start differently, the first characters are
/// themselves ordered.
pub proof fn lemma_lex_le_first_char(a: Seq<char>, b: Seq<char>)
    requires
        lex_le(a, b),
        a.len() > 0,
        b.len() > 0,
        a[0] != b[0],
    ensures
        (a[0] as int) < (b[0] as int),
{
}

/// A string starting with a smaller character comes first, whatever follows.
pub proof fn lemma_lex_le_by_first_char(a: Seq<char>, b: Seq<char>)
    requires
        a.len() > 0,
        b.len() > 0,
        (a[0] as int) < (b[0] as int),
    ensures
        lex_le(a, b),
        a != b,
{
}

/// Every string is at most itself.
pub proof fn lemma_lex_le_reflexive(a: Seq<char>)
    ensures
        lex_le(a, a),
    decreases a.len(),
{
    if a.len() > 0 {
        lemma_lex_le_reflexive(a.drop_first());
    }
}

/// Inserting anywhere into a sequence inserts into its multiset.
pub proof fn lemma_to_multiset_insert<A>(s: Seq<A>, k: int, x: A)
    requires
        0 <= k <= s.len(),
    ensures
        s.insert(k, x).to_multiset() == s.to_multiset().insert(x),
{
    broadcast use vstd::seq_lib::group_to_multiset_ensures;

    let l = s.subrange(0, k);
    let rgt = s.subrange(k, s.len() as int);
    assert(s =~= l + rgt);
    assert(s.insert(k, x) =~= l.push(x) + rgt);
    vstd::seq_lib::lemma_multiset_commutative(l.push(x), rgt);
    vstd::seq_lib::lemma_multiset_commutative(l, rgt);
    assert(l.push(x).to_multiset() =~= l.to_multiset().insert(x));
    assert(s.insert(k, x).to_multiset() =~= s.to_multiset().insert(x));
}

/// How two strings compare: the three-way outcome of the lexicographic
/// order.
#[derive(Clone, Copy, Debug, PartialEq, Eq, Structural)]
pub enum TitleOrder {
    Less,
    Equal,
    Greater,
}

/// Compares two strings in lexicographic (code point) order.
pub fn compare_strs(a: &str, b: &str) -> (r: TitleOrder)
    ensures
        (r == TitleOrder::Equal) <==> a@ == b@,
        (r == TitleOrder::Less) <==> (lex_le(a@, b@) && a@ != b@),
        (r == TitleOrder::Greater) <==> !lex_le(a@, b@),
{
    let na = a.unicode_len();
    let nb = b.unicode_len();
    let min = if na < nb {
        na
    } else {
        nb
    };
    proof {
        assert(a@.skip(0) =~= a@);
        assert(b@.skip(0) =~= b@);
    }
    let mut i: usize = 0;
    while i < min
        invariant
            na == a@.len(),
            nb == b@.len(),
            min == if na < nb {
                na
            } else {
                nb
            },
            i <= min,
            forall|j: int| 0 <= j < i ==> a@[j] == b@[j],
            lex_le(a@, b@) == lex_le(a@.skip(i as int), b@.skip(i as int)),
            lex_le(b@, a@) == lex_le(b@.skip(i as int), a@.skip(i as int)),
        decreases min - i,
    {
        let ca = a.get_char(i);
        let cb = b.get_char(i);
        proof {
            assert(a@.skip(i as int)[0] == a@[i as int]);
            assert(b@.skip(i as int)[0] == b@[i as int]);
            assert(a@.skip(i as int).drop_first() =~= a@.skip(i + 1));
            assert(b@.skip(i as int).drop_first() =~= b@.skip(i + 1));
        }
        if (ca as u32) < (cb as u32) {
            proof {
                assert(lex_le(a@.skip(i as int), b@.skip(i as int)));
                assert(!lex_le(b@.skip(i as int), a@.skip(i as int)));
                assert(a@[i as int] != b@[i as int]);
            }
            return TitleOrder::Less;
        }
        if (cb as u32) < (ca as u32) {
            proof {
                assert(!lex_le(a@.skip(i as int), b@.skip(i as int)));
            }
            return TitleOrder::Greater;
        }
        proof {
            assert(a@[i as int] == b@[i as int]);
        }
        i = i + 1;
    }
    proof {
        if na <= nb {
            assert(a@.skip(min as int).len() == 0);
            assert(lex_le(a@.skip(min as int), b@.skip(min as int)));
        }
    }
    if na == nb {
        proof {
            assert(a@ =~= b@);
        }
        TitleOrder::Equal
    } else if na < nb {
        proof {
            assert(a@.len() != b@.len());
            assert(a@ != b@);
        }
        TitleOrder::Less
    } else {
        proof {
            assert(b@.skip(min as int).len() == 0);
            assert(a@.skip(min as int).len() > 0);
            assert(!lex_le(a@.skip(min as int), b@.skip(min as int)));
        }
        TitleOrder::Greater
    }
}

/// The base64 text (standard alphabet, padded) of a byte string.
pub uninterp spec fn base64_of(bytes: Seq<u8>) -> Seq<char>;

/// Relies on base64's STANDARD engine: encodes with the standard alphabet
/// and padding, four output characters for every three input bytes. The
/// engine can only fail by overflowing the output length computation, which
/// the precondition rules out.
#[verifier::external_body]
fn base64_encode(bytes: &Vec<u8>) -> (r: String)
    requires
        4 * ((bytes@.len() + 2) / 3) <= usize::MAX,
    ensures
        r@ == base64_of(bytes@),
        r@.len() == 4 * ((bytes@.len() + 2) / 3),
{
    base64::engine::general_purpose::STANDARD.encode(bytes.as_slice())
}

/// Encodes file contents as base64 text, as served to the UI to get around
/// resource-loading restrictions.
pub fn base64_encode_data(file_data: &Vec<u8>) -> (r: String)
    requires
        4 * ((file_data@.len() + 2) / 3) <= usize::MAX,
    ensures
        r@ == base64_of(file_data@),
        r@.len() == 4 * ((file_data@.len() + 2) / 3),
{
    base64_encode(file_data)
}

/// Joins a directory path and a filename with `/`.
pub fn join_path(dir: &str, name: &str) -> (r: String)
    ensures
        r@ == dir@ + "/"@ + name@,
{
    let mut out = String::new();
    out.append(dir);
    out.append("/");
    out.append(name);
    proof {
        assert(out@ =~= dir@ + "/"@ + name@);
    }
    out
}

/// A character is replaced when Windows forbids it in filenames:
/// one of `< > : " / \ | ? *`.
pub open spec fn is_forbidden_char(c: char) -> bool {
    c == '<' || c == '>' || c == ':' || c == '"' || c == '/' || c == '\\' || c == '|' || c == '?'
        || c == '*'
}

/// What sanitization does to one character.
pub open spec fn sanitize_char(c: char) -> char {
    if is_forbidden_char(c) {
        '_'
    } else {
        c
    }
}

/// What sanitization does to a whole string.
pub open spec fn sanitize_seq(s: Seq<char>) -> Seq<char> {
    s.map_values(|c: char| sanitize_char(c))
}

/// What path normalization does to a whole path: every backslash becomes a
/// forward slash.
pub open spec fn normalize_separators(s: Seq<char>) -> Seq<char> {
    s.map_values(
        |c: char|
            if c == '\\' {
                '/'
            } else {
                c
            },
    )
}

/// Normalizes a filesystem path's separators, replacing every `\` with `/`,
/// so that catalog records carry one path spelling across platforms.
pub fn normalize_path_separators(path: &str) -> (r: String)
    ensures
        r@ == normalize_separators(path@),
{
    let n = path.unicode_len();
    let mut out = String::new();
    let mut i: usize = 0;
    while i < n
        invariant
            n == path@.len(),
            i <= n,
            out@.len() == i,
            forall|j: int|
                0 <= j < i ==> out@[j] == if path@[j] == '\\' {
                    '/'
                } else {
                    path@[j]
                },
        decreases n - i,
    {
        let c = path.get_char(i);
        if c == '\\' {
            push_char(&mut out, '/');
        } else {
            push_char(&mut out, c);
        }
        i = i + 1;
    }
    proof {
        assert(out@ =~= normalize_separators(path@));
    }
    out
}

/// Character-by-character string equality: true exactly when the two string
/// slices hold the same sequence of characters.
pub fn str_eq(a: &str, b: &str) -> (r: bool)
    ensures
        r == (a@ == b@),
{
    let na = a.unicode_len();
    let nb = b.unicode_len();
    if na != nb {
        assert(a@.len() != b@.len());
        return false;
    }
    let mut i: usize = 0;
    while i < na
        invariant
            na == a@.len(),
            na == b@.len(),
            i <= na,
            forall|j: int| 0 <= j < i ==> a@[j] == b@[j],
        decreases na - i,
    {
        if a.get_char(i) != b.get_char(i) {
            assert(a@[i as int] != b@[i as int]);
            return false;
        }
        i = i + 1;
    }
    proof {
        assert(a@ =~= b@);
    }
    true
}

/// Relies on String::push: appends the given character to the end of the string.
#[verifier::external_body]
fn push_char(s: &mut String, c: char)
    ensures
        final(s)@ == old(s)@.push(c),
{
    s.push(c);
}

/// Removes the characters that cannot appear in a filename on every platform,
/// replacing each of `< > : " / \ | ? *` with `_`.
///
/// Some book titles contain characters that are not compatible when used as
/// filenames, so cover image files are named after the sanitized title.
pub fn sanitize_windows_filename(filename: String) -> (r: String)
    ensures
        r@ == sanitize_seq(filename@),
{
    let n = filename.as_str().unicode_len();
    let mut out = String::new();
    let mut i: usize = 0;
    while i < n
        invariant
            n == filename@.len(),
            i <= n,
            out@.len() == i,
            forall|j: int| 0 <= j < i ==> out@[j] == sanitize_char(filename@[j]),
        decreases n - i,
    {
        let c = filename.as_str().get_char(i);
        let replaced = c == '<' || c == '>' || c == ':' || c == '"' || c == '/' || c == '\\'
            || c == '|' || c == '?' || c == '*';
        if replaced {
            push_char(&mut out, '_');
        } else {
            push_char(&mut out, c);
        }
        i = i + 1;
    }
    proof {
        assert(out@ =~= sanitize_seq(filename@));
    }
    out
}

/// Binary search within the chunk `[clo, chi]` of titles sharing the key's
/// first character: either the position of an entry titled exactly `key`, or
/// the position at which `key` could be inserted without unsorting the
/// catalog.
fn chunk_search(dataset: &Vec<Book>, key: &String, clo: usize, chi: usize) -> (r: Result<
    usize,
    usize,
>)
    requires
        crate::bookio::sorted_by_title(dataset.deep_view()),
        key@.len() > 0,
        forall|i: int|
            0 <= i < dataset.deep_view().len() ==> #[trigger] dataset.deep_view()[i].title.len()
                > 0,
        clo <= chi < dataset.deep_view().len(),
        dataset.deep_view()[clo as int].title[0] == key@[0],
        dataset.deep_view()[chi as int].title[0] == key@[0],
        forall|j: int| 0 <= j < clo ==> #[trigger] dataset.deep_view()[j].title[0] != key@[0],
        forall|j: int|
            chi < j < dataset.deep_view().len() ==> #[trigger] dataset.deep_view()[j].title[0]
                != key@[0],
    ensures
        ({
            let dv = dataset.deep_view();
            match r {
                Ok(i) => i < dv.len() && dv[i as int].title == key@,
                Err(p) => {
                    &&& p <= dv.len()
                    &&& !has_title(dv, key@)
                    &&& forall|j: int| 0 <= j < p ==> lex_le(#[trigger] dv[j].title, key@)
                    &&& forall|j: int| p <= j < dv.len() ==> lex_le(key@, #[trigger] dv[j].title)
                },
            }
        }),
{
    let ghost dv = dataset.deep_view();
    let ghost k = key@;
    let n = dataset.len();
    proof {
        assert forall|j: int| 0 <= j < clo implies lex_le(#[trigger] dv[j].title, k)
            && dv[j].title != k by {
            assert(lex_le(dv[j].title, dv[clo as int].title));
            lemma_lex_le_first_char(dv[j].title, dv[clo as int].title);
            lemma_lex_le_by_first_char(dv[j].title, k);
        }
        assert forall|j: int| chi < j < dv.len() implies lex_le(k, #[trigger] dv[j].title)
            && dv[j].title != k by {
            assert(lex_le(dv[chi as int].title, dv[j].title));
            lemma_lex_le_first_char(dv[chi as int].title, dv[j].title);
            lemma_lex_le_by_first_char(k, dv[j].title);
        }
    }
    let mut lo: usize = clo;
    let mut hi: usize = chi + 1;
    while lo < hi
        invariant
            dv == dataset.deep_view(),
            k == key@,
            n == dataset.len(),
            crate::bookio::sorted_by_title(dv),
            lo <= hi <= n,
            forall|j: int| 0 <= j < lo ==> lex_le(#[trigger] dv[j].title, k) && dv[j].title != k,
            forall|j: int| hi <= j < n ==> lex_le(k, #[trigger] dv[j].title) && dv[j].title != k,
        decreases hi - lo,
    {
        let mid = lo + (hi - lo) / 2;
        proof {
            assert(dataset[mid as int]@ == dv[mid as int]);
        }
        match compare_strs(dataset[mid].get_title().as_str(), key.as_str()) {
            TitleOrder::Equal => {
                return Ok(mid);
            },
            TitleOrder::Less => {
                proof {
                    assert(lex_le(dv[mid as int].title, k) && dv[mid as int].title != k);
                    assert forall|j: int| 0 <= j < mid + 1 implies lex_le(#[trigger] dv[j].title, k)
                        && dv[j].title != k by {
                        if lo <= j <= mid {
                            if j < mid {
                                assert(lex_le(dv[j].title, dv[mid as int].title));
                            } else {
                                lemma_lex_le_reflexive(dv[mid as int].title);
                            }
                            lemma_lex_le_transitive(dv[j].title, dv[mid as int].title, k);
                            if dv[j].title == k {
                                lemma_lex_le_antisymmetric(dv[mid as int].title, k);
                                assert(false);
                            }
                        }
                    }
                }
                lo = mid + 1;
            },
            TitleOrder::Greater => {
                proof {
                    lemma_lex_le_total(dv[mid as int].title, k);
                    assert(lex_le(k, dv[mid as int].title));
                    if dv[mid as int].title == k {
                        lemma_lex_le_reflexive(k);
                        assert(false);
                    }
                    assert forall|j: int| mid <= j < n implies lex_le(k, #[trigger] dv[j].title)
                        && dv[j].title != k by {
                        if j < hi {
                            if mid < j {
                                assert(lex_le(dv[mid as int].title, dv[j].title));
                            } else {
                                lemma_lex_le_reflexive(dv[mid as int].title);
                            }
                            lemma_lex_le_transitive(k, dv[mid as int].title, dv[j].title);
                            if dv[j].title == k {
                                assert(lex_le(dv[mid as int].title, k));
                                assert(false);
                            }
                        }
                    }
                }
                hi = mid;
            },
        }
    }
    proof {
        assert forall|j: int| 0 <= j < n implies dv[j].title != k by {}
    }
    Err(lo)
}

/// Scans for the first and last catalog positions whose title starts with
/// the same character as `key`, the chunk the binary search then works in.
fn chunk_bounds(dataset: &Vec<Book>, key: &String) -> (r: Option<(usize, usize)>)
    requires
        key@.len() > 0,
        forall|i: int|
            0 <= i < dataset.deep_view().len() ==> #[trigger] dataset.deep_view()[i].title.len()
                > 0,
    ensures
        ({
            let dv = dataset.deep_view();
            match r {
                Some(b) => {
                    &&& b.0 <= b.1 < dv.len()
                    &&& dv[b.0 as int].title[0] == key@[0]
                    &&& dv[b.1 as int].title[0] == key@[0]
                    &&& forall|j: int| 0 <= j < b.0 ==> #[trigger] dv[j].title[0] != key@[0]
                    &&& forall|j: int|
                        b.1 < j < dv.len() ==> #[trigger] dv[j].title[0] != key@[0]
                },
                None => forall|j: int|
                    0 <= j < dv.len() ==> #[trigger] dv[j].title[0] != key@[0],
            }
        }),
{
    let ghost dv = dataset.deep_view();
    let k0 = key.as_str().get_char(0);
    let n = dataset.len();
    let mut lo: usize = 0;
    let mut found: bool = false;
    while lo < n
        invariant_except_break
            !found,
        invariant
            dv == dataset.deep_view(),
            n == dataset.len(),
            k0 == key@[0],
            forall|i: int| 0 <= i < dv.len() ==> #[trigger] dv[i].title.len() > 0,
            lo <= n,
            forall|j: int| 0 <= j < lo ==> #[trigger] dv[j].title[0] != key@[0],
        ensures
            lo <= n,
            forall|j: int| 0 <= j < lo ==> #[trigger] dv[j].title[0] != key@[0],
            found ==> lo < n && dv[lo as int].title[0] == key@[0],
            !found ==> lo == n,
        decreases n - lo,
    {
        proof {
            assert(dataset[lo as int]@ == dv[lo as int]);
        }
        if dataset[lo].get_title().as_str().get_char(0) == k0 {
            found = true;
            break ;
        }
        lo = lo + 1;
    }
    if !found {
        return None;
    }
    let mut hi: usize = n - 1;
    while hi > lo
        invariant
            dv == dataset.deep_view(),
            n == dataset.len(),
            k0 == key@[0],
            forall|i: int| 0 <= i < dv.len() ==> #[trigger] dv[i].title.len() > 0,
            lo <= hi < n,
            dv[lo as int].title[0] == key@[0],
            forall|j: int| hi < j < n ==> #[trigger] dv[j].title[0] != key@[0],
        ensures
            lo <= hi < n,
            dv[hi as int].title[0] == key@[0],
            forall|j: int| hi < j < n ==> #[trigger] dv[j].title[0] != key@[0],
        decreases hi,
    {
        proof {
            assert(dataset[hi as int]@ == dv[hi as int]);
        }
        if dataset[hi].get_title().as_str().get_char(0) == k0 {
            break ;
        }
        hi = hi - 1;
    }
    Some((lo, hi))
}

/// Finds the position of a book titled exactly `key` in an alphabetically
/// sorted catalog, first narrowing to the chunk of titles sharing the key's
/// first character and binary-searching within it. Returns `Some(i)` exactly
/// when the catalog holds such a book, with `dataset[i]` carrying that
/// title, and `None` otherwise: lookup is consistent with exact title
/// equality.
pub fn chunk_binary_search_index_load(dataset: &Vec<Book>, key: &String) -> (r: Option<usize>)
    requires
        crate::bookio::sorted_by_title(dataset.deep_view()),
        key@.len() > 0,
        forall|i: int|
            0 <= i < dataset.deep_view().len() ==> #[trigger] dataset.deep_view()[i].title.len()
                > 0,
    ensures
        ({
            let dv = dataset.deep_view();
            &&& (r is Some) <==> has_title(dv, key@)
            &&& (r matches Some(i) ==> i < dv.len() && dv[i as int].title == key@)
        }),
{
    let ghost dv = dataset.deep_view();
    match chunk_bounds(dataset, key) {
        None => {
            proof {
                if has_title(dv, key@) {
                    let i = choose|i: int| 0 <= i < dv.len() && dv[i].title == key@;
                    assert(dv[i].title[0] != key@[0]);
                }
            }
            None
        },
        Some(bounds) => {
            match chunk_search(dataset, key, bounds.0, bounds.1) {
                Ok(i) => {
                    proof {
                        assert(has_title(dv, key@));
                    }
                    Some(i)
                },
                Err(_) => None,
            }
        },
    }
}

/// Finds the position at which `key` could be inserted into an
/// alphabetically sorted catalog, by the same chunked binary search as the
/// lookup variant — except that a key already present yields `None` (nothing
/// to insert), and a key whose first character opens no chunk yields the end
/// of the catalog.
pub fn chunk_binary_search_index(dataset: &Vec<Book>, key: &String) -> (r: Option<usize>)
    requires
        crate::bookio::sorted_by_title(dataset.deep_view()),
        key@.len() > 0,
        forall|i: int|
            0 <= i < dataset.deep_view().len() ==> #[trigger] dataset.deep_view()[i].title.len()
                > 0,
    ensures
        ({
            let dv = dataset.deep_view();
            &&& (has_title(dv, key@) ==> r is None)
            &&& ((forall|j: int| 0 <= j < dv.len() ==> #[trigger] dv[j].title[0] != key@[0])
                ==> r == Some(dataset.deep_view().len() as usize))
            &&& (r matches Some(p) ==> p <= dv.len())
            &&& ((!has_title(dv, key@) && (exists|j: int|
                0 <= j < dv.len() && #[trigger] dv[j].title[0] == key@[0])) ==> {
                &&& r is Some
                &&& forall|j: int| 0 <= j < r->Some_0 ==> lex_le(#[trigger] dv[j].title, key@)
                &&& forall|j: int|
                    r->Some_0 <= j < dv.len() ==> lex_le(key@, #[trigger] dv[j].title)
            })
        }),
{
    let ghost dv = dataset.deep_view();
    match chunk_bounds(dataset, key) {
        None => {
            proof {
                if has_title(dv, key@) {
                    let i = choose|i: int| 0 <= i < dv.len() && dv[i].title == key@;
                    assert(dv[i].title[0] != key@[0]);
                }
            }
            Some(dataset.len())
        },
        Some(bounds) => {
            match chunk_search(dataset, key, bounds.0, bounds.1) {
                Ok(_) => None,
                Err(p) => Some(p),
            }
        },
    }
}

/// The position of the last occurrence of `c` in `s`, if any.
pub open spec fn last_index_of(s: Seq<char>, c: char) -> Option<int>
    decreases s.len(),
{
    if s.len() == 0 {
        None
    } else if s.last() == c {
        Some(s.len() - 1)
    } else {
        last_index_of(s.drop_last(), c)
    }
}

/// A found last occurrence lies inside the string and holds the character.
pub proof fn lemma_last_index_of_bounds(s: Seq<char>, c: char)
    ensures
        last_index_of(s, c) matches Some(i) ==> 0 <= i < s.len() && s[i] == c,
    decreases s.len(),
{
    if s.len() > 0 && s.last() != c {
        lemma_last_index_of_bounds(s.drop_last(), c);
        match last_index_of(s.drop_last(), c) {
            Some(i) => {
                assert(s.drop_last()[i] == s[i]);
            },
            None => {},
        }
    }
}

/// The position of the last occurrence of `c` in `s`, if any.
pub fn find_last_char(s: &str, c: char) -> (r: Option<usize>)
    ensures
        match r {
            Some(i) => last_index_of(s@, c) == Some(i as int),
            None => last_index_of(s@, c) is None,
        },
{
    let n = s.unicode_len();
    let mut i: usize = n;
    proof {
        assert(s@.subrange(0, n as int) =~= s@);
    }
    while i > 0
        invariant
            n == s@.len(),
            i <= n,
            last_index_of(s@, c) == last_index_of(s@.subrange(0, i as int), c),
        decreases i,
    {
        proof {
            assert(s@.subrange(0, i as int).drop_last() =~= s@.subrange(0, i - 1));
            assert(s@.subrange(0, i as int).last() == s@[i - 1]);
        }
        if s.get_char(i - 1) == c {
            return Some(i - 1);
        }
        i = i - 1;
    }
    None
}

} // verus!
