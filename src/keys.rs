//! Log keys, `globe_id ++ "--" ++ event_id`, the key range of a globe, and
//! the page that a cursor selects from a scan of that range.

use vstd::prelude::*;
use vstd::string::{StrSliceExecFns, StringExecFns};
use crate::text::same_text;

verus! {

/// Events returned per page.
pub const PAGE_SIZE: usize = 10;

/// The separator between a globe id and an event id in a key.
pub open spec fn separator() -> Seq<char> {
    seq!['-', '-']
}

/// The key of event `transaction_id` of globe `globe_id`.
pub open spec fn key_of(globe_id: Seq<char>, transaction_id: Seq<char>) -> Seq<char> {
    globe_id + separator() + transaction_id
}

/// The cursor that asks for a globe's log from its beginning.
pub open spec fn from_start(cursor: Seq<char>) -> bool {
    cursor == seq!['0']
}

/// The character above every key character: it bounds a globe's key range.
pub const KEY_SENTINEL: char = '\u{10ffff}';

/// The key of event `transaction_id` of globe `globe_id`.
pub fn log_key(globe_id: &str, transaction_id: &str) -> (r: String)
    ensures
        r@ == key_of(globe_id@, transaction_id@),
{
    let mut r = String::from_str(globe_id);
    r.push('-');
    r.push('-');
    r.append(transaction_id);
    assert(r@ =~= key_of(globe_id@, transaction_id@));
    r
}

/// Whether `cursor` asks for a globe's log from its beginning.
pub fn is_from_start(cursor: &str) -> (r: bool)
    ensures
        r == from_start(cursor@),
{
    if cursor.unicode_len() != 1 {
        return false;
    }
    let c = cursor.get_char(0);
    assert(c == '0' ==> cursor@ =~= seq!['0']);
    c == '0'
}

/// The first key of the scan that `cursor` asks for in `globe_id`: the
/// globe's first possible key, or the cursor's own key.
pub fn scan_start(globe_id: &str, cursor: &str) -> (r: String)
    ensures
        from_start(cursor@) ==> r@ == key_of(globe_id@, Seq::empty()),
        !from_start(cursor@) ==> r@ == key_of(globe_id@, cursor@),
{
    if is_from_start(cursor) {
        let r = log_key(globe_id, "");
        proof {
            reveal_strlit("");
        }
        r
    } else {
        log_key(globe_id, cursor)
    }
}

/// The key just past every key of `globe_id`.
pub fn scan_end(globe_id: &str) -> (r: String)
    ensures
        r@ == key_of(globe_id@, seq![KEY_SENTINEL]),
{
    let mut r = String::from_str(globe_id);
    r.push('-');
    r.push('-');
    r.push(KEY_SENTINEL);
    assert(r@ =~= key_of(globe_id@, seq![KEY_SENTINEL]));
    r
}

/// The page that `cursor` selects from `scanned`, the entries of a globe's
/// range from the cursor's key on, in key order: the first `PAGE_SIZE`
/// entries, once the entry whose key is the cursor's own is skipped.
pub open spec fn page_of<V>(scanned: Seq<(String, V)>, start: Seq<char>, cursor: Seq<char>) -> Seq<
    (String, V),
> {
    let rest = if !from_start(cursor) && scanned.len() > 0 && scanned[0].0@ == start {
        scanned.drop_first()
    } else {
        scanned
    };
    rest.take(if rest.len() < PAGE_SIZE { rest.len() as int } else { PAGE_SIZE as int })
}

/// Selects the page of `scanned` that `cursor` asks for in `globe_id`;
/// `scanned` holds the entries of the globe's range from
/// `scan_start(globe_id, cursor)` on, in key order.
pub fn page_from_scan(scanned: Vec<(String, String)>, globe_id: &str, cursor: &str) -> (r: Vec<
    (String, String),
>)
    ensures
        r@ == page_of(scanned@, scan_start_key(globe_id@, cursor@), cursor@),
{
    let start = scan_start(globe_id, cursor);
    let skip = !is_from_start(cursor) && scanned.len() > 0 && same_text(
        scanned[0].0.as_str(),
        start.as_str(),
    );
    let ghost rest = if skip {
        scanned@.drop_first()
    } else {
        scanned@
    };
    let mut r: Vec<(String, String)> = Vec::new();
    let mut scanned = scanned;
    let mut j: usize = if skip {
        1
    } else {
        0
    };
    let first = j;
    assert(rest =~= scanned@.skip(first as int));
    while j < scanned.len() && r.len() < PAGE_SIZE
        invariant
            first <= j <= scanned.len(),
            r.len() == j - first,
            r.len() <= PAGE_SIZE,
            rest == scanned@.skip(first as int),
            r@ == rest.take(r.len() as int),
        decreases scanned.len() - j,
    {
        let (k, v) = &scanned[j];
        r.push((k.clone(), v.clone()));
        assert(r@ =~= rest.take(r.len() as int));
        j = j + 1;
    }
    assert(rest.len() == scanned.len() - first);
    assert(r.len() == if rest.len() < PAGE_SIZE { rest.len() as int } else { PAGE_SIZE as int });
    assert(rest == if !from_start(cursor@) && scanned@.len() > 0 && scanned@[0].0@ == start@ {
        scanned@.drop_first()
    } else {
        scanned@
    });
    assert(r@ =~= page_of(scanned@, start@, cursor@));
    r
}

/// The first key of the scan that `cursor` asks for in `globe_id`.
pub open spec fn scan_start_key(globe_id: Seq<char>, cursor: Seq<char>) -> Seq<char> {
    if from_start(cursor) {
        key_of(globe_id, Seq::empty())
    } else {
        key_of(globe_id, cursor)
    }
}

/// Whether a `--` starts at index `i` of `s`.
pub open spec fn dashdash_at(s: Seq<char>, i: int) -> bool {
    0 <= i && i + 1 < s.len() && s[i] == '-' && s[i + 1] == '-'
}

/// Where the first `--` at or after `from` starts in `s`.
pub open spec fn next_dashdash(s: Seq<char>, from: int) -> Option<int>
    decreases s.len() - from,
{
    if from < 0 || from + 1 >= s.len() {
        None
    } else if dashdash_at(s, from) {
        Some(from)
    } else {
        next_dashdash(s, from + 1)
    }
}

/// The second piece of `s` split at `--`: what follows the first `--`, up
/// to the next `--` or the end; none where `s` has no `--`.
pub open spec fn after_dashdash(s: Seq<char>) -> Option<Seq<char>> {
    match next_dashdash(s, 0) {
        None => None,
        Some(i) => Some(
            match next_dashdash(s, i + 2) {
                None => s.subrange(i + 2, s.len() as int),
                Some(j) => s.subrange(i + 2, j),
            },
        ),
    }
}

proof fn lemma_next_dashdash_bounds(s: Seq<char>, from: int)
    ensures
        next_dashdash(s, from) matches Some(i) ==> from <= i && dashdash_at(s, i),
    decreases s.len() - from,
{
    if from >= 0 && from + 1 < s.len() && !dashdash_at(s, from) {
        lemma_next_dashdash_bounds(s, from + 1);
    }
}

/// Where the first `--` at or after `from` starts in `s`.
fn find_dashdash(s: &str, from: usize) -> (r: Option<usize>)
    requires
        from <= s@.len(),
    ensures
        r matches Some(i) ==> next_dashdash(s@, from as int) == Some(i as int),
        r is None ==> next_dashdash(s@, from as int) is None,
{
    let n = s.unicode_len();
    let mut i = from;
    while n > 0 && i < n - 1
        invariant
            n == s@.len(),
            from <= i <= n,
            next_dashdash(s@, from as int) == next_dashdash(s@, i as int),
        decreases n - i,
    {
        if s.get_char(i) == '-' && s.get_char(i + 1) == '-' {
            return Some(i);
        }
        i = i + 1;
    }
    None
}

/// The event id of a log key: what follows its first `--`, up to the next
/// `--` or the end.
pub fn get_after_dashdash(s: &str) -> (r: Option<&str>)
    ensures
        r matches Some(t) ==> after_dashdash(s@) == Some(t@),
        r is None ==> after_dashdash(s@) is None,
{
    let n = s.unicode_len();
    match find_dashdash(s, 0) {
        None => None,
        Some(i) => {
            proof {
                lemma_next_dashdash_bounds(s@, 0);
            }
            match find_dashdash(s, i + 2) {
                None => Some(s.substring_char(i + 2, n)),
                Some(j) => {
                    proof {
                        lemma_next_dashdash_bounds(s@, i + 2);
                    }
                    Some(s.substring_char(i + 2, j))
                },
            }
        },
    }
}

} // verus!
