//! The expander: from the locator's offset forward over the records that
//! match the query.

use crate::bsq::field;
use crate::bsq::records;
use crate::order;
use vstd::prelude::*;

verus! {

/// How a key is held against the query.
#[derive(Clone, Copy, Debug, PartialEq, Eq, Structural)]
pub enum MatchType {
    /// The key equals the query.
    ExactMatch,
    /// The key begins with the query.
    PrefixMatch,
}

/// The match predicate: `key` satisfies `query` under `match_type`.
pub open spec fn key_matches(match_type: MatchType, key: Seq<u8>, query: Seq<u8>) -> bool {
    match match_type {
        MatchType::ExactMatch => key == query,
        MatchType::PrefixMatch => query.is_prefix_of(key),
    }
}

/// A record begins at `start` inside the buffer and its key satisfies the
/// query.
pub open spec fn record_matches(
    db: Seq<u8>,
    start: int,
    query: Seq<u8>,
    index: nat,
    delim: u8,
    match_type: MatchType,
) -> bool {
    0 <= start < db.len() && key_matches(
        match_type,
        field::key_of(db, start, delim, index),
        query,
    )
}

/// Where the run of matching records that begins at `start` ends: `start`
/// itself where the record there does not match, else the end of the run
/// that begins at the next record.
pub open spec fn run_end(
    db: Seq<u8>,
    start: int,
    query: Seq<u8>,
    index: nat,
    delim: u8,
    match_type: MatchType,
) -> int
    decreases db.len() - start,
{
    if record_matches(db, start, query, index, delim, match_type) {
        let next = records::next_record(db, start);
        if start < next {
            run_end(db, next, query, index, delim, match_type)
        } else {
            start
        }
    } else {
        start
    }
}

/// The span of the run of matching records that begins at `start`, or `None`
/// where the record at `start` does not match.
pub open spec fn matching_span(
    db: Seq<u8>,
    start: int,
    query: Seq<u8>,
    index: nat,
    delim: u8,
    match_type: MatchType,
) -> Option<(int, int)> {
    if record_matches(db, start, query, index, delim, match_type) {
        Some((start, run_end(db, start, query, index, delim, match_type)))
    } else {
        None
    }
}

/// A key that equals the query begins with it: what matches exactly matches
/// as a prefix.
pub proof fn lemma_exact_is_prefix(key: Seq<u8>, query: Seq<u8>)
    requires
        key_matches(MatchType::ExactMatch, key, query),
    ensures
        key_matches(MatchType::PrefixMatch, key, query),
{
    assert(query =~= key.subrange(0, query.len() as int));
}

/// The record after `start` begins later, inside the buffer or at its end.
proof fn lemma_step(db: Seq<u8>, start: int)
    requires
        0 <= start < db.len(),
    ensures
        start < records::next_record(db, start) <= db.len(),
{
    records::lemma_find_from(db, records::RECORD_SEPARATOR, start, db.len() as int);
}

/// The run of matching records, said without recursion. With `end` the end
/// of the run that begins at the boundary `start`: `end` is a boundary at or
/// after `start`, every record that begins from `start` to before `end`
/// matches, and the record at `end`, if there is one, does not.
pub proof fn lemma_run_end(
    db: Seq<u8>,
    start: int,
    query: Seq<u8>,
    index: nat,
    delim: u8,
    match_type: MatchType,
)
    requires
        0 <= start,
        records::is_boundary(db, start),
    ensures
        ({
            let end = run_end(db, start, query, index, delim, match_type);
            &&& start <= end <= db.len()
            &&& records::is_boundary(db, end)
            &&& !record_matches(db, end, query, index, delim, match_type)
            &&& forall|s: int|
                start <= s < end && #[trigger] records::is_record_start(db, s) ==> record_matches(
                    db,
                    s,
                    query,
                    index,
                    delim,
                    match_type,
                )
        }),
    decreases db.len() - start,
{
    if record_matches(db, start, query, index, delim, match_type) {
        let next = records::next_record(db, start);
        records::lemma_next_record(db, start);
        lemma_run_end(db, next, query, index, delim, match_type);
        let end = run_end(db, start, query, index, delim, match_type);
        assert forall|s: int|
            start <= s < end && #[trigger] records::is_record_start(db, s) implies record_matches(
            db,
            s,
            query,
            index,
            delim,
            match_type,
        ) by {
            if start < s {
                records::lemma_no_record_between(db, start, s);
            }
        }
    }
}

/// The run of exact matches from `start` ends no later than the run of prefix
/// matches from there: the span of the prefix matches holds the span of the
/// exact ones.
pub proof fn lemma_prefix_run_holds_exact_run(
    db: Seq<u8>,
    start: int,
    query: Seq<u8>,
    index: nat,
    delim: u8,
)
    requires
        0 <= start,
    ensures
        run_end(db, start, query, index, delim, MatchType::ExactMatch) <= run_end(
            db,
            start,
            query,
            index,
            delim,
            MatchType::PrefixMatch,
        ),
        matching_span(db, start, query, index, delim, MatchType::ExactMatch) is Some
            ==> matching_span(db, start, query, index, delim, MatchType::PrefixMatch) is Some,
    decreases db.len() - start,
{
    if record_matches(db, start, query, index, delim, MatchType::ExactMatch) {
        lemma_exact_is_prefix(field::key_of(db, start, delim, index), query);
        lemma_step(db, start);
        lemma_prefix_run_holds_exact_run(
            db,
            records::next_record(db, start),
            query,
            index,
            delim,
        );
    } else if record_matches(db, start, query, index, delim, MatchType::PrefixMatch) {
        lemma_step(db, start);
        lemma_run_end_lower(
            db,
            records::next_record(db, start),
            query,
            index,
            delim,
            MatchType::PrefixMatch,
        );
    }
}

/// A run ends at or after the offset it begins at, and at most at the end of
/// the buffer where it begins inside.
proof fn lemma_run_end_lower(
    db: Seq<u8>,
    start: int,
    query: Seq<u8>,
    index: nat,
    delim: u8,
    match_type: MatchType,
)
    ensures
        start <= run_end(db, start, query, index, delim, match_type),
        0 <= start <= db.len() ==> run_end(db, start, query, index, delim, match_type) <= db.len(),
    decreases db.len() - start,
{
    if record_matches(db, start, query, index, delim, match_type) {
        lemma_step(db, start);
        lemma_run_end_lower(
            db,
            records::next_record(db, start),
            query,
            index,
            delim,
            match_type,
        );
    }
}

/// A run that begins at a record goes past every later record up to which
/// all records match.
pub proof fn lemma_run_covers(
    db: Seq<u8>,
    start: int,
    s: int,
    query: Seq<u8>,
    index: nat,
    delim: u8,
    match_type: MatchType,
)
    requires
        records::is_record_start(db, start),
        records::is_record_start(db, s),
        start <= s,
        forall|t: int|
            start <= t <= s && #[trigger] records::is_record_start(db, t) ==> record_matches(
                db,
                t,
                query,
                index,
                delim,
                match_type,
            ),
    ensures
        s < run_end(db, start, query, index, delim, match_type),
    decreases s - start,
{
    let next = records::next_record(db, start);
    records::lemma_next_record(db, start);
    lemma_run_end_lower(db, next, query, index, delim, match_type);
    if start < s {
        records::lemma_no_record_between(db, start, s);
        lemma_run_covers(db, next, s, query, index, delim, match_type);
    }
}

/// Decides whether the key `[key_start, key_end)` satisfies the query.
fn key_satisfies(
    database: &[u8],
    key_start: usize,
    key_end: usize,
    query: &[u8],
    match_type: &MatchType,
) -> (r: bool)
    requires
        key_start <= key_end <= database.len(),
    ensures
        r == key_matches(
            *match_type,
            database@.subrange(key_start as int, key_end as int),
            query@,
        ),
{
    let key = &database[key_start..key_end];
    match match_type {
        MatchType::ExactMatch => order::bytes_eq(key, query),
        MatchType::PrefixMatch => order::bytes_start_with(key, query),
    }
}

/// Tests the record that begins at `start`. Where its key field satisfies
/// the query, returns `start` and the offset past the record and its
/// separator; returns `None` where it does not, and where `start` is at or
/// past the end of the database.
pub fn get_match_range(
    database: &[u8],
    start: usize,
    query: &[u8],
    key_idx: usize,
    delim: u8,
    match_type: &MatchType,
) -> (r: Option<(usize, usize)>)
    ensures
        r is Some <==> record_matches(
            database@,
            start as int,
            query@,
            key_idx as nat,
            delim,
            *match_type,
        ),
        r matches Some((first, end)) ==> first == start && end == records::next_record(
            database@,
            start as int,
        ) && start < end <= database.len(),
{
    if start >= database.len() {
        return None;
    }
    let (_, end) = records::resolve(database, start);
    let (key_start, key_end) = field::field(database, start, end, delim, key_idx);
    if !key_satisfies(database, key_start, key_end, query, match_type) {
        return None;
    }
    let next = if end < database.len() {
        end + 1
    } else {
        database.len()
    };
    Some((start, next))
}

/// Walks forward from `start` over the records that satisfy the query and
/// returns the span from `start` to the end of the last of them, separator
/// included. Returns `None` where the record at `start` does not satisfy it.
pub fn expand(
    database: &[u8],
    start: usize,
    query: &[u8],
    key_idx: usize,
    delim: u8,
    match_type: &MatchType,
) -> (r: Option<(usize, usize)>)
    ensures
        match r {
            Some((first, end)) => matching_span(
                database@,
                start as int,
                query@,
                key_idx as nat,
                delim,
                *match_type,
            ) == Some((first as int, end as int)) && first == start && start < end
                <= database.len(),
            None => matching_span(
                database@,
                start as int,
                query@,
                key_idx as nat,
                delim,
                *match_type,
            ) is None,
        },
{
    let mut first: usize = start;
    let mut last: Option<usize> = None;
    loop
        invariant
            start <= first,
            run_end(database@, first as int, query@, key_idx as nat, delim, *match_type)
                == run_end(database@, start as int, query@, key_idx as nat, delim, *match_type),
            match last {
                Some(end) => end == first && start < end <= database.len() && record_matches(
                    database@,
                    start as int,
                    query@,
                    key_idx as nat,
                    delim,
                    *match_type,
                ),
                None => first == start,
            },
        ensures
            !record_matches(
                database@,
                first as int,
                query@,
                key_idx as nat,
                delim,
                *match_type,
            ),
        decreases database.len() - first,
    {
        match get_match_range(database, first, query, key_idx, delim, match_type) {
            Some((_, end)) => {
                first = end;
                last = Some(end);
            },
            None => {
                break ;
            },
        }
    }
    match last {
        Some(end) => Some((start, end)),
        None => None,
    }
}

} // verus!
