//! Records: the lines of the database.
//!
//! A record owns the bytes from its start up to, but not including, the next
//! separator, and the separator that ends it. The last record may end at the
//! end of the buffer instead. A separator that is the last byte of the buffer
//! ends the last record and begins no other.

use vstd::prelude::*;

verus! {

/// The byte that ends a record.
pub const RECORD_SEPARATOR: u8 = 10;

/// A record begins at `s`: inside the buffer, at its start or right after a
/// separator.
pub open spec fn is_record_start(db: Seq<u8>, s: int) -> bool {
    0 <= s < db.len() && (s == 0 || db[s - 1] == RECORD_SEPARATOR)
}

/// `b` is where a record begins or the end of the buffer.
pub open spec fn is_boundary(db: Seq<u8>, b: int) -> bool {
    b == db.len() || is_record_start(db, b)
}

/// The first offset at or after `from` and below `end` that holds `item`, or
/// `end` where there is none.
pub open spec fn find_from(s: Seq<u8>, item: u8, from: int, end: int) -> int
    decreases end - from,
{
    if from >= end {
        end
    } else if s[from] == item {
        from
    } else {
        find_from(s, item, from + 1, end)
    }
}

/// Start of the record that owns `offset`: right after the nearest separator
/// strictly before `offset`, or 0.
pub open spec fn record_start(db: Seq<u8>, offset: int) -> int
    decreases offset,
{
    if offset <= 0 {
        0
    } else if db[offset - 1] == RECORD_SEPARATOR {
        offset
    } else {
        record_start(db, offset - 1)
    }
}

/// End of the record that owns `offset`: the nearest separator at or after
/// `offset`, or the end of the buffer.
pub open spec fn record_end(db: Seq<u8>, offset: int) -> int {
    find_from(db, RECORD_SEPARATOR, offset, db.len() as int)
}

/// Where the record after the one that owns `offset` begins: past the
/// separator, or the end of the buffer.
pub open spec fn next_record(db: Seq<u8>, offset: int) -> int {
    let end = record_end(db, offset);
    if end < db.len() {
        end + 1
    } else {
        db.len() as int
    }
}

/// What `find_from` returns lies between `from` and `end`, holds `item` unless
/// it is `end`, and nothing before it does.
pub proof fn lemma_find_from(s: Seq<u8>, item: u8, from: int, end: int)
    requires
        0 <= from <= end <= s.len(),
    ensures
        from <= find_from(s, item, from, end) <= end,
        find_from(s, item, from, end) < end ==> s[find_from(s, item, from, end)] == item,
        forall|i: int| from <= i < find_from(s, item, from, end) ==> s[i] != item,
    decreases end - from,
{
    if from < end && s[from] != item {
        lemma_find_from(s, item, from + 1, end);
    }
}

/// Searching from anywhere before the first hit finds the same hit.
pub proof fn lemma_find_from_same(s: Seq<u8>, item: u8, from: int, mid: int, end: int)
    requires
        0 <= from <= mid <= end <= s.len(),
        mid <= find_from(s, item, from, end),
    ensures
        find_from(s, item, mid, end) == find_from(s, item, from, end),
    decreases mid - from,
{
    if from < mid {
        lemma_find_from(s, item, from, end);
        lemma_find_from_same(s, item, from + 1, mid, end);
    }
}

/// The start of the record that owns `offset` is a boundary at or before
/// `offset` with no separator between the two.
pub proof fn lemma_record_start(db: Seq<u8>, offset: int)
    requires
        0 <= offset <= db.len(),
    ensures
        0 <= record_start(db, offset) <= offset,
        record_start(db, offset) == 0 || db[record_start(db, offset) - 1] == RECORD_SEPARATOR,
        forall|i: int| record_start(db, offset) <= i < offset ==> db[i] != RECORD_SEPARATOR,
    decreases offset,
{
    if offset > 0 && db[offset - 1] != RECORD_SEPARATOR {
        lemma_record_start(db, offset - 1);
    }
}

/// A record that begins at or before `offset` begins at or before the record
/// that owns `offset`.
pub proof fn lemma_record_start_lower(db: Seq<u8>, s: int, offset: int)
    requires
        0 <= s <= offset <= db.len(),
        s == 0 || db[s - 1] == RECORD_SEPARATOR,
    ensures
        s <= record_start(db, offset),
    decreases offset - s,
{
    if s < offset && db[offset - 1] != RECORD_SEPARATOR {
        lemma_record_start_lower(db, s, offset - 1);
    }
}

/// Every offset from a record's start to its end is owned by that record.
pub proof fn lemma_record_owns(db: Seq<u8>, s: int, offset: int)
    requires
        0 <= s <= offset <= record_end(db, s),
        s <= db.len(),
        s == 0 || db[s - 1] == RECORD_SEPARATOR,
    ensures
        record_start(db, offset) == s,
        record_end(db, offset) == record_end(db, s),
    decreases offset - s,
{
    lemma_find_from(db, RECORD_SEPARATOR, s, db.len() as int);
    lemma_find_from_same(db, RECORD_SEPARATOR, s, offset, db.len() as int);
    if s < offset {
        lemma_record_owns(db, s, offset - 1);
    }
}

/// The record after one that begins inside the buffer begins strictly later,
/// at a boundary, and the offset before it is owned by the earlier record.
pub proof fn lemma_next_record(db: Seq<u8>, s: int)
    requires
        is_record_start(db, s),
    ensures
        s < next_record(db, s) <= db.len(),
        is_boundary(db, next_record(db, s)),
        record_start(db, next_record(db, s) - 1) == s,
{
    lemma_find_from(db, RECORD_SEPARATOR, s, db.len() as int);
    lemma_record_owns(db, s, next_record(db, s) - 1);
}

/// No record begins between a record's start and the start of the next.
pub proof fn lemma_no_record_between(db: Seq<u8>, s: int, t: int)
    requires
        is_record_start(db, s),
        is_record_start(db, t),
        s < t,
    ensures
        next_record(db, s) <= t,
{
    lemma_find_from(db, RECORD_SEPARATOR, s, db.len() as int);
}

/// Resolves `offset` to the record that owns it: returns the record's start
/// and its end.
pub fn resolve(database: &[u8], offset: usize) -> (r: (usize, usize))
    requires
        offset <= database.len(),
    ensures
        r.0 == record_start(database@, offset as int),
        r.1 == record_end(database@, offset as int),
        r.0 <= offset <= r.1 <= database.len(),
        r.0 == 0 || database@[r.0 - 1] == RECORD_SEPARATOR,
        r.1 == database.len() || database@[r.1 as int] == RECORD_SEPARATOR,
        forall|i: int| r.0 <= i < r.1 ==> database@[i] != RECORD_SEPARATOR,
{
    let mut start: usize = offset;
    while start > 0 && database[start - 1] != RECORD_SEPARATOR
        invariant
            start <= offset <= database.len(),
            record_start(database@, start as int) == record_start(database@, offset as int),
        decreases start,
    {
        start -= 1;
    }
    let mut end: usize = offset;
    while end < database.len() && database[end] != RECORD_SEPARATOR
        invariant
            offset <= end <= database.len(),
            record_end(database@, end as int) == record_end(database@, offset as int),
        decreases database.len() - end,
    {
        end += 1;
    }
    proof {
        lemma_record_start(database@, offset as int);
        lemma_find_from(database@, RECORD_SEPARATOR, offset as int, database.len() as int);
    }
    (start, end)
}

} // verus!
