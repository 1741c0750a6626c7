//! Fields: the delimiter-separated parts of a record, and the key among them.

use crate::bsq::records;
use crate::order;
use vstd::prelude::*;

verus! {

/// How often `item` occurs in `s`.
pub open spec fn occurrences(s: Seq<u8>, item: u8) -> nat
    decreases s.len(),
{
    if s.len() == 0 {
        0
    } else {
        occurrences(s.drop_last(), item) + if s.last() == item {
            1nat
        } else {
            0nat
        }
    }
}

/// Index of the `n`-th occurrence of `item` in `s` at or after `from`,
/// counting from one; `None` where `n` is zero or there are fewer.
pub open spec fn nth_index_from(s: Seq<u8>, item: u8, n: nat, from: int) -> Option<int>
    decreases s.len() - from,
{
    if n == 0 || from < 0 || from >= s.len() {
        None
    } else if s[from] != item {
        nth_index_from(s, item, n, from + 1)
    } else if n == 1 {
        Some(from)
    } else {
        nth_index_from(s, item, (n - 1) as nat, from + 1)
    }
}

/// Index of the `n`-th occurrence of `item` in `s`, counting from one.
pub open spec fn nth_index(s: Seq<u8>, item: u8, n: nat) -> Option<int> {
    nth_index_from(s, item, n, 0)
}

/// Where field `index` of the record `[start, end)` begins: at `start` for
/// the first field, else right after the `index`-th delimiter of the record,
/// and at `end` where the record has fewer delimiters.
pub open spec fn field_start(db: Seq<u8>, start: int, end: int, delim: u8, index: nat) -> int {
    if index == 0 {
        start
    } else {
        match nth_index(db.subrange(start, end), delim, index) {
            Some(p) => start + p + 1,
            None => end,
        }
    }
}

/// Where field `index` of the record `[start, end)` ends: at the next
/// delimiter of the record, or at `end`.
pub open spec fn field_end(db: Seq<u8>, start: int, end: int, delim: u8, index: nat) -> int {
    records::find_from(db, delim, field_start(db, start, end, delim, index), end)
}

/// The bytes of field `index` of the record that begins at `start`.
pub open spec fn key_of(db: Seq<u8>, start: int, delim: u8, index: nat) -> Seq<u8> {
    let end = records::record_end(db, start);
    db.subrange(
        field_start(db, start, end, delim, index),
        field_end(db, start, end, delim, index),
    )
}

/// Counting in a longer prefix: one more where the added byte is `item`.
proof fn lemma_occurrences_take(s: Seq<u8>, item: u8, i: int)
    requires
        0 <= i < s.len(),
    ensures
        occurrences(s.take(i + 1), item) == occurrences(s.take(i), item) + if s[i] == item {
            1nat
        } else {
            0nat
        },
{
    assert(s.take(i + 1).drop_last() =~= s.take(i));
}

/// `item` occurs in a prefix at most as often as in the whole.
proof fn lemma_occurrences_prefix(s: Seq<u8>, item: u8, i: int)
    requires
        0 <= i <= s.len(),
    ensures
        occurrences(s.take(i), item) <= occurrences(s, item),
    decreases s.len() - i,
{
    if i < s.len() {
        lemma_occurrences_take(s, item, i);
        lemma_occurrences_prefix(s, item, i + 1);
    } else {
        assert(s.take(i) =~= s);
    }
}

/// What `nth_index_from` finds, said by counting: the index holds `item` and
/// as many occurrences precede it as were short; where it finds nothing, the
/// whole sequence has too few.
proof fn lemma_nth_index_from(s: Seq<u8>, item: u8, n: nat, from: int)
    requires
        0 <= from <= s.len(),
        n >= 1,
    ensures
        match nth_index_from(s, item, n, from) {
            Some(i) => from <= i < s.len() && s[i] == item && occurrences(s.take(i), item)
                == occurrences(s.take(from), item) + n - 1,
            None => occurrences(s, item) < occurrences(s.take(from), item) + n,
        },
    decreases s.len() - from,
{
    if from >= s.len() {
        assert(s.take(from) =~= s);
    } else {
        lemma_occurrences_take(s, item, from);
        if s[from] != item {
            lemma_nth_index_from(s, item, n, from + 1);
        } else if n > 1 {
            lemma_nth_index_from(s, item, (n - 1) as nat, from + 1);
        }
    }
}

/// The `n`-th occurrence, said by counting: `nth_index` gives the one index
/// that holds `item` with `n - 1` occurrences before it, and `None` exactly
/// where `item` occurs fewer than `n` times or `n` is zero.
pub proof fn lemma_nth_index(s: Seq<u8>, item: u8, n: nat)
    ensures
        match nth_index(s, item, n) {
            Some(i) => n >= 1 && 0 <= i < s.len() && s[i] == item && occurrences(s.take(i), item)
                == n - 1,
            None => n == 0 || occurrences(s, item) < n,
        },
{
    if n >= 1 {
        assert(s.take(0) =~= Seq::<u8>::empty());
        lemma_nth_index_from(s, item, n, 0);
    }
}

/// The key field lies inside its record.
pub proof fn lemma_field_bounds(db: Seq<u8>, start: int, end: int, delim: u8, index: nat)
    requires
        0 <= start <= end <= db.len(),
    ensures
        start <= field_start(db, start, end, delim, index) <= field_end(
            db,
            start,
            end,
            delim,
            index,
        ) <= end,
{
    lemma_nth_index(db.subrange(start, end), delim, index);
    records::lemma_find_from(db, delim, field_start(db, start, end, delim, index), end);
}

/// A record with fewer delimiters than the field's index has no such field:
/// the field is then the empty span at the record's end.
pub proof fn lemma_absent_field(db: Seq<u8>, start: int, end: int, delim: u8, index: nat)
    requires
        0 <= start <= end <= db.len(),
        occurrences(db.subrange(start, end), delim) < index,
    ensures
        field_start(db, start, end, delim, index) == end,
        field_end(db, start, end, delim, index) == end,
{
    lemma_nth_index(db.subrange(start, end), delim, index);
    let s = db.subrange(start, end);
    if let Some(i) = nth_index(s, delim, index) {
        lemma_occurrences_take(s, delim, i);
        lemma_occurrences_prefix(s, delim, i + 1);
    }
}

/// The absent-field policy: a record with fewer delimiters than the key's
/// index has the empty key, which comes before every query that has a byte.
pub proof fn lemma_absent_key(db: Seq<u8>, start: int, delim: u8, index: nat, query: Seq<u8>)
    requires
        0 <= start <= db.len(),
        occurrences(db.subrange(start, records::record_end(db, start)), delim) < index,
    ensures
        key_of(db, start, delim, index) == Seq::<u8>::empty(),
        query.len() > 0 ==> order::lex_lt(key_of(db, start, delim, index), query),
{
    let end = records::record_end(db, start);
    records::lemma_find_from(db, records::RECORD_SEPARATOR, start, db.len() as int);
    lemma_absent_field(db, start, end, delim, index);
    assert(db.subrange(end, end) =~= Seq::<u8>::empty());
}

/// Finds the `n`-th occurrence of `item` in `s`, counting from one, and
/// returns its index. Returns `None` where `item` occurs fewer than `n`
/// times, and where `n` is zero.
pub fn nth_pos(s: &[u8], item: u8, n: usize) -> (r: Option<usize>)
    ensures
        match r {
            Some(i) => nth_index(s@, item, n as nat) == Some(i as int),
            None => nth_index(s@, item, n as nat) is None,
        },
        match r {
            Some(i) => n >= 1 && i < s.len() && s@[i as int] == item && occurrences(
                s@.take(i as int),
                item,
            ) == n - 1,
            None => n == 0 || occurrences(s@, item) < n,
        },
{
    if n == 0 {
        return None;
    }
    let mut left: usize = n;
    let mut i: usize = 0;
    while i < s.len()
        invariant
            i <= s.len(),
            1 <= left <= n,
            nth_index_from(s@, item, left as nat, i as int) == nth_index(s@, item, n as nat),
        decreases s.len() - i,
    {
        if s[i] == item {
            if left == 1 {
                proof {
                    lemma_nth_index(s@, item, n as nat);
                }
                return Some(i);
            }
            left -= 1;
        }
        i += 1;
    }
    proof {
        lemma_nth_index(s@, item, n as nat);
    }
    None
}

/// Extracts field `field_index` of the record `[record_start, record_end)`:
/// returns where the field begins and where it ends. A field that the record
/// does not have is the empty span at the record's end.
pub fn field(
    database: &[u8],
    record_start: usize,
    record_end: usize,
    delimiter: u8,
    field_index: usize,
) -> (r: (usize, usize))
    requires
        record_start <= record_end <= database.len(),
    ensures
        r.0 == field_start(
            database@,
            record_start as int,
            record_end as int,
            delimiter,
            field_index as nat,
        ),
        r.1 == field_end(
            database@,
            record_start as int,
            record_end as int,
            delimiter,
            field_index as nat,
        ),
        record_start <= r.0 <= r.1 <= record_end,
        field_index == 0 ==> r.0 == record_start,
        occurrences(database@.subrange(record_start as int, record_end as int), delimiter)
            < field_index ==> r.0 == record_end && r.1 == record_end,
        r.1 == record_end || database@[r.1 as int] == delimiter,
        forall|i: int| r.0 <= i < r.1 ==> database@[i] != delimiter,
{
    proof {
        lemma_field_bounds(
            database@,
            record_start as int,
            record_end as int,
            delimiter,
            field_index as nat,
        );
        if occurrences(database@.subrange(record_start as int, record_end as int), delimiter)
            < field_index {
            lemma_absent_field(
                database@,
                record_start as int,
                record_end as int,
                delimiter,
                field_index as nat,
            );
        }
    }
    let key_start = if field_index == 0 {
        record_start
    } else {
        match nth_pos(&database[record_start..record_end], delimiter, field_index) {
            Some(pos) => record_start + pos + 1,
            None => record_end,
        }
    };
    let mut key_end: usize = key_start;
    while key_end < record_end && database[key_end] != delimiter
        invariant
            key_start <= key_end <= record_end <= database.len(),
            records::find_from(database@, delimiter, key_end as int, record_end as int)
                == records::find_from(database@, delimiter, key_start as int, record_end as int),
        decreases record_end - key_end,
    {
        key_end += 1;
    }
    proof {
        records::lemma_find_from(database@, delimiter, key_start as int, record_end as int);
    }
    (key_start, key_end)
}

} // verus!
