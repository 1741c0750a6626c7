//! The locator: a binary search over byte offsets for the first record whose
//! key is not less than the query.

use crate::bsq::field;
use crate::bsq::records;
use crate::order;
use vstd::prelude::*;

verus! {

/// The records of `db` come in non-decreasing order of their key field.
pub open spec fn sorted_by_key(db: Seq<u8>, delim: u8, index: nat) -> bool {
    forall|s: int, t: int|
        #![trigger field::key_of(db, s, delim, index), field::key_of(db, t, delim, index)]
        records::is_record_start(db, s) && records::is_record_start(db, t) && s <= t
            ==> order::lex_le(field::key_of(db, s, delim, index), field::key_of(db, t, delim, index))
}

/// `r` separates a record whose key is less than `query` from one whose key
/// is not: `r` is a boundary, the record at `r`, if there is one, has a key
/// not less than `query`, and the record right before `r`, if there is one,
/// has a key less than `query`.
pub open spec fn is_local_lower_bound(
    db: Seq<u8>,
    query: Seq<u8>,
    delim: u8,
    index: nat,
    r: int,
) -> bool {
    &&& records::is_boundary(db, r)
    &&& r < db.len() ==> order::lex_le(query, field::key_of(db, r, delim, index))
    &&& r > 0 ==> order::lex_lt(
        field::key_of(db, records::record_start(db, r - 1), delim, index),
        query,
    )
}

/// `r` is the lower bound of `query`: a boundary such that exactly the
/// records that begin before it have a key less than `query`.
pub open spec fn is_lower_bound(db: Seq<u8>, query: Seq<u8>, delim: u8, index: nat, r: int) -> bool {
    &&& records::is_boundary(db, r)
    &&& forall|s: int| #[trigger]
        records::is_record_start(db, s) ==> (s < r <==> order::lex_lt(
            field::key_of(db, s, delim, index),
            query,
        ))
}

/// The search between the boundaries `lo` and `hi`: probes the record that
/// owns the middle offset and goes on before it or after it.
pub closed spec fn bisect(db: Seq<u8>, query: Seq<u8>, delim: u8, index: nat, lo: int, hi: int) -> int
    decreases hi - lo,
{
    if 0 <= lo < hi <= db.len() {
        let start = records::record_start(db, lo + (hi - lo) / 2);
        let next = records::next_record(db, start);
        if order::lex_le(query, field::key_of(db, start, delim, index)) {
            if lo <= start < hi {
                bisect(db, query, delim, index, lo, start)
            } else {
                start
            }
        } else {
            if lo < next <= hi {
                bisect(db, query, delim, index, next, hi)
            } else {
                hi
            }
        }
    } else {
        hi
    }
}

/// The offset that the locator returns for `query`. On a database that is not
/// sorted it is still one definite offset.
pub closed spec fn lower_bound_of(db: Seq<u8>, query: Seq<u8>, delim: u8, index: nat) -> int {
    bisect(db, query, delim, index, 0, db.len() as int)
}

/// The record that owns `offset` ends where the record that begins at its
/// start ends.
proof fn lemma_owner_end(db: Seq<u8>, offset: int)
    requires
        0 <= offset <= db.len(),
    ensures
        records::record_end(db, records::record_start(db, offset)) == records::record_end(
            db,
            offset,
        ),
{
    let s = records::record_start(db, offset);
    records::lemma_record_start(db, offset);
    records::lemma_find_from(db, records::RECORD_SEPARATOR, s, db.len() as int);
    records::lemma_find_from_same(db, records::RECORD_SEPARATOR, s, offset, db.len() as int);
}

/// On a sorted database a boundary that separates less from not less between
/// its two neighbours separates them among all records.
pub proof fn lemma_local_lower_bound_sorted(
    db: Seq<u8>,
    query: Seq<u8>,
    delim: u8,
    index: nat,
    r: int,
)
    requires
        sorted_by_key(db, delim, index),
        is_local_lower_bound(db, query, delim, index, r),
    ensures
        is_lower_bound(db, query, delim, index, r),
{
    assert forall|s: int| #[trigger] records::is_record_start(db, s) implies (s < r
        <==> order::lex_lt(field::key_of(db, s, delim, index), query)) by {
        if s < r {
            let prev = records::record_start(db, r - 1);
            records::lemma_record_start(db, r - 1);
            records::lemma_record_start_lower(db, s, r - 1);
            assert(records::is_record_start(db, prev));
            order::lemma_lex_le_lt_transitive(
                field::key_of(db, s, delim, index),
                field::key_of(db, prev, delim, index),
                query,
            );
        } else {
            assert(records::is_record_start(db, r));
            order::lemma_lex_le_transitive(
                query,
                field::key_of(db, r, delim, index),
                field::key_of(db, s, delim, index),
            );
        }
    }
}

/// A database has one lower bound for a query at most.
pub proof fn lemma_lower_bound_unique(
    db: Seq<u8>,
    query: Seq<u8>,
    delim: u8,
    index: nat,
    r1: int,
    r2: int,
)
    requires
        is_lower_bound(db, query, delim, index, r1),
        is_lower_bound(db, query, delim, index, r2),
    ensures
        r1 == r2,
{
    if r1 < r2 {
        assert(records::is_record_start(db, r1));
    } else if r2 < r1 {
        assert(records::is_record_start(db, r2));
    }
}

/// On a sorted database the locator's offset is the lower bound of the query:
/// the start of the first record whose key is not less than the query, or the
/// end of the buffer where every key is less.
pub proof fn lemma_lower_bound_of_sorted(db: Seq<u8>, query: Seq<u8>, delim: u8, index: nat)
    requires
        sorted_by_key(db, delim, index),
    ensures
        is_lower_bound(db, query, delim, index, lower_bound_of(db, query, delim, index)),
{
    lemma_bisect(db, query, delim, index, 0, db.len() as int);
    lemma_local_lower_bound_sorted(db, query, delim, index, lower_bound_of(db, query, delim, index));
}

/// Whatever the database holds, the locator's offset separates a record
/// whose key is less than the query from one whose key is not.
pub proof fn lemma_lower_bound_of_local(db: Seq<u8>, query: Seq<u8>, delim: u8, index: nat)
    ensures
        is_local_lower_bound(db, query, delim, index, lower_bound_of(db, query, delim, index)),
        0 <= lower_bound_of(db, query, delim, index) <= db.len(),
{
    lemma_bisect(db, query, delim, index, 0, db.len() as int);
}

/// The search keeps what is known of its two ends: from a lower end whose
/// left neighbour is less and an upper end that is not less, it ends on a
/// boundary between the two that has both.
proof fn lemma_bisect(db: Seq<u8>, query: Seq<u8>, delim: u8, index: nat, lo: int, hi: int)
    requires
        0 <= lo <= hi <= db.len(),
        records::is_boundary(db, lo),
        records::is_boundary(db, hi),
        hi < db.len() ==> order::lex_le(query, field::key_of(db, hi, delim, index)),
        lo > 0 ==> order::lex_lt(
            field::key_of(db, records::record_start(db, lo - 1), delim, index),
            query,
        ),
    ensures
        is_local_lower_bound(db, query, delim, index, bisect(db, query, delim, index, lo, hi)),
        lo <= bisect(db, query, delim, index, lo, hi) <= hi,
    decreases hi - lo,
{
    if lo < hi {
        let mid = lo + (hi - lo) / 2;
        let start = records::record_start(db, mid);
        let next = records::next_record(db, start);
        lemma_probe(db, lo, hi);
        if order::lex_le(query, field::key_of(db, start, delim, index)) {
            lemma_bisect(db, query, delim, index, lo, start);
        } else {
            lemma_bisect(db, query, delim, index, next, hi);
        }
    }
}

/// The record probed between two boundaries begins at or after the lower one
/// and the record after it begins at or before the upper one.
proof fn lemma_probe(db: Seq<u8>, lo: int, hi: int)
    requires
        0 <= lo < hi <= db.len(),
        records::is_boundary(db, lo),
        records::is_boundary(db, hi),
    ensures
        ({
            let start = records::record_start(db, lo + (hi - lo) / 2);
            let next = records::next_record(db, start);
            &&& lo <= start <= lo + (hi - lo) / 2
            &&& records::is_record_start(db, start)
            &&& start < next <= hi
            &&& records::is_boundary(db, next)
            &&& records::record_start(db, next - 1) == start
        }),
{
    let mid = lo + (hi - lo) / 2;
    let start = records::record_start(db, mid);
    records::lemma_record_start(db, mid);
    records::lemma_record_start_lower(db, lo, mid);
    records::lemma_next_record(db, start);
    if hi < db.len() {
        records::lemma_no_record_between(db, start, hi);
    }
}

/// Locates the lower bound of `key` in `database`: the start of the first
/// record whose field `key_idx` is not less than `key` in byte order, or the
/// length of the database where every record's is less. The database is
/// expected to be sorted by that field; where it is not, the offset returned
/// is still a boundary between a record that is less and one that is not.
pub fn lower_bound(key: &str, database: &[u8], delim: u8, key_idx: usize) -> (r: usize)
    ensures
        r == lower_bound_of(database@, vstd::utf8::encode_utf8(key@), delim, key_idx as nat),
        r <= database.len(),
        is_local_lower_bound(database@, vstd::utf8::encode_utf8(key@), delim, key_idx as nat, r as int),
        sorted_by_key(database@, delim, key_idx as nat) ==> is_lower_bound(
            database@,
            vstd::utf8::encode_utf8(key@),
            delim,
            key_idx as nat,
            r as int,
        ),
{
    let r = lower_bound_bytes(key.as_bytes(), database, delim, key_idx);
    r
}

/// Locates the lower bound of a query given as bytes; see `lower_bound`.
pub fn lower_bound_bytes(query: &[u8], database: &[u8], delim: u8, key_idx: usize) -> (r: usize)
    ensures
        r == lower_bound_of(database@, query@, delim, key_idx as nat),
        r <= database.len(),
        is_local_lower_bound(database@, query@, delim, key_idx as nat, r as int),
        sorted_by_key(database@, delim, key_idx as nat) ==> is_lower_bound(
            database@,
            query@,
            delim,
            key_idx as nat,
            r as int,
        ),
{
    let mut lo: usize = 0;
    let mut hi: usize = database.len();
    while lo < hi
        invariant
            lo <= hi <= database.len(),
            records::is_boundary(database@, lo as int),
            records::is_boundary(database@, hi as int),
            bisect(database@, query@, delim, key_idx as nat, lo as int, hi as int)
                == lower_bound_of(database@, query@, delim, key_idx as nat),
        decreases hi - lo,
    {
        let mid = lo + (hi - lo) / 2;
        let (start, end) = records::resolve(database, mid);
        proof {
            lemma_probe(database@, lo as int, hi as int);
            lemma_owner_end(database@, mid as int);
        }
        let (key_start, key_end) = field::field(database, start, end, delim, key_idx);
        if order::bytes_le(query, &database[key_start..key_end]) {
            hi = start;
        } else {
            lo = if end < database.len() {
                end + 1
            } else {
                database.len()
            };
        }
    }
    proof {
        lemma_lower_bound_of_local(database@, query@, delim, key_idx as nat);
        if sorted_by_key(database@, delim, key_idx as nat) {
            lemma_lower_bound_of_sorted(database@, query@, delim, key_idx as nat);
        }
    }
    hi
}

} // verus!
