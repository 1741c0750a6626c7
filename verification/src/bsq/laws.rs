//! What holds of a query as a whole.

use crate::bsq::expand;
use crate::bsq::expand::MatchType;
use crate::bsq::field;
use crate::bsq::locate;
use crate::bsq::records;
use crate::order;
use vstd::prelude::*;

verus! {

/// A key that satisfies the query is not less than it.
pub proof fn lemma_match_not_less(match_type: MatchType, key: Seq<u8>, query: Seq<u8>)
    requires
        expand::key_matches(match_type, key, query),
    ensures
        order::lex_le(query, key),
{
    match match_type {
        MatchType::ExactMatch => order::lemma_lex_le_reflexive(key),
        MatchType::PrefixMatch => order::lemma_prefix_lex_le(query, key),
    }
}

/// Match completeness. The span of a query begins at the query's lower bound
/// and ends at a boundary; every record that begins inside it satisfies the
/// query, and the record after it, if there is one, does not. Where the
/// query has no span, the record at the lower bound does not satisfy it.
pub proof fn lemma_span_is_maximal_run(
    db: Seq<u8>,
    query: Seq<u8>,
    delim: u8,
    index: nat,
    match_type: MatchType,
)
    ensures
        match crate::bsq::query_span(db, query, delim, index, match_type) {
            Some((start, end)) => {
                &&& start == locate::lower_bound_of(db, query, delim, index)
                &&& 0 <= start < end <= db.len()
                &&& records::is_record_start(db, start)
                &&& records::is_boundary(db, end)
                &&& !expand::record_matches(db, end, query, index, delim, match_type)
                &&& forall|s: int|
                    start <= s < end && #[trigger] records::is_record_start(db, s)
                        ==> expand::record_matches(db, s, query, index, delim, match_type)
            },
            None => !expand::record_matches(
                db,
                locate::lower_bound_of(db, query, delim, index),
                query,
                index,
                delim,
                match_type,
            ),
        },
{
    let start = locate::lower_bound_of(db, query, delim, index);
    locate::lemma_lower_bound_of_local(db, query, delim, index);
    expand::lemma_run_end(db, start, query, index, delim, match_type);
    if expand::record_matches(db, start, query, index, delim, match_type) {
        records::lemma_next_record(db, start);
        expand::lemma_run_covers(db, start, start, query, index, delim, match_type);
    }
}

/// On a sorted database the span of a query holds every record of the
/// database that satisfies the query, wherever it stands.
pub proof fn lemma_sorted_span_holds_all_matches(
    db: Seq<u8>,
    query: Seq<u8>,
    delim: u8,
    index: nat,
    match_type: MatchType,
    s: int,
)
    requires
        locate::sorted_by_key(db, delim, index),
        records::is_record_start(db, s),
        expand::record_matches(db, s, query, index, delim, match_type),
    ensures
        crate::bsq::query_span(db, query, delim, index, match_type) matches Some((start, end))
            && start <= s < end,
{
    let r = locate::lower_bound_of(db, query, delim, index);
    locate::lemma_lower_bound_of_sorted(db, query, delim, index);
    locate::lemma_lower_bound_of_local(db, query, delim, index);
    let top = field::key_of(db, s, delim, index);
    lemma_match_not_less(match_type, top, query);
    assert(r <= s);
    assert(records::is_record_start(db, r));
    assert forall|t: int|
        r <= t <= s && #[trigger] records::is_record_start(db, t) implies expand::record_matches(
        db,
        t,
        query,
        index,
        delim,
        match_type,
    ) by {
        let key = field::key_of(db, t, delim, index);
        assert(order::lex_le(query, key));
        assert(order::lex_le(key, top));
        match match_type {
            MatchType::ExactMatch => order::lemma_lex_le_antisymmetric(key, top),
            MatchType::PrefixMatch => order::lemma_between_prefix(query, key, top),
        }
    }
    expand::lemma_run_covers(db, r, s, query, index, delim, match_type);
}

/// Prefix holds exact. Where a query has a span under exact matching it has
/// one under prefix matching, with the same start and an end no earlier: the
/// records that match exactly are among those that match as a prefix.
pub proof fn lemma_prefix_span_holds_exact_span(
    db: Seq<u8>,
    query: Seq<u8>,
    delim: u8,
    index: nat,
)
    ensures
        crate::bsq::query_span(db, query, delim, index, MatchType::ExactMatch) matches Some(
            (start, end),
        ) ==> crate::bsq::query_span(db, query, delim, index, MatchType::PrefixMatch) matches Some(
            (prefix_start, prefix_end),
        ) && prefix_start == start && end <= prefix_end,
{
    let start = locate::lower_bound_of(db, query, delim, index);
    locate::lemma_lower_bound_of_local(db, query, delim, index);
    expand::lemma_prefix_run_holds_exact_run(db, start, query, index, delim);
}

/// Idempotence. Two runs of one query against one database put out the same
/// bytes: what a run puts out is a function of the database and the query.
pub proof fn lemma_query_idempotent(
    db: Seq<u8>,
    query: Seq<u8>,
    delim: u8,
    index: nat,
    match_type: MatchType,
    first: Seq<u8>,
    second: Seq<u8>,
)
    requires
        first == crate::bsq::query_output(db, query, delim, index, match_type),
        second == crate::bsq::query_output(db, query, delim, index, match_type),
    ensures
        first == second,
{
}

/// The empty database answers every query with nothing.
pub proof fn lemma_empty_database(
    db: Seq<u8>,
    query: Seq<u8>,
    delim: u8,
    index: nat,
    match_type: MatchType,
)
    requires
        db.len() == 0,
    ensures
        locate::lower_bound_of(db, query, delim, index) == 0,
        crate::bsq::query_span(db, query, delim, index, match_type) is None,
        crate::bsq::query_output(db, query, delim, index, match_type) == Seq::<u8>::empty(),
{
    locate::lemma_lower_bound_of_local(db, query, delim, index);
}

} // verus!
