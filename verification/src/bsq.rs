//! Point and prefix queries against a sorted, delimiter-separated database
//! held in memory as one byte buffer.
//!
//! The locator finds the lower bound of a query by binary search over byte
//! offsets; the expander walks on from there over the records that match.

pub mod expand;
pub mod field;
pub mod laws;
pub mod locate;
pub mod records;

use crate::bsq::expand::MatchType;
use crate::text;
use vstd::prelude::*;

verus! {

/// The options as they are given on the command line.
pub struct Arguments {
    /// Field delimiter.
    pub delimiter: char,
    /// Match the whole key instead of a prefix of it.
    pub exact_match: bool,
    /// The key field, counted from one.
    pub index_field: usize,
    /// Path of the database.
    pub database: String,
    /// The query; without one, queries are read line by line.
    pub query: Option<String>,
}

/// The options that a run works with.
pub struct ProgramOption {
    /// Field delimiter: one byte.
    pub delim: u8,
    /// How keys are held against the query.
    pub match_type: MatchType,
    /// The key field, counted from zero.
    pub key_idx: usize,
    /// Path of the database.
    pub database: String,
    /// The query; without one, queries are read line by line.
    pub query: Option<String>,
}

/// The match type that the command line's flag stands for.
pub open spec fn match_type_of(exact_match: bool) -> MatchType {
    if exact_match {
        MatchType::ExactMatch
    } else {
        MatchType::PrefixMatch
    }
}

/// Turns the command line's options into those of a run. A key field of zero
/// is refused; any other is counted from zero from here on. The delimiter is
/// the first byte of the character given.
pub fn parse_arguments(args: Arguments) -> (r: Result<ProgramOption, String>)
    ensures
        r is Err <==> args.index_field == 0,
        r matches Err(msg) ==> msg@ == "index field must be positive"@,
        r matches Ok(option) ==> {
            &&& option.key_idx == args.index_field - 1
            &&& option.match_type == match_type_of(args.exact_match)
            &&& option.delim == text::first_byte(args.delimiter)
            &&& option.database == args.database
            &&& option.query == args.query
        },
{
    if args.index_field == 0 {
        return Err("index field must be positive".to_owned());
    }
    Ok(
        ProgramOption {
            key_idx: args.index_field - 1,
            match_type: if args.exact_match {
                MatchType::ExactMatch
            } else {
                MatchType::PrefixMatch
            },
            database: args.database,
            query: args.query,
            delim: text::leading_byte(args.delimiter),
        },
    )
}

/// The span of the records that answer `query`: the run of matching records
/// that begins at the query's lower bound, or `None` where the record there
/// does not match.
pub open spec fn query_span(
    db: Seq<u8>,
    query: Seq<u8>,
    delim: u8,
    index: nat,
    match_type: MatchType,
) -> Option<(int, int)> {
    expand::matching_span(
        db,
        locate::lower_bound_of(db, query, delim, index),
        query,
        index,
        delim,
        match_type,
    )
}

/// The bytes that answer `query`: those of its span, none where it has none.
pub open spec fn query_output(
    db: Seq<u8>,
    query: Seq<u8>,
    delim: u8,
    index: nat,
    match_type: MatchType,
) -> Seq<u8> {
    match query_span(db, query, delim, index, match_type) {
        Some((start, end)) => db.subrange(start, end),
        None => Seq::empty(),
    }
}

/// Runs one query: locates its lower bound and expands from there. Returns
/// the span of the matching records, or `None` where none matches.
pub fn find_span(
    database: &[u8],
    query: &str,
    delim: u8,
    key_idx: usize,
    match_type: &MatchType,
) -> (r: Option<(usize, usize)>)
    ensures
        match r {
            Some((start, end)) => start < end <= database.len() && query_span(
                database@,
                vstd::utf8::encode_utf8(query@),
                delim,
                key_idx as nat,
                *match_type,
            ) == Some((start as int, end as int)),
            None => query_span(
                database@,
                vstd::utf8::encode_utf8(query@),
                delim,
                key_idx as nat,
                *match_type,
            ) is None,
        },
{
    let start = locate::lower_bound(query, database, delim, key_idx);
    expand::expand(database, start, query.as_bytes(), key_idx, delim, match_type)
}

/// Runs one query and returns the bytes to put out for it: the matching
/// records as they stand in the database, separators included, and nothing
/// where no record matches.
pub fn find<'a>(
    database: &'a [u8],
    query: &str,
    delim: u8,
    key_idx: usize,
    match_type: &MatchType,
) -> (r: &'a [u8])
    ensures
        r@ == query_output(
            database@,
            vstd::utf8::encode_utf8(query@),
            delim,
            key_idx as nat,
            *match_type,
        ),
{
    match find_span(database, query, delim, key_idx, match_type) {
        Some((start, end)) => &database[start..end],
        None => {
            assert(database@.subrange(0, 0) =~= Seq::<u8>::empty());
            &database[0..0]
        },
    }
}

/// The bytes that answer the queries one after the other.
pub open spec fn batch_output(
    db: Seq<u8>,
    queries: Seq<Seq<u8>>,
    delim: u8,
    index: nat,
    match_type: MatchType,
) -> Seq<u8>
    decreases queries.len(),
{
    if queries.len() == 0 {
        Seq::empty()
    } else {
        batch_output(db, queries.drop_last(), delim, index, match_type) + query_output(
            db,
            queries.last(),
            delim,
            index,
            match_type,
        )
    }
}

/// The queries as bytes.
pub open spec fn query_bytes(queries: Seq<String>) -> Seq<Seq<u8>> {
    Seq::new(queries.len(), |i: int| vstd::utf8::encode_utf8(queries[i]@))
}

/// Runs the queries one by one, each on its own, and returns what they put
/// out, in their order. A query without a match puts out nothing.
pub fn find_each(
    database: &[u8],
    queries: &Vec<String>,
    delim: u8,
    key_idx: usize,
    match_type: &MatchType,
) -> (r: Vec<u8>)
    ensures
        r@ == batch_output(database@, query_bytes(queries@), delim, key_idx as nat, *match_type),
{
    let ghost all = query_bytes(queries@);
    let mut r: Vec<u8> = Vec::new();
    let mut i: usize = 0;
    assert(all.take(0) =~= Seq::<Seq<u8>>::empty());
    while i < queries.len()
        invariant
            i <= queries.len(),
            all == query_bytes(queries@),
            r@ == batch_output(database@, all.take(i as int), delim, key_idx as nat, *match_type),
        decreases queries.len() - i,
    {
        proof {
            assert(all.take(i + 1).drop_last() =~= all.take(i as int));
            assert(all.take(i + 1).last() == vstd::utf8::encode_utf8(queries@[i as int]@));
        }
        let matched = find(database, queries[i].as_str(), delim, key_idx, match_type);
        r.extend_from_slice(matched);
        i += 1;
    }
    assert(all.take(queries@.len() as int) =~= all);
    r
}

} // verus!
