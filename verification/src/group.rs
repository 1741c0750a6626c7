//! Grouping the second field of each line by the first, and the reverse.
//!
//! A line takes part with its first two fields, the key and the token; a line
//! with one field only is passed over. A group is put out as its key, a tab,
//! and its tokens joined by the token delimiter.

use crate::order;
use crate::rank;
use crate::rank::Ranked;
use crate::text;
use vstd::prelude::*;

verus! {

/// The byte between a key and what follows it in the output.
pub const KEY_SEPARATOR: u8 = 9;

/// A key with a token.
pub type Pair = (Seq<u8>, Seq<u8>);

/// A key with its tokens.
pub type Group = (Seq<u8>, Seq<Seq<u8>>);

/// The key and the token of `line`: its first two fields. `None` where the
/// line has one field only.
pub open spec fn pair_of(line: Seq<u8>, delim: Seq<u8>) -> Option<Pair> {
    match (text::piece(line, delim, 0), text::piece(line, delim, 1)) {
        (Some(key), Some(token)) => Some(
            (line.subrange(key.0, key.1), line.subrange(token.0, token.1)),
        ),
        _ => None,
    }
}

/// The pairs of the lines that have one, in order.
pub open spec fn pairs_of(lines: Seq<Seq<u8>>, delim: Seq<u8>) -> Seq<Pair>
    decreases lines.len(),
{
    if lines.len() == 0 {
        Seq::empty()
    } else {
        let before = pairs_of(lines.drop_last(), delim);
        match pair_of(lines.last(), delim) {
            Some(pair) => before.push(pair),
            None => before,
        }
    }
}

/// The groups after one more pair, for input sorted by key: the pair joins
/// the last group where it has that group's key, and begins a group else.
pub open spec fn joined_run(groups: Seq<Group>, pair: Pair) -> Seq<Group> {
    if groups.len() > 0 && groups.last().0 == pair.0 {
        groups.update(groups.len() - 1, (pair.0, groups.last().1.push(pair.1)))
    } else {
        groups.push((pair.0, seq![pair.1]))
    }
}

/// The groups of pairs that come sorted by key: one group for each run of
/// pairs with the same key.
pub open spec fn runs_of(pairs: Seq<Pair>) -> Seq<Group>
    decreases pairs.len(),
{
    if pairs.len() == 0 {
        Seq::empty()
    } else {
        joined_run(runs_of(pairs.drop_last()), pairs.last())
    }
}

/// Index of the first group at or after `from` with the key `key`, or the
/// number of groups where there is none.
pub open spec fn group_from(groups: Seq<Group>, key: Seq<u8>, from: int) -> int
    decreases groups.len() - from,
{
    if from < 0 || from >= groups.len() {
        groups.len() as int
    } else if groups[from].0 == key {
        from
    } else {
        group_from(groups, key, from + 1)
    }
}

/// The groups after one more pair, for input in any order: the pair joins
/// the group of its key, and begins a group where its key has none.
pub open spec fn joined_any(groups: Seq<Group>, pair: Pair) -> Seq<Group> {
    let at = group_from(groups, pair.0, 0);
    if 0 <= at < groups.len() {
        groups.update(at, (pair.0, groups[at].1.push(pair.1)))
    } else {
        groups.push((pair.0, seq![pair.1]))
    }
}

/// The groups of pairs in any order: one group for each key, in the order in
/// which the keys first occur.
pub open spec fn groups_of(pairs: Seq<Pair>) -> Seq<Group>
    decreases pairs.len(),
{
    if pairs.len() == 0 {
        Seq::empty()
    } else {
        joined_any(groups_of(pairs.drop_last()), pairs.last())
    }
}

/// The sorted sequence `s` with `x` put in, unless it is there already.
pub open spec fn insert_unique(s: Seq<Seq<u8>>, x: Seq<u8>) -> Seq<Seq<u8>> {
    if s.contains(x) {
        s
    } else {
        rank::insert_sorted::<Vec<u8>>(s, x)
    }
}

/// The distinct tokens of `tokens` in ascending byte order.
pub open spec fn sorted_set(tokens: Seq<Seq<u8>>) -> Seq<Seq<u8>>
    decreases tokens.len(),
{
    if tokens.len() == 0 {
        Seq::empty()
    } else {
        insert_unique(sorted_set(tokens.drop_last()), tokens.last())
    }
}

/// The tokens as they are put out: as they came, or the distinct ones in
/// ascending order where `unique` is set.
pub open spec fn tokens_out(tokens: Seq<Seq<u8>>, unique: bool) -> Seq<Seq<u8>> {
    if unique {
        sorted_set(tokens)
    } else {
        tokens
    }
}

/// The tokens joined by `delim`.
pub open spec fn joined(tokens: Seq<Seq<u8>>, delim: Seq<u8>) -> Seq<u8>
    decreases tokens.len(),
{
    if tokens.len() == 0 {
        Seq::empty()
    } else if tokens.len() == 1 {
        tokens[0]
    } else {
        joined(tokens.drop_last(), delim) + delim + tokens.last()
    }
}

/// The line put out for a group.
pub open spec fn group_line(group: Group, token_delim: Seq<u8>, unique: bool) -> Seq<u8> {
    group.0 + seq![KEY_SEPARATOR] + joined(tokens_out(group.1, unique), token_delim)
}

/// The lines put out for groups, in their order.
pub open spec fn group_lines(groups: Seq<Group>, token_delim: Seq<u8>, unique: bool) -> Seq<
    Seq<u8>,
> {
    Seq::new(groups.len(), |i: int| group_line(groups[i], token_delim, unique))
}

/// The lines put out for one line of grouped input: one for each token of
/// its second field, the key before each.
pub open spec fn ungrouped_line(
    line: Seq<u8>,
    field_delim: Seq<u8>,
    token_delim: Seq<u8>,
    unique: bool,
) -> Seq<Seq<u8>> {
    match pair_of(line, field_delim) {
        Some((key, field)) => {
            let tokens = tokens_out(text::pieces(field, token_delim), unique);
            Seq::new(tokens.len(), |i: int| key + seq![KEY_SEPARATOR] + tokens[i])
        },
        None => Seq::empty(),
    }
}

/// The lines put out for grouped input.
pub open spec fn ungrouped(
    lines: Seq<Seq<u8>>,
    field_delim: Seq<u8>,
    token_delim: Seq<u8>,
    unique: bool,
) -> Seq<Seq<u8>>
    decreases lines.len(),
{
    if lines.len() == 0 {
        Seq::empty()
    } else {
        ungrouped(lines.drop_last(), field_delim, token_delim, unique) + ungrouped_line(
            lines.last(),
            field_delim,
            token_delim,
            unique,
        )
    }
}

/// What a vector of groups stands for.
pub open spec fn groups_view(groups: Seq<(Vec<u8>, Vec<Vec<u8>>)>) -> Seq<Group> {
    Seq::new(groups.len(), |i: int| (groups[i].0@, text::views(groups[i].1@)))
}

/// In a sorted sequence an item is present exactly where the item before its
/// rank is not less than it.
proof fn lemma_present_at_rank(s: Seq<Seq<u8>>, x: Seq<u8>)
    requires
        rank::sorted::<Vec<u8>>(s),
    ensures
        s.contains(x) <==> (rank::rank_of::<Vec<u8>>(s, x) > 0 && order::lex_le(
            x,
            s[rank::rank_of::<Vec<u8>>(s, x) - 1],
        )),
{
    rank::lemma_rank_of::<Vec<u8>>(s, x);
    let p = rank::rank_of::<Vec<u8>>(s, x);
    if s.contains(x) {
        let j = choose|j: int| 0 <= j < s.len() && s[j] == x;
        order::lemma_lex_le_reflexive(x);
        assert(order::lex_le(s[j], x));
        assert(j < p);
        assert(<Vec<u8> as Ranked>::le(s[j], s[p - 1]));
    }
    if p > 0 && order::lex_le(x, s[p - 1]) {
        order::lemma_lex_le_antisymmetric(x, s[p - 1]);
        assert(s[p - 1] == x);
    }
}

/// The distinct tokens in ascending order are sorted, hold no token twice,
/// and hold exactly the tokens given.
pub proof fn lemma_sorted_set(tokens: Seq<Seq<u8>>)
    ensures
        rank::sorted::<Vec<u8>>(sorted_set(tokens)),
        forall|i: int, j: int|
            0 <= i < j < sorted_set(tokens).len() ==> sorted_set(tokens)[i] != sorted_set(
                tokens,
            )[j],
        forall|t: Seq<u8>| sorted_set(tokens).contains(t) <==> tokens.contains(t),
    decreases tokens.len(),
{
    if tokens.len() > 0 {
        let rest = tokens.drop_last();
        let x = tokens.last();
        let before = sorted_set(rest);
        let after = sorted_set(tokens);
        lemma_sorted_set(rest);
        rank::lemma_rank_of::<Vec<u8>>(before, x);
        rank::lemma_insert_sorted::<Vec<u8>>(before, x);
        let p = rank::rank_of::<Vec<u8>>(before, x);
        assert forall|t: Seq<u8>| after.contains(t) <==> tokens.contains(t) by {
            if tokens.contains(t) {
                let j = choose|j: int| 0 <= j < tokens.len() && tokens[j] == t;
                if j < rest.len() {
                    assert(rest[j] == t);
                    assert(rest.contains(t));
                    assert(before.contains(t));
                    let k = choose|k: int| 0 <= k < before.len() && before[k] == t;
                    if !before.contains(x) {
                        assert(after[if k < p {
                            k
                        } else {
                            k + 1
                        }] == t);
                    }
                } else {
                    if !before.contains(x) {
                        assert(after[p] == t);
                    }
                }
            }
            if after.contains(t) {
                let k = choose|k: int| 0 <= k < after.len() && after[k] == t;
                if before.contains(x) {
                    assert(before.contains(t));
                } else if k == p {
                    assert(tokens[tokens.len() - 1] == t);
                } else {
                    assert(before[if k < p {
                        k
                    } else {
                        k - 1
                    }] == t);
                    assert(before.contains(t));
                }
                if before.contains(t) {
                    assert(rest.contains(t));
                    let j = choose|j: int| 0 <= j < rest.len() && rest[j] == t;
                    assert(tokens[j] == t);
                }
            }
        }
        if !before.contains(x) {
            assert forall|i: int, j: int| 0 <= i < j < after.len() implies after[i] != after[j] by {
                let bi = if i < p {
                    i
                } else {
                    i - 1
                };
                let bj = if j < p {
                    j
                } else {
                    j - 1
                };
                if i != p && j != p {
                    assert(after[i] == before[bi] && after[j] == before[bj]);
                } else if i == p {
                    assert(after[j] == before[bj]);
                    assert(before.contains(after[j]));
                } else {
                    assert(after[i] == before[bi]);
                    assert(before.contains(after[i]));
                }
            }
        }
    }
}

/// Sorts the tokens in ascending byte order and drops what occurs again.
pub fn sort_unique(tokens: &Vec<Vec<u8>>) -> (r: Vec<Vec<u8>>)
    ensures
        text::views(r@) == sorted_set(text::views(tokens@)),
{
    let ghost all = text::views(tokens@);
    let mut r: Vec<Vec<u8>> = Vec::new();
    let mut i: usize = 0;
    assert(all.take(0) =~= Seq::<Seq<u8>>::empty());
    assert(text::views(r@) =~= Seq::<Seq<u8>>::empty());
    while i < tokens.len()
        invariant
            i <= tokens.len(),
            all == text::views(tokens@),
            text::views(r@) == sorted_set(all.take(i as int)),
        decreases tokens.len() - i,
    {
        let token = vstd::slice::slice_to_vec(tokens[i].as_slice());
        let ghost before = text::views(r@);
        proof {
            assert(all.take(i + 1).drop_last() =~= all.take(i as int));
            assert(all.take(i + 1).last() == token@);
            assert(rank::models(r@) =~= before);
            lemma_sorted_set(all.take(i as int));
            lemma_present_at_rank(before, token@);
        }
        let p = rank::rank_position(&r, &token);
        if !(p > 0 && token.at_most(&r[p - 1])) {
            r.insert(p, token);
            assert(text::views(r@) =~= before.insert(p as int, token@));
        }
        i += 1;
    }
    assert(all.take(tokens@.len() as int) =~= all);
    r
}

/// Joins the tokens by `delim`.
pub fn join(tokens: &Vec<Vec<u8>>, delim: &[u8]) -> (r: Vec<u8>)
    ensures
        r@ == joined(text::views(tokens@), delim@),
{
    let ghost all = text::views(tokens@);
    let mut r: Vec<u8> = Vec::new();
    let mut i: usize = 0;
    assert(all.take(0) =~= Seq::<Seq<u8>>::empty());
    while i < tokens.len()
        invariant
            i <= tokens.len(),
            all == text::views(tokens@),
            r@ == joined(all.take(i as int), delim@),
        decreases tokens.len() - i,
    {
        proof {
            assert(all.take(i + 1).drop_last() =~= all.take(i as int));
            assert(all.take(i + 1).last() == tokens@[i as int]@);
            if i == 0 {
                assert(all.take(1)[0] == tokens@[0]@);
            }
        }
        if i > 0 {
            r.extend_from_slice(delim);
        }
        r.extend_from_slice(tokens[i].as_slice());
        assert(r@ =~= joined(all.take(i + 1), delim@));
        i += 1;
    }
    assert(all.take(tokens@.len() as int) =~= all);
    r
}

/// Takes the key and the token of `line`: its first two fields.
fn split_pair(line: &[u8], delim: &[u8]) -> (r: Option<(Vec<u8>, Vec<u8>)>)
    requires
        delim.len() > 0,
    ensures
        match r {
            Some((key, token)) => pair_of(line@, delim@) == Some((key@, token@)),
            None => pair_of(line@, delim@) is None,
        },
{
    match text::nth_piece(line, delim, 1) {
        None => None,
        Some((token_start, token_end)) => match text::nth_piece(line, delim, 0) {
            None => None,
            Some((key_start, key_end)) => Some(
                (
                    vstd::slice::slice_to_vec(
                        vstd::slice::slice_subrange(line, key_start, key_end),
                    ),
                    vstd::slice::slice_to_vec(
                        vstd::slice::slice_subrange(line, token_start, token_end),
                    ),
                ),
            ),
        },
    }
}

/// Writes the line of each group.
fn render(groups: &Vec<(Vec<u8>, Vec<Vec<u8>>)>, token_delim: &[u8], unique: bool) -> (r: Vec<
    Vec<u8>,
>)
    ensures
        text::views(r@) == group_lines(groups_view(groups@), token_delim@, unique),
{
    let ghost target = group_lines(groups_view(groups@), token_delim@, unique);
    let mut r: Vec<Vec<u8>> = Vec::new();
    let mut i: usize = 0;
    while i < groups.len()
        invariant
            i <= groups.len(),
            r@.len() == i,
            target == group_lines(groups_view(groups@), token_delim@, unique),
            forall|j: int| 0 <= j < i ==> (#[trigger] r@[j])@ == target[j],
        decreases groups.len() - i,
    {
        let mut line = vstd::slice::slice_to_vec(groups[i].0.as_slice());
        line.push(KEY_SEPARATOR);
        let tokens = if unique {
            join(&sort_unique(&groups[i].1), token_delim)
        } else {
            join(&groups[i].1, token_delim)
        };
        line.extend_from_slice(tokens.as_slice());
        assert(line@ =~= target[i as int]);
        r.push(line);
        i += 1;
    }
    assert(text::views(r@) =~= target);
    r
}

/// Groups lines that come sorted by their first field: for each run of lines
/// with the same key, one line with the key and the tokens of the run.
/// Where `unique` is set, the tokens of a group are put out in ascending
/// order, each once. The field delimiter has at least one character.
pub fn group(lines: &Vec<Vec<u8>>, field_delim: &str, token_delim: &str, unique: bool) -> (r: Vec<
    Vec<u8>,
>)
    requires
        field_delim@.len() > 0,
    ensures
        text::views(r@) == group_lines(
            runs_of(pairs_of(text::views(lines@), vstd::utf8::encode_utf8(field_delim@))),
            vstd::utf8::encode_utf8(token_delim@),
            unique,
        ),
{
    let delim = field_delim.as_bytes();
    proof {
        text::lemma_text_not_empty(field_delim@);
    }
    let ghost all = text::views(lines@);
    let mut groups: Vec<(Vec<u8>, Vec<Vec<u8>>)> = Vec::new();
    let mut i: usize = 0;
    assert(all.take(0) =~= Seq::<Seq<u8>>::empty());
    assert(groups_view(groups@) =~= Seq::<Group>::empty());
    while i < lines.len()
        invariant
            i <= lines.len(),
            delim.len() > 0,
            all == text::views(lines@),
            groups_view(groups@) == runs_of(pairs_of(all.take(i as int), delim@)),
        decreases lines.len() - i,
    {
        proof {
            assert(all.take(i + 1).drop_last() =~= all.take(i as int));
            assert(all.take(i + 1).last() == lines@[i as int]@);
        }
        match split_pair(lines[i].as_slice(), delim) {
            Some((key, token)) => {
                let ghost before = groups_view(groups@);
                let ghost pairs = pairs_of(all.take(i as int), delim@).push((key@, token@));
                assert(pairs.drop_last() =~= pairs_of(all.take(i as int), delim@));
                let last = groups.len();
                if last > 0 && order::bytes_eq(groups[last - 1].0.as_slice(), key.as_slice()) {
                    let ghost old_groups = groups@;
                    groups[last - 1].1.push(token);
                    assert(groups@.len() == old_groups.len());
                    assert(groups@[last - 1].0 == old_groups[last - 1].0);
                    assert(text::views(groups@[last - 1].1@) =~= before[last - 1].1.push(token@));
                    assert forall|j: int| 0 <= j < groups@.len() implies groups_view(groups@)[j]
                        == joined_run(before, (key@, token@))[j] by {
                        if j != last - 1 {
                            assert(groups@[j] == old_groups[j]);
                        }
                    }
                    assert(groups_view(groups@) =~= joined_run(before, (key@, token@)));
                } else {
                    let mut tokens: Vec<Vec<u8>> = Vec::new();
                    tokens.push(token);
                    assert(text::views(tokens@) =~= seq![token@]);
                    groups.push((key, tokens));
                    assert(groups_view(groups@) =~= joined_run(before, (key@, token@)));
                }
            },
            None => {},
        }
        i += 1;
    }
    assert(all.take(lines@.len() as int) =~= all);
    render(&groups, token_delim.as_bytes(), unique)
}

/// Finds the group of `key`: returns its index, or the number of groups
/// where the key has none.
fn find_group(groups: &Vec<(Vec<u8>, Vec<Vec<u8>>)>, key: &Vec<u8>) -> (at: usize)
    ensures
        at == group_from(groups_view(groups@), key@, 0),
        at <= groups.len(),
        at < groups.len() ==> groups@[at as int].0@ == key@,
{
    let mut at: usize = 0;
    while at < groups.len()
        invariant
            at <= groups.len(),
            group_from(groups_view(groups@), key@, at as int) == group_from(
                groups_view(groups@),
                key@,
                0,
            ),
        decreases groups.len() - at,
    {
        if order::bytes_eq(groups[at].0.as_slice(), key.as_slice()) {
            return at;
        }
        at += 1;
    }
    at
}

/// Groups lines that come in any order: for each key, in the order in which
/// the keys first occur, one line with the key and all of its tokens. Where
/// `unique` is set, the tokens of a group are put out in ascending order,
/// each once. The field delimiter has at least one character.
pub fn group_hashmap(
    lines: &Vec<Vec<u8>>,
    field_delim: &str,
    token_delim: &str,
    unique: bool,
) -> (r: Vec<Vec<u8>>)
    requires
        field_delim@.len() > 0,
    ensures
        text::views(r@) == group_lines(
            groups_of(pairs_of(text::views(lines@), vstd::utf8::encode_utf8(field_delim@))),
            vstd::utf8::encode_utf8(token_delim@),
            unique,
        ),
{
    let delim = field_delim.as_bytes();
    proof {
        text::lemma_text_not_empty(field_delim@);
    }
    let ghost all = text::views(lines@);
    let mut groups: Vec<(Vec<u8>, Vec<Vec<u8>>)> = Vec::new();
    let mut i: usize = 0;
    assert(all.take(0) =~= Seq::<Seq<u8>>::empty());
    assert(groups_view(groups@) =~= Seq::<Group>::empty());
    while i < lines.len()
        invariant
            i <= lines.len(),
            delim.len() > 0,
            all == text::views(lines@),
            groups_view(groups@) == groups_of(pairs_of(all.take(i as int), delim@)),
        decreases lines.len() - i,
    {
        proof {
            assert(all.take(i + 1).drop_last() =~= all.take(i as int));
            assert(all.take(i + 1).last() == lines@[i as int]@);
        }
        match split_pair(lines[i].as_slice(), delim) {
            Some((key, token)) => {
                let ghost before = groups_view(groups@);
                let ghost pairs = pairs_of(all.take(i as int), delim@).push((key@, token@));
                assert(pairs.drop_last() =~= pairs_of(all.take(i as int), delim@));
                let at = find_group(&groups, &key);
                if at < groups.len() {
                    let ghost old_groups = groups@;
                    groups[at].1.push(token);
                    assert(groups@.len() == old_groups.len());
                    assert(groups@[at as int].0 == old_groups[at as int].0);
                    assert(text::views(groups@[at as int].1@) =~= before[at as int].1.push(token@));
                    assert forall|j: int| 0 <= j < groups@.len() implies groups_view(groups@)[j]
                        == joined_any(before, (key@, token@))[j] by {
                        if j != at {
                            assert(groups@[j] == old_groups[j]);
                        }
                    }
                    assert(groups_view(groups@) =~= joined_any(before, (key@, token@)));
                } else {
                    let mut tokens: Vec<Vec<u8>> = Vec::new();
                    tokens.push(token);
                    assert(text::views(tokens@) =~= seq![token@]);
                    groups.push((key, tokens));
                    assert(groups_view(groups@) =~= joined_any(before, (key@, token@)));
                }
            },
            None => {},
        }
        i += 1;
    }
    assert(all.take(lines@.len() as int) =~= all);
    render(&groups, token_delim.as_bytes(), unique)
}

/// Takes the tokens of `field` out: the pieces that `delim` parts it into.
fn tokens_of(field: &[u8], delim: &[u8]) -> (r: Vec<Vec<u8>>)
    requires
        delim.len() > 0,
    ensures
        text::views(r@) == text::pieces(field@, delim@),
{
    let spans = text::split(field, delim);
    let ghost target = text::pieces(field@, delim@);
    let mut r: Vec<Vec<u8>> = Vec::new();
    let mut i: usize = 0;
    while i < spans.len()
        invariant
            i <= spans.len(),
            r@.len() == i,
            text::spans_view(spans@) == text::pieces_from(field@, delim@, 0),
            target == text::pieces(field@, delim@),
            forall|j: int| 0 <= j < spans@.len() ==> (#[trigger] spans@[j]).0 <= spans@[j].1
                <= field.len(),
            forall|j: int| 0 <= j < i ==> (#[trigger] r@[j])@ == target[j],
        decreases spans.len() - i,
    {
        let (start, end) = spans[i];
        assert(text::spans_view(spans@)[i as int] == (start as int, end as int));
        r.push(vstd::slice::slice_to_vec(vstd::slice::slice_subrange(field, start, end)));
        i += 1;
    }
    assert(text::spans_view(spans@).len() == spans@.len());
    assert(text::views(r@) =~= target);
    r
}

/// Takes grouped lines apart: for each token of a line's second field, one
/// line with the key and the token. Where `unique` is set, the tokens of a
/// line are put out in ascending order, each once. Both delimiters have at
/// least one character.
pub fn ungroup(lines: &Vec<Vec<u8>>, field_delim: &str, token_delim: &str, unique: bool) -> (r:
    Vec<Vec<u8>>)
    requires
        field_delim@.len() > 0,
        token_delim@.len() > 0,
    ensures
        text::views(r@) == ungrouped(
            text::views(lines@),
            vstd::utf8::encode_utf8(field_delim@),
            vstd::utf8::encode_utf8(token_delim@),
            unique,
        ),
{
    let delim = field_delim.as_bytes();
    let between = token_delim.as_bytes();
    proof {
        text::lemma_text_not_empty(field_delim@);
        text::lemma_text_not_empty(token_delim@);
    }
    let ghost all = text::views(lines@);
    let mut r: Vec<Vec<u8>> = Vec::new();
    let mut i: usize = 0;
    assert(all.take(0) =~= Seq::<Seq<u8>>::empty());
    assert(text::views(r@) =~= Seq::<Seq<u8>>::empty());
    while i < lines.len()
        invariant
            i <= lines.len(),
            delim.len() > 0,
            between.len() > 0,
            all == text::views(lines@),
            text::views(r@) == ungrouped(all.take(i as int), delim@, between@, unique),
        decreases lines.len() - i,
    {
        proof {
            assert(all.take(i + 1).drop_last() =~= all.take(i as int));
            assert(all.take(i + 1).last() == lines@[i as int]@);
        }
        let ghost before = text::views(r@);
        let ghost added = ungrouped_line(lines@[i as int]@, delim@, between@, unique);
        match split_pair(lines[i].as_slice(), delim) {
            Some((key, field)) => {
                let parts = tokens_of(field.as_slice(), between);
                let tokens = if unique {
                    sort_unique(&parts)
                } else {
                    parts
                };
                let mut j: usize = 0;
                while j < tokens.len()
                    invariant
                        j <= tokens.len(),
                        added.len() == tokens@.len(),
                        forall|t: int|
                            0 <= t < tokens@.len() ==> added[t] == key@ + seq![KEY_SEPARATOR] + (
                            #[trigger] tokens@[t])@,
                        text::views(r@) == before + added.take(j as int),
                    decreases tokens.len() - j,
                {
                    let mut line = vstd::slice::slice_to_vec(key.as_slice());
                    line.push(KEY_SEPARATOR);
                    line.extend_from_slice(tokens[j].as_slice());
                    assert(line@ =~= added[j as int]);
                    let ghost so_far = text::views(r@);
                    r.push(line);
                    assert(text::views(r@) =~= so_far.push(added[j as int]));
                    assert(added.take(j + 1) =~= added.take(j as int).push(added[j as int]));
                    j += 1;
                }
                assert(added.take(tokens@.len() as int) =~= added);
            },
            None => {
                assert(before + added =~= before);
            },
        }
        i += 1;
    }
    assert(all.take(lines@.len() as int) =~= all);
    r
}

} // verus!
