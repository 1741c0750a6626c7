//! Text at the level of characters and their UTF-8 bytes.

use vstd::prelude::*;

verus! {

/// The first byte of the UTF-8 encoding of `c`.
pub open spec fn first_byte(c: char) -> u8 {
    vstd::utf8::encode_utf8(seq![c])[0]
}

/// The UTF-8 encoding of one character has a first byte.
pub proof fn lemma_encoding_not_empty(c: char)
    ensures
        vstd::utf8::encode_utf8(seq![c]).len() >= 1,
{
    let chars = seq![c];
    assert(chars.len() == 1);
    assert(vstd::utf8::encode_utf8(chars) == vstd::utf8::encode_scalar(chars[0] as u32)
        + vstd::utf8::encode_utf8(chars.drop_first()));
}

/// Text that has a character has a byte.
pub proof fn lemma_text_not_empty(chars: Seq<char>)
    requires
        chars.len() > 0,
    ensures
        vstd::utf8::encode_utf8(chars).len() > 0,
{
    assert(vstd::utf8::encode_utf8(chars) == vstd::utf8::encode_scalar(chars[0] as u32)
        + vstd::utf8::encode_utf8(chars.drop_first()));
}

/// The byte strings that the vectors of `lines` hold.
pub open spec fn views(lines: Seq<Vec<u8>>) -> Seq<Seq<u8>> {
    Seq::new(lines.len(), |i: int| lines[i]@)
}

/// Wraps `char::to_string` of std: the string returned holds the one
/// character `c` and nothing else.
#[verifier::external_body]
pub(crate) fn char_to_string(c: char) -> (s: String)
    ensures
        s@ == seq![c],
{
    c.to_string()
}

/// The first byte of `c` as UTF-8 encodes it.
pub fn leading_byte(c: char) -> (b: u8)
    ensures
        b == first_byte(c),
{
    let s = char_to_string(c);
    proof {
        lemma_encoding_not_empty(c);
    }
    s.as_str().as_bytes()[0]
}

/// `pattern` stands in `s` at offset `p`.
pub open spec fn occurs_at(s: Seq<u8>, pattern: Seq<u8>, p: int) -> bool {
    0 <= p && p + pattern.len() <= s.len() && s.subrange(p, p + pattern.len()) == pattern
}

/// The first offset at or after `from` at which `pattern` stands in `s`, or
/// the length of `s` where it stands nowhere from there on.
pub open spec fn first_occurrence(s: Seq<u8>, pattern: Seq<u8>, from: int) -> int
    decreases s.len() - from,
{
    if from < 0 || from >= s.len() || from + pattern.len() > s.len() {
        s.len() as int
    } else if occurs_at(s, pattern, from) {
        from
    } else {
        first_occurrence(s, pattern, from + 1)
    }
}

/// The span of piece `index` among the pieces that the non-empty `delim`
/// parts `s` into from offset `from` on: a piece ends where the delimiter
/// next stands, the next piece begins behind that delimiter, and the last
/// piece ends with `s`. `None` where there are fewer pieces.
pub open spec fn piece_from(s: Seq<u8>, delim: Seq<u8>, from: int, index: nat) -> Option<
    (int, int),
>
    decreases s.len() - from,
{
    let hit = first_occurrence(s, delim, from);
    if index == 0 {
        Some((from, hit))
    } else if from <= hit < s.len() && delim.len() > 0 && hit + delim.len() <= s.len() {
        piece_from(s, delim, hit + delim.len(), (index - 1) as nat)
    } else {
        None
    }
}

/// The span of piece `index` of `s` parted by `delim`, counted from zero.
pub open spec fn piece(s: Seq<u8>, delim: Seq<u8>, index: nat) -> Option<(int, int)> {
    piece_from(s, delim, 0, index)
}

/// The first occurrence lies between `from` and the end, `pattern` stands
/// there unless it is the end, and nowhere between `from` and it.
pub proof fn lemma_first_occurrence(s: Seq<u8>, pattern: Seq<u8>, from: int)
    requires
        0 <= from <= s.len(),
    ensures
        from <= first_occurrence(s, pattern, from) <= s.len(),
        pattern.len() > 0 && first_occurrence(s, pattern, from) < s.len() ==> occurs_at(
            s,
            pattern,
            first_occurrence(s, pattern, from),
        ),
        forall|p: int|
            from <= p < first_occurrence(s, pattern, from) ==> !occurs_at(s, pattern, p),
    decreases s.len() - from,
{
    if from < s.len() && from + pattern.len() <= s.len() && !occurs_at(s, pattern, from) {
        lemma_first_occurrence(s, pattern, from + 1);
    }
}

/// Finds where `pattern` first stands in `s` at or after `from`; returns the
/// length of `s` where it does not.
pub fn find_first(s: &[u8], pattern: &[u8], from: usize) -> (r: usize)
    requires
        from <= s.len(),
    ensures
        r == first_occurrence(s@, pattern@, from as int),
        from <= r <= s.len(),
{
    proof {
        lemma_first_occurrence(s@, pattern@, from as int);
    }
    if pattern.len() == 0 {
        assert(from < s.len() ==> s@.subrange(from as int, from as int) =~= pattern@);
        return from;
    }
    if pattern.len() > s.len() {
        return s.len();
    }
    let last = s.len() - pattern.len();
    let mut p: usize = from;
    while p <= last
        invariant
            from <= p <= s.len(),
            pattern.len() > 0,
            last == s.len() - pattern.len(),
            first_occurrence(s@, pattern@, p as int) == first_occurrence(
                s@,
                pattern@,
                from as int,
            ),
        decreases s.len() - p,
    {
        if crate::order::bytes_eq(&s[p..p + pattern.len()], pattern) {
            return p;
        }
        p += 1;
    }
    s.len()
}

/// Finds piece `index`, counted from zero, among the pieces that `delim`
/// parts `line` into, and returns its span; `None` where the line has fewer
/// pieces. The delimiter has at least one byte.
pub fn nth_piece(line: &[u8], delim: &[u8], index: usize) -> (r: Option<(usize, usize)>)
    requires
        delim.len() > 0,
    ensures
        match r {
            Some((start, end)) => piece(line@, delim@, index as nat) == Some(
                (start as int, end as int),
            ) && start <= end <= line.len(),
            None => piece(line@, delim@, index as nat) is None,
        },
{
    let mut from: usize = 0;
    let mut left: usize = index;
    loop
        invariant
            from <= line.len(),
            delim.len() > 0,
            piece_from(line@, delim@, from as int, left as nat) == piece(
                line@,
                delim@,
                index as nat,
            ),
        decreases line.len() - from,
    {
        let hit = find_first(line, delim, from);
        proof {
            lemma_first_occurrence(line@, delim@, from as int);
        }
        if left == 0 {
            return Some((from, hit));
        }
        if hit >= line.len() {
            return None;
        }
        from = hit + delim.len();
        left -= 1;
    }
}

/// The spans of all the pieces that the non-empty `delim` parts `s` into
/// from offset `from` on, in order.
pub open spec fn pieces_from(s: Seq<u8>, delim: Seq<u8>, from: int) -> Seq<(int, int)>
    decreases s.len() - from,
{
    let hit = first_occurrence(s, delim, from);
    if from <= hit < s.len() && delim.len() > 0 && hit + delim.len() <= s.len() {
        seq![(from, hit)] + pieces_from(s, delim, hit + delim.len())
    } else {
        seq![(from, s.len() as int)]
    }
}

/// The pieces that `delim` parts `s` into, in order.
pub open spec fn pieces(s: Seq<u8>, delim: Seq<u8>) -> Seq<Seq<u8>> {
    let spans = pieces_from(s, delim, 0);
    Seq::new(spans.len(), |i: int| s.subrange(spans[i].0, spans[i].1))
}

/// What the spans of a vector stand for.
pub open spec fn spans_view(spans: Seq<(usize, usize)>) -> Seq<(int, int)> {
    Seq::new(spans.len(), |i: int| (spans[i].0 as int, spans[i].1 as int))
}

/// Parts `line` at every place where `delim` stands and returns the spans of
/// the pieces, in order. The delimiter has at least one byte.
pub fn split(line: &[u8], delim: &[u8]) -> (r: Vec<(usize, usize)>)
    requires
        delim.len() > 0,
    ensures
        spans_view(r@) == pieces_from(line@, delim@, 0),
        forall|i: int| 0 <= i < r@.len() ==> (#[trigger] r@[i]).0 <= r@[i].1 <= line.len(),
{
    let mut r: Vec<(usize, usize)> = Vec::new();
    let mut from: usize = 0;
    assert(spans_view(r@) =~= Seq::<(int, int)>::empty());
    loop
        invariant
            from <= line.len(),
            delim.len() > 0,
            spans_view(r@) + pieces_from(line@, delim@, from as int) == pieces_from(
                line@,
                delim@,
                0,
            ),
            forall|i: int| 0 <= i < r@.len() ==> (#[trigger] r@[i]).0 <= r@[i].1 <= line.len(),
        decreases line.len() - from,
    {
        let hit = find_first(line, delim, from);
        proof {
            lemma_first_occurrence(line@, delim@, from as int);
        }
        let ghost before = spans_view(r@);
        r.push((from, hit));
        assert(spans_view(r@) =~= before + seq![(from as int, hit as int)]);
        if hit >= line.len() {
            assert(spans_view(r@) =~= pieces_from(line@, delim@, 0));
            return r;
        }
        assert(before + (seq![(from as int, hit as int)] + pieces_from(
            line@,
            delim@,
            hit + delim.len(),
        )) =~= spans_view(r@) + pieces_from(line@, delim@, hit + delim.len()));
        from = hit + delim.len();
    }
}

/// The bytes as text, with what is not UTF-8 in them replaced as
/// `String::from_utf8_lossy` replaces it.
pub uninterp spec fn lossy_text(bytes: Seq<u8>) -> Seq<char>;

/// Wraps `String::from_utf8_lossy` of std: the text of `bytes`, which for
/// bytes that are UTF-8 is the characters they encode.
#[verifier::external_body]
pub(crate) fn text_of(bytes: &[u8]) -> (s: String)
    ensures
        s@ == lossy_text(bytes@),
        vstd::utf8::valid_utf8(bytes@) ==> s@ == vstd::utf8::decode_utf8(bytes@),
{
    String::from_utf8_lossy(bytes).into_owned()
}

/// Wraps `std::str::from_utf8`: the bytes as a string slice where they are
/// UTF-8, and `None` where they are not.
#[verifier::external_body]
pub(crate) fn as_utf8(bytes: &[u8]) -> (r: Option<&str>)
    ensures
        r is Some <==> vstd::utf8::valid_utf8(bytes@),
        r matches Some(s) ==> s@ == vstd::utf8::decode_utf8(bytes@),
{
    std::str::from_utf8(bytes).ok()
}

/// The characters of `s`, one by one.
pub fn chars_of(s: &str) -> (r: Vec<char>)
    ensures
        r@ == s@,
{
    broadcast use vstd::string::group_string_axioms;

    let mut it = s.chars();
    let mut r: Vec<char> = Vec::new();
    loop
        invariant
            r@ + vstd::std_specs::iter::IteratorSpec::remaining(&it) == s@,
            vstd::std_specs::iter::IteratorSpec::decrease(&it) is Some,
        ensures
            r@ == s@,
        decreases vstd::std_specs::iter::IteratorSpec::decrease(&it)->0,
    {
        match it.next() {
            Some(c) => {
                r.push(c);
            },
            None => {
                break ;
            },
        }
    }
    r
}

} // verus!
