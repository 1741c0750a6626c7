//! Counting how often each line occurs.

use crate::input;
use crate::number;
use crate::order;
use crate::text;
use vstd::prelude::*;

verus! {

/// The options as they are given on the command line.
pub struct Arguments {
    /// What stands between a count and its line.
    pub delimiter: char,
    /// Leave empty lines out.
    pub suppress: bool,
    /// Path of the input; none, or `-`, for standard input.
    pub input: Option<String>,
}

/// The options that a run works with.
pub struct ProgramOption {
    /// What stands between a count and its line.
    pub delim: String,
    /// Leave empty lines out.
    pub suppress: bool,
    /// Path of the input.
    pub input_file: String,
}

/// Turns the command line's options into those of a run. No options are
/// refused.
pub fn parse_arguments(args: Arguments) -> (r: Result<ProgramOption, String>)
    ensures
        r matches Ok(option) && option.delim@ == seq![args.delimiter] && option.suppress
            == args.suppress && option.input_file@ == input::input_path_of(args.input),
{
    let input_file = input::input_path(args.input);
    Ok(
        ProgramOption {
            delim: text::char_to_string(args.delimiter),
            suppress: args.suppress,
            input_file,
        },
    )
}

/// A line and how often it was seen.
pub type Count = (Seq<u8>, nat);

/// Whether a line is counted: every line is, but the empty one where those
/// are left out.
pub open spec fn is_counted(line: Seq<u8>, suppress: bool) -> bool {
    !(suppress && line.len() == 0)
}

/// How many of the counted lines of `lines` are `line`.
pub open spec fn times(lines: Seq<Seq<u8>>, suppress: bool, line: Seq<u8>) -> nat
    decreases lines.len(),
{
    if lines.len() == 0 {
        0
    } else {
        times(lines.drop_last(), suppress, line) + if lines.last() == line && is_counted(
            line,
            suppress,
        ) {
            1nat
        } else {
            0nat
        }
    }
}

/// Index of the first count at or after `from` that is of `line`, or the
/// length of `tally` where there is none.
pub open spec fn position_from(tally: Seq<Count>, line: Seq<u8>, from: int) -> int
    decreases tally.len() - from,
{
    if from < 0 || from >= tally.len() {
        tally.len() as int
    } else if tally[from].0 == line {
        from
    } else {
        position_from(tally, line, from + 1)
    }
}

/// The tally after one more `line`: its count goes up by one, and a line not
/// seen before comes last with a count of one.
pub open spec fn bumped(tally: Seq<Count>, line: Seq<u8>) -> Seq<Count> {
    let at = position_from(tally, line, 0);
    if 0 <= at < tally.len() {
        tally.update(at, (line, tally[at].1 + 1))
    } else {
        tally.push((line, 1))
    }
}

/// The tally of `lines`: each distinct counted line with its count, in the
/// order in which the lines first occur.
pub open spec fn tally_of(lines: Seq<Seq<u8>>, suppress: bool) -> Seq<Count>
    decreases lines.len(),
{
    if lines.len() == 0 {
        Seq::empty()
    } else {
        let before = tally_of(lines.drop_last(), suppress);
        if is_counted(lines.last(), suppress) {
            bumped(before, lines.last())
        } else {
            before
        }
    }
}

/// The line put out for a count: the count in decimal digits, the delimiter,
/// the line.
pub open spec fn rendered(count: Count, delim: Seq<u8>) -> Seq<u8> {
    number::decimal_of(count.1) + delim + count.0
}

/// The lines put out for a tally, in its order.
pub open spec fn report_of(tally: Seq<Count>, delim: Seq<u8>) -> Seq<Seq<u8>> {
    Seq::new(tally.len(), |i: int| rendered(tally[i], delim))
}

/// Where `position_from` points: at a count of `line` with none of `line`
/// between `from` and it, or at the end.
pub proof fn lemma_position_from(tally: Seq<Count>, line: Seq<u8>, from: int)
    requires
        0 <= from <= tally.len(),
    ensures
        from <= position_from(tally, line, from) <= tally.len(),
        position_from(tally, line, from) < tally.len() ==> tally[position_from(
            tally,
            line,
            from,
        )].0 == line,
        forall|i: int| from <= i < position_from(tally, line, from) ==> tally[i].0 != line,
    decreases tally.len() - from,
{
    if from < tally.len() && tally[from].0 != line {
        lemma_position_from(tally, line, from + 1);
    }
}

/// A tally says how often each line occurs. No line has two counts; each
/// count is that of the counted lines equal to its line, and is not zero; and
/// every counted line has a count.
pub proof fn lemma_tally_of(lines: Seq<Seq<u8>>, suppress: bool)
    ensures
        forall|i: int, j: int|
            0 <= i < j < tally_of(lines, suppress).len() ==> (#[trigger] tally_of(
                lines,
                suppress,
            )[i]).0 != (#[trigger] tally_of(lines, suppress)[j]).0,
        forall|i: int|
            0 <= i < tally_of(lines, suppress).len() ==> (#[trigger] tally_of(
                lines,
                suppress,
            )[i]).1 == times(lines, suppress, tally_of(lines, suppress)[i].0) && tally_of(
                lines,
                suppress,
            )[i].1 >= 1,
        forall|line: Seq<u8>|
            times(lines, suppress, line) > 0 ==> position_from(
                tally_of(lines, suppress),
                line,
                0,
            ) < tally_of(lines, suppress).len(),
    decreases lines.len(),
{
    if lines.len() > 0 {
        let rest = lines.drop_last();
        let last = lines.last();
        let before = tally_of(rest, suppress);
        let after = tally_of(lines, suppress);
        lemma_tally_of(rest, suppress);
        lemma_position_from(before, last, 0);
        let at = position_from(before, last, 0);
        assert forall|line: Seq<u8>| times(lines, suppress, line) > 0 implies position_from(
            after,
            line,
            0,
        ) < after.len() by {
            lemma_position_from(before, line, 0);
            lemma_position_from(after, line, 0);
            let was = position_from(before, line, 0);
            if was < before.len() {
                assert(before[was].0 == line);
                assert(after.len() >= before.len());
                assert(after[was].0 == line);
            } else {
                assert(times(rest, suppress, line) == 0);
                assert(last == line && is_counted(last, suppress));
                assert(at == was);
                assert(after == before.push((last, 1nat)));
                assert(after[before.len() as int].0 == line);
            }
        }
        if is_counted(last, suppress) && at >= before.len() {
            assert(times(rest, suppress, last) == 0);
        }
    }
}

/// Finds the count of `line` among `keys`: returns its index, or the number
/// of keys where the line has none.
fn find_key(keys: &Vec<(Vec<u8>, usize)>, line: &Vec<u8>) -> (at: usize)
    ensures
        at == position_from(tally_view(keys@), line@, 0),
        at <= keys.len(),
{
    let mut at: usize = 0;
    while at < keys.len()
        invariant
            at <= keys.len(),
            position_from(tally_view(keys@), line@, at as int) == position_from(
                tally_view(keys@),
                line@,
                0,
            ),
        decreases keys.len() - at,
    {
        if order::bytes_eq(keys[at].0.as_slice(), line.as_slice()) {
            return at;
        }
        at += 1;
    }
    at
}

/// What a vector of counts stands for.
pub open spec fn tally_view(counts: Seq<(Vec<u8>, usize)>) -> Seq<Count> {
    Seq::new(counts.len(), |i: int| (counts[i].0@, counts[i].1 as nat))
}

/// Counts the lines: returns each distinct line with the number of times it
/// occurs, in the order in which the lines first occur. Empty lines are left
/// out where `suppress` is set.
pub fn tally(lines: &Vec<Vec<u8>>, suppress: bool) -> (r: Vec<(Vec<u8>, usize)>)
    ensures
        tally_view(r@) == tally_of(text::views(lines@), suppress),
{
    let ghost all = text::views(lines@);
    let mut counts: Vec<(Vec<u8>, usize)> = Vec::new();
    let mut i: usize = 0;
    assert(all.take(0) =~= Seq::<Seq<u8>>::empty());
    assert(tally_view(counts@) =~= Seq::<Count>::empty());
    while i < lines.len()
        invariant
            i <= lines.len(),
            all == text::views(lines@),
            tally_view(counts@) == tally_of(all.take(i as int), suppress),
            forall|j: int| 0 <= j < counts@.len() ==> (#[trigger] counts@[j]).1 <= i,
        decreases lines.len() - i,
    {
        proof {
            assert(all.take(i + 1).drop_last() =~= all.take(i as int));
            assert(all.take(i + 1).last() == lines@[i as int]@);
        }
        if !(suppress && lines[i].len() == 0) {
            let ghost before = tally_view(counts@);
            let at = find_key(&counts, &lines[i]);
            if at < counts.len() {
                let seen = counts[at].1;
                counts[at].1 = seen + 1;
                assert(tally_view(counts@) =~= bumped(before, lines@[i as int]@)) by {
                    lemma_position_from(before, lines@[i as int]@, 0);
                }
            } else {
                counts.push((vstd::slice::slice_to_vec(lines[i].as_slice()), 1));
                assert(tally_view(counts@) =~= bumped(before, lines@[i as int]@));
            }
        }
        i += 1;
    }
    assert(all.take(lines@.len() as int) =~= all);
    counts
}

/// Counts the lines and writes the report: for each distinct line, in the
/// order of first occurrence, its count, the delimiter and the line.
pub fn run(lines: &Vec<Vec<u8>>, program_option: &ProgramOption) -> (r: Result<
    Vec<Vec<u8>>,
    String,
>)
    ensures
        r matches Ok(report) && text::views(report@) == report_of(
            tally_of(text::views(lines@), program_option.suppress),
            vstd::utf8::encode_utf8(program_option.delim@),
        ),
{
    let counts = tally(lines, program_option.suppress);
    let delim = program_option.delim.as_str().as_bytes();
    let ghost target = report_of(tally_view(counts@), delim@);
    let mut report: Vec<Vec<u8>> = Vec::new();
    let mut i: usize = 0;
    while i < counts.len()
        invariant
            i <= counts.len(),
            report@.len() == i,
            target == report_of(tally_view(counts@), delim@),
            forall|j: int| 0 <= j < i ==> (#[trigger] report@[j])@ == target[j],
        decreases counts.len() - i,
    {
        let mut line: Vec<u8> = Vec::new();
        number::push_decimal(&mut line, counts[i].1);
        line.extend_from_slice(delim);
        line.extend_from_slice(counts[i].0.as_slice());
        assert(line@ =~= target[i as int]);
        report.push(line);
        i += 1;
    }
    assert(text::views(report@) =~= target);
    Ok(report)
}

} // verus!
