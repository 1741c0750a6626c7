//! Selection of the k highest or lowest records of a stream, in space
//! proportional to k.
//!
//! A record is a line. It is ranked by one of its fields, read as bytes, as
//! characters or as a number, and by the whole line where two fields rank
//! alike.

pub mod select;

use crate::input;
use crate::number;
use crate::rank;
use crate::rank::Ranked;
use crate::text;
use crate::topk::select::{BottomK, SelectK, TopK};
use vstd::prelude::*;

verus! {

/// The options as they are given on the command line.
pub struct Arguments {
    /// Field delimiter.
    pub field_delim: char,
    /// The field to compare by, counted from one.
    pub compare_field: usize,
    /// Compare the field as characters.
    pub char_compare: bool,
    /// Compare the field as a floating-point number.
    pub float_compare: bool,
    /// Compare the field as an integer.
    pub int_compare: bool,
    /// Select the lowest instead of the highest.
    pub reverse: bool,
    /// Put the selection out sorted.
    pub sort: bool,
    /// How many records to select.
    pub k: usize,
    /// Path of the input; none, or `-`, for standard input.
    pub input: Option<String>,
}

/// What a field is read as when records are compared.
#[derive(Clone, Copy, Debug, PartialEq, Eq, Structural)]
pub enum CompareType {
    /// Its bytes.
    Byte,
    /// Its characters.
    Char,
    /// A 64-bit integer.
    Int64,
    /// A 64-bit floating-point number.
    Float64,
}

/// The options that a run works with.
pub struct ProgramOption {
    /// What the field is read as.
    pub compare_type: CompareType,
    /// Field delimiter.
    pub field_delim: String,
    /// The field to compare by, counted from zero.
    pub compare_idx: usize,
    /// Select the lowest instead of the highest.
    pub reverse: bool,
    /// Put the selection out sorted.
    pub sort: bool,
    /// How many records to select.
    pub k: usize,
    /// Path of the input.
    pub input_file: String,
}

/// The way of comparing that the three flags ask for; `None` where more
/// than one is set.
pub open spec fn compare_type_of(as_chars: bool, as_float: bool, as_int: bool) -> Option<
    CompareType,
> {
    if !as_chars && !as_float && !as_int {
        Some(CompareType::Byte)
    } else if as_chars && !as_float && !as_int {
        Some(CompareType::Char)
    } else if !as_chars && as_float && !as_int {
        Some(CompareType::Float64)
    } else if !as_chars && !as_float && as_int {
        Some(CompareType::Int64)
    } else {
        None
    }
}

/// Turns the command line's options into those of a run. More than one way
/// of comparing is refused, and so is a field of zero; any other field is
/// counted from zero from here on.
pub fn parse_arguments(args: Arguments) -> (r: Result<ProgramOption, String>)
    ensures
        r is Err <==> compare_type_of(args.char_compare, args.float_compare, args.int_compare)
            is None || args.compare_field == 0,
        r matches Err(msg) ==> msg@ == (if compare_type_of(
            args.char_compare,
            args.float_compare,
            args.int_compare,
        ) is None {
            "Cannot specify more than one of -c, -f, -i"@
        } else {
            "compare field must be 1 or greater"@
        }),
        r matches Ok(option) ==> {
            &&& Some(option.compare_type) == compare_type_of(
                args.char_compare,
                args.float_compare,
                args.int_compare,
            )
            &&& option.input_file@ == input::input_path_of(args.input)
            &&& option.compare_idx == args.compare_field - 1
            &&& option.field_delim@ == seq![args.field_delim]
            &&& option.reverse == args.reverse
            &&& option.k == args.k
            &&& option.sort == args.sort
        },
{
    let input_file = input::input_path(args.input);
    let compare_type = if !args.char_compare && !args.float_compare && !args.int_compare {
        CompareType::Byte
    } else if args.char_compare && !args.float_compare && !args.int_compare {
        CompareType::Char
    } else if !args.char_compare && args.float_compare && !args.int_compare {
        CompareType::Float64
    } else if !args.char_compare && !args.float_compare && args.int_compare {
        CompareType::Int64
    } else {
        return Err("Cannot specify more than one of -c, -f, -i".to_owned());
    };
    if args.compare_field == 0 {
        return Err("compare field must be 1 or greater".to_owned());
    }
    Ok(
        ProgramOption {
            compare_type,
            input_file,
            compare_idx: args.compare_field - 1,
            field_delim: text::char_to_string(args.field_delim),
            reverse: args.reverse,
            k: args.k,
            sort: args.sort,
        },
    )
}

/// The message for a token that does not parse into `target`.
pub open spec fn parse_error(token: Seq<u8>, target: Seq<char>) -> Seq<char> {
    "cannot parse `"@ + text::lossy_text(token) + "` into "@ + target
}

/// Writes the message for a token that does not parse into `target`.
fn parse_failure(token: &[u8], target: &str) -> (msg: String)
    ensures
        msg@ == parse_error(token@, target@),
{
    let mut msg = String::from_str("cannot parse `");
    let shown = text::text_of(token);
    msg.append(shown.as_str());
    msg.append("` into ");
    msg.append(target);
    msg
}

/// Reads a token as its bytes. Every token parses.
pub fn byte_parser(token: &[u8]) -> (r: Result<Vec<u8>, String>)
    ensures
        r matches Ok(key) && key@ == token@,
{
    Ok(vstd::slice::slice_to_vec(token))
}

/// Reads a token as its characters. A token that is not UTF-8 does not
/// parse.
pub fn char_parser(token: &[u8]) -> (r: Result<Vec<char>, String>)
    ensures
        match r {
            Ok(key) => vstd::utf8::valid_utf8(token@) && key@ == vstd::utf8::decode_utf8(token@),
            Err(msg) => !vstd::utf8::valid_utf8(token@) && msg@ == parse_error(token@, "chars"@),
        },
{
    match text::as_utf8(token) {
        Some(s) => Ok(text::chars_of(s)),
        None => Err(parse_failure(token, "chars")),
    }
}

/// Reads a token as a 64-bit integer: an optional sign, then decimal digits.
pub fn int64_parser(token: &[u8]) -> (r: Result<i64, String>)
    ensures
        match r {
            Ok(key) => number::int_of(token@) == Some(key),
            Err(msg) => number::int_of(token@) is None && msg@ == parse_error(token@, "i64"@),
        },
{
    match number::parse_i64(token) {
        Some(x) => Ok(x),
        None => Err(parse_failure(token, "i64")),
    }
}

/// A key that records are ranked by and that is read from a field.
pub trait SortKey: Ranked {
    /// What `token` is read as; `None` where it does not parse.
    spec fn parsed(token: Seq<u8>) -> Option<Self::Model>;

    /// Reads a key from `token`.
    fn parse(token: &[u8]) -> (r: Result<Self, String>)
        ensures
            match r {
                Ok(key) => Self::parsed(token@) == Some(key.model()),
                Err(_) => Self::parsed(token@) is None,
            },
    ;
}

impl SortKey for Vec<u8> {
    open spec fn parsed(token: Seq<u8>) -> Option<Seq<u8>> {
        Some(token)
    }

    fn parse(token: &[u8]) -> (r: Result<Self, String>) {
        byte_parser(token)
    }
}

impl SortKey for Vec<char> {
    open spec fn parsed(token: Seq<u8>) -> Option<Seq<char>> {
        if vstd::utf8::valid_utf8(token) {
            Some(vstd::utf8::decode_utf8(token))
        } else {
            None
        }
    }

    fn parse(token: &[u8]) -> (r: Result<Self, String>) {
        char_parser(token)
    }
}

impl SortKey for i64 {
    open spec fn parsed(token: Seq<u8>) -> Option<i64> {
        number::int_of(token)
    }

    fn parse(token: &[u8]) -> (r: Result<Self, String>) {
        int64_parser(token)
    }
}

/// Why a line was passed over.
pub enum Skip {
    /// The line has no field of the index asked for.
    MissingColumn,
    /// The field does not parse; the message says so.
    Unparsable(String),
}

/// A line that was passed over.
pub struct Skipped {
    /// The line's number, counted from one.
    pub line: usize,
    /// Why it was passed over.
    pub reason: Skip,
}

/// What a run selected and what it passed over.
pub struct Selection {
    /// The lines selected.
    pub lines: Vec<Vec<u8>>,
    /// The lines passed over, in the order of the input.
    pub skipped: Vec<Skipped>,
}

/// The entry that `line` offers to the selection: its key and itself.
/// `None` where the line lacks the field or the field does not parse.
pub open spec fn entry_of<K: SortKey>(line: Seq<u8>, delim: Seq<u8>, index: nat) -> Option<
    (K::Model, Seq<u8>),
> {
    match text::piece(line, delim, index) {
        Some((start, end)) => match K::parsed(line.subrange(start, end)) {
            Some(key) => Some((key, line)),
            None => None,
        },
        None => None,
    }
}

/// What a container holds after the entries of `lines` were offered to it one
/// by one.
pub open spec fn offered<K: SortKey, C: SelectK<(K, Vec<u8>)>>(
    kept: Seq<(K::Model, Seq<u8>)>,
    bound: nat,
    lines: Seq<Seq<u8>>,
    delim: Seq<u8>,
    index: nat,
) -> Seq<(K::Model, Seq<u8>)>
    decreases lines.len(),
{
    if lines.len() == 0 {
        kept
    } else {
        let before = offered::<K, C>(kept, bound, lines.drop_last(), delim, index);
        match entry_of::<K>(lines.last(), delim, index) {
            Some(entry) => C::pushed(before, bound, entry),
            None => before,
        }
    }
}

/// The entries of the lines that offer one, in the order of the lines.
pub open spec fn entries_of<K: SortKey>(lines: Seq<Seq<u8>>, delim: Seq<u8>, index: nat) -> Seq<
    (K::Model, Seq<u8>),
>
    decreases lines.len(),
{
    if lines.len() == 0 {
        Seq::empty()
    } else {
        let before = entries_of::<K>(lines.drop_last(), delim, index);
        match entry_of::<K>(lines.last(), delim, index) {
            Some(entry) => before.push(entry),
            None => before,
        }
    }
}

/// What a selection of the lowest comes to: an empty container of the lowest
/// that was offered the lines holds the first `limit` of their entries in
/// ascending order, entries that rank alike in the order of the lines.
pub proof fn lemma_offered_lowest<K: SortKey>(
    lines: Seq<Seq<u8>>,
    delim: Seq<u8>,
    index: nat,
    limit: nat,
)
    ensures
        offered::<K, BottomK<(K, Vec<u8>)>>(Seq::empty(), limit, lines, delim, index)
            == select::lowest_of::<(K, Vec<u8>)>(entries_of::<K>(lines, delim, index), limit),
        offered::<K, BottomK<(K, Vec<u8>)>>(Seq::empty(), limit, lines, delim, index)
            == rank::sort_of::<(K, Vec<u8>)>(entries_of::<K>(lines, delim, index)).take(
            if limit <= entries_of::<K>(lines, delim, index).len() {
                limit as int
            } else {
                entries_of::<K>(lines, delim, index).len() as int
            },
        ),
    decreases lines.len(),
{
    if lines.len() > 0 {
        lemma_offered_lowest::<K>(lines.drop_last(), delim, index, limit);
        let before = entries_of::<K>(lines.drop_last(), delim, index);
        if let Some(entry) = entry_of::<K>(lines.last(), delim, index) {
            assert(before.push(entry).drop_last() =~= before);
        }
    }
    select::lemma_lowest_of::<(K, Vec<u8>)>(entries_of::<K>(lines, delim, index), limit);
}

/// What a selection of the highest comes to: an empty container of the
/// highest that was offered the lines holds the first `limit` of their
/// entries in descending order, entries that rank alike in the order of the
/// lines.
pub proof fn lemma_offered_highest<K: SortKey>(
    lines: Seq<Seq<u8>>,
    delim: Seq<u8>,
    index: nat,
    limit: nat,
)
    ensures
        offered::<K, TopK<(K, Vec<u8>)>>(Seq::empty(), limit, lines, delim, index)
            == select::highest_of::<(K, Vec<u8>)>(entries_of::<K>(lines, delim, index), limit),
        offered::<K, TopK<(K, Vec<u8>)>>(Seq::empty(), limit, lines, delim, index)
            == rank::sort_of::<select::Reversed<(K, Vec<u8>)>>(
            entries_of::<K>(lines, delim, index),
        ).take(
            if limit <= entries_of::<K>(lines, delim, index).len() {
                limit as int
            } else {
                entries_of::<K>(lines, delim, index).len() as int
            },
        ),
    decreases lines.len(),
{
    if lines.len() > 0 {
        lemma_offered_highest::<K>(lines.drop_last(), delim, index, limit);
        let before = entries_of::<K>(lines.drop_last(), delim, index);
        if let Some(entry) = entry_of::<K>(lines.last(), delim, index) {
            assert(before.push(entry).drop_last() =~= before);
        }
    }
    select::lemma_highest_of::<(K, Vec<u8>)>(entries_of::<K>(lines, delim, index), limit);
}

/// The numbers, counted from one, of the lines that offer no entry.
pub open spec fn skipped_lines<K: SortKey>(lines: Seq<Seq<u8>>, delim: Seq<u8>, index: nat) -> Seq<
    nat,
>
    decreases lines.len(),
{
    if lines.len() == 0 {
        Seq::empty()
    } else {
        let before = skipped_lines::<K>(lines.drop_last(), delim, index);
        if entry_of::<K>(lines.last(), delim, index) is None {
            before.push(lines.len())
        } else {
            before
        }
    }
}

/// The lines of the entries, in the same order.
pub open spec fn lines_of<M>(entries: Seq<(M, Seq<u8>)>) -> Seq<Seq<u8>> {
    Seq::new(entries.len(), |i: int| entries[i].1)
}

/// The line numbers of a report, in the same order.
pub open spec fn line_numbers(skipped: Seq<Skipped>) -> Seq<nat> {
    Seq::new(skipped.len(), |i: int| skipped[i].line as nat)
}

/// Each line of the report is a line of the input, and is reported to lack
/// its column exactly where it has no field of that index.
pub open spec fn reasons_hold(
    skipped: Seq<Skipped>,
    lines: Seq<Seq<u8>>,
    delim: Seq<u8>,
    index: nat,
) -> bool {
    forall|i: int|
        0 <= i < skipped.len() ==> 1 <= (#[trigger] skipped[i]).line <= lines.len() && (
        skipped[i].reason is MissingColumn <==> text::piece(
            lines[skipped[i].line - 1],
            delim,
            index,
        ) is None)
}

/// Offers a line whose key was read already: pushes key and line, or passes
/// the line over where the key did not parse and returns the message.
pub fn offer_parsed<K: Ranked, C: SelectK<(K, Vec<u8>)>>(
    container: &mut C,
    parsed: Result<K, String>,
    line: Vec<u8>,
) -> (r: Option<Skip>)
    ensures
        final(container).bound() == old(container).bound(),
        match parsed {
            Ok(key) => r is None && final(container).kept() == C::pushed(
                old(container).kept(),
                old(container).bound(),
                (key.model(), line@),
            ),
            Err(msg) => r == Some(Skip::Unparsable(msg)) && final(container).kept() == old(
                container,
            ).kept(),
        },
{
    match parsed {
        Ok(key) => {
            container.push((key, line));
            None
        },
        Err(msg) => Some(Skip::Unparsable(msg)),
    }
}

/// Offers one line to the container: reads the key from the line's field and
/// pushes key and line. A line without the field, or with a field that does
/// not parse, is passed over and the reason returned.
pub fn offer_line<K: SortKey, C: SelectK<(K, Vec<u8>)>>(
    container: &mut C,
    line: Vec<u8>,
    delim: &[u8],
    compare_idx: usize,
) -> (r: Option<Skip>)
    requires
        delim.len() > 0,
    ensures
        final(container).bound() == old(container).bound(),
        match entry_of::<K>(line@, delim@, compare_idx as nat) {
            Some(entry) => r is None && final(container).kept() == C::pushed(
                old(container).kept(),
                old(container).bound(),
                entry,
            ),
            None => r is Some && final(container).kept() == old(container).kept(),
        },
        r matches Some(Skip::MissingColumn) <==> text::piece(line@, delim@, compare_idx as nat)
            is None,
{
    match text::nth_piece(line.as_slice(), delim, compare_idx) {
        None => Some(Skip::MissingColumn),
        Some((start, end)) => {
            let parsed = K::parse(vstd::slice::slice_subrange(line.as_slice(), start, end));
            offer_parsed(container, parsed, line)
        },
    }
}

/// Takes the lines out of the entries, in the same order.
fn lines_out<K: Ranked>(entries: Vec<(K, Vec<u8>)>) -> (r: Vec<Vec<u8>>)
    ensures
        text::views(r@) == lines_of(rank::models(entries@)),
{
    let ghost target = lines_of(rank::models(entries@));
    let mut entries = entries;
    let mut backwards: Vec<Vec<u8>> = Vec::new();
    while entries.len() > 0
        invariant
            entries@.len() + backwards@.len() == target.len(),
            forall|i: int| 0 <= i < entries@.len() ==> (#[trigger] entries@[i]).1@ == target[i],
            forall|i: int|
                0 <= i < backwards@.len() ==> (#[trigger] backwards@[i])@ == target[target.len() - 1
                    - i],
        decreases entries.len(),
    {
        let entry = entries.pop().unwrap();
        backwards.push(entry.1);
    }
    let mut r: Vec<Vec<u8>> = Vec::new();
    while backwards.len() > 0
        invariant
            r@.len() + backwards@.len() == target.len(),
            forall|i: int| 0 <= i < r@.len() ==> (#[trigger] r@[i])@ == target[i],
            forall|i: int|
                0 <= i < backwards@.len() ==> (#[trigger] backwards@[i])@ == target[target.len() - 1
                    - i],
        decreases backwards.len(),
    {
        let line = backwards.pop().unwrap();
        r.push(line);
    }
    assert(text::views(r@) =~= target);
    r
}

/// Takes the selected lines out of the container: sorted, the best first,
/// where `sort` is set.
pub fn finish<K: SortKey, C: SelectK<(K, Vec<u8>)>>(container: C, sort: bool) -> (r: Vec<Vec<u8>>)
    ensures
        text::views(r@) == lines_of(container.kept()),
{
    let entries = if sort {
        container.into_sorted_vector()
    } else {
        container.into_vector()
    };
    lines_out(entries)
}

/// Offers every line to the container and takes the selection out of it.
/// Lines without the field, or with a field that does not parse, are passed
/// over and reported with their numbers.
pub fn run<K: SortKey, C: SelectK<(K, Vec<u8>)>>(
    lines: &Vec<Vec<u8>>,
    delim: &str,
    compare_idx: usize,
    sort: bool,
    container: C,
) -> (r: Result<Selection, String>)
    requires
        delim@.len() > 0,
    ensures
        r matches Ok(selection) && text::views(selection.lines@) == lines_of(
            offered::<K, C>(
                container.kept(),
                container.bound(),
                text::views(lines@),
                vstd::utf8::encode_utf8(delim@),
                compare_idx as nat,
            ),
        ) && line_numbers(selection.skipped@) == skipped_lines::<K>(
            text::views(lines@),
            vstd::utf8::encode_utf8(delim@),
            compare_idx as nat,
        ) && reasons_hold(
            selection.skipped@,
            text::views(lines@),
            vstd::utf8::encode_utf8(delim@),
            compare_idx as nat,
        ),
{
    let delim_bytes = delim.as_bytes();
    proof {
        text::lemma_text_not_empty(delim@);
    }
    let ghost all = text::views(lines@);
    let ghost kept = container.kept();
    let ghost bound = container.bound();
    let mut container = container;
    let mut skipped: Vec<Skipped> = Vec::new();
    let mut i: usize = 0;
    assert(all.take(0) =~= Seq::<Seq<u8>>::empty());
    assert(line_numbers(skipped@) =~= Seq::<nat>::empty());
    while i < lines.len()
        invariant
            i <= lines.len(),
            all == text::views(lines@),
            delim_bytes@ == vstd::utf8::encode_utf8(delim@),
            delim_bytes.len() > 0,
            container.bound() == bound,
            container.kept() == offered::<K, C>(
                kept,
                bound,
                all.take(i as int),
                delim_bytes@,
                compare_idx as nat,
            ),
            line_numbers(skipped@) == skipped_lines::<K>(
                all.take(i as int),
                delim_bytes@,
                compare_idx as nat,
            ),
            forall|j: int| 0 <= j < skipped@.len() ==> (#[trigger] skipped@[j]).line <= i,
            reasons_hold(skipped@, all, delim_bytes@, compare_idx as nat),
        decreases lines.len() - i,
    {
        let line = vstd::slice::slice_to_vec(lines[i].as_slice());
        proof {
            assert(all.take(i + 1).drop_last() =~= all.take(i as int));
            assert(all.take(i + 1).last() == line@);
        }
        let ghost before = line_numbers(skipped@);
        match offer_line::<K, C>(&mut container, line, delim_bytes, compare_idx) {
            Some(reason) => {
                skipped.push(Skipped { line: i + 1, reason });
                assert(line_numbers(skipped@) =~= before.push((i + 1) as nat));
            },
            None => {},
        }
        i += 1;
    }
    assert(all.take(lines@.len() as int) =~= all);
    Ok(Selection { lines: finish::<K, C>(container, sort), skipped })
}

/// Runs the selection that the options ask for: of the highest lines, or of
/// the lowest where `reverse` is set. The options ask for one line at least.
pub fn delegate<K: SortKey>(lines: &Vec<Vec<u8>>, program_option: ProgramOption) -> (r: Result<
    Selection,
    String,
>)
    requires
        program_option.k > 0,
        program_option.field_delim@.len() > 0,
    ensures
        r matches Ok(selection) && text::views(selection.lines@) == (if program_option.reverse {
            lines_of(
                offered::<K, BottomK<(K, Vec<u8>)>>(
                    Seq::empty(),
                    program_option.k as nat,
                    text::views(lines@),
                    vstd::utf8::encode_utf8(program_option.field_delim@),
                    program_option.compare_idx as nat,
                ),
            )
        } else {
            lines_of(
                offered::<K, TopK<(K, Vec<u8>)>>(
                    Seq::empty(),
                    program_option.k as nat,
                    text::views(lines@),
                    vstd::utf8::encode_utf8(program_option.field_delim@),
                    program_option.compare_idx as nat,
                ),
            )
        }) && line_numbers(selection.skipped@) == skipped_lines::<K>(
            text::views(lines@),
            vstd::utf8::encode_utf8(program_option.field_delim@),
            program_option.compare_idx as nat,
        ) && reasons_hold(
            selection.skipped@,
            text::views(lines@),
            vstd::utf8::encode_utf8(program_option.field_delim@),
            program_option.compare_idx as nat,
        ),
{
    if program_option.reverse {
        run::<K, BottomK<(K, Vec<u8>)>>(
            lines,
            program_option.field_delim.as_str(),
            program_option.compare_idx,
            program_option.sort,
            BottomK::<(K, Vec<u8>)>::new(program_option.k),
        )
    } else {
        run::<K, TopK<(K, Vec<u8>)>>(
            lines,
            program_option.field_delim.as_str(),
            program_option.compare_idx,
            program_option.sort,
            TopK::<(K, Vec<u8>)>::new(program_option.k),
        )
    }
}

} // verus!
