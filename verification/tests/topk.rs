use line_utils::topk::select::{BottomK, SelectK, TopK};
use line_utils::topk::{
    byte_parser, char_parser, delegate, finish, int64_parser, offer_line, parse_arguments, run,
    Arguments, CompareType, ProgramOption, Skip,
};

fn lines(text: &[&str]) -> Vec<Vec<u8>> {
    text.iter().map(|line| line.as_bytes().to_vec()).collect()
}

fn option(reverse: bool, sort: bool, k: usize, compare_idx: usize) -> ProgramOption {
    ProgramOption {
        compare_type: CompareType::Byte,
        field_delim: "\t".to_owned(),
        compare_idx,
        reverse,
        sort,
        k,
        input_file: "/dev/stdin".to_owned(),
    }
}

const INPUT: [&str; 7] =
    ["1\tone", "9\tnine", "11\televen", "0\tzero", "5\tfive", "7\tseven", "9\tnine"];

#[test]
fn test_bottom_k() {
    let mut container = BottomK::<i64>::new(2);
    assert!(container.is_empty());
    container.push(5);
    assert_eq!(container.len(), 1);
    container.push(2);
    assert_eq!(container.len(), 2);
    container.push(-3);
    assert_eq!(container.len(), 2);
    let mut vec = container.into_vector();
    vec.sort();
    assert_eq!(vec, vec![-3, 2]);
}

#[test]
fn test_top_k() {
    let mut container = TopK::<i64>::new(2);
    assert!(container.is_empty());
    container.push(-3);
    assert_eq!(container.len(), 1);
    container.push(2);
    assert_eq!(container.len(), 2);
    container.push(5);
    assert_eq!(container.len(), 2);
    let mut vec = container.into_vector();
    vec.sort_by(|a, b| b.cmp(a));
    assert_eq!(vec, vec![5, 2]);
}

#[test]
fn bottom_k_sorted_is_ascending() {
    let mut container = BottomK::<i64>::new(3);
    for x in [7, -1, 4, 4, 9, 0, -1] {
        container.push(x);
    }
    assert_eq!(container.into_sorted_vector(), vec![-1, -1, 0]);
}

#[test]
fn top_k_sorted_is_descending() {
    let mut container = TopK::<i64>::new(3);
    for x in [7, -1, 4, 4, 9, 0, -1] {
        container.push(x);
    }
    assert_eq!(container.into_sorted_vector(), vec![9, 7, 4]);
}

#[test]
fn containers_of_one() {
    let mut low = BottomK::<i64>::new(1);
    let mut high = TopK::<i64>::new(1);
    for x in [3, 1, 2] {
        low.push(x);
        high.push(x);
    }
    assert_eq!(low.len(), 1);
    assert_eq!(low.into_vector(), vec![1]);
    assert_eq!(high.into_vector(), vec![3]);
}

#[test]
fn containers_rank_pairs_by_key_then_line() {
    let mut low = BottomK::<(i64, Vec<u8>)>::new(2);
    low.push((1, b"b".to_vec()));
    low.push((1, b"a".to_vec()));
    low.push((0, b"z".to_vec()));
    low.push((1, b"c".to_vec()));
    assert_eq!(low.into_sorted_vector(), vec![(0, b"z".to_vec()), (1, b"a".to_vec())]);
    let mut high = TopK::<(Vec<u8>, Vec<u8>)>::new(2);
    high.push((b"9".to_vec(), b"x".to_vec()));
    high.push((b"11".to_vec(), b"y".to_vec()));
    high.push((b"9".to_vec(), b"y".to_vec()));
    assert_eq!(
        high.into_sorted_vector(),
        vec![(b"9".to_vec(), b"y".to_vec()), (b"9".to_vec(), b"x".to_vec())]
    );
}

#[test]
fn containers_rank_chars_by_code_point() {
    let mut high = TopK::<Vec<char>>::new(1);
    high.push("é".chars().collect());
    high.push("z".chars().collect());
    high.push("zz".chars().collect());
    assert_eq!(high.into_vector(), vec!["é".chars().collect::<Vec<char>>()]);
}

#[test]
fn byte_parser_takes_everything() {
    assert_eq!(byte_parser(b"abc"), Ok(b"abc".to_vec()));
    assert_eq!(byte_parser(b""), Ok(Vec::new()));
    assert_eq!(byte_parser(&[0xff, 0x00]), Ok(vec![0xff, 0x00]));
}

#[test]
fn char_parser_decodes() {
    assert_eq!(char_parser("héllo".as_bytes()), Ok(vec!['h', 'é', 'l', 'l', 'o']));
    assert_eq!(char_parser(b""), Ok(Vec::new()));
    assert_eq!(char_parser(&[0xff]), Err("cannot parse `\u{fffd}` into chars".to_owned()));
    assert_eq!(char_parser(&[b'a', 0xc3]), Err("cannot parse `a\u{fffd}` into chars".to_owned()));
}

#[test]
fn int64_parser_reads_signed_decimals() {
    assert_eq!(int64_parser(b"0"), Ok(0));
    assert_eq!(int64_parser(b"42"), Ok(42));
    assert_eq!(int64_parser(b"+42"), Ok(42));
    assert_eq!(int64_parser(b"-42"), Ok(-42));
    assert_eq!(int64_parser(b"007"), Ok(7));
    assert_eq!(int64_parser(b"-0"), Ok(0));
    assert_eq!(int64_parser(b"9223372036854775807"), Ok(i64::MAX));
    assert_eq!(int64_parser(b"-9223372036854775808"), Ok(i64::MIN));
}

#[test]
fn int64_parser_refuses_the_rest() {
    for token in [
        "", "+", "-", " 1", "1 ", "1.0", "1e3", "--1", "+-1", "0x10", "a", "9223372036854775808",
        "-9223372036854775809", "99999999999999999999999999999999999999999999",
    ] {
        assert_eq!(
            int64_parser(token.as_bytes()),
            Err(format!("cannot parse `{}` into i64", token))
        );
        assert!(token.parse::<i64>().is_err());
    }
}

#[test]
fn top_three_by_bytes() {
    let selection = delegate::<Vec<u8>>(&lines(&INPUT), option(false, true, 3, 0)).ok().unwrap();
    assert_eq!(selection.lines, lines(&["9\tnine", "9\tnine", "7\tseven"]));
    assert!(selection.skipped.is_empty());
}

#[test]
fn top_three_by_integer() {
    let selection = delegate::<i64>(&lines(&INPUT), option(false, true, 3, 0)).ok().unwrap();
    assert_eq!(selection.lines, lines(&["11\televen", "9\tnine", "9\tnine"]));
}

#[test]
fn bottom_three_by_integer() {
    let selection = delegate::<i64>(&lines(&INPUT), option(true, true, 3, 0)).ok().unwrap();
    assert_eq!(selection.lines, lines(&["0\tzero", "1\tone", "5\tfive"]));
}

#[test]
fn top_three_by_second_field() {
    let selection = delegate::<Vec<u8>>(&lines(&INPUT), option(false, false, 3, 1)).ok().unwrap();
    let mut got = selection.lines;
    got.sort();
    assert_eq!(got, lines(&["0\tzero", "1\tone", "7\tseven"]));
}

#[test]
fn top_by_chars_equals_top_by_bytes() {
    let input = lines(&["é\t1", "z\t2", "a\t3", "ß\t4"]);
    let by_chars = delegate::<Vec<char>>(&input, option(false, true, 2, 0)).ok().unwrap();
    let by_bytes = delegate::<Vec<u8>>(&input, option(false, true, 2, 0)).ok().unwrap();
    assert_eq!(by_chars.lines, lines(&["é\t1", "ß\t4"]));
    assert_eq!(by_chars.lines, by_bytes.lines);
}

#[test]
fn lines_without_field_or_number_are_skipped() {
    let input = lines(&["3\ta", "x\tb", "nofield", "2\tc", ""]);
    let selection = delegate::<i64>(&input, option(false, true, 5, 0)).ok().unwrap();
    assert_eq!(selection.lines, lines(&["3\ta", "2\tc"]));
    assert_eq!(selection.skipped.len(), 3);
    assert_eq!(selection.skipped[0].line, 2);
    assert_eq!(selection.skipped[1].line, 3);
    assert_eq!(selection.skipped[2].line, 5);
    match &selection.skipped[0].reason {
        Skip::Unparsable(msg) => assert_eq!(msg, "cannot parse `x` into i64"),
        Skip::MissingColumn => panic!("the field is there"),
    }
    let second = delegate::<i64>(&input, option(false, true, 5, 1)).ok().unwrap();
    assert!(second.lines.is_empty());
    assert_eq!(second.skipped.len(), 5);
    assert!(matches!(second.skipped[2].reason, Skip::MissingColumn));
    assert!(matches!(second.skipped[0].reason, Skip::Unparsable(_)));
}

#[test]
fn run_keeps_what_the_container_held() {
    let mut container = TopK::<(i64, Vec<u8>)>::new(2);
    container.push((10, b"10\tten".to_vec()));
    let selection =
        run::<i64, TopK<(i64, Vec<u8>)>>(&lines(&INPUT), "\t", 0, true, container).ok().unwrap();
    assert_eq!(selection.lines, lines(&["11\televen", "10\tten"]));
}

#[test]
fn run_with_longer_delimiter() {
    let input = lines(&["1é9", "2é3", "é5", "7"]);
    let container = BottomK::<(i64, Vec<u8>)>::new(2);
    let selection =
        run::<i64, BottomK<(i64, Vec<u8>)>>(&input, "é", 1, true, container).ok().unwrap();
    assert_eq!(selection.lines, lines(&["2é3", "é5"]));
    assert_eq!(selection.skipped.len(), 1);
    assert_eq!(selection.skipped[0].line, 4);
}

#[test]
fn offer_line_by_line() {
    let mut container = TopK::<(i64, Vec<u8>)>::new(1);
    assert!(offer_line::<i64, _>(&mut container, b"a 5".to_vec(), b" ", 1).is_none());
    assert!(offer_line::<i64, _>(&mut container, b"b 7".to_vec(), b" ", 1).is_none());
    assert!(matches!(
        offer_line::<i64, _>(&mut container, b"c".to_vec(), b" ", 1),
        Some(Skip::MissingColumn)
    ));
    assert!(matches!(
        offer_line::<i64, _>(&mut container, b"c d".to_vec(), b" ", 1),
        Some(Skip::Unparsable(_))
    ));
    assert_eq!(finish::<i64, _>(container, false), lines(&["b 7"]));
}

#[test]
fn parse_arguments_picks_compare_type() {
    let args = |c: bool, f: bool, i: bool, field: usize| Arguments {
        field_delim: ',',
        compare_field: field,
        char_compare: c,
        float_compare: f,
        int_compare: i,
        reverse: true,
        sort: false,
        k: 4,
        input: Some("-".to_owned()),
    };
    let option = parse_arguments(args(false, false, false, 2)).ok().unwrap();
    assert_eq!(option.compare_type, CompareType::Byte);
    assert_eq!(option.compare_idx, 1);
    assert_eq!(option.field_delim, ",");
    assert_eq!(option.input_file, "/dev/stdin");
    assert!(option.reverse);
    assert!(!option.sort);
    assert_eq!(option.k, 4);
    assert_eq!(parse_arguments(args(true, false, false, 1)).ok().unwrap().compare_type, CompareType::Char);
    assert_eq!(parse_arguments(args(false, true, false, 1)).ok().unwrap().compare_type, CompareType::Float64);
    assert_eq!(parse_arguments(args(false, false, true, 1)).ok().unwrap().compare_type, CompareType::Int64);
    assert_eq!(
        parse_arguments(args(true, false, true, 1)).err().unwrap(),
        "Cannot specify more than one of -c, -f, -i"
    );
    assert_eq!(
        parse_arguments(args(true, true, true, 0)).err().unwrap(),
        "Cannot specify more than one of -c, -f, -i"
    );
    assert_eq!(
        parse_arguments(args(false, false, false, 0)).err().unwrap(),
        "compare field must be 1 or greater"
    );
}

#[test]
fn parse_arguments_keeps_a_named_input() {
    let args = Arguments {
        field_delim: '\t',
        compare_field: 1,
        char_compare: false,
        float_compare: false,
        int_compare: false,
        reverse: false,
        sort: true,
        k: 1,
        input: Some("data.tsv".to_owned()),
    };
    assert_eq!(parse_arguments(args).ok().unwrap().input_file, "data.tsv");
}
