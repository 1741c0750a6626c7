use line_utils::count::{parse_arguments, run, tally, Arguments, ProgramOption};

fn lines(text: &[&str]) -> Vec<Vec<u8>> {
    text.iter().map(|line| line.as_bytes().to_vec()).collect()
}

fn option(delim: &str, suppress: bool) -> ProgramOption {
    ProgramOption { delim: delim.to_owned(), suppress, input_file: "/dev/stdin".to_owned() }
}

#[test]
fn counts_each_line() {
    let input = lines(&["three", "one", "two", "three", "two", "three"]);
    let report = run(&input, &option("\t", false)).ok().unwrap();
    assert_eq!(report, lines(&["3\tthree", "1\tone", "2\ttwo"]));
}

#[test]
fn counts_empty_lines_unless_suppressed() {
    let input = lines(&["", "a", "", "a", ""]);
    assert_eq!(run(&input, &option(" ", false)).ok().unwrap(), lines(&["3 ", "2 a"]));
    assert_eq!(run(&input, &option(" ", true)).ok().unwrap(), lines(&["2 a"]));
}

#[test]
fn counts_nothing_in_no_lines() {
    assert!(run(&Vec::new(), &option("\t", false)).ok().unwrap().is_empty());
    assert!(tally(&lines(&["", ""]), true).is_empty());
}

#[test]
fn counts_with_many_digits() {
    let input: Vec<Vec<u8>> = (0..1234).map(|_| b"x".to_vec()).collect();
    assert_eq!(run(&input, &option("::", false)).ok().unwrap(), lines(&["1234::x"]));
    let ten: Vec<Vec<u8>> = (0..10).map(|_| b"y".to_vec()).collect();
    assert_eq!(tally(&ten, false), vec![(b"y".to_vec(), 10)]);
    assert_eq!(run(&ten, &option("é", false)).ok().unwrap(), lines(&["10éy"]));
}

#[test]
fn tally_keeps_first_occurrence_order() {
    let input = lines(&["b", "a", "b", "c", "a", "b"]);
    assert_eq!(
        tally(&input, false),
        vec![(b"b".to_vec(), 3), (b"a".to_vec(), 2), (b"c".to_vec(), 1)]
    );
}

#[test]
fn parse_arguments_always_succeeds() {
    let option = parse_arguments(Arguments { delimiter: ',', suppress: true, input: None })
        .ok()
        .unwrap();
    assert_eq!(option.delim, ",");
    assert!(option.suppress);
    assert_eq!(option.input_file, "/dev/stdin");
    let option = parse_arguments(Arguments {
        delimiter: 'é',
        suppress: false,
        input: Some("-".to_owned()),
    })
    .ok()
    .unwrap();
    assert_eq!(option.delim, "é");
    assert_eq!(option.input_file, "/dev/stdin");
    let option = parse_arguments(Arguments {
        delimiter: '\t',
        suppress: false,
        input: Some("in.txt".to_owned()),
    })
    .ok()
    .unwrap();
    assert_eq!(option.input_file, "in.txt");
}
