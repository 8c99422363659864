use flag_parser::get_flags;

#[test]
fn short_flags() {
    let input = "-a -b -c -d";
    let flags = get_flags(input);

    assert_eq!(flags.len(), 4);
    assert!(flags.contains(&"a"));
    assert!(flags.contains(&"b"));
    assert!(flags.contains(&"c"));
    assert!(flags.contains(&"d"));
    assert!(!flags.contains(&"e"));
}

#[test]
fn multiple_short_flags() {
    let input = "-abcdabcd";
    let flags = get_flags(input);

    assert_eq!(flags.len(), 4);
    assert!(flags.contains(&"a"));
    assert!(flags.contains(&"b"));
    assert!(flags.contains(&"c"));
    assert!(flags.contains(&"d"));
    assert!(!flags.contains(&"e"));
}

#[test]
fn long_flags() {
    let input = "--long-flag-a --long-flag-b --long-flag-c";
    let flags = get_flags(input);

    assert_eq!(flags.len(), 3);
    assert!(flags.contains(&"long-flag-a"));
    assert!(flags.contains(&"long-flag-b"));
    assert!(flags.contains(&"long-flag-c"));
    assert!(!flags.contains(&"long-flag-d"));
}

#[test]
fn long_and_short_flags() {
    let input = "-a -b -c -d --long-flag-a --long-flag-b --long-flag-c";
    let flags = get_flags(input);

    assert_eq!(flags.len(), 7);
    assert!(flags.contains(&"a"));
    assert!(flags.contains(&"b"));
    assert!(flags.contains(&"c"));
    assert!(flags.contains(&"d"));
    assert!(!flags.contains(&"e"));
    assert!(flags.contains(&"long-flag-a"));
    assert!(flags.contains(&"long-flag-b"));
    assert!(flags.contains(&"long-flag-c"));
    assert!(!flags.contains(&"long-flag-d"));
}

#[test]
fn long_and_multiple_short_flags() {
    let input = "-abcd --long-flag-a --long-flag-b --long-flag-c";
    let flags = get_flags(input);

    assert_eq!(flags.len(), 7);
    assert!(flags.contains(&"a"));
    assert!(flags.contains(&"b"));
    assert!(flags.contains(&"c"));
    assert!(flags.contains(&"d"));
    assert!(!flags.contains(&"e"));
    assert!(flags.contains(&"long-flag-a"));
    assert!(flags.contains(&"long-flag-b"));
    assert!(flags.contains(&"long-flag-c"));
    assert!(!flags.contains(&"long-flag-d"));
}

#[test]
fn empty_input() {
    let flags = get_flags("");
    assert_eq!(flags.len(), 0);
}

#[test]
fn plain_tokens_are_ignored() {
    let flags = get_flags("plain text");
    assert_eq!(flags.len(), 0);
}

#[test]
fn single_dash_alone() {
    let flags = get_flags("-");
    assert_eq!(flags.len(), 0);
}

#[test]
fn double_dash_alone_is_the_empty_name() {
    let flags = get_flags("--");
    assert_eq!(flags.len(), 1);
    assert!(flags.contains(&""));
}

#[test]
fn repeated_names_collapse_across_tokens() {
    // "x" arrives as a short flag and as a long flag; both are the one name.
    let flags = get_flags("-aa -a --x --x -x");
    assert_eq!(flags.len(), 2);
    assert!(flags.contains(&"a"));
    assert!(flags.contains(&"x"));
}

#[test]
fn same_input_yields_equal_sets() {
    let input = "-abcd --long-flag-a -e --";
    let mut first = get_flags(input);
    let mut second = get_flags(input);
    first.sort();
    second.sort();
    assert_eq!(first, second);
}

#[test]
fn whitespace_runs_make_no_empty_tokens() {
    let flags = get_flags("  -a\t\t-b\n -a  \r");
    assert_eq!(flags.len(), 2);
    assert!(flags.contains(&"a"));
    assert!(flags.contains(&"b"));
}

#[test]
fn long_flag_keeps_further_dashes() {
    let flags = get_flags("---x");
    assert_eq!(flags.len(), 1);
    assert!(flags.contains(&"-x"));
}
