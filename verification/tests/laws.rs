use retrie::assemble::parse_file;
use retrie::normalize::pre_process;
use retrie::tidy::collapse_brackets;
use retrie::tidy::post_process;

fn to_lines(xs: &[&str]) -> Vec<Vec<u8>> {
    xs.iter().map(|s| s.as_bytes().to_vec()).collect()
}

fn run_flags(xs: &[&str], diacritics: bool, noncapture: bool) -> String {
    let out = parse_file(to_lines(xs), diacritics, noncapture).unwrap();
    String::from_utf8(out).unwrap()
}

#[test]
fn no_shared_prefixes() {
    assert_eq!("abc|bcd|efg", run_flags(&["abc", "bcd", "efg"], true, false));
}

#[test]
fn two_letter_bracket_class() {
    assert_eq!("ab[cd]", run_flags(&["abc", "abd"], true, false));
}

#[test]
fn two_letter_bracket_class_flags_off() {
    assert_eq!("ab[cd]", run_flags(&["abc", "abd"], false, false));
}

// A word that is a one-letter prefix of the other yields the minimal form:
// the extra letter followed by a bare `?`, with no singleton group.
#[test]
fn prefix_word_becomes_optional_suffix() {
    assert_eq!("abc?", run_flags(&["ab", "abc"], true, false));
}

// A longer extension still needs its group: `?` applies to one atom.
#[test]
fn prefix_word_with_long_extension_keeps_group() {
    assert_eq!("ab(cd)?", run_flags(&["ab", "abcd"], true, false));
}

// The minimal form also holds when the optional letter closes inside a
// larger group rather than at its end.
#[test]
fn prefix_word_inside_group_stays_minimal() {
    assert_eq!("x(ab?|b)", run_flags(&["xa", "xab", "xb"], true, false));
}

#[test]
fn accented_variant_nests_with_bracket_classes() {
    assert_eq!(
        "Mar(i[ae]|[i\u{ed}]a)",
        run_flags(&["Maria", "Marie", "Mar\u{ed}a"], true, false)
    );
}

#[test]
fn prefix_word_collapses_to_bare_optional_inside_group() {
    assert_eq!("l(o(uise?)|ucy)", run_flags(&["louis", "louise", "lucy"], true, false));
}

#[test]
fn empty_input_empty_pattern() {
    let out = parse_file(Vec::new(), true, false).unwrap();
    assert_eq!(0, out.len());
}

#[test]
fn blank_lines_only_empty_pattern() {
    let out = parse_file(to_lines(&["", "   ", " "]), true, false).unwrap();
    assert_eq!(0, out.len());
}

#[test]
fn normalization_idempotent() {
    let mut v = to_lines(&["  beta ", "alpha", "beta", "", "gamma  "]);
    pre_process(&mut v);
    let once = v.clone();
    pre_process(&mut v);
    assert_eq!(once, v);
}

#[test]
fn accent_fold_round_trips_c2_range() {
    for t in 161u8..192u8 {
        let lines = vec![vec![194u8, t]];
        let out = parse_file(lines, false, false).unwrap();
        assert_eq!(vec![194u8, t], out);
    }
}

#[test]
fn accent_fold_round_trips_c3_range() {
    for t in 128u8..192u8 {
        let lines = vec![vec![195u8, t]];
        let out = parse_file(lines, false, false).unwrap();
        assert_eq!(vec![195u8, t], out);
    }
}

#[test]
fn bracket_collapse_is_a_fixed_point() {
    let mut v = b"x(a|b)y(c|d)((e|f)|g)".to_vec();
    collapse_brackets(&mut v);
    let once = v.clone();
    collapse_brackets(&mut v);
    assert_eq!(once, v);
    assert_eq!(b"x[ab]y[cd]([ef]|g)".to_vec(), once);
}

#[test]
fn budget_exhaustion_fails_cleanly() {
    let mut a = vec![97u8; 1500];
    a.push(98);
    let mut b = vec![97u8; 1500];
    b.push(99);
    assert_eq!(None, parse_file(vec![a, b], true, false));
}

#[test]
fn noncapturing_marker_flag() {
    assert_eq!("ab(?:c|de)", run_flags(&["abc", "abde"], false, true));
}

#[test]
fn diacritic_wrap_single_word() {
    assert_eq!("caf[e\u{e9}]", run_flags(&["caf\u{e9}"], true, false));
}

#[test]
fn diacritic_flag_off_keeps_accent_bare() {
    assert_eq!("caf\u{e9}", run_flags(&["caf\u{e9}"], false, false));
}

#[test]
fn post_process_expands_folded_bytes() {
    let mut v = vec![97u8, 233u8];
    post_process(&mut v, false, false);
    assert_eq!("a\u{e9}".as_bytes().to_vec(), v);
}

#[test]
fn unfoldable_pair_is_reencoded_bytewise() {
    let out = parse_file(vec![vec![194u8, 144u8]], false, false).unwrap();
    assert_eq!(vec![195u8, 130u8, 144u8], out);
}

#[test]
fn normalizer_sorts_trims_and_dedups() {
    let mut v = to_lines(&[" pear", "apple ", "pear", "  fig  "]);
    pre_process(&mut v);
    assert_eq!(to_lines(&["apple", "fig", "pear"]), v);
}
