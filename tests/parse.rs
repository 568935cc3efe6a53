use delinhere::args::Args;
use delinhere::tokenize::{reprocessed_args, Unit};
use delinhere::utils::Pos;

fn lines_of(raw: &[&str]) -> Vec<Vec<String>> {
    Args::parse_lines(&raw.iter().map(|s| s.to_string()).collect())
}

fn strings(v: &[&str]) -> Vec<String> {
    v.iter().map(|s| s.to_string()).collect()
}

fn units(text: &str) -> Vec<Unit> {
    text.chars()
        .map(|c| {
            if c == '\n' {
                Unit::LineBreak
            } else {
                Unit::Grapheme(c.to_string())
            }
        })
        .collect()
}

#[test]
fn single_line_three_args() {
    let lines = lines_of(&["f(a, b, c)"]);
    let (args, counts) = Args::parse_args(&lines, Pos::new(1, 2), Pos::new(1, 10));
    assert_eq!(args, strings(&["a", "b", "c"]));
    assert_eq!(counts, vec![3]);
    let a = Args::new(strings(&["f(a, b, c)"]), Pos::new(1, 2), Pos::new(1, 10));
    assert_eq!(a.reconstruct_args(), "a, b, c");
}

#[test]
fn two_lines_keep_their_split() {
    let raw = ["f(arg1, arg2,", "    arg3)"];
    let (args, counts) = Args::parse_args(&lines_of(&raw), Pos::new(1, 2), Pos::new(2, 9));
    assert_eq!(args, strings(&["arg1", "arg2", "arg3"]));
    assert_eq!(counts, vec![2, 1]);
    let a = Args::new(strings(&raw), Pos::new(1, 2), Pos::new(2, 9));
    assert_eq!(a.reconstruct_args(), "arg1, arg2,\n    arg3");
}

#[test]
fn nested_call_is_one_argument() {
    let raw = ["f(a, g(b, c), d)"];
    let (args, counts) = Args::parse_args(&lines_of(&raw), Pos::new(1, 2), Pos::new(1, 16));
    assert_eq!(args, strings(&["a", "g(b, c)", "d"]));
    assert_eq!(counts, vec![3]);
}

#[test]
fn trailing_comma_slot_not_counted() {
    let raw = ["f(a, b,", ")"];
    let (args, counts) = Args::parse_args(&lines_of(&raw), Pos::new(1, 2), Pos::new(2, 1));
    assert_eq!(args, strings(&["a", "b"]));
    assert_eq!(counts, vec![2, 0]);
    let a = Args::new(strings(&raw), Pos::new(1, 2), Pos::new(2, 1));
    assert_eq!(a.reconstruct_args(), "a, b,\n");
}

#[test]
fn reparse_of_reconstruction_gives_same_args() {
    let raw = ["call(x, [1, 2], {k: v},   y  )"];
    let a = Args::new(strings(&raw), Pos::new(1, 5), Pos::new(1, 30));
    let (args, counts) = Args::parse_args(&lines_of(&raw), Pos::new(1, 5), Pos::new(1, 30));
    assert_eq!(args, strings(&["x", "[1, 2]", "{k: v}", "y"]));
    assert_eq!(counts, vec![4]);
    let text = a.reconstruct_args();
    assert_eq!(text, "x, [1, 2], {k: v}, y");
    let again = format!("({})", text);
    let n = again.chars().count() as u64;
    let (args2, counts2) =
        Args::parse_args(&lines_of(&[again.as_str()]), Pos::new(1, 1), Pos::new(1, n));
    assert_eq!(args2, args);
    assert_eq!(counts2, counts);
}

#[test]
fn empty_region_has_no_args() {
    let (args, counts) = Args::parse_args(&lines_of(&["f()"]), Pos::new(1, 2), Pos::new(1, 3));
    assert!(args.is_empty());
    assert_eq!(counts, vec![0]);
    let a = Args::new(strings(&["f()"]), Pos::new(1, 2), Pos::new(1, 3));
    assert_eq!(a.reconstruct_args(), "");
}

#[test]
fn empty_multi_line_region_has_no_args() {
    let (args, counts) = Args::parse_args(&lines_of(&["f(", ")"]), Pos::new(1, 2), Pos::new(2, 1));
    assert!(args.is_empty());
    assert_eq!(counts, vec![0, 0]);
}

#[test]
fn args_are_trimmed() {
    let raw = ["f(  a  ,\tb ,  c d )"];
    let (args, counts) = Args::parse_args(&lines_of(&raw), Pos::new(1, 2), Pos::new(1, 19));
    assert_eq!(args, strings(&["a", "b", "c d"]));
    assert_eq!(counts, vec![3]);
    for a in &args {
        assert_eq!(a.trim(), a.as_str());
    }
}

#[test]
fn mixed_nested_brackets_kept_verbatim() {
    let raw = ["f([a, {b: c}], d)"];
    let (args, counts) = Args::parse_args(&lines_of(&raw), Pos::new(1, 2), Pos::new(1, 17));
    assert_eq!(args, strings(&["[a, {b: c}]", "d"]));
    assert_eq!(counts, vec![2]);
}

#[test]
fn nested_line_break_kept_in_argument() {
    // the line break inside g(...) gets no count of its own
    let raw = ["f(a, g(b,", "  c), d)"];
    let (args, counts) = Args::parse_args(&lines_of(&raw), Pos::new(1, 2), Pos::new(2, 8));
    assert_eq!(args, strings(&["a", "g(b,\n  c)", "d"]));
    assert_eq!(counts, vec![3]);
}

#[test]
fn counts_add_up_to_args() {
    let raw = ["f(a, b,", "  c, d,", "  e)"];
    let (args, counts) = Args::parse_args(&lines_of(&raw), Pos::new(1, 2), Pos::new(3, 4));
    assert_eq!(counts.len(), raw.len());
    assert_eq!(counts.iter().sum::<usize>(), args.len());
    assert_eq!(counts, vec![2, 2, 1]);
}

#[test]
fn argument_running_past_line_break_counts_twice() {
    // one argument on two lines: each line counts it
    let raw = ["f(a", "  b)"];
    let (args, counts) = Args::parse_args(&lines_of(&raw), Pos::new(1, 2), Pos::new(2, 4));
    assert_eq!(args, strings(&["a  b"]));
    assert_eq!(counts, vec![1, 1]);
}

#[test]
fn blank_line_indents_from_column_one() {
    let raw = ["f(a,", "   ", "b)"];
    let a = Args::new(strings(&raw), Pos::new(1, 2), Pos::new(3, 2));
    assert_eq!(a.reconstruct_args(), "a,\n,\nb");
}

#[test]
fn indentation_is_restored_per_line() {
    let raw = ["foo(one,", "      two, three,", "  four)"];
    let a = Args::new(strings(&raw), Pos::new(10, 4), Pos::new(12, 7));
    assert_eq!(a.reconstruct_args(), "one,\n      two, three,\n  four");
}

#[test]
fn graphemes_are_the_unit_of_columns() {
    // a skin-toned emoji and an accented letter are one column each
    let raw = ["f(\u{1F44D}\u{1F3FD}, e\u{301})"];
    let lines = lines_of(&raw);
    assert_eq!(lines[0].len(), 7);
    assert_eq!(lines[0][2], "\u{1F44D}\u{1F3FD}");
    let (args, counts) = Args::parse_args(&lines, Pos::new(1, 2), Pos::new(1, 7));
    assert_eq!(args, strings(&["\u{1F44D}\u{1F3FD}", "e\u{301}"]));
    assert_eq!(counts, vec![2]);
}

#[test]
fn empty_line_has_no_graphemes() {
    let lines = lines_of(&["", "ab"]);
    assert!(lines[0].is_empty());
    assert_eq!(lines[1], strings(&["a", "b"]));
}

#[test]
fn out_of_range_columns_are_clamped() {
    let (args, counts) =
        Args::parse_args(&lines_of(&["(a, b"]), Pos::new(1, 1), Pos::new(1, 40));
    assert_eq!(args, strings(&["a", "b"]));
    assert_eq!(counts, vec![2]);
    let (args, counts) = Args::parse_args(&lines_of(&["ab)"]), Pos::new(1, 9), Pos::new(1, 3));
    assert!(args.is_empty());
    assert_eq!(counts, vec![0]);
}

#[test]
fn unbalanced_bracket_keeps_its_text() {
    let (args, counts) = reprocessed_args(&units("a, (b, c\n"));
    assert_eq!(args, strings(&["a", "(b, c"]));
    assert!(counts.is_empty());
}

#[test]
fn mismatched_close_inside_bracket_is_text() {
    let (args, counts) = reprocessed_args(&units("(a]), b\n"));
    assert_eq!(args, strings(&["(a])", "b"]));
    assert_eq!(counts, vec![2]);
}

#[test]
fn stray_close_at_top_level_is_text() {
    let (args, counts) = reprocessed_args(&units("a), b\n"));
    assert_eq!(args, strings(&["a)", "b"]));
    assert_eq!(counts, vec![2]);
}

#[test]
fn empty_stream_counts_one_line() {
    let (args, counts) = reprocessed_args(&Vec::new());
    assert!(args.is_empty());
    assert_eq!(counts, vec![1]);
}

#[test]
fn whitespace_only_argument_is_empty_string() {
    let (args, counts) = reprocessed_args(&units("a, \n"));
    assert_eq!(args, strings(&["a", ""]));
    assert_eq!(counts, vec![1]);
}

#[test]
fn cycle_args_leaves_list() {
    let mut a = Args::new(strings(&["f(a, b)"]), Pos::new(1, 2), Pos::new(1, 7));
    a.cycle_args();
    assert_eq!(a.reconstruct_args(), "a, b");
}

#[test]
fn no_lines_reconstructs_to_nothing() {
    let a = Args::new(Vec::new(), Pos::new(1, 2), Pos::new(1, 3));
    assert_eq!(a.reconstruct_args(), "");
}

#[test]
fn stream_without_final_break_counts_last_line() {
    let (args, counts) = reprocessed_args(&units("a, b"));
    assert_eq!(args, strings(&["a", "b"]));
    assert_eq!(counts, vec![2]);
}
