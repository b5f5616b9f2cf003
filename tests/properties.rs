use code_dup_detect::annotate::highlight_lines;
use code_dup_detect::finder::{
    compare_lines, find_dup_lines, find_groups, merge_spans, only_braces, Line,
};
use code_dup_detect::text::{is_white, normalize_line, split_lines};

fn chars(s: &str) -> Vec<char> {
    s.chars().collect()
}

fn line(s: &str, nr: usize) -> Line {
    Line { text: chars(s), nr }
}

#[test]
fn normalize_trims_and_drops_spaces() {
    assert_eq!(chars("aa=b;"), normalize_line(&chars("  aa  =b; \t")));
    assert_eq!(chars("a\tb"), normalize_line(&chars("\t a \tb \n")));
    assert_eq!(chars(""), normalize_line(&chars(" \t ")));
}

#[test]
fn normalize_twice_is_normalize_once() {
    for s in ["  let  a = 0; ", "\ta\t b\t", "", "   ", "x"] {
        let once = normalize_line(&chars(s));
        assert_eq!(once, normalize_line(&once));
    }
}

#[test]
fn spaces_do_not_matter() {
    assert_eq!(normalize_line(&chars("aa=b;")), normalize_line(&chars("  aa  =b;")));
    assert_eq!(vec![vec![(0, 0), (2, 2)]], find_dup_lines("a = b;\nx\n  a=b ;"));
}

#[test]
fn whitespace_classes() {
    assert!(is_white(' '));
    assert!(is_white('\t'));
    assert!(is_white('\u{3000}'));
    assert!(is_white('\u{85}'));
    assert!(!is_white('a'));
    assert!(!is_white('{'));
}

#[test]
fn split_keeps_empty_lines() {
    let lines = split_lines(&chars("a\n\nb\n"));
    assert_eq!(vec![chars("a"), chars(""), chars("b"), chars("")], lines);
    assert_eq!(vec![chars("")], split_lines(&chars("")));
}

#[test]
fn line_predicates() {
    assert!(line("", 0).empty_line());
    assert!(line(" \t", 0).empty_line());
    assert!(!line("a", 0).empty_line());
    assert!(line("ab", 0).eq_txt(&line("ab", 7)));
    assert!(!line("ab", 0).eq_txt(&line("abc", 0)));
    assert!(only_braces(&[line("{", 0), line("}}", 1), line("", 2)]));
    assert!(!only_braces(&[line("{", 0), line("a}", 1)]));
    assert!(compare_lines(&[line("a", 0), line("b", 1)], &[line("a", 5), line("b", 9)]));
    assert!(!compare_lines(&[line("a", 0), line("b", 1)], &[line("a", 5), line("c", 9)]));
}

#[test]
fn merge_rule_keeps_first_span() {
    assert_eq!(Ok((1, 3)), merge_spans((1, 3), (3, 5)));
    assert_eq!(Ok((1, 3)), merge_spans((1, 3), (2, 4)));
    assert_eq!(Err(((1, 3), (4, 6))), merge_spans((1, 3), (4, 6)));
}

#[test]
fn empty_and_tiny_documents() {
    assert!(find_dup_lines("").is_empty());
    assert!(find_dup_lines("a").is_empty());
    assert!(find_dup_lines("\n\n\n").is_empty());
    assert!(find_dup_lines("a\nb").is_empty());
}

#[test]
fn brace_only_document() {
    assert!(find_dup_lines("{\n}\n{\n}\n{\n  }\n}\n{{\n{{").is_empty());
}

#[test]
fn three_occurrences_in_one_group() {
    assert_eq!(
        vec![vec![(0, 1), (2, 3), (4, 5)]],
        find_dup_lines("x\ny\nx\ny\nx\ny")
    );
}

#[test]
fn self_overlapping_run_is_not_a_duplicate() {
    // The only repeats of `a` sit in one run; coalescing keeps one span.
    assert!(find_dup_lines("a\na\nb").len() == 1);
    assert_eq!(vec![vec![(0, 0), (1, 1)]], find_dup_lines("a\na\nb"));
    assert!(find_dup_lines("a\nb\na\nb\na\nc\nd\ne").iter().all(|g| g.len() >= 2));
}

#[test]
fn groups_never_overlap() {
    let text = "a\nb\nc\na\nb\nc\na\nb\nd\nc\nd";
    let groups = find_dup_lines(text);
    let spans: Vec<(usize, usize)> = groups.iter().flatten().copied().collect();
    for (k, x) in spans.iter().enumerate() {
        for (l, y) in spans.iter().enumerate() {
            if k != l {
                assert!(x.1 < y.0 || y.1 < x.0);
            }
        }
    }
    assert!(groups.iter().all(|g| g.len() >= 2));
}

#[test]
fn finder_on_prepared_lines() {
    let lines = vec![line("b", 0), line("c", 1), line("a", 3), line("b", 4), line("a", 5), line("b", 6)];
    assert_eq!(vec![vec![(3, 4), (5, 6)]], find_groups(&lines, 7));
}

#[test]
fn tie_break_and_independent_singles() {
    assert_eq!(vec![vec![(2, 3), (4, 5)]], find_dup_lines("b\nc\na\nb\na\nb"));
    assert_eq!(
        vec![vec![(1, 1), (5, 5)], vec![(2, 2), (4, 4)]],
        find_dup_lines("\na\nb\nc\nb\na")
    );
}

#[test]
fn blank_line_inside_duplicate() {
    assert_eq!(vec![vec![(0, 2), (4, 6)]], find_dup_lines("x\n\ny\nz\nx\n\ny"));
    let flags = highlight_lines("x\n\ny\nz\nx\n\ny");
    assert_eq!(vec![true, false, true, false, true, false, true], flags);
}

#[test]
fn highlight_marks_duplicated_lines() {
    let inp = "\n        a a\n        a a\n        b\n        ";
    assert_eq!(vec![false, true, true, false, false], highlight_lines(inp));
    assert_eq!(vec![false], highlight_lines(""));
}
