use code_dup_detect::finder::find_dup_lines;

#[test]
fn test_ignore_whitespace() {
    assert_eq!(vec![vec![(0, 0), (1, 1)]], find_dup_lines(" aa=b;\n   aa  =b;\n"));
}

#[test]
fn test_skip_braces() {
    let s = r#"
        {
        {
        }
        }
        {
        }
        {
        }
        }
        }
        "#;
    assert!(find_dup_lines(s).is_empty());
}

#[test]
fn spans_overlap() {
    let s = r#"
        b
        c
        a
        b
        a
        b
        "#;
    assert_eq!(vec![vec![(3, 4), (5, 6)]], find_dup_lines(s));
}

#[test]
fn multiple_spans() {
    let s = r#"
        a
        b
        c
        b
        a
        "#;
    assert_eq!(
        vec![vec![(1, 1), (5, 5)], vec![(2, 2), (4, 4)]],
        find_dup_lines(s)
    );
}

#[test]
fn test_ignores_empty_lines() {
    let s = r#"
        a

        a

        a
        a
        "#;
    assert_eq!(vec![vec![(1, 3), (5, 6)]], find_dup_lines(s));
}

#[test]
fn test_group() {
    let s = r#"
        let a = 0;
        a += 1;
        a += 1;
        dbg(a)

        let a = 0;
        a += 1;
        a += 1;
        "#;
    assert_eq!(vec![vec![(1, 3), (6, 8)]], find_dup_lines(s));
}

#[test]
fn test_3_occurences() {
    let s = r#"
        let a = 0;
        a += 1;
        dbg(a)

        let a = 0;
        a += 1;
        xxx;
        let a = 0;
        a += 1;
        "#;
    assert_eq!(vec![vec![(1, 2), (5, 6), (8, 9)]], find_dup_lines(s));
}

#[test]
fn test_single_line() {
    let s = r#"
        let a = 0;

        let a = 0;
        "#;
    assert_eq!(vec![vec![(1, 1), (3, 3)]], find_dup_lines(s));
}
