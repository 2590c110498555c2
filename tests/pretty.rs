use toyjq::{flatable, literal, newline, text, Doc};

#[test]
fn test_newline() {
    let doc = Doc::new(vec![newline(1), newline(1), newline(1)]);
    assert_eq!(doc.pretty(0), "\n \n  \n   ")
}

fn sample() -> Doc {
    Doc::new(vec![flatable(vec![
        text("BEGIN".to_string()),
        newline(2),
        flatable(vec![literal("foo {"), newline(2), literal("bar"), newline(-2), literal("}")]),
        literal(","),
        newline(0),
        flatable(vec![
            literal("1"),
            newline(0),
            literal("2"),
            newline(0),
            literal("3"),
            newline(0),
            literal("4"),
        ]),
        newline(-2),
        text("END".to_string()),
    ])])
}

#[test]
fn test_pretty() {
    let doc = sample();
    assert_eq!(
        doc.pretty(0),
        r#"BEGIN
  foo {
    bar
  },
  1
  2
  3
  4
END"#
            .to_string()
    );
    assert_eq!(doc.pretty(30), "BEGIN foo { bar }, 1 2 3 4 END".to_string());
    assert_eq!(
        doc.pretty(29),
        r#"BEGIN
  foo { bar },
  1 2 3 4
END"#
            .to_string()
    );
}

#[test]
fn wide_width_gives_flat_text() {
    let doc = sample();
    assert_eq!(doc.pretty(1000), "BEGIN foo { bar }, 1 2 3 4 END");
    assert_eq!(doc.pretty(i32::MAX), "BEGIN foo { bar }, 1 2 3 4 END");
}

#[test]
fn top_level_newline_breaks_at_any_width() {
    let doc = Doc::new(vec![literal("a"), newline(0), literal("b")]);
    assert_eq!(doc.pretty(1000), "a\nb");
}

#[test]
fn group_that_exactly_fits_is_flat() {
    let doc = Doc::new(vec![flatable(vec![literal("ab"), newline(2), literal("cd")])]);
    assert_eq!(doc.pretty(5), "ab cd");
    assert_eq!(doc.pretty(4), "ab\n  cd");
}

#[test]
fn empty_group_renders_nothing() {
    let doc = Doc::new(vec![literal("x"), flatable(vec![]), literal("y")]);
    assert_eq!(doc.pretty(0), "xy");
    assert_eq!(doc.pretty(-5), "xy");
}

#[test]
fn overflowing_text_is_kept_whole() {
    let doc = Doc::new(vec![literal("abcdef"), flatable(vec![literal("g"), newline(0), literal("h")])]);
    assert_eq!(doc.pretty(3), "abcdefg\nh");
}

#[test]
fn fitted_group_is_charged_its_flat_width() {
    // The first group fits and leaves 2 columns; the second needs 3, so its
    // line break is kept.
    let doc = Doc::new(vec![
        flatable(vec![literal("aa"), newline(0), literal("bb")]),
        flatable(vec![literal("c"), newline(0), literal("d")]),
    ]);
    assert_eq!(doc.pretty(7), "aa bbc\nd");
    assert_eq!(doc.pretty(8), "aa bbc d");
}

#[test]
fn wider_line_can_add_breaks_later() {
    let doc = Doc::new(vec![
        flatable(vec![literal("aaaaaa"), newline(0), literal("b")]),
        flatable(vec![newline(0), newline(0), newline(0)]),
    ]);
    assert_eq!(doc.pretty(7), "aaaaaa\nb   ");
    assert_eq!(doc.pretty(8), "aaaaaa b\n\n\n");
}

#[test]
fn negative_indent_gives_no_spaces() {
    let doc = Doc::new(vec![newline(-3), literal("x"), newline(5), literal("y")]);
    assert_eq!(doc.pretty(0), "\nx\n  y");
}

#[test]
fn rendering_changes_only_blanks() {
    let doc = sample();
    let squeeze = |s: &str| s.chars().filter(|c| *c != ' ' && *c != '\n').collect::<String>();
    let flat = doc.pretty(10_000);
    for w in 0..40 {
        assert_eq!(squeeze(&doc.pretty(w)), squeeze(&flat));
    }
}

#[test]
fn narrower_width_first_expands() {
    // At 30 the outer group fits; at 29 it is the first decision and expands.
    let doc = sample();
    assert!(!doc.pretty(30).contains('\n'));
    assert!(doc.pretty(29).starts_with("BEGIN\n"));
}
