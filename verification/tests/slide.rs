use beamer_quickie::slide::{create_label, truncate_line, SlideData, SlideType, DEFAULT_IMAGE};

#[test]
fn slide_type_from_num_accepts_only_three_numbers() {
    assert!(matches!(SlideType::from_num(0), Ok(SlideType::Main)));
    assert!(matches!(SlideType::from_num(1), Ok(SlideType::Appendix)));
    assert!(matches!(SlideType::from_num(2), Ok(SlideType::Unused)));
    assert!(SlideType::from_num(3).is_err());
    assert!(SlideType::from_num(255).is_err());
}

#[test]
fn slide_type_number_roundtrip() {
    for t in [SlideType::Main, SlideType::Appendix, SlideType::Unused] {
        let n = t.to_num();
        assert!(n <= 2);
        assert_eq!(SlideType::from_num(n).unwrap().to_num(), n);
    }
    for n in 0u8..=2 {
        assert_eq!(SlideType::from_num(n).unwrap().to_num(), n);
    }
}

#[test]
fn slide_type_names() {
    assert_eq!(SlideType::Main.to_string(), "Main");
    assert_eq!(SlideType::Appendix.to_string(), "Appendix");
    assert_eq!(SlideType::Unused.to_string(), "Unused");
}

#[test]
fn slide_type_default_is_main() {
    assert!(matches!(SlideType::default(), SlideType::Main));
}

#[test]
fn truncate_line_keeps_short_lines() {
    assert_eq!(truncate_line(""), "");
    assert_eq!(truncate_line("short"), "short");
    let forty = "a".repeat(40);
    assert_eq!(truncate_line(&forty), forty);
}

#[test]
fn truncate_line_shortens_long_lines() {
    let long = "b".repeat(41);
    let expected = format!("{}\u{2026}", "b".repeat(39));
    assert_eq!(truncate_line(&long), expected);
    assert_eq!(truncate_line(&long).chars().count(), 40);
    // Counted in characters, not bytes.
    let wide = "\u{e9}".repeat(41);
    assert_eq!(truncate_line(&wide), format!("{}\u{2026}", "\u{e9}".repeat(39)));
}

#[test]
fn truncate_line_is_idempotent() {
    let long = "c".repeat(100);
    let once = truncate_line(&long);
    assert_eq!(truncate_line(&once), once);
}

#[test]
fn create_label_keeps_short_frames() {
    let content = "\\begin{frame}{A}\nx\n\\end{frame}";
    assert_eq!(create_label(content), content);
    assert_eq!(create_label(""), "");
    // Five line breaks: all six lines are kept.
    let six = "1\n2\n3\n4\n5\n6";
    assert_eq!(create_label(six), six);
}

#[test]
fn create_label_cuts_long_frames() {
    // Six line breaks: the first three lines, an ellipsis and the last line.
    let seven = "1\n2\n3\n4\n5\n6\n7";
    assert_eq!(create_label(seven), "1\n2\n3\n\u{22ee}\n7");
}

#[test]
fn create_label_shortens_long_lines() {
    let content = format!("{}\nend", "x".repeat(50));
    assert_eq!(create_label(&content), format!("{}\u{2026}\nend", "x".repeat(39)));
}

#[test]
fn label_lines_are_bounded() {
    let content = format!("{}\n{}\nc\nd\ne\nf\ng\n{}", "p".repeat(45), "q".repeat(80), "r".repeat(41));
    let label = create_label(&content);
    assert!(label.split('\n').count() <= 6);
    for line in label.split('\n') {
        assert!(line.chars().count() <= 40);
    }
}

#[test]
fn slide_data_new_builds_label_and_default_image() {
    let d = SlideData::new(true, 3, 5, "a\nb".to_string(), None, 1);
    assert!(d.included);
    assert_eq!(d.linestart, 3);
    assert_eq!(d.lineend, 5);
    assert_eq!(d.content, "a\nb");
    assert_eq!(d.label, "a\nb");
    assert_eq!(d.image, DEFAULT_IMAGE);
    assert_eq!(d.image, "resources/icons/slide.svg");
    assert_eq!(d.slidetype, 1);
}

#[test]
fn slide_data_new_keeps_given_image() {
    let d = SlideData::new(false, 0, 0, String::new(), Some("/tmp/x.svg".to_string()), 2);
    assert!(!d.included);
    assert_eq!(d.image, "/tmp/x.svg");
    assert_eq!(d.label, "");
}

#[test]
fn slide_data_default_is_empty() {
    let d = SlideData::default();
    assert!(!d.included);
    assert_eq!(d.linestart, 0);
    assert_eq!(d.lineend, 0);
    assert_eq!(d.content, "");
    assert_eq!(d.label, "");
    assert_eq!(d.image, "");
    assert_eq!(d.slidetype, 0);
}
