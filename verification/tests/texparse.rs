use beamer_quickie::slide::SlideData;
use beamer_quickie::slide::SlideType;
use beamer_quickie::texparse::{get_frames, last_page_within, BeamerContents, FrameError, TexError};

const DOC: &str = "\\documentclass{beamer}\n\\begin{document}\n\\begin{frame}{A}\nx\n\\end{frame}\n\\appendix\n\\begin{frame}{B}\n\\end{frame}\n\\end{document}\n\\begin{frame}{C}\n\\end{frame}\n";

fn chars(s: &str) -> Vec<char> {
    s.chars().collect()
}

#[test]
fn get_frames_reads_frames_in_order() {
    let text = "pre\n\\begin{frame}\nA\n\\end{frame}\n  \\begin{frame}{T}\nB\n\\end{frame}\ntail";
    let s = chars(text);
    let frames = get_frames(&s, 0, s.len(), SlideType::Main).unwrap();
    assert_eq!(frames.len(), 2);
    assert_eq!(frames[0].content, "\\begin{frame}\nA\n\\end{frame}");
    assert_eq!(frames[0].linestart, 2);
    assert_eq!(frames[0].lineend, 4);
    // A frame starts at the start of its line.
    assert_eq!(frames[1].content, "  \\begin{frame}{T}\nB\n\\end{frame}");
    assert_eq!(frames[1].linestart, 5);
    assert_eq!(frames[1].lineend, 7);
    for f in &frames {
        assert!(f.included);
        assert_eq!(f.slidetype, 0);
        assert_eq!(f.image, "resources/icons/slide.svg");
        assert_eq!(f.label, f.content);
    }
}

#[test]
fn get_frames_stops_after_end() {
    let s = chars("a\n\\begin{frame}\\end{frame}");
    let frames = get_frames(&s, 0, 1, SlideType::Appendix).unwrap();
    assert!(frames.is_empty());
    let frames = get_frames(&s, 0, 2, SlideType::Appendix).unwrap();
    assert_eq!(frames.len(), 1);
    assert_eq!(frames[0].slidetype, 1);
}

#[test]
fn get_frames_without_frames_is_empty() {
    let s = chars("no frames here\n");
    assert!(get_frames(&s, 0, s.len(), SlideType::Unused).unwrap().is_empty());
    assert!(get_frames(&s, s.len(), s.len(), SlideType::Unused).unwrap().is_empty());
}

#[test]
fn get_frames_no_line_break() {
    let s = chars("\\begin{frame}x\\end{frame}");
    assert_eq!(get_frames(&s, 0, s.len(), SlideType::Main).unwrap_err(), FrameError::NoLineBreak);
}

#[test]
fn get_frames_frame_not_ended() {
    let s = chars("a\n\\begin{frame} x");
    assert_eq!(get_frames(&s, 0, s.len(), SlideType::Main).unwrap_err(), FrameError::FrameNotEnded);
}

#[test]
fn get_frames_no_progress() {
    // The frame that begins at 13 starts its line at 2, where an earlier
    // `\end{frame}` ends at 13 again.
    let s = chars("a\n\\end{frame}\\begin{frame}");
    assert_eq!(get_frames(&s, 13, 100, SlideType::Main).unwrap_err(), FrameError::NoProgress);
}

#[test]
fn frames_do_not_overlap() {
    let text = "x\n\\begin{frame}a\\end{frame}\n\\begin{frame}b\\end{frame}\n\n\\begin{frame}c\n\\end{frame}";
    let s = chars(text);
    let frames = get_frames(&s, 0, s.len(), SlideType::Main).unwrap();
    assert_eq!(frames.len(), 3);
    let mut from = 0;
    for f in &frames {
        let pos = text[from..].find(f.content.as_str()).unwrap() + from;
        assert!(f.content.ends_with("\\end{frame}"));
        assert!(f.content.contains("\\begin{frame}"));
        from = pos + f.content.len();
    }
}

#[test]
fn parse_reads_all_parts() {
    let bc = BeamerContents::parse(DOC).unwrap();
    assert_eq!(bc.preamble(), "\\documentclass{beamer}\n\\begin{document}");
    assert_eq!(bc.slides().len(), 1);
    assert_eq!(bc.slides()[0].content, "\\begin{frame}{A}\nx\n\\end{frame}");
    assert_eq!(bc.slides()[0].linestart, 3);
    assert_eq!(bc.slides()[0].lineend, 5);
    assert_eq!(bc.slides()[0].slidetype, 0);
    assert_eq!(bc.appendix().len(), 1);
    assert_eq!(bc.appendix()[0].content, "\\begin{frame}{B}\n\\end{frame}");
    assert_eq!(bc.appendix()[0].linestart, 7);
    assert_eq!(bc.appendix()[0].lineend, 8);
    assert_eq!(bc.appendix()[0].slidetype, 1);
    assert_eq!(bc.unused().len(), 1);
    assert_eq!(bc.unused()[0].content, "\\begin{frame}{C}\n\\end{frame}");
    assert_eq!(bc.unused()[0].linestart, 10);
    assert_eq!(bc.unused()[0].lineend, 11);
    assert_eq!(bc.unused()[0].slidetype, 2);
}

#[test]
fn parse_without_appendix() {
    let doc = "p\n\\begin{document}\n\\begin{frame}1\\end{frame}\n\\begin{frame}2\\end{frame}\n\\end{document}\n";
    let bc = BeamerContents::parse(doc).unwrap();
    assert_eq!(bc.slides().len(), 2);
    assert!(bc.appendix().is_empty());
    assert!(bc.unused().is_empty());
}

#[test]
fn parse_errors() {
    assert_eq!(BeamerContents::parse("").err(), Some(TexError::NoBeginDocument));
    assert_eq!(BeamerContents::parse("\\end{document}").err(), Some(TexError::NoBeginDocument));
    assert_eq!(BeamerContents::parse("\\begin{document}\n").err(), Some(TexError::NoEndDocument));
    assert_eq!(
        BeamerContents::parse("\\begin{document}\\begin{frame}x\\end{frame}\\end{document}").err(),
        Some(TexError::Frame(FrameError::NoLineBreak))
    );
    assert_eq!(
        BeamerContents::parse("a\n\\begin{document}\n\\begin{frame}\n\\end{document}").err(),
        Some(TexError::Frame(FrameError::FrameNotEnded))
    );
}

#[test]
fn parse_reads_appendix_first() {
    // Both the main part and the appendix hold an unended frame; the
    // appendix is read first, and a frame that does not end is reported.
    let doc = "a\n\\begin{document}\n\\begin{frame}\n\\appendix\n\\begin{frame}\n\\end{document}";
    assert_eq!(BeamerContents::parse(doc).err(), Some(TexError::Frame(FrameError::FrameNotEnded)));
}

#[test]
fn to_string_writes_document_back() {
    let bc = BeamerContents::parse(DOC).unwrap();
    let expected = "\\documentclass{beamer}\n\\begin{document}\n\n\\begin{frame}{A}\nx\n\\end{frame}\n\n\\appendix\n\n\\begin{frame}{B}\n\\end{frame}\n\n\\end{document}\n\n\\begin{frame}{C}\n\\end{frame}\n\n";
    assert_eq!(bc.to_string(), expected);
}

#[test]
fn to_string_leaves_out_excluded_frames() {
    let slides = vec![
        SlideData::new(true, 0, 0, "M1".to_string(), None, 0),
        SlideData::new(false, 0, 0, "M2".to_string(), None, 0),
        SlideData::new(true, 0, 0, "A1".to_string(), None, 1),
        SlideData::new(false, 0, 0, "U1".to_string(), None, 2),
    ];
    let bc = BeamerContents::from_slides("P".to_string(), slides);
    assert_eq!(bc.to_string(), "P\n\nM1\n\n\\appendix\n\nA1\n\n\\end{document}\n\n");
}

#[test]
fn from_slides_sorts_by_type_in_order() {
    let slides = vec![
        SlideData::new(true, 0, 0, "u".to_string(), None, 2),
        SlideData::new(true, 0, 0, "m1".to_string(), None, 0),
        SlideData::new(true, 0, 0, "a".to_string(), None, 1),
        SlideData::new(true, 0, 0, "m2".to_string(), None, 0),
    ];
    let bc = BeamerContents::from_slides("pre".to_string(), slides);
    assert_eq!(bc.preamble(), "pre");
    let main: Vec<&str> = bc.slides().iter().map(|s| s.content.as_str()).collect();
    assert_eq!(main, vec!["m1", "m2"]);
    assert_eq!(bc.appendix().len(), 1);
    assert_eq!(bc.appendix()[0].content, "a");
    assert_eq!(bc.unused().len(), 1);
    assert_eq!(bc.unused()[0].content, "u");
    assert_eq!(bc.slides().len() + bc.appendix().len() + bc.unused().len(), 4);
}

#[test]
fn last_page_within_takes_the_last_page() {
    let lines = vec![4, 3, 8, 12, 5];
    assert_eq!(last_page_within(&lines, 3, 5), Some(4));
    assert_eq!(last_page_within(&lines, 7, 8), Some(2));
    assert_eq!(last_page_within(&lines, 10, 11), None);
    assert_eq!(last_page_within(&vec![], 0, 100), None);
}

#[test]
fn pages_from_lines_for_each_frame() {
    let bc = BeamerContents::parse(DOC).unwrap();
    let lines = vec![4, 3, 8, 12, 5];
    assert_eq!(bc.pages_from_lines(&lines), vec![Some(4), Some(2), None]);
}

#[test]
fn pages_from_frames_in_turn() {
    let slides = vec![
        SlideData::new(true, 0, 0, "m1".to_string(), None, 0),
        SlideData::new(false, 0, 0, "m2".to_string(), None, 0),
        SlideData::new(true, 0, 0, "a".to_string(), None, 1),
        SlideData::new(true, 0, 0, "u".to_string(), None, 2),
    ];
    let bc = BeamerContents::from_slides("p".to_string(), slides);
    assert_eq!(bc.pages_from_frames(&vec![10, 20, 30]), vec![Some(10), None, Some(20), None]);
    assert_eq!(bc.pages_from_frames(&vec![10]), vec![Some(10), None, None, None]);
    assert_eq!(bc.pages_from_frames(&vec![]), vec![None, None, None, None]);
}

#[test]
fn set_image_changes_one_frame() {
    let mut bc = BeamerContents::parse(DOC).unwrap();
    bc.set_image(1, "/tmp/b.svg".to_string());
    assert_eq!(bc.appendix()[0].image, "/tmp/b.svg");
    assert_eq!(bc.slides()[0].image, "resources/icons/slide.svg");
    assert_eq!(bc.unused()[0].image, "resources/icons/slide.svg");
    assert_eq!(bc.appendix()[0].content, "\\begin{frame}{B}\n\\end{frame}");
    bc.set_image(0, "/tmp/a.svg".to_string());
    bc.set_image(2, "/tmp/c.svg".to_string());
    assert_eq!(bc.slides()[0].image, "/tmp/a.svg");
    assert_eq!(bc.unused()[0].image, "/tmp/c.svg");
}
