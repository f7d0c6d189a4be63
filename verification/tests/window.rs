use beamer_quickie::slide::SlideData;
use beamer_quickie::window::{frametitle_ranges, get_contents, get_slidedatas};

fn chars(s: &str) -> Vec<char> {
    s.chars().collect()
}

#[test]
fn get_slidedatas_keeps_ticked_items() {
    let items = vec![
        (true, "a".to_string(), 0u8),
        (false, "b".to_string(), 0u8),
        (true, "c".to_string(), 1u8),
    ];
    let slides = get_slidedatas(items);
    assert_eq!(slides.len(), 2);
    assert_eq!(slides[0].content, "a");
    assert_eq!(slides[0].slidetype, 0);
    assert!(slides[0].included);
    assert_eq!(slides[0].linestart, 0);
    assert_eq!(slides[1].content, "c");
    assert_eq!(slides[1].slidetype, 1);
}

#[test]
fn get_contents_slides_only() {
    let slides = vec![
        SlideData::new(true, 0, 0, "one".to_string(), None, 0),
        SlideData::new(true, 0, 0, "two".to_string(), None, 7),
    ];
    assert_eq!(get_contents("pre".to_string(), true, slides), "one\n\ntwo");
    assert_eq!(get_contents("pre".to_string(), true, vec![]), "");
}

#[test]
fn get_contents_whole_document() {
    let slides = vec![
        SlideData::new(true, 0, 0, "a".to_string(), None, 1),
        SlideData::new(true, 0, 0, "m".to_string(), None, 0),
    ];
    assert_eq!(
        get_contents("pre".to_string(), false, slides),
        "pre\n\nm\n\n\\appendix\n\na\n\n\\end{document}\n\n"
    );
}

#[test]
fn frametitle_is_marked() {
    let s = chars("\\frametitle{Hi}\n");
    assert_eq!(frametitle_ranges(&s), vec![(11, 15)]);
}

#[test]
fn frame_title_after_options_is_marked() {
    let s = chars("\\begin{frame}[t]{T}%c\n");
    assert_eq!(frametitle_ranges(&s), vec![(16, 19)]);
}

#[test]
fn frame_without_title_is_not_marked() {
    assert!(frametitle_ranges(&chars("\\begin{frame}\nx\n\\end{frame}\n")).is_empty());
    assert!(frametitle_ranges(&chars("")).is_empty());
    assert!(frametitle_ranges(&chars("% \\frametitle")).len() <= 1);
    assert!(frametitle_ranges(&chars("\\section{A}\n")).is_empty());
}

#[test]
fn marked_ranges_lie_within_the_text() {
    let text = "\\begin{frame}{One}\n\\frametitle[x]{Two} % c\n\\frametitle";
    let s = chars(text);
    let ranges = frametitle_ranges(&s);
    assert_eq!(ranges.len(), 3);
    for (a, b) in &ranges {
        assert!(a <= b && *b <= s.len());
    }
    let firsts: Vec<String> = ranges.iter().map(|(a, b)| s[*a..*b].iter().collect()).collect();
    assert_eq!(firsts[0], "{One}");
    assert_eq!(firsts[1], "{Two} ");
}
