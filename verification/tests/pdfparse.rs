use beamer_quickie::pdfparse::{
    first_label_pages, get_thumbnail, older_than, thumbnail_for_hash, thumbnail_needs_render,
};
use std::hash::{Hash, Hasher};

fn hash_of(path: &str) -> u64 {
    let mut h = std::collections::hash_map::DefaultHasher::new();
    std::path::Path::new(path).hash(&mut h);
    h.finish()
}

#[test]
fn get_thumbnail_names_the_file() {
    let path = "/home/u/talk.pdf";
    let expected = format!("/tmp/cache/{}-3.svg", hash_of(path));
    assert_eq!(get_thumbnail("/tmp/cache", path, 3), expected);
    // No second slash after a directory that ends in one.
    assert_eq!(get_thumbnail("/tmp/cache/", path, 3), expected);
    // No directory: just the file name.
    assert_eq!(get_thumbnail("", path, 12), format!("{}-12.svg", hash_of(path)));
}

#[test]
fn get_thumbnail_matches_path_join() {
    let dir = std::path::PathBuf::from("/var/tmp/beamer-quickie");
    let path = "talk.pdf";
    let expected = dir.join(format!("{}-{}", hash_of(path), 7)).with_extension("svg");
    assert_eq!(get_thumbnail("/var/tmp/beamer-quickie", path, 7), expected.to_string_lossy());
}

#[test]
fn thumbnails_of_pages_differ() {
    let a = get_thumbnail("/c", "x.pdf", 1);
    let b = get_thumbnail("/c", "x.pdf", 11);
    let c = get_thumbnail("/c", "y.pdf", 1);
    assert_ne!(a, b);
    assert_eq!(a, get_thumbnail("/c", "x.pdf", 1));
    assert_ne!(hash_of("x.pdf"), hash_of("y.pdf"));
    assert_ne!(a, c);
}

#[test]
fn older_than_is_never_true() {
    assert!(!older_than("/tmp/a.svg", "/tmp/a.pdf"));
}

#[test]
fn thumbnail_needs_render_when_missing() {
    assert!(thumbnail_needs_render(false, "/tmp/a.svg", "/tmp/a.pdf"));
    assert!(!thumbnail_needs_render(true, "/tmp/a.svg", "/tmp/a.pdf"));
}

#[test]
fn first_label_pages_keeps_first_of_each_label() {
    let labels = vec![
        Some("1".to_string()),
        Some("1".to_string()),
        Some("2".to_string()),
        None,
        Some("3".to_string()),
    ];
    assert_eq!(first_label_pages(&labels), vec![0, 2, 3]);
}

#[test]
fn first_label_pages_without_labels_is_every_page() {
    let labels: Vec<Option<String>> = vec![None, None, None];
    assert_eq!(first_label_pages(&labels), vec![0, 1, 2]);
    assert_eq!(first_label_pages(&vec![]), Vec::<usize>::new());
}

#[test]
fn first_label_pages_are_increasing_and_cover_all_labels() {
    let labels: Vec<Option<String>> =
        ["a", "a", "b", "a", "c", "b", "c", "d"].iter().map(|s| Some(s.to_string())).collect();
    let pages = first_label_pages(&labels);
    assert_eq!(pages, vec![0, 2, 4, 7]);
    for w in pages.windows(2) {
        assert!(w[0] < w[1]);
    }
    for (i, l) in labels.iter().enumerate() {
        assert!(pages.iter().any(|&p| p <= i && labels[p] == *l));
    }
}

#[test]
fn thumbnail_for_hash_formats_the_name() {
    assert_eq!(thumbnail_for_hash("/c", 123, 4), "/c/123-4.svg");
    assert_eq!(thumbnail_for_hash("/c/", 0, 0), "/c/0-0.svg");
    assert_eq!(thumbnail_for_hash("", 7, 10), "7-10.svg");
    assert_eq!(
        thumbnail_for_hash("d", u64::MAX, 99),
        format!("d/{}-99.svg", u64::MAX)
    );
}
