use dupe_review::{parse_dups, DupGroups, ImgInfo, LineError};

fn summary(d: &DupGroups) -> Vec<Vec<(String, u32, u32)>> {
    d.groups
        .iter()
        .map(|g| g.iter().map(|i| (i.path.clone(), i.width, i.height)).collect())
        .collect()
}

fn img(p: &str, w: u32, h: u32) -> (String, u32, u32) {
    (p.to_string(), w, h)
}

#[test]
fn two_groups_with_continuation() {
    let d = parse_dups("img(100x200): a/1.jpg\n\timg(100x200): a/2.jpg\nimg(50x50): b/1.jpg\n").unwrap();
    assert_eq!(
        summary(&d),
        vec![
            vec![img("a/1.jpg", 100, 200), img("a/2.jpg", 100, 200)],
            vec![img("b/1.jpg", 50, 50)],
        ]
    );
}

#[test]
fn garbage_line_is_refused_with_its_text() {
    let e = parse_dups("img(1x1): a.jpg\ngarbage line\nimg(2x2): b.jpg\n").err().unwrap();
    assert_eq!(e.kind, LineError::Malformed);
    assert_eq!(e.line, "garbage line");
    assert_eq!(e.message(), "Line does not match expected format: garbage line");
}

#[test]
fn first_bad_line_is_reported() {
    let e = parse_dups("bad one\nbad two\n").err().unwrap();
    assert_eq!(e.line, "bad one");
}

#[test]
fn groups_sorted_by_first_path() {
    let d = parse_dups("img(1x1): c/1.jpg\n\timg(1x1): a/9.jpg\nimg(2x2): b/1.jpg\nimg(3x3): a/1.jpg\n").unwrap();
    assert_eq!(
        summary(&d),
        vec![
            vec![img("a/1.jpg", 3, 3)],
            vec![img("b/1.jpg", 2, 2)],
            vec![img("c/1.jpg", 1, 1), img("a/9.jpg", 1, 1)],
        ]
    );
}

#[test]
fn sort_is_case_sensitive_and_stable() {
    let d = parse_dups("img(1x1): b.jpg\nimg(2x2): B.jpg\nimg(3x3): b.jpg\n\timg(4x4): z.jpg\n").unwrap();
    assert_eq!(
        summary(&d),
        vec![
            vec![img("B.jpg", 2, 2)],
            vec![img("b.jpg", 1, 1)],
            vec![img("b.jpg", 3, 3), img("z.jpg", 4, 4)],
        ]
    );
}

#[test]
fn parsing_twice_gives_the_same_groups() {
    let text = "img(1x1): z\nimg(1x1): y\n\timg(5x6): x\nimg(1x1): a b c\n";
    let a = parse_dups(text).unwrap();
    let b = parse_dups(text).unwrap();
    assert_eq!(summary(&a), summary(&b));
    assert_eq!(summary(&a)[0][0].0, "a b c");
}

#[test]
fn empty_report_has_no_groups() {
    let d = parse_dups("").unwrap();
    assert_eq!(d.num_groups(), 0);
}

#[test]
fn last_line_without_newline() {
    let d = parse_dups("img(7x8): only.png").unwrap();
    assert_eq!(summary(&d), vec![vec![img("only.png", 7, 8)]]);
}

#[test]
fn crlf_endings_are_stripped() {
    let d = parse_dups("img(1x2): a.jpg\r\n\timg(1x2): b.jpg\r\n").unwrap();
    assert_eq!(summary(&d), vec![vec![img("a.jpg", 1, 2), img("b.jpg", 1, 2)]]);
}

#[test]
fn first_line_may_be_a_continuation() {
    let d = parse_dups("\timg(1x1): a.jpg\n\timg(1x1): b.jpg\n").unwrap();
    assert_eq!(summary(&d), vec![vec![img("a.jpg", 1, 1), img("b.jpg", 1, 1)]]);
}

#[test]
fn empty_line_is_refused() {
    let e = parse_dups("img(1x1): a.jpg\n\nimg(1x1): b.jpg\n").err().unwrap();
    assert_eq!(e.kind, LineError::Malformed);
    assert_eq!(e.line, "");
}

#[test]
fn leading_spaces_and_unicode_tag() {
    let d = parse_dups("  bild_ä(3x4): x/ü.jpg\n").unwrap();
    assert_eq!(summary(&d), vec![vec![img("x/ü.jpg", 3, 4)]]);
}

#[test]
fn path_keeps_trailing_text() {
    let d = parse_dups("img(1x1): a (copy).jpg \n").unwrap();
    assert_eq!(summary(&d)[0][0].0, "a (copy).jpg ");
}

#[test]
fn missing_path_is_refused() {
    let e = parse_dups("img(1x1): \n").err().unwrap();
    assert_eq!(e.kind, LineError::Malformed);
    assert_eq!(e.line, "img(1x1): ");
}

#[test]
fn missing_pieces_are_refused() {
    for line in ["(1x1): a", "img(x1): a", "img(1x): a", "img(1y1): a", "img(1x1) a", "img(1x1):a", "img 1x1: a"] {
        let e = parse_dups(line).err().unwrap();
        assert_eq!(e.kind, LineError::Malformed);
        assert_eq!(e.line, line);
    }
}

#[test]
fn largest_width_is_accepted() {
    let d = parse_dups("img(4294967295x0): a").unwrap();
    assert_eq!(summary(&d), vec![vec![img("a", 4294967295, 0)]]);
}

#[test]
fn overflowing_size_is_refused() {
    let e = parse_dups("img(4294967296x1): a\n").err().unwrap();
    assert_eq!(e.kind, LineError::NumberTooLarge);
    assert_eq!(e.line, "img(4294967296x1): a");
    assert_eq!(e.message(), "Width or height out of range on line: img(4294967296x1): a");
    let e = parse_dups("img(1x99999999999999999999): a\n").err().unwrap();
    assert_eq!(e.kind, LineError::NumberTooLarge);
}

#[test]
fn store_builds_and_looks_up() {
    let mut d = DupGroups::new(4);
    assert_eq!(d.num_groups(), 0);
    assert!(d.get_group(0).is_none());
    assert!(d.get_image(0, 0).is_none());
    d.push_group(vec![ImgInfo { path: "p.jpg".to_string(), width: 1, height: 2 }]);
    assert_eq!(d.num_groups(), 1);
    assert_eq!(d.get_group(0).unwrap().len(), 1);
    assert_eq!(d.get_image(0, 0).unwrap().path, "p.jpg");
    assert_eq!(d.get_image(0, 0).unwrap().duplicate().height, 2);
    assert!(d.get_image(0, 1).is_none());
    assert!(d.get_image(1, 0).is_none());
    assert!(d.get_group(1).is_none());
    assert!(d.get_group(usize::MAX).is_none());
    assert!(d.get_image(usize::MAX, usize::MAX).is_none());
}
