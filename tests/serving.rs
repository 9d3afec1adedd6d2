use dupe_review::etag::precondition_holds;
use dupe_review::request::content_type_for;
use dupe_review::etag::{etag_for, fingerprint_source};
use dupe_review::{parse_dups, plan_group, plan_image, plan_trash, AddressError, GroupPage, ImageStep};

fn store() -> dupe_review::DupGroups {
    parse_dups("img(100x200): a/1.jpg\n\timg(100x200): a/2.png\nimg(50x50): b/1.weird\n").unwrap()
}

fn expected_tag(base: &str, g: usize, i: usize, path: &str) -> String {
    format!("\"{}\"", sha256::digest(format!("{}:{}:{}:{}", base, g, i, path)))
}

#[test]
fn fingerprint_text_is_exact() {
    assert_eq!(fingerprint_source("/photos", 3, 12, "a/b.jpg"), "/photos:3:12:a/b.jpg");
    assert_eq!(fingerprint_source("", 0, 0, ""), ":0:0:");
    assert_eq!(
        fingerprint_source("/b", usize::MAX, 10, "p"),
        format!("/b:{}:10:p", usize::MAX)
    );
}

#[test]
fn etag_is_quoted_digest() {
    let t = etag_for("/photos", 0, 1, "a/2.png");
    assert_eq!(t, expected_tag("/photos", 0, 1, "a/2.png"));
    assert_eq!(t.len(), 66);
    assert_ne!(t, etag_for("/photos", 1, 0, "a/2.png"));
    assert_eq!(
        etag_for("", 0, 0, ""),
        format!("\"{}\"", sha256::digest(":0:0:"))
    );
}

#[test]
fn content_type_from_extension() {
    assert_eq!(content_type_for("a/1.jpg"), "image/jpeg");
    assert_eq!(content_type_for("a/2.png"), "image/png");
    assert_eq!(content_type_for("b/1.weird"), "application/octet-stream");
    assert_eq!(content_type_for("noext"), "application/octet-stream");
}

#[test]
fn precondition_forms() {
    assert!(precondition_holds("\"abc\"", "\"abc\""));
    assert!(precondition_holds("W/\"abc\"", "\"abc\""));
    assert!(precondition_holds("*", "\"abc\""));
    assert!(!precondition_holds("\"abd\"", "\"abc\""));
    assert!(!precondition_holds("", "\"abc\""));
}

#[test]
fn precondition_lists() {
    assert!(precondition_holds("\"x\", \"abc\"", "\"abc\""));
    assert!(precondition_holds("  \"abc\"\t", "\"abc\""));
    assert!(precondition_holds("W/\"abc\" , \"x\"", "\"abc\""));
    assert!(precondition_holds("\"x\",W/\"abc\"", "\"abc\""));
    assert!(!precondition_holds("\"x\",\"y\"", "\"abc\""));
    assert!(!precondition_holds("\"x,\"abc\"", "\"abc\""));
    assert!(!precondition_holds("*, \"x\"", "\"abc\""));
    assert!(!precondition_holds("w/\"abc\"", "\"abc\""));
}

#[test]
fn fetch_with_current_tag_is_not_modified() {
    let s = store();
    let tag = expected_tag("/base", 0, 0, "a/1.jpg");
    match plan_image(&s, "/base", 0, 0, Some(tag.as_str())) {
        ImageStep::NotModified { etag, content_type } => {
            assert_eq!(etag, tag);
            assert_eq!(content_type, "image/jpeg");
        }
        _ => panic!("expected not modified"),
    }
}

#[test]
fn fetch_with_other_tag_sends_file() {
    let s = store();
    let tag = expected_tag("/base", 0, 1, "a/2.png");
    for h in [Some("\"stale\""), None] {
        match plan_image(&s, "/base", 0, 1, h) {
            ImageStep::Send { path, etag, content_type } => {
                assert_eq!(path, "a/2.png");
                assert_eq!(etag, tag);
                assert_eq!(content_type, "image/png");
            }
            _ => panic!("expected a transfer"),
        }
    }
}

#[test]
fn fetch_out_of_range_is_not_found() {
    let s = store();
    assert!(matches!(plan_image(&s, "/b", 2, 0, None), ImageStep::NotFound(AddressError::InvalidGroup)));
    assert!(matches!(plan_image(&s, "/b", 1, 1, None), ImageStep::NotFound(AddressError::InvalidImage)));
    assert_eq!(AddressError::InvalidGroup.message(), "Invalid group index");
    assert_eq!(AddressError::InvalidImage.message(), "Invalid image index");
}

#[test]
fn resolve_distinguishes_coordinates() {
    let s = store();
    assert_eq!(s.resolve(0, 1).unwrap().path, "a/2.png");
    assert_eq!(s.resolve(5, 0).err(), Some(AddressError::InvalidGroup));
    assert_eq!(s.resolve(0, 2).err(), Some(AddressError::InvalidImage));
    let empty = parse_dups("").unwrap();
    assert_eq!(empty.resolve(0, 0).err(), Some(AddressError::InvalidGroup));
}

#[test]
fn trash_plan_gives_relative_path() {
    let s = store();
    assert_eq!(plan_trash(&s, 1, 0), Ok("b/1.weird".to_string()));
    assert_eq!(plan_trash(&s, 0, 1), Ok("a/2.png".to_string()));
    assert_eq!(plan_trash(&s, 0, 1), Ok("a/2.png".to_string()));
}

#[test]
fn trash_out_of_range_moves_nothing() {
    let s = store();
    assert_eq!(plan_trash(&s, 2, 0), Err(AddressError::InvalidGroup));
    assert_eq!(plan_trash(&s, 0, 2), Err(AddressError::InvalidImage));
    let empty = parse_dups("").unwrap();
    assert_eq!(plan_trash(&empty, 0, 0), Err(AddressError::InvalidGroup));
}

#[test]
fn group_pages() {
    let s = store();
    assert_eq!(plan_group(&s, 0), GroupPage::Show { group_idx: 0, has_next: true });
    assert_eq!(plan_group(&s, 1), GroupPage::Show { group_idx: 1, has_next: false });
    assert_eq!(plan_group(&s, 2), GroupPage::ToFirst);
    let empty = parse_dups("").unwrap();
    assert_eq!(plan_group(&empty, 0), GroupPage::NoGroups);
}
