use wallrustler::catalog::{filter_image_names, has_image_extension, is_img_file, names_distinct};
use wallrustler::strutil::{parse_u64, str_eq, str_has_prefix, str_has_suffix};

fn strings(parts: &[&str]) -> Vec<String> {
    parts.iter().map(|s| String::from(*s)).collect()
}

#[test]
fn allow_list_is_exact_and_case_sensitive() {
    for ext in ["jpg", "jpeg", "png", "gif", "pnm", "tga", "tiff", "webp", "bmp", "farbfeld"] {
        assert!(is_img_file(ext));
    }
    assert!(!is_img_file("JPG"));
    assert!(!is_img_file("svg"));
    assert!(!is_img_file(""));
    assert!(!is_img_file("jpg "));
}

#[test]
fn extension_is_what_follows_the_last_dot() {
    assert!(has_image_extension("a.png"));
    assert!(has_image_extension("archive.tar.gif"));
    assert!(!has_image_extension("a.png.bak"));
    assert!(!has_image_extension("noext"));
    assert!(!has_image_extension("a."));
}

#[test]
fn leading_dot_alone_is_no_extension() {
    // A hidden file's name has no extension, as the platform sees it.
    assert!(!has_image_extension(".png"));
    assert!(has_image_extension(".hidden.png"));
}

#[test]
fn filter_keeps_images_in_order() {
    let names = strings(&[
        "a.png", "notes.txt", "b.jpg", "noext", ".png", "c.PNG", "d.farbfeld", "e.",
    ]);
    let r = filter_image_names(names);
    assert_eq!(r, strings(&["a.png", "b.jpg", "d.farbfeld"]));
}

#[test]
fn filter_of_empty_listing_is_empty() {
    let r = filter_image_names(Vec::new());
    assert!(r.is_empty());
}

#[test]
fn names_distinct_detects_duplicates() {
    assert!(names_distinct(&strings(&["a.png", "b.png"])));
    assert!(!names_distinct(&strings(&["a.png", "a.png"])));
    assert!(names_distinct(&Vec::new()));
}

#[test]
fn string_helpers_compare_by_characters() {
    assert!(str_eq("abc", "abc"));
    assert!(!str_eq("abc", "abd"));
    assert!(!str_eq("abc", "ab"));
    assert!(str_has_prefix("--interval=5", "--interval="));
    assert!(!str_has_prefix("--inter", "--interval="));
    assert!(str_has_suffix("--program=swww", "swww"));
    assert!(!str_has_suffix("sw", "swww"));
}

#[test]
fn parse_u64_accepts_plain_decimals() {
    assert_eq!(parse_u64("0"), Some(0));
    assert_eq!(parse_u64("42"), Some(42));
    assert_eq!(parse_u64("007"), Some(7));
    assert_eq!(parse_u64("+7"), Some(7));
    assert_eq!(parse_u64("18446744073709551615"), Some(u64::MAX));
}

#[test]
fn parse_u64_rejects_everything_else() {
    assert_eq!(parse_u64(""), None);
    assert_eq!(parse_u64("+"), None);
    assert_eq!(parse_u64("-1"), None);
    assert_eq!(parse_u64("4 2"), None);
    assert_eq!(parse_u64(" 42"), None);
    assert_eq!(parse_u64("42a"), None);
    assert_eq!(parse_u64("18446744073709551616"), None);
}
