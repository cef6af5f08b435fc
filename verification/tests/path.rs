use niv::path::{has_extension, has_extension_of, path_le};

#[test]
fn path_le_orders_by_bytes() {
    assert!(path_le("a", "b"));
    assert!(!path_le("b", "a"));
    assert!(path_le("a", "a"));
    assert!(path_le("", ""));
    assert!(path_le("", "a"));
    assert!(!path_le("a", ""));
}

#[test]
fn path_le_puts_a_prefix_first() {
    assert!(path_le("img", "img1"));
    assert!(!path_le("img1", "img"));
    assert!(path_le("dir/a", "dir/a.png"));
}

#[test]
fn path_le_compares_digits_as_text() {
    assert!(path_le("img10.png", "img2.png"));
    assert!(!path_le("img2.png", "img10.png"));
}

#[test]
fn path_le_puts_upper_case_before_lower_case() {
    assert!(path_le("B", "a"));
    assert!(!path_le("a", "B"));
}

#[test]
fn path_le_agrees_with_the_order_of_str() {
    let names = ["", "a", "ab", "b", "B", "é", "z", "日本", "a/b", "a.b", "a b", "ÿ", "\u{10348}"];
    for x in names.iter() {
        for y in names.iter() {
            assert_eq!(path_le(x, y), x <= y, "{:?} {:?}", x, y);
        }
    }
}

#[test]
fn extension_is_what_follows_the_last_dot() {
    assert!(has_extension("a.png", "png"));
    assert!(has_extension("dir/a.png", "png"));
    assert!(has_extension("a.tar.gz", "gz"));
    assert!(!has_extension("a.tar.gz", "tar"));
    assert!(!has_extension("a.tar.gz", "tar.gz"));
    assert!(!has_extension("a.png", "jpg"));
    assert!(!has_extension("a.png", "pn"));
    assert!(!has_extension("a.png", "png1"));
    assert!(!has_extension("a.png", ".png"));
}

#[test]
fn extension_is_compared_byte_for_byte() {
    assert!(!has_extension("a.PNG", "png"));
    assert!(has_extension("a.PNG", "PNG"));
    assert!(has_extension("写真.jpég", "jpég"));
    assert!(!has_extension("写真.jpég", "jpeg"));
}

#[test]
fn a_name_without_a_dot_has_no_extension() {
    assert!(!has_extension("png", "png"));
    assert!(!has_extension("dir/png", "png"));
    assert!(!has_extension("", ""));
    assert!(!has_extension("a", ""));
}

#[test]
fn a_dot_in_a_directory_does_not_count() {
    assert!(!has_extension("dir.png/a", "png"));
    assert!(!has_extension("dir.png\\a", "png"));
    assert!(!has_extension("dir.d/a", "d/a"));
    assert!(has_extension("dir.d/a.png", "png"));
    assert!(has_extension("C:\\dir.d\\a.png", "png"));
}

#[test]
fn a_leading_dot_starts_no_extension() {
    assert!(!has_extension(".png", "png"));
    assert!(!has_extension("dir/.png", "png"));
    assert!(!has_extension("dir\\.png", "png"));
    assert!(has_extension(".hidden.png", "png"));
    assert!(has_extension("dir/.hidden.png", "png"));
}

#[test]
fn a_trailing_dot_gives_the_empty_extension() {
    assert!(has_extension("a.", ""));
    assert!(has_extension("dir/a.", ""));
    assert!(has_extension("...", ""));
    assert!(!has_extension("a.", "a"));
}

#[test]
fn the_parent_directory_has_no_extension() {
    assert!(!has_extension("..", ""));
    assert!(!has_extension("dir/..", ""));
    assert!(!has_extension("dir\\..", ""));
    assert!(!has_extension(".", ""));
}

#[test]
fn extension_agrees_with_std_on_file_names() {
    let names = [
        "a.png", "a", ".a", "a.", "..", "...", "a.b.c", ".a.b", "a..b", "..a", "a b.png", "é.é",
        "", ".", "a.PNG",
    ];
    let wanted = ["png", "", "a", "b", "c", "PNG", "é", ".b", "b.c"];
    for name in names.iter() {
        let std_ext = std::path::Path::new(name).extension().map(|e| e.to_str().unwrap().to_string());
        for w in wanted.iter() {
            assert_eq!(
                has_extension(name, w),
                std_ext.as_deref() == Some(*w),
                "{:?} {:?}",
                name,
                w
            );
        }
    }
}

#[test]
fn has_extension_of_looks_through_the_list() {
    let exts = vec!["png".to_string(), "jpg".to_string(), "jpeg".to_string()];
    assert!(has_extension_of("a.png", &exts));
    assert!(has_extension_of("a.jpg", &exts));
    assert!(has_extension_of("a.jpeg", &exts));
    assert!(!has_extension_of("a.gif", &exts));
    assert!(!has_extension_of("a", &exts));
    assert!(!has_extension_of("a.png", &Vec::new()));
}
