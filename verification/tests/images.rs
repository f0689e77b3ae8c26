use devourer_core::failure::Failure;
use devourer_core::image::{cover_file_name, extension, is_image, select_cover};

fn strings(items: &[&str]) -> Vec<String> {
    items.iter().map(|s| s.to_string()).collect()
}

#[test]
fn the_five_image_types_are_recognised() {
    for name in ["a.jpg", "a.jpeg", "a.png", "a.webp", "a.bmp"] {
        assert!(is_image(name), "{name}");
    }
}

#[test]
fn image_types_are_recognised_in_any_case() {
    for name in ["a.JPG", "a.Jpeg", "dir/B.PNG", "x.WebP", "x.bMp"] {
        assert!(is_image(name), "{name}");
    }
}

#[test]
fn other_names_are_no_images() {
    for name in ["cover.txt", "a.gif", "a.jpg.txt", "jpg", "a.jp", "", "a.png/", "a.tiff", "apng"] {
        assert!(!is_image(name), "{name}");
    }
}

#[test]
fn a_name_that_is_only_a_suffix_is_an_image() {
    assert!(is_image(".jpg"));
    assert!(is_image("dir/.png"));
}

#[test]
fn select_cover_counts_and_takes_the_smallest_name() {
    let names = strings(&["page/b.png", "page/a.jpg", "cover.txt"]);
    assert_eq!(select_cover(&names), (2, Some(1)));
}

#[test]
fn select_cover_does_not_take_the_first_met() {
    let names = strings(&["z.png", "m.png", "a.txt", "b.PNG", "c.png"]);
    assert_eq!(select_cover(&names), (4, Some(3)));
}

#[test]
fn select_cover_orders_capitals_before_small_letters() {
    let names = strings(&["a.png", "B.png"]);
    assert_eq!(select_cover(&names), (2, Some(1)));
}

#[test]
fn select_cover_without_images() {
    assert_eq!(select_cover(&strings(&["a.txt", "dir/"])), (0, None));
    assert_eq!(select_cover(&Vec::new()), (0, None));
}

#[test]
fn extension_is_what_follows_the_last_dot() {
    assert_eq!(extension("page/a.jpg").unwrap(), "jpg");
    assert_eq!(extension("a.tar.GZ").unwrap(), "GZ");
    assert_eq!(extension("dir.d/a.b").unwrap(), "b");
    assert_eq!(extension("a.").unwrap(), "");
    assert_eq!(extension("..jpg").unwrap(), "jpg");
}

#[test]
fn extension_keeps_the_case_of_the_name() {
    assert_eq!(extension("Page/A.JPG").unwrap(), "JPG");
}

#[test]
fn a_name_without_extension_is_invalid() {
    for name in ["", "a", "dir.d/a", ".jpg", "dir/.jpg", "dir\\.jpg", "a.b/", "a.b/c"] {
        match extension(name) {
            Err(Failure::InvalidInput { detail }) => {
                assert_eq!(detail, format!("Invalid file extension: {name}"))
            }
            other => panic!("{name}: {other:?}"),
        }
    }
}

#[test]
fn cover_file_name_joins_with_a_dot() {
    assert_eq!(cover_file_name("Vol 1", "jpg"), "Vol 1.jpg");
    assert_eq!(cover_file_name("", "png"), ".png");
    assert_eq!(cover_file_name("a.b", ""), "a.b.");
}
