use devourer_core::failure::Failure;
use devourer_core::path::RelativePath;

fn parts(name: &str) -> Vec<String> {
    RelativePath::resolve(name).unwrap().components().clone()
}

#[test]
fn resolve_splits_on_forward_slashes() {
    assert_eq!(parts("page/a.jpg"), vec!["page".to_string(), "a.jpg".to_string()]);
}

#[test]
fn resolve_drops_empty_and_dot_components() {
    assert_eq!(parts("./a//b/./c/"), vec!["a".to_string(), "b".to_string(), "c".to_string()]);
}

#[test]
fn resolve_reads_an_absolute_name_as_relative() {
    assert_eq!(parts("/etc/passwd"), vec!["etc".to_string(), "passwd".to_string()]);
}

#[test]
fn resolve_steps_back_inside_the_root() {
    assert_eq!(parts("a/b/../c"), vec!["a".to_string(), "c".to_string()]);
    assert_eq!(parts("a/.."), Vec::<String>::new());
}

#[test]
fn resolve_refuses_a_name_that_leaves_the_root() {
    assert_eq!(
        RelativePath::resolve("../x"),
        Err(Failure::InvalidInput { detail: "entry name leaves the destination: ../x".to_string() })
    );
    assert!(matches!(RelativePath::resolve("a/../../x"), Err(Failure::InvalidInput { .. })));
    assert!(matches!(RelativePath::resolve(".."), Err(Failure::InvalidInput { .. })));
}

#[test]
fn resolve_refuses_even_if_the_name_comes_back() {
    assert!(matches!(RelativePath::resolve("../a/b"), Err(Failure::InvalidInput { .. })));
}

#[test]
fn resolve_treats_backslash_as_a_separator() {
    assert_eq!(parts("a\\b.txt"), vec!["a".to_string(), "b.txt".to_string()]);
    assert!(matches!(RelativePath::resolve("..\\..\\x"), Err(Failure::InvalidInput { .. })));
}

#[test]
fn resolve_of_the_empty_name_is_the_root() {
    assert!(RelativePath::resolve("").unwrap().is_root());
    assert!(RelativePath::resolve("/").unwrap().is_root());
    assert!(RelativePath::root().is_root());
}

#[test]
fn resolve_keeps_names_with_dots_in_them() {
    assert_eq!(parts("..."), vec!["...".to_string()]);
    assert_eq!(parts(".hidden/..x"), vec![".hidden".to_string(), "..x".to_string()]);
}

#[test]
fn resolve_keeps_non_ascii_components() {
    assert_eq!(parts("漫画/第1巻.png"), vec!["漫画".to_string(), "第1巻.png".to_string()]);
}

#[test]
fn to_text_joins_with_forward_slashes() {
    assert_eq!(RelativePath::resolve("a\\b/./c").unwrap().to_text(), "a/b/c");
    assert_eq!(RelativePath::resolve("only").unwrap().to_text(), "only");
    assert_eq!(RelativePath::root().to_text(), "");
}

#[test]
fn parent_goes_one_level_up() {
    let p = RelativePath::resolve("a/b/c.txt").unwrap();
    assert_eq!(p.parent().to_text(), "a/b");
    assert_eq!(p.parent().parent().parent().to_text(), "");
    assert!(RelativePath::root().parent().is_root());
}

#[test]
fn resolving_the_text_of_a_path_gives_the_path_back() {
    let p = RelativePath::resolve("x/../a/b//c").unwrap();
    let again = RelativePath::resolve(&p.to_text()).unwrap();
    assert_eq!(p, again);
}
