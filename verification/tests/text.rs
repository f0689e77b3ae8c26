use devourer_core::text::{
    chars_of, clone_names, has_suffix_ignoring_case, name_precedes, sort_names, to_ascii_lower,
};

fn strings(items: &[&str]) -> Vec<String> {
    items.iter().map(|s| s.to_string()).collect()
}

#[test]
fn chars_of_gives_the_characters_in_order() {
    assert_eq!(chars_of("a/é.png"), vec!['a', '/', 'é', '.', 'p', 'n', 'g']);
    assert_eq!(chars_of(""), Vec::<char>::new());
}

#[test]
fn lowering_touches_ascii_capitals_only() {
    assert_eq!(to_ascii_lower('A'), 'a');
    assert_eq!(to_ascii_lower('Z'), 'z');
    assert_eq!(to_ascii_lower('q'), 'q');
    assert_eq!(to_ascii_lower('@'), '@');
    assert_eq!(to_ascii_lower('['), '[');
    assert_eq!(to_ascii_lower('É'), 'É');
    assert_eq!(to_ascii_lower('.'), '.');
}

#[test]
fn suffix_is_matched_in_any_case() {
    let tail = chars_of(".png");
    assert!(has_suffix_ignoring_case(&chars_of("a.png"), &tail));
    assert!(has_suffix_ignoring_case(&chars_of("a.PNG"), &tail));
    assert!(has_suffix_ignoring_case(&chars_of("a.PnG"), &tail));
    assert!(has_suffix_ignoring_case(&chars_of(".png"), &tail));
    assert!(!has_suffix_ignoring_case(&chars_of("png"), &tail));
    assert!(!has_suffix_ignoring_case(&chars_of("a.png "), &tail));
    assert!(!has_suffix_ignoring_case(&chars_of("a_png"), &tail));
    assert!(has_suffix_ignoring_case(&chars_of("anything"), &chars_of("")));
}

#[test]
fn names_are_ordered_by_their_bytes() {
    assert!(name_precedes("page/a.jpg", "page/b.png"));
    assert!(!name_precedes("page/b.png", "page/a.jpg"));
    assert!(name_precedes("a", "a"));
    assert!(name_precedes("", "a"));
    assert!(!name_precedes("a", ""));
    assert!(name_precedes("a", "ab"));
    assert!(!name_precedes("ab", "a"));
    assert!(name_precedes("B", "a"));
    assert!(name_precedes("10", "9"));
    assert!(name_precedes("z", "é"));
    assert!(name_precedes("é", "漫"));
}

#[test]
fn name_order_agrees_with_the_order_of_strings() {
    let samples = ["", "a", "A", "ab", "b", "a/b", "a.b", "é", "z", "漫画", "10", "9", "a b"];
    for x in samples {
        for y in samples {
            assert_eq!(name_precedes(x, y), x <= y, "{x:?} {y:?}");
        }
    }
}

#[test]
fn sort_names_sorts() {
    let sorted = sort_names(strings(&["b/2", "a", "b/10", "", "c", "B"]));
    assert_eq!(sorted, strings(&["", "B", "a", "b/10", "b/2", "c"]));
}

#[test]
fn sort_names_keeps_every_name_as_often_as_it_came() {
    let sorted = sort_names(strings(&["x", "a", "x", "a", "x"]));
    assert_eq!(sorted, strings(&["a", "a", "x", "x", "x"]));
}

#[test]
fn sort_names_of_few_names() {
    assert_eq!(sort_names(Vec::new()), Vec::<String>::new());
    assert_eq!(sort_names(strings(&["one"])), strings(&["one"]));
    assert_eq!(sort_names(strings(&["b", "a"])), strings(&["a", "b"]));
}

#[test]
fn sort_names_agrees_with_the_standard_sort() {
    let mut names: Vec<String> = Vec::new();
    let mut seed: u32 = 12345;
    for _ in 0..500 {
        seed = seed.wrapping_mul(1103515245).wrapping_add(12345);
        let len = (seed >> 16) % 6;
        let mut s = String::new();
        for k in 0..len {
            seed = seed.wrapping_mul(1103515245).wrapping_add(12345);
            let c = ['a', 'b', '/', '.', 'Z', 'é'][((seed >> 16) % 6) as usize];
            s.push(c);
            let _ = k;
        }
        names.push(s);
    }
    let mut expected = names.clone();
    expected.sort();
    assert_eq!(sort_names(names), expected);
}

#[test]
fn clone_names_copies() {
    let names = strings(&["a", "b/c"]);
    assert_eq!(clone_names(&names), names);
}
