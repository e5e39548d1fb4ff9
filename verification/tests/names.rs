use dep_catalog::names::clone_names;
use dep_catalog::names::insert_name;
use dep_catalog::names::merge_names;
use dep_catalog::text::name_equal;
use dep_catalog::text::name_less;

fn strings(names: &[&str]) -> Vec<String> {
    names.iter().map(|s| s.to_string()).collect()
}

#[test]
fn name_less_orders_by_bytes() {
    assert!(name_less("a", "b"));
    assert!(!name_less("b", "a"));
    assert!(!name_less("a", "a"));
    assert!(name_less("", "a"));
    assert!(!name_less("a", ""));
    assert!(!name_less("", ""));
    assert!(name_less("a", "aa"));
    assert!(name_less("Z", "a"));
    assert!(name_less("clone-impls", "default"));
    assert!(name_less("proc-macro", "quote"));
    assert!(name_less("z", "\u{e9}"));
    assert!(name_less("serde", "serde_derive"));
}

#[test]
fn name_less_agrees_with_string_order() {
    let samples = ["", "a", "A", "ab", "abc", "b", "-", "_", "0", "10", "9", "\u{e9}", "\u{10348}", "z"];
    for a in samples {
        for b in samples {
            assert_eq!(name_less(a, b), a < b, "{:?} {:?}", a, b);
            assert_eq!(name_equal(a, b), a == b, "{:?} {:?}", a, b);
        }
    }
}

#[test]
fn insert_name_keeps_the_list_sorted() {
    let mut list: Vec<String> = Vec::new();
    insert_name(&mut list, "std");
    assert_eq!(list, strings(&["std"]));
    insert_name(&mut list, "alloc");
    assert_eq!(list, strings(&["alloc", "std"]));
    insert_name(&mut list, "race");
    assert_eq!(list, strings(&["alloc", "race", "std"]));
    insert_name(&mut list, "unstable");
    assert_eq!(list, strings(&["alloc", "race", "std", "unstable"]));
}

#[test]
fn insert_name_adds_no_repeat() {
    let mut list = strings(&["alloc", "race", "std"]);
    insert_name(&mut list, "race");
    assert_eq!(list, strings(&["alloc", "race", "std"]));
    insert_name(&mut list, "alloc");
    insert_name(&mut list, "std");
    assert_eq!(list, strings(&["alloc", "race", "std"]));
}

#[test]
fn merge_names_is_the_sorted_union() {
    let mut list = strings(&["a", "b"]);
    merge_names(&mut list, &strings(&["b", "c"]));
    assert_eq!(list, strings(&["a", "b", "c"]));
}

#[test]
fn merge_names_takes_any_order_and_repeats() {
    let mut list: Vec<String> = Vec::new();
    merge_names(&mut list, &strings(&["quote", "derive", "quote", "clone-impls", "derive"]));
    assert_eq!(list, strings(&["clone-impls", "derive", "quote"]));
    merge_names(&mut list, &Vec::new());
    assert_eq!(list, strings(&["clone-impls", "derive", "quote"]));
}

#[test]
fn clone_names_copies_the_list() {
    let list = strings(&["x", "a", "x"]);
    assert_eq!(clone_names(&list), list);
    assert_eq!(clone_names(&Vec::new()), Vec::<String>::new());
}

#[test]
fn insert_name_into_an_unsorted_list_adds_the_name() {
    let mut list = strings(&["m", "a", "z"]);
    insert_name(&mut list, "b");
    assert_eq!(list.len(), 4);
    for name in ["m", "a", "z", "b"] {
        assert!(list.iter().any(|held| held == name), "{}", name);
    }
}
