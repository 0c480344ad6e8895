use color_chain::chain::ColorSet;
use color_chain::color::Color;

fn color(hex: &str) -> Color {
    Color::from_webcolor(hex).unwrap()
}

#[test]
fn empty_set_gives_empty_chain() {
    let set = ColorSet::new();
    let chain = set.nearest_chain();
    assert_eq!(chain.len(), 0);
}

#[test]
fn single_entry_chain_is_the_entry() {
    let mut set = ColorSet::new();
    assert!(set.insert("Ada".to_string(), color("#123456")));
    let chain = set.nearest_chain();
    assert_eq!(chain.len(), 1);
    assert_eq!(chain[0].name, "Ada".to_string());
    assert_eq!(chain[0].color, color("#123456"));
}

#[test]
fn insert_requires_ascending_names() {
    let mut set = ColorSet::new();
    assert!(set.insert("B".to_string(), color("#000000")));
    assert!(!set.insert("A".to_string(), color("#111111")));
    assert!(!set.insert("B".to_string(), color("#111111")));
    assert!(set.insert("C".to_string(), color("#111111")));
    assert_eq!(set.len(), 2);
}

#[test]
fn greedy_chain_follows_nearest_neighbor() {
    let mut set = ColorSet::new();
    assert!(set.insert("A".to_string(), color("#000000")));
    assert!(set.insert("B".to_string(), color("#010101")));
    assert!(set.insert("C".to_string(), color("#FFFFFF")));
    let chain = set.nearest_chain();
    let names: Vec<&str> = chain.iter().map(|e| e.name.as_str()).collect();
    assert_eq!(names, vec!["A", "B", "C"]);
    assert_eq!(chain[0].color, color("#000000"));
    assert_eq!(chain[1].color, color("#010101"));
    assert_eq!(chain[2].color, color("#FFFFFF"));
}

#[test]
fn first_entry_anchors_the_chain() {
    let mut set = ColorSet::new();
    assert!(set.insert("Aardvark".to_string(), color("#FFFFFF")));
    assert!(set.insert("Marmot".to_string(), color("#000000")));
    assert!(set.insert("Zebra".to_string(), color("#FEFEFE")));
    let chain = set.nearest_chain();
    assert_eq!(chain[0].name, "Aardvark".to_string());
}

#[test]
fn equidistant_tie_goes_to_earlier_name() {
    // "b" and "c" are both at squared distance 1 from "a"; the earlier
    // name must win the tie.
    let mut set = ColorSet::new();
    assert!(set.insert("a".to_string(), color("#000000")));
    assert!(set.insert("b".to_string(), color("#000001")));
    assert!(set.insert("c".to_string(), color("#010000")));
    let chain = set.nearest_chain();
    let names: Vec<&str> = chain.iter().map(|e| e.name.as_str()).collect();
    assert_eq!(names, vec!["a", "b", "c"]);
}

#[test]
fn chain_never_repeats_a_name() {
    let mut set = ColorSet::new();
    assert!(set.insert("one".to_string(), color("#102030")));
    assert!(set.insert("three".to_string(), color("#405060")));
    assert!(set.insert("two".to_string(), color("#102031")));
    let chain = set.nearest_chain();
    assert_eq!(chain.len(), 3);
    for i in 0..chain.len() {
        for j in 0..i {
            assert_ne!(chain[i].name, chain[j].name);
        }
    }
}

#[test]
fn entries_are_kept_in_name_order() {
    let mut set = ColorSet::new();
    assert!(set.insert("alpha".to_string(), color("#111111")));
    assert!(set.insert("beta".to_string(), color("#222222")));
    assert_eq!(set.entry(0).name, "alpha".to_string());
    assert_eq!(set.entry(1).name, "beta".to_string());
    assert_eq!(set.entry(1).color, color("#222222"));
}
