use orl::inspect::{can_show, display_name, shown_tensors};

#[test]
fn long_names_are_shown_by_their_end() {
    let short = "a".repeat(48);
    assert_eq!(display_name(&short), short);
    let long = format!("x{}", "b".repeat(48));
    assert!(can_show(&long));
    assert_eq!(display_name(&long), format!("...{}", "b".repeat(45)));
    assert_eq!(display_name(""), "");
}

#[test]
fn bytes_count_not_characters() {
    let wide = "ä".repeat(24);
    assert_eq!(display_name(&wide), wide);
    let cut = format!("{}{}", "ä".repeat(24), "x");
    assert!(can_show(&cut));
    assert_eq!(display_name(&cut), format!("...{}", &cut[cut.len() - 45..]));
    let inside = "ä".repeat(25);
    assert!(!can_show(&inside));
    assert!(!inside.is_char_boundary(inside.len() - 45));
}

#[test]
fn the_first_tensors_by_name_are_listed() {
    let names: Vec<String> = ["c", "a", "b"].iter().map(|s| s.to_string()).collect();
    let shown = shown_tensors(&names, 2);
    assert_eq!(shown.total, 3);
    assert_eq!(shown.names, vec!["a", "b"]);
    assert_eq!(shown.more, 1);
    let all = shown_tensors(&names, 20);
    assert_eq!(all.names.len(), 3);
    assert_eq!(all.more, 0);
}
