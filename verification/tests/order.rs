use cycle_finder::order::{name_le_exec, sort_names};

fn s(x: &str) -> String {
    x.to_string()
}

fn names(xs: &[&str]) -> Vec<String> {
    xs.iter().map(|x| x.to_string()).collect()
}

#[test]
fn order_of_single_letters() {
    assert!(name_le_exec(&s("A"), &s("B")));
    assert!(!name_le_exec(&s("B"), &s("A")));
    assert!(name_le_exec(&s("A"), &s("A")));
}

#[test]
fn a_prefix_comes_first() {
    assert!(name_le_exec(&s("AB"), &s("ABC")));
    assert!(!name_le_exec(&s("ABC"), &s("AB")));
    assert!(name_le_exec(&s(""), &s("A")));
    assert!(!name_le_exec(&s("A"), &s("")));
    assert!(name_le_exec(&s(""), &s("")));
}

#[test]
fn the_first_difference_decides() {
    assert!(name_le_exec(&s("ABZ"), &s("ACA")));
    assert!(!name_le_exec(&s("ACA"), &s("ABZ")));
    assert!(name_le_exec(&s("BTC"), &s("BTD")));
}

#[test]
fn upper_case_comes_before_lower_case() {
    assert!(name_le_exec(&s("Z"), &s("a")));
    assert!(!name_le_exec(&s("a"), &s("Z")));
    assert!(name_le_exec(&s("1INCH"), &s("AAVE")));
}

#[test]
fn order_goes_by_encoded_bytes() {
    assert!(name_le_exec(&s("z"), &s("\u{e9}")));
    assert!(!name_le_exec(&s("\u{e9}"), &s("z")));
    assert!(name_le_exec(&s("\u{e9}"), &s("\u{20ac}")));
    assert!(name_le_exec(&s("\u{ffff}"), &s("\u{10000}")));
}

#[test]
fn order_agrees_with_string_comparison() {
    let samples = names(&["", "A", "AB", "ABC", "B", "a", "b", "BTC", "ETH", "\u{e9}", "\u{20ac}", "z"]);
    for a in &samples {
        for b in &samples {
            assert_eq!(name_le_exec(a, b), a <= b);
        }
    }
}

#[test]
fn sort_names_sorts() {
    assert_eq!(sort_names(&names(&["C", "A", "B"])), names(&["A", "B", "C"]));
    assert_eq!(sort_names(&names(&["USDT", "BTC", "ETH", "BNB"])), names(&["BNB", "BTC", "ETH", "USDT"]));
}

#[test]
fn sort_names_keeps_sorted_input() {
    assert_eq!(sort_names(&names(&["A", "B", "C"])), names(&["A", "B", "C"]));
}

#[test]
fn sort_names_of_nothing_and_of_one() {
    assert_eq!(sort_names(&Vec::new()), Vec::<String>::new());
    assert_eq!(sort_names(&names(&["X"])), names(&["X"]));
}

#[test]
fn sort_names_keeps_repeated_entries() {
    assert_eq!(sort_names(&names(&["B", "A", "B", "A"])), names(&["A", "A", "B", "B"]));
}

#[test]
fn sort_names_agrees_with_slice_sort() {
    let input = names(&["eth", "BTC", "", "b", "B", "AB", "A", "\u{e9}", "z", "10", "9"]);
    let mut expected = input.clone();
    expected.sort();
    assert_eq!(sort_names(&input), expected);
}
