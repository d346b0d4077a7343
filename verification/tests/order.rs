use dirtree::entry::same_name;
use dirtree::order::names_in_order;

#[test]
fn uppercase_sorts_before_lowercase() {
    assert!(names_in_order("C", "a"));
    assert!(names_in_order("a", "b"));
    assert!(names_in_order("C", "b"));
    assert!(!names_in_order("a", "C"));
    assert!(!names_in_order("b", "a"));
    assert!(!names_in_order("b", "C"));
}

#[test]
fn a_name_is_in_order_with_itself() {
    assert!(names_in_order("", ""));
    assert!(names_in_order("src", "src"));
    assert!(names_in_order("ü", "ü"));
}

#[test]
fn a_prefix_sorts_first() {
    assert!(names_in_order("", "a"));
    assert!(!names_in_order("a", ""));
    assert!(names_in_order("lib", "lib.rs"));
    assert!(!names_in_order("lib.rs", "lib"));
}

#[test]
fn the_first_difference_decides() {
    assert!(names_in_order("abc", "abd"));
    assert!(!names_in_order("abd", "abc"));
    assert!(names_in_order("abz", "b"));
    assert!(names_in_order("a10", "a9"));
    assert!(names_in_order(".git", "Cargo.toml"));
    assert!(names_in_order("Z", "_"));
    assert!(names_in_order("_", "a"));
}

#[test]
fn order_agrees_with_byte_order_beyond_ascii() {
    let names = [
        "", "a", "z", "~", "é", "ü", "ß", "日本", "日本語", "😀", "a😀", "aé", "zz", "\u{7f}",
        "\u{80}", "\u{7ff}", "\u{800}", "\u{ffff}", "\u{10000}", "\u{10ffff}",
    ];
    for a in names.iter() {
        for b in names.iter() {
            let by_bytes = a.as_bytes() <= b.as_bytes();
            assert_eq!(names_in_order(a, b), by_bytes, "{:?} {:?}", a, b);
            assert_eq!(names_in_order(a, b), a <= b, "{:?} {:?}", a, b);
        }
    }
}

#[test]
fn order_is_total_and_antisymmetric_on_samples() {
    let names = ["b", "a", "C", "ab", "", "B", "é"];
    for a in names.iter() {
        for b in names.iter() {
            assert!(names_in_order(a, b) || names_in_order(b, a));
            if names_in_order(a, b) && names_in_order(b, a) {
                assert_eq!(a, b);
            }
        }
    }
}

#[test]
fn same_name_is_exact_equality() {
    assert!(same_name("target", "target"));
    assert!(same_name("", ""));
    assert!(!same_name("target", "Target"));
    assert!(!same_name("target", "targets"));
    assert!(!same_name("target", "targe"));
    assert!(!same_name("a", "b"));
    assert!(same_name("日本", "日本"));
    assert!(!same_name("日本", "日本語"));
}
