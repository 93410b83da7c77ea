use std::cmp::Ordering;

use imageviewer::natural_sort::{natural_cmp, natural_cmp_lowercased, natural_cmp_paths, settle_case_tie};
use imageviewer::text::Order;

fn sorted(mut names: Vec<&str>) -> Vec<&str> {
    names.sort_by(|a, b| natural_cmp(a, b));
    names
}

#[test]
fn numbers_compare_numerically() {
    assert_eq!(
        sorted(vec!["img10.jpg", "img2.jpg", "img1.jpg"]),
        vec!["img1.jpg", "img2.jpg", "img10.jpg"]
    );
}

#[test]
fn leading_zeros_do_not_change_the_value() {
    assert_eq!(natural_cmp("img007.png", "img7.png"), Ordering::Greater);
    assert_eq!(natural_cmp("img007.png", "img8.png"), Ordering::Less);
}

#[test]
fn very_long_numbers_do_not_overflow() {
    assert_eq!(
        natural_cmp("a99999999999999999999.png", "a100000000000000000000.png"),
        Ordering::Less
    );
}

#[test]
fn case_is_ignored_first() {
    assert_eq!(
        sorted(vec!["Beta.png", "alpha.png", "gamma.png"]),
        vec!["alpha.png", "Beta.png", "gamma.png"]
    );
}

#[test]
fn case_only_difference_is_still_a_total_order() {
    assert_eq!(natural_cmp("A.png", "a.png"), Ordering::Less);
    assert_eq!(natural_cmp("a.png", "a.png"), Ordering::Equal);
}

#[test]
fn prefix_sorts_before_longer_name() {
    assert_eq!(natural_cmp("a.png", "ab.png"), Ordering::Less);
}

#[test]
fn swapping_the_names_reverses_the_order() {
    let names = ["img2.jpg", "img10.jpg", "Img2.jpg", "img02.jpg", "b", "B", "", "a1b2", "a01b2"];
    for a in names {
        for b in names {
            assert_eq!(natural_cmp(a, b), natural_cmp(b, a).reverse(), "{a} vs {b}");
            assert_eq!(natural_cmp(a, b) == Ordering::Equal, a == b, "{a} vs {b}");
        }
    }
}

#[test]
fn a_case_difference_decides_only_when_the_rest_is_equal() {
    // The case of the first letter loses to the number that follows it.
    assert_eq!(natural_cmp("A10.png", "a9.png"), Ordering::Greater);
    assert_eq!(natural_cmp("a10.png", "A9.png"), Ordering::Greater);
    assert_eq!(natural_cmp("A9.png", "a9.png"), Ordering::Less);
}

#[test]
fn fewer_leading_zeros_come_first() {
    assert_eq!(natural_cmp("01", "1"), Ordering::Greater);
    assert_eq!(natural_cmp("0", "00"), Ordering::Less);
    assert_eq!(natural_cmp("x0009y", "x10y"), Ordering::Less);
}

#[test]
fn paths_compare_by_their_file_names() {
    assert_eq!(natural_cmp_paths("zzz/img2.png", "aaa/img10.png"), Ordering::Less);
    assert_eq!(natural_cmp_paths("dir/img10.png", "other/img2.png"), Ordering::Greater);
    assert_eq!(natural_cmp_paths("a/x.png", "b/x.png"), Ordering::Equal);
}

#[test]
fn the_order_is_transitive_across_digits_and_case() {
    let chain = ["a2", "A10", "a010", "B1", "b1", "b01"];
    for i in 0..chain.len() {
        for j in i + 1..chain.len() {
            assert_eq!(natural_cmp(chain[i], chain[j]), Ordering::Less, "{} < {}", chain[i], chain[j]);
        }
    }
}

#[test]
fn a_character_that_lowercases_to_two_keeps_the_order_transitive() {
    let chain = ["i", "ia", "i\u{307}", "\u{130}", "\u{130}a"];
    for i in 0..chain.len() {
        for j in 0..chain.len() {
            let expected = i.cmp(&j);
            assert_eq!(natural_cmp(chain[i], chain[j]), expected, "{:?} vs {:?}", chain[i], chain[j]);
        }
    }
}

#[test]
fn the_directory_never_matters_when_comparing_paths() {
    assert_eq!(natural_cmp_paths("/z/img2.jpg", "/a/img10.jpg"), Ordering::Less);
    assert_eq!(natural_cmp_paths("a/b/img10.jpg", "img2.jpg"), Ordering::Greater);
    assert_eq!(natural_cmp_paths("/x/Same.png", "/y/Same.png"), Ordering::Equal);
}

#[test]
fn lowercased_names_decide_and_raw_characters_break_only_a_full_tie() {
    // The lowercased names differ ("b1" < "b01" by leading zeros), so case
    // elsewhere does not matter.
    assert_eq!(natural_cmp("B1", "b01"), Ordering::Less);
    // Identical once lowercased: the raw characters decide, 'B' < 'b'.
    assert_eq!(natural_cmp("aB", "ab"), Ordering::Less);
    assert_eq!(natural_cmp("Ab", "aB"), Ordering::Less);
}

#[test]
fn the_logic_after_lowercasing_takes_the_lowercased_names() {
    assert_eq!(natural_cmp_lowercased("img2.png", "img10.png"), Ordering::Less);
    assert_eq!(natural_cmp_lowercased("b01", "b1"), Ordering::Greater);
    assert_eq!(natural_cmp_lowercased("a.png", "a.png"), Ordering::Equal);
    let lower: Vec<char> = "a.png".chars().collect();
    // "A.png" against "a.png": identical once lowercased, so 'A' < 'a' decides.
    assert_eq!(settle_case_tie(&lower, &lower, 'A', 'a'), Order::Less);
    let other: Vec<char> = "b.png".chars().collect();
    assert_eq!(settle_case_tie(&other, &lower, 'A', 'a'), Order::Greater);
}
