use shelltools::sort::stable_sort_order;

fn keys(v: &[&str]) -> Vec<Vec<char>> {
    v.iter().map(|s| s.chars().collect()).collect()
}

#[test]
fn sort_order_is_stable() {
    let k = keys(&["b", "a", "b", "", "a"]);
    assert_eq!(stable_sort_order(&k), vec![3, 1, 4, 0, 2]);
}

#[test]
fn sort_order_by_code_point() {
    let k = keys(&["é", "z", "Z", "ab", "a"]);
    assert_eq!(stable_sort_order(&k), vec![2, 4, 3, 1, 0]);
    let k = keys(&[]);
    assert_eq!(stable_sort_order(&k), Vec::<usize>::new());
}

#[test]
fn sort_order_matches_std_stable_sort() {
    let words = ["pear", "Apple", "apple", "fig", "", "fig", "kiwi", "Kiwi", "peach", "a"];
    let k = keys(&words);
    let mut expected: Vec<usize> = (0..words.len()).collect();
    expected.sort_by(|a, b| words[*a].cmp(words[*b]));
    assert_eq!(stable_sort_order(&k), expected);
}
