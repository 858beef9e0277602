use sdk_rules::versions::{comes_before, str_equal, VersionSet};

fn set_of(items: &[&str]) -> VersionSet {
    let mut set = VersionSet::new();
    for item in items {
        set.insert(item.to_string());
    }
    set
}

#[test]
fn order_is_lexicographic_by_code_point() {
    assert!(comes_before("", "a"));
    assert!(!comes_before("", ""));
    assert!(!comes_before("a", ""));
    assert!(comes_before("1.10", "1.9"));
    assert!(comes_before("21", "21.0"));
    assert!(comes_before("Z", "a"));
    assert!(!comes_before("b", "a"));
    assert!(!comes_before("same", "same"));
    assert!(comes_before("z", "é"));
}

#[test]
fn order_agrees_with_string_order() {
    let samples = ["", "1", "1.0", "1.10", "1.9", "21-amzn", "21-zulu", "a", "B", "é", "\u{10000}", "\u{ffff}", "21.0.0"];
    for a in samples {
        for b in samples {
            assert_eq!(comes_before(a, b), a < b, "{:?} {:?}", a, b);
            assert_eq!(str_equal(a, b), a == b, "{:?} {:?}", a, b);
        }
    }
}

#[test]
fn set_holds_each_version_once_in_order() {
    let set = set_of(&["21.0.2", "17.0.1", "21.0.2", "8", "17.0.1"]);
    assert_eq!(set.len(), 3);
    assert!(!set.is_empty());
    assert_eq!(set.to_vec(), vec!["17.0.1", "21.0.2", "8"]);
    assert!(set.contains("8"));
    assert!(!set.contains("9"));
}

#[test]
fn empty_set_holds_nothing() {
    let set = VersionSet::new();
    assert_eq!(set.len(), 0);
    assert!(set.is_empty());
    assert!(!set.contains(""));
    assert_eq!(set.to_vec(), Vec::<String>::new());
}

#[test]
fn set_from_list_forgets_order_and_repeats() {
    let list = vec!["b".to_string(), "a".to_string(), "c".to_string(), "a".to_string()];
    assert_eq!(VersionSet::from_vec(&list).to_vec(), vec!["a", "b", "c"]);
    assert_eq!(VersionSet::from_vec(&Vec::new()).to_vec(), Vec::<String>::new());
}

#[test]
fn difference_keeps_what_the_other_lacks() {
    let a = set_of(&["1", "2", "3", "4"]);
    let b = set_of(&["2", "4", "5"]);
    assert_eq!(a.difference(&b).to_vec(), vec!["1", "3"]);
    assert_eq!(b.difference(&a).to_vec(), vec!["5"]);
    assert_eq!(a.difference(&a).to_vec(), Vec::<String>::new());
    assert_eq!(a.difference(&VersionSet::new()).to_vec(), vec!["1", "2", "3", "4"]);
    assert_eq!(VersionSet::new().difference(&a).to_vec(), Vec::<String>::new());
}

#[test]
fn sets_agree_with_sorting_and_deduplicating() {
    let mut state: u64 = 88172645463325252;
    for _ in 0..500 {
        let mut list: Vec<String> = Vec::new();
        state ^= state << 13;
        state ^= state >> 7;
        state ^= state << 17;
        let length = state % 12;
        for _ in 0..length {
            state ^= state << 13;
            state ^= state >> 7;
            state ^= state << 17;
            list.push(format!("{}.{}", state % 4, (state >> 8) % 3));
        }
        let mut expected = list.clone();
        expected.sort();
        expected.dedup();
        let set = VersionSet::from_vec(&list);
        assert_eq!(set.to_vec(), expected);
        assert_eq!(set.len(), expected.len());
        for probe in ["0.0", "1.2", "3.1", "9.9"] {
            assert_eq!(set.contains(probe), expected.iter().any(|v| v == probe));
        }
    }
}
