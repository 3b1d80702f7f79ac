use regurgitate::order::{bytes_le_exec, optional_text_le_exec, sort_byte_strings, text_le_exec};

#[test]
fn byte_strings_sort_as_std_sorts_them() {
    let list = vec![vec![3u8, 1], vec![1, 2, 3], vec![1, 2], vec![], vec![3, 0], vec![1, 2]];
    let mut expected = list.clone();
    expected.sort_unstable();
    assert_eq!(sort_byte_strings(list), expected);
}

#[test]
fn byte_order_is_lexicographic() {
    assert!(bytes_le_exec(&vec![1, 2], &vec![1, 2, 0]));
    assert!(bytes_le_exec(&vec![], &vec![0]));
    assert!(bytes_le_exec(&vec![5], &vec![5]));
    assert!(!bytes_le_exec(&vec![2], &vec![1, 9]));
}

#[test]
fn text_order_is_that_of_str() {
    let pairs = [("a", "b"), ("b", "a"), ("ab", "a"), ("", "a"), ("10", "9"), ("é", "z"), ("x", "x")];
    for (a, b) in pairs {
        assert_eq!(text_le_exec(a, b), a <= b);
    }
}

#[test]
fn no_text_comes_first() {
    assert!(optional_text_le_exec(&None, &Some("a".to_string())));
    assert!(optional_text_le_exec(&None, &None));
    assert!(!optional_text_le_exec(&Some("".to_string()), &None));
    assert!(optional_text_le_exec(&Some("1".to_string()), &Some("2".to_string())));
    assert!(!optional_text_le_exec(&Some("2".to_string()), &Some("1".to_string())));
}
