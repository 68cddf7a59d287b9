use p2psync::utils::multierr::MultiError;
use p2psync::utils::text::{bytes_le_exec, decimal_string, join, str_le_exec};

#[test]
fn decimal_of_small_and_large_numbers() {
    assert_eq!(decimal_string(0), "0");
    assert_eq!(decimal_string(7), "7");
    assert_eq!(decimal_string(10), "10");
    assert_eq!(decimal_string(909), "909");
    assert_eq!(decimal_string(1234567890), "1234567890");
    assert_eq!(decimal_string(usize::MAX), usize::MAX.to_string());
}

#[test]
fn join_puts_the_separator_between_neighbours() {
    let none: Vec<String> = vec![];
    assert_eq!(join(&none, "; "), "");
    assert_eq!(join(&vec!["a".to_string()], "; "), "a");
    assert_eq!(
        join(&vec!["a".to_string(), "b".to_string(), "c".to_string()], "; "),
        "a; b; c"
    );
    assert_eq!(join(&vec!["".to_string(), "".to_string()], ","), ",");
}

#[test]
fn bytes_are_ordered_like_slices() {
    let samples: Vec<&[u8]> = vec![b"", b"a", b"ab", b"b", b"\xff", b"a\x00", b"aa", b"ab"];
    for a in &samples {
        for b in &samples {
            assert_eq!(bytes_le_exec(a, b), a <= b);
        }
    }
}

#[test]
fn strings_are_ordered_like_strings() {
    let samples = vec!["", "0", "00", "0a", "a", "a0", "f", "z", "\u{e9}", "\u{10000}"];
    for a in &samples {
        for b in &samples {
            assert_eq!(str_le_exec(a, b), a <= b);
        }
    }
}

#[test]
fn multi_error_keeps_its_errors_in_order() {
    let errors = MultiError::new(vec!["first".to_string(), "second".to_string()]);
    assert_eq!(errors.len(), 2);
    assert!(!errors.is_empty());
    assert_eq!(errors.errors(), &["first".to_string(), "second".to_string()]);
    assert_eq!(errors.source(), Some(&"first".to_string()));
    assert_eq!(
        errors.into_errors(),
        vec!["first".to_string(), "second".to_string()]
    );
}

#[test]
fn multi_error_may_be_empty() {
    let errors: MultiError<String> = MultiError::new(vec![]);
    assert_eq!(errors.len(), 0);
    assert!(errors.is_empty());
    assert_eq!(errors.source(), None);
    assert_eq!(errors.message(), "Multiple errors occurred (0): ");
}

#[test]
fn multi_error_holds_any_kind_of_error() {
    let errors = MultiError::new(vec![3u8, 1, 2]);
    assert_eq!(errors.len(), 3);
    assert_eq!(errors.source(), Some(&3u8));
    assert_eq!(errors.errors(), &[3u8, 1, 2]);
}

#[test]
fn multi_error_message_counts_and_lists() {
    let one = MultiError::new(vec!["boom".to_string()]);
    assert_eq!(one.message(), "Multiple errors occurred (1): boom");
    let three = MultiError::new(vec!["e1".to_string(), "e2".to_string(), "e3".to_string()]);
    assert_eq!(three.message(), "Multiple errors occurred (3): e1; e2; e3");
    let many: Vec<String> = (0..12).map(|i| format!("e{}", i)).collect();
    assert!(MultiError::new(many)
        .message()
        .starts_with("Multiple errors occurred (12): e0; e1; "));
}
