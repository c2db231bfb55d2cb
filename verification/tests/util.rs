use std::collections::HashSet;
use tape_compiler::util::{id_text, LabelAllocator};

#[test]
fn ids_count_up_from_zero_in_decimal() {
    let labels = LabelAllocator::new();
    assert_eq!(labels.next_id(), "0");
    assert_eq!(labels.next_id(), "1");
    for _ in 2..10 {
        labels.next_id();
    }
    assert_eq!(labels.next_id(), "10");
    for _ in 11..12345 {
        labels.next_id();
    }
    assert_eq!(labels.next_id(), "12345");
}

#[test]
fn ids_are_unique_over_many_calls() {
    let labels = LabelAllocator::new();
    let mut seen = HashSet::new();
    let calls: usize = 128 * 1024;
    for _ in 0..calls {
        let fresh = seen.insert(labels.next_id());
        assert!(fresh);
    }
    assert_eq!(seen.len(), 131072);
}

#[test]
fn id_text_is_decimal() {
    assert_eq!(id_text(0), "0");
    assert_eq!(id_text(907), "907");
    assert_eq!(id_text(usize::MAX), format!("{}", usize::MAX));
}
