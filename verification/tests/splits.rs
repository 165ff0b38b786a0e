use nimlib::{algo, nimbers, Stack};

#[test]
fn splits_small_heights() {
    assert_eq!(nimbers::calculate_splits(0), vec![]);
    assert_eq!(nimbers::calculate_splits(1), vec![]);
    assert_eq!(nimbers::calculate_splits(2), vec![(Stack(1), Stack(1))]);
    assert_eq!(nimbers::calculate_splits(3), vec![(Stack(1), Stack(2))]);
    assert_eq!(
        nimbers::calculate_splits(4),
        vec![(Stack(1), Stack(3)), (Stack(2), Stack(2))]
    );
    assert_eq!(
        nimbers::calculate_splits(5),
        vec![(Stack(1), Stack(4)), (Stack(2), Stack(3))]
    );
    assert_eq!(
        nimbers::calculate_splits(6),
        vec![(Stack(1), Stack(5)), (Stack(2), Stack(4)), (Stack(3), Stack(3))]
    );
}

#[test]
fn splits_u64_small_heights() {
    assert_eq!(algo::calculate_splits(0), vec![]);
    assert_eq!(algo::calculate_splits(1), vec![]);
    assert_eq!(algo::calculate_splits(2), vec![(1, 1)]);
    assert_eq!(algo::calculate_splits(3), vec![(1, 2)]);
    assert_eq!(algo::calculate_splits(4), vec![(1, 3), (2, 2)]);
    assert_eq!(algo::calculate_splits(5), vec![(1, 4), (2, 3)]);
    assert_eq!(algo::calculate_splits(6), vec![(1, 5), (2, 4), (3, 3)]);
}

#[test]
fn splits_shape_properties() {
    for height in 0u64..=50 {
        let splits = nimbers::calculate_splits(height);
        if height < 2 {
            assert_eq!(splits.len(), 0);
        } else {
            assert_eq!(splits.len() as u64, height / 2);
        }
        for (i, (a, b)) in splits.iter().enumerate() {
            assert!(a.0 >= 1);
            assert!(a.0 <= b.0);
            assert_eq!(a.0 + b.0, height);
            if i > 0 {
                assert!(splits[i - 1].0 .0 < a.0);
            }
        }
    }
}
