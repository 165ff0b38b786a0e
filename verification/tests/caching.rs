use nimlib::nimbers::{self, NimberCache};
use nimlib::{NimRule, Nimber, Split, TakeSize};

#[test]
fn repeated_evaluation_returns_identical_value() {
    let rules = vec![NimRule {
        take: TakeSize::List(vec![1, 2, 3]),
        split: Split::Never,
    }];
    let mut cache = NimberCache::new();
    let first = nimbers::calculate_nimber_with_cache(6, &rules, 0, &mut cache);
    let second = nimbers::calculate_nimber_with_cache(6, &rules, 0, &mut cache);
    assert_eq!(first, second);
    assert_eq!(first, Nimber(2));
}

#[test]
fn cached_entries_of_other_rule_sets_stay_intact() {
    let rules_a = vec![NimRule {
        take: TakeSize::List(vec![1, 2, 3]),
        split: Split::Never,
    }];
    let rules_b = vec![NimRule {
        take: TakeSize::List(vec![2, 3]),
        split: Split::Never,
    }];
    let mut cache = NimberCache::new();
    let a1 = nimbers::calculate_nimber_with_cache(7, &rules_a, 0, &mut cache);
    let b1 = nimbers::calculate_nimber_with_cache(7, &rules_b, 0, &mut cache);
    // Re-evaluating under one rule set does not disturb the other's entries.
    let a2 = nimbers::calculate_nimber_with_cache(7, &rules_a, 0, &mut cache);
    let b2 = nimbers::calculate_nimber_with_cache(7, &rules_b, 0, &mut cache);
    assert_eq!(a1, a2);
    assert_eq!(b1, b2);
    assert_eq!(a1, Nimber(3));
    assert_eq!(b1, Nimber(1));
}

#[test]
fn lower_heights_reuse_the_cached_table() {
    let rules = vec![NimRule {
        take: TakeSize::Any,
        split: Split::Never,
    }];
    let mut cache = NimberCache::new();
    let high = nimbers::calculate_nimber_with_cache(50, &rules, 0, &mut cache);
    assert_eq!(high, Nimber(50));
    for height in 0u64..=50 {
        assert_eq!(
            nimbers::calculate_nimber_with_cache(height, &rules, 0, &mut cache),
            Nimber(height)
        );
    }
}

#[test]
fn cleared_cache_still_computes_the_same_values() {
    let rules = vec![NimRule {
        take: TakeSize::List(vec![1, 2]),
        split: Split::Optional,
    }];
    let mut cache = NimberCache::new();
    let before = nimbers::calculate_nimber_with_cache(9, &rules, 0, &mut cache);
    nimbers::clear_nimber_cache(&mut cache);
    let after = nimbers::calculate_nimber_with_cache(9, &rules, 0, &mut cache);
    assert_eq!(before, after);
    assert_eq!(before, Nimber(4));
}
