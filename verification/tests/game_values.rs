use nimlib::{algo, nimbers, NimGame, NimRule, Nimber, Split, Stack, TakeSize};

#[test]
fn any_never_nimber_equals_height() {
    let rules = vec![NimRule {
        take: TakeSize::Any,
        split: Split::Never,
    }];
    for height in 0u64..=20 {
        assert_eq!(
            nimbers::calculate_nimber_for_height(height, &rules, 0),
            Nimber(height)
        );
    }
}

#[test]
fn kayles_values() {
    // Kayles: take 1 or 2 coins and optionally split the remainder.
    // Hand-verified Grundy values for heights 0..=9.
    let rules = vec![NimRule {
        take: TakeSize::List(vec![1, 2]),
        split: Split::Optional,
    }];
    let expected: Vec<u64> = vec![0, 1, 2, 3, 1, 4, 3, 2, 1, 4];
    for (height, want) in expected.into_iter().enumerate() {
        assert_eq!(
            nimbers::calculate_nimber_for_height(height as u64, &rules, 0),
            Nimber(want)
        );
    }
}

#[test]
fn algo_nimber_matches_nimbers() {
    let rules = vec![NimRule {
        take: TakeSize::List(vec![1, 2, 3]),
        split: Split::Never,
    }];
    for height in 0u64..=10 {
        assert_eq!(
            algo::calculate_nimber_for_height(height, &rules, 0),
            nimbers::calculate_nimber_for_height(height, &rules, 0).0
        );
    }
}

#[test]
fn position_value_is_xor_of_stack_values() {
    let rules = vec![NimRule {
        take: TakeSize::List(vec![1, 2, 3]),
        split: Split::Never,
    }];
    let stacks = vec![Stack(3), Stack(5), Stack(7)];
    let by_hand = stacks
        .iter()
        .fold(Nimber(0), |acc, s| acc ^ s.calculate_nimber(&rules, 0));
    // 3 % 4 = 3, 5 % 4 = 1, 7 % 4 = 3; 3 ^ 1 ^ 3 = 1
    assert_eq!(by_hand, Nimber(1));
    let game = NimGame::new(rules, stacks);
    assert_eq!(game.calculate_nimber(), Nimber(1));
}

#[test]
fn default_game_value() {
    let game = NimGame::default();
    assert_eq!(game.get_stacks(), &vec![Stack(10)]);
    // One stack of height 10 under take {1,2,3}: 10 % 4 = 2.
    assert_eq!(game.calculate_nimber(), Nimber(2));
}

#[test]
fn zero_height_has_nimber_zero() {
    let rule_sets = vec![
        vec![NimRule {
            take: TakeSize::List(vec![1, 2, 3]),
            split: Split::Never,
        }],
        vec![NimRule {
            take: TakeSize::List(vec![2, 3]),
            split: Split::Never,
        }],
        vec![NimRule {
            take: TakeSize::Any,
            split: Split::Never,
        }],
        vec![NimRule {
            take: TakeSize::Any,
            split: Split::Optional,
        }],
        vec![NimRule {
            take: TakeSize::List(vec![1]),
            split: Split::Always,
        }],
    ];
    for rules in rule_sets {
        assert_eq!(nimbers::calculate_nimber_for_height(0, &rules, 0), Nimber(0));
    }
}

#[test]
fn nimber_xor_operator() {
    assert_eq!(Nimber(5) ^ Nimber(3), Nimber(6));
    assert_eq!(Nimber(0) ^ Nimber(7), Nimber(7));
    assert_eq!(Nimber(9) ^ Nimber(9), Nimber(0));
}

#[test]
fn split_from_bool() {
    assert_eq!(Split::from(true), Split::Always);
    assert_eq!(Split::from(false), Split::Never);
}
