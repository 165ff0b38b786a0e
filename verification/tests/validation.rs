use nimlib::moves::{self, MoveError};
use nimlib::{
    NimAction, NimGame, NimRule, NimSplit, PlaceAction, Player, Split, Stack, TakeAction, TakeSize,
};

fn take(stack_index: usize, amount: u64, split: NimSplit) -> NimAction {
    NimAction::Take(TakeAction {
        stack_index,
        amount,
        split,
        from: None,
    })
}

#[test]
fn check_take_no_such_stack() {
    let game = NimGame::new(
        vec![NimRule {
            take: TakeSize::List(vec![1, 2, 3]),
            split: Split::Never,
        }],
        vec![Stack(5)],
    );
    let r = moves::check_move(&game, &take(5, 1, NimSplit::No));
    assert_eq!(r, Err(MoveError::NoSuchStack));
}

#[test]
fn check_take_no_such_rule() {
    let game = NimGame::new(
        vec![NimRule {
            take: TakeSize::List(vec![1, 2, 3]),
            split: Split::Never,
        }],
        vec![Stack(5)],
    );
    let r = moves::check_move(&game, &take(0, 4, NimSplit::No));
    assert_eq!(r, Err(MoveError::NoSuchRule));
}

#[test]
fn check_take_not_enough_coins_on_stack() {
    let game = NimGame::new(
        vec![NimRule {
            take: TakeSize::List(vec![1, 2, 3]),
            split: Split::Never,
        }],
        vec![Stack(2)],
    );
    let r = moves::check_move(&game, &take(0, 3, NimSplit::No));
    assert_eq!(r, Err(MoveError::NotEnoughCoinsOnStack));
}

#[test]
fn check_take_invalid_split() {
    // A split is proposed, but the only matching rule never splits.
    let game = NimGame::new(
        vec![NimRule {
            take: TakeSize::List(vec![1, 2, 3]),
            split: Split::Never,
        }],
        vec![Stack(5)],
    );
    let r = moves::check_move(&game, &take(0, 1, NimSplit::Yes(Stack(2), Stack(2))));
    assert_eq!(r, Err(MoveError::InvalidSplit));

    // No split is proposed, but the only matching rule demands one.
    let game = NimGame::new(
        vec![NimRule {
            take: TakeSize::List(vec![1]),
            split: Split::Always,
        }],
        vec![Stack(5)],
    );
    let r = moves::check_move(&game, &take(0, 1, NimSplit::No));
    assert_eq!(r, Err(MoveError::InvalidSplit));

    // The split's parts do not sum with the amount to the stack height.
    let game = NimGame::new(
        vec![NimRule {
            take: TakeSize::List(vec![1]),
            split: Split::Optional,
        }],
        vec![Stack(5)],
    );
    let r = moves::check_move(&game, &take(0, 1, NimSplit::Yes(Stack(1), Stack(2))));
    assert_eq!(r, Err(MoveError::InvalidSplit));
}

#[test]
fn check_place_errors() {
    // No rule offers placing.
    let game = NimGame::new(
        vec![NimRule {
            take: TakeSize::List(vec![1]),
            split: Split::Never,
        }],
        vec![Stack(5)],
    );
    let place = NimAction::Place(PlaceAction {
        stack_index: 0,
        amount: 1,
        from: Player::A,
    });
    assert_eq!(moves::check_move(&game, &place), Err(MoveError::NoSuchRule));

    // A place rule exists, but the pools are empty (NimGame::new zeroes them).
    let game = NimGame::new(
        vec![NimRule {
            take: TakeSize::Place,
            split: Split::Never,
        }],
        vec![Stack(5)],
    );
    assert_eq!(
        moves::check_move(&game, &place),
        Err(MoveError::NotEnoughCoinsOnPlayer)
    );

    // Out-of-range stack index, with a place rule present.
    let bad_index = NimAction::Place(PlaceAction {
        stack_index: 9,
        amount: 1,
        from: Player::A,
    });
    assert_eq!(
        moves::check_move(&game, &bad_index),
        Err(MoveError::NoSuchStack)
    );
}

#[test]
fn generated_moves_all_pass_check() {
    let rules = vec![
        NimRule {
            take: TakeSize::List(vec![1, 2, 3]),
            split: Split::Optional,
        },
        NimRule {
            take: TakeSize::Any,
            split: Split::Always,
        },
    ];
    let stacks = vec![Stack(4), Stack(7)];
    let all_moves = moves::calculate_legal_moves(&stacks, &rules, (0, 0));
    let game = NimGame::new(rules, stacks);
    assert!(!all_moves.is_empty());
    for mov in &all_moves {
        assert_eq!(moves::check_move(&game, mov), Ok(()));
        let mut copy = game.clone();
        assert_eq!(moves::apply_move(&mut copy, mov), Ok(()));
    }
}

#[test]
fn apply_take_with_split_replaces_stack_in_place() {
    let rules = vec![NimRule {
        take: TakeSize::List(vec![2]),
        split: Split::Optional,
    }];
    let mut game = NimGame::new(rules, vec![Stack(2), Stack(5), Stack(7)]);
    let mov = take(1, 2, NimSplit::Yes(Stack(1), Stack(2)));
    assert_eq!(moves::apply_move(&mut game, &mov), Ok(()));
    assert_eq!(
        game.get_stacks(),
        &vec![Stack(2), Stack(1), Stack(2), Stack(7)]
    );
}

#[test]
fn apply_place_moves_coins_from_pool() {
    let rules = vec![NimRule {
        take: TakeSize::Place,
        split: Split::Never,
    }];
    let mut game = NimGame {
        rules,
        stacks: vec![Stack(3)],
        coins_a: 2,
        coins_b: 1,
    };
    let all_moves = moves::calculate_legal_moves(&game.stacks, &game.rules, (2, 1));
    assert_eq!(all_moves.len(), 3);
    assert_eq!(
        all_moves[0],
        NimAction::Place(PlaceAction {
            stack_index: 0,
            amount: 1,
            from: Player::A
        })
    );
    assert_eq!(
        all_moves[1],
        NimAction::Place(PlaceAction {
            stack_index: 0,
            amount: 2,
            from: Player::A
        })
    );
    assert_eq!(
        all_moves[2],
        NimAction::Place(PlaceAction {
            stack_index: 0,
            amount: 1,
            from: Player::B
        })
    );
    assert_eq!(moves::apply_move(&mut game, &all_moves[1]), Ok(()));
    assert_eq!(game.get_stacks(), &vec![Stack(5)]);
    assert_eq!(game.coins_a, 0);
    assert_eq!(game.coins_b, 1);
}

#[test]
fn apply_move_leaves_game_unchanged_on_error() {
    let rules = vec![NimRule {
        take: TakeSize::List(vec![1, 2, 3]),
        split: Split::Never,
    }];
    let mut game = NimGame::new(rules, vec![Stack(5)]);
    let before = game.clone();
    let r = moves::apply_move(&mut game, &take(0, 4, NimSplit::No));
    assert_eq!(r, Err(MoveError::NoSuchRule));
    assert_eq!(game, before);
}

#[test]
fn apply_move_unchecked_applies_without_validation() {
    let rules = vec![NimRule {
        take: TakeSize::List(vec![1, 2, 3]),
        split: Split::Never,
    }];
    let mut game = NimGame::new(rules, vec![Stack(5)]);
    // Amount 4 is offered by no rule, but it fits the stack, so the
    // unchecked application performs it anyway.
    let r = moves::apply_move_unchecked(&mut game, &take(0, 4, NimSplit::No));
    assert_eq!(r, Ok(()));
    assert_eq!(game.get_stacks(), &vec![Stack(1)]);

    // The stack bounds check still applies.
    let r = moves::apply_move_unchecked(&mut game, &take(7, 1, NimSplit::No));
    assert_eq!(r, Err(MoveError::NoSuchStack));
}
