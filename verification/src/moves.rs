//! Code for handling moves: generating all legal moves of a position,
//! validating a proposed move, and applying a move to a position.

use vstd::prelude::*;

use crate::game::{
    place_splits_never, rules_model, stacks_model, NimAction, NimGame, NimRule, NimSplit,
    PlaceAction, Player, RuleModel, Split, Stack, TakeAction, TakeModel, TakeSize,
};

verus! {

broadcast use vstd::seq_lib::lemma_seq_concat_contains_all_elements, vstd::seq_lib::lemma_seq_contains_after_push;

/// Errors which may occur when checking or applying a move
#[derive(Copy, Clone, Debug, PartialEq, Eq, PartialOrd, Ord, Hash, Structural)]
pub enum MoveError {
    /// The move is invalid for the given position.
    ///
    /// This error is very generic and is subject to be replaced with more
    /// specific errors.
    InvalidMove,
    /// The stack index is out of bounds
    NoSuchStack,
    /// The stack does not have enough coins to take (before a possible split)
    NotEnoughCoinsOnStack,
    /// No rule exists which supports the desired move
    NoSuchRule,
    /// The split is invalid for the given move under every rule in the
    /// specified game
    InvalidSplit,
    /// The player does not have enough coins to place
    /// (for [`NimAction::Place`] moves)
    NotEnoughCoinsOnPlayer,
}

// ---------------------------------------------------------------------------
// Move generation: the specification sequence
// ---------------------------------------------------------------------------

/// All ways to split a remainder of `rem` coins into two non-empty stacks,
/// ordered by increasing first part: `(1, rem-1)` up to `(rem/2, rem-rem/2)`.
pub open spec fn split_options(rem: u64) -> Seq<NimSplit> {
    Seq::new(
        (rem / 2) as nat,
        |i: int| NimSplit::Yes(Stack((i + 1) as u64), Stack((rem - i - 1) as u64)),
    )
}

/// The moves generated for taking `amount` coins from stack `s_idx` of
/// height `height` under split policy `policy`: the no-split move (unless
/// the policy is `Always`), followed by one move per split of the remainder
/// (unless the policy is `Never`).
pub open spec fn take_moves_for_amount(
    s_idx: usize,
    amount: u64,
    height: u64,
    policy: Split,
) -> Seq<NimAction> {
    let no_split = seq![
        NimAction::Take(
            TakeAction { stack_index: s_idx, amount: amount, split: NimSplit::No, from: None },
        ),
    ];
    let with_split = split_options((height - amount) as u64).map_values(
        |sp: NimSplit|
            NimAction::Take(
                TakeAction { stack_index: s_idx, amount: amount, split: sp, from: None },
            ),
    );
    match policy {
        Split::Never => no_split,
        Split::Optional => no_split + with_split,
        Split::Always => with_split,
    }
}

/// The moves generated for a `List` rule: its amounts in order, skipping
/// those larger than the stack height.
pub open spec fn take_moves_for_list(
    s_idx: usize,
    amounts: Seq<u64>,
    height: u64,
    policy: Split,
) -> Seq<NimAction>
    decreases amounts.len(),
{
    if amounts.len() == 0 {
        Seq::empty()
    } else {
        take_moves_for_list(s_idx, amounts.drop_last(), height, policy) + (if amounts.last()
            <= height {
            take_moves_for_amount(s_idx, amounts.last(), height, policy)
        } else {
            Seq::empty()
        })
    }
}

/// The moves generated for an `Any` rule, for the amounts `1..=upto`
/// in increasing order.
pub open spec fn take_moves_for_any(
    s_idx: usize,
    upto: u64,
    height: u64,
    policy: Split,
) -> Seq<NimAction>
    decreases upto,
{
    if upto == 0 {
        Seq::empty()
    } else {
        take_moves_for_any(s_idx, (upto - 1) as u64, height, policy) + take_moves_for_amount(
            s_idx,
            upto,
            height,
            policy,
        )
    }
}

/// The place moves offered to `player` on stack `s_idx`: amounts `1..=pool`
/// in increasing order.
pub open spec fn place_moves(s_idx: usize, pool: u64, player: Player) -> Seq<NimAction>
    decreases pool,
{
    if pool == 0 {
        Seq::empty()
    } else {
        place_moves(s_idx, (pool - 1) as u64, player).push(
            NimAction::Place(PlaceAction { stack_index: s_idx, amount: pool, from: player }),
        )
    }
}

/// The moves one rule generates on one stack.
pub open spec fn moves_for_rule(
    s_idx: usize,
    r: RuleModel,
    height: u64,
    pool_a: u64,
    pool_b: u64,
) -> Seq<NimAction> {
    match r.take {
        TakeModel::List(amounts) => take_moves_for_list(s_idx, amounts, height, r.split),
        TakeModel::Any => take_moves_for_any(s_idx, height, height, r.split),
        TakeModel::Place => place_moves(s_idx, pool_a, Player::A) + place_moves(
            s_idx,
            pool_b,
            Player::B,
        ),
    }
}

/// The moves all rules generate on one stack, in rule-set order.
pub open spec fn moves_for_stack(
    rules: Seq<RuleModel>,
    s_idx: usize,
    height: u64,
    pool_a: u64,
    pool_b: u64,
) -> Seq<NimAction>
    decreases rules.len(),
{
    if rules.len() == 0 {
        Seq::empty()
    } else {
        moves_for_stack(rules.drop_last(), s_idx, height, pool_a, pool_b) + moves_for_rule(
            s_idx,
            rules.last(),
            height,
            pool_a,
            pool_b,
        )
    }
}

/// Every legal move of a position: for each stack in order, for each rule in
/// order, the moves that rule generates on that stack.
pub open spec fn legal_moves_spec(
    stacks: Seq<u64>,
    rules: Seq<RuleModel>,
    pool_a: u64,
    pool_b: u64,
) -> Seq<NimAction>
    decreases stacks.len(),
{
    if stacks.len() == 0 {
        Seq::empty()
    } else {
        legal_moves_spec(stacks.drop_last(), rules, pool_a, pool_b) + moves_for_stack(
            rules,
            (stacks.len() - 1) as usize,
            stacks.last(),
            pool_a,
            pool_b,
        )
    }
}

// ---------------------------------------------------------------------------
// Move generation: the executable generator
// ---------------------------------------------------------------------------

/// Push the moves for taking `amount` coins from stack `s_idx` of height
/// `height` under `policy` onto `moves`.
fn push_take_moves(moves: &mut Vec<NimAction>, s_idx: usize, amount: u64, height: u64, policy: Split)
    requires
        amount <= height,
    ensures
        final(moves)@ == old(moves)@ + take_moves_for_amount(s_idx, amount, height, policy),
{
    let ghost base = moves@;
    let rem = height - amount;
    let ghost with_split = split_options(rem).map_values(
        |sp: NimSplit|
            NimAction::Take(
                TakeAction { stack_index: s_idx, amount: amount, split: sp, from: None },
            ),
    );
    if matches!(policy, Split::Never | Split::Optional) {
        moves.push(
            NimAction::Take(
                TakeAction { stack_index: s_idx, amount: amount, split: NimSplit::No, from: None },
            ),
        );
    }
    if matches!(policy, Split::Optional | Split::Always) {
        let ghost mid = moves@;
        let half = rem / 2;
        let mut i: u64 = 0;
        while i < half
            invariant
                half == rem / 2,
                i <= half,
                moves@ == mid + with_split.take(i as int),
                with_split == split_options(rem).map_values(
                    |sp: NimSplit|
                        NimAction::Take(
                            TakeAction {
                                stack_index: s_idx,
                                amount: amount,
                                split: sp,
                                from: None,
                            },
                        ),
                ),
            decreases half - i,
        {
            i = i + 1;
            moves.push(
                NimAction::Take(
                    TakeAction {
                        stack_index: s_idx,
                        amount: amount,
                        split: NimSplit::Yes(Stack(i), Stack(rem - i)),
                        from: None,
                    },
                ),
            );
            proof {
                assert(with_split[i - 1] == NimAction::Take(
                    TakeAction {
                        stack_index: s_idx,
                        amount: amount,
                        split: NimSplit::Yes(Stack(i as u64), Stack((rem - i) as u64)),
                        from: None,
                    },
                ));
                assert(moves@ =~= mid + with_split.take(i as int));
            }
        }
        proof {
            assert(with_split.take(half as int) =~= with_split);
        }
    }
    proof {
        match policy {
            Split::Never => {
                assert(moves@ =~= base + take_moves_for_amount(s_idx, amount, height, policy));
            },
            Split::Optional => {
                assert(moves@ =~= base + take_moves_for_amount(s_idx, amount, height, policy));
            },
            Split::Always => {
                assert(moves@ =~= base + take_moves_for_amount(s_idx, amount, height, policy));
            },
        }
    }
}

/// Generate all possible (legal) moves for a given position.
///
/// For each stack and each rule, in order, emits the moves that the rule
/// allows on that stack; `pool_coins` are the two players' pools, consulted
/// by `Place` rules only.
pub fn calculate_legal_moves(
    stacks: &Vec<Stack>,
    rules: &Vec<NimRule>,
    pool_coins: (u64, u64),
) -> (r: Vec<NimAction>)
    requires
        place_splits_never(rules_model(rules@)),
    ensures
        r@ == legal_moves_spec(
            stacks_model(stacks@),
            rules_model(rules@),
            pool_coins.0,
            pool_coins.1,
        ),
{
    let (pool_a, pool_b) = pool_coins;
    let ghost smodel = stacks_model(stacks@);
    let ghost rmodel = rules_model(rules@);
    let mut moves: Vec<NimAction> = Vec::new();
    let mut s_idx: usize = 0;
    while s_idx < stacks.len()
        invariant
            s_idx <= stacks.len(),
            smodel == stacks_model(stacks@),
            rmodel == rules_model(rules@),
            place_splits_never(rmodel),
            moves@ == legal_moves_spec(smodel.take(s_idx as int), rmodel, pool_a, pool_b),
        decreases stacks.len() - s_idx,
    {
        let height = stacks[s_idx].0;
        let ghost stack_base = moves@;
        let mut r_idx: usize = 0;
        while r_idx < rules.len()
            invariant
                r_idx <= rules.len(),
                s_idx < stacks.len(),
                height == smodel[s_idx as int],
                smodel == stacks_model(stacks@),
                rmodel == rules_model(rules@),
                place_splits_never(rmodel),
                moves@ == stack_base + moves_for_stack(
                    rmodel.take(r_idx as int),
                    s_idx,
                    height,
                    pool_a,
                    pool_b,
                ),
            decreases rules.len() - r_idx,
        {
            let ghost rule_base = moves@;
            let rule = &rules[r_idx];
            let policy = rule.split;
            match &rule.take {
                TakeSize::List(amounts) => {
                    let mut j: usize = 0;
                    while j < amounts.len()
                        invariant
                            j <= amounts.len(),
                            rmodel[r_idx as int].take == TakeModel::List(amounts@),
                            rmodel[r_idx as int].split == policy,
                            r_idx < rules.len(),
                            moves@ == rule_base + take_moves_for_list(
                                s_idx,
                                amounts@.take(j as int),
                                height,
                                policy,
                            ),
                        decreases amounts.len() - j,
                    {
                        let a = amounts[j];
                        if a <= height {
                            push_take_moves(&mut moves, s_idx, a, height, policy);
                        }
                        proof {
                            let pfx = amounts@.take(j as int);
                            let pfx1 = amounts@.take(j + 1 as int);
                            assert(pfx1.drop_last() =~= pfx);
                            assert(pfx1.last() == a);
                            if !(a <= height) {
                                assert(moves@ =~= rule_base + take_moves_for_list(
                                    s_idx,
                                    pfx1,
                                    height,
                                    policy,
                                ));
                            }
                        }
                        j = j + 1;
                    }
                    proof {
                        assert(amounts@.take(amounts@.len() as int) =~= amounts@);
                    }
                },
                TakeSize::Any => {
                    let mut a: u64 = 0;
                    while a < height
                        invariant
                            a <= height,
                            rmodel[r_idx as int].take == TakeModel::Any,
                            rmodel[r_idx as int].split == policy,
                            r_idx < rules.len(),
                            moves@ == rule_base + take_moves_for_any(s_idx, a, height, policy),
                        decreases height - a,
                    {
                        a = a + 1;
                        push_take_moves(&mut moves, s_idx, a, height, policy);
                    }
                },
                TakeSize::Place => {
                    proof {
                        assert(rmodel[r_idx as int].take is Place);
                        assert(rmodel[r_idx as int].split is Never);
                    }
                    let mut c: u64 = 0;
                    while c < pool_a
                        invariant
                            c <= pool_a,
                            moves@ == rule_base + place_moves(s_idx, c, Player::A),
                        decreases pool_a - c,
                    {
                        c = c + 1;
                        moves.push(
                            NimAction::Place(
                                PlaceAction { stack_index: s_idx, amount: c, from: Player::A },
                            ),
                        );
                    }
                    let ghost after_a = moves@;
                    let mut c: u64 = 0;
                    while c < pool_b
                        invariant
                            c <= pool_b,
                            moves@ == after_a + place_moves(s_idx, c, Player::B),
                        decreases pool_b - c,
                    {
                        c = c + 1;
                        moves.push(
                            NimAction::Place(
                                PlaceAction { stack_index: s_idx, amount: c, from: Player::B },
                            ),
                        );
                    }
                    proof {
                        assert(moves@ =~= rule_base + (place_moves(s_idx, pool_a, Player::A)
                            + place_moves(s_idx, pool_b, Player::B)));
                    }
                },
            }
            proof {
                let pfx = rmodel.take(r_idx as int);
                let pfx1 = rmodel.take(r_idx + 1 as int);
                assert(pfx1.drop_last() =~= pfx);
                assert(pfx1.last() == rmodel[r_idx as int]);
                assert(moves@ == rule_base + moves_for_rule(
                    s_idx,
                    rmodel[r_idx as int],
                    height,
                    pool_a,
                    pool_b,
                ));
                assert(moves@ =~= stack_base + moves_for_stack(pfx1, s_idx, height, pool_a, pool_b));
            }
            r_idx = r_idx + 1;
        }
        proof {
            assert(rmodel.take(rmodel.len() as int) =~= rmodel);
            let spfx = smodel.take(s_idx as int);
            let spfx1 = smodel.take(s_idx + 1 as int);
            assert(spfx1.drop_last() =~= spfx);
            assert(spfx1.last() == height);
            assert(moves@ =~= legal_moves_spec(spfx1, rmodel, pool_a, pool_b));
        }
        s_idx = s_idx + 1;
    }
    proof {
        assert(smodel.take(smodel.len() as int) =~= smodel);
    }
    moves
}

// ---------------------------------------------------------------------------
// Move generation: membership characterization
// ---------------------------------------------------------------------------

/// `rule` generates the take action `t` on a stack of height `height`:
/// the amount is offered by the rule and fits the stack, and the recorded
/// split obeys the rule's split policy with two ordered non-empty parts
/// that, with the amount, account for the whole stack.
pub open spec fn take_generated(r: RuleModel, t: TakeAction, height: u64) -> bool {
    &&& match r.take {
        TakeModel::List(l) => l.contains(t.amount) && t.amount <= height,
        TakeModel::Any => 1 <= t.amount && t.amount <= height,
        TakeModel::Place => false,
    }
    &&& match t.split {
        NimSplit::No => r.split is Never || r.split is Optional,
        NimSplit::Yes(a, b) => (r.split is Optional || r.split is Always) && 1 <= a.0 && a.0 <= b.0
            && a.0 + b.0 + t.amount == height,
    }
}

/// `rule` generates the action `m` on stack `s_idx` of height `height`,
/// with pools `pool_a` and `pool_b`.
pub open spec fn rule_generates(
    s_idx: usize,
    r: RuleModel,
    height: u64,
    pool_a: u64,
    pool_b: u64,
    m: NimAction,
) -> bool {
    match m {
        NimAction::Take(t) => t.stack_index == s_idx && t.from is None && take_generated(
            r,
            t,
            height,
        ),
        NimAction::Place(p) => p.stack_index == s_idx && r.take is Place && 1 <= p.amount
            && p.amount <= (match p.from {
            Player::A => pool_a,
            Player::B => pool_b,
        }),
    }
}

/// The action `m` is one of the moves the generator produces for the
/// position: it targets an existing stack and some rule generates it there.
pub open spec fn is_generated_move(
    stacks: Seq<u64>,
    rules: Seq<RuleModel>,
    pool_a: u64,
    pool_b: u64,
    m: NimAction,
) -> bool {
    match m {
        NimAction::Take(t) => t.stack_index < stacks.len() && exists|i: int|
            0 <= i < rules.len() && rule_generates(
                t.stack_index,
                #[trigger] rules[i],
                stacks[t.stack_index as int],
                pool_a,
                pool_b,
                m,
            ),
        NimAction::Place(p) => p.stack_index < stacks.len() && exists|i: int|
            0 <= i < rules.len() && rule_generates(
                p.stack_index,
                #[trigger] rules[i],
                stacks[p.stack_index as int],
                pool_a,
                pool_b,
                m,
            ),
    }
}

/// The shape of a take action generated for one amount on one stack: the
/// recorded split obeys the policy, its parts are ordered, non-empty, and
/// account with the amount for the whole stack.
pub open spec fn take_shape(
    m: NimAction,
    s_idx: usize,
    amount: u64,
    height: u64,
    policy: Split,
) -> bool {
    match m {
        NimAction::Take(t) => t.stack_index == s_idx && t.amount == amount && t.from is None
            && match t.split {
            NimSplit::No => policy is Never || policy is Optional,
            NimSplit::Yes(a, b) => (policy is Optional || policy is Always) && 1 <= a.0 && a.0
                <= b.0 && a.0 + b.0 + amount == height,
        },
        NimAction::Place(_) => false,
    }
}

/// The moves generated for one amount are exactly the take actions on that
/// stack with that amount whose split obeys the policy.
proof fn lemma_take_amount_membership(
    s_idx: usize,
    amount: u64,
    height: u64,
    policy: Split,
    m: NimAction,
)
    requires
        amount <= height,
    ensures
        take_moves_for_amount(s_idx, amount, height, policy).contains(m) <==> take_shape(
            m,
            s_idx,
            amount,
            height,
            policy,
        ),
{
    let rem = (height - amount) as u64;
    let f = |sp: NimSplit|
        NimAction::Take(
            TakeAction { stack_index: s_idx, amount: amount, split: sp, from: None },
        );
    let with_split = split_options(rem).map_values(f);
    let no_move = NimAction::Take(
        TakeAction { stack_index: s_idx, amount: amount, split: NimSplit::No, from: None },
    );
    let no_split = seq![no_move];

    // Every element of the mapped split sequence has the Yes-split shape.
    assert forall|k: int| 0 <= k < with_split.len() implies {
        &&& #[trigger] with_split[k] == NimAction::Take(
            TakeAction {
                stack_index: s_idx,
                amount: amount,
                split: NimSplit::Yes(Stack((k + 1) as u64), Stack((rem - k - 1) as u64)),
                from: None,
            },
        )
        &&& 1 <= k + 1
        &&& k + 1 <= rem - k - 1
    } by {
        assert(with_split[k] == f(split_options(rem)[k]));
        assert(k < rem / 2);
    }
    // Conversely, each Yes-split shape appears in it.
    match m {
        NimAction::Take(t) => {
            if t.stack_index == s_idx && t.amount == amount && t.from is None {
                match t.split {
                    NimSplit::Yes(a, b) => {
                        if 1 <= a.0 && a.0 <= b.0 && a.0 + b.0 + amount == height {
                            let k = a.0 - 1;
                            assert(a.0 + b.0 == rem);
                            assert(2 * a.0 <= rem);
                            assert(a.0 <= rem / 2);
                            assert(0 <= k < split_options(rem).len());
                            assert(split_options(rem)[k] == NimSplit::Yes(
                                Stack((k + 1) as u64),
                                Stack((rem - k - 1) as u64),
                            ));
                            assert(with_split[k] == m);
                            assert(with_split.contains(m));
                        }
                    },
                    NimSplit::No => {},
                }
            }
        },
        NimAction::Place(_) => {},
    }
    match policy {
        Split::Never => {
            assert(take_moves_for_amount(s_idx, amount, height, policy) == no_split);
            assert(no_split.contains(m) <==> m == no_split[0]) by {
                if no_split.contains(m) {
                    let k = choose|k: int| 0 <= k < no_split.len() && no_split[k] == m;
                    assert(k == 0);
                } else {
                    assert(no_split[0] == no_move);
                }
            }
        },
        Split::Optional => {
            assert(take_moves_for_amount(s_idx, amount, height, policy) == no_split + with_split);
            assert(no_split.contains(m) <==> m == no_split[0]) by {
                if no_split.contains(m) {
                    let k = choose|k: int| 0 <= k < no_split.len() && no_split[k] == m;
                    assert(k == 0);
                } else {
                    assert(no_split[0] == no_move);
                }
            }
        },
        Split::Always => {
            assert(take_moves_for_amount(s_idx, amount, height, policy) == with_split);
        },
    }
}

/// Membership in the moves of a `List` rule: some listed amount fits the
/// stack and generates the move.
proof fn lemma_take_list_membership(
    s_idx: usize,
    amounts: Seq<u64>,
    height: u64,
    policy: Split,
    m: NimAction,
)
    ensures
        take_moves_for_list(s_idx, amounts, height, policy).contains(m) <==> exists|j: int|
            0 <= j < amounts.len() && (#[trigger] amounts[j]) <= height && take_moves_for_amount(
                s_idx,
                amounts[j],
                height,
                policy,
            ).contains(m),
    decreases amounts.len(),
{
    if amounts.len() == 0 {
        assert(!take_moves_for_list(s_idx, amounts, height, policy).contains(m));
    } else {
        lemma_take_list_membership(s_idx, amounts.drop_last(), height, policy, m);
        let pfx = take_moves_for_list(s_idx, amounts.drop_last(), height, policy);
        let lastpart = if amounts.last() <= height {
            take_moves_for_amount(s_idx, amounts.last(), height, policy)
        } else {
            Seq::<NimAction>::empty()
        };
        assert((pfx + lastpart).contains(m) <==> pfx.contains(m) || lastpart.contains(m));
        if pfx.contains(m) {
            let j = choose|j: int|
                0 <= j < amounts.drop_last().len() && (#[trigger] amounts.drop_last()[j]) <= height
                    && take_moves_for_amount(
                    s_idx,
                    amounts.drop_last()[j],
                    height,
                    policy,
                ).contains(m);
            assert(amounts[j] == amounts.drop_last()[j]);
        }
        if lastpart.contains(m) {
            let j = amounts.len() - 1;
            assert(amounts[j] <= height && take_moves_for_amount(
                s_idx,
                amounts[j],
                height,
                policy,
            ).contains(m));
        }
        if exists|j: int|
            0 <= j < amounts.len() && (#[trigger] amounts[j]) <= height && take_moves_for_amount(
                s_idx,
                amounts[j],
                height,
                policy,
            ).contains(m) {
            let j = choose|j: int|
                0 <= j < amounts.len() && (#[trigger] amounts[j]) <= height
                    && take_moves_for_amount(s_idx, amounts[j], height, policy).contains(m);
            if j < amounts.len() - 1 {
                assert(amounts.drop_last()[j] == amounts[j]);
                assert(pfx.contains(m));
            } else {
                assert(lastpart.contains(m));
            }
        }
    }
}

/// Membership in the moves of an `Any` rule: some amount in `1..=upto`
/// generates the move.
proof fn lemma_take_any_membership(
    s_idx: usize,
    upto: u64,
    height: u64,
    policy: Split,
    m: NimAction,
)
    requires
        upto <= height,
    ensures
        take_moves_for_any(s_idx, upto, height, policy).contains(m) <==> exists|a: u64|
            1 <= a <= upto && #[trigger] take_moves_for_amount(
                s_idx,
                a,
                height,
                policy,
            ).contains(m),
    decreases upto,
{
    if upto == 0 {
        assert(!take_moves_for_any(s_idx, upto, height, policy).contains(m));
    } else {
        lemma_take_any_membership(s_idx, (upto - 1) as u64, height, policy, m);
        let pfx = take_moves_for_any(s_idx, (upto - 1) as u64, height, policy);
        let lastpart = take_moves_for_amount(s_idx, upto, height, policy);
        assert((pfx + lastpart).contains(m) <==> pfx.contains(m) || lastpart.contains(m));
    }
}

/// Membership in the place moves of one pool: the amounts `1..=pool` for
/// that player on that stack.
proof fn lemma_place_membership(s_idx: usize, pool: u64, player: Player, m: NimAction)
    ensures
        place_moves(s_idx, pool, player).contains(m) <==> (m matches NimAction::Place(p)
            && p.stack_index == s_idx && p.from == player && 1 <= p.amount && p.amount <= pool),
    decreases pool,
{
    if pool == 0 {
        assert(!place_moves(s_idx, pool, player).contains(m));
    } else {
        lemma_place_membership(s_idx, (pool - 1) as u64, player, m);
        let pfx = place_moves(s_idx, (pool - 1) as u64, player);
        let act = NimAction::Place(PlaceAction { stack_index: s_idx, amount: pool, from: player });
        assert(place_moves(s_idx, pool, player) == pfx.push(act));
        assert(pfx.push(act).contains(m) <==> pfx.contains(m) || m == act);
    }
}

/// Membership in the moves one rule generates on one stack.
proof fn lemma_moves_for_rule_membership(
    s_idx: usize,
    r: RuleModel,
    height: u64,
    pool_a: u64,
    pool_b: u64,
    m: NimAction,
)
    ensures
        moves_for_rule(s_idx, r, height, pool_a, pool_b).contains(m) <==> rule_generates(
            s_idx,
            r,
            height,
            pool_a,
            pool_b,
            m,
        ),
{
    match r.take {
        TakeModel::List(amounts) => {
            lemma_take_list_membership(s_idx, amounts, height, r.split, m);
            assert forall|j: int|
                0 <= j < amounts.len() && (#[trigger] amounts[j]) <= height implies
                take_moves_for_amount(s_idx, amounts[j], height, r.split).contains(m)
                == take_shape(m, s_idx, amounts[j], height, r.split) by {
                lemma_take_amount_membership(s_idx, amounts[j], height, r.split, m);
            }
            if rule_generates(s_idx, r, height, pool_a, pool_b, m) {
                let t = m->Take_0;
                let j = choose|j: int| 0 <= j < amounts.len() && amounts[j] == t.amount;
                assert(amounts[j] <= height);
                assert(take_shape(m, s_idx, amounts[j], height, r.split));
                assert(take_moves_for_amount(s_idx, amounts[j], height, r.split).contains(m));
            }
            if exists|j: int|
                0 <= j < amounts.len() && (#[trigger] amounts[j]) <= height
                    && take_moves_for_amount(s_idx, amounts[j], height, r.split).contains(m) {
                let j = choose|j: int|
                    0 <= j < amounts.len() && (#[trigger] amounts[j]) <= height
                        && take_moves_for_amount(s_idx, amounts[j], height, r.split).contains(m);
                assert(take_shape(m, s_idx, amounts[j], height, r.split));
                assert(amounts.contains(amounts[j]));
                assert(rule_generates(s_idx, r, height, pool_a, pool_b, m));
            }
        },
        TakeModel::Any => {
            lemma_take_any_membership(s_idx, height, height, r.split, m);
            assert forall|a: u64| 1 <= a <= height implies #[trigger] take_moves_for_amount(
                s_idx,
                a,
                height,
                r.split,
            ).contains(m) == take_shape(m, s_idx, a, height, r.split) by {
                lemma_take_amount_membership(s_idx, a, height, r.split, m);
            }
            if rule_generates(s_idx, r, height, pool_a, pool_b, m) {
                let t = m->Take_0;
                assert(take_shape(m, s_idx, t.amount, height, r.split));
                assert(take_moves_for_amount(s_idx, t.amount, height, r.split).contains(m));
            }
        },
        TakeModel::Place => {
            lemma_place_membership(s_idx, pool_a, Player::A, m);
            lemma_place_membership(s_idx, pool_b, Player::B, m);
            let part_a = place_moves(s_idx, pool_a, Player::A);
            let part_b = place_moves(s_idx, pool_b, Player::B);
            assert((part_a + part_b).contains(m) <==> part_a.contains(m) || part_b.contains(m));
        },
    }
}

/// Membership in the moves all rules generate on one stack.
proof fn lemma_moves_for_stack_membership(
    rules: Seq<RuleModel>,
    s_idx: usize,
    height: u64,
    pool_a: u64,
    pool_b: u64,
    m: NimAction,
)
    ensures
        moves_for_stack(rules, s_idx, height, pool_a, pool_b).contains(m) <==> exists|i: int|
            0 <= i < rules.len() && rule_generates(
                s_idx,
                #[trigger] rules[i],
                height,
                pool_a,
                pool_b,
                m,
            ),
    decreases rules.len(),
{
    if rules.len() == 0 {
        assert(!moves_for_stack(rules, s_idx, height, pool_a, pool_b).contains(m));
    } else {
        lemma_moves_for_stack_membership(rules.drop_last(), s_idx, height, pool_a, pool_b, m);
        lemma_moves_for_rule_membership(s_idx, rules.last(), height, pool_a, pool_b, m);
        let pfx = moves_for_stack(rules.drop_last(), s_idx, height, pool_a, pool_b);
        let lastpart = moves_for_rule(s_idx, rules.last(), height, pool_a, pool_b);
        assert((pfx + lastpart).contains(m) <==> pfx.contains(m) || lastpart.contains(m));
        if pfx.contains(m) {
            let i = choose|i: int|
                0 <= i < rules.drop_last().len() && rule_generates(
                    s_idx,
                    #[trigger] rules.drop_last()[i],
                    height,
                    pool_a,
                    pool_b,
                    m,
                );
            assert(rules[i] == rules.drop_last()[i]);
        }
        if lastpart.contains(m) {
            assert(rule_generates(
                s_idx,
                rules[rules.len() - 1],
                height,
                pool_a,
                pool_b,
                m,
            ));
        }
        if exists|i: int|
            0 <= i < rules.len() && rule_generates(
                s_idx,
                #[trigger] rules[i],
                height,
                pool_a,
                pool_b,
                m,
            ) {
            let i = choose|i: int|
                0 <= i < rules.len() && rule_generates(
                    s_idx,
                    #[trigger] rules[i],
                    height,
                    pool_a,
                    pool_b,
                    m,
                );
            if i < rules.len() - 1 {
                assert(rules.drop_last()[i] == rules[i]);
                assert(pfx.contains(m));
            } else {
                assert(lastpart.contains(m));
            }
        }
    }
}

/// The generator's output characterized as a set: an action appears in the
/// generated sequence exactly when some rule generates it on some existing
/// stack of the position.
pub proof fn lemma_legal_moves_membership(
    stacks: Seq<u64>,
    rules: Seq<RuleModel>,
    pool_a: u64,
    pool_b: u64,
    m: NimAction,
)
    requires
        stacks.len() <= usize::MAX,
    ensures
        legal_moves_spec(stacks, rules, pool_a, pool_b).contains(m) <==> is_generated_move(
            stacks,
            rules,
            pool_a,
            pool_b,
            m,
        ),
    decreases stacks.len(),
{
    if stacks.len() == 0 {
        assert(!legal_moves_spec(stacks, rules, pool_a, pool_b).contains(m));
    } else {
        lemma_legal_moves_membership(stacks.drop_last(), rules, pool_a, pool_b, m);
        lemma_moves_for_stack_membership(
            rules,
            (stacks.len() - 1) as usize,
            stacks.last(),
            pool_a,
            pool_b,
            m,
        );
        let pfx = legal_moves_spec(stacks.drop_last(), rules, pool_a, pool_b);
        let lastpart = moves_for_stack(
            rules,
            (stacks.len() - 1) as usize,
            stacks.last(),
            pool_a,
            pool_b,
        );
        assert((pfx + lastpart).contains(m) <==> pfx.contains(m) || lastpart.contains(m));
        let midx = match m {
            NimAction::Take(t) => t.stack_index,
            NimAction::Place(p) => p.stack_index,
        };
        if pfx.contains(m) {
            assert(midx < stacks.drop_last().len());
            assert(stacks.drop_last()[midx as int] == stacks[midx as int]);
        }
        if lastpart.contains(m) {
            let i = choose|i: int|
                0 <= i < rules.len() && rule_generates(
                    (stacks.len() - 1) as usize,
                    #[trigger] rules[i],
                    stacks.last(),
                    pool_a,
                    pool_b,
                    m,
                );
            assert(midx == stacks.len() - 1);
            assert(stacks[midx as int] == stacks.last());
            assert(is_generated_move(stacks, rules, pool_a, pool_b, m));
        }
        if is_generated_move(stacks, rules, pool_a, pool_b, m) {
            if midx == stacks.len() - 1 {
                assert(stacks[midx as int] == stacks.last());
                assert(lastpart.contains(m));
            } else {
                assert(stacks.drop_last()[midx as int] == stacks[midx as int]);
                assert(is_generated_move(stacks.drop_last(), rules, pool_a, pool_b, m));
                assert(pfx.contains(m));
            }
        }
    }
}

// ---------------------------------------------------------------------------
// Move validation
// ---------------------------------------------------------------------------

/// The rule's take-size axis offers taking exactly `amount` coins
/// (irrespective of any stack height).
pub open spec fn rule_supports_amount(r: RuleModel, amount: u64) -> bool {
    match r.take {
        TakeModel::List(l) => l.contains(amount),
        TakeModel::Any => true,
        TakeModel::Place => false,
    }
}

/// The proposed split is compatible with a rule's split policy, for a take
/// of `amount` coins from a stack of height `height`: `Never` demands no
/// split; `Always` demands a split; a split has two non-empty parts that sum
/// with the amount to the original height.
pub open spec fn split_allowed(policy: Split, split: NimSplit, amount: u64, height: u64) -> bool {
    match policy {
        Split::Never => split is No,
        Split::Optional => match split {
            NimSplit::No => true,
            NimSplit::Yes(a, b) => 1 <= a.0 && 1 <= b.0 && a.0 + b.0 + amount == height,
        },
        Split::Always => match split {
            NimSplit::No => false,
            NimSplit::Yes(a, b) => 1 <= a.0 && 1 <= b.0 && a.0 + b.0 + amount == height,
        },
    }
}

/// The pool of the given player.
pub open spec fn coins_of(g: crate::game::GameModel, p: Player) -> u64 {
    match p {
        Player::A => g.coins_a,
        Player::B => g.coins_b,
    }
}

/// What validating a take action returns, in order of precedence: the stack
/// must exist; some rule must offer the amount; the stack must hold at least
/// the amount; and some rule offering the amount must accept the proposed
/// split.
pub open spec fn check_take_spec(g: crate::game::GameModel, t: TakeAction) -> Result<
    (),
    MoveError,
> {
    if t.stack_index >= g.stacks.len() {
        Err(MoveError::NoSuchStack)
    } else if !(exists|i: int|
        0 <= i < g.rules.len() && rule_supports_amount(#[trigger] g.rules[i], t.amount)) {
        Err(MoveError::NoSuchRule)
    } else if g.stacks[t.stack_index as int] < t.amount {
        Err(MoveError::NotEnoughCoinsOnStack)
    } else if !(exists|i: int|
        0 <= i < g.rules.len() && rule_supports_amount(#[trigger] g.rules[i], t.amount)
            && split_allowed(
            g.rules[i].split,
            t.split,
            t.amount,
            g.stacks[t.stack_index as int],
        )) {
        Err(MoveError::InvalidSplit)
    } else {
        Ok(())
    }
}

/// What validating a place action returns, in order of precedence: some rule
/// must offer placing; the stack must exist; and the source player's pool
/// must hold at least the amount.
pub open spec fn check_place_spec(g: crate::game::GameModel, p: PlaceAction) -> Result<
    (),
    MoveError,
> {
    if !(exists|i: int| 0 <= i < g.rules.len() && (#[trigger] g.rules[i]).take is Place) {
        Err(MoveError::NoSuchRule)
    } else if p.stack_index >= g.stacks.len() {
        Err(MoveError::NoSuchStack)
    } else if coins_of(g, p.from) < p.amount {
        Err(MoveError::NotEnoughCoinsOnPlayer)
    } else {
        Ok(())
    }
}

/// What validating a move returns.
pub open spec fn check_move_spec(g: crate::game::GameModel, m: NimAction) -> Result<
    (),
    MoveError,
> {
    match m {
        NimAction::Take(t) => check_take_spec(g, t),
        NimAction::Place(p) => check_place_spec(g, p),
    }
}

/// Does `v` hold `x`?
pub(crate) fn vec_contains_u64(v: &Vec<u64>, x: u64) -> (r: bool)
    ensures
        r == v@.contains(x),
{
    let mut i: usize = 0;
    while i < v.len()
        invariant
            i <= v.len(),
            forall|k: int| 0 <= k < i ==> v@[k] != x,
        decreases v.len() - i,
    {
        if v[i] == x {
            return true;
        }
        i = i + 1;
    }
    false
}

/// Does the rule offer taking exactly `amount` coins?
fn rule_supports_amount_exec(rule: &NimRule, amount: u64) -> (r: bool)
    ensures
        r == rule_supports_amount(crate::game::rule_model(*rule), amount),
{
    match &rule.take {
        TakeSize::List(list) => vec_contains_u64(list, amount),
        TakeSize::Any => true,
        TakeSize::Place => false,
    }
}

/// Is the proposed split compatible with the policy?
fn split_allowed_exec(policy: Split, split: NimSplit, amount: u64, height: u64) -> (r: bool)
    ensures
        r == split_allowed(policy, split, amount, height),
{
    match policy {
        Split::Never => matches!(split, NimSplit::No),
        Split::Optional => match split {
            NimSplit::No => true,
            NimSplit::Yes(a, b) => a.0 >= 1 && b.0 >= 1 && amount <= height && a.0 <= height
                - amount && b.0 == height - amount - a.0,
        },
        Split::Always => match split {
            NimSplit::No => false,
            NimSplit::Yes(a, b) => a.0 >= 1 && b.0 >= 1 && amount <= height && a.0 <= height
                - amount && b.0 == height - amount - a.0,
        },
    }
}

/// Determine if a move is valid for a given position.
///
/// Returns `Ok(())` if the move is valid, or the error that explains why it
/// is not (see [`MoveError`] and [`check_move_spec`]). Has no side effects.
pub fn check_move(game: &NimGame, mov: &NimAction) -> (r: Result<(), MoveError>)
    ensures
        r == check_move_spec(game@, *mov),
{
    let ghost g = game@;
    match mov {
        NimAction::Take(t) => {
            if t.stack_index >= game.stacks.len() {
                return Err(MoveError::NoSuchStack);
            }
            let height = game.stacks[t.stack_index].0;
            let mut found_support = false;
            let mut found_valid = false;
            let mut i: usize = 0;
            while i < game.rules.len()
                invariant
                    i <= game.rules.len(),
                    g == game@,
                    t.stack_index < game.stacks.len(),
                    height == g.stacks[t.stack_index as int],
                    found_support == exists|k: int|
                        0 <= k < i && rule_supports_amount(#[trigger] g.rules[k], t.amount),
                    found_valid == exists|k: int|
                        0 <= k < i && rule_supports_amount(#[trigger] g.rules[k], t.amount)
                            && split_allowed(g.rules[k].split, t.split, t.amount, height),
                decreases game.rules.len() - i,
            {
                let ghost pre_fs = found_support;
                let ghost pre_fv = found_valid;
                let rule = &game.rules[i];
                let supports = rule_supports_amount_exec(rule, t.amount);
                let allowed = split_allowed_exec(rule.split, t.split, t.amount, height);
                if supports {
                    found_support = true;
                    if allowed {
                        found_valid = true;
                    }
                }
                proof {
                    assert(g.rules[i as int] == crate::game::rule_model(game.rules@[i as int]));
                    assert(found_support == exists|k: int|
                        0 <= k < i + 1 && rule_supports_amount(
                            #[trigger] g.rules[k],
                            t.amount,
                        )) by {
                        if pre_fs {
                            let k = choose|k: int|
                                0 <= k < i && rule_supports_amount(
                                    #[trigger] g.rules[k],
                                    t.amount,
                                );
                            assert(rule_supports_amount(g.rules[k], t.amount));
                        } else if supports {
                            assert(rule_supports_amount(g.rules[i as int], t.amount));
                        } else {
                            assert forall|k: int| 0 <= k < i + 1 implies !rule_supports_amount(
                                #[trigger] g.rules[k],
                                t.amount,
                            ) by {
                                if k < i {
                                    assert(!(exists|j: int|
                                        0 <= j < i && rule_supports_amount(
                                            #[trigger] g.rules[j],
                                            t.amount,
                                        )));
                                }
                            }
                        }
                    }
                    assert(found_valid == exists|k: int|
                        0 <= k < i + 1 && rule_supports_amount(#[trigger] g.rules[k], t.amount)
                            && split_allowed(g.rules[k].split, t.split, t.amount, height)) by {
                        if pre_fv {
                            let k = choose|k: int|
                                0 <= k < i && rule_supports_amount(#[trigger] g.rules[k], t.amount)
                                    && split_allowed(g.rules[k].split, t.split, t.amount, height);
                            assert(rule_supports_amount(g.rules[k], t.amount) && split_allowed(
                                g.rules[k].split,
                                t.split,
                                t.amount,
                                height,
                            ));
                        } else if supports && allowed {
                            assert(rule_supports_amount(g.rules[i as int], t.amount)
                                && split_allowed(
                                g.rules[i as int].split,
                                t.split,
                                t.amount,
                                height,
                            ));
                        } else {
                            assert forall|k: int| 0 <= k < i + 1 implies !(rule_supports_amount(
                                #[trigger] g.rules[k],
                                t.amount,
                            ) && split_allowed(g.rules[k].split, t.split, t.amount, height)) by {
                                if k < i {
                                    assert(!(exists|j: int|
                                        0 <= j < i && rule_supports_amount(
                                            #[trigger] g.rules[j],
                                            t.amount,
                                        ) && split_allowed(
                                            g.rules[j].split,
                                            t.split,
                                            t.amount,
                                            height,
                                        )));
                                }
                            }
                        }
                    }
                }
                i = i + 1;
            }
            if !found_support {
                Err(MoveError::NoSuchRule)
            } else if height < t.amount {
                Err(MoveError::NotEnoughCoinsOnStack)
            } else if !found_valid {
                Err(MoveError::InvalidSplit)
            } else {
                Ok(())
            }
        },
        NimAction::Place(p) => {
            let mut any_place = false;
            let mut i: usize = 0;
            while i < game.rules.len()
                invariant
                    i <= game.rules.len(),
                    g == game@,
                    any_place == exists|k: int|
                        0 <= k < i && (#[trigger] g.rules[k]).take is Place,
                decreases game.rules.len() - i,
            {
                let ghost pre_ap = any_place;
                let is_place = matches!(&game.rules[i].take, TakeSize::Place);
                if is_place {
                    any_place = true;
                }
                proof {
                    assert(g.rules[i as int] == crate::game::rule_model(game.rules@[i as int]));
                    assert(is_place == g.rules[i as int].take is Place);
                    assert(any_place == exists|k: int|
                        0 <= k < i + 1 && (#[trigger] g.rules[k]).take is Place) by {
                        if pre_ap {
                            let k = choose|k: int|
                                0 <= k < i && (#[trigger] g.rules[k]).take is Place;
                            assert(g.rules[k].take is Place);
                        } else if is_place {
                            assert(g.rules[i as int].take is Place);
                        } else {
                            assert forall|k: int| 0 <= k < i + 1 implies !((
                            #[trigger] g.rules[k]).take is Place) by {
                                if k < i {
                                    assert(!(exists|j: int|
                                        0 <= j < i && (#[trigger] g.rules[j]).take is Place));
                                }
                            }
                        }
                    }
                }
                i = i + 1;
            }
            if !any_place {
                return Err(MoveError::NoSuchRule);
            }
            if p.stack_index >= game.stacks.len() {
                return Err(MoveError::NoSuchStack);
            }
            let pool = match p.from {
                Player::A => game.coins_a,
                Player::B => game.coins_b,
            };
            if pool < p.amount {
                return Err(MoveError::NotEnoughCoinsOnPlayer);
            }
            Ok(())
        },
    }
}

// ---------------------------------------------------------------------------
// Move application
// ---------------------------------------------------------------------------

/// The position after a take action: the amount leaves the stack; a recorded
/// split replaces the stack by its two parts, in order, all other stacks
/// keeping their relative order; a recorded source pool is credited with the
/// taken coins.
pub open spec fn apply_take_spec(
    g: crate::game::GameModel,
    t: TakeAction,
) -> crate::game::GameModel {
    let height = g.stacks[t.stack_index as int];
    let stacks1 = match t.split {
        NimSplit::No => g.stacks.update(t.stack_index as int, (height - t.amount) as u64),
        NimSplit::Yes(a, b) => g.stacks.take(t.stack_index as int) + seq![a.0, b.0]
            + g.stacks.skip(t.stack_index as int + 1),
    };
    let g1 = crate::game::GameModel { stacks: stacks1, ..g };
    match t.from {
        Option::None => g1,
        Option::Some(Player::A) => crate::game::GameModel {
            coins_a: (g1.coins_a + t.amount) as u64,
            ..g1
        },
        Option::Some(Player::B) => crate::game::GameModel {
            coins_b: (g1.coins_b + t.amount) as u64,
            ..g1
        },
    }
}

/// The position after a place action: the amount moves from the source
/// player's pool onto the stack (token conservation).
pub open spec fn apply_place_spec(
    g: crate::game::GameModel,
    p: PlaceAction,
) -> crate::game::GameModel {
    let height = g.stacks[p.stack_index as int];
    let stacks1 = g.stacks.update(p.stack_index as int, (height + p.amount) as u64);
    match p.from {
        Player::A => crate::game::GameModel {
            stacks: stacks1,
            coins_a: (g.coins_a - p.amount) as u64,
            ..g
        },
        Player::B => crate::game::GameModel {
            stacks: stacks1,
            coins_b: (g.coins_b - p.amount) as u64,
            ..g
        },
    }
}

/// The position after a move.
pub open spec fn apply_move_spec(
    g: crate::game::GameModel,
    m: NimAction,
) -> crate::game::GameModel {
    match m {
        NimAction::Take(t) => apply_take_spec(g, t),
        NimAction::Place(p) => apply_place_spec(g, p),
    }
}

/// The stack index an action targets.
pub open spec fn move_stack_index(m: NimAction) -> usize {
    match m {
        NimAction::Take(t) => t.stack_index,
        NimAction::Place(p) => p.stack_index,
    }
}

/// What an unchecked application demands of a move that targets an existing
/// stack: taking may not exceed the stack, placing may not exceed the source
/// pool, and the pool credit / stack growth may not overflow. (On such
/// inputs the application would otherwise fail an internal arithmetic
/// consistency check.)
pub open spec fn apply_preconditions(g: crate::game::GameModel, m: NimAction) -> bool {
    match m {
        NimAction::Take(t) => t.stack_index < g.stacks.len() ==> {
            &&& t.amount <= g.stacks[t.stack_index as int]
            &&& (t.from matches Some(p) ==> coins_of(g, p) + t.amount <= u64::MAX)
        },
        NimAction::Place(p) => p.stack_index < g.stacks.len() ==> {
            &&& coins_of(g, p.from) >= p.amount
            &&& g.stacks[p.stack_index as int] + p.amount <= u64::MAX
        },
    }
}

/// What a checked application demands beyond validation: the two sums that
/// validation does not bound (crediting a source pool after a take; growing
/// a stack by a place) stay within `u64`.
pub open spec fn apply_no_overflow(g: crate::game::GameModel, m: NimAction) -> bool {
    check_move_spec(g, m) is Ok ==> match m {
        NimAction::Take(t) => t.from matches Some(p) ==> coins_of(g, p) + t.amount <= u64::MAX,
        NimAction::Place(p) => g.stacks[p.stack_index as int] + p.amount <= u64::MAX,
    }
}

/// The implementation of [`apply_move`] and [`apply_move_unchecked`].
fn apply_move_(game: &mut NimGame, mov: &NimAction, unchecked: bool) -> (r: Result<(), MoveError>)
    requires
        unchecked ==> apply_preconditions(old(game)@, *mov),
        !unchecked ==> apply_no_overflow(old(game)@, *mov),
    ensures
        unchecked ==> (if move_stack_index(*mov) < old(game)@.stacks.len() {
            r == Ok::<(), MoveError>(()) && final(game)@ == apply_move_spec(old(game)@, *mov)
        } else {
            r == Err::<(), MoveError>(MoveError::NoSuchStack) && final(game)@ == old(game)@
        }),
        !unchecked ==> (match check_move_spec(old(game)@, *mov) {
            Ok(()) => r == Ok::<(), MoveError>(()) && final(game)@ == apply_move_spec(
                old(game)@,
                *mov,
            ),
            Err(e) => r == Err::<(), MoveError>(e) && final(game)@ == old(game)@,
        }),
{
    let ghost g0 = game@;
    if !unchecked {
        let checked = check_move(game, mov);
        if let Err(e) = checked {
            return Err(e);
        }
    }
    match mov {
        NimAction::Take(t) => {
            if t.stack_index >= game.stacks.len() {
                return Err(MoveError::NoSuchStack);
            }
            let height = game.stacks[t.stack_index].0;
            proof {
                if !unchecked {
                    assert(check_take_spec(g0, *t) is Ok);
                    assert(g0.stacks[t.stack_index as int] >= t.amount);
                }
            }
            game.stacks[t.stack_index] = Stack(height - t.amount);
            if let NimSplit::Yes(a, b) = t.split {
                game.stacks[t.stack_index] = a;
                game.stacks.insert(t.stack_index + 1, b);
            }
            if let Some(player) = t.from {
                match player {
                    Player::A => {
                        game.coins_a = game.coins_a + t.amount;
                    },
                    Player::B => {
                        game.coins_b = game.coins_b + t.amount;
                    },
                }
            }
            proof {
                assert(game@.stacks =~= apply_take_spec(g0, *t).stacks);
                assert(game@ =~~= apply_take_spec(g0, *t));
            }
            Ok(())
        },
        NimAction::Place(p) => {
            if p.stack_index >= game.stacks.len() {
                return Err(MoveError::NoSuchStack);
            }
            proof {
                if !unchecked {
                    assert(check_place_spec(g0, *p) is Ok);
                }
            }
            let height = game.stacks[p.stack_index].0;
            game.stacks[p.stack_index] = Stack(height + p.amount);
            match p.from {
                Player::A => {
                    game.coins_a = game.coins_a - p.amount;
                },
                Player::B => {
                    game.coins_b = game.coins_b - p.amount;
                },
            }
            proof {
                assert(game@.stacks =~= apply_place_spec(g0, *p).stacks);
                assert(game@ =~~= apply_place_spec(g0, *p));
            }
            Ok(())
        },
    }
}

/// Applies a move to a position, if the move is valid.
///
/// The validity of the move is checked with [`check_move`] before applying
/// it: on `Ok` the game was rewritten to [`apply_move_spec`] of the old
/// position; on `Err` the game is unchanged and the error explains why the
/// move is invalid.
pub fn apply_move(game: &mut NimGame, mov: &NimAction) -> (r: Result<(), MoveError>)
    requires
        apply_no_overflow(old(game)@, *mov),
    ensures
        match check_move_spec(old(game)@, *mov) {
            Ok(()) => r == Ok::<(), MoveError>(()) && final(game)@ == apply_move_spec(
                old(game)@,
                *mov,
            ),
            Err(e) => r == Err::<(), MoveError>(e) && final(game)@ == old(game)@,
        },
{
    apply_move_(game, mov, false)
}

// ---------------------------------------------------------------------------
// Laws: move counts and generator/validator/applier consistency
// ---------------------------------------------------------------------------

/// Under `Any`/`Never`, each amount contributes exactly one move.
proof fn lemma_any_never_count(s_idx: usize, upto: u64, height: u64)
    ensures
        take_moves_for_any(s_idx, upto, height, Split::Never).len() == upto,
    decreases upto,
{
    if upto > 0 {
        lemma_any_never_count(s_idx, (upto - 1) as u64, height);
    }
}

/// The rule "take any amount, never split" yields exactly `h` legal moves
/// on every pile of height `h`; on `k` such piles it yields exactly `k * h`
/// moves.
pub proof fn lemma_move_count_any_never(stacks: Seq<u64>, h: u64)
    requires
        forall|i: int| 0 <= i < stacks.len() ==> stacks[i] == h,
        stacks.len() <= usize::MAX,
    ensures
        legal_moves_spec(
            stacks,
            seq![RuleModel { take: TakeModel::Any, split: Split::Never }],
            0,
            0,
        ).len() == stacks.len() * h,
    decreases stacks.len(),
{
    reveal_with_fuel(moves_for_stack, 2);
    reveal_with_fuel(legal_moves_spec, 2);
    let rules = seq![RuleModel { take: TakeModel::Any, split: Split::Never }];
    if stacks.len() == 0 {
    } else {
        lemma_move_count_any_never(stacks.drop_last(), h);
        assert(rules.drop_last() =~= Seq::<RuleModel>::empty());
        lemma_any_never_count((stacks.len() - 1) as usize, h, h);
        assert(moves_for_stack(rules, (stacks.len() - 1) as usize, stacks.last(), 0, 0).len()
            == h);
        assert((stacks.len() - 1) * h + h == stacks.len() * h) by (nonlinear_arith);
    }
}

/// The rule "take 1, 2 or 3, never split" yields exactly `min(h, 3)` legal
/// moves on a single pile of height `h`.
pub proof fn lemma_move_count_list123_never(h: u64)
    ensures
        legal_moves_spec(
            seq![h],
            seq![
                RuleModel {
                    take: TakeModel::List(seq![1u64, 2u64, 3u64]),
                    split: Split::Never,
                },
            ],
            0,
            0,
        ).len() == (if h >= 3 {
            3int
        } else {
            h as int
        }),
{
    reveal_with_fuel(moves_for_stack, 2);
    reveal_with_fuel(legal_moves_spec, 2);
    reveal_with_fuel(take_moves_for_list, 4);
    let rules = seq![
        RuleModel { take: TakeModel::List(seq![1u64, 2u64, 3u64]), split: Split::Never },
    ];
    let stacks = seq![h];
    assert(stacks.drop_last() =~= Seq::<u64>::empty());
    assert(rules.drop_last() =~= Seq::<RuleModel>::empty());
    let l3 = seq![1u64, 2u64, 3u64];
    let l2 = seq![1u64, 2u64];
    let l1 = seq![1u64];
    let l0 = Seq::<u64>::empty();
    assert(l3.drop_last() =~= l2);
    assert(l3.last() == 3u64);
    assert(l2.drop_last() =~= l1);
    assert(l2.last() == 2u64);
    assert(l1.drop_last() =~= l0);
    assert(l1.last() == 1u64);
    assert(take_moves_for_list(0, l0, h, Split::Never).len() == 0);
    assert(take_moves_for_list(0, l1, h, Split::Never).len() == (if 1u64 <= h {
        1int
    } else {
        0int
    }));
    assert(take_moves_for_list(0, l2, h, Split::Never).len() == (if 2u64 <= h {
        1int
    } else {
        0int
    }) + (if 1u64 <= h {
        1int
    } else {
        0int
    }));
}

/// Every move the generator produces for a position is valid for that
/// position: checking it succeeds.
pub proof fn lemma_generated_moves_check_ok(g: crate::game::GameModel, m: NimAction)
    requires
        is_generated_move(g.stacks, g.rules, g.coins_a, g.coins_b, m),
    ensures
        check_move_spec(g, m) == Ok::<(), MoveError>(()),
{
    match m {
        NimAction::Take(t) => {
            let h = g.stacks[t.stack_index as int];
            let i = choose|i: int|
                0 <= i < g.rules.len() && rule_generates(
                    t.stack_index,
                    #[trigger] g.rules[i],
                    h,
                    g.coins_a,
                    g.coins_b,
                    m,
                );
            assert(take_generated(g.rules[i], t, h));
            assert(rule_supports_amount(g.rules[i], t.amount));
            assert(t.amount <= h);
            assert(split_allowed(g.rules[i].split, t.split, t.amount, h));
        },
        NimAction::Place(p) => {
            let h = g.stacks[p.stack_index as int];
            let i = choose|i: int|
                0 <= i < g.rules.len() && rule_generates(
                    p.stack_index,
                    #[trigger] g.rules[i],
                    h,
                    g.coins_a,
                    g.coins_b,
                    m,
                );
            assert(g.rules[i].take is Place);
            assert(coins_of(g, p.from) >= p.amount);
        },
    }
}

/// Applying a generated move only changes what it targets: a take rewrites
/// the targeted stack (or replaces it by its two parts, all other stacks
/// keeping their relative order) and leaves both pools alone; a place moves
/// coins from the source pool onto the targeted stack and leaves the other
/// pool alone. The rules are never touched.
pub proof fn lemma_apply_frame(g: crate::game::GameModel, m: NimAction)
    requires
        is_generated_move(g.stacks, g.rules, g.coins_a, g.coins_b, m),
    ensures
        apply_move_spec(g, m).rules == g.rules,
        match m {
            NimAction::Take(t) => {
                let g2 = apply_move_spec(g, m);
                &&& g2.coins_a == g.coins_a
                &&& g2.coins_b == g.coins_b
                &&& match t.split {
                    NimSplit::No => g2.stacks == g.stacks.update(
                        t.stack_index as int,
                        (g.stacks[t.stack_index as int] - t.amount) as u64,
                    ),
                    NimSplit::Yes(a, b) => {
                        &&& g2.stacks.len() == g.stacks.len() + 1
                        &&& forall|j: int|
                            0 <= j < t.stack_index ==> g2.stacks[j] == g.stacks[j]
                        &&& g2.stacks[t.stack_index as int] == a.0
                        &&& g2.stacks[t.stack_index as int + 1] == b.0
                        &&& forall|j: int|
                            t.stack_index + 1 < j < g2.stacks.len() ==> g2.stacks[j]
                                == g.stacks[j - 1]
                    },
                }
            },
            NimAction::Place(p) => {
                let g2 = apply_move_spec(g, m);
                &&& g2.stacks == g.stacks.update(
                    p.stack_index as int,
                    (g.stacks[p.stack_index as int] + p.amount) as u64,
                )
                &&& (p.from is A ==> g2.coins_a == g.coins_a - p.amount && g2.coins_b
                    == g.coins_b)
                &&& (p.from is B ==> g2.coins_b == g.coins_b - p.amount && g2.coins_a
                    == g.coins_a)
            },
        },
{
    match m {
        NimAction::Take(t) => {
            let h = g.stacks[t.stack_index as int];
            let i = choose|i: int|
                0 <= i < g.rules.len() && rule_generates(
                    t.stack_index,
                    #[trigger] g.rules[i],
                    h,
                    g.coins_a,
                    g.coins_b,
                    m,
                );
            assert(take_generated(g.rules[i], t, h));
            assert(t.from is None);
            match t.split {
                NimSplit::No => {},
                NimSplit::Yes(a, b) => {
                    let g2 = apply_move_spec(g, m);
                    let idx = t.stack_index as int;
                    assert(g2.stacks == g.stacks.take(idx) + seq![a.0, b.0] + g.stacks.skip(
                        idx + 1,
                    ));
                    assert(g2.stacks.len() == g.stacks.len() + 1);
                    assert forall|j: int| 0 <= j < t.stack_index implies g2.stacks[j]
                        == g.stacks[j] by {
                        assert(g2.stacks[j] == g.stacks.take(idx)[j]);
                    }
                    assert(g2.stacks[idx] == a.0);
                    assert(g2.stacks[idx + 1] == b.0);
                    assert forall|j: int|
                        t.stack_index + 1 < j < g2.stacks.len() implies g2.stacks[j] == g.stacks[j
                        - 1] by {
                        assert(g2.stacks[j] == g.stacks.skip(idx + 1)[j - idx - 2]);
                    }
                },
            }
        },
        NimAction::Place(p) => {},
    }
}

/// Applies a move to a position without validating it first.
///
/// For trusted callers that have already validated the move or intentionally
/// want to bypass checks; the bounds check on the stack index still applies
/// and fails with [`MoveError::NoSuchStack`] rather than corrupt state.
pub fn apply_move_unchecked(game: &mut NimGame, mov: &NimAction) -> (r: Result<(), MoveError>)
    requires
        apply_preconditions(old(game)@, *mov),
    ensures
        move_stack_index(*mov) < old(game)@.stacks.len() ==> r == Ok::<(), MoveError>(())
            && final(game)@ == apply_move_spec(old(game)@, *mov),
        move_stack_index(*mov) >= old(game)@.stacks.len() ==> r == Err::<(), MoveError>(
            MoveError::NoSuchStack,
        ) && final(game)@ == old(game)@,
{
    apply_move_(game, mov, true)
}

} // verus!

