//! The primary game structs: stacks, nimbers, rules and positions, together
//! with the mathematical models that the contracts of the whole crate are
//! stated over.

use vstd::prelude::*;

verus! {

/// Represents a stack of coins; specifically its height.
/// Simply wraps a [u64].
#[derive(Copy, Clone, Debug, PartialEq, Eq, PartialOrd, Ord, Hash, Structural)]
pub struct Stack(pub u64);

/// A nimber (Grundy value).
/// Simply wraps a [u64].
#[derive(Copy, Clone, Debug, PartialEq, Eq, PartialOrd, Ord, Hash, Structural)]
pub struct Nimber(pub u64);

impl core::ops::BitXor for Nimber {
    type Output = Nimber;

    /// Combine two nimbers with the group operation of Sprague-Grundy
    /// theory: bitwise XOR.
    fn bitxor(self, rhs: Nimber) -> Nimber {
        Nimber(self.0 ^ rhs.0)
    }
}

impl vstd::std_specs::ops::BitXorSpecImpl for Nimber {
    open spec fn obeys_bitxor_spec() -> bool {
        true
    }

    open spec fn bitxor_req(self, rhs: Nimber) -> bool {
        true
    }

    open spec fn bitxor_spec(self, rhs: Nimber) -> Nimber {
        Nimber(self.0 ^ rhs.0)
    }
}

impl PartialEq<u64> for Nimber {
    /// A nimber equals a plain integer when it wraps exactly that value.
    fn eq(&self, other: &u64) -> bool {
        self.0 == *other
    }
}

impl vstd::std_specs::cmp::PartialEqSpecImpl<u64> for Nimber {
    open spec fn obeys_eq_spec() -> bool {
        true
    }

    open spec fn eq_spec(&self, other: &u64) -> bool {
        self.0 == *other
    }
}

/// One of the two players of a Nim game; owner of a coin pool.
#[derive(Copy, Clone, Debug, PartialEq, Eq, PartialOrd, Ord, Hash, Structural)]
pub enum Player {
    /// The first player
    A,
    /// The second player
    B,
}

/// Specifies if a player may/must split a stack into two non-empty stacks
/// after taking coins.
#[derive(Copy, Clone, Debug, PartialEq, Eq, PartialOrd, Ord, Hash, Structural)]
pub enum Split {
    /// Splitting the stack is not allowed
    Never,
    /// The stack may be split into two non-empty stacks after taking coins
    Optional,
    /// The stack must be split into two non-empty stacks after taking coins
    Always,
}

impl core::convert::From<bool> for Split {
    /// `true` maps to `Always`, `false` to `Never`.
    fn from(b: bool) -> (r: Split)
        ensures
            r == (if b {
                Split::Always
            } else {
                Split::Never
            }),
    {
        if b {
            Split::Always
        } else {
            Split::Never
        }
    }
}

impl vstd::std_specs::convert::FromSpecImpl<bool> for Split {
    open spec fn obeys_from_spec() -> bool {
        true
    }

    open spec fn from_spec(b: bool) -> Split {
        if b {
            Split::Always
        } else {
            Split::Never
        }
    }
}

/// Specifies the number of coins that can be taken from a stack in a single
/// move according to a rule.
#[derive(Clone, Debug, PartialEq, Eq, PartialOrd, Ord, Hash)]
pub enum TakeSize {
    /// A list of possible numbers of coins which may be taken from a stack in
    /// a single move, if enough coins are available. All amounts are positive.
    ///
    /// E.g. `[1, 2, 3]`, `[3, 6, 10]`, or `[42]`
    List(Vec<u64>),
    /// Any number of coins from 1 up to the stack height may be taken.
    Any,
    /// The player may place coins into the stack from their pool (none are
    /// taken); for use with Poker-Nim.
    Place,
}

/// A rule for a Nim game.
/// This struct specifies a family of possible moves for a player.
#[derive(Clone, Debug, PartialEq, Eq, PartialOrd, Ord, Hash)]
pub struct NimRule {
    /// Specifies the number of coins that can be taken from a stack in a
    /// single move
    pub take: TakeSize,
    /// Specifies whether the player may/must split a stack into two stacks
    pub split: Split,
}

/// The mathematical model of a [TakeSize]: the list variant carries the
/// abstract sequence of its amounts, so that two rule values with equal
/// contents have equal models.
#[verifier::ext_equal]
pub enum TakeModel {
    /// Model of [TakeSize::List]
    List(Seq<u64>),
    /// Model of [TakeSize::Any]
    Any,
    /// Model of [TakeSize::Place]
    Place,
}

/// The mathematical model of a [NimRule].
#[verifier::ext_equal]
pub struct RuleModel {
    /// Model of the take-size axis of the rule
    pub take: TakeModel,
    /// The split policy of the rule
    pub split: Split,
}

/// The model of a single rule.
pub open spec fn rule_model(r: NimRule) -> RuleModel {
    RuleModel {
        take: match r.take {
            TakeSize::List(l) => TakeModel::List(l@),
            TakeSize::Any => TakeModel::Any,
            TakeSize::Place => TakeModel::Place,
        },
        split: r.split,
    }
}

/// The model of a rule set: the models of its rules, in order.
pub open spec fn rules_model(rs: Seq<NimRule>) -> Seq<RuleModel> {
    rs.map_values(|r: NimRule| rule_model(r))
}

/// The model of a position: the heights of its stacks, in order.
pub open spec fn stacks_model(ss: Seq<Stack>) -> Seq<u64> {
    ss.map_values(|s: Stack| s.0)
}

/// Every amount a `List` rule offers is positive, as the data model asks.
/// (An amount of zero would let a move leave the position unchanged.)
pub open spec fn take_amounts_positive(rules: Seq<RuleModel>) -> bool {
    forall|i: int|
        0 <= i < rules.len() ==> match (#[trigger] rules[i]).take {
            TakeModel::List(l) => forall|j: int| 0 <= j < l.len() ==> (#[trigger] l[j]) >= 1,
            TakeModel::Any => true,
            TakeModel::Place => true,
        }
}

/// No rule combines placing coins with a split policy other than `Never`:
/// a split has no meaning for a move that removes nothing.
pub open spec fn place_splits_never(rules: Seq<RuleModel>) -> bool {
    forall|i: int|
        0 <= i < rules.len() ==> ((#[trigger] rules[i]).take is Place ==> rules[i].split is Never)
}

/// A well-formed rule set: list amounts are positive and place rules never
/// ask for a split.
pub open spec fn rules_well_formed(rules: Seq<RuleModel>) -> bool {
    take_amounts_positive(rules) && place_splits_never(rules)
}

/// A Nim move, generally represented, not connected to a position or a
/// specific game: it references stacks only by index.
#[derive(Clone, Debug, PartialEq, Eq, PartialOrd, Ord, Hash)]
pub enum NimAction {
    /// A move which takes coins from a stack, possibly splitting it
    Take(TakeAction),
    /// A move which places coins onto a stack from the player's pool;
    /// for use with Poker-Nim
    Place(PlaceAction),
}

/// A move which takes coins from a stack
/// (placing them into the player's pool, when used with Poker-Nim).
#[derive(Clone, Debug, PartialEq, Eq, PartialOrd, Ord, Hash)]
pub struct TakeAction {
    /// The index of the stack to take coins from
    pub stack_index: usize,
    /// The number of coins to take from the stack
    pub amount: u64,
    /// If (and possibly how) the stack should be split after taking coins
    pub split: NimSplit,
    /// The pool the taken coins go to, if any (Poker-Nim)
    pub from: Option<Player>,
}

/// A move which places coins onto a stack from the player's pool;
/// for use with Poker-Nim.
#[derive(Clone, Debug, PartialEq, Eq, PartialOrd, Ord, Hash)]
pub struct PlaceAction {
    /// The index of the stack to place coins onto
    pub stack_index: usize,
    /// The number of coins to place onto the stack, taken from the
    /// player's pool
    pub amount: u64,
    /// The pool the placed coins are taken from
    pub from: Player,
}

/// Represents a possible split of a stack into two non-empty stacks in a
/// [NimAction::Take] move.
#[derive(Copy, Clone, Debug, PartialEq, Eq, PartialOrd, Ord, Hash, Structural)]
pub enum NimSplit {
    /// The resulting stacks after a split
    Yes(Stack, Stack),
    /// The stack was not split
    No,
}

/// # A Nim game
///
/// This struct uses [NimRule]s to calculate the nimber of the position.
#[derive(Clone, Debug, PartialEq, Eq, PartialOrd, Ord, Hash)]
pub struct NimGame {
    /// The rules of the game (e.g. which numbers of coins can be taken)
    pub rules: Vec<NimRule>,
    /// The stacks of the game, represented as their current heights
    pub stacks: Vec<Stack>,
    /// The number of coins in the pool of player A
    /// (ignored by evaluation for now)
    pub coins_a: u64,
    /// The number of coins in the pool of player B
    /// (ignored by evaluation for now)
    pub coins_b: u64,
}

/// The mathematical model of a [NimGame].
#[verifier::ext_equal]
pub struct GameModel {
    /// Models of the rules, in order
    pub rules: Seq<RuleModel>,
    /// Stack heights, in order
    pub stacks: Seq<u64>,
    /// Player A's pool
    pub coins_a: u64,
    /// Player B's pool
    pub coins_b: u64,
}

impl View for NimGame {
    type V = GameModel;

    open spec fn view(&self) -> GameModel {
        GameModel {
            rules: rules_model(self.rules@),
            stacks: stacks_model(self.stacks@),
            coins_a: self.coins_a,
            coins_b: self.coins_b,
        }
    }
}

impl NimGame {
    /// Create a new Nim game with the given rules and stacks; both pools
    /// start empty.
    pub fn new(rules: Vec<NimRule>, stacks: Vec<Stack>) -> (r: Self)
        ensures
            r@.rules == rules_model(rules@),
            r@.stacks == stacks_model(stacks@),
            r@.coins_a == 0,
            r@.coins_b == 0,
    {
        Self { rules, stacks, coins_a: 0, coins_b: 0 }
    }

    /// Get the stacks currently in the game.
    ///
    /// Retrieves the position as a shared reference to a vector of [Stack]s.
    pub fn get_stacks(&self) -> (r: &Vec<Stack>)
        ensures
            r@ == self.stacks@,
    {
        &self.stacks
    }
}

impl NimGame {
    /// Calculate the nimber of the position using the MEX & XOR rules: the
    /// value of the whole position is the XOR-fold of the nimbers of its
    /// stacks, each evaluated independently (Sprague-Grundy sum theorem).
    /// The pools are ignored for now.
    pub fn calculate_nimber(&self) -> (r: Nimber)
        requires
            rules_well_formed(rules_model(self.rules@)),
            forall|i: int|
                0 <= i < self@.stacks.len() ==> (#[trigger] self@.stacks[i]) < usize::MAX as u64,
        ensures
            r.0 == crate::nimbers::stacks_xor(self@.rules, self@.stacks),
    {
        let mut cache = crate::nimbers::NimberCache::new();
        let mut acc = Nimber(0);
        let mut i: usize = 0;
        while i < self.stacks.len()
            invariant
                i <= self.stacks.len(),
                cache.inv(),
                rules_well_formed(rules_model(self.rules@)),
                forall|k: int|
                    0 <= k < self@.stacks.len() ==> (#[trigger] self@.stacks[k]) < usize::MAX
                        as u64,
                acc.0 == crate::nimbers::stacks_xor(self@.rules, self@.stacks.take(i as int)),
            decreases self.stacks.len() - i,
        {
            proof {
                assert(self@.stacks[i as int] == self.stacks@[i as int].0);
            }
            let n = crate::nimbers::calculate_nimber_with_cache(
                self.stacks[i].0,
                &self.rules,
                0,
                &mut cache,
            );
            acc = acc ^ n;
            proof {
                let sm = self@.stacks;
                assert(sm.take(i + 1 as int).drop_last() =~= sm.take(i as int));
                assert(sm.take(i + 1 as int).last() == sm[i as int]);
            }
            i = i + 1;
        }
        proof {
            assert(self@.stacks.take(self@.stacks.len() as int) =~= self@.stacks);
        }
        acc
    }
}

impl Stack {
    /// Calculate the nimber of the stack using the MEX & XOR rules.
    ///
    /// For now, `pool_coins` must be 0.
    pub fn calculate_nimber(&self, rules: &Vec<NimRule>, pool_coins: u64) -> (r: Nimber)
        requires
            pool_coins == 0,
            rules_well_formed(rules_model(rules@)),
            self.0 < usize::MAX as u64,
        ensures
            r.0 == crate::nimbers::grundy(rules_model(rules@), self.0),
    {
        crate::nimbers::calculate_nimber_for_height(self.0, rules, pool_coins)
    }
}

impl Default for NimGame {
    /// The default game: one rule allowing to take 1, 2 or 3 coins with no
    /// split, on a single stack of height 10, with empty pools.
    fn default() -> (r: Self)
        ensures
            r@.rules =~~= seq![
                RuleModel { take: TakeModel::List(seq![1u64, 2u64, 3u64]), split: Split::Never },
            ],
            r@.stacks =~= seq![10u64],
            r@.coins_a == 0,
            r@.coins_b == 0,
    {
        let mut amounts: Vec<u64> = Vec::new();
        amounts.push(1);
        amounts.push(2);
        amounts.push(3);
        let mut rules: Vec<NimRule> = Vec::new();
        rules.push(NimRule { take: TakeSize::List(amounts), split: Split::Never });
        let mut stacks: Vec<Stack> = Vec::new();
        stacks.push(Stack(10));
        proof {
            assert(rules_model(rules@) =~~= seq![
                RuleModel { take: TakeModel::List(seq![1u64, 2u64, 3u64]), split: Split::Never },
            ]);
            assert(stacks_model(stacks@) =~= seq![10u64]);
        }
        Self { rules, stacks, coins_a: 0, coins_b: 0 }
    }
}

} // verus!
