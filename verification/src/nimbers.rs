//! The nimber calculation engine: the Sprague-Grundy value (nimber) of a
//! stack height under a rule set, defined by the MEX recursion over the
//! legal moves, computed bottom-up and memoized in an explicit
//! [`NimberCache`].

use vstd::prelude::*;

use crate::game::{
    rules_model, rules_well_formed, stacks_model, take_amounts_positive, NimAction, NimRule,
    NimSplit, Nimber, RuleModel, Stack, TakeModel,
};
use crate::moves::{
    calculate_legal_moves, is_generated_move, legal_moves_spec, lemma_legal_moves_membership,
    take_generated,
};

verus! {

broadcast use vstd::set::group_set_axioms, vstd::seq_lib::lemma_seq_contains_after_push, vstd::seq_lib::lemma_seq_concat_contains_all_elements, vstd::seq_lib::seq_to_set_is_finite;

// ---------------------------------------------------------------------------
// Splits
// ---------------------------------------------------------------------------

/// All ways to split `height` coins into two non-empty stacks, accounting
/// for symmetry: `(1, height-1)` up to `(height/2, height-height/2)`,
/// ordered by increasing first part. Empty for heights below 2.
pub open spec fn splits_spec(height: u64) -> Seq<(Stack, Stack)> {
    Seq::new(
        (height / 2) as nat,
        |i: int| (Stack((i + 1) as u64), Stack((height - i - 1) as u64)),
    )
}

/// Calculate all possibilities to split a number into two parts, where the
/// sum of the parts is the original number, accounting for symmetry.
///
/// Stacks of height 0 and 1 cannot be split, so their result is empty; a
/// height `h >= 2` yields exactly `h/2` pairs `(i, h-i)` for `i` from 1 to
/// `h/2`.
pub fn calculate_splits(height: u64) -> (r: Vec<(Stack, Stack)>)
    ensures
        r@ == splits_spec(height),
{
    let mut splits: Vec<(Stack, Stack)> = Vec::new();

    // Stacks of height 0 and 1 can't be split
    if height <= 1 {
        proof {
            assert(splits@ =~= splits_spec(height));
        }
        return splits;
    }
    let half = height / 2;
    let mut i: u64 = 0;
    while i < half
        invariant
            i <= half,
            half == height / 2,
            splits@ == splits_spec(height).take(i as int),
        decreases half - i,
    {
        i = i + 1;
        splits.push((Stack(i), Stack(height - i)));
        proof {
            assert(splits@ =~= splits_spec(height).take(i as int));
        }
    }
    proof {
        assert(splits_spec(height).take(half as int) =~= splits_spec(height));
    }
    splits
}

/// The shape of the split enumeration: `height/2` pairs for heights of 2 or
/// more and none below, every pair summing to `height` with ordered
/// non-empty parts, and first parts strictly increasing.
pub proof fn lemma_splits_properties(height: u64)
    ensures
        height >= 2 ==> splits_spec(height).len() == height / 2,
        height < 2 ==> splits_spec(height).len() == 0,
        forall|i: int|
            0 <= i < splits_spec(height).len() ==> {
                let p = #[trigger] splits_spec(height)[i];
                1 <= p.0.0 && p.0.0 <= p.1.0 && p.0.0 + p.1.0 == height
            },
        forall|i: int, j: int|
            0 <= i < j < splits_spec(height).len() ==> (#[trigger] splits_spec(height)[i]).0.0 < (
            #[trigger] splits_spec(height)[j]).0.0,
{
    assert forall|i: int| 0 <= i < splits_spec(height).len() implies {
        let p = #[trigger] splits_spec(height)[i];
        1 <= p.0.0 && p.0.0 <= p.1.0 && p.0.0 + p.1.0 == height
    } by {
        assert(i < height / 2);
    }
}

// ---------------------------------------------------------------------------
// MEX: the minimum excluded value
// ---------------------------------------------------------------------------

/// `m` is the minimum excluded value of `s`: it is not in `s`, but every
/// smaller value is.
pub open spec fn is_mex(s: Set<u64>, m: u64) -> bool {
    !s.contains(m) && forall|k: u64| k < m ==> s.contains(k)
}

/// The minimum excluded value of `s` (meaningful whenever some value
/// satisfies [`is_mex`], which holds for every finite set).
pub open spec fn mex(s: Set<u64>) -> u64 {
    choose|m: u64| is_mex(s, m)
}

/// A witness pins the MEX down: it is unique.
pub proof fn lemma_mex_of(s: Set<u64>, m: u64)
    requires
        is_mex(s, m),
    ensures
        mex(s) == m,
{
    assert(is_mex(s, mex(s)));
    let m2 = mex(s);
    if m2 < m {
        assert(s.contains(m2));
    } else if m < m2 {
        assert(s.contains(m));
    }
}

/// The set of values below `m` is finite and has exactly `m` elements.
proof fn lemma_u64_range_len(m: u64)
    ensures
        Set::new(|x: u64| x < m).finite(),
        Set::new(|x: u64| x < m).len() == m,
    decreases m,
{
    if m == 0 {
        assert(Set::new(|x: u64| x < m) =~= Set::<u64>::empty());
    } else {
        lemma_u64_range_len((m - 1) as u64);
        assert(Set::new(|x: u64| x < m) =~= Set::new(|x: u64| x < (m - 1) as u64).insert(
            (m - 1) as u64,
        ));
    }
}

/// If a sequence contains `m` and every value below it, it has more than
/// `m` elements (pigeonhole): the MEX scan index stays strictly below the
/// sequence length and cannot wrap around.
proof fn lemma_mex_scan_bound(s: Seq<u64>, m: u64)
    requires
        s.contains(m),
        forall|k: u64| k < m ==> s.contains(k),
    ensures
        (m as int) < s.len(),
{
    let r = Set::new(|x: u64| x <= m);
    assert(r =~= Set::new(|x: u64| x < m).insert(m));
    lemma_u64_range_len(m);
    assert(r.finite() && r.len() == m + 1);
    assert(r.subset_of(s.to_set()));
    vstd::set_lib::lemma_len_subset(r, s.to_set());
    s.lemma_cardinality_of_set();
}

// ---------------------------------------------------------------------------
// The Grundy value of a height under a rule set
// ---------------------------------------------------------------------------

/// Some rule's take-size axis allows removing exactly `a` coins from a
/// stack of height `h` (with an empty pool, `Place` allows nothing).
pub open spec fn can_take(t: TakeModel, a: u64, h: u64) -> bool {
    1 <= a && a <= h && match t {
        TakeModel::List(l) => l.contains(a),
        TakeModel::Any => true,
        TakeModel::Place => false,
    }
}

/// The values of the successor positions reached by a take without a split:
/// `table` holds the values of all heights below `h`.
pub open spec fn no_split_values(rules: Seq<RuleModel>, table: Seq<u64>, h: u64) -> Set<u64> {
    Set::new(
        |v: u64|
            exists|i: int, a: u64|
                {
                    &&& 0 <= i < rules.len()
                    &&& #[trigger] can_take(rules[i].take, a, h)
                    &&& !(rules[i].split is Always)
                    &&& v == table[h - a]
                },
    )
}

/// The values of the successor positions reached by a take with a split:
/// the two parts evaluate independently and combine by XOR.
pub open spec fn split_values(rules: Seq<RuleModel>, table: Seq<u64>, h: u64) -> Set<u64> {
    Set::new(
        |v: u64|
            exists|i: int, a: u64, p: int, q: int|
                #![trigger can_take(rules[i].take, a, h), table[p], table[q]]
                {
                    &&& 0 <= i < rules.len()
                    &&& can_take(rules[i].take, a, h)
                    &&& !(rules[i].split is Never)
                    &&& 1 <= p && p <= q && p + q == h - a
                    &&& v == (table[p] ^ table[q])
                },
    )
}

/// The exclusion set of height `h`: every value a legal move can reach.
pub open spec fn succ_values(rules: Seq<RuleModel>, table: Seq<u64>, h: u64) -> Set<u64> {
    no_split_values(rules, table, h).union(split_values(rules, table, h))
}

/// The table of the Grundy values of the heights `0..n`, built bottom-up:
/// each height's value is the MEX of the values its legal moves reach.
pub open spec fn grundy_table(rules: Seq<RuleModel>, n: nat) -> Seq<u64>
    decreases n,
{
    if n == 0 {
        Seq::empty()
    } else {
        let prior = grundy_table(rules, (n - 1) as nat);
        prior.push(mex(succ_values(rules, prior, ((n - 1) as nat) as u64)))
    }
}

/// The Grundy value (nimber) of a single stack of height `height` under a
/// rule set, with empty pools.
pub open spec fn grundy(rules: Seq<RuleModel>, height: u64) -> u64 {
    grundy_table(rules, height as nat + 1).last()
}

/// The XOR-fold of the Grundy values of a position's stacks: the value of
/// the whole position by the Sprague-Grundy sum theorem.
pub open spec fn stacks_xor(rules: Seq<RuleModel>, stacks: Seq<u64>) -> u64
    decreases stacks.len(),
{
    if stacks.len() == 0 {
        0u64
    } else {
        stacks_xor(rules, stacks.drop_last()) ^ grundy(rules, stacks.last())
    }
}

/// The Grundy table has one entry per height.
pub proof fn lemma_grundy_table_len(rules: Seq<RuleModel>, n: nat)
    ensures
        grundy_table(rules, n).len() == n,
    decreases n,
{
    if n > 0 {
        lemma_grundy_table_len(rules, (n - 1) as nat);
    }
}

/// Entry `h` of any long enough Grundy table is the Grundy value of `h`.
pub proof fn lemma_grundy_table_index(rules: Seq<RuleModel>, n: nat, h: u64)
    requires
        (h as nat) < n,
    ensures
        grundy_table(rules, n).len() == n,
        grundy_table(rules, n)[h as int] == grundy(rules, h),
    decreases n,
{
    lemma_grundy_table_len(rules, n);
    lemma_grundy_table_len(rules, (n - 1) as nat);
    if h as nat + 1 == n {
        assert(grundy_table(rules, n).last() == grundy_table(rules, n)[h as int]);
    } else {
        lemma_grundy_table_index(rules, (n - 1) as nat, h);
    }
}

/// A rule set whose moves all demand removing at least one coin gives
/// height 0 the nimber 0: no move applies, the exclusion set is empty, and
/// the MEX of the empty set is 0.
pub proof fn lemma_nimber_of_zero_height(rules: Seq<RuleModel>)
    requires
        rules_well_formed(rules),
    ensures
        grundy(rules, 0) == 0,
{
    let table0 = grundy_table(rules, 0);
    let s = succ_values(rules, table0, 0);
    assert(s =~= Set::<u64>::empty()) by {
        assert forall|v: u64| !(#[trigger] s.contains(v)) by {
            assert(!no_split_values(rules, table0, 0).contains(v));
            assert(!split_values(rules, table0, 0).contains(v));
        }
    }
    assert(is_mex(s, 0));
    lemma_mex_of(s, 0);
    assert(grundy_table(rules, 1) == table0.push(0u64));
}

// ---------------------------------------------------------------------------
// The exclusion list computed from the generated moves matches the
// exclusion set of the Grundy recursion
// ---------------------------------------------------------------------------

/// The value of the sub-position a move reaches, read from the table of the
/// values of all smaller heights.
pub open spec fn move_excl_value(m: NimAction, table: Seq<u64>, h: u64) -> u64 {
    match m {
        NimAction::Take(t) => match t.split {
            NimSplit::No => table[h - t.amount],
            NimSplit::Yes(a, b) => table[a.0 as int] ^ table[b.0 as int],
        },
        NimAction::Place(_) => 0u64,
    }
}

/// Bounds for a generated take action on a single stack of height `h`:
/// the amount is in `1..=h` and a recorded split has ordered non-empty
/// parts summing with the amount to `h`.
proof fn lemma_generated_take_bounds(rules: Seq<RuleModel>, h: u64, t: crate::game::TakeAction)
    requires
        take_amounts_positive(rules),
        exists|i: int| 0 <= i < rules.len() && take_generated(#[trigger] rules[i], t, h),
    ensures
        1 <= t.amount && t.amount <= h,
        t.split matches NimSplit::Yes(a, b) ==> 1 <= a.0 && a.0 <= b.0 && a.0 + b.0 + t.amount
            == h,
{
    let i = choose|i: int| 0 <= i < rules.len() && take_generated(#[trigger] rules[i], t, h);
    match rules[i].take {
        TakeModel::List(l) => {
            assert(l.contains(t.amount));
            let j = choose|j: int| 0 <= j < l.len() && l[j] == t.amount;
            assert(l[j] >= 1);
        },
        TakeModel::Any => {},
        TakeModel::Place => {},
    }
}

/// A generated take action reaches a value of the exclusion set, and every
/// value of the exclusion set is reached by some generated move: the
/// exclusion list that the evaluator collects from the generated moves
/// covers the exclusion set exactly.
proof fn lemma_excl_equiv(
    rules: Seq<RuleModel>,
    table: Seq<u64>,
    h: u64,
    moves: Seq<NimAction>,
    excl: Seq<u64>,
)
    requires
        take_amounts_positive(rules),
        table.len() == h,
        moves == legal_moves_spec(seq![h], rules, 0, 0),
        excl.len() == moves.len(),
        forall|j: int| 0 <= j < moves.len() ==> excl[j] == move_excl_value(moves[j], table, h),
    ensures
        forall|v: u64| #[trigger] excl.contains(v) <==> succ_values(rules, table, h).contains(v),
{
    let stacks = seq![h];
    assert forall|v: u64| #[trigger]
        excl.contains(v) <==> succ_values(rules, table, h).contains(v) by {
        if excl.contains(v) {
            let j = choose|j: int| 0 <= j < excl.len() && excl[j] == v;
            let m = moves[j];
            assert(moves.contains(m));
            lemma_legal_moves_membership(stacks, rules, 0, 0, m);
            assert(is_generated_move(stacks, rules, 0, 0, m));
            match m {
                NimAction::Take(t) => {
                    assert(t.stack_index == 0);
                    assert(stacks[t.stack_index as int] == h);
                    let i = choose|i: int|
                        0 <= i < rules.len() && crate::moves::rule_generates(
                            t.stack_index,
                            #[trigger] rules[i],
                            h,
                            0,
                            0,
                            m,
                        );
                    assert(take_generated(rules[i], t, h));
                    lemma_generated_take_bounds(rules, h, t);
                    match t.split {
                        NimSplit::No => {
                            assert(can_take(rules[i].take, t.amount, h));
                            assert(!(rules[i].split is Always));
                            assert(v == table[h - t.amount]);
                            assert(no_split_values(rules, table, h).contains(v));
                        },
                        NimSplit::Yes(a, b) => {
                            assert(can_take(rules[i].take, t.amount, h));
                            assert(!(rules[i].split is Never));
                            let p = a.0 as int;
                            let q = b.0 as int;
                            assert(1 <= p && p <= q && p + q == h - t.amount);
                            assert(v == (table[p] ^ table[q]));
                            assert(split_values(rules, table, h).contains(v));
                        },
                    }
                },
                NimAction::Place(p) => {
                    assert(1 <= p.amount && p.amount <= 0);
                },
            }
        }
        if succ_values(rules, table, h).contains(v) {
            if no_split_values(rules, table, h).contains(v) {
                let (i, a) = choose|i: int, a: u64|
                    {
                        &&& 0 <= i < rules.len()
                        &&& #[trigger] can_take(rules[i].take, a, h)
                        &&& !(rules[i].split is Always)
                        &&& v == table[h - a]
                    };
                let t = crate::game::TakeAction {
                    stack_index: 0,
                    amount: a,
                    split: NimSplit::No,
                    from: None,
                };
                let m = NimAction::Take(t);
                assert(take_generated(rules[i], t, h));
                assert(is_generated_move(stacks, rules, 0, 0, m));
                lemma_legal_moves_membership(stacks, rules, 0, 0, m);
                assert(moves.contains(m));
                let j = choose|j: int| 0 <= j < moves.len() && moves[j] == m;
                assert(excl[j] == v);
                assert(excl.contains(v));
            } else {
                assert(split_values(rules, table, h).contains(v));
                let (i, a, p, q) = choose|i: int, a: u64, p: int, q: int|
                    #![trigger can_take(rules[i].take, a, h), table[p], table[q]]
                    {
                        &&& 0 <= i < rules.len()
                        &&& can_take(rules[i].take, a, h)
                        &&& !(rules[i].split is Never)
                        &&& 1 <= p && p <= q && p + q == h - a
                        &&& v == (table[p] ^ table[q])
                    };
                let t = crate::game::TakeAction {
                    stack_index: 0,
                    amount: a,
                    split: NimSplit::Yes(Stack(p as u64), Stack(q as u64)),
                    from: None,
                };
                let m = NimAction::Take(t);
                assert(take_generated(rules[i], t, h));
                assert(is_generated_move(stacks, rules, 0, 0, m));
                lemma_legal_moves_membership(stacks, rules, 0, 0, m);
                assert(moves.contains(m));
                let j = choose|j: int| 0 <= j < moves.len() && moves[j] == m;
                assert(excl[j] == v);
                assert(excl.contains(v));
            }
        }
    }
}

// ---------------------------------------------------------------------------
// The executable evaluator: bottom-up over the heights
// ---------------------------------------------------------------------------

/// Extend a Grundy table to hold the values of all heights below `target`:
/// for each missing height in turn, collect the values reached by its legal
/// moves into an exclusion list and append the smallest value not in it.
fn extend_table_to(rules: &Vec<NimRule>, table: &mut Vec<u64>, target: u64)
    requires
        rules_well_formed(rules_model(rules@)),
        old(table)@ == grundy_table(rules_model(rules@), old(table)@.len()),
        target <= usize::MAX as u64,
    ensures
        old(table)@.len() >= target ==> final(table)@ == old(table)@,
        old(table)@.len() < target ==> final(table)@ == grundy_table(
            rules_model(rules@),
            target as nat,
        ),
{
    let ghost rm = rules_model(rules@);
    let ghost orig = table@;
    while (table.len() as u64) < target
        invariant
            rules_well_formed(rm),
            rm == rules_model(rules@),
            table@ == grundy_table(rm, table@.len()),
            orig.len() >= target ==> table@ == orig,
            orig.len() < target ==> table@.len() <= target,
            target <= usize::MAX as u64,
        decreases target - table.len(),
    {
        let hh = table.len() as u64;
        let mut single: Vec<Stack> = Vec::new();
        single.push(Stack(hh));
        proof {
            assert(stacks_model(single@) =~= seq![hh]);
        }
        let moves = calculate_legal_moves(&single, rules, (0, 0));
        let ghost hseq = seq![hh];
        let mut excl: Vec<u64> = Vec::new();
        let mut j: usize = 0;
        while j < moves.len()
            invariant
                j <= moves.len(),
                excl@.len() == j,
                forall|k: int| 0 <= k < j ==> excl@[k] == move_excl_value(moves@[k], table@, hh),
                moves@ == legal_moves_spec(hseq, rm, 0, 0),
                hseq == seq![hh],
                table@.len() == hh,
                hh <= usize::MAX as u64,
                take_amounts_positive(rm),
            decreases moves.len() - j,
        {
            let ghost m = moves@[j as int];
            proof {
                assert(moves@.contains(m));
                lemma_legal_moves_membership(hseq, rm, 0, 0, m);
                assert(is_generated_move(hseq, rm, 0, 0, m));
            }
            match &moves[j] {
                NimAction::Take(t) => {
                    proof {
                        assert(t.stack_index < hseq.len());
                        let i = choose|i: int|
                            0 <= i < rm.len() && crate::moves::rule_generates(
                                t.stack_index,
                                #[trigger] rm[i],
                                hseq[t.stack_index as int],
                                0,
                                0,
                                m,
                            );
                        assert(hseq[t.stack_index as int] == hh);
                        assert(take_generated(rm[i], *t, hh));
                        lemma_generated_take_bounds(rm, hh, *t);
                    }
                    match t.split {
                        NimSplit::No => {
                            let idx = (hh - t.amount) as usize;
                            let v = table[idx];
                            excl.push(v);
                        },
                        NimSplit::Yes(a, b) => {
                            let va = table[a.0 as usize];
                            let vb = table[b.0 as usize];
                            excl.push(va ^ vb);
                        },
                    }
                },
                NimAction::Place(p) => {
                    proof {
                        assert(1 <= p.amount && p.amount <= 0);
                        assert(false);
                    }
                },
            }
            j = j + 1;
        }
        let mut mex_val: u64 = 0;
        let mut present = crate::moves::vec_contains_u64(&excl, mex_val);
        while present
            invariant
                present == excl@.contains(mex_val),
                forall|k: u64| k < mex_val ==> excl@.contains(k),
                mex_val <= excl@.len(),
                excl@.len() <= usize::MAX,
            decreases excl@.len() - mex_val,
        {
            proof {
                lemma_mex_scan_bound(excl@, mex_val);
            }
            mex_val = mex_val + 1;
            present = crate::moves::vec_contains_u64(&excl, mex_val);
        }
        proof {
            let succ = succ_values(rm, table@, hh);
            lemma_excl_equiv(rm, table@, hh, moves@, excl@);
            assert(!succ.contains(mex_val));
            assert forall|k: u64| k < mex_val implies succ.contains(k) by {
                assert(excl@.contains(k));
            }
            assert(is_mex(succ, mex_val));
            lemma_mex_of(succ, mex_val);
        }
        let ghost pre_push = table@;
        table.push(mex_val);
        proof {
            assert(table@.len() == hh + 1);
            assert(grundy_table(rm, (hh + 1) as nat) == pre_push.push(
                mex(succ_values(rm, pre_push, hh)),
            ));
            assert(table@ == grundy_table(rm, table@.len()));
        }
    }
}

// ---------------------------------------------------------------------------
// The nimber cache
// ---------------------------------------------------------------------------

/// One cache partition: a rule set together with the Grundy table computed
/// under it (the values of the heights `0..table.len()`).
struct CachePartition {
    rules: Vec<NimRule>,
    table: Vec<u64>,
}

/// The key a partition is filed under: the model of its rule set.
spec fn partition_key(p: CachePartition) -> Seq<RuleModel> {
    rules_model(p.rules@)
}

/// The abstract content of a partition list: a map from rule-set model to
/// the Grundy table kept for it.
spec fn partitions_model(ps: Seq<CachePartition>) -> Map<Seq<RuleModel>, Seq<u64>>
    decreases ps.len(),
{
    if ps.len() == 0 {
        Map::empty()
    } else {
        partitions_model(ps.drop_last()).insert(partition_key(ps.last()), ps.last().table@)
    }
}

/// No two partitions are filed under the same rule set.
spec fn partition_keys_distinct(ps: Seq<CachePartition>) -> bool {
    forall|i: int, j: int|
        0 <= i < j < ps.len() ==> partition_key(#[trigger] ps[i]) != partition_key(
            #[trigger] ps[j],
        )
}

/// Memoizes nimber evaluations, keyed first by rule-set value and then by
/// height. An explicit object owned by whoever evaluates nimbers: share one
/// instance across a batch of related queries to reuse work. Entries are
/// never evicted automatically; clear the cache with [`clear_nimber_cache`]
/// before reusing a rule-set value whose intended meaning changed.
pub struct NimberCache {
    partitions: Vec<CachePartition>,
}

impl View for NimberCache {
    type V = Map<Seq<RuleModel>, Seq<u64>>;

    closed spec fn view(&self) -> Map<Seq<RuleModel>, Seq<u64>> {
        partitions_model(self.partitions@)
    }
}

impl NimberCache {
    /// The cache is consistent: every stored table is the Grundy table of
    /// the rule set it is filed under.
    pub closed spec fn inv(&self) -> bool {
        &&& partition_keys_distinct(self.partitions@)
        &&& forall|i: int|
            0 <= i < self.partitions@.len() ==> (#[trigger] self.partitions@[i]).table@
                == grundy_table(
                partition_key(self.partitions@[i]),
                self.partitions@[i].table@.len(),
            )
    }

    /// An empty cache.
    pub fn new() -> (r: Self)
        ensures
            r@ == Map::<Seq<RuleModel>, Seq<u64>>::empty(),
            r.inv(),
    {
        NimberCache { partitions: Vec::new() }
    }
}

/// Clears the cache used by the nimber calculation.
///
/// Call this before reusing a rule-set value whose external meaning changed
/// without changing its value representation; stale entries are otherwise
/// kept for the cache's whole lifetime.
pub fn clear_nimber_cache(cache: &mut NimberCache)
    ensures
        final(cache)@ == Map::<Seq<RuleModel>, Seq<u64>>::empty(),
        final(cache).inv(),
{
    cache.partitions.clear();
}

/// A key is in the model exactly when some partition carries it.
proof fn lemma_partitions_model_keys(ps: Seq<CachePartition>, key: Seq<RuleModel>)
    ensures
        partitions_model(ps).contains_key(key) <==> exists|i: int|
            0 <= i < ps.len() && partition_key(#[trigger] ps[i]) == key,
    decreases ps.len(),
{
    if ps.len() == 0 {
    } else {
        lemma_partitions_model_keys(ps.drop_last(), key);
        if partitions_model(ps).contains_key(key) {
            if key == partition_key(ps.last()) {
                assert(partition_key(ps[ps.len() - 1]) == key);
            } else {
                let i = choose|i: int|
                    0 <= i < ps.drop_last().len() && partition_key(
                        #[trigger] ps.drop_last()[i],
                    ) == key;
                assert(partition_key(ps[i]) == key);
            }
        }
        if exists|i: int| 0 <= i < ps.len() && partition_key(#[trigger] ps[i]) == key {
            let i = choose|i: int| 0 <= i < ps.len() && partition_key(#[trigger] ps[i]) == key;
            if i < ps.len() - 1 {
                assert(partition_key(ps.drop_last()[i]) == key);
            }
        }
    }
}

/// With distinct keys, looking a partition's key up in the model yields its
/// own table.
proof fn lemma_partitions_model_lookup(ps: Seq<CachePartition>, i: int)
    requires
        partition_keys_distinct(ps),
        0 <= i < ps.len(),
    ensures
        partitions_model(ps).contains_key(partition_key(ps[i])),
        partitions_model(ps)[partition_key(ps[i])] == ps[i].table@,
    decreases ps.len(),
{
    if i == ps.len() - 1 {
    } else {
        assert(partition_keys_distinct(ps.drop_last())) by {
            assert forall|x: int, y: int| 0 <= x < y < ps.drop_last().len() implies partition_key(
                #[trigger] ps.drop_last()[x],
            ) != partition_key(#[trigger] ps.drop_last()[y]) by {
                assert(ps.drop_last()[x] == ps[x]);
                assert(ps.drop_last()[y] == ps[y]);
            }
        }
        assert(ps.drop_last()[i] == ps[i]);
        lemma_partitions_model_lookup(ps.drop_last(), i);
        assert(partition_key(ps[i]) != partition_key(ps.last()));
    }
}

/// Removing a partition removes exactly its key from the model, and keeps
/// the remaining keys distinct.
proof fn lemma_partitions_model_remove(ps: Seq<CachePartition>, i: int)
    requires
        partition_keys_distinct(ps),
        0 <= i < ps.len(),
    ensures
        partitions_model(ps.remove(i)) == partitions_model(ps).remove(partition_key(ps[i])),
        partition_keys_distinct(ps.remove(i)),
        forall|k: int|
            0 <= k < ps.remove(i).len() ==> partition_key(#[trigger] ps.remove(i)[k])
                != partition_key(ps[i]),
    decreases ps.len(),
{
    let key = partition_key(ps[i]);
    assert forall|k: int| 0 <= k < ps.remove(i).len() implies partition_key(
        #[trigger] ps.remove(i)[k],
    ) != key by {
        if k < i {
            assert(ps.remove(i)[k] == ps[k]);
        } else {
            assert(ps.remove(i)[k] == ps[k + 1]);
        }
    }
    assert forall|x: int, y: int| 0 <= x < y < ps.remove(i).len() implies partition_key(
        #[trigger] ps.remove(i)[x],
    ) != partition_key(#[trigger] ps.remove(i)[y]) by {
        let x0 = if x < i {
            x
        } else {
            x + 1
        };
        let y0 = if y < i {
            y
        } else {
            y + 1
        };
        assert(ps.remove(i)[x] == ps[x0]);
        assert(ps.remove(i)[y] == ps[y0]);
    }
    if i == ps.len() - 1 {
        assert(ps.remove(i) =~= ps.drop_last());
        assert(!partitions_model(ps.drop_last()).contains_key(key)) by {
            lemma_partitions_model_keys(ps.drop_last(), key);
            assert forall|k: int| 0 <= k < ps.drop_last().len() implies partition_key(
                #[trigger] ps.drop_last()[k],
            ) != key by {
                assert(ps.drop_last()[k] == ps[k]);
            }
        }
        assert(partitions_model(ps).remove(key) =~= partitions_model(ps.drop_last()));
    } else {
        let d = ps.drop_last();
        assert(partition_keys_distinct(d)) by {
            assert forall|x: int, y: int| 0 <= x < y < d.len() implies partition_key(
                #[trigger] d[x],
            ) != partition_key(#[trigger] d[y]) by {
                assert(d[x] == ps[x]);
                assert(d[y] == ps[y]);
            }
        }
        assert(d[i] == ps[i]);
        lemma_partitions_model_remove(d, i);
        assert(ps.remove(i).drop_last() =~= d.remove(i));
        assert(ps.remove(i).last() == ps.last());
        assert(partitions_model(ps.remove(i)) == partitions_model(d.remove(i)).insert(
            partition_key(ps.last()),
            ps.last().table@,
        ));
        assert(partition_key(ps.last()) != key);
        assert(partitions_model(d).remove(key).insert(partition_key(ps.last()), ps.last().table@)
            =~= partitions_model(d).insert(partition_key(ps.last()), ps.last().table@).remove(
            key,
        ));
    }
}

/// Appending a partition inserts its key into the model.
proof fn lemma_partitions_model_push(ps: Seq<CachePartition>, p: CachePartition)
    ensures
        partitions_model(ps.push(p)) == partitions_model(ps).insert(partition_key(p), p.table@),
{
    assert(ps.push(p).drop_last() =~= ps);
    assert(ps.push(p).last() == p);
}

/// Appending a partition under a fresh key keeps the keys distinct.
proof fn lemma_distinct_push(ps: Seq<CachePartition>, p: CachePartition)
    requires
        partition_keys_distinct(ps),
        forall|k: int| 0 <= k < ps.len() ==> partition_key(#[trigger] ps[k]) != partition_key(p),
    ensures
        partition_keys_distinct(ps.push(p)),
{
    assert forall|i: int, j: int| 0 <= i < j < ps.push(p).len() implies partition_key(
        #[trigger] ps.push(p)[i],
    ) != partition_key(#[trigger] ps.push(p)[j]) by {
        assert(ps.push(p)[i] == ps[i]);
        if j < ps.len() {
            assert(ps.push(p)[j] == ps[j]);
        } else {
            assert(ps.push(p)[j] == p);
        }
    }
}

// ---------------------------------------------------------------------------
// Comparing rule sets by value
// ---------------------------------------------------------------------------

/// Do the two vectors hold the same numbers in the same order?
fn vecs_u64_eq(a: &Vec<u64>, b: &Vec<u64>) -> (r: bool)
    ensures
        r == (a@ == b@),
{
    if a.len() != b.len() {
        return false;
    }
    let mut i: usize = 0;
    while i < a.len()
        invariant
            i <= a.len(),
            a@.len() == b@.len(),
            forall|k: int| 0 <= k < i ==> a@[k] == b@[k],
        decreases a.len() - i,
    {
        if a[i] != b[i] {
            return false;
        }
        i = i + 1;
    }
    proof {
        assert(a@ =~= b@);
    }
    true
}

/// Do the two rules have the same value (equal models)?
fn rule_eq(a: &NimRule, b: &NimRule) -> (r: bool)
    ensures
        r == (crate::game::rule_model(*a) == crate::game::rule_model(*b)),
{
    let take_eq = match (&a.take, &b.take) {
        (crate::game::TakeSize::List(x), crate::game::TakeSize::List(y)) => vecs_u64_eq(x, y),
        (crate::game::TakeSize::Any, crate::game::TakeSize::Any) => true,
        (crate::game::TakeSize::Place, crate::game::TakeSize::Place) => true,
        _ => false,
    };
    let split_eq = a.split == b.split;
    take_eq && split_eq
}

/// Do the two rule sets have the same value (equal models)?
fn rules_eq(a: &Vec<NimRule>, b: &Vec<NimRule>) -> (r: bool)
    ensures
        r == (rules_model(a@) == rules_model(b@)),
{
    if a.len() != b.len() {
        proof {
            assert(rules_model(a@).len() != rules_model(b@).len());
        }
        return false;
    }
    let mut i: usize = 0;
    while i < a.len()
        invariant
            i <= a.len(),
            a@.len() == b@.len(),
            forall|k: int|
                0 <= k < i ==> crate::game::rule_model(a@[k]) == crate::game::rule_model(b@[k]),
        decreases a.len() - i,
    {
        if !rule_eq(&a[i], &b[i]) {
            proof {
                assert(rules_model(a@)[i as int] != rules_model(b@)[i as int]);
            }
            return false;
        }
        i = i + 1;
    }
    proof {
        assert(rules_model(a@) =~= rules_model(b@));
    }
    true
}

/// The index of the partition filed under this rule set, if any.
fn find_partition(partitions: &Vec<CachePartition>, rules: &Vec<NimRule>) -> (r: Option<usize>)
    ensures
        match r {
            Some(i) => i < partitions@.len() && partition_key(partitions@[i as int])
                == rules_model(rules@),
            None => forall|i: int|
                0 <= i < partitions@.len() ==> partition_key(#[trigger] partitions@[i])
                    != rules_model(rules@),
        },
{
    let mut i: usize = 0;
    while i < partitions.len()
        invariant
            i <= partitions.len(),
            forall|k: int|
                0 <= k < i ==> partition_key(#[trigger] partitions@[k]) != rules_model(rules@),
        decreases partitions.len() - i,
    {
        if rules_eq(&partitions[i].rules, rules) {
            return Some(i);
        }
        i = i + 1;
    }
    None
}

/// A deep copy of a rule set (same value, a fresh allocation to file in the
/// cache).
fn clone_rules(rules: &Vec<NimRule>) -> (r: Vec<NimRule>)
    ensures
        rules_model(r@) == rules_model(rules@),
{
    let mut out: Vec<NimRule> = Vec::new();
    let mut i: usize = 0;
    while i < rules.len()
        invariant
            i <= rules.len(),
            out@.len() == i,
            forall|k: int|
                0 <= k < i ==> crate::game::rule_model(out@[k]) == crate::game::rule_model(
                    rules@[k],
                ),
        decreases rules.len() - i,
    {
        let r = &rules[i];
        let take = match &r.take {
            crate::game::TakeSize::List(l) => {
                let mut l2: Vec<u64> = Vec::new();
                let mut j: usize = 0;
                while j < l.len()
                    invariant
                        j <= l.len(),
                        l2@ == l@.take(j as int),
                    decreases l.len() - j,
                {
                    l2.push(l[j]);
                    proof {
                        assert(l2@ =~= l@.take(j + 1 as int));
                    }
                    j = j + 1;
                }
                proof {
                    assert(l2@ =~= l@);
                }
                crate::game::TakeSize::List(l2)
            },
            crate::game::TakeSize::Any => crate::game::TakeSize::Any,
            crate::game::TakeSize::Place => crate::game::TakeSize::Place,
        };
        out.push(NimRule { take, split: r.split });
        i = i + 1;
    }
    proof {
        assert(rules_model(out@) =~= rules_model(rules@));
    }
    out
}

// ---------------------------------------------------------------------------
// The public evaluator
// ---------------------------------------------------------------------------

/// Calculate the nimber of a stack of height `height` under a rule set,
/// memoized in the given cache.
///
/// `pool_coins` is the number of coins in the pool of the current player
/// (must be 0 for now: pool-aware evaluation is a pending extension).
///
/// The result is the Grundy value of the height ([`grundy`]). The cache
/// gains the rule set's table up to this height if it did not hold it; a
/// repeated evaluation of an already cached height returns the identical
/// value and leaves the cache exactly as it was.
pub fn calculate_nimber_with_cache(
    height: u64,
    rules: &Vec<NimRule>,
    pool_coins: u64,
    cache: &mut NimberCache,
) -> (r: Nimber)
    requires
        pool_coins == 0,
        rules_well_formed(rules_model(rules@)),
        height < usize::MAX as u64,
        old(cache).inv(),
    ensures
        final(cache).inv(),
        r.0 == grundy(rules_model(rules@), height),
        final(cache)@ == (if old(cache)@.contains_key(rules_model(rules@)) && old(
            cache,
        )@[rules_model(rules@)].len() > height {
            old(cache)@
        } else {
            old(cache)@.insert(
                rules_model(rules@),
                grundy_table(rules_model(rules@), height as nat + 1),
            )
        }),
{
    let ghost key = rules_model(rules@);
    let ghost ps0 = cache.partitions@;
    let found = find_partition(&cache.partitions, rules);
    match found {
        Option::Some(i) => {
            proof {
                lemma_partitions_model_lookup(ps0, i as int);
            }
            if height < cache.partitions[i].table.len() as u64 {
                let v = cache.partitions[i].table[height as usize];
                proof {
                    lemma_grundy_table_index(key, ps0[i as int].table@.len(), height);
                }
                Nimber(v)
            } else {
                let mut part = cache.partitions.remove(i);
                proof {
                    lemma_partitions_model_remove(ps0, i as int);
                }
                extend_table_to(rules, &mut part.table, height + 1);
                proof {
                    lemma_grundy_table_index(key, (height + 1) as nat, height);
                }
                let v = part.table[height as usize];
                let ghost ps1 = cache.partitions@;
                cache.partitions.push(part);
                proof {
                    lemma_partitions_model_push(ps1, cache.partitions@.last());
                    lemma_distinct_push(ps1, cache.partitions@.last());
                    assert(cache@ =~= partitions_model(ps0).insert(
                        key,
                        grundy_table(key, height as nat + 1),
                    ));
                    assert forall|k: int|
                        0 <= k < cache.partitions@.len() implies (
                    #[trigger] cache.partitions@[k]).table@ == grundy_table(
                        partition_key(cache.partitions@[k]),
                        cache.partitions@[k].table@.len(),
                    ) by {
                        if k < ps1.len() {
                            assert(cache.partitions@[k] == ps1[k]);
                            if (k as int) < i as int {
                                assert(ps1[k] == ps0[k]);
                            } else {
                                assert(ps1[k] == ps0[k + 1]);
                            }
                        }
                    }
                }
                Nimber(v)
            }
        },
        Option::None => {
            proof {
                lemma_partitions_model_keys(ps0, key);
            }
            let rules_copy = clone_rules(rules);
            let mut part = CachePartition { rules: rules_copy, table: Vec::new() };
            extend_table_to(rules, &mut part.table, height + 1);
            proof {
                lemma_grundy_table_index(key, (height + 1) as nat, height);
            }
            let v = part.table[height as usize];
            let ghost ps1 = cache.partitions@;
            cache.partitions.push(part);
            proof {
                lemma_partitions_model_push(ps1, cache.partitions@.last());
                lemma_distinct_push(ps1, cache.partitions@.last());
                assert(cache@ =~= partitions_model(ps0).insert(
                    key,
                    grundy_table(key, height as nat + 1),
                ));
                assert forall|k: int|
                    0 <= k < cache.partitions@.len() implies (
                #[trigger] cache.partitions@[k]).table@ == grundy_table(
                    partition_key(cache.partitions@[k]),
                    cache.partitions@[k].table@.len(),
                ) by {
                    if k < ps1.len() {
                        assert(cache.partitions@[k] == ps1[k]);
                    }
                }
            }
            Nimber(v)
        },
    }
}

/// Calculate the nimber of a stack of height `height` given a set of rules.
///
/// `pool_coins` is the number of coins in the pool of the current player
/// (must be 0 for now).
///
/// The algorithm makes use of the MEX (minimum excluded) rule: every legal
/// move is applied to the stack, the values of the resulting positions form
/// an exclusion list, and the nimber is the smallest non-negative integer
/// not in that list. A fresh cache is used for the whole computation; to
/// share work across calls, use [`calculate_nimber_with_cache`].
pub fn calculate_nimber_for_height(height: u64, rules: &Vec<NimRule>, pool_coins: u64) -> (r:
    Nimber)
    requires
        pool_coins == 0,
        rules_well_formed(rules_model(rules@)),
        height < usize::MAX as u64,
    ensures
        r.0 == grundy(rules_model(rules@), height),
{
    let mut cache = NimberCache::new();
    calculate_nimber_with_cache(height, rules, pool_coins, &mut cache)
}

} // verus!
