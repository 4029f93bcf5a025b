//! Potions: the evaluation of one candidate combination of ingredients.
//!
//! A potion is built from two or three distinct ingredients.  Only effects
//! shared by at least two of them become active; among duplicate instances of
//! an active effect the strongest survives; the survivors are ranked by gold
//! value, capped, and summed into the potion's score.
//!
//! The numeric strength of each ingredient effect (magnitude, duration and
//! per-effect gold value) involves the game's floating-point formulas, which
//! live outside the verified core: callers resolve every ingredient effect to
//! a [`PotionEffect`] first, and everything from there on is verified.

use vstd::prelude::*;

use crate::form_id::GlobalFormId;
use crate::ingredient::{Ingredient, IngredientView};

verus! {

/// A resolved ingredient effect: which magic effect it is, its computed
/// magnitude and duration, its gold value, and whether it is hostile.
#[derive(Clone, Copy, PartialEq, Eq, Structural, Debug)]
pub struct PotionEffect {
    pub global_id: GlobalFormId,
    pub magnitude: u32,
    pub duration: u32,
    pub gold_value: u16,
    pub is_hostile: bool,
}

/// Mathematical model of an ingredient offered to the potion builder.
pub ghost struct ResolvedIngredientView {
    pub ingredient: IngredientView,
    pub effects: Seq<PotionEffect>,
}

/// An ingredient together with its effects resolved against the magic-effect
/// data.  The `effects` list parallels `ingredient.effects`: one resolved
/// entry per raw entry, in the same order, naming the same magic effect.
pub struct ResolvedIngredient {
    pub ingredient: Ingredient,
    pub effects: Vec<PotionEffect>,
}

impl View for ResolvedIngredient {
    type V = ResolvedIngredientView;

    open spec fn view(&self) -> ResolvedIngredientView {
        ResolvedIngredientView { ingredient: self.ingredient@, effects: self.effects@ }
    }
}

impl ResolvedIngredientView {
    /// The resolved entries name the raw entries' magic effects, one for one.
    pub open spec fn wf(self) -> bool {
        &&& self.effects.len() == self.ingredient.effects.len()
        &&& forall|j: int|
            0 <= j < self.effects.len() ==> (#[trigger] self.effects[j]).global_id
                == self.ingredient.effects[j].global_id
    }

    /// No two resolved entries name the same magic effect.
    pub open spec fn distinct_effect_ids(self) -> bool {
        forall|i: int, j: int|
            0 <= i < j < self.effects.len() ==> (#[trigger] self.effects[i]).global_id != (
            #[trigger] self.effects[j]).global_id
    }
}

impl Clone for ResolvedIngredient {
    fn clone(&self) -> (r: Self)
        ensures
            r@ == self@,
    {
        let mut effects: Vec<PotionEffect> = Vec::new();
        let mut i: usize = 0;
        while i < self.effects.len()
            invariant
                0 <= i <= self.effects@.len(),
                effects@ == self.effects@.take(i as int),
            decreases self.effects@.len() - i,
        {
            effects.push(self.effects[i]);
            proof {
                assert(effects@ =~= self.effects@.take(i as int + 1));
            }
            i += 1;
        }
        proof {
            assert(effects@ =~= self.effects@);
        }
        ResolvedIngredient { ingredient: self.ingredient.clone(), effects }
    }
}

/// Why a candidate combination is not a potion.  These are pruning signals
/// for the combinatorial search, not user-facing failures.
#[derive(Clone, Copy, PartialEq, Eq, Structural, Debug)]
pub enum PotionCraftError {
    /// Fewer than two ingredients were supplied.
    NotEnoughIngredients,
    /// The named ingredient occurs more than once.
    DuplicateIngredient(GlobalFormId),
    /// The named ingredient itself lists the same effect twice (malformed
    /// source data).
    InvalidIngredient(GlobalFormId),
    /// No effect occurs in at least two of the chosen ingredients.
    NoSharedEffects,
}

/// Whether the resulting mixture is a beneficial potion or a poison.
#[derive(Clone, Copy, PartialEq, Eq, Structural, Debug)]
pub enum PotionType {
    Potion,
    Poison,
}

/// Mathematical model of a finished potion.
pub ghost struct PotionView {
    pub ingredients: Seq<IngredientView>,
    pub effects: Seq<PotionEffect>,
    pub gold_value: u16,
}

/// The scored result of a valid combination: the chosen ingredients, the
/// active effects sorted strongest first (at most six), and the total score.
pub struct Potion {
    pub ingredients: Vec<Ingredient>,
    pub effects: Vec<PotionEffect>,
    pub gold_value: u16,
}

impl View for Potion {
    type V = PotionView;

    open spec fn view(&self) -> PotionView {
        PotionView {
            ingredients: self.ingredients@.map_values(|i: Ingredient| i@),
            effects: self.effects@,
            gold_value: self.gold_value,
        }
    }
}

impl Clone for Potion {
    fn clone(&self) -> (r: Self)
        ensures
            r@ == self@,
    {
        let mut ingredients: Vec<Ingredient> = Vec::new();
        let mut i: usize = 0;
        while i < self.ingredients.len()
            invariant
                0 <= i <= self.ingredients@.len(),
                ingredients@.len() == i,
                forall|k: int|
                    0 <= k < i ==> (#[trigger] ingredients@[k])@ == self.ingredients@[k]@,
            decreases self.ingredients@.len() - i,
        {
            ingredients.push(self.ingredients[i].clone());
            i += 1;
        }
        let mut effects: Vec<PotionEffect> = Vec::new();
        let mut i: usize = 0;
        while i < self.effects.len()
            invariant
                0 <= i <= self.effects@.len(),
                effects@ == self.effects@.take(i as int),
            decreases self.effects@.len() - i,
        {
            effects.push(self.effects[i]);
            proof {
                assert(effects@ =~= self.effects@.take(i as int + 1));
            }
            i += 1;
        }
        proof {
            assert(effects@ =~= self.effects@);
            assert(ingredients@.map_values(|x: Ingredient| x@) =~= self.ingredients@.map_values(
                |x: Ingredient| x@,
            ));
        }
        Potion { ingredients, effects, gold_value: self.gold_value }
    }
}

// ---------------------------------------------------------------------------
// The functional specification of potion building
// ---------------------------------------------------------------------------

/// All effect instances of all ingredients, pooled in ingredient order.
pub open spec fn spec_pooled(items: Seq<ResolvedIngredientView>) -> Seq<PotionEffect>
    decreases items.len(),
{
    if items.len() == 0 {
        Seq::<PotionEffect>::empty()
    } else {
        spec_pooled(items.drop_last()) + items.last().effects
    }
}

/// How many instances in `s` carry this effect id.
pub open spec fn spec_count_id(s: Seq<PotionEffect>, id: GlobalFormId) -> int {
    s.filter(|e: PotionEffect| e.global_id == id).len() as int
}

/// `e` inserted into `s` after every element whose id is not greater: the
/// single step of a stable insertion sort by effect id ascending.
pub open spec fn spec_insert_by_id(s: Seq<PotionEffect>, e: PotionEffect) -> Seq<PotionEffect>
    decreases s.len(),
{
    if s.len() == 0 {
        seq![e]
    } else if e.global_id.spec_lt(s.last().global_id) {
        spec_insert_by_id(s.drop_last(), e).push(s.last())
    } else {
        s.push(e)
    }
}

/// Stable sort by effect id ascending.
pub open spec fn spec_sort_by_id(s: Seq<PotionEffect>) -> Seq<PotionEffect>
    decreases s.len(),
{
    if s.len() == 0 {
        s
    } else {
        spec_insert_by_id(spec_sort_by_id(s.drop_last()), s.last())
    }
}

/// The pooled instances that are active: their id occurs at least twice in
/// the pool (that is, in at least two distinct ingredients, the ingredients
/// themselves being free of internal duplicates).
pub open spec fn spec_active(sorted: Seq<PotionEffect>) -> Seq<PotionEffect> {
    sorted.filter(|e: PotionEffect| spec_count_id(sorted, e.global_id) >= 2)
}

/// Collapses adjacent instances of the same effect, keeping the more
/// valuable one; on ties the earlier instance wins.
pub open spec fn spec_coalesce(s: Seq<PotionEffect>) -> Seq<PotionEffect>
    decreases s.len(),
{
    if s.len() == 0 {
        s
    } else {
        let acc = spec_coalesce(s.drop_last());
        let e = s.last();
        if acc.len() > 0 && acc.last().global_id == e.global_id {
            if acc.last().gold_value >= e.gold_value {
                acc
            } else {
                acc.drop_last().push(e)
            }
        } else {
            acc.push(e)
        }
    }
}

/// `e` inserted into `s` after every element at least as valuable: the
/// single step of a stable insertion sort by gold value descending.
pub open spec fn spec_insert_by_gold(s: Seq<PotionEffect>, e: PotionEffect) -> Seq<PotionEffect>
    decreases s.len(),
{
    if s.len() == 0 {
        seq![e]
    } else if e.gold_value > s.last().gold_value {
        spec_insert_by_gold(s.drop_last(), e).push(s.last())
    } else {
        s.push(e)
    }
}

/// Stable sort by gold value descending.
pub open spec fn spec_sort_by_gold(s: Seq<PotionEffect>) -> Seq<PotionEffect>
    decreases s.len(),
{
    if s.len() == 0 {
        s
    } else {
        spec_insert_by_gold(spec_sort_by_gold(s.drop_last()), s.last())
    }
}

/// The sum of the gold values.
pub open spec fn spec_score(s: Seq<PotionEffect>) -> int
    decreases s.len(),
{
    if s.len() == 0 {
        0
    } else {
        spec_score(s.drop_last()) + s.last().gold_value
    }
}

/// Sum capped to the score's width.
pub open spec fn spec_sat16(x: int) -> int {
    if x > 0xFFFF {
        0xFFFF
    } else {
        x
    }
}

/// A potion holds at most this many active effects.
pub open spec fn spec_max_effects() -> int {
    6
}

/// Whether index `j` repeats an earlier ingredient.
pub open spec fn spec_dup_at(items: Seq<ResolvedIngredientView>, j: int) -> bool {
    exists|i: int|
        0 <= i < j && (#[trigger] items[i]).ingredient.global_id == items[j].ingredient.global_id
}

pub open spec fn spec_find_dup_from(items: Seq<ResolvedIngredientView>, j: int) -> int
    decreases items.len() - j,
{
    if j < 0 || j >= items.len() {
        -1
    } else if spec_dup_at(items, j) {
        j
    } else {
        spec_find_dup_from(items, j + 1)
    }
}

/// Index of the first ingredient that repeats an earlier one, or `-1`.
pub open spec fn spec_first_dup(items: Seq<ResolvedIngredientView>) -> int {
    spec_find_dup_from(items, 0)
}

pub open spec fn spec_find_invalid_from(items: Seq<ResolvedIngredientView>, j: int) -> int
    decreases items.len() - j,
{
    if j < 0 || j >= items.len() {
        -1
    } else if !items[j].distinct_effect_ids() {
        j
    } else {
        spec_find_invalid_from(items, j + 1)
    }
}

/// Index of the first ingredient that lists an effect twice, or `-1`.
pub open spec fn spec_first_invalid(items: Seq<ResolvedIngredientView>) -> int {
    spec_find_invalid_from(items, 0)
}

/// The active effects of the finished potion, strongest first, capped.
pub open spec fn spec_final_effects(items: Seq<ResolvedIngredientView>) -> Seq<PotionEffect> {
    let ranked = spec_sort_by_gold(spec_coalesce(spec_active(spec_sort_by_id(spec_pooled(items)))));
    if ranked.len() <= spec_max_effects() {
        ranked
    } else {
        ranked.take(spec_max_effects())
    }
}

/// What building a potion from these ingredients yields, for every input.
pub open spec fn spec_from_ingredients(items: Seq<ResolvedIngredientView>) -> Result<
    PotionView,
    PotionCraftError,
> {
    if items.len() < 2 {
        Err(PotionCraftError::NotEnoughIngredients)
    } else if spec_first_dup(items) >= 0 {
        Err(
            PotionCraftError::DuplicateIngredient(
                items[spec_first_dup(items)].ingredient.global_id,
            ),
        )
    } else if spec_first_invalid(items) >= 0 {
        Err(
            PotionCraftError::InvalidIngredient(
                items[spec_first_invalid(items)].ingredient.global_id,
            ),
        )
    } else if spec_active(spec_sort_by_id(spec_pooled(items))).len() == 0 {
        Err(PotionCraftError::NoSharedEffects)
    } else {
        Ok(
            PotionView {
                ingredients: items.map_values(|ri: ResolvedIngredientView| ri.ingredient),
                effects: spec_final_effects(items),
                gold_value: spec_sat16(spec_score(spec_final_effects(items))) as u16,
            },
        )
    }
}


// ---------------------------------------------------------------------------
// Executable potion building
// ---------------------------------------------------------------------------

proof fn lemma_filter_push_pe(s: Seq<PotionEffect>, x: PotionEffect, pred: spec_fn(PotionEffect) -> bool)
    ensures
        s.push(x).filter(pred) == (if pred(x) {
            s.filter(pred).push(x)
        } else {
            s.filter(pred)
        }),
{
    reveal(Seq::filter);
    assert(s.push(x).drop_last() =~= s);
    assert(s.push(x).last() == x);
}

proof fn lemma_find_dup_from_at(items: Seq<ResolvedIngredientView>, k: int, j: int)
    requires
        0 <= k <= j < items.len(),
        spec_dup_at(items, j),
        forall|j2: int| k <= j2 < j ==> !spec_dup_at(items, j2),
    ensures
        spec_find_dup_from(items, k) == j,
    decreases j - k,
{
    if k < j {
        lemma_find_dup_from_at(items, k + 1, j);
    }
}

proof fn lemma_find_dup_from_none(items: Seq<ResolvedIngredientView>, k: int)
    requires
        k >= 0,
        forall|j2: int| k <= j2 < items.len() ==> !spec_dup_at(items, j2),
    ensures
        spec_find_dup_from(items, k) == -1,
    decreases items.len() - k,
{
    if k < items.len() {
        lemma_find_dup_from_none(items, k + 1);
    }
}

proof fn lemma_find_invalid_from_at(items: Seq<ResolvedIngredientView>, k: int, j: int)
    requires
        0 <= k <= j < items.len(),
        !items[j].distinct_effect_ids(),
        forall|j2: int| k <= j2 < j ==> (#[trigger] items[j2]).distinct_effect_ids(),
    ensures
        spec_find_invalid_from(items, k) == j,
    decreases j - k,
{
    if k < j {
        lemma_find_invalid_from_at(items, k + 1, j);
    }
}

proof fn lemma_find_invalid_from_none(items: Seq<ResolvedIngredientView>, k: int)
    requires
        k >= 0,
        forall|j2: int| k <= j2 < items.len() ==> (#[trigger] items[j2]).distinct_effect_ids(),
    ensures
        spec_find_invalid_from(items, k) == -1,
    decreases items.len() - k,
{
    if k < items.len() {
        lemma_find_invalid_from_none(items, k + 1);
    }
}

fn insert_by_id_exec(v: &mut Vec<PotionEffect>, e: PotionEffect)
    ensures
        final(v)@ == spec_insert_by_id(old(v)@, e),
    decreases old(v)@.len(),
{
    if v.len() == 0 {
        v.push(e);
        assert(v@ =~= seq![e]);
    } else {
        let last = v[v.len() - 1];
        if e.global_id.lt(&last.global_id) {
            v.pop();
            assert(v@ =~= old(v)@.drop_last());
            insert_by_id_exec(v, e);
            v.push(last);
            assert(old(v)@.last() == last);
        } else {
            v.push(e);
            assert(v@ =~= old(v)@.push(e));
        }
    }
}

fn insert_by_gold_exec(v: &mut Vec<PotionEffect>, e: PotionEffect)
    ensures
        final(v)@ == spec_insert_by_gold(old(v)@, e),
    decreases old(v)@.len(),
{
    if v.len() == 0 {
        v.push(e);
        assert(v@ =~= seq![e]);
    } else {
        let last = v[v.len() - 1];
        if e.gold_value > last.gold_value {
            v.pop();
            assert(v@ =~= old(v)@.drop_last());
            insert_by_gold_exec(v, e);
            v.push(last);
            assert(old(v)@.last() == last);
        } else {
            v.push(e);
            assert(v@ =~= old(v)@.push(e));
        }
    }
}

fn count_id_exec(v: &Vec<PotionEffect>, id: GlobalFormId) -> (r: usize)
    ensures
        r == spec_count_id(v@, id),
{
    let ghost pred = |e: PotionEffect| e.global_id == id;
    let n = v.len();
    let mut cnt: usize = 0;
    let mut j: usize = 0;
    while j < n
        invariant
            n == v@.len(),
            pred == (|e: PotionEffect| e.global_id == id),
            0 <= j <= n,
            cnt <= j,
            cnt == v@.take(j as int).filter(pred).len(),
        decreases n - j,
    {
        proof {
            assert(v@.take(j as int + 1).drop_last() =~= v@.take(j as int));
            lemma_filter_push_pe(v@.take(j as int), v@[j as int], pred);
            assert(v@.take(j as int).push(v@[j as int]) =~= v@.take(j as int + 1));
        }
        if v[j].global_id.source_index == id.source_index && v[j].global_id.local_id == id.local_id {
            proof {
                assert(v@[j as int].global_id == id);
            }
            cnt += 1;
        } else {
            proof {
                assert(v@[j as int].global_id != id);
            }
        }
        j += 1;
    }
    proof {
        assert(v@.take(n as int) =~= v@);
    }
    cnt
}

impl Potion {
    /// Builds the potion that these ingredients yield, or says why they do
    /// not yield one.
    ///
    /// The rules, in the order they are checked: at least two ingredients; no
    /// ingredient twice; no ingredient that lists one effect twice; and at
    /// least one effect shared by two or more of the ingredients.  The active
    /// effects keep the strongest instance per effect (earliest on ties), are
    /// ranked by gold value descending (stable), capped to the maximum, and
    /// their values summed — saturating at the score type's width — into the
    /// potion's score.
    pub fn from_ingredients(items: Vec<ResolvedIngredient>) -> (r: Result<Potion, PotionCraftError>)
        ensures
            ({
                let items0 = items@.map_values(|ri: ResolvedIngredient| ri@);
                match r {
                    Ok(p) => spec_from_ingredients(items0) == Ok::<PotionView, PotionCraftError>(
                        p@,
                    ),
                    Err(e) => spec_from_ingredients(items0) == Err::<PotionView, PotionCraftError>(
                        e,
                    ),
                }
            }),
    {
        let ghost items0 = items@.map_values(|ri: ResolvedIngredient| ri@);
        let n = items.len();
        if n < 2 {
            return Err(PotionCraftError::NotEnoughIngredients);
        }

        // First repeated ingredient, if any.
        let mut j: usize = 1;
        while j < n
            invariant
                n == items@.len(),
                items0 == items@.map_values(|ri: ResolvedIngredient| ri@),
                1 <= j <= n,
                forall|j2: int| 0 <= j2 < j ==> !spec_dup_at(items0, j2),
            decreases n - j,
        {
            let mut i: usize = 0;
            while i < j
                invariant
                    n == items@.len(),
                    items0 == items@.map_values(|ri: ResolvedIngredient| ri@),
                    0 <= i <= j < n,
                    forall|j2: int| 0 <= j2 < j ==> !spec_dup_at(items0, j2),
                    forall|i2: int|
                        0 <= i2 < i ==> (#[trigger] items0[i2]).ingredient.global_id
                            != items0[j as int].ingredient.global_id,
                decreases j - i,
            {
                if items[i].ingredient.global_id.source_index
                    == items[j].ingredient.global_id.source_index && items[
                    i
                ].ingredient.global_id.local_id == items[j].ingredient.global_id.local_id {
                    proof {
                        assert(items0[i as int].ingredient.global_id == items@[i as int]@.ingredient.global_id);
                        assert(items0[j as int].ingredient.global_id == items@[j as int]@.ingredient.global_id);
                        assert(spec_dup_at(items0, j as int));
                        lemma_find_dup_from_at(items0, 0, j as int);
                    }
                    return Err(
                        PotionCraftError::DuplicateIngredient(items[j].ingredient.global_id),
                    );
                }
                proof {
                    assert(items0[i as int].ingredient.global_id != items0[j as int].ingredient.global_id);
                }
                i += 1;
            }
            proof {
                assert(!spec_dup_at(items0, j as int)) by {
                    if spec_dup_at(items0, j as int) {
                        let w = choose|w: int|
                            0 <= w < j && (#[trigger] items0[w]).ingredient.global_id == items0[
                                j as int
                            ].ingredient.global_id;
                    }
                }
            }
            j += 1;
        }
        proof {
            assert forall|j2: int| 0 <= j2 < items0.len() implies !spec_dup_at(items0, j2) by {
                if j2 == 0 && spec_dup_at(items0, 0) {
                    let w = choose|w: int|
                        0 <= w < 0 && (#[trigger] items0[w]).ingredient.global_id == items0[
                            0
                        ].ingredient.global_id;
                }
            }
            lemma_find_dup_from_none(items0, 0);
        }

        // First ingredient with a repeated effect, if any.
        let mut k: usize = 0;
        while k < n
            invariant
                n == items@.len(),
                n >= 2,
                items0 == items@.map_values(|ri: ResolvedIngredient| ri@),
                spec_first_dup(items0) == -1,
                0 <= k <= n,
                forall|k2: int| 0 <= k2 < k ==> (#[trigger] items0[k2]).distinct_effect_ids(),
            decreases n - k,
        {
            let item = &items[k];
            proof {
                assert(items0[k as int] == item@);
            }
            let m = item.effects.len();
            let mut a: usize = 0;
            while a < m
                invariant
                    items0 == items@.map_values(|ri: ResolvedIngredient| ri@),
                    items0.len() >= 2,
                    spec_first_dup(items0) == -1,
                    0 <= k < items0.len(),
                    items0[k as int] == item@,
                    forall|k2: int| 0 <= k2 < k ==> (#[trigger] items0[k2]).distinct_effect_ids(),
                    m == item.effects@.len(),
                    0 <= a <= m,
                    forall|i2: int, j2: int|
                        0 <= i2 < j2 < m && i2 < a ==> (#[trigger] item.effects@[i2]).global_id
                            != (#[trigger] item.effects@[j2]).global_id,
                decreases m - a,
            {
                let mut b: usize = a + 1;
                while b < m
                    invariant
                        items0 == items@.map_values(|ri: ResolvedIngredient| ri@),
                        items0.len() >= 2,
                        spec_first_dup(items0) == -1,
                        0 <= k < items0.len(),
                        items0[k as int] == item@,
                        forall|k2: int|
                            0 <= k2 < k ==> (#[trigger] items0[k2]).distinct_effect_ids(),
                        m == item.effects@.len(),
                        0 <= a < m,
                        a < b <= m,
                        forall|j2: int|
                            a < j2 < b ==> (#[trigger] item.effects@[j2]).global_id
                                != item.effects@[a as int].global_id,
                    decreases m - b,
                {
                    if item.effects[a].global_id.source_index == item.effects[
                        b
                    ].global_id.source_index && item.effects[a].global_id.local_id == item.effects[
                        b
                    ].global_id.local_id {
                        proof {
                            assert(items0[k as int].effects[a as int].global_id == items0[
                                k as int
                            ].effects[b as int].global_id);
                            assert(!items0[k as int].distinct_effect_ids());
                            lemma_find_invalid_from_at(items0, 0, k as int);
                        }
                        return Err(
                            PotionCraftError::InvalidIngredient(item.ingredient.global_id),
                        );
                    }
                    b += 1;
                }
                a += 1;
            }
            k += 1;
        }
        proof {
            lemma_find_invalid_from_none(items0, 0);
        }

        // Pool every effect instance, in ingredient order.
        let mut pooled: Vec<PotionEffect> = Vec::new();
        let mut k: usize = 0;
        while k < n
            invariant
                n == items@.len(),
                items0 == items@.map_values(|ri: ResolvedIngredient| ri@),
                0 <= k <= n,
                pooled@ == spec_pooled(items0.take(k as int)),
            decreases n - k,
        {
            let item = &items[k];
            proof {
                assert(items0[k as int] == item@);
            }
            let m = item.effects.len();
            let ghost p0 = pooled@;
            let mut j2: usize = 0;
            while j2 < m
                invariant
                    items0 == items@.map_values(|ri: ResolvedIngredient| ri@),
                    0 <= k < items0.len(),
                    items0[k as int] == item@,
                    m == item.effects@.len(),
                    0 <= j2 <= m,
                    pooled@ == p0 + item.effects@.take(j2 as int),
                decreases m - j2,
            {
                pooled.push(item.effects[j2]);
                proof {
                    assert(pooled@ =~= p0 + item.effects@.take(j2 as int + 1));
                }
                j2 += 1;
            }
            proof {
                assert(item.effects@.take(m as int) =~= item.effects@);
                assert(items0.take(k as int + 1).drop_last() =~= items0.take(k as int));
                assert(items0.take(k as int + 1).last() == items0[k as int]);
                assert(pooled@ == spec_pooled(items0.take(k as int + 1)));
            }
            k += 1;
        }
        proof {
            assert(items0.take(n as int) =~= items0);
        }

        // Stable sort by effect id.
        let mut sorted: Vec<PotionEffect> = Vec::new();
        let mut k: usize = 0;
        while k < pooled.len()
            invariant
                pooled@ == spec_pooled(items0),
                0 <= k <= pooled@.len(),
                sorted@ == spec_sort_by_id(pooled@.take(k as int)),
            decreases pooled@.len() - k,
        {
            insert_by_id_exec(&mut sorted, pooled[k]);
            proof {
                assert(pooled@.take(k as int + 1).drop_last() =~= pooled@.take(k as int));
                assert(pooled@.take(k as int + 1).last() == pooled@[k as int]);
            }
            k += 1;
        }
        proof {
            assert(pooled@.take(pooled@.len() as int) =~= pooled@);
        }
        let ghost sorted0 = sorted@;

        // Keep only the active instances: id occurs at least twice.
        let ghost active_pred = |e: PotionEffect| spec_count_id(sorted0, e.global_id) >= 2;
        let mut actives: Vec<PotionEffect> = Vec::new();
        let mut k: usize = 0;
        while k < sorted.len()
            invariant
                sorted@ == sorted0,
                sorted0 == spec_sort_by_id(spec_pooled(items0)),
                active_pred == (|e: PotionEffect| spec_count_id(sorted0, e.global_id) >= 2),
                0 <= k <= sorted0.len(),
                actives@ == sorted0.take(k as int).filter(active_pred),
            decreases sorted@.len() - k,
        {
            let e = sorted[k];
            let c = count_id_exec(&sorted, e.global_id);
            proof {
                assert(sorted0.take(k as int + 1).drop_last() =~= sorted0.take(k as int));
                lemma_filter_push_pe(sorted0.take(k as int), sorted0[k as int], active_pred);
                assert(sorted0.take(k as int).push(sorted0[k as int]) =~= sorted0.take(
                    k as int + 1,
                ));
            }
            if c >= 2 {
                actives.push(e);
            }
            k += 1;
        }
        proof {
            assert(sorted0.take(sorted0.len() as int) =~= sorted0);
            assert(actives@ == spec_active(sorted0));
        }
        if actives.len() == 0 {
            return Err(PotionCraftError::NoSharedEffects);
        }
        let ghost actives0 = actives@;

        // Keep the strongest instance of each effect; earlier wins ties.
        let mut coal: Vec<PotionEffect> = Vec::new();
        let mut k: usize = 0;
        while k < actives.len()
            invariant
                actives@ == actives0,
                0 <= k <= actives0.len(),
                coal@ == spec_coalesce(actives0.take(k as int)),
            decreases actives@.len() - k,
        {
            let e = actives[k];
            proof {
                assert(actives0.take(k as int + 1).drop_last() =~= actives0.take(k as int));
                assert(actives0.take(k as int + 1).last() == actives0[k as int]);
            }
            if coal.len() > 0 {
                let last = coal[coal.len() - 1];
                if last.global_id.source_index == e.global_id.source_index
                    && last.global_id.local_id == e.global_id.local_id {
                    if last.gold_value >= e.gold_value {
                        // keep the earlier instance
                    } else {
                        coal.pop();
                        coal.push(e);
                        proof {
                            assert(coal@ =~= spec_coalesce(actives0.take(k as int)).drop_last()
                                .push(e));
                        }
                    }
                } else {
                    proof {
                        assert(coal@.last().global_id != e.global_id);
                    }
                    coal.push(e);
                }
            } else {
                coal.push(e);
            }
            k += 1;
        }
        proof {
            assert(actives0.take(actives0.len() as int) =~= actives0);
        }
        let ghost coal0 = coal@;

        // Rank by gold value, strongest first.
        let mut ranked: Vec<PotionEffect> = Vec::new();
        let mut k: usize = 0;
        while k < coal.len()
            invariant
                coal@ == coal0,
                0 <= k <= coal0.len(),
                ranked@ == spec_sort_by_gold(coal0.take(k as int)),
            decreases coal@.len() - k,
        {
            insert_by_gold_exec(&mut ranked, coal[k]);
            proof {
                assert(coal0.take(k as int + 1).drop_last() =~= coal0.take(k as int));
                assert(coal0.take(k as int + 1).last() == coal0[k as int]);
            }
            k += 1;
        }
        proof {
            assert(coal0.take(coal0.len() as int) =~= coal0);
        }
        let ghost ranked_full = ranked@;

        // Cap to the maximum number of effects.
        while ranked.len() > 6
            invariant
                ranked@.len() <= ranked_full.len(),
                ranked@.len() == ranked_full.len() || ranked@.len() >= 6,
                ranked@ == ranked_full.take(ranked@.len() as int),
            decreases ranked@.len(),
        {
            ranked.pop();
            proof {
                assert(ranked_full.take(ranked@.len() as int + 1).drop_last() =~= ranked_full.take(
                    ranked@.len() as int,
                ));
            }
        }
        proof {
            assert(ranked_full == spec_sort_by_gold(
                spec_coalesce(spec_active(spec_sort_by_id(spec_pooled(items0)))),
            ));
            if ranked_full.len() <= 6 {
                assert(ranked_full.take(ranked_full.len() as int) =~= ranked_full);
            } else {
                assert(ranked@.len() == 6);
            }
            assert(ranked@ == spec_final_effects(items0));
        }
        let ghost final0 = ranked@;

        // Total score, saturating at the score width.
        let mut total: u32 = 0;
        let mut k: usize = 0;
        while k < ranked.len()
            invariant
                ranked@ == final0,
                final0.len() <= 6,
                0 <= k <= final0.len(),
                total == spec_score(final0.take(k as int)),
                total <= 0xFFFF * k,
            decreases ranked@.len() - k,
        {
            proof {
                assert(final0.take(k as int + 1).drop_last() =~= final0.take(k as int));
                assert(final0.take(k as int + 1).last() == final0[k as int]);
            }
            total = total + ranked[k].gold_value as u32;
            k += 1;
        }
        proof {
            assert(final0.take(final0.len() as int) =~= final0);
        }
        let gold_value: u16 = if total > 0xFFFF {
            0xFFFF
        } else {
            total as u16
        };

        // The chosen ingredients, in the order given.
        let mut ingredients: Vec<Ingredient> = Vec::new();
        let mut k: usize = 0;
        while k < n
            invariant
                n == items@.len(),
                items0 == items@.map_values(|ri: ResolvedIngredient| ri@),
                0 <= k <= n,
                ingredients@.len() == k,
                forall|k2: int|
                    0 <= k2 < k ==> (#[trigger] ingredients@[k2])@ == items0[k2].ingredient,
            decreases n - k,
        {
            ingredients.push(items[k].ingredient.clone());
            k += 1;
        }

        let p = Potion { ingredients, effects: ranked, gold_value };
        proof {
            assert(p@.ingredients =~= items0.map_values(
                |ri: ResolvedIngredientView| ri.ingredient,
            ));
            assert(p@ == spec_from_ingredients(items0)->Ok_0);
        }
        Ok(p)
    }

    /// The strongest active effect: the first, since the effects are ranked
    /// strongest first.  It determines the potion's name and classification.
    pub fn get_primary_effect(&self) -> (r: &PotionEffect)
        requires
            self@.effects.len() > 0,
        ensures
            *r == self@.effects[0],
    {
        &self.effects[0]
    }

    /// Poison when the primary effect is hostile, otherwise a potion.
    pub fn get_potion_type(&self) -> (r: PotionType)
        requires
            self@.effects.len() > 0,
        ensures
            r == (if self@.effects[0].is_hostile {
                PotionType::Poison
            } else {
                PotionType::Potion
            }),
    {
        if self.effects[0].is_hostile {
            PotionType::Poison
        } else {
            PotionType::Potion
        }
    }
}

// ---------------------------------------------------------------------------
// Flag decisions for effect scaling
// ---------------------------------------------------------------------------

/// How a magic effect's flags act on one of its numeric components.
#[derive(Clone, Copy, PartialEq, Eq, Structural, Debug)]
pub enum EffectScaling {
    /// The component is forced to zero.
    Suppressed,
    /// The component is taken as is.
    Unscaled,
    /// The component is multiplied by the fixed power factor.
    Powered,
}

/// The flag decision for an effect's magnitude.
pub open spec fn spec_magnitude_scaling(flags: u32) -> EffectScaling {
    if flags & 0x0000_0400 != 0 {
        EffectScaling::Suppressed
    } else if flags & 0x0020_0000 != 0 {
        EffectScaling::Powered
    } else {
        EffectScaling::Unscaled
    }
}

/// The flag decision for an effect's duration.
pub open spec fn spec_duration_scaling(flags: u32) -> EffectScaling {
    if flags & 0x0000_0200 != 0 {
        EffectScaling::Suppressed
    } else if flags & 0x0040_0000 != 0 {
        EffectScaling::Powered
    } else {
        EffectScaling::Unscaled
    }
}

/// How the flag word acts on the effect's magnitude: the "no magnitude" bit
/// forces zero, else the "power affects magnitude" bit applies the power
/// factor.
pub fn magnitude_scaling(flags: u32) -> (r: EffectScaling)
    ensures
        r == spec_magnitude_scaling(flags),
{
    if flags & 0x0000_0400 != 0 {
        EffectScaling::Suppressed
    } else if flags & 0x0020_0000 != 0 {
        EffectScaling::Powered
    } else {
        EffectScaling::Unscaled
    }
}

/// How the flag word acts on the effect's duration: the "no duration" bit
/// forces zero, else the "power affects duration" bit applies the power
/// factor.
pub fn duration_scaling(flags: u32) -> (r: EffectScaling)
    ensures
        r == spec_duration_scaling(flags),
{
    if flags & 0x0000_0200 != 0 {
        EffectScaling::Suppressed
    } else if flags & 0x0040_0000 != 0 {
        EffectScaling::Powered
    } else {
        EffectScaling::Unscaled
    }
}


// ---------------------------------------------------------------------------
// When crafting is guaranteed to succeed
// ---------------------------------------------------------------------------

/// Whether the two ingredients' resolved effects share at least one id.
pub open spec fn spec_shares_resolved(a: ResolvedIngredientView, b: ResolvedIngredientView) -> bool {
    exists|i: int, j: int|
        0 <= i < a.effects.len() && 0 <= j < b.effects.len() && (
        #[trigger] a.effects[i]).global_id == (#[trigger] b.effects[j]).global_id
}

proof fn lemma_filter_subset_pe(s: Seq<PotionEffect>, pred: spec_fn(PotionEffect) -> bool, x: PotionEffect)
    requires
        s.filter(pred).contains(x),
    ensures
        s.contains(x),
    decreases s.len(),
{
    reveal(Seq::filter);
    if s.len() > 0 {
        if s.drop_last().filter(pred).contains(x) {
            lemma_filter_subset_pe(s.drop_last(), pred, x);
            let j = choose|j: int| 0 <= j < s.drop_last().len() && s.drop_last()[j] == x;
            assert(s[j] == x);
        } else {
            assert(s[s.len() - 1] == x);
        }
    }
}

proof fn lemma_count_concat(a: Seq<PotionEffect>, b: Seq<PotionEffect>, id: GlobalFormId)
    ensures
        spec_count_id(a + b, id) == spec_count_id(a, id) + spec_count_id(b, id),
{
    broadcast use vstd::seq_lib::group_filter_ensures;

    let pred = |e: PotionEffect| e.global_id == id;
    Seq::filter_distributes_over_add(a, b, pred);
}

proof fn lemma_count_push(s: Seq<PotionEffect>, x: PotionEffect, id: GlobalFormId)
    ensures
        spec_count_id(s.push(x), id) == spec_count_id(s, id) + (if x.global_id == id {
            1int
        } else {
            0int
        }),
{
    let pred = |e: PotionEffect| e.global_id == id;
    lemma_filter_push_pe(s, x, pred);
}

proof fn lemma_count_insert_by_id(s: Seq<PotionEffect>, e: PotionEffect, id: GlobalFormId)
    ensures
        spec_count_id(spec_insert_by_id(s, e), id) == spec_count_id(s, id) + (
        if e.global_id == id {
            1int
        } else {
            0int
        }),
    decreases s.len(),
{
    if s.len() == 0 {
        assert(seq![e] =~= Seq::<PotionEffect>::empty().push(e));
        lemma_count_push(Seq::<PotionEffect>::empty(), e, id);
        reveal(Seq::filter);
    } else if e.global_id.spec_lt(s.last().global_id) {
        lemma_count_insert_by_id(s.drop_last(), e, id);
        lemma_count_push(spec_insert_by_id(s.drop_last(), e), s.last(), id);
        lemma_count_push(s.drop_last(), s.last(), id);
        assert(s.drop_last().push(s.last()) =~= s);
    } else {
        lemma_count_push(s, e, id);
    }
}

proof fn lemma_count_sort_by_id(s: Seq<PotionEffect>, id: GlobalFormId)
    ensures
        spec_count_id(spec_sort_by_id(s), id) == spec_count_id(s, id),
    decreases s.len(),
{
    if s.len() > 0 {
        lemma_count_sort_by_id(s.drop_last(), id);
        lemma_count_insert_by_id(spec_sort_by_id(s.drop_last()), s.last(), id);
        lemma_count_push(s.drop_last(), s.last(), id);
        assert(s.drop_last().push(s.last()) =~= s);
    }
}

proof fn lemma_count_at_least_one(s: Seq<PotionEffect>, i: int)
    requires
        0 <= i < s.len(),
    ensures
        spec_count_id(s, s[i].global_id) >= 1,
{
    broadcast use vstd::seq_lib::group_filter_ensures;

    let pred = |e: PotionEffect| e.global_id == s[i].global_id;
    assert(s.filter(pred).contains(s[i]));
    assert(s.filter(pred).len() > 0);
}

proof fn lemma_pooled_count_single(items: Seq<ResolvedIngredientView>, i: int, id: GlobalFormId)
    requires
        0 <= i < items.len(),
    ensures
        spec_count_id(spec_pooled(items), id) >= spec_count_id(items[i].effects, id),
    decreases items.len(),
{
    broadcast use vstd::seq_lib::group_filter_ensures;

    lemma_count_concat(spec_pooled(items.drop_last()), items.last().effects, id);
    if i == items.len() - 1 {
    } else {
        lemma_pooled_count_single(items.drop_last(), i, id);
    }
}

proof fn lemma_pooled_count_pair(
    items: Seq<ResolvedIngredientView>,
    i: int,
    j: int,
    id: GlobalFormId,
)
    requires
        0 <= i < j < items.len(),
        spec_count_id(items[i].effects, id) >= 1,
        spec_count_id(items[j].effects, id) >= 1,
    ensures
        spec_count_id(spec_pooled(items), id) >= 2,
    decreases items.len(),
{
    broadcast use vstd::seq_lib::group_filter_ensures;

    lemma_count_concat(spec_pooled(items.drop_last()), items.last().effects, id);
    if j == items.len() - 1 {
        lemma_pooled_count_single(items.drop_last(), i, id);
    } else {
        lemma_pooled_count_pair(items.drop_last(), i, j, id);
    }
}

/// Two or three pairwise-distinct, well-formed ingredients that share at
/// least one effect always yield a potion: crafting cannot fail on a
/// combination the search has accepted.
pub proof fn lemma_craft_succeeds(items: Seq<ResolvedIngredientView>)
    requires
        items.len() >= 2,
        forall|i: int, j: int|
            0 <= i < j < items.len() ==> (#[trigger] items[i]).ingredient.global_id != (
            #[trigger] items[j]).ingredient.global_id,
        forall|k: int| 0 <= k < items.len() ==> (#[trigger] items[k]).distinct_effect_ids(),
        exists|i: int, j: int|
            0 <= i < j < items.len() && spec_shares_resolved(
                #[trigger] items[i],
                #[trigger] items[j],
            ),
    ensures
        spec_from_ingredients(items) is Ok,
{
    broadcast use vstd::seq_lib::group_filter_ensures;

    // No ingredient repeats.
    assert forall|j2: int| 0 <= j2 < items.len() implies !spec_dup_at(items, j2) by {
        if spec_dup_at(items, j2) {
            let w = choose|w: int|
                0 <= w < j2 && (#[trigger] items[w]).ingredient.global_id == items[
                    j2
                ].ingredient.global_id;
        }
    }
    lemma_find_dup_from_none(items, 0);
    lemma_find_invalid_from_none(items, 0);

    // The shared effect is active.
    let (i, j) = choose|i: int, j: int|
        0 <= i < j < items.len() && spec_shares_resolved(#[trigger] items[i], #[trigger] items[j]);
    let (ia, jb) = choose|ia: int, jb: int|
        0 <= ia < items[i].effects.len() && 0 <= jb < items[j].effects.len() && (
        #[trigger] items[i].effects[ia]).global_id == (#[trigger] items[j].effects[jb]).global_id;
    let id = items[i].effects[ia].global_id;
    lemma_count_at_least_one(items[i].effects, ia);
    lemma_count_at_least_one(items[j].effects, jb);
    lemma_pooled_count_pair(items, i, j, id);
    let sorted = spec_sort_by_id(spec_pooled(items));
    lemma_count_sort_by_id(spec_pooled(items), id);
    assert(spec_count_id(sorted, id) >= 2);

    // Some element of the sorted pool carries the shared id.
    let idpred = |e: PotionEffect| e.global_id == id;
    assert(sorted.filter(idpred).len() >= 2);
    let witness = sorted.filter(idpred)[0];
    assert(sorted.filter(idpred).contains(witness));
    lemma_filter_subset_pe(sorted, idpred, witness);
    let wi = choose|wi: int| 0 <= wi < sorted.len() && sorted[wi] == witness;
    assert(idpred(witness));
    assert(spec_count_id(sorted, sorted[wi].global_id) >= 2);
    let active_pred = |e: PotionEffect| spec_count_id(sorted, e.global_id) >= 2;
    assert(active_pred(sorted[wi]));
    assert(spec_active(sorted).contains(sorted[wi]));
    assert(spec_active(sorted).len() > 0);
}


// ---------------------------------------------------------------------------
// Shape of the finished potion
// ---------------------------------------------------------------------------

proof fn lemma_insert_by_gold_len(s: Seq<PotionEffect>, e: PotionEffect)
    ensures
        spec_insert_by_gold(s, e).len() == s.len() + 1,
    decreases s.len(),
{
    if s.len() > 0 && e.gold_value > s.last().gold_value {
        lemma_insert_by_gold_len(s.drop_last(), e);
    }
}

proof fn lemma_sort_by_gold_len(s: Seq<PotionEffect>)
    ensures
        spec_sort_by_gold(s).len() == s.len(),
    decreases s.len(),
{
    if s.len() > 0 {
        lemma_sort_by_gold_len(s.drop_last());
        lemma_insert_by_gold_len(spec_sort_by_gold(s.drop_last()), s.last());
    }
}

proof fn lemma_coalesce_len(s: Seq<PotionEffect>)
    ensures
        s.len() > 0 ==> 1 <= spec_coalesce(s).len() <= s.len(),
        s.len() == 0 ==> spec_coalesce(s).len() == 0,
    decreases s.len(),
{
    if s.len() > 0 {
        lemma_coalesce_len(s.drop_last());
    }
}

/// Descending order by gold value.
pub open spec fn spec_sorted_desc(s: Seq<PotionEffect>) -> bool {
    forall|i: int, j: int|
        0 <= i < j < s.len() ==> (#[trigger] s[i]).gold_value >= (#[trigger] s[j]).gold_value
}

proof fn lemma_insert_by_gold_sorted(s: Seq<PotionEffect>, e: PotionEffect)
    requires
        spec_sorted_desc(s),
    ensures
        spec_sorted_desc(spec_insert_by_gold(s, e)),
    decreases s.len(),
{
    if s.len() == 0 {
    } else if e.gold_value > s.last().gold_value {
        assert(spec_sorted_desc(s.drop_last())) by {
            assert(forall|i: int|
                0 <= i < s.drop_last().len() ==> (#[trigger] s.drop_last()[i]) == s[i]);
        }
        lemma_insert_by_gold_sorted(s.drop_last(), e);
        let inner = spec_insert_by_gold(s.drop_last(), e);
        lemma_insert_by_gold_len(s.drop_last(), e);
        // Every element of the inner insertion is at least the old last.
        assert forall|i: int, j: int|
            0 <= i < j < inner.push(s.last()).len() implies (#[trigger] inner.push(
            s.last(),
        )[i]).gold_value >= (#[trigger] inner.push(s.last())[j]).gold_value by {
            lemma_insert_by_gold_elements(s.drop_last(), e, i);
            if j < inner.len() {
                lemma_insert_by_gold_elements(s.drop_last(), e, j);
            }
        }
    } else {
        assert forall|i: int, j: int|
            0 <= i < j < s.push(e).len() implies (#[trigger] s.push(e)[i]).gold_value >= (
            #[trigger] s.push(e)[j]).gold_value by {
            if j < s.len() {
            } else {
                if i < s.len() - 1 {
                    assert(s[i].gold_value >= s[s.len() - 1].gold_value);
                }
            }
        }
    }
}

proof fn lemma_insert_by_gold_elements(s: Seq<PotionEffect>, e: PotionEffect, i: int)
    requires
        0 <= i < spec_insert_by_gold(s, e).len(),
    ensures
        spec_insert_by_gold(s, e)[i] == e || s.contains(spec_insert_by_gold(s, e)[i]),
    decreases s.len(),
{
    if s.len() == 0 {
    } else if e.gold_value > s.last().gold_value {
        lemma_insert_by_gold_len(s.drop_last(), e);
        if i < spec_insert_by_gold(s.drop_last(), e).len() {
            lemma_insert_by_gold_elements(s.drop_last(), e, i);
            let x = spec_insert_by_gold(s.drop_last(), e)[i];
            if s.drop_last().contains(x) {
                let w = choose|w: int| 0 <= w < s.drop_last().len() && s.drop_last()[w] == x;
                assert(s[w] == x);
            }
        } else {
            assert(spec_insert_by_gold(s, e)[i] == s.last());
            assert(s[s.len() - 1] == s.last());
        }
    } else {
        if i < s.len() {
            assert(s[i] == spec_insert_by_gold(s, e)[i]);
        }
    }
}

proof fn lemma_sort_by_gold_sorted(s: Seq<PotionEffect>)
    ensures
        spec_sorted_desc(spec_sort_by_gold(s)),
    decreases s.len(),
{
    if s.len() > 0 {
        lemma_sort_by_gold_sorted(s.drop_last());
        lemma_insert_by_gold_sorted(spec_sort_by_gold(s.drop_last()), s.last());
    }
}

/// The shape of every crafted potion: between one and the maximum number of
/// active effects, ranked by gold value descending, so the first effect is
/// the strongest and names the mixture.
pub proof fn lemma_crafted_potion_shape(items: Seq<ResolvedIngredientView>)
    requires
        spec_from_ingredients(items) is Ok,
    ensures
        1 <= spec_from_ingredients(items)->Ok_0.effects.len() <= spec_max_effects(),
        spec_sorted_desc(spec_from_ingredients(items)->Ok_0.effects),
{
    let active = spec_active(spec_sort_by_id(spec_pooled(items)));
    let ranked = spec_sort_by_gold(spec_coalesce(active));
    lemma_coalesce_len(active);
    lemma_sort_by_gold_len(spec_coalesce(active));
    lemma_sort_by_gold_sorted(spec_coalesce(active));
    if ranked.len() > spec_max_effects() {
        assert forall|i: int, j: int|
            0 <= i < j < ranked.take(spec_max_effects()).len() implies (#[trigger] ranked.take(
            spec_max_effects(),
        )[i]).gold_value >= (#[trigger] ranked.take(spec_max_effects())[j]).gold_value by {
            assert(ranked[i].gold_value >= ranked[j].gold_value);
        }
    }
}

} // verus!
