//! The canonical game data set: the load order and the maps from global form
//! id to ingredient and magic effect, with validation of cross-references and
//! pruning of entries that do not resolve.

use vstd::prelude::*;
use vstd::seq_lib::*;

use crate::form_id::GlobalFormId;
use crate::ingredient::{Ingredient, IngredientView};
use crate::load_order::LoadOrder;
use crate::magic_effect::{MagicEffect, MagicEffectView};

verus! {

broadcast use vstd::seq_lib::group_seq_properties;

/// A reference to a magic effect that is not present in the data set.
#[derive(Clone, Copy, PartialEq, Eq, Structural, Debug)]
pub struct UnknownFormIdError {
    pub form_id: GlobalFormId,
}

/// Why an ingredient is invalid.
pub enum IngredientError {
    /// The ingredient names magic effects that the data set does not hold;
    /// the second field lists those dangling references in effect order.
    ReferencesUnknownMagicEffects(Ingredient, Vec<UnknownFormIdError>),
}

/// The model of one validation error: the offending ingredient and the ids it
/// cannot resolve.
pub open spec fn error_model(e: IngredientError) -> (IngredientView, Seq<GlobalFormId>) {
    match e {
        IngredientError::ReferencesUnknownMagicEffects(ing, ids) => (
            ing@,
            ids@.map_values(|u: UnknownFormIdError| u.form_id),
        ),
    }
}

/// Whether the magic-effect list holds an entry with this id.
pub open spec fn spec_has_mgef(mgefs: Seq<MagicEffectView>, id: GlobalFormId) -> bool {
    exists|k: int| 0 <= k < mgefs.len() && (#[trigger] mgefs[k]).global_id == id
}

/// The effect ids of `ing` that do not resolve against `mgefs`, in effect
/// order.
pub open spec fn spec_unknown_ids(ing: IngredientView, mgefs: Seq<MagicEffectView>) -> Seq<
    GlobalFormId,
> {
    ing.effect_ids().filter(|id: GlobalFormId| !spec_has_mgef(mgefs, id))
}

/// Whether every effect of `ing` resolves against `mgefs`.
pub open spec fn spec_ingredient_valid(ing: IngredientView, mgefs: Seq<MagicEffectView>) -> bool {
    forall|j: int|
        0 <= j < ing.effects.len() ==> spec_has_mgef(mgefs, (#[trigger] ing.effects[j]).global_id)
}

/// The ingredients that survive pruning: exactly those whose references all
/// resolve.
pub open spec fn spec_purged(ings: Seq<IngredientView>, mgefs: Seq<MagicEffectView>) -> Seq<
    IngredientView,
> {
    ings.filter(|ing: IngredientView| spec_ingredient_valid(ing, mgefs))
}

proof fn lemma_filter_push<A>(s: Seq<A>, x: A, pred: spec_fn(A) -> bool)
    ensures
        s.push(x).filter(pred) == (if pred(x) {
            s.filter(pred).push(x)
        } else {
            s.filter(pred)
        }),
{
    reveal(Seq::filter);
    assert(s.push(x).drop_last() =~= s);
    assert(s.push(x).last() == x);
}

/// An ingredient is valid exactly when its list of dangling references is
/// empty.
pub proof fn lemma_valid_iff_no_unknown(ing: IngredientView, mgefs: Seq<MagicEffectView>)
    ensures
        spec_ingredient_valid(ing, mgefs) <==> spec_unknown_ids(ing, mgefs).len() == 0,
{
    broadcast use vstd::seq_lib::group_filter_ensures;

    let pred = |id: GlobalFormId| !spec_has_mgef(mgefs, id);
    if spec_ingredient_valid(ing, mgefs) {
        if spec_unknown_ids(ing, mgefs).len() > 0 {
            assert(pred(spec_unknown_ids(ing, mgefs)[0]));
            let bad = spec_unknown_ids(ing, mgefs)[0];
            assert(ing.effect_ids().contains(bad)) by {
                lemma_filter_is_subset(ing.effect_ids(), pred, bad);
            }
            let j = choose|j: int|
                0 <= j < ing.effect_ids().len() && #[trigger] ing.effect_ids()[j] == bad;
            assert(spec_has_mgef(mgefs, ing.effects[j].global_id));
        }
    } else {
        let j = choose|j: int|
            0 <= j < ing.effects.len() && !spec_has_mgef(mgefs, (#[trigger] ing.effects[j]).global_id);
        assert(ing.effect_ids()[j] == ing.effects[j].global_id);
        assert(pred(ing.effect_ids()[j]));
        assert(ing.effect_ids().filter(pred).contains(ing.effect_ids()[j]));
    }
}

proof fn lemma_filter_is_subset<A>(s: Seq<A>, pred: spec_fn(A) -> bool, x: A)
    requires
        s.filter(pred).contains(x),
    ensures
        s.contains(x),
    decreases s.len(),
{
    reveal(Seq::filter);
    if s.len() > 0 {
        if s.drop_last().filter(pred).contains(x) {
            lemma_filter_is_subset(s.drop_last(), pred, x);
            let j = choose|j: int| 0 <= j < s.drop_last().len() && s.drop_last()[j] == x;
            assert(s[j] == x);
        } else {
            assert(s[s.len() - 1] == x);
        }
    }
}

/// Pruning is idempotent, and what it leaves is valid: a second prune over
/// the same magic effects removes nothing.
pub proof fn lemma_purge_idempotent(ings: Seq<IngredientView>, mgefs: Seq<MagicEffectView>)
    ensures
        forall|k: int|
            0 <= k < spec_purged(ings, mgefs).len() ==> spec_ingredient_valid(
                #[trigger] spec_purged(ings, mgefs)[k],
                mgefs,
            ),
        spec_purged(spec_purged(ings, mgefs), mgefs) == spec_purged(ings, mgefs),
    decreases ings.len(),
{
    broadcast use vstd::seq_lib::group_filter_ensures;

    let pred = |ing: IngredientView| spec_ingredient_valid(ing, mgefs);
    if ings.len() == 0 {
        reveal(Seq::filter);
        assert(spec_purged(ings, mgefs) =~= ings);
        assert(spec_purged(spec_purged(ings, mgefs), mgefs) =~= ings);
    } else {
        lemma_purge_idempotent(ings.drop_last(), mgefs);
        lemma_filter_push(ings.drop_last(), ings.last(), pred);
        assert(ings.drop_last().push(ings.last()) =~= ings);
        if pred(ings.last()) {
            lemma_filter_push(spec_purged(ings.drop_last(), mgefs), ings.last(), pred);
        }
    }
}

/// The frozen data set: load order, ingredients and magic effects, each
/// ingredient and magic effect keyed by its global form id.
pub struct GameData {
    load_order: LoadOrder,
    ingredients: Vec<Ingredient>,
    magic_effects: Vec<MagicEffect>,
}

impl GameData {
    /// The stored ingredients, as their models, in storage order.
    pub closed spec fn ingredients_seq(self) -> Seq<IngredientView> {
        self.ingredients@.map_values(|i: Ingredient| i@)
    }

    /// The stored magic effects, as their models, in storage order.
    pub closed spec fn magic_effects_seq(self) -> Seq<MagicEffectView> {
        self.magic_effects@.map_values(|m: MagicEffect| m@)
    }

    /// The load order's names.
    pub closed spec fn load_order_names(self) -> Seq<Seq<char>> {
        self.load_order.names()
    }

    pub open spec fn has_magic_effect(self, id: GlobalFormId) -> bool {
        spec_has_mgef(self.magic_effects_seq(), id)
    }

    /// Each ingredient and each magic effect appears under one id only.
    pub open spec fn distinct_ids(self) -> bool {
        &&& forall|i: int, j: int|
            0 <= i < j < self.ingredients_seq().len() ==> (
            #[trigger] self.ingredients_seq()[i]).global_id != (
            #[trigger] self.ingredients_seq()[j]).global_id
        &&& forall|i: int, j: int|
            0 <= i < j < self.magic_effects_seq().len() ==> (
            #[trigger] self.magic_effects_seq()[i]).global_id != (
            #[trigger] self.magic_effects_seq()[j]).global_id
    }

    /// The stored ingredients, in storage order.
    pub fn get_ingredients(&self) -> (r: &Vec<Ingredient>)
        ensures
            r@.map_values(|i: Ingredient| i@) == self.ingredients_seq(),
    {
        &self.ingredients
    }

    /// The stored magic effects, in storage order.
    pub fn get_magic_effects(&self) -> (r: &Vec<MagicEffect>)
        ensures
            r@.map_values(|m: MagicEffect| m@) == self.magic_effects_seq(),
    {
        &self.magic_effects
    }

    /// The load order the data set was built against.
    pub fn get_load_order(&self) -> (r: &LoadOrder)
        ensures
            r.names() == self.load_order_names(),
    {
        &self.load_order
    }

    /// The magic effect stored under `id`, if any.
    pub fn get_magic_effect(&self, id: &GlobalFormId) -> (r: Option<&MagicEffect>)
        ensures
            match r {
                Some(m) => self.has_magic_effect(*id) && m@.global_id == *id && exists|k: int|
                    0 <= k < self.magic_effects_seq().len() && #[trigger] self.magic_effects_seq()[k]
                        == m@,
                None => !self.has_magic_effect(*id),
            },
    {
        let n = self.magic_effects.len();
        let mut k: usize = 0;
        while k < n
            invariant
                n == self.magic_effects@.len(),
                0 <= k <= n,
                forall|k2: int|
                    0 <= k2 < k ==> (#[trigger] self.magic_effects_seq()[k2]).global_id != *id,
            decreases n - k,
        {
            if self.magic_effects[k].global_id == *id {
                proof {
                    assert(self.magic_effects_seq()[k as int] == self.magic_effects@[k as int]@);
                }
                return Some(&self.magic_effects[k]);
            }
            k += 1;
        }
        None
    }

    /// The ingredient stored under `id`, if any.
    pub fn get_ingredient(&self, id: &GlobalFormId) -> (r: Option<&Ingredient>)
        ensures
            match r {
                Some(ing) => ing@.global_id == *id && exists|k: int|
                    0 <= k < self.ingredients_seq().len() && #[trigger] self.ingredients_seq()[k]
                        == ing@,
                None => forall|k: int|
                    0 <= k < self.ingredients_seq().len() ==> (
                    #[trigger] self.ingredients_seq()[k]).global_id != *id,
            },
    {
        let n = self.ingredients.len();
        let mut k: usize = 0;
        while k < n
            invariant
                n == self.ingredients@.len(),
                0 <= k <= n,
                forall|k2: int|
                    0 <= k2 < k ==> (#[trigger] self.ingredients_seq()[k2]).global_id != *id,
            decreases n - k,
        {
            if self.ingredients[k].global_id == *id {
                proof {
                    assert(self.ingredients_seq()[k as int] == self.ingredients@[k as int]@);
                }
                return Some(&self.ingredients[k]);
            }
            k += 1;
        }
        None
    }

    /// Checks that every ingredient's effect references resolve.
    ///
    /// Returns one error per offending ingredient, in storage order, each
    /// listing that ingredient's dangling references in effect order; `Ok`
    /// exactly when there is no offender.  All violations are reported at
    /// once, never just the first.
    pub fn validate(&self) -> (r: Result<(), Vec<IngredientError>>)
        ensures
            match r {
                Ok(_) => forall|k: int|
                    0 <= k < self.ingredients_seq().len() ==> spec_ingredient_valid(
                        #[trigger] self.ingredients_seq()[k],
                        self.magic_effects_seq(),
                    ),
                Err(errs) => {
                    &&& !(forall|k: int|
                        0 <= k < self.ingredients_seq().len() ==> spec_ingredient_valid(
                            #[trigger] self.ingredients_seq()[k],
                            self.magic_effects_seq(),
                        ))
                    &&& errs@.map_values(|e: IngredientError| error_model(e))
                        == self.ingredients_seq().filter(
                        |ing: IngredientView|
                            !spec_ingredient_valid(ing, self.magic_effects_seq()),
                    ).map_values(
                        |ing: IngredientView|
                            (ing, spec_unknown_ids(ing, self.magic_effects_seq())),
                    )
                },
            },
    {
        let ghost mgefs = self.magic_effects_seq();
        let ghost bad_pred = |ing: IngredientView| !spec_ingredient_valid(ing, mgefs);
        let ghost entry_of = |ing: IngredientView| (ing, spec_unknown_ids(ing, mgefs));
        let n = self.ingredients.len();
        let mut errs: Vec<IngredientError> = Vec::new();
        let mut i: usize = 0;
        while i < n
            invariant
                n == self.ingredients@.len(),
                mgefs == self.magic_effects_seq(),
                bad_pred == (|ing: IngredientView| !spec_ingredient_valid(ing, mgefs)),
                entry_of == (|ing: IngredientView| (ing, spec_unknown_ids(ing, mgefs))),
                0 <= i <= n,
                errs@.map_values(|e: IngredientError| error_model(e)) == self.ingredients_seq()
                    .take(i as int).filter(bad_pred).map_values(entry_of),
            decreases n - i,
        {
            let ghost ings = self.ingredients_seq();
            let ing = &self.ingredients[i];
            proof {
                assert(ings[i as int] == ing@);
            }

            // Collect this ingredient's dangling references, in effect order.
            let m = ing.effects.len();
            let mut unknown: Vec<UnknownFormIdError> = Vec::new();
            let mut j: usize = 0;
            while j < m
                invariant
                    m == ing.effects@.len(),
                    mgefs == self.magic_effects_seq(),
                    0 <= j <= m,
                    unknown@.map_values(|u: UnknownFormIdError| u.form_id) == ing@.effect_ids()
                        .take(j as int).filter(|id: GlobalFormId| !spec_has_mgef(mgefs, id)),
                decreases m - j,
            {
                let id = ing.effects[j].global_id;
                proof {
                    assert(ing@.effect_ids()[j as int] == id);
                    assert(ing@.effect_ids().take(j as int + 1).drop_last() =~= ing@.effect_ids()
                        .take(j as int));
                    lemma_filter_push(
                        ing@.effect_ids().take(j as int),
                        id,
                        |id2: GlobalFormId| !spec_has_mgef(mgefs, id2),
                    );
                    assert(ing@.effect_ids().take(j as int).push(id) =~= ing@.effect_ids().take(
                        j as int + 1,
                    ));
                }
                let ghost u0 = unknown@;
                if self.get_magic_effect(&id).is_none() {
                    unknown.push(UnknownFormIdError { form_id: id });
                    proof {
                        assert(unknown@.map_values(|u: UnknownFormIdError| u.form_id) =~= u0
                            .map_values(|u: UnknownFormIdError| u.form_id).push(id));
                    }
                }
                j += 1;
            }
            proof {
                assert(ing@.effect_ids().take(m as int) =~= ing@.effect_ids());
            }

            let ghost e0 = errs@;
            if unknown.len() > 0 {
                proof {
                    lemma_valid_iff_no_unknown(ing@, mgefs);
                }
                let err = IngredientError::ReferencesUnknownMagicEffects(ing.clone(), unknown);
                errs.push(err);
                proof {
                    assert(errs@.map_values(|e: IngredientError| error_model(e)) =~= e0.map_values(
                        |e: IngredientError| error_model(e),
                    ).push(entry_of(ing@)));
                }
            } else {
                proof {
                    lemma_valid_iff_no_unknown(ing@, mgefs);
                }
            }
            proof {
                assert(ings.take(i as int + 1).drop_last() =~= ings.take(i as int));
                lemma_filter_push(ings.take(i as int), ing@, bad_pred);
                assert(ings.take(i as int).push(ing@) =~= ings.take(i as int + 1));
                assert(errs@.map_values(|e: IngredientError| error_model(e)) =~= ings.take(
                    i as int + 1,
                ).filter(bad_pred).map_values(entry_of));
            }
            i += 1;
        }
        proof {
            assert(self.ingredients_seq().take(n as int) =~= self.ingredients_seq());
        }

        if errs.len() > 0 {
            proof {
                broadcast use vstd::seq_lib::group_filter_ensures;

                let bad = self.ingredients_seq().filter(bad_pred);
                assert(bad.len() > 0);
                assert(bad_pred(bad[0]));
                lemma_filter_is_subset(self.ingredients_seq(), bad_pred, bad[0]);
                let k = choose|k: int|
                    0 <= k < self.ingredients_seq().len() && #[trigger] self.ingredients_seq()[k]
                        == bad[0];
            }
            Err(errs)
        } else {
            proof {
                assert forall|k: int|
                    0 <= k < self.ingredients_seq().len() implies spec_ingredient_valid(
                    #[trigger] self.ingredients_seq()[k],
                    self.magic_effects_seq(),
                ) by {
                    if !spec_ingredient_valid(self.ingredients_seq()[k], self.magic_effects_seq()) {
                        broadcast use vstd::seq_lib::group_filter_ensures;

                        assert(self.ingredients_seq().filter(bad_pred).contains(
                            self.ingredients_seq()[k],
                        ));
                    }
                }
            }
            Ok(())
        }
    }

    /// Removes every ingredient with a dangling magic-effect reference; what
    /// remains is exactly the valid part of the data set.  Orphaned magic
    /// effects that lose their last referrer stay in place.
    pub fn purge_invalid(&mut self)
        ensures
            final(self).ingredients_seq() == spec_purged(
                old(self).ingredients_seq(),
                old(self).magic_effects_seq(),
            ),
            final(self).magic_effects_seq() == old(self).magic_effects_seq(),
            final(self).load_order_names() == old(self).load_order_names(),
    {
        let ghost mgefs = self.magic_effects_seq();
        let ghost good_pred = |ing: IngredientView| spec_ingredient_valid(ing, mgefs);
        let n = self.ingredients.len();
        let mut kept: Vec<Ingredient> = Vec::new();
        let mut i: usize = 0;
        while i < n
            invariant
                n == self.ingredients@.len(),
                self == old(self),
                mgefs == self.magic_effects_seq(),
                good_pred == (|ing: IngredientView| spec_ingredient_valid(ing, mgefs)),
                0 <= i <= n,
                kept@.map_values(|ing: Ingredient| ing@) == self.ingredients_seq().take(
                    i as int,
                ).filter(good_pred),
            decreases n - i,
        {
            let ghost ings = self.ingredients_seq();
            let ing = &self.ingredients[i];
            proof {
                assert(ings[i as int] == ing@);
            }

            // An ingredient stays when every effect reference resolves.
            let m = ing.effects.len();
            let mut ok = true;
            let mut j: usize = 0;
            while j < m
                invariant
                    m == ing.effects@.len(),
                    mgefs == self.magic_effects_seq(),
                    0 <= j <= m,
                    ok ==> forall|j2: int|
                        0 <= j2 < j ==> spec_has_mgef(
                            mgefs,
                            (#[trigger] ing.effects@[j2]).global_id,
                        ),
                    !ok ==> !spec_ingredient_valid(ing@, mgefs),
                decreases m - j,
            {
                let id = ing.effects[j].global_id;
                if self.get_magic_effect(&id).is_none() {
                    ok = false;
                    proof {
                        assert(ing@.effects[j as int].global_id == id);
                    }
                    j = m;
                } else {
                    j += 1;
                }
            }

            let ghost k0 = kept@;
            if ok {
                kept.push(ing.clone());
                proof {
                    assert(kept@.map_values(|ing2: Ingredient| ing2@) =~= k0.map_values(
                        |ing2: Ingredient| ing2@,
                    ).push(ing@));
                }
            }
            proof {
                assert(ings.take(i as int + 1).drop_last() =~= ings.take(i as int));
                lemma_filter_push(ings.take(i as int), ing@, good_pred);
                assert(ings.take(i as int).push(ing@) =~= ings.take(i as int + 1));
                assert(kept@.map_values(|ing2: Ingredient| ing2@) =~= ings.take(i as int + 1)
                    .filter(good_pred));
            }
            i += 1;
        }
        proof {
            assert(self.ingredients_seq().take(n as int) =~= self.ingredients_seq());
        }
        self.ingredients = kept;
    }
}


// ---------------------------------------------------------------------------
// Construction: accumulation, pruning of unreferenced effects, compaction
// ---------------------------------------------------------------------------

/// Replaces the entry with `item`'s id, or appends `item` when no entry has
/// that id yet.  This is how records accumulate across sources: a later
/// source's record overrides an earlier one's under the same id.
pub fn upsert_ingredient(list: &mut Vec<Ingredient>, item: Ingredient)
    ensures
        ({
            let l0 = old(list)@.map_values(|x: Ingredient| x@);
            let l1 = final(list)@.map_values(|x: Ingredient| x@);
            if exists|k: int| 0 <= k < l0.len() && (#[trigger] l0[k]).global_id == item@.global_id {
                let k = choose|k: int|
                    0 <= k < l0.len() && (#[trigger] l0[k]).global_id == item@.global_id && forall|
                        k2: int,
                    | 0 <= k2 < k ==> (#[trigger] l0[k2]).global_id != item@.global_id;
                l1 == l0.update(k, item@)
            } else {
                l1 == l0.push(item@)
            }
        }),
{
    let n = list.len();
    let mut k: usize = 0;
    while k < n
        invariant
            n == list@.len(),
            list == old(list),
            0 <= k <= n,
            forall|k2: int|
                0 <= k2 < k ==> (#[trigger] list@[k2])@.global_id != item@.global_id,
        decreases n - k,
    {
        if list[k].global_id.source_index == item.global_id.source_index
            && list[k].global_id.local_id == item.global_id.local_id {
            proof {
                let l0 = list@.map_values(|x: Ingredient| x@);
                assert(l0[k as int] == list@[k as int]@);
                assert(l0[k as int].global_id == item@.global_id);
            }
            list.set(k, item);
            proof {
                let l0 = old(list)@.map_values(|x: Ingredient| x@);
                let l1 = list@.map_values(|x: Ingredient| x@);
                assert(l1 =~= l0.update(k as int, item@));
            }
            return ;
        }
        k += 1;
    }
    list.push(item);
    proof {
        let l0 = old(list)@.map_values(|x: Ingredient| x@);
        let l1 = list@.map_values(|x: Ingredient| x@);
        assert(l1 =~= l0.push(item@));
    }
}

/// Replaces the entry with `item`'s id, or appends `item` when no entry has
/// that id yet.
pub fn upsert_magic_effect(list: &mut Vec<MagicEffect>, item: MagicEffect)
    ensures
        ({
            let l0 = old(list)@.map_values(|x: MagicEffect| x@);
            let l1 = final(list)@.map_values(|x: MagicEffect| x@);
            if exists|k: int| 0 <= k < l0.len() && (#[trigger] l0[k]).global_id == item@.global_id {
                let k = choose|k: int|
                    0 <= k < l0.len() && (#[trigger] l0[k]).global_id == item@.global_id && forall|
                        k2: int,
                    | 0 <= k2 < k ==> (#[trigger] l0[k2]).global_id != item@.global_id;
                l1 == l0.update(k, item@)
            } else {
                l1 == l0.push(item@)
            }
        }),
{
    let n = list.len();
    let mut k: usize = 0;
    while k < n
        invariant
            n == list@.len(),
            list == old(list),
            0 <= k <= n,
            forall|k2: int|
                0 <= k2 < k ==> (#[trigger] list@[k2])@.global_id != item@.global_id,
        decreases n - k,
    {
        if list[k].global_id.source_index == item.global_id.source_index
            && list[k].global_id.local_id == item.global_id.local_id {
            proof {
                let l0 = list@.map_values(|x: MagicEffect| x@);
                assert(l0[k as int] == list@[k as int]@);
                assert(l0[k as int].global_id == item@.global_id);
            }
            list.set(k, item);
            proof {
                let l0 = old(list)@.map_values(|x: MagicEffect| x@);
                let l1 = list@.map_values(|x: MagicEffect| x@);
                assert(l1 =~= l0.update(k as int, item@));
            }
            return ;
        }
        k += 1;
    }
    list.push(item);
    proof {
        let l0 = old(list)@.map_values(|x: MagicEffect| x@);
        let l1 = list@.map_values(|x: MagicEffect| x@);
        assert(l1 =~= l0.push(item@));
    }
}

/// Whether any ingredient's effect references `id`.
pub open spec fn spec_effect_referenced(ings: Seq<IngredientView>, id: GlobalFormId) -> bool {
    exists|k: int, j: int|
        0 <= k < ings.len() && 0 <= j < ings[k].effects.len() && (
        #[trigger] ings[k].effects[j]).global_id == id
}

/// Keeps only the magic effects that some ingredient's effect refers to; the
/// rest never matter to potion building and are dropped before the data set
/// is assembled.
pub fn retain_used_magic_effects(mgefs: Vec<MagicEffect>, ings: &Vec<Ingredient>) -> (r: Vec<
    MagicEffect,
>)
    ensures
        r@.map_values(|m: MagicEffect| m@) == mgefs@.map_values(|m: MagicEffect| m@).filter(
            |m: MagicEffectView|
                spec_effect_referenced(ings@.map_values(|x: Ingredient| x@), m.global_id),
        ),
{
    let ghost ings0 = ings@.map_values(|x: Ingredient| x@);
    let ghost mgefs0 = mgefs@.map_values(|m: MagicEffect| m@);
    let ghost pred = |m: MagicEffectView| spec_effect_referenced(ings0, m.global_id);
    let n = mgefs.len();
    let mut out: Vec<MagicEffect> = Vec::new();
    let mut k: usize = 0;
    while k < n
        invariant
            n == mgefs@.len(),
            ings0 == ings@.map_values(|x: Ingredient| x@),
            mgefs0 == mgefs@.map_values(|m: MagicEffect| m@),
            pred == (|m: MagicEffectView| spec_effect_referenced(ings0, m.global_id)),
            0 <= k <= n,
            out@.map_values(|m: MagicEffect| m@) == mgefs0.take(k as int).filter(pred),
        decreases n - k,
    {
        let id = mgefs[k].global_id;
        proof {
            assert(mgefs0[k as int] == mgefs@[k as int]@);
        }

        // Scan the ingredients for a reference to this effect.
        let mut referenced = false;
        let mut i: usize = 0;
        while i < ings.len() && !referenced
            invariant
                ings0 == ings@.map_values(|x: Ingredient| x@),
                0 <= i <= ings0.len(),
                referenced ==> spec_effect_referenced(ings0, id),
                !referenced ==> forall|k2: int, j2: int|
                    0 <= k2 < i && 0 <= j2 < ings0[k2].effects.len() ==> (
                    #[trigger] ings0[k2].effects[j2]).global_id != id,
            decreases ings0.len() - i, (if referenced { 0int } else { 1int }),
        {
            let ing = &ings[i];
            proof {
                assert(ings0[i as int] == ing@);
            }
            let mut j: usize = 0;
            while j < ing.effects.len() && !referenced
                invariant
                    ings0 == ings@.map_values(|x: Ingredient| x@),
                    0 <= i < ings0.len(),
                    ings0[i as int] == ing@,
                    0 <= j <= ing.effects@.len(),
                    referenced ==> spec_effect_referenced(ings0, id),
                    !referenced ==> forall|j2: int|
                        0 <= j2 < j ==> (#[trigger] ing.effects@[j2]).global_id != id,
                decreases ing.effects@.len() - j, (if referenced { 0int } else { 1int }),
            {
                if ing.effects[j].global_id == id {
                    referenced = true;
                    proof {
                        assert(ings0[i as int].effects[j as int].global_id == id);
                    }
                } else {
                    j += 1;
                }
            }
            if !referenced {
                i += 1;
            }
        }

        let ghost o0 = out@;
        if referenced {
            out.push(mgefs[k].clone());
            proof {
                assert(out@.map_values(|m: MagicEffect| m@) =~= o0.map_values(
                    |m: MagicEffect| m@,
                ).push(mgefs0[k as int]));
            }
        } else {
            proof {
                assert(!pred(mgefs0[k as int]));
            }
        }
        proof {
            assert(mgefs0.take(k as int + 1).drop_last() =~= mgefs0.take(k as int));
            lemma_filter_push(mgefs0.take(k as int), mgefs0[k as int], pred);
            assert(mgefs0.take(k as int).push(mgefs0[k as int]) =~= mgefs0.take(k as int + 1));
            assert(out@.map_values(|m: MagicEffect| m@) =~= mgefs0.take(k as int + 1).filter(pred));
        }
        k += 1;
    }
    proof {
        assert(mgefs0.take(n as int) =~= mgefs0);
    }
    out
}


// ---------------------------------------------------------------------------
// Compaction of the load order and rewriting of source indices
// ---------------------------------------------------------------------------

/// Whether source index `i` is referenced anywhere in the data: by an
/// ingredient's own id, by one of its effect references, or by a magic
/// effect's id.
pub open spec fn spec_index_used(
    ings: Seq<IngredientView>,
    mgefs: Seq<MagicEffectView>,
    i: int,
) -> bool {
    ||| exists|k: int| 0 <= k < ings.len() && ((#[trigger] ings[k]).global_id.source_index as int) == i
    ||| exists|k: int, j: int|
        0 <= k < ings.len() && 0 <= j < ings[k].effects.len() && ((
        #[trigger] ings[k].effects[j]).global_id.source_index as int) == i
    ||| exists|k: int| 0 <= k < mgefs.len() && ((#[trigger] mgefs[k]).global_id.source_index as int) == i
}

/// The compacted position of source index `i`: how many used indices lie
/// below it.
pub open spec fn spec_new_index(
    ings: Seq<IngredientView>,
    mgefs: Seq<MagicEffectView>,
    i: int,
) -> int
    decreases i,
{
    if i <= 0 {
        0
    } else {
        spec_new_index(ings, mgefs, i - 1) + if spec_index_used(ings, mgefs, i - 1) {
            1int
        } else {
            0int
        }
    }
}

proof fn lemma_new_index_bounds(ings: Seq<IngredientView>, mgefs: Seq<MagicEffectView>, i: int)
    requires
        i >= 0,
    ensures
        0 <= spec_new_index(ings, mgefs, i) <= i,
    decreases i,
{
    if i > 0 {
        lemma_new_index_bounds(ings, mgefs, i - 1);
    }
}

proof fn lemma_new_index_eq_rank(
    ings: Seq<IngredientView>,
    mgefs: Seq<MagicEffectView>,
    used: Seq<u16>,
    i: int,
)
    requires
        i >= 0,
        forall|j: int| 0 <= j < i ==> crate::load_order::keeps(used, j) == spec_index_used(ings, mgefs, j),
    ensures
        crate::load_order::rank(used, i) == spec_new_index(ings, mgefs, i),
    decreases i,
{
    if i > 0 {
        lemma_new_index_eq_rank(ings, mgefs, used, i - 1);
    }
}

proof fn lemma_new_index_identity(
    ings: Seq<IngredientView>,
    mgefs: Seq<MagicEffectView>,
    i: int,
)
    requires
        i >= 0,
        forall|j: int| 0 <= j < i ==> spec_index_used(ings, mgefs, j),
    ensures
        spec_new_index(ings, mgefs, i) == i,
    decreases i,
{
    if i > 0 {
        lemma_new_index_identity(ings, mgefs, i - 1);
    }
}

/// The load-order names that survive compaction, in order: the name at each
/// used index, with unused entries dropped.
pub open spec fn spec_compact_names(
    names: Seq<Seq<char>>,
    ings: Seq<IngredientView>,
    mgefs: Seq<MagicEffectView>,
) -> Seq<Seq<char>>
    decreases names.len(),
{
    if names.len() == 0 {
        Seq::<Seq<char>>::empty()
    } else {
        let prefix = spec_compact_names(names.drop_last(), ings, mgefs);
        if spec_index_used(ings, mgefs, names.len() - 1) {
            prefix.push(names.last())
        } else {
            prefix
        }
    }
}

proof fn lemma_new_index_mono(ings: Seq<IngredientView>, mgefs: Seq<MagicEffectView>, i: int)
    requires
        i >= 0,
    ensures
        forall|j: int|
            0 <= j <= i ==> 0 <= #[trigger] spec_new_index(ings, mgefs, j) <= spec_new_index(
                ings,
                mgefs,
                i,
            ),
    decreases i,
{
    if i > 0 {
        lemma_new_index_mono(ings, mgefs, i - 1);
        assert(spec_new_index(ings, mgefs, i) >= spec_new_index(ings, mgefs, i - 1));
    } else {
        assert(spec_new_index(ings, mgefs, 0) == 0);
    }
}

proof fn lemma_compact_names_props(
    names: Seq<Seq<char>>,
    ings: Seq<IngredientView>,
    mgefs: Seq<MagicEffectView>,
    i: int,
)
    requires
        0 <= i <= names.len(),
    ensures
        spec_compact_names(names.take(i), ings, mgefs).len() == spec_new_index(ings, mgefs, i),
        forall|j: int|
            0 <= j < i && spec_index_used(ings, mgefs, j) ==> spec_compact_names(
                names.take(i),
                ings,
                mgefs,
            )[#[trigger] spec_new_index(ings, mgefs, j)] == names[j],
    decreases i,
{
    if i > 0 {
        lemma_compact_names_props(names, ings, mgefs, i - 1);
        assert(names.take(i).drop_last() =~= names.take(i - 1));
        assert(names.take(i).last() == names[i - 1]);
        let cur = spec_compact_names(names.take(i), ings, mgefs);
        let prev = spec_compact_names(names.take(i - 1), ings, mgefs);
        assert forall|j: int|
            0 <= j < i && spec_index_used(ings, mgefs, j) implies cur[#[trigger] spec_new_index(
            ings,
            mgefs,
            j,
        )] == names[j] by {
            lemma_new_index_mono(ings, mgefs, i - 1);
            if j < i - 1 {
                assert(spec_new_index(ings, mgefs, j + 1) == spec_new_index(ings, mgefs, j) + 1);
                assert(spec_new_index(ings, mgefs, j) < spec_new_index(ings, mgefs, i - 1));
                assert(cur[spec_new_index(ings, mgefs, j)] == prev[spec_new_index(ings, mgefs, j)]);
            } else {
                assert(cur == prev.push(names[i - 1]));
                assert(cur[prev.len() as int] == names[i - 1]);
            }
        }
    }
}

/// An id with its source index moved to its compacted position.
pub open spec fn spec_remap_id(
    id: GlobalFormId,
    ings: Seq<IngredientView>,
    mgefs: Seq<MagicEffectView>,
) -> GlobalFormId {
    GlobalFormId {
        source_index: spec_new_index(ings, mgefs, id.source_index as int) as u16,
        local_id: id.local_id,
    }
}

/// An ingredient with every id it holds moved to its compacted position.
pub open spec fn spec_remap_ingredient(
    ing: IngredientView,
    ings: Seq<IngredientView>,
    mgefs: Seq<MagicEffectView>,
) -> IngredientView {
    IngredientView {
        global_id: spec_remap_id(ing.global_id, ings, mgefs),
        editor_id: ing.editor_id,
        name: ing.name,
        effects: ing.effects.map_values(
            |e: crate::ingredient::IngredientEffect|
                crate::ingredient::IngredientEffect {
                    global_id: spec_remap_id(e.global_id, ings, mgefs),
                    duration: e.duration,
                    magnitude_bits: e.magnitude_bits,
                },
        ),
    }
}

/// A magic effect with its id moved to its compacted position.
pub open spec fn spec_remap_mgef(
    m: MagicEffectView,
    ings: Seq<IngredientView>,
    mgefs: Seq<MagicEffectView>,
) -> MagicEffectView {
    MagicEffectView {
        global_id: spec_remap_id(m.global_id, ings, mgefs),
        editor_id: m.editor_id,
        name: m.name,
        description: m.description,
        flags: m.flags,
        is_hostile: m.is_hostile,
        base_cost_bits: m.base_cost_bits,
    }
}

/// Whether every source index mentioned by the data lies below `n`.
pub open spec fn spec_indices_below(
    ings: Seq<IngredientView>,
    mgefs: Seq<MagicEffectView>,
    n: int,
) -> bool {
    &&& forall|k: int|
        0 <= k < ings.len() ==> ((#[trigger] ings[k]).global_id.source_index as int) < n
    &&& forall|k: int, j: int|
        0 <= k < ings.len() && 0 <= j < ings[k].effects.len() ==> ((
        #[trigger] ings[k].effects[j]).global_id.source_index as int) < n
    &&& forall|k: int|
        0 <= k < mgefs.len() ==> ((#[trigger] mgefs[k]).global_id.source_index as int) < n
}

impl GameData {
    /// Assembles a data set from already-globalized records and the load
    /// order they were resolved against.
    ///
    /// Source indices that no record references are drained from the load
    /// order, and every id in the data — each ingredient's and magic
    /// effect's own id and every nested effect reference — is rewritten to
    /// its compacted position, so the stored form stays dense no matter how
    /// many sources were scanned.
    pub fn from_hashmaps(
        load_order: LoadOrder,
        ingredients: Vec<Ingredient>,
        magic_effects: Vec<MagicEffect>,
    ) -> (r: GameData)
        requires
            load_order.names().len() <= 0xFFFF,
            spec_indices_below(
                ingredients@.map_values(|x: Ingredient| x@),
                magic_effects@.map_values(|m: MagicEffect| m@),
                load_order.names().len() as int,
            ),
        ensures
            ({
                let ings0 = ingredients@.map_values(|x: Ingredient| x@);
                let mgefs0 = magic_effects@.map_values(|m: MagicEffect| m@);
                &&& r.load_order_names() == spec_compact_names(load_order.names(), ings0, mgefs0)
                &&& r.ingredients_seq() == ings0.map_values(
                    |ing: IngredientView| spec_remap_ingredient(ing, ings0, mgefs0),
                )
                &&& r.magic_effects_seq() == mgefs0.map_values(
                    |m: MagicEffectView| spec_remap_mgef(m, ings0, mgefs0),
                )
            }),
    {
        let ghost ings0 = ingredients@.map_values(|x: Ingredient| x@);
        let ghost mgefs0 = magic_effects@.map_values(|m: MagicEffect| m@);
        let ghost names0 = load_order.names();
        let mut load_order = load_order;
        let n = load_order.len();

        // Gather the used source indices, in ascending order.
        let mut used: Vec<u16> = Vec::new();
        let mut i: usize = 0;
        while i < n
            invariant
                n == load_order.names().len(),
                n <= 0xFFFF,
                ings0 == ingredients@.map_values(|x: Ingredient| x@),
                mgefs0 == magic_effects@.map_values(|m: MagicEffect| m@),
                0 <= i <= n,
                forall|j: int|
                    0 <= j < i ==> crate::load_order::keeps(used@, j) == spec_index_used(
                        ings0,
                        mgefs0,
                        j,
                    ),
                forall|w: int| 0 <= w < used@.len() ==> ((#[trigger] used@[w]) as int) < i,
            decreases n - i,
        {
            let ghost used0 = used@;
            if Self::index_is_used(&ingredients, &magic_effects, i as u16) {
                used.push(i as u16);
                proof {
                    assert(used@[used@.len() - 1] == i as u16);
                    assert(crate::load_order::keeps(used@, i as int));
                }
            }
            proof {
                assert forall|j: int| 0 <= j < i + 1 implies crate::load_order::keeps(used@, j)
                    == spec_index_used(ings0, mgefs0, j) by {
                    if j < i {
                        if crate::load_order::keeps(used0, j) {
                            let w = choose|w: int|
                                0 <= w < used0.len() && (#[trigger] used0[w]) as int == j;
                            assert(used@[w] as int == j);
                        }
                        if crate::load_order::keeps(used@, j) {
                            let w = choose|w: int|
                                0 <= w < used@.len() && (#[trigger] used@[w]) as int == j;
                            assert(w < used0.len());
                            assert(used0[w] as int == j);
                        }
                    }
                }
            }
            i += 1;
        }

        let remap_opt = load_order.drain_unused(&used);
        proof {
            lemma_new_index_eq_rank(ings0, mgefs0, used@, n as int);
            lemma_new_index_bounds(ings0, mgefs0, n as int);
        }

        match remap_opt {
            None => {
                // Every index is in use: nothing moved, nothing to rewrite.
                proof {
                    assert forall|i2: int| 0 <= i2 < n implies spec_index_used(
                        ings0,
                        mgefs0,
                        i2,
                    ) by {
                        assert(crate::load_order::keeps(used@, i2));
                    }
                    lemma_new_index_identity(ings0, mgefs0, n as int);
                    assert forall|k: int| 0 <= k < ings0.len() implies spec_remap_ingredient(
                        #[trigger] ings0[k],
                        ings0,
                        mgefs0,
                    ) == ings0[k] by {
                        let ing = ings0[k];
                        lemma_new_index_identity(ings0, mgefs0, ing.global_id.source_index as int);
                        assert forall|j: int|
                            0 <= j < ing.effects.len() implies (#[trigger] ing.effects[j]) == (
                        crate::ingredient::IngredientEffect {
                            global_id: spec_remap_id(ing.effects[j].global_id, ings0, mgefs0),
                            duration: ing.effects[j].duration,
                            magnitude_bits: ing.effects[j].magnitude_bits,
                        }) by {
                            lemma_new_index_identity(
                                ings0,
                                mgefs0,
                                ing.effects[j].global_id.source_index as int,
                            );
                        }
                        assert(spec_remap_ingredient(ing, ings0, mgefs0).effects =~= ing.effects);
                    }
                    assert forall|k: int| 0 <= k < mgefs0.len() implies spec_remap_mgef(
                        #[trigger] mgefs0[k],
                        ings0,
                        mgefs0,
                    ) == mgefs0[k] by {
                        lemma_new_index_identity(
                            ings0,
                            mgefs0,
                            mgefs0[k].global_id.source_index as int,
                        );
                    }
                    assert(ings0.map_values(
                        |ing: IngredientView| spec_remap_ingredient(ing, ings0, mgefs0),
                    ) =~= ings0);
                    assert(mgefs0.map_values(
                        |m: MagicEffectView| spec_remap_mgef(m, ings0, mgefs0),
                    ) =~= mgefs0);
                    assert forall|i2: int| 0 <= i2 < n implies spec_new_index(ings0, mgefs0, i2)
                        == i2 by {
                        lemma_new_index_identity(ings0, mgefs0, i2);
                    }
                    assert(load_order.names() == names0);
                    lemma_compact_names_props(names0, ings0, mgefs0, n as int);
                    assert(names0.take(n as int) =~= names0);
                    let compact = spec_compact_names(names0, ings0, mgefs0);
                    assert(compact.len() == n);
                    assert forall|v: int| 0 <= v < n implies compact[v] == names0[v] by {
                        lemma_new_index_identity(ings0, mgefs0, v);
                        assert(compact[spec_new_index(ings0, mgefs0, v)] == names0[v]);
                    }
                    assert(compact =~= names0);
                }
                GameData { load_order, ingredients, magic_effects }
            },
            Some(remap) => {
                proof {
                    assert forall|i2: int| 0 <= i2 < n implies #[trigger] remap@[i2] == (
                    if spec_index_used(ings0, mgefs0, i2) {
                        Some(spec_new_index(ings0, mgefs0, i2) as u16)
                    } else {
                        None::<u16>
                    }) by {
                        lemma_new_index_eq_rank(ings0, mgefs0, used@, i2);
                        lemma_new_index_bounds(ings0, mgefs0, i2);
                        assert(crate::load_order::keeps(used@, i2) == spec_index_used(
                            ings0,
                            mgefs0,
                            i2,
                        ));
                    }
                }
                // Rewrite every id through the remap table.
                let mut new_ings: Vec<Ingredient> = Vec::new();
                let mut k: usize = 0;
                while k < ingredients.len()
                    invariant
                        ings0 == ingredients@.map_values(|x: Ingredient| x@),
                        mgefs0 == magic_effects@.map_values(|m: MagicEffect| m@),
                        n <= 0xFFFF,
                        spec_indices_below(ings0, mgefs0, n as int),
                        remap@.len() == n,
                        forall|i2: int|
                            0 <= i2 < n ==> #[trigger] remap@[i2] == (if spec_index_used(
                                ings0,
                                mgefs0,
                                i2,
                            ) {
                                Some(spec_new_index(ings0, mgefs0, i2) as u16)
                            } else {
                                None::<u16>
                            }),
                        0 <= k <= ings0.len(),
                        new_ings@.len() == k,
                        forall|i2: int|
                            0 <= i2 < k ==> (#[trigger] new_ings@[i2])@ == spec_remap_ingredient(
                                ings0[i2],
                                ings0,
                                mgefs0,
                            ),
                    decreases ingredients@.len() - k,
                {
                    let ghost ni0 = new_ings@;
                    let src = &ingredients[k];
                    proof {
                        assert(ings0[k as int] == src@);
                        assert(spec_index_used(ings0, mgefs0, src@.global_id.source_index as int));
                        lemma_new_index_bounds(ings0, mgefs0, src@.global_id.source_index as int);
                    }
                    let mut item = src.clone();
                    let old_idx = item.global_id.source_index as usize;
                    let new_idx = match remap[old_idx] {
                        Some(v) => v,
                        None => {
                            proof {
                                assert(false);
                            }
                            0
                        },
                    };
                    item.global_id = GlobalFormId {
                        source_index: new_idx,
                        local_id: item.global_id.local_id,
                    };
                    // Rewrite the nested effect references too.
                    let mut new_effects: Vec<crate::ingredient::IngredientEffect> = Vec::new();
                    let mut j: usize = 0;
                    while j < item.effects.len()
                        invariant
                            ings0 == ingredients@.map_values(|x: Ingredient| x@),
                            mgefs0 == magic_effects@.map_values(|m: MagicEffect| m@),
                            n <= 0xFFFF,
                            spec_indices_below(ings0, mgefs0, n as int),
                            remap@.len() == n,
                            forall|i2: int|
                                0 <= i2 < n ==> #[trigger] remap@[i2] == (if spec_index_used(
                                    ings0,
                                    mgefs0,
                                    i2,
                                ) {
                                    Some(spec_new_index(ings0, mgefs0, i2) as u16)
                                } else {
                                    None::<u16>
                                }),
                            0 <= k < ings0.len(),
                            item.effects@ == ings0[k as int].effects,
                            0 <= j <= item.effects@.len(),
                            new_effects@ == ings0[k as int].effects.take(j as int).map_values(
                                |e: crate::ingredient::IngredientEffect|
                                    crate::ingredient::IngredientEffect {
                                        global_id: spec_remap_id(e.global_id, ings0, mgefs0),
                                        duration: e.duration,
                                        magnitude_bits: e.magnitude_bits,
                                    },
                            ),
                        decreases item.effects@.len() - j,
                    {
                        let eff = item.effects[j];
                        proof {
                            assert(ings0[k as int].effects[j as int] == eff);
                            assert(spec_index_used(
                                ings0,
                                mgefs0,
                                eff.global_id.source_index as int,
                            ));
                            lemma_new_index_bounds(
                                ings0,
                                mgefs0,
                                eff.global_id.source_index as int,
                            );
                        }
                        let e_idx = eff.global_id.source_index as usize;
                        let e_new = match remap[e_idx] {
                            Some(v) => v,
                            None => {
                                proof {
                                    assert(false);
                                }
                                0
                            },
                        };
                        new_effects.push(
                            crate::ingredient::IngredientEffect {
                                global_id: GlobalFormId {
                                    source_index: e_new,
                                    local_id: eff.global_id.local_id,
                                },
                                duration: eff.duration,
                                magnitude_bits: eff.magnitude_bits,
                            },
                        );
                        proof {
                            assert(new_effects@ =~= ings0[k as int].effects.take(j as int + 1)
                                .map_values(
                                |e: crate::ingredient::IngredientEffect|
                                    crate::ingredient::IngredientEffect {
                                        global_id: spec_remap_id(e.global_id, ings0, mgefs0),
                                        duration: e.duration,
                                        magnitude_bits: e.magnitude_bits,
                                    },
                            ));
                        }
                        j += 1;
                    }
                    proof {
                        assert(ings0[k as int].effects.take(ings0[k as int].effects.len() as int)
                            =~= ings0[k as int].effects);
                    }
                    item.effects = new_effects;
                    proof {
                        assert(item@.effects =~= spec_remap_ingredient(
                            ings0[k as int],
                            ings0,
                            mgefs0,
                        ).effects);
                        assert(item@ == spec_remap_ingredient(ings0[k as int], ings0, mgefs0));
                    }
                    new_ings.push(item);
                    k += 1;
                }
                proof {
                    assert(new_ings@.map_values(|x: Ingredient| x@) =~= ings0.map_values(
                        |ing: IngredientView| spec_remap_ingredient(ing, ings0, mgefs0),
                    ));
                }

                let mut new_mgefs: Vec<MagicEffect> = Vec::new();
                let mut k: usize = 0;
                while k < magic_effects.len()
                    invariant
                        ings0 == ingredients@.map_values(|x: Ingredient| x@),
                        mgefs0 == magic_effects@.map_values(|m: MagicEffect| m@),
                        n <= 0xFFFF,
                        spec_indices_below(ings0, mgefs0, n as int),
                        remap@.len() == n,
                        forall|i2: int|
                            0 <= i2 < n ==> #[trigger] remap@[i2] == (if spec_index_used(
                                ings0,
                                mgefs0,
                                i2,
                            ) {
                                Some(spec_new_index(ings0, mgefs0, i2) as u16)
                            } else {
                                None::<u16>
                            }),
                        0 <= k <= mgefs0.len(),
                        new_mgefs@.len() == k,
                        forall|i2: int|
                            0 <= i2 < k ==> (#[trigger] new_mgefs@[i2])@ == spec_remap_mgef(
                                mgefs0[i2],
                                ings0,
                                mgefs0,
                            ),
                    decreases magic_effects@.len() - k,
                {
                    let src = &magic_effects[k];
                    proof {
                        assert(mgefs0[k as int] == src@);
                        assert(spec_index_used(ings0, mgefs0, src@.global_id.source_index as int));
                        lemma_new_index_bounds(ings0, mgefs0, src@.global_id.source_index as int);
                    }
                    let mut item = src.clone();
                    let old_idx = item.global_id.source_index as usize;
                    let new_idx = match remap[old_idx] {
                        Some(v) => v,
                        None => {
                            proof {
                                assert(false);
                            }
                            0
                        },
                    };
                    item.global_id = GlobalFormId {
                        source_index: new_idx,
                        local_id: item.global_id.local_id,
                    };
                    proof {
                        assert(new_idx == spec_new_index(
                            ings0,
                            mgefs0,
                            mgefs0[k as int].global_id.source_index as int,
                        ) as u16);
                        assert(item@.global_id == spec_remap_id(
                            mgefs0[k as int].global_id,
                            ings0,
                            mgefs0,
                        ));
                        assert(item@.editor_id == mgefs0[k as int].editor_id);
                        assert(item@ == spec_remap_mgef(mgefs0[k as int], ings0, mgefs0));
                    }
                    new_mgefs.push(item);
                    k += 1;
                }
                proof {
                    assert(new_mgefs@.map_values(|m: MagicEffect| m@) =~= mgefs0.map_values(
                        |m: MagicEffectView| spec_remap_mgef(m, ings0, mgefs0),
                    ));
                }

                proof {
                    lemma_compact_names_props(names0, ings0, mgefs0, n as int);
                    assert(names0.take(n as int) =~= names0);
                    let compact = spec_compact_names(names0, ings0, mgefs0);
                    assert(load_order.names().len() == crate::load_order::rank(used@, n as int));
                    assert(compact.len() == spec_new_index(ings0, mgefs0, n as int));
                    assert forall|v: int|
                        0 <= v < compact.len() implies load_order.names()[v] == compact[v] by {
                        crate::load_order::lemma_rank_hits(used@, n as int, v);
                        let i2 = choose|i2: int|
                            0 <= i2 < n && crate::load_order::keeps(used@, i2)
                                && crate::load_order::rank(used@, i2) == v;
                        lemma_new_index_eq_rank(ings0, mgefs0, used@, i2);
                        assert(spec_index_used(ings0, mgefs0, i2));
                        assert(load_order.names()[crate::load_order::rank(used@, i2)]
                            == names0[i2]);
                        assert(compact[spec_new_index(ings0, mgefs0, i2)] == names0[i2]);
                    }
                    assert(load_order.names() =~= compact);
                }
                GameData { load_order, ingredients: new_ings, magic_effects: new_mgefs }
            },
        }
    }

    /// Whether any record in the data references source index `i`.
    fn index_is_used(
        ingredients: &Vec<Ingredient>,
        magic_effects: &Vec<MagicEffect>,
        i: u16,
    ) -> (r: bool)
        ensures
            r == spec_index_used(
                ingredients@.map_values(|x: Ingredient| x@),
                magic_effects@.map_values(|m: MagicEffect| m@),
                i as int,
            ),
    {
        let ghost ings0 = ingredients@.map_values(|x: Ingredient| x@);
        let ghost mgefs0 = magic_effects@.map_values(|m: MagicEffect| m@);
        let mut k: usize = 0;
        while k < ingredients.len()
            invariant
                ings0 == ingredients@.map_values(|x: Ingredient| x@),
                0 <= k <= ings0.len(),
                forall|k2: int|
                    0 <= k2 < k ==> ((#[trigger] ings0[k2]).global_id.source_index as int) != i as int,
                forall|k2: int, j2: int|
                    0 <= k2 < k && 0 <= j2 < ings0[k2].effects.len() ==> ((
                    #[trigger] ings0[k2].effects[j2]).global_id.source_index as int) != i as int,
            decreases ings0.len() - k,
        {
            let ing = &ingredients[k];
            proof {
                assert(ings0[k as int] == ing@);
            }
            if ing.global_id.source_index == i {
                return true;
            }
            let mut j: usize = 0;
            while j < ing.effects.len()
                invariant
                    ings0 == ingredients@.map_values(|x: Ingredient| x@),
                    0 <= k < ings0.len(),
                    ings0[k as int] == ing@,
                    0 <= j <= ing.effects@.len(),
                    forall|j2: int|
                        0 <= j2 < j ==> ((#[trigger] ing.effects@[j2]).global_id.source_index
                            as int) != i as int,
                decreases ing.effects@.len() - j,
            {
                if ing.effects[j].global_id.source_index == i {
                    proof {
                        assert(ings0[k as int].effects[j as int].global_id.source_index == i);
                    }
                    return true;
                }
                j += 1;
            }
            k += 1;
        }
        let mut k: usize = 0;
        while k < magic_effects.len()
            invariant
                mgefs0 == magic_effects@.map_values(|m: MagicEffect| m@),
                0 <= k <= mgefs0.len(),
                forall|k2: int|
                    0 <= k2 < k ==> ((#[trigger] mgefs0[k2]).global_id.source_index as int) != i as int,
            decreases mgefs0.len() - k,
        {
            proof {
                assert(mgefs0[k as int] == magic_effects@[k as int]@);
            }
            if magic_effects[k].global_id.source_index == i {
                return true;
            }
            k += 1;
        }
        false
    }

    /// Builds a data set from a plain list of source names and already
    /// globalized records, compacting exactly as `from_hashmaps` does.
    pub fn from_vecs(
        load_order: Vec<String>,
        ingredients: Vec<Ingredient>,
        magic_effects: Vec<MagicEffect>,
    ) -> (r: GameData)
        requires
            load_order@.len() <= 0xFFFF,
            spec_indices_below(
                ingredients@.map_values(|x: Ingredient| x@),
                magic_effects@.map_values(|m: MagicEffect| m@),
                load_order@.len() as int,
            ),
        ensures
            ({
                let ings0 = ingredients@.map_values(|x: Ingredient| x@);
                let mgefs0 = magic_effects@.map_values(|m: MagicEffect| m@);
                let names = load_order@.map_values(|s: String| s@);
                &&& r.load_order_names() == spec_compact_names(names, ings0, mgefs0)
                &&& r.ingredients_seq() == ings0.map_values(
                    |ing: IngredientView| spec_remap_ingredient(ing, ings0, mgefs0),
                )
                &&& r.magic_effects_seq() == mgefs0.map_values(
                    |m: MagicEffectView| spec_remap_mgef(m, ings0, mgefs0),
                )
            }),
    {
        let lo = LoadOrder::new(load_order);
        GameData::from_hashmaps(lo, ingredients, magic_effects)
    }
}

} // verus!
