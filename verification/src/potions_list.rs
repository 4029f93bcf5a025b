//! The combinatorial search: every valid 2- and 3-ingredient combination,
//! each built into a potion, ranked by score, and exposed as one merged
//! descending sequence.

use vstd::prelude::*;

use crate::form_id::GlobalFormId;
use crate::potion::{
    Potion, PotionView, ResolvedIngredient, ResolvedIngredientView, lemma_craft_succeeds,
    spec_from_ingredients, spec_shares_resolved,
};

verus! {

/// The universe the search runs over: pairwise-distinct ingredients, none of
/// which lists one effect twice.
pub open spec fn spec_universe_wf(items: Seq<ResolvedIngredientView>) -> bool {
    &&& forall|i: int, j: int|
        0 <= i < j < items.len() ==> (#[trigger] items[i]).ingredient.global_id != (
        #[trigger] items[j]).ingredient.global_id
    &&& forall|k: int| 0 <= k < items.len() ==> (#[trigger] items[k]).distinct_effect_ids()
}

/// The ids the two ingredients' resolved effects have in common.
pub open spec fn spec_shared_set(a: ResolvedIngredientView, b: ResolvedIngredientView) -> Set<
    GlobalFormId,
> {
    Set::new(
        |id: GlobalFormId|
            (exists|x: int| 0 <= x < a.effects.len() && (#[trigger] a.effects[x]).global_id == id)
                && (exists|y: int|
                0 <= y < b.effects.len() && (#[trigger] b.effects[y]).global_id == id),
    )
}

/// A pair is a valid combination when it shares at least one effect.
pub open spec fn spec_valid_pair(a: ResolvedIngredientView, b: ResolvedIngredientView) -> bool {
    spec_shares_resolved(a, b)
}

/// A triple is valid when, seen as a triangle whose edges are the pairs that
/// share an effect, at least two edges are present and the present edges'
/// shared-effect sets are not all the same: no ingredient may be dead
/// weight.
pub open spec fn spec_valid_triple(
    a: ResolvedIngredientView,
    b: ResolvedIngredientView,
    c: ResolvedIngredientView,
) -> bool {
    let ab = spec_shares_resolved(a, b);
    let bc = spec_shares_resolved(b, c);
    let ca = spec_shares_resolved(c, a);
    if ab && bc && !ca {
        spec_shared_set(a, b) != spec_shared_set(b, c)
    } else if ab && !bc && ca {
        spec_shared_set(a, b) != spec_shared_set(c, a)
    } else if !ab && bc && ca {
        spec_shared_set(b, c) != spec_shared_set(c, a)
    } else if ab && bc && ca {
        let d12 = spec_shared_set(a, b) != spec_shared_set(b, c);
        let d23 = spec_shared_set(b, c) != spec_shared_set(c, a);
        let d31 = spec_shared_set(c, a) != spec_shared_set(a, b);
        (d12 && (d31 || d23)) || (d31 && d23)
    } else {
        false
    }
}

/// The potion a valid pair yields.
pub open spec fn spec_pair_view(items: Seq<ResolvedIngredientView>, i: int, j: int) -> PotionView {
    spec_from_ingredients(seq![items[i], items[j]])->Ok_0
}

/// The potion a valid triple yields.
pub open spec fn spec_triple_view(
    items: Seq<ResolvedIngredientView>,
    i: int,
    j: int,
    k: int,
) -> PotionView {
    spec_from_ingredients(seq![items[i], items[j], items[k]])->Ok_0
}

/// Potions of the valid pairs `(i, j2)` for `j2` in `(i, j)`, in order.
pub open spec fn spec_pairs_row_upto(items: Seq<ResolvedIngredientView>, i: int, j: int) -> Seq<
    PotionView,
>
    decreases j - i,
{
    if j <= i + 1 {
        Seq::<PotionView>::empty()
    } else {
        spec_pairs_row_upto(items, i, j - 1) + (if spec_valid_pair(items[i], items[j - 1]) {
            seq![spec_pair_view(items, i, j - 1)]
        } else {
            Seq::<PotionView>::empty()
        })
    }
}

/// Potions of all valid pairs with first index below `i`, in enumeration
/// order.
pub open spec fn spec_pairs_upto(items: Seq<ResolvedIngredientView>, i: int) -> Seq<PotionView>
    decreases i,
{
    if i <= 0 {
        Seq::<PotionView>::empty()
    } else {
        spec_pairs_upto(items, i - 1) + spec_pairs_row_upto(items, i - 1, items.len() as int)
    }
}

/// Potions of the valid triples `(i, j, k2)` for `k2` in `(j, k)`.
pub open spec fn spec_triples_inner_upto(
    items: Seq<ResolvedIngredientView>,
    i: int,
    j: int,
    k: int,
) -> Seq<PotionView>
    decreases k - j,
{
    if k <= j + 1 {
        Seq::<PotionView>::empty()
    } else {
        spec_triples_inner_upto(items, i, j, k - 1) + (
        if spec_valid_triple(items[i], items[j], items[k - 1]) {
            seq![spec_triple_view(items, i, j, k - 1)]
        } else {
            Seq::<PotionView>::empty()
        })
    }
}

/// Potions of the valid triples `(i, j2, _)` for `j2` in `(i, j)`.
pub open spec fn spec_triples_mid_upto(
    items: Seq<ResolvedIngredientView>,
    i: int,
    j: int,
) -> Seq<PotionView>
    decreases j - i,
{
    if j <= i + 1 {
        Seq::<PotionView>::empty()
    } else {
        spec_triples_mid_upto(items, i, j - 1) + spec_triples_inner_upto(
            items,
            i,
            j - 1,
            items.len() as int,
        )
    }
}

/// Potions of all valid triples with first index below `i`.
pub open spec fn spec_triples_upto(items: Seq<ResolvedIngredientView>, i: int) -> Seq<PotionView>
    decreases i,
{
    if i <= 0 {
        Seq::<PotionView>::empty()
    } else {
        spec_triples_upto(items, i - 1) + spec_triples_mid_upto(items, i - 1, items.len() as int)
    }
}

/// One step of a stable insertion sort of potions by score descending.
pub open spec fn spec_insert_potion_desc(s: Seq<PotionView>, p: PotionView) -> Seq<PotionView>
    decreases s.len(),
{
    if s.len() == 0 {
        seq![p]
    } else if p.gold_value > s.last().gold_value {
        spec_insert_potion_desc(s.drop_last(), p).push(s.last())
    } else {
        s.push(p)
    }
}

/// Stable sort of potions by score descending.
pub open spec fn spec_sort_potions_desc(s: Seq<PotionView>) -> Seq<PotionView>
    decreases s.len(),
{
    if s.len() == 0 {
        s
    } else {
        spec_insert_potion_desc(spec_sort_potions_desc(s.drop_last()), s.last())
    }
}

/// The streaming merge of the two ranked lists: take from the three-
/// ingredient list while its head strictly beats the two-ingredient list's
/// head, else take from the two-ingredient list.
pub open spec fn spec_merge_desc(three: Seq<PotionView>, two: Seq<PotionView>) -> Seq<PotionView>
    decreases three.len() + two.len(),
{
    if three.len() == 0 {
        two
    } else if two.len() == 0 {
        three
    } else if three[0].gold_value > two[0].gold_value {
        seq![three[0]] + spec_merge_desc(three.drop_first(), two)
    } else {
        seq![two[0]] + spec_merge_desc(three, two.drop_first())
    }
}

// ---------------------------------------------------------------------------
// Executable helpers
// ---------------------------------------------------------------------------

fn ids_contain(v: &Vec<GlobalFormId>, id: GlobalFormId) -> (r: bool)
    ensures
        r == v@.contains(id),
{
    let mut k: usize = 0;
    while k < v.len()
        invariant
            0 <= k <= v@.len(),
            forall|k2: int| 0 <= k2 < k ==> v@[k2] != id,
        decreases v@.len() - k,
    {
        if v[k].source_index == id.source_index && v[k].local_id == id.local_id {
            proof {
                assert(v@[k as int] == id);
            }
            return true;
        }
        k += 1;
    }
    false
}

/// The shared effect ids of the two ingredients' resolved effects, in the
/// first ingredient's order, without repetition.
fn resolved_shared_ids(a: &ResolvedIngredient, b: &ResolvedIngredient) -> (r: Vec<GlobalFormId>)
    ensures
        r@.to_set() == spec_shared_set(a@, b@),
        r@.no_duplicates(),
{
    let n = a.effects.len();
    let mut out: Vec<GlobalFormId> = Vec::new();
    let mut i: usize = 0;
    while i < n
        invariant
            n == a.effects@.len(),
            0 <= i <= n,
            out@.no_duplicates(),
            forall|k: int|
                0 <= k < out@.len() ==> spec_shared_set(a@, b@).contains(#[trigger] out@[k]),
            forall|i2: int|
                0 <= i2 < i && spec_shared_set(a@, b@).contains(
                    #[trigger] a.effects@[i2].global_id,
                ) ==> out@.contains(a.effects@[i2].global_id),
        decreases n - i,
    {
        let ghost out0 = out@;
        let id = a.effects[i].global_id;
        let mut in_b = false;
        let mut j: usize = 0;
        while j < b.effects.len()
            invariant
                0 <= j <= b.effects@.len(),
                in_b ==> exists|y: int|
                    0 <= y < b.effects@.len() && (#[trigger] b.effects@[y]).global_id == id,
                !in_b ==> forall|y: int|
                    0 <= y < j ==> (#[trigger] b.effects@[y]).global_id != id,
            decreases b.effects@.len() - j,
        {
            if b.effects[j].global_id.source_index == id.source_index && b.effects[
                j
            ].global_id.local_id == id.local_id {
                in_b = true;
                proof {
                    assert(b.effects@[j as int].global_id == id);
                }
                j = b.effects.len();
            } else {
                j += 1;
            }
        }
        if in_b {
            if !ids_contain(&out, id) {
                proof {
                    assert(a.effects@[i as int].global_id == id);
                    assert(spec_shared_set(a@, b@).contains(id));
                }
                out.push(id);
            }
        } else {
            proof {
                assert(!spec_shared_set(a@, b@).contains(id));
            }
        }
        proof {
            assert(out@ == out0 || out@ == out0.push(id));
            assert forall|x: GlobalFormId| out0.contains(x) implies out@.contains(x) by {
                let k = choose|k: int| 0 <= k < out0.len() && out0[k] == x;
                assert(out@[k] == x);
            }
            if out@ == out0.push(id) {
                assert(out@[out@.len() - 1] == id);
            }
        }
        i += 1;
    }
    proof {
        assert(out@.to_set() =~= spec_shared_set(a@, b@)) by {
            assert forall|id: GlobalFormId| #[trigger]
                spec_shared_set(a@, b@).contains(id) implies out@.to_set().contains(id) by {
                let x = choose|x: int|
                    0 <= x < a@.effects.len() && (#[trigger] a@.effects[x]).global_id == id;
                assert(a.effects@[x].global_id == id);
                assert(out@.contains(id));
            }
            assert forall|id: GlobalFormId| #[trigger] out@.to_set().contains(id) implies spec_shared_set(
                a@,
                b@,
            ).contains(id) by {
                let k = choose|k: int| 0 <= k < out@.len() && out@[k] == id;
            }
        }
    }
    out
}

proof fn lemma_shared_nonempty(a: ResolvedIngredientView, b: ResolvedIngredientView)
    ensures
        spec_shares_resolved(a, b) <==> spec_shared_set(a, b) != Set::<GlobalFormId>::empty(),
{
    if spec_shares_resolved(a, b) {
        let (x, y) = choose|x: int, y: int|
            0 <= x < a.effects.len() && 0 <= y < b.effects.len() && (
            #[trigger] a.effects[x]).global_id == (#[trigger] b.effects[y]).global_id;
        let id = a.effects[x].global_id;
        assert(spec_shared_set(a, b).contains(id));
        assert(spec_shared_set(a, b) != Set::<GlobalFormId>::empty());
    }
    if spec_shared_set(a, b) != Set::<GlobalFormId>::empty() {
        if !spec_shares_resolved(a, b) {
            assert(spec_shared_set(a, b) =~= Set::<GlobalFormId>::empty()) by {
                assert forall|id: GlobalFormId| !(#[trigger] spec_shared_set(a, b).contains(
                    id,
                )) by {
                    if spec_shared_set(a, b).contains(id) {
                        let x = choose|x: int|
                            0 <= x < a.effects.len() && (#[trigger] a.effects[x]).global_id == id;
                        let y = choose|y: int|
                            0 <= y < b.effects.len() && (#[trigger] b.effects[y]).global_id == id;
                    }
                }
            }
        }
    }
}

fn id_sets_equal(x: &Vec<GlobalFormId>, y: &Vec<GlobalFormId>) -> (r: bool)
    ensures
        r == (x@.to_set() == y@.to_set()),
{
    let mut k: usize = 0;
    while k < x.len()
        invariant
            0 <= k <= x@.len(),
            forall|k2: int| 0 <= k2 < k ==> y@.to_set().contains(#[trigger] x@[k2]),
        decreases x@.len() - k,
    {
        if !ids_contain(y, x[k]) {
            proof {
                assert(x@.to_set().contains(x@[k as int]));
                assert(!y@.to_set().contains(x@[k as int])) by {
                    if y@.to_set().contains(x@[k as int]) {
                        let w = choose|w: int| 0 <= w < y@.len() && y@[w] == x@[k as int];
                    }
                }
            }
            return false;
        }
        proof {
            assert(y@.contains(x@[k as int]));
            assert(y@.to_set().contains(x@[k as int]));
        }
        k += 1;
    }
    let mut k: usize = 0;
    while k < y.len()
        invariant
            0 <= k <= y@.len(),
            forall|k2: int| 0 <= k2 < x@.len() ==> y@.to_set().contains(#[trigger] x@[k2]),
            forall|k2: int| 0 <= k2 < k ==> x@.to_set().contains(#[trigger] y@[k2]),
        decreases y@.len() - k,
    {
        if !ids_contain(x, y[k]) {
            proof {
                assert(y@.to_set().contains(y@[k as int]));
                assert(!x@.to_set().contains(y@[k as int])) by {
                    if x@.to_set().contains(y@[k as int]) {
                        let w = choose|w: int| 0 <= w < x@.len() && x@[w] == y@[k as int];
                    }
                }
            }
            return false;
        }
        proof {
            assert(x@.contains(y@[k as int]));
            assert(x@.to_set().contains(y@[k as int]));
        }
        k += 1;
    }
    proof {
        assert(x@.to_set() =~= y@.to_set()) by {
            assert forall|id: GlobalFormId| #[trigger] x@.to_set().contains(id) implies y@.to_set().contains(
                id,
            ) by {
                let w = choose|w: int| 0 <= w < x@.len() && x@[w] == id;
            }
            assert forall|id: GlobalFormId| #[trigger] y@.to_set().contains(id) implies x@.to_set().contains(
                id,
            ) by {
                let w = choose|w: int| 0 <= w < y@.len() && y@[w] == id;
            }
        }
    }
    true
}

/// Whether the triple is a valid combination under the no-dead-weight rule.
pub fn valid_triple(a: &ResolvedIngredient, b: &ResolvedIngredient, c: &ResolvedIngredient) -> (r:
    bool)
    ensures
        r == spec_valid_triple(a@, b@, c@),
{
    let ab_ids = resolved_shared_ids(a, b);
    let bc_ids = resolved_shared_ids(b, c);
    let ca_ids = resolved_shared_ids(c, a);
    let ab = ab_ids.len() > 0;
    let bc = bc_ids.len() > 0;
    let ca = ca_ids.len() > 0;
    proof {
        lemma_shared_nonempty(a@, b@);
        lemma_shared_nonempty(b@, c@);
        lemma_shared_nonempty(c@, a@);
        if ab_ids@.len() > 0 {
            assert(ab_ids@.to_set().contains(ab_ids@[0]));
        } else {
            assert(ab_ids@.to_set() =~= Set::<GlobalFormId>::empty()) by {
                assert forall|id: GlobalFormId| !(#[trigger] ab_ids@.to_set().contains(id)) by {
                    if ab_ids@.to_set().contains(id) {
                        let w = choose|w: int| 0 <= w < ab_ids@.len() && ab_ids@[w] == id;
                    }
                }
            }
        }
        if bc_ids@.len() > 0 {
            assert(bc_ids@.to_set().contains(bc_ids@[0]));
        } else {
            assert(bc_ids@.to_set() =~= Set::<GlobalFormId>::empty()) by {
                assert forall|id: GlobalFormId| !(#[trigger] bc_ids@.to_set().contains(id)) by {
                    if bc_ids@.to_set().contains(id) {
                        let w = choose|w: int| 0 <= w < bc_ids@.len() && bc_ids@[w] == id;
                    }
                }
            }
        }
        if ca_ids@.len() > 0 {
            assert(ca_ids@.to_set().contains(ca_ids@[0]));
        } else {
            assert(ca_ids@.to_set() =~= Set::<GlobalFormId>::empty()) by {
                assert forall|id: GlobalFormId| !(#[trigger] ca_ids@.to_set().contains(id)) by {
                    if ca_ids@.to_set().contains(id) {
                        let w = choose|w: int| 0 <= w < ca_ids@.len() && ca_ids@[w] == id;
                    }
                }
            }
        }
    }
    if ab && bc && !ca {
        !id_sets_equal(&ab_ids, &bc_ids)
    } else if ab && !bc && ca {
        !id_sets_equal(&ab_ids, &ca_ids)
    } else if !ab && bc && ca {
        !id_sets_equal(&bc_ids, &ca_ids)
    } else if ab && bc && ca {
        let d12 = !id_sets_equal(&ab_ids, &bc_ids);
        let d23 = !id_sets_equal(&bc_ids, &ca_ids);
        let d31 = !id_sets_equal(&ca_ids, &ab_ids);
        (d12 && (d31 || d23)) || (d31 && d23)
    } else {
        false
    }
}

fn insert_potion_desc(v: &mut Vec<Potion>, p: Potion)
    ensures
        final(v)@.map_values(|q: Potion| q@) == spec_insert_potion_desc(
            old(v)@.map_values(|q: Potion| q@),
            p@,
        ),
    decreases old(v)@.len(),
{
    let ghost v0 = v@.map_values(|q: Potion| q@);
    if v.len() == 0 {
        v.push(p);
        proof {
            assert(v@.map_values(|q: Potion| q@) =~= seq![p@]);
        }
    } else {
        let last_gold = v[v.len() - 1].gold_value;
        proof {
            assert(v0.last() == v@[v@.len() - 1]@);
        }
        if p.gold_value > last_gold {
            let last = match v.pop() {
                Some(x) => x,
                None => {
                    proof {
                        assert(false);
                    }
                    p.clone()
                },
            };
            proof {
                assert(v@.map_values(|q: Potion| q@) =~= v0.drop_last());
                assert(last@ == v0.last());
            }
            insert_potion_desc(v, p);
            v.push(last);
            proof {
                assert(v@.map_values(|q: Potion| q@) =~= spec_insert_potion_desc(
                    v0.drop_last(),
                    p@,
                ).push(v0.last()));
            }
        } else {
            v.push(p);
            proof {
                assert(v@.map_values(|q: Potion| q@) =~= v0.push(p@));
            }
        }
    }
}

fn sort_potions_desc(v: Vec<Potion>) -> (r: Vec<Potion>)
    ensures
        r@.map_values(|q: Potion| q@) == spec_sort_potions_desc(v@.map_values(|q: Potion| q@)),
{
    let ghost v0 = v@.map_values(|q: Potion| q@);
    let n = v.len();
    let mut out: Vec<Potion> = Vec::new();
    let mut v = v;
    let mut k: usize = 0;
    while k < n
        invariant
            n == v@.len(),
            v0 == v@.map_values(|q: Potion| q@),
            0 <= k <= n,
            out@.map_values(|q: Potion| q@) == spec_sort_potions_desc(v0.take(k as int)),
        decreases n - k,
    {
        let p = v[k].clone();
        proof {
            assert(p@ == v0[k as int]);
            assert(v0.take(k as int + 1).drop_last() =~= v0.take(k as int));
            assert(v0.take(k as int + 1).last() == v0[k as int]);
        }
        insert_potion_desc(&mut out, p);
        k += 1;
    }
    proof {
        assert(v0.take(n as int) =~= v0);
    }
    out
}


/// Whether the two ingredients' resolved effects share at least one id.
pub fn resolved_shares(a: &ResolvedIngredient, b: &ResolvedIngredient) -> (r: bool)
    ensures
        r == spec_shares_resolved(a@, b@),
{
    let n = a.effects.len();
    let m = b.effects.len();
    let mut i: usize = 0;
    while i < n
        invariant
            n == a.effects@.len(),
            m == b.effects@.len(),
            0 <= i <= n,
            forall|i2: int, j2: int|
                0 <= i2 < i && 0 <= j2 < m ==> (#[trigger] a.effects@[i2]).global_id != (
                #[trigger] b.effects@[j2]).global_id,
        decreases n - i,
    {
        let mut j: usize = 0;
        while j < m
            invariant
                n == a.effects@.len(),
                m == b.effects@.len(),
                0 <= i < n,
                0 <= j <= m,
                forall|j2: int|
                    0 <= j2 < j ==> a.effects@[i as int].global_id != (
                    #[trigger] b.effects@[j2]).global_id,
            decreases m - j,
        {
            if a.effects[i].global_id.source_index == b.effects[j].global_id.source_index
                && a.effects[i].global_id.local_id == b.effects[j].global_id.local_id {
                proof {
                    assert((#[trigger] a@.effects[i as int]).global_id == (
                    #[trigger] b@.effects[j as int]).global_id);
                }
                return true;
            }
            j += 1;
        }
        i += 1;
    }
    false
}

/// The ranked results of the combinatorial search over a fixed set of
/// ingredients: all valid 2-combinations and all valid 3-combinations, each
/// crafted into a potion, each list sorted by score descending.
pub struct PotionsList {
    ingredients: Vec<ResolvedIngredient>,
    potions_2: Vec<Potion>,
    potions_3: Vec<Potion>,
}

impl PotionsList {
    /// The ingredient universe the search runs over.
    pub closed spec fn ingredients_seq(self) -> Seq<ResolvedIngredientView> {
        self.ingredients@.map_values(|ri: ResolvedIngredient| ri@)
    }

    /// The ranked 2-ingredient potions.
    pub closed spec fn potions_2_seq(self) -> Seq<PotionView> {
        self.potions_2@.map_values(|p: Potion| p@)
    }

    /// The ranked 3-ingredient potions.
    pub closed spec fn potions_3_seq(self) -> Seq<PotionView> {
        self.potions_3@.map_values(|p: Potion| p@)
    }

    /// Prepares a search over these ingredients.  They must be pairwise
    /// distinct and individually well formed; the potion lists start empty
    /// until `build_potions` runs.
    pub fn new(ingredients: Vec<ResolvedIngredient>) -> (r: PotionsList)
        requires
            spec_universe_wf(ingredients@.map_values(|ri: ResolvedIngredient| ri@)),
        ensures
            r.ingredients_seq() == ingredients@.map_values(|ri: ResolvedIngredient| ri@),
            r.potions_2_seq() == Seq::<PotionView>::empty(),
            r.potions_3_seq() == Seq::<PotionView>::empty(),
    {
        let r = PotionsList { ingredients, potions_2: Vec::new(), potions_3: Vec::new() };
        proof {
            assert(r.potions_2_seq() =~= Seq::<PotionView>::empty());
            assert(r.potions_3_seq() =~= Seq::<PotionView>::empty());
        }
        r
    }

    /// Computes all possible potions: every valid pair and triple, crafted
    /// and ranked by score descending.
    pub fn build_potions(&mut self)
        requires
            spec_universe_wf(old(self).ingredients_seq()),
        ensures
            final(self).ingredients_seq() == old(self).ingredients_seq(),
            final(self).potions_2_seq() == spec_sort_potions_desc(
                spec_pairs_upto(old(self).ingredients_seq(), old(self).ingredients_seq().len() as int),
            ),
            final(self).potions_3_seq() == spec_sort_potions_desc(
                spec_triples_upto(
                    old(self).ingredients_seq(),
                    old(self).ingredients_seq().len() as int,
                ),
            ),
    {
        let potions_2 = Self::build_potions_2(&self.ingredients);
        let potions_3 = Self::build_potions_3(&self.ingredients);
        self.potions_2 = potions_2;
        self.potions_3 = potions_3;
    }

    /// All valid 2-ingredient potions, ranked by score descending.
    fn build_potions_2(ingredients: &Vec<ResolvedIngredient>) -> (r: Vec<Potion>)
        requires
            spec_universe_wf(ingredients@.map_values(|ri: ResolvedIngredient| ri@)),
        ensures
            r@.map_values(|p: Potion| p@) == spec_sort_potions_desc(
                spec_pairs_upto(
                    ingredients@.map_values(|ri: ResolvedIngredient| ri@),
                    ingredients@.len() as int,
                ),
            ),
    {
        let ghost items0 = ingredients@.map_values(|ri: ResolvedIngredient| ri@);
        let n = ingredients.len();
        let mut unsorted: Vec<Potion> = Vec::new();
        let mut i: usize = 0;
        while i < n
            invariant
                n == ingredients@.len(),
                items0 == ingredients@.map_values(|ri: ResolvedIngredient| ri@),
                spec_universe_wf(items0),
                0 <= i <= n,
                unsorted@.map_values(|p: Potion| p@) == spec_pairs_upto(items0, i as int),
            decreases n - i,
        {
            let mut j: usize = i + 1;
            while j < n
                invariant
                    n == ingredients@.len(),
                    items0 == ingredients@.map_values(|ri: ResolvedIngredient| ri@),
                    spec_universe_wf(items0),
                    0 <= i < n,
                    i + 1 <= j <= n,
                    unsorted@.map_values(|p: Potion| p@) == spec_pairs_upto(items0, i as int)
                        + spec_pairs_row_upto(items0, i as int, j as int),
                decreases n - j,
            {
                let ghost u0 = unsorted@.map_values(|p: Potion| p@);
                if resolved_shares(&ingredients[i], &ingredients[j]) {
                    let mut combo: Vec<ResolvedIngredient> = Vec::new();
                    combo.push(ingredients[i].clone());
                    combo.push(ingredients[j].clone());
                    proof {
                        assert(combo@.map_values(|ri: ResolvedIngredient| ri@) =~= seq![
                            items0[i as int],
                            items0[j as int],
                        ]);
                        let combo0 = seq![items0[i as int], items0[j as int]];
                        assert(combo0[0] == items0[i as int] && combo0[1] == items0[j as int]);
                        assert(spec_shares_resolved(combo0[0], combo0[1]));
                        lemma_craft_succeeds(combo0);
                    }
                    match Potion::from_ingredients(combo) {
                        Ok(p) => {
                            proof {
                                assert(p@ == spec_pair_view(items0, i as int, j as int));
                            }
                            unsorted.push(p);
                            proof {
                                assert(unsorted@.map_values(|p2: Potion| p2@) =~= u0.push(
                                    spec_pair_view(items0, i as int, j as int),
                                ));
                            }
                        },
                        Err(_) => {
                            proof {
                                assert(false);
                            }
                        },
                    }
                }
                proof {
                    assert(unsorted@.map_values(|p2: Potion| p2@) =~= spec_pairs_upto(
                        items0,
                        i as int,
                    ) + spec_pairs_row_upto(items0, i as int, j as int + 1));
                }
                j += 1;
            }
            proof {
                assert(unsorted@.map_values(|p2: Potion| p2@) =~= spec_pairs_upto(
                    items0,
                    i as int + 1,
                ));
            }
            i += 1;
        }
        sort_potions_desc(unsorted)
    }

    /// All valid 3-ingredient potions, ranked by score descending.
    fn build_potions_3(ingredients: &Vec<ResolvedIngredient>) -> (r: Vec<Potion>)
        requires
            spec_universe_wf(ingredients@.map_values(|ri: ResolvedIngredient| ri@)),
        ensures
            r@.map_values(|p: Potion| p@) == spec_sort_potions_desc(
                spec_triples_upto(
                    ingredients@.map_values(|ri: ResolvedIngredient| ri@),
                    ingredients@.len() as int,
                ),
            ),
    {
        let ghost items0 = ingredients@.map_values(|ri: ResolvedIngredient| ri@);
        let n = ingredients.len();
        let mut unsorted: Vec<Potion> = Vec::new();
        let mut i: usize = 0;
        while i < n
            invariant
                n == ingredients@.len(),
                items0 == ingredients@.map_values(|ri: ResolvedIngredient| ri@),
                spec_universe_wf(items0),
                0 <= i <= n,
                unsorted@.map_values(|p: Potion| p@) == spec_triples_upto(items0, i as int),
            decreases n - i,
        {
            let mut j: usize = i + 1;
            while j < n
                invariant
                    n == ingredients@.len(),
                    items0 == ingredients@.map_values(|ri: ResolvedIngredient| ri@),
                    spec_universe_wf(items0),
                    0 <= i < n,
                    i + 1 <= j <= n,
                    unsorted@.map_values(|p: Potion| p@) == spec_triples_upto(items0, i as int)
                        + spec_triples_mid_upto(items0, i as int, j as int),
                decreases n - j,
            {
                let mut k: usize = j + 1;
                while k < n
                    invariant
                        n == ingredients@.len(),
                        items0 == ingredients@.map_values(|ri: ResolvedIngredient| ri@),
                        spec_universe_wf(items0),
                        0 <= i < j < n,
                        j + 1 <= k <= n,
                        unsorted@.map_values(|p: Potion| p@) == spec_triples_upto(items0, i as int)
                            + spec_triples_mid_upto(items0, i as int, j as int)
                            + spec_triples_inner_upto(items0, i as int, j as int, k as int),
                    decreases n - k,
                {
                    let ghost u0 = unsorted@.map_values(|p: Potion| p@);
                    if valid_triple(&ingredients[i], &ingredients[j], &ingredients[k]) {
                        let mut combo: Vec<ResolvedIngredient> = Vec::new();
                        combo.push(ingredients[i].clone());
                        combo.push(ingredients[j].clone());
                        combo.push(ingredients[k].clone());
                        proof {
                            assert(combo@.map_values(|ri: ResolvedIngredient| ri@) =~= seq![
                                items0[i as int],
                                items0[j as int],
                                items0[k as int],
                            ]);
                            let combo0 = seq![
                                items0[i as int],
                                items0[j as int],
                                items0[k as int],
                            ];
                            let a = items0[i as int];
                            let b = items0[j as int];
                            let c = items0[k as int];
                            // A valid triple has at least one sharing pair.
                            if spec_shares_resolved(a, b) {
                                assert(spec_shares_resolved(combo0[0], combo0[1]));
                            } else if spec_shares_resolved(b, c) {
                                assert(spec_shares_resolved(combo0[1], combo0[2]));
                            } else {
                                assert(spec_shares_resolved(c, a));
                                let (x, y) = choose|x: int, y: int|
                                    0 <= x < c.effects.len() && 0 <= y < a.effects.len() && (
                                    #[trigger] c.effects[x]).global_id == (
                                    #[trigger] a.effects[y]).global_id;
                                assert((#[trigger] a.effects[y]).global_id == (
                                #[trigger] c.effects[x]).global_id);
                                assert(spec_shares_resolved(combo0[0], combo0[2]));
                            }
                            lemma_craft_succeeds(combo0);
                        }
                        match Potion::from_ingredients(combo) {
                            Ok(p) => {
                                proof {
                                    assert(p@ == spec_triple_view(
                                        items0,
                                        i as int,
                                        j as int,
                                        k as int,
                                    ));
                                }
                                unsorted.push(p);
                                proof {
                                    assert(unsorted@.map_values(|p2: Potion| p2@) =~= u0.push(
                                        spec_triple_view(items0, i as int, j as int, k as int),
                                    ));
                                }
                            },
                            Err(_) => {
                                proof {
                                    assert(false);
                                }
                            },
                        }
                    }
                    proof {
                        assert(unsorted@.map_values(|p2: Potion| p2@) =~= spec_triples_upto(
                            items0,
                            i as int,
                        ) + spec_triples_mid_upto(items0, i as int, j as int)
                            + spec_triples_inner_upto(items0, i as int, j as int, k as int + 1));
                    }
                    k += 1;
                }
                proof {
                    assert(unsorted@.map_values(|p2: Potion| p2@) =~= spec_triples_upto(
                        items0,
                        i as int,
                    ) + spec_triples_mid_upto(items0, i as int, j as int + 1));
                }
                j += 1;
            }
            proof {
                assert(unsorted@.map_values(|p2: Potion| p2@) =~= spec_triples_upto(
                    items0,
                    i as int + 1,
                ));
            }
            i += 1;
        }
        sort_potions_desc(unsorted)
    }

    /// The two ranked lists merged into one sequence descending by score:
    /// the three-ingredient list's head is taken while it strictly beats the
    /// two-ingredient list's head.
    pub fn get_potions(&self) -> (r: Vec<Potion>)
        ensures
            r@.map_values(|p: Potion| p@) == spec_merge_desc(
                self.potions_3_seq(),
                self.potions_2_seq(),
            ),
    {
        merge_ranked(&self.potions_3, &self.potions_2)
    }
}

/// Merges two score-ranked potion lists into one descending sequence,
/// taking from `three` while its head strictly beats `two`'s head.
pub fn merge_ranked(three: &Vec<Potion>, two: &Vec<Potion>) -> (r: Vec<Potion>)
    ensures
        r@.map_values(|p: Potion| p@) == spec_merge_desc(
            three@.map_values(|p: Potion| p@),
            two@.map_values(|p: Potion| p@),
        ),
{
    let ghost t3 = three@.map_values(|p: Potion| p@);
    let ghost t2 = two@.map_values(|p: Potion| p@);
    let mut out: Vec<Potion> = Vec::new();
    let mut a: usize = 0;
    let mut b: usize = 0;
    proof {
        assert(t3.skip(0) =~= t3);
        assert(t2.skip(0) =~= t2);
        assert(out@.map_values(|p: Potion| p@) =~= Seq::<PotionView>::empty());
        assert(Seq::<PotionView>::empty() + spec_merge_desc(t3, t2) =~= spec_merge_desc(
            t3,
            t2,
        ));
    }
    while a < three.len() || b < two.len()
        invariant
            t3 == three@.map_values(|p: Potion| p@),
            t2 == two@.map_values(|p: Potion| p@),
            0 <= a <= t3.len(),
            0 <= b <= t2.len(),
            spec_merge_desc(t3, t2) == out@.map_values(|p: Potion| p@) + spec_merge_desc(
                t3.skip(a as int),
                t2.skip(b as int),
            ),
        decreases (t3.len() - a) + (t2.len() - b),
    {
        let ghost o0 = out@.map_values(|p: Potion| p@);
        let take_three = if a < three.len() {
            if b < two.len() {
                three[a].gold_value > two[b].gold_value
            } else {
                true
            }
        } else {
            false
        };
        if take_three {
            proof {
                assert(t3.skip(a as int)[0] == t3[a as int]);
                assert(t3.skip(a as int).drop_first() =~= t3.skip(a as int + 1));
                assert(t3[a as int] == three@[a as int]@);
                if b < t2.len() {
                    assert(t2.skip(b as int)[0] == t2[b as int]);
                    assert(t2[b as int] == two@[b as int]@);
                    assert(spec_merge_desc(t3.skip(a as int), t2.skip(b as int)) == seq![
                        t3[a as int],
                    ] + spec_merge_desc(t3.skip(a as int + 1), t2.skip(b as int)));
                } else {
                    assert(t2.skip(b as int).len() == 0);
                    assert(spec_merge_desc(t3.skip(a as int), t2.skip(b as int)) =~= seq![
                        t3[a as int],
                    ] + spec_merge_desc(t3.skip(a as int + 1), t2.skip(b as int)));
                }
            }
            out.push(three[a].clone());
            proof {
                assert(out@.map_values(|p: Potion| p@) =~= o0.push(t3[a as int]));
                assert(o0.push(t3[a as int]) + spec_merge_desc(
                    t3.skip(a as int + 1),
                    t2.skip(b as int),
                ) =~= o0 + (seq![t3[a as int]] + spec_merge_desc(
                    t3.skip(a as int + 1),
                    t2.skip(b as int),
                )));
            }
            a += 1;
        } else {
            proof {
                assert(b < t2.len());
                assert(t2.skip(b as int)[0] == t2[b as int]);
                assert(t2.skip(b as int).drop_first() =~= t2.skip(b as int + 1));
                assert(t2[b as int] == two@[b as int]@);
                if a < t3.len() {
                    assert(t3.skip(a as int)[0] == t3[a as int]);
                    assert(t3[a as int] == three@[a as int]@);
                    assert(spec_merge_desc(t3.skip(a as int), t2.skip(b as int)) == seq![
                        t2[b as int],
                    ] + spec_merge_desc(t3.skip(a as int), t2.skip(b as int + 1)));
                } else {
                    assert(t3.skip(a as int).len() == 0);
                    assert(spec_merge_desc(t3.skip(a as int), t2.skip(b as int)) =~= seq![
                        t2[b as int],
                    ] + spec_merge_desc(t3.skip(a as int), t2.skip(b as int + 1)));
                }
            }
            out.push(two[b].clone());
            proof {
                assert(out@.map_values(|p: Potion| p@) =~= o0.push(t2[b as int]));
                assert(o0.push(t2[b as int]) + spec_merge_desc(
                    t3.skip(a as int),
                    t2.skip(b as int + 1),
                ) =~= o0 + (seq![t2[b as int]] + spec_merge_desc(
                    t3.skip(a as int),
                    t2.skip(b as int + 1),
                )));
            }
            b += 1;
        }
    }
    proof {
        assert(t3.skip(t3.len() as int).len() == 0);
        assert(t2.skip(t2.len() as int).len() == 0);
        assert(spec_merge_desc(t3.skip(a as int), t2.skip(b as int)) =~= Seq::<
            PotionView,
        >::empty());
        assert(spec_merge_desc(t3, t2) =~= out@.map_values(|p: Potion| p@));
    }
    out
}


// ---------------------------------------------------------------------------
// Filtering of suggestions
// ---------------------------------------------------------------------------

/// Whether a (possibly missing) display name occurs in the list.  A missing
/// name never matches.
pub open spec fn spec_name_in(names: Seq<Seq<char>>, name: Option<Seq<char>>) -> bool {
    match name {
        Some(nm) => exists|k: int| 0 <= k < names.len() && names[k] == nm,
        None => false,
    }
}

/// Whether a potion passes the allow-list and deny-list: with an allow-list,
/// every ingredient's name must be in it; with a deny-list, no ingredient's
/// name may be in it.
pub open spec fn spec_potion_allowed(
    p: PotionView,
    whitelist: Seq<Seq<char>>,
    blacklist: Seq<Seq<char>>,
) -> bool {
    &&& (whitelist.len() == 0 || forall|k: int|
        0 <= k < p.ingredients.len() ==> spec_name_in(
            whitelist,
            (#[trigger] p.ingredients[k]).name,
        ))
    &&& (blacklist.len() == 0 || !(exists|k: int|
        0 <= k < p.ingredients.len() && spec_name_in(
            blacklist,
            (#[trigger] p.ingredients[k]).name,
        )))
}

/// The first `k` entries, or all of them when there are fewer.
pub open spec fn spec_take_at_most(s: Seq<PotionView>, k: int) -> Seq<PotionView> {
    if s.len() <= k {
        s
    } else {
        s.take(k)
    }
}

/// The model of a stored optional display name.
pub open spec fn spec_opt_name(name: Option<String>) -> Option<Seq<char>> {
    match name {
        Some(s) => Some(s@),
        None => None,
    }
}

fn name_in_list(names: &Vec<String>, name: &Option<String>) -> (r: bool)
    ensures
        r == spec_name_in(names@.map_values(|s: String| s@), spec_opt_name(*name)),
{
    match name.as_ref() {
        None => false,
        Some(nm) => {
            let mut k: usize = 0;
            while k < names.len()
                invariant
                    *name is Some,
                    name->Some_0 == *nm,
                    0 <= k <= names@.len(),
                    forall|k2: int| 0 <= k2 < k ==> (#[trigger] names@[k2])@ != nm@,
                decreases names@.len() - k,
            {
                if names[k] == *nm {
                    proof {
                        let m = names@.map_values(|s: String| s@);
                        assert(m[k as int] == names@[k as int]@);
                        assert(m[k as int] == nm@);
                        assert(spec_opt_name(*name) == Some(nm@));
                        assert(spec_name_in(m, Some(nm@)));
                    }
                    return true;
                }
                proof {
                    assert(names@.map_values(|s: String| s@)[k as int] == names@[k as int]@);
                }
                k += 1;
            }
            proof {
                let m = names@.map_values(|s: String| s@);
                if spec_name_in(m, spec_opt_name(*name)) {
                    let k2 = choose|k2: int| 0 <= k2 < m.len() && #[trigger] m[k2] == nm@;
                    assert(m[k2] == names@[k2]@);
                    assert(false);
                }
            }
            false
        },
    }
}

fn potion_allowed(p: &Potion, whitelist: &Vec<String>, blacklist: &Vec<String>) -> (r: bool)
    ensures
        r == spec_potion_allowed(
            p@,
            whitelist@.map_values(|s: String| s@),
            blacklist@.map_values(|s: String| s@),
        ),
{
    let ghost wl = whitelist@.map_values(|s: String| s@);
    let ghost bl = blacklist@.map_values(|s: String| s@);
    if whitelist.len() > 0 {
        let mut k: usize = 0;
        while k < p.ingredients.len()
            invariant
                wl == whitelist@.map_values(|s: String| s@),
                wl.len() > 0,
                0 <= k <= p.ingredients@.len(),
                forall|k2: int|
                    0 <= k2 < k ==> spec_name_in(wl, (#[trigger] p@.ingredients[k2]).name),
            decreases p.ingredients@.len() - k,
        {
            if !name_in_list(whitelist, &p.ingredients[k].name) {
                proof {
                    assert(p@.ingredients[k as int] == p.ingredients@[k as int]@);
                    assert(spec_opt_name(p.ingredients@[k as int].name) == p@.ingredients[
                        k as int
                    ].name);
                    assert(!spec_name_in(wl, p@.ingredients[k as int].name));
                }
                return false;
            }
            proof {
                assert(p@.ingredients[k as int] == p.ingredients@[k as int]@);
            }
            k += 1;
        }
    }
    if blacklist.len() > 0 {
        let mut k: usize = 0;
        while k < p.ingredients.len()
            invariant
                wl == whitelist@.map_values(|s: String| s@),
                bl == blacklist@.map_values(|s: String| s@),
                bl.len() > 0,
                whitelist@.len() > 0 ==> forall|k2: int|
                    0 <= k2 < p@.ingredients.len() ==> spec_name_in(
                        wl,
                        (#[trigger] p@.ingredients[k2]).name,
                    ),
                0 <= k <= p.ingredients@.len(),
                forall|k2: int|
                    0 <= k2 < k ==> !spec_name_in(bl, (#[trigger] p@.ingredients[k2]).name),
            decreases p.ingredients@.len() - k,
        {
            if name_in_list(blacklist, &p.ingredients[k].name) {
                proof {
                    assert(p@.ingredients[k as int] == p.ingredients@[k as int]@);
                    assert(spec_opt_name(p.ingredients@[k as int].name) == p@.ingredients[
                        k as int
                    ].name);
                    assert(spec_name_in(bl, p@.ingredients[k as int].name));
                }
                return false;
            }
            proof {
                assert(p@.ingredients[k as int] == p.ingredients@[k as int]@);
            }
            k += 1;
        }
    }
    true
}

proof fn lemma_filter_push_pv(s: Seq<PotionView>, x: PotionView, pred: spec_fn(PotionView) -> bool)
    ensures
        s.push(x).filter(pred) == (if pred(x) {
            s.filter(pred).push(x)
        } else {
            s.filter(pred)
        }),
{
    reveal(Seq::filter);
    assert(s.push(x).drop_last() =~= s);
    assert(s.push(x).last() == x);
}

/// Keeps the potions that pass the allow-list and deny-list, in order, up to
/// `limit` of them.  An empty list means no restriction on that side.
pub fn filter_potions(
    potions: &Vec<Potion>,
    whitelist: &Vec<String>,
    blacklist: &Vec<String>,
    limit: usize,
) -> (r: Vec<Potion>)
    ensures
        r@.map_values(|p: Potion| p@) == spec_take_at_most(
            potions@.map_values(|p: Potion| p@).filter(
                |p: PotionView|
                    spec_potion_allowed(
                        p,
                        whitelist@.map_values(|s: String| s@),
                        blacklist@.map_values(|s: String| s@),
                    ),
            ),
            limit as int,
        ),
{
    let ghost wl = whitelist@.map_values(|s: String| s@);
    let ghost bl = blacklist@.map_values(|s: String| s@);
    let ghost ps = potions@.map_values(|p: Potion| p@);
    let ghost pred = |p: PotionView| spec_potion_allowed(p, wl, bl);
    let n = potions.len();
    let mut out: Vec<Potion> = Vec::new();
    let mut k: usize = 0;
    proof {
        reveal(Seq::filter);
        assert(ps.take(0) =~= Seq::<PotionView>::empty());
        assert(out@.map_values(|p: Potion| p@) =~= Seq::<PotionView>::empty());
    }
    while k < n
        invariant
            n == potions@.len(),
            wl == whitelist@.map_values(|s: String| s@),
            bl == blacklist@.map_values(|s: String| s@),
            ps == potions@.map_values(|p: Potion| p@),
            pred == (|p: PotionView| spec_potion_allowed(p, wl, bl)),
            0 <= k <= n,
            out@.map_values(|p: Potion| p@) == spec_take_at_most(
                ps.take(k as int).filter(pred),
                limit as int,
            ),
            out@.len() <= limit,
        decreases n - k,
    {
        let ghost o0 = out@.map_values(|p: Potion| p@);
        let ghost prev = ps.take(k as int).filter(pred);
        proof {
            assert(ps.take(k as int + 1).drop_last() =~= ps.take(k as int));
            lemma_filter_push_pv(ps.take(k as int), ps[k as int], pred);
            assert(ps.take(k as int).push(ps[k as int]) =~= ps.take(k as int + 1));
        }
        let allowed = potion_allowed(&potions[k], whitelist, blacklist);
        proof {
            assert(potions@[k as int]@ == ps[k as int]);
        }
        if allowed && out.len() < limit {
            proof {
                if prev.len() > limit {
                    assert(o0 == prev.take(limit as int));
                    assert(o0.len() == limit);
                    assert(false);
                }
                assert(o0 == prev);
            }
            out.push(potions[k].clone());
            proof {
                assert(out@.map_values(|p: Potion| p@) =~= o0.push(ps[k as int]));
            }
        }
        proof {
            let cur = ps.take(k as int + 1).filter(pred);
            if pred(ps[k as int]) {
                assert(cur == prev.push(ps[k as int]));
                if o0.len() < limit {
                    assert(prev.len() == o0.len());
                    assert(out@.map_values(|p: Potion| p@) =~= spec_take_at_most(
                        cur,
                        limit as int,
                    ));
                } else {
                    assert(prev.len() >= limit);
                    assert(spec_take_at_most(cur, limit as int) =~= spec_take_at_most(
                        prev,
                        limit as int,
                    ));
                }
            } else {
                assert(cur == prev);
            }
        }
        k += 1;
    }
    proof {
        assert(ps.take(n as int) =~= ps);
    }
    out
}


// ---------------------------------------------------------------------------
// Ordering of the ranked and merged sequences
// ---------------------------------------------------------------------------

/// Descending order by score.
pub open spec fn spec_potions_sorted_desc(s: Seq<PotionView>) -> bool {
    forall|i: int, j: int|
        0 <= i < j < s.len() ==> (#[trigger] s[i]).gold_value >= (#[trigger] s[j]).gold_value
}

proof fn lemma_insert_potion_desc_len(s: Seq<PotionView>, p: PotionView)
    ensures
        spec_insert_potion_desc(s, p).len() == s.len() + 1,
    decreases s.len(),
{
    if s.len() > 0 && p.gold_value > s.last().gold_value {
        lemma_insert_potion_desc_len(s.drop_last(), p);
    }
}

proof fn lemma_insert_potion_desc_elements(s: Seq<PotionView>, p: PotionView, i: int)
    requires
        0 <= i < spec_insert_potion_desc(s, p).len(),
    ensures
        spec_insert_potion_desc(s, p)[i] == p || s.contains(spec_insert_potion_desc(s, p)[i]),
    decreases s.len(),
{
    if s.len() == 0 {
    } else if p.gold_value > s.last().gold_value {
        lemma_insert_potion_desc_len(s.drop_last(), p);
        if i < spec_insert_potion_desc(s.drop_last(), p).len() {
            lemma_insert_potion_desc_elements(s.drop_last(), p, i);
            let x = spec_insert_potion_desc(s.drop_last(), p)[i];
            if s.drop_last().contains(x) {
                let w = choose|w: int| 0 <= w < s.drop_last().len() && s.drop_last()[w] == x;
                assert(s[w] == x);
            }
        } else {
            assert(spec_insert_potion_desc(s, p)[i] == s.last());
            assert(s[s.len() - 1] == s.last());
        }
    } else {
        if i < s.len() {
            assert(s[i] == spec_insert_potion_desc(s, p)[i]);
        }
    }
}

proof fn lemma_insert_potion_desc_sorted(s: Seq<PotionView>, p: PotionView)
    requires
        spec_potions_sorted_desc(s),
    ensures
        spec_potions_sorted_desc(spec_insert_potion_desc(s, p)),
    decreases s.len(),
{
    if s.len() == 0 {
    } else if p.gold_value > s.last().gold_value {
        assert(spec_potions_sorted_desc(s.drop_last())) by {
            assert(forall|i: int|
                0 <= i < s.drop_last().len() ==> (#[trigger] s.drop_last()[i]) == s[i]);
        }
        lemma_insert_potion_desc_sorted(s.drop_last(), p);
        let inner = spec_insert_potion_desc(s.drop_last(), p);
        lemma_insert_potion_desc_len(s.drop_last(), p);
        assert forall|i: int, j: int|
            0 <= i < j < inner.push(s.last()).len() implies (#[trigger] inner.push(
            s.last(),
        )[i]).gold_value >= (#[trigger] inner.push(s.last())[j]).gold_value by {
            lemma_insert_potion_desc_elements(s.drop_last(), p, i);
            if j < inner.len() {
                lemma_insert_potion_desc_elements(s.drop_last(), p, j);
            }
        }
    } else {
        assert forall|i: int, j: int|
            0 <= i < j < s.push(p).len() implies (#[trigger] s.push(p)[i]).gold_value >= (
            #[trigger] s.push(p)[j]).gold_value by {
            if j == s.len() && i < s.len() - 1 {
                assert(s[i].gold_value >= s[s.len() - 1].gold_value);
            }
        }
    }
}

/// The ranked potion lists really are sorted by score descending.
pub proof fn lemma_sort_potions_desc_sorted(s: Seq<PotionView>)
    ensures
        spec_potions_sorted_desc(spec_sort_potions_desc(s)),
    decreases s.len(),
{
    if s.len() > 0 {
        lemma_sort_potions_desc_sorted(s.drop_last());
        lemma_insert_potion_desc_sorted(spec_sort_potions_desc(s.drop_last()), s.last());
    }
}

proof fn lemma_merge_desc_head(three: Seq<PotionView>, two: Seq<PotionView>)
    requires
        three.len() + two.len() > 0,
    ensures
        spec_merge_desc(three, two).len() == three.len() + two.len(),
        (three.len() > 0 && spec_merge_desc(three, two)[0] == three[0]) || (two.len() > 0
            && spec_merge_desc(three, two)[0] == two[0]),
    decreases three.len() + two.len(),
{
    if three.len() == 0 || two.len() == 0 {
    } else if three[0].gold_value > two[0].gold_value {
        lemma_merge_desc_head(three.drop_first(), two);
    } else {
        lemma_merge_desc_head(three, two.drop_first());
    }
}

/// Merging two score-ranked lists keeps the result ranked: the merged
/// suggestion sequence is descending by score.
pub proof fn lemma_merge_desc_sorted(three: Seq<PotionView>, two: Seq<PotionView>)
    requires
        spec_potions_sorted_desc(three),
        spec_potions_sorted_desc(two),
    ensures
        spec_potions_sorted_desc(spec_merge_desc(three, two)),
    decreases three.len() + two.len(),
{
    if three.len() == 0 || two.len() == 0 {
    } else {
        let head = if three[0].gold_value > two[0].gold_value {
            three[0]
        } else {
            two[0]
        };
        let (rest3, rest2) = if three[0].gold_value > two[0].gold_value {
            (three.drop_first(), two)
        } else {
            (three, two.drop_first())
        };
        assert(spec_potions_sorted_desc(rest3) && spec_potions_sorted_desc(rest2)) by {
            assert(forall|i: int|
                0 <= i < three.drop_first().len() ==> (#[trigger] three.drop_first()[i]) == three[
                    i + 1
                ]);
            assert(forall|i: int|
                0 <= i < two.drop_first().len() ==> (#[trigger] two.drop_first()[i]) == two[i + 1]);
        }
        lemma_merge_desc_sorted(rest3, rest2);
        let merged = spec_merge_desc(three, two);
        let rest = spec_merge_desc(rest3, rest2);
        assert(merged == seq![head] + rest);
        assert forall|i: int, j: int|
            0 <= i < j < merged.len() implies (#[trigger] merged[i]).gold_value >= (
            #[trigger] merged[j]).gold_value by {
            if i == 0 {
                if rest.len() > 0 {
                    lemma_merge_desc_head(rest3, rest2);
                    assert(head.gold_value >= rest[0].gold_value) by {
                        if rest3.len() > 0 && rest[0] == rest3[0] {
                            if three[0].gold_value > two[0].gold_value {
                                assert(three[1] == rest3[0]);
                            }
                        }
                    }
                    assert(merged[j] == rest[j - 1]);
                    if j >= 2 {
                        assert(rest[0].gold_value >= rest[j - 1].gold_value);
                    }
                }
            } else {
                assert(merged[i] == rest[i - 1]);
                assert(merged[j] == rest[j - 1]);
            }
        }
    }
}

} // verus!
