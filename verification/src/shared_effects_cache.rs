//! Memoization of the pairwise "do these two ingredients share an effect"
//! predicate, keyed by the unordered pair of the ingredients' identifiers.
//!
//! The cache is purely an optimization for the combinatorial search: a
//! lookup against a consistent cache returns exactly what the direct
//! predicate returns, whatever the call order or prior cache state.

use vstd::prelude::*;

use crate::form_id::{GlobalFormId, lemma_key_injective};
use crate::ingredient::{Ingredient, IngredientView};

verus! {

/// The flat map key of an identifier.
pub open spec fn spec_id_key(id: GlobalFormId) -> u64 {
    (id.source_index as int * 0x1_0000_0000 + id.local_id as int) as u64
}

/// The two keys in ascending order.
pub open spec fn spec_ordered(a: u64, b: u64) -> (u64, u64) {
    if a <= b {
        (a, b)
    } else {
        (b, a)
    }
}

/// The cache key of an unordered ingredient pair.
pub open spec fn spec_pair_key(a: IngredientView, b: IngredientView) -> (u64, u64) {
    spec_ordered(spec_id_key(a.global_id), spec_id_key(b.global_id))
}

/// An unordered pair, stored with its elements in ascending order so that
/// both orientations of a pair produce the same value.
#[derive(Clone, Copy, PartialEq, Eq, Structural, Hash, Debug)]
pub struct OrderedPair {
    lo: u64,
    hi: u64,
}

impl OrderedPair {
    pub closed spec fn spec_lo(self) -> u64 {
        self.lo
    }

    pub closed spec fn spec_hi(self) -> u64 {
        self.hi
    }

    /// Normalizes the two elements into ascending order.
    pub fn new(a: u64, b: u64) -> (r: OrderedPair)
        ensures
            (r.spec_lo(), r.spec_hi()) == spec_ordered(a, b),
    {
        if a <= b {
            OrderedPair { lo: a, hi: b }
        } else {
            OrderedPair { lo: b, hi: a }
        }
    }

    fn lo(&self) -> (r: u64)
        ensures
            r == self.spec_lo(),
    {
        self.lo
    }

    fn hi(&self) -> (r: u64)
        ensures
            r == self.spec_hi(),
    {
        self.hi
    }
}

/// What the cache holds: the memo table as a map from pair key to the
/// answer stored for that pair.
pub closed spec fn entries_model(s: Seq<(OrderedPair, bool)>) -> Map<(u64, u64), bool>
    decreases s.len(),
{
    if s.len() == 0 {
        Map::<(u64, u64), bool>::empty()
    } else {
        entries_model(s.drop_last()).insert(
            (s.last().0.spec_lo(), s.last().0.spec_hi()),
            s.last().1,
        )
    }
}

proof fn lemma_entries_model_lookup(s: Seq<(OrderedPair, bool)>, i: int)
    requires
        0 <= i < s.len(),
        forall|x: int, y: int|
            0 <= x < y < s.len() ==> ((#[trigger] s[x]).0.spec_lo(), s[x].0.spec_hi()) != ((
            #[trigger] s[y]).0.spec_lo(), s[y].0.spec_hi()),
    ensures
        entries_model(s).dom().contains((s[i].0.spec_lo(), s[i].0.spec_hi())),
        entries_model(s)[(s[i].0.spec_lo(), s[i].0.spec_hi())] == s[i].1,
    decreases s.len(),
{
    if i == s.len() - 1 {
    } else {
        assert(s.drop_last()[i] == s[i]);
        lemma_entries_model_lookup(s.drop_last(), i);
        assert((s[i].0.spec_lo(), s[i].0.spec_hi()) != (s.last().0.spec_lo(), s.last().0.spec_hi()));
    }
}

proof fn lemma_entries_model_absent(s: Seq<(OrderedPair, bool)>, k: (u64, u64))
    requires
        forall|x: int|
            0 <= x < s.len() ==> ((#[trigger] s[x]).0.spec_lo(), s[x].0.spec_hi()) != k,
    ensures
        !entries_model(s).dom().contains(k),
    decreases s.len(),
{
    if s.len() > 0 {
        assert(forall|x: int|
            0 <= x < s.drop_last().len() ==> (#[trigger] s.drop_last()[x]) == s[x]);
        lemma_entries_model_absent(s.drop_last(), k);
    }
}

/// The plain, unsynchronized memo table for the shared-effects predicate.
pub struct SharedEffectsCacheUnsync {
    entries: Vec<(OrderedPair, bool)>,
}

/// Whether the stored answer for this pair, if any, is the true one.
pub open spec fn spec_consistent_for(
    m: Map<(u64, u64), bool>,
    a: IngredientView,
    b: IngredientView,
) -> bool {
    m.dom().contains(spec_pair_key(a, b)) ==> m[spec_pair_key(a, b)]
        == a.spec_shares_effects_with(b)
}

/// Whether every stored answer agrees with the predicate over a fixed
/// ingredient universe.
pub open spec fn spec_consistent_with(
    m: Map<(u64, u64), bool>,
    items: Seq<IngredientView>,
) -> bool {
    forall|i: int, j: int|
        0 <= i < items.len() && 0 <= j < items.len() ==> spec_consistent_for(
            m,
            #[trigger] items[i],
            #[trigger] items[j],
        )
}

impl SharedEffectsCacheUnsync {
    /// The memo table.
    pub closed spec fn model(self) -> Map<(u64, u64), bool> {
        entries_model(self.entries@)
    }

    /// No two stored entries carry the same pair key.
    pub closed spec fn wf(self) -> bool {
        forall|x: int, y: int|
            0 <= x < y < self.entries@.len() ==> ((#[trigger] self.entries@[x]).0.spec_lo(),
            self.entries@[x].0.spec_hi()) != ((#[trigger] self.entries@[y]).0.spec_lo(),
            self.entries@[y].0.spec_hi())
    }

    pub fn new() -> (r: SharedEffectsCacheUnsync)
        ensures
            r.wf(),
            r.model() == Map::<(u64, u64), bool>::empty(),
    {
        SharedEffectsCacheUnsync { entries: Vec::new() }
    }

    /// Drops every memoized answer.
    pub fn clear(&mut self)
        ensures
            final(self).wf(),
            final(self).model() == Map::<(u64, u64), bool>::empty(),
    {
        self.entries = Vec::new();
    }

    /// The memoized shared-effects predicate.
    ///
    /// A hit returns the stored answer and leaves the cache unchanged; a
    /// miss computes `a.shares_effects_with(b)`, stores it under the
    /// unordered pair of the two identifiers, and returns it.  Against a
    /// cache whose stored answer for this pair is the true one — in
    /// particular, any cache filled only through this method with
    /// consistently identified ingredients — the result always equals the
    /// direct predicate, regardless of call order or prior cache state.
    pub fn cached_shares_effects_with(&mut self, a: &Ingredient, b: &Ingredient) -> (r: bool)
        requires
            old(self).wf(),
        ensures
            final(self).wf(),
            ({
                let k = spec_pair_key(a@, b@);
                if old(self).model().dom().contains(k) {
                    r == old(self).model()[k] && final(self).model() == old(self).model()
                } else {
                    r == a@.spec_shares_effects_with(b@) && final(self).model() == old(
                        self,
                    ).model().insert(k, r)
                }
            }),
            spec_consistent_for(old(self).model(), a@, b@) ==> r == a@.spec_shares_effects_with(
                b@,
            ),
    {
        let key = OrderedPair::new(a.global_id.key(), b.global_id.key());
        proof {
            assert((key.spec_lo(), key.spec_hi()) == spec_pair_key(a@, b@));
        }
        let n = self.entries.len();
        let mut i: usize = 0;
        while i < n
            invariant
                self == old(self),
                old(self).wf(),
                n == self.entries@.len(),
                (key.spec_lo(), key.spec_hi()) == spec_pair_key(a@, b@),
                0 <= i <= n,
                forall|x: int|
                    0 <= x < i ==> ((#[trigger] self.entries@[x]).0.spec_lo(),
                    self.entries@[x].0.spec_hi()) != (key.spec_lo(), key.spec_hi()),
            decreases n - i,
        {
            let (p, v) = self.entries[i];
            if p.lo() == key.lo() && p.hi() == key.hi() {
                proof {
                    assert((self.entries@[i as int].0.spec_lo(),
                    self.entries@[i as int].0.spec_hi()) == spec_pair_key(a@, b@));
                    lemma_entries_model_lookup(self.entries@, i as int);
                }
                return v;
            }
            i += 1;
        }
        proof {
            lemma_entries_model_absent(self.entries@, spec_pair_key(a@, b@));
        }
        let v = a.shares_effects_with(b);
        let ghost e0 = self.entries@;
        self.entries.push((key, v));
        proof {
            assert(self.entries@.drop_last() =~= e0);
            assert(self.entries@.last() == (key, v));
            assert(entries_model(self.entries@) == entries_model(e0).insert(
                spec_pair_key(a@, b@),
                v,
            ));
        }
        v
    }
}

/// The shared-effects predicate does not depend on the order of its two
/// arguments.
pub proof fn lemma_shares_symmetric(a: IngredientView, b: IngredientView)
    ensures
        a.spec_shares_effects_with(b) == b.spec_shares_effects_with(a),
{
    if a.spec_shares_effects_with(b) {
        let (i, j) = choose|i: int, j: int|
            0 <= i < a.effects.len() && 0 <= j < b.effects.len() && (
            #[trigger] a.effects[i]).global_id == (#[trigger] b.effects[j]).global_id;
        assert((#[trigger] b.effects[j]).global_id == (#[trigger] a.effects[i]).global_id);
    }
    if b.spec_shares_effects_with(a) {
        let (i, j) = choose|i: int, j: int|
            0 <= i < b.effects.len() && 0 <= j < a.effects.len() && (
            #[trigger] b.effects[i]).global_id == (#[trigger] a.effects[j]).global_id;
        assert((#[trigger] a.effects[j]).global_id == (#[trigger] b.effects[i]).global_id);
    }
}

/// Caching preserves consistency: storing the true answer for one pair of a
/// universe of distinctly identified ingredients leaves every stored answer
/// true.  Together with the lookup contract this is the cache-equivalence
/// law: under any call order, a cache used only through
/// `cached_shares_effects_with` keeps returning exactly what
/// `shares_effects_with` returns.
pub proof fn lemma_cache_stays_consistent(
    m: Map<(u64, u64), bool>,
    items: Seq<IngredientView>,
    i: int,
    j: int,
)
    requires
        spec_consistent_with(m, items),
        0 <= i < items.len(),
        0 <= j < items.len(),
        forall|x: int, y: int|
            0 <= x < y < items.len() ==> (#[trigger] items[x]).global_id != (
            #[trigger] items[y]).global_id,
    ensures
        spec_consistent_with(
            m.insert(
                spec_pair_key(items[i], items[j]),
                items[i].spec_shares_effects_with(items[j]),
            ),
            items,
        ),
{
    let k = spec_pair_key(items[i], items[j]);
    let v = items[i].spec_shares_effects_with(items[j]);
    let m2 = m.insert(k, v);
    assert forall|x: int, y: int|
        0 <= x < items.len() && 0 <= y < items.len() implies spec_consistent_for(
        m2,
        #[trigger] items[x],
        #[trigger] items[y],
    ) by {
        let kxy = spec_pair_key(items[x], items[y]);
        if kxy == k {
            // Equal keys force the same unordered pair of identifiers, and
            // distinct identifiers pin each to its ingredient.
            lemma_pair_key_injective(items, i, j, x, y);
            if items[x] == items[i] && items[y] == items[j] {
            } else {
                assert(items[x] == items[j] && items[y] == items[i]);
                lemma_shares_symmetric(items[i], items[j]);
            }
        } else {
            assert(m2.dom().contains(kxy) ==> m.dom().contains(kxy) && m2[kxy] == m[kxy]);
        }
    }
}

proof fn lemma_id_key_injective(p: GlobalFormId, q: GlobalFormId)
    requires
        spec_id_key(p) == spec_id_key(q),
    ensures
        p == q,
{
    assert(p.spec_key() == spec_id_key(p) as int);
    assert(q.spec_key() == spec_id_key(q) as int);
    lemma_key_injective(p, q);
}

proof fn lemma_pair_key_injective(items: Seq<IngredientView>, i: int, j: int, x: int, y: int)
    requires
        0 <= i < items.len(),
        0 <= j < items.len(),
        0 <= x < items.len(),
        0 <= y < items.len(),
        spec_pair_key(items[x], items[y]) == spec_pair_key(items[i], items[j]),
        forall|u: int, w: int|
            0 <= u < w < items.len() ==> (#[trigger] items[u]).global_id != (
            #[trigger] items[w]).global_id,
    ensures
        (items[x] == items[i] && items[y] == items[j]) || (items[x] == items[j] && items[y]
            == items[i]),
{
    let a = items[i].global_id;
    let b = items[j].global_id;
    let c = items[x].global_id;
    let d = items[y].global_id;
    // The unordered key pairs agree, so the identifier pairs agree.
    if spec_id_key(c) == spec_id_key(a) {
        lemma_id_key_injective(c, a);
        lemma_id_key_injective(d, b);
        lemma_same_id_same_item(items, x, i);
        lemma_same_id_same_item(items, y, j);
    } else {
        lemma_id_key_injective(c, b);
        lemma_id_key_injective(d, a);
        lemma_same_id_same_item(items, x, j);
        lemma_same_id_same_item(items, y, i);
    }
}

proof fn lemma_same_id_same_item(items: Seq<IngredientView>, x: int, y: int)
    requires
        0 <= x < items.len(),
        0 <= y < items.len(),
        items[x].global_id == items[y].global_id,
        forall|u: int, w: int|
            0 <= u < w < items.len() ==> (#[trigger] items[u]).global_id != (
            #[trigger] items[w]).global_id,
    ensures
        items[x] == items[y],
{
    if x != y {
        if x < y {
            assert(items[x].global_id != items[y].global_id);
        } else {
            assert(items[y].global_id != items[x].global_id);
        }
    }
}

} // verus!
