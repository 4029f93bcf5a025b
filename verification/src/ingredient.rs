//! Ingredients: consumable items, each carrying an ordered list of potential
//! magical effects.  An ingredient's identity is exactly its global form id.

use vstd::prelude::*;

use crate::form_id::{FormIdContainer, GlobalFormId};

verus! {

/// One potential effect an ingredient grants: which magic effect, at what
/// base strength.  The magnitude is carried as the raw bit pattern of the
/// source's 32-bit float; the verified core never interprets it, only the
/// scoring layer outside the core does.
#[derive(Clone, Copy, PartialEq, Eq, Structural, Debug)]
pub struct IngredientEffect {
    pub global_id: GlobalFormId,
    pub duration: u32,
    pub magnitude_bits: u32,
}

impl FormIdContainer for IngredientEffect {
    fn get_global_form_id(&self) -> GlobalFormId {
        self.global_id
    }
}

/// Mathematical model of an ingredient.
pub ghost struct IngredientView {
    pub global_id: GlobalFormId,
    pub editor_id: Seq<char>,
    pub name: Option<Seq<char>>,
    pub effects: Seq<IngredientEffect>,
}

pub struct Ingredient {
    pub global_id: GlobalFormId,
    pub editor_id: String,
    pub name: Option<String>,
    pub effects: Vec<IngredientEffect>,
}

impl View for Ingredient {
    type V = IngredientView;

    open spec fn view(&self) -> IngredientView {
        IngredientView {
            global_id: self.global_id,
            editor_id: self.editor_id@,
            name: match self.name {
                Some(s) => Some(s@),
                None => None,
            },
            effects: self.effects@,
        }
    }
}

impl IngredientView {
    /// The ids of the effects, in their stored order.
    pub open spec fn effect_ids(self) -> Seq<GlobalFormId> {
        self.effects.map_values(|e: IngredientEffect| e.global_id)
    }

    /// Whether some effect id occurs in both ingredients: the rule that
    /// decides if two ingredients can be combined at all.
    pub open spec fn spec_shares_effects_with(self, other: IngredientView) -> bool {
        exists|i: int, j: int|
            0 <= i < self.effects.len() && 0 <= j < other.effects.len()
                && #[trigger] self.effects[i].global_id == #[trigger] other.effects[j].global_id
    }

    /// The set of effect ids the two ingredients have in common.
    pub open spec fn shared_ids(self, other: IngredientView) -> Set<GlobalFormId> {
        self.effect_ids().to_set().intersect(other.effect_ids().to_set())
    }

    /// No two stored effects name the same magic effect.
    pub open spec fn distinct_effect_ids(self) -> bool {
        forall|i: int, j: int|
            0 <= i < j < self.effects.len() ==> (#[trigger] self.effects[i].global_id) != (
            #[trigger] self.effects[j].global_id)
    }
}

fn clone_option_string(s: &Option<String>) -> (r: Option<String>)
    ensures
        (match (s, &r) {
            (Some(a), Some(b)) => a@ == b@,
            (None, None) => true,
            _ => false,
        }),
{
    match s {
        Some(v) => Some(v.clone()),
        None => None,
    }
}

impl Clone for Ingredient {
    fn clone(&self) -> (r: Self)
        ensures
            r@ == self@,
    {
        let mut effects: Vec<IngredientEffect> = Vec::new();
        let mut i: usize = 0;
        while i < self.effects.len()
            invariant
                0 <= i <= self.effects@.len(),
                effects@ == self.effects@.take(i as int),
            decreases self.effects@.len() - i,
        {
            effects.push(self.effects[i]);
            proof {
                assert(effects@ =~= self.effects@.take(i as int + 1));
            }
            i += 1;
        }
        proof {
            assert(effects@ =~= self.effects@);
        }
        Ingredient {
            global_id: self.global_id,
            editor_id: self.editor_id.clone(),
            name: clone_option_string(&self.name),
            effects,
        }
    }
}

impl FormIdContainer for Ingredient {
    fn get_global_form_id(&self) -> GlobalFormId {
        self.global_id
    }
}

impl Ingredient {
    /// The display name when the ingredient has one, else its editor id.
    pub fn name_or_editor_id(&self) -> (r: &str)
        ensures
            r@ == (match self@.name {
                Some(nm) => nm,
                None => self@.editor_id,
            }),
    {
        match self.name.as_ref() {
            Some(nm) => nm.as_str(),
            None => self.editor_id.as_str(),
        }
    }

    /// Whether this ingredient shares at least one effect id with `other`,
    /// and so can be combined with it.
    pub fn shares_effects_with(&self, other: &Ingredient) -> (r: bool)
        ensures
            r == self@.spec_shares_effects_with(other@),
    {
        let n = self.effects.len();
        let m = other.effects.len();
        let mut i: usize = 0;
        while i < n
            invariant
                n == self.effects@.len(),
                m == other.effects@.len(),
                0 <= i <= n,
                forall|i2: int, j2: int|
                    0 <= i2 < i && 0 <= j2 < m ==> (#[trigger] self.effects@[i2].global_id) != (
                    #[trigger] other.effects@[j2].global_id),
            decreases n - i,
        {
            let mut j: usize = 0;
            while j < m
                invariant
                    n == self.effects@.len(),
                    m == other.effects@.len(),
                    0 <= i < n,
                    0 <= j <= m,
                    forall|j2: int|
                        0 <= j2 < j ==> self.effects@[i as int].global_id != (
                        #[trigger] other.effects@[j2].global_id),
                decreases m - j,
            {
                if self.effects[i].global_id == other.effects[j].global_id {
                    proof {
                        assert(self@.effects[i as int].global_id == other@.effects[
                            j as int
                        ].global_id);
                    }
                    return true;
                }
                j += 1;
            }
            i += 1;
        }
        false
    }

    /// The effect ids this ingredient has in common with `other`, in this
    /// ingredient's order and without repetition.
    pub fn shared_effect_ids(&self, other: &Ingredient) -> (r: Vec<GlobalFormId>)
        ensures
            r@.to_set() == self@.shared_ids(other@),
            r@.no_duplicates(),
    {
        let n = self.effects.len();
        let mut out: Vec<GlobalFormId> = Vec::new();
        let mut i: usize = 0;
        while i < n
            invariant
                n == self.effects@.len(),
                0 <= i <= n,
                out@.no_duplicates(),
                forall|k: int|
                    0 <= k < out@.len() ==> self@.shared_ids(other@).contains(#[trigger] out@[k]),
                forall|i2: int|
                    0 <= i2 < i && other@.effect_ids().to_set().contains(
                        #[trigger] self.effects@[i2].global_id,
                    ) ==> out@.contains(self.effects@[i2].global_id),
            decreases n - i,
        {
            let ghost out0 = out@;
            let id = self.effects[i].global_id;
            let mut in_other = false;
            let m = other.effects.len();
            let mut j: usize = 0;
            while j < m
                invariant
                    m == other.effects@.len(),
                    0 <= j <= m,
                    in_other ==> other@.effect_ids().to_set().contains(id),
                    !in_other ==> forall|j2: int|
                        0 <= j2 < j ==> (#[trigger] other.effects@[j2].global_id) != id,
                decreases m - j,
            {
                if other.effects[j].global_id == id {
                    in_other = true;
                    proof {
                        assert(other@.effect_ids()[j as int] == id);
                        assert(other@.effect_ids().to_set().contains(id));
                    }
                    j = m;
                } else {
                    j += 1;
                }
            }
            proof {
                if !in_other {
                    assert(!other@.effect_ids().to_set().contains(id)) by {
                        if other@.effect_ids().to_set().contains(id) {
                            let j2 = choose|j2: int|
                                0 <= j2 < other@.effect_ids().len() && #[trigger] other@.effect_ids()[j2]
                                    == id;
                            assert(other.effects@[j2].global_id == id);
                        }
                    }
                }
            }
            if in_other {
                let mut seen = false;
                let mut k: usize = 0;
                while k < out.len()
                    invariant
                        0 <= k <= out@.len(),
                        seen ==> out@.contains(id),
                        !seen ==> forall|k2: int| 0 <= k2 < k ==> out@[k2] != id,
                    decreases out@.len() - k,
                {
                    if out[k].source_index == id.source_index && out[k].local_id == id.local_id {
                        seen = true;
                        proof {
                            assert(out@[k as int] == id);
                        }
                        k = out.len();
                    } else {
                        k += 1;
                    }
                }
                if !seen {
                    proof {
                        assert(self@.effect_ids()[i as int] == id);
                        assert(self@.effect_ids().to_set().contains(id));
                    }
                    out.push(id);
                }
            }
            proof {
                assert(out@ == out0 || out@ == out0.push(id));
                assert forall|x: GlobalFormId| out0.contains(x) implies out@.contains(x) by {
                    let k = choose|k: int| 0 <= k < out0.len() && out0[k] == x;
                    assert(out@[k] == x);
                }
                assert forall|i2: int|
                    0 <= i2 < i + 1 && other@.effect_ids().to_set().contains(
                        #[trigger] self.effects@[i2].global_id,
                    ) implies out@.contains(self.effects@[i2].global_id) by {
                    if i2 == i as int {
                        assert(in_other);
                        if out@ == out0.push(id) {
                            assert(out@[out@.len() - 1] == id);
                        }
                    } else {
                        assert(out0.contains(self.effects@[i2].global_id));
                    }
                }
            }
            i += 1;
        }
        proof {
            assert forall|id: GlobalFormId| #[trigger]
                self@.shared_ids(other@).contains(id) implies out@.contains(id) by {
                let i2 = choose|i2: int|
                    0 <= i2 < self@.effect_ids().len() && #[trigger] self@.effect_ids()[i2] == id;
                assert(self.effects@[i2].global_id == id);
            }
            assert forall|k: int| 0 <= k < out@.len() implies self@.shared_ids(other@).contains(
                #[trigger] out@[k],
            ) by {}
            assert(out@.to_set() =~= self@.shared_ids(other@)) by {
                assert forall|id: GlobalFormId| #[trigger] out@.to_set().contains(id) implies self@
                    .shared_ids(other@).contains(id) by {
                    let k = choose|k: int| 0 <= k < out@.len() && out@[k] == id;
                }
            }
        }
        out
    }
}

} // verus!
