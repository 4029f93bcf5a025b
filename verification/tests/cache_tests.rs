use skyrim_alchemy_rs::form_id::GlobalFormId;
use skyrim_alchemy_rs::ingredient::{Ingredient, IngredientEffect};
use skyrim_alchemy_rs::shared_effects_cache::{OrderedPair, SharedEffectsCacheUnsync};

fn id(source_index: u16, local_id: u32) -> GlobalFormId {
    GlobalFormId::new(source_index, local_id)
}

fn ingredient(gid: GlobalFormId, effect_ids: &[GlobalFormId]) -> Ingredient {
    Ingredient {
        global_id: gid,
        editor_id: String::from("ing"),
        name: None,
        effects: effect_ids
            .iter()
            .map(|eid| IngredientEffect { global_id: *eid, duration: 1, magnitude_bits: 0 })
            .collect(),
    }
}

#[test]
fn cached_answer_equals_direct_answer() {
    let x = id(0, 0x10);
    let a = ingredient(id(0, 1), &[x, id(0, 0x11)]);
    let b = ingredient(id(0, 2), &[x]);
    let c = ingredient(id(0, 3), &[id(0, 0x12)]);
    let mut cache = SharedEffectsCacheUnsync::new();
    assert_eq!(cache.cached_shares_effects_with(&a, &b), a.shares_effects_with(&b));
    assert_eq!(cache.cached_shares_effects_with(&a, &c), a.shares_effects_with(&c));
    // Hits after misses still agree.
    assert_eq!(cache.cached_shares_effects_with(&a, &b), true);
    assert_eq!(cache.cached_shares_effects_with(&a, &c), false);
}

#[test]
fn both_orientations_hit_the_same_entry() {
    let x = id(0, 0x10);
    let a = ingredient(id(0, 1), &[x]);
    let b = ingredient(id(0, 2), &[x]);
    let mut cache = SharedEffectsCacheUnsync::new();
    assert_eq!(cache.cached_shares_effects_with(&a, &b), true);
    // The reversed pair is the same unordered key and returns the same value.
    assert_eq!(cache.cached_shares_effects_with(&b, &a), true);
}

#[test]
fn answers_are_stable_across_call_orders() {
    let x = id(0, 0x10);
    let y = id(0, 0x11);
    let a = ingredient(id(0, 1), &[x]);
    let b = ingredient(id(0, 2), &[x, y]);
    let c = ingredient(id(0, 3), &[y]);

    let mut first = SharedEffectsCacheUnsync::new();
    let r1 = (
        first.cached_shares_effects_with(&a, &b),
        first.cached_shares_effects_with(&b, &c),
        first.cached_shares_effects_with(&a, &c),
    );
    let mut second = SharedEffectsCacheUnsync::new();
    let s3 = second.cached_shares_effects_with(&a, &c);
    let s2 = second.cached_shares_effects_with(&b, &c);
    let s1 = second.cached_shares_effects_with(&a, &b);
    assert_eq!(r1, (s1, s2, s3));
    assert_eq!(r1, (true, true, false));
}

#[test]
fn clear_forgets_previous_answers_but_results_stay_equal() {
    let x = id(0, 0x10);
    let a = ingredient(id(0, 1), &[x]);
    let b = ingredient(id(0, 2), &[x]);
    let mut cache = SharedEffectsCacheUnsync::new();
    assert!(cache.cached_shares_effects_with(&a, &b));
    cache.clear();
    assert!(cache.cached_shares_effects_with(&a, &b));
}

#[test]
fn shared_effect_ids_lists_the_intersection_once() {
    let x = id(0, 0x10);
    let y = id(0, 0x11);
    let z = id(0, 0x12);
    let a = ingredient(id(0, 1), &[x, y, z]);
    let b = ingredient(id(0, 2), &[y, z]);
    let shared = a.shared_effect_ids(&b);
    assert_eq!(shared, vec![y, z]);
    assert!(a.shared_effect_ids(&ingredient(id(0, 3), &[])).is_empty());
}

#[test]
fn ordered_pair_normalizes_either_order() {
    assert_eq!(OrderedPair::new(5, 9), OrderedPair::new(9, 5));
    assert_eq!(OrderedPair::new(7, 7), OrderedPair::new(7, 7));
}
