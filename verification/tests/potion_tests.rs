use skyrim_alchemy_rs::form_id::GlobalFormId;
use skyrim_alchemy_rs::ingredient::{Ingredient, IngredientEffect};
use skyrim_alchemy_rs::potion::{
    EffectScaling, Potion, PotionCraftError, PotionEffect, PotionType, ResolvedIngredient,
    duration_scaling, magnitude_scaling,
};

fn id(source_index: u16, local_id: u32) -> GlobalFormId {
    GlobalFormId::new(source_index, local_id)
}

fn resolved(
    gid: GlobalFormId,
    editor: &str,
    effects: &[(GlobalFormId, u16, bool)],
) -> ResolvedIngredient {
    ResolvedIngredient {
        ingredient: Ingredient {
            global_id: gid,
            editor_id: String::from(editor),
            name: Some(String::from(editor)),
            effects: effects
                .iter()
                .map(|(eid, _, _)| IngredientEffect {
                    global_id: *eid,
                    duration: 10,
                    magnitude_bits: 0,
                })
                .collect(),
        },
        effects: effects
            .iter()
            .map(|(eid, gold, hostile)| PotionEffect {
                global_id: *eid,
                magnitude: 5,
                duration: 10,
                gold_value: *gold,
                is_hostile: *hostile,
            })
            .collect(),
    }
}

#[test]
fn fewer_than_two_ingredients_is_rejected() {
    let a = resolved(id(0, 1), "A", &[(id(0, 0x10), 10, false)]);
    assert!(matches!(
        Potion::from_ingredients(vec![a]),
        Err(PotionCraftError::NotEnoughIngredients)
    ));
    assert!(matches!(
        Potion::from_ingredients(Vec::new()),
        Err(PotionCraftError::NotEnoughIngredients)
    ));
}

#[test]
fn repeated_ingredient_is_rejected() {
    let x = id(0, 0x10);
    let a = resolved(id(0, 1), "A", &[(x, 10, false)]);
    let a_again = resolved(id(0, 1), "A2", &[(x, 12, false)]);
    assert!(matches!(
        Potion::from_ingredients(vec![a, a_again]),
        Err(PotionCraftError::DuplicateIngredient(g)) if g == id(0, 1)
    ));
}

#[test]
fn ingredient_with_repeated_effect_is_rejected() {
    let x = id(0, 0x10);
    let a = resolved(id(0, 1), "A", &[(x, 10, false), (x, 11, false)]);
    let b = resolved(id(0, 2), "B", &[(x, 12, false)]);
    assert!(matches!(
        Potion::from_ingredients(vec![a, b]),
        Err(PotionCraftError::InvalidIngredient(g)) if g == id(0, 1)
    ));
}

#[test]
fn no_shared_effect_is_rejected() {
    let a = resolved(id(0, 1), "A", &[(id(0, 0x10), 10, false)]);
    let b = resolved(id(0, 2), "B", &[(id(0, 0x11), 12, false)]);
    assert!(matches!(
        Potion::from_ingredients(vec![a, b]),
        Err(PotionCraftError::NoSharedEffects)
    ));
}

#[test]
fn shared_effects_become_active_strongest_instance_wins() {
    let x = id(0, 0x10);
    let y = id(0, 0x11);
    let z = id(0, 0x12);
    // X is shared with golds 10 and 40 (the 40 instance must win);
    // Y is shared with golds 30 and 30 (the earlier instance wins);
    // Z is only in one ingredient and stays inactive.
    let a = resolved(id(0, 1), "A", &[(x, 10, false), (y, 30, false)]);
    let b = resolved(id(0, 2), "B", &[(x, 40, false), (y, 30, false), (z, 99, false)]);
    let potion = Potion::from_ingredients(vec![a, b]).unwrap();

    assert_eq!(potion.effects.len(), 2);
    // Ranked by gold value descending: X at 40, then Y at 30.
    assert_eq!(potion.effects[0].global_id, x);
    assert_eq!(potion.effects[0].gold_value, 40);
    assert_eq!(potion.effects[1].global_id, y);
    assert_eq!(potion.effects[1].gold_value, 30);
    assert_eq!(potion.gold_value, 70);
    assert_eq!(potion.ingredients.len(), 2);
}

#[test]
fn effects_are_capped_at_six() {
    // Seven shared effects; the weakest one is dropped.
    let eids: Vec<GlobalFormId> = (0..7u32).map(|k| id(0, 0x10 + k)).collect();
    let a_effects: Vec<(GlobalFormId, u16, bool)> =
        eids.iter().enumerate().map(|(k, e)| (*e, 10 + k as u16, false)).collect();
    let a = resolved(id(0, 1), "A", &a_effects);
    let b = resolved(id(0, 2), "B", &a_effects);
    let potion = Potion::from_ingredients(vec![a, b]).unwrap();
    assert_eq!(potion.effects.len(), 6);
    // The weakest effect (gold 10) is gone.
    assert!(potion.effects.iter().all(|e| e.gold_value > 10));
    // Score is the sum of the surviving six.
    let expected: u16 = potion.effects.iter().map(|e| e.gold_value).sum();
    assert_eq!(potion.gold_value, expected);
}

#[test]
fn score_saturates_at_the_score_width() {
    let x = id(0, 0x10);
    let y = id(0, 0x11);
    let a = resolved(id(0, 1), "A", &[(x, 65000, false), (y, 65000, false)]);
    let b = resolved(id(0, 2), "B", &[(x, 65000, false), (y, 65000, false)]);
    let potion = Potion::from_ingredients(vec![a, b]).unwrap();
    assert_eq!(potion.gold_value, 65535);
}

#[test]
fn crafting_is_deterministic() {
    let x = id(0, 0x10);
    let y = id(0, 0x11);
    let make = || {
        vec![
            resolved(id(0, 1), "A", &[(x, 10, false), (y, 30, false)]),
            resolved(id(0, 2), "B", &[(x, 40, false), (y, 30, false)]),
            resolved(id(0, 3), "C", &[(y, 5, false)]),
        ]
    };
    let first = Potion::from_ingredients(make()).unwrap();
    let second = Potion::from_ingredients(make()).unwrap();
    assert_eq!(first.gold_value, second.gold_value);
    assert_eq!(
        first.effects.iter().map(|e| (e.global_id, e.gold_value)).collect::<Vec<_>>(),
        second.effects.iter().map(|e| (e.global_id, e.gold_value)).collect::<Vec<_>>()
    );
}

#[test]
fn primary_effect_decides_potion_type() {
    let x = id(0, 0x10);
    let y = id(0, 0x11);
    // The hostile effect is the strongest, so the mixture is a poison.
    let a = resolved(id(0, 1), "A", &[(x, 50, true), (y, 10, false)]);
    let b = resolved(id(0, 2), "B", &[(x, 50, true), (y, 10, false)]);
    let potion = Potion::from_ingredients(vec![a, b]).unwrap();
    assert_eq!(potion.get_primary_effect().global_id, x);
    assert_eq!(potion.get_potion_type(), PotionType::Poison);

    let c = resolved(id(0, 3), "C", &[(y, 10, false)]);
    let d = resolved(id(0, 4), "D", &[(y, 10, false)]);
    let benign = Potion::from_ingredients(vec![c, d]).unwrap();
    assert_eq!(benign.get_potion_type(), PotionType::Potion);
}

#[test]
fn scaling_decisions_follow_the_flag_bits() {
    assert_eq!(magnitude_scaling(0), EffectScaling::Unscaled);
    assert_eq!(magnitude_scaling(0x0000_0400), EffectScaling::Suppressed);
    assert_eq!(magnitude_scaling(0x0020_0000), EffectScaling::Powered);
    // The no-magnitude bit wins over the power bit.
    assert_eq!(magnitude_scaling(0x0020_0400), EffectScaling::Suppressed);

    assert_eq!(duration_scaling(0), EffectScaling::Unscaled);
    assert_eq!(duration_scaling(0x0000_0200), EffectScaling::Suppressed);
    assert_eq!(duration_scaling(0x0040_0000), EffectScaling::Powered);
    assert_eq!(duration_scaling(0x0040_0200), EffectScaling::Suppressed);
}
