use skyrim_alchemy_rs::form_id::GlobalFormId;
use skyrim_alchemy_rs::game_data::{
    GameData, IngredientError, retain_used_magic_effects, upsert_ingredient, upsert_magic_effect,
};
use skyrim_alchemy_rs::ingredient::{Ingredient, IngredientEffect};
use skyrim_alchemy_rs::magic_effect::MagicEffect;

fn id(source_index: u16, local_id: u32) -> GlobalFormId {
    GlobalFormId::new(source_index, local_id)
}

fn ingredient(gid: GlobalFormId, editor: &str, effect_ids: &[GlobalFormId]) -> Ingredient {
    Ingredient {
        global_id: gid,
        editor_id: String::from(editor),
        name: Some(format!("{} name", editor)),
        effects: effect_ids
            .iter()
            .map(|eid| IngredientEffect { global_id: *eid, duration: 10, magnitude_bits: 0 })
            .collect(),
    }
}

fn magic_effect(gid: GlobalFormId, editor: &str) -> MagicEffect {
    MagicEffect {
        global_id: gid,
        editor_id: String::from(editor),
        name: Some(format!("{} name", editor)),
        description: String::from("does things for <dur> seconds"),
        flags: 0,
        is_hostile: false,
        base_cost_bits: 0,
    }
}

#[test]
fn from_vecs_compacts_load_order_and_rewrites_ids() {
    // Sources 0 and 2 are referenced; source 1 is not and gets drained.
    let names = vec![
        String::from("Skyrim.esm"),
        String::from("Unused.esp"),
        String::from("Mod.esp"),
    ];
    let mgef = magic_effect(id(0, 0x10), "EffectA");
    let ing = ingredient(id(2, 0x20), "IngA", &[id(0, 0x10)]);
    let gd = GameData::from_vecs(names, vec![ing], vec![mgef]);

    let lo = gd.get_load_order();
    assert_eq!(lo.len(), 2);
    assert_eq!(lo.get(0), Some("Skyrim.esm"));
    assert_eq!(lo.get(1), Some("Mod.esp"));

    // The ingredient moved from source 2 to compacted source 1; its nested
    // effect reference stayed with compacted source 0.
    let ing = gd.get_ingredient(&id(1, 0x20)).unwrap();
    assert_eq!(ing.global_id, id(1, 0x20));
    assert_eq!(ing.effects[0].global_id, id(0, 0x10));
    assert!(gd.get_magic_effect(&id(0, 0x10)).is_some());
}

#[test]
fn from_vecs_with_all_sources_used_changes_nothing() {
    let names = vec![String::from("Skyrim.esm"), String::from("Mod.esp")];
    let mgef = magic_effect(id(0, 0x10), "EffectA");
    let ing = ingredient(id(1, 0x20), "IngA", &[id(0, 0x10)]);
    let gd = GameData::from_vecs(names, vec![ing], vec![mgef]);
    assert_eq!(gd.get_load_order().len(), 2);
    assert!(gd.get_ingredient(&id(1, 0x20)).is_some());
    assert!(gd.get_magic_effect(&id(0, 0x10)).is_some());
}

#[test]
fn validate_reports_every_dangling_reference() {
    let names = vec![String::from("Skyrim.esm")];
    let known = id(0, 0x10);
    let missing_a = id(0, 0x11);
    let missing_b = id(0, 0x12);
    let good = ingredient(id(0, 0x20), "Good", &[known]);
    let bad = ingredient(id(0, 0x21), "Bad", &[known, missing_a, missing_b]);
    let gd = GameData::from_vecs(
        names,
        vec![good, bad],
        vec![magic_effect(known, "EffectA")],
    );

    let errs = gd.validate().unwrap_err();
    assert_eq!(errs.len(), 1);
    let IngredientError::ReferencesUnknownMagicEffects(offender, unknown) = &errs[0];
    assert_eq!(offender.global_id, id(0, 0x21));
    let unknown_ids: Vec<GlobalFormId> = unknown.iter().map(|u| u.form_id).collect();
    assert_eq!(unknown_ids, vec![missing_a, missing_b]);
}

#[test]
fn validate_is_ok_when_everything_resolves() {
    let names = vec![String::from("Skyrim.esm")];
    let known = id(0, 0x10);
    let gd = GameData::from_vecs(
        names,
        vec![ingredient(id(0, 0x20), "Good", &[known])],
        vec![magic_effect(known, "EffectA")],
    );
    assert!(gd.validate().is_ok());
}

#[test]
fn purge_removes_only_invalid_ingredients_and_keeps_orphans() {
    let names = vec![String::from("Skyrim.esm")];
    let known = id(0, 0x10);
    let orphan = id(0, 0x15);
    let missing = id(0, 0x11);
    let good = ingredient(id(0, 0x20), "Good", &[known]);
    let bad = ingredient(id(0, 0x21), "Bad", &[missing]);
    let mut gd = GameData::from_vecs(
        names,
        vec![good, bad],
        vec![magic_effect(known, "EffectA"), magic_effect(orphan, "Orphan")],
    );

    gd.purge_invalid();
    assert!(gd.get_ingredient(&id(0, 0x20)).is_some());
    assert!(gd.get_ingredient(&id(0, 0x21)).is_none());
    // The orphaned magic effect is deliberately left in place.
    assert!(gd.get_magic_effect(&orphan).is_some());
}

#[test]
fn purge_twice_is_a_no_op() {
    let names = vec![String::from("Skyrim.esm")];
    let known = id(0, 0x10);
    let bad = ingredient(id(0, 0x21), "Bad", &[id(0, 0x11)]);
    let good = ingredient(id(0, 0x20), "Good", &[known]);
    let mut gd = GameData::from_vecs(
        names,
        vec![good, bad],
        vec![magic_effect(known, "EffectA")],
    );

    gd.purge_invalid();
    assert!(gd.validate().is_ok());
    let ingredients_after_first: Vec<GlobalFormId> =
        gd.get_ingredients().iter().map(|i| i.global_id).collect();
    gd.purge_invalid();
    let ingredients_after_second: Vec<GlobalFormId> =
        gd.get_ingredients().iter().map(|i| i.global_id).collect();
    assert_eq!(ingredients_after_first, ingredients_after_second);
}

#[test]
fn upsert_overwrites_same_id_and_appends_new() {
    let mut list: Vec<Ingredient> = Vec::new();
    upsert_ingredient(&mut list, ingredient(id(0, 1), "First", &[]));
    upsert_ingredient(&mut list, ingredient(id(0, 2), "Second", &[]));
    upsert_ingredient(&mut list, ingredient(id(0, 1), "Replacement", &[]));
    assert_eq!(list.len(), 2);
    assert_eq!(list[0].editor_id, "Replacement");
    assert_eq!(list[1].editor_id, "Second");

    let mut effects: Vec<MagicEffect> = Vec::new();
    upsert_magic_effect(&mut effects, magic_effect(id(0, 1), "First"));
    upsert_magic_effect(&mut effects, magic_effect(id(0, 1), "Replacement"));
    assert_eq!(effects.len(), 1);
    assert_eq!(effects[0].editor_id, "Replacement");
}

#[test]
fn retain_used_magic_effects_drops_unreferenced_entries() {
    let used = id(0, 0x10);
    let unused = id(0, 0x11);
    let ings = vec![ingredient(id(0, 0x20), "IngA", &[used])];
    let kept = retain_used_magic_effects(
        vec![magic_effect(used, "Used"), magic_effect(unused, "Unused")],
        &ings,
    );
    assert_eq!(kept.len(), 1);
    assert_eq!(kept[0].global_id, used);
}
