use skyrim_alchemy_rs::form_id::GlobalFormId;
use skyrim_alchemy_rs::ingredient::{Ingredient, IngredientEffect};
use skyrim_alchemy_rs::potion::{Potion, PotionEffect, ResolvedIngredient};
use skyrim_alchemy_rs::potions_list::{
    PotionsList, filter_potions, merge_ranked, valid_triple,
};

fn id(source_index: u16, local_id: u32) -> GlobalFormId {
    GlobalFormId::new(source_index, local_id)
}

fn resolved(gid: GlobalFormId, name: &str, effects: &[(GlobalFormId, u16)]) -> ResolvedIngredient {
    ResolvedIngredient {
        ingredient: Ingredient {
            global_id: gid,
            editor_id: String::from(name),
            name: Some(String::from(name)),
            effects: effects
                .iter()
                .map(|(eid, _)| IngredientEffect { global_id: *eid, duration: 10, magnitude_bits: 0 })
                .collect(),
        },
        effects: effects
            .iter()
            .map(|(eid, gold)| PotionEffect {
                global_id: *eid,
                magnitude: 5,
                duration: 10,
                gold_value: *gold,
                is_hostile: false,
            })
            .collect(),
    }
}

fn plain_potion(gold_value: u16) -> Potion {
    Potion { ingredients: Vec::new(), effects: Vec::new(), gold_value }
}

#[test]
fn triple_with_two_distinct_edges_is_valid() {
    let (x, y, z, w) = (id(0, 1), id(0, 2), id(0, 3), id(0, 4));
    // A {X,Y}, B {Y,Z}, C {Z,W}: edges A-B on {Y} and B-C on {Z}, no C-A edge.
    let a = resolved(id(0, 0x10), "A", &[(x, 1), (y, 1)]);
    let b = resolved(id(0, 0x11), "B", &[(y, 1), (z, 1)]);
    let c = resolved(id(0, 0x12), "C", &[(z, 1), (w, 1)]);
    assert!(valid_triple(&a, &b, &c));
}

#[test]
fn triple_edge_set_boundary_cases() {
    let (x, y) = (id(0, 1), id(0, 2));
    // A {X,Y}, B {X,Y}, C {X}: edges A-B {X,Y}, A-C {X}, B-C {X}.  The A-B
    // edge differs from both others, so the rule accepts the triple.
    let a = resolved(id(0, 0x10), "A", &[(x, 1), (y, 1)]);
    let b = resolved(id(0, 0x11), "B", &[(x, 1), (y, 1)]);
    let c = resolved(id(0, 0x12), "C", &[(x, 1)]);
    assert!(valid_triple(&a, &b, &c));

    // A {X}, B {X}, C {X}: all three edges share exactly {X}; every pairwise
    // comparison is equal, so the triple is dead weight and rejected.
    let a = resolved(id(0, 0x10), "A", &[(x, 1)]);
    let b = resolved(id(0, 0x11), "B", &[(x, 1)]);
    let c = resolved(id(0, 0x12), "C", &[(x, 1)]);
    assert!(!valid_triple(&a, &b, &c));
}

#[test]
fn triple_with_one_or_no_edge_is_rejected() {
    let (x, y, z) = (id(0, 1), id(0, 2), id(0, 3));
    // Only A-B share; C is isolated.
    let a = resolved(id(0, 0x10), "A", &[(x, 1)]);
    let b = resolved(id(0, 0x11), "B", &[(x, 1)]);
    let c = resolved(id(0, 0x12), "C", &[(y, 1)]);
    assert!(!valid_triple(&a, &b, &c));
    // No edges at all.
    let c2 = resolved(id(0, 0x12), "C", &[(z, 1)]);
    let b2 = resolved(id(0, 0x11), "B", &[(y, 1)]);
    assert!(!valid_triple(&a, &b2, &c2));
}

#[test]
fn two_present_edges_with_equal_sets_are_rejected() {
    let (x, y) = (id(0, 1), id(0, 2));
    // A {X}, B {X, Y}, C {X}: edges A-B {X} and B-C {X} (A-C also {X}).
    // With all edge sets equal the triple is rejected.
    let a = resolved(id(0, 0x10), "A", &[(x, 1)]);
    let b = resolved(id(0, 0x11), "B", &[(x, 1), (y, 1)]);
    let c = resolved(id(0, 0x12), "C", &[(x, 1)]);
    assert!(!valid_triple(&a, &b, &c));
}

#[test]
fn build_potions_enumerates_valid_combinations_and_ranks_them() {
    let (x, y) = (id(0, 1), id(0, 2));
    // Pair A-B activates X (10); pair A-C activates Y (40); B and C share
    // nothing.  The triple A-B-C has edges A-B {X} and A-C {Y}, which
    // differ, so it is valid too and activates both effects (50).
    let a = resolved(id(0, 0x10), "A", &[(x, 10), (y, 40)]);
    let b = resolved(id(0, 0x11), "B", &[(x, 10)]);
    let c = resolved(id(0, 0x12), "C", &[(y, 40)]);
    let mut list = PotionsList::new(vec![a, b, c]);
    list.build_potions();
    let potions = list.get_potions();
    let golds: Vec<u16> = potions.iter().map(|p| p.gold_value).collect();
    assert_eq!(golds, vec![50, 40, 10]);
}

#[test]
fn build_potions_includes_valid_triples() {
    let (x, y) = (id(0, 1), id(0, 2));
    // A {X}, B {X, Y}, C {Y}: edges A-B {X} and B-C {Y} differ: valid triple.
    let a = resolved(id(0, 0x10), "A", &[(x, 10)]);
    let b = resolved(id(0, 0x11), "B", &[(x, 10), (y, 20)]);
    let c = resolved(id(0, 0x12), "C", &[(y, 20)]);
    let mut list = PotionsList::new(vec![a, b, c]);
    list.build_potions();
    let potions = list.get_potions();
    // Pair A-B activates X only (10); pair B-C activates Y only (20); the
    // triple A-B-C activates both (10 + 20 = 30).
    let golds: Vec<u16> = potions.iter().map(|p| p.gold_value).collect();
    assert_eq!(golds.len(), 3);
    assert!(golds.contains(&10));
    assert!(golds.contains(&20));
    assert!(golds.contains(&30));
    // Descending order overall.
    let mut sorted = golds.clone();
    sorted.sort_unstable_by(|p, q| q.cmp(p));
    assert_eq!(golds, sorted);
}

#[test]
fn merged_sequence_interleaves_by_score() {
    let two = vec![plain_potion(50), plain_potion(30)];
    let three = vec![plain_potion(40), plain_potion(20)];
    let merged = merge_ranked(&three, &two);
    let golds: Vec<u16> = merged.iter().map(|p| p.gold_value).collect();
    assert_eq!(golds, vec![50, 40, 30, 20]);
}

#[test]
fn merged_sequence_prefers_the_two_list_on_ties() {
    let two = vec![plain_potion(40)];
    let three = vec![plain_potion(40)];
    let merged = merge_ranked(&three, &two);
    assert_eq!(merged.len(), 2);
    assert_eq!(merged[0].gold_value, 40);
    assert_eq!(merged[1].gold_value, 40);
}

fn named_potion(names: &[&str], gold_value: u16) -> Potion {
    Potion {
        ingredients: names
            .iter()
            .map(|nm| Ingredient {
                global_id: id(0, 1),
                editor_id: String::from(*nm),
                name: Some(String::from(*nm)),
                effects: Vec::new(),
            })
            .collect(),
        effects: Vec::new(),
        gold_value,
    }
}

#[test]
fn whitelist_requires_every_ingredient_listed() {
    let potions = vec![
        named_potion(&["Wheat", "Blue Mountain Flower"], 50),
        named_potion(&["Wheat", "Giant's Toe"], 40),
    ];
    let whitelist = vec![String::from("Wheat"), String::from("Blue Mountain Flower")];
    let kept = filter_potions(&potions, &whitelist, &Vec::new(), 10);
    assert_eq!(kept.len(), 1);
    assert_eq!(kept[0].gold_value, 50);
}

#[test]
fn blacklist_drops_any_listed_ingredient() {
    let potions = vec![
        named_potion(&["Wheat", "Blue Mountain Flower"], 50),
        named_potion(&["Wheat", "Giant's Toe"], 40),
    ];
    let blacklist = vec![String::from("Giant's Toe")];
    let kept = filter_potions(&potions, &Vec::new(), &blacklist, 10);
    assert_eq!(kept.len(), 1);
    assert_eq!(kept[0].gold_value, 50);
}

#[test]
fn limit_caps_the_suggestions() {
    let potions = vec![named_potion(&["A"], 50), named_potion(&["B"], 40), named_potion(&["C"], 30)];
    let kept = filter_potions(&potions, &Vec::new(), &Vec::new(), 2);
    assert_eq!(kept.len(), 2);
    assert_eq!(kept[0].gold_value, 50);
    assert_eq!(kept[1].gold_value, 40);
}
