use skyrim_alchemy_rs::load_order::LoadOrder;

fn sample_order() -> LoadOrder {
    LoadOrder::new(vec![
        String::from("Skyrim.esm"),
        String::from("Update.esm"),
        String::from("Dawnguard.esm"),
        String::from("MyMod.esp"),
    ])
}

#[test]
fn find_index_is_case_insensitive_but_storage_preserves_case() {
    let lo = sample_order();
    assert_eq!(lo.find_index("skyrim.esm"), Some(0));
    assert_eq!(lo.find_index("UPDATE.ESM"), Some(1));
    assert_eq!(lo.find_index("mymod.ESP"), Some(3));
    assert_eq!(lo.find_index("Other.esp"), None);
    assert_eq!(lo.get(0), Some("Skyrim.esm"));
}

#[test]
fn find_index_returns_first_match() {
    let lo = LoadOrder::new(vec![String::from("A.esp"), String::from("a.esp")]);
    assert_eq!(lo.find_index("A.ESP"), Some(0));
}

#[test]
fn get_form_id_prefix_matches_find_index() {
    let lo = sample_order();
    assert_eq!(lo.get_form_id_prefix("dawnguard.esm"), Some(2));
    assert_eq!(lo.get_form_id_prefix("missing.esp"), None);
}

#[test]
fn get_out_of_range_is_none() {
    let lo = sample_order();
    assert_eq!(lo.get(4), None);
}

#[test]
fn is_empty_reports_emptiness() {
    assert!(LoadOrder::new(Vec::new()).is_empty());
    assert!(!sample_order().is_empty());
}

#[test]
fn drain_unused_with_all_used_returns_none() {
    let mut lo = sample_order();
    let remap = lo.drain_unused(&vec![0, 1, 2, 3]);
    assert!(remap.is_none());
    assert_eq!(lo.len(), 4);
    assert_eq!(lo.get(3), Some("MyMod.esp"));
}

#[test]
fn drain_unused_removes_and_renumbers() {
    let mut lo = sample_order();
    // Keep indices 1 and 3 only (order and duplicates in the input are fine).
    let remap = lo.drain_unused(&vec![3, 1, 3]).unwrap();
    assert_eq!(lo.len(), 2);
    assert_eq!(lo.get(0), Some("Update.esm"));
    assert_eq!(lo.get(1), Some("MyMod.esp"));
    assert_eq!(remap, vec![None, Some(0), None, Some(1)]);
}

#[test]
fn drain_unused_remap_is_a_bijection_onto_the_new_range() {
    let mut lo = sample_order();
    let remap = lo.drain_unused(&vec![0, 2]).unwrap();
    // Every used index survives at a distinct new position.
    let mut seen = vec![false; lo.len()];
    for entry in remap.iter().flatten() {
        assert!((*entry as usize) < lo.len());
        assert!(!seen[*entry as usize]);
        seen[*entry as usize] = true;
    }
    // Every new position is hit.
    assert!(seen.into_iter().all(|hit| hit));
    // Unused indices have no entry.
    assert_eq!(remap[1], None);
    assert_eq!(remap[3], None);
}

#[test]
fn drain_unused_keeps_used_names() {
    let mut lo = sample_order();
    let names_before: Vec<String> = lo.entry_names().clone();
    let used = vec![0u16, 2u16];
    let remap = lo.drain_unused(&used).unwrap();
    for &old in &used {
        let new = remap[old as usize].unwrap();
        assert_eq!(lo.get(new).unwrap(), names_before[old as usize]);
    }
}
