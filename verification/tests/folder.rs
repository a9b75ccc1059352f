use herdr_folders::folder::{
    canonical_workspace_ids, encode_public_number, folder_id_of_workspace, generate_folder_id,
    normalized_space_order, normalized_space_order_with_repairs, public_folder_number,
    reserve_folder_ids, Folder, FolderIdAllocator, SpaceOrderEntry,
};

fn folder(id: &str, name: &str, members: &[&str]) -> SpaceOrderEntry {
    SpaceOrderEntry::Folder(Folder {
        id: id.to_string(),
        name: name.to_string(),
        members: members.iter().map(|id| id.to_string()).collect(),
    })
}

fn loose(id: &str) -> SpaceOrderEntry {
    SpaceOrderEntry::Workspace(id.to_string())
}

#[test]
fn generated_folder_ids_are_short_base32_handles() {
    let mut ids = FolderIdAllocator::new();
    let id = generate_folder_id(&mut ids);
    assert!(id.starts_with('f'), "folder id {id} must start with f");
    assert!(
        public_folder_number(&id).is_some(),
        "folder id {id} must round-trip through the public number codec"
    );
}

#[test]
fn reserving_restored_folder_ids_prevents_reuse() {
    let mut ids = FolderIdAllocator::new();
    let seeded = generate_folder_id(&mut ids);
    let seeded_number = public_folder_number(&seeded).expect("generated id decodes");
    let restored_number = seeded_number + 50;
    let restored = format!("f{}", encode_public_number(restored_number));

    reserve_folder_ids(&mut ids, &[folder(&restored, "restored", &[])]);

    let next = generate_folder_id(&mut ids);
    let next_number = public_folder_number(&next).expect("generated id decodes");
    assert!(
        next_number > restored_number,
        "next folder id {next} must not collide with restored {restored}"
    );
}

#[test]
fn normalize_reports_every_repair_it_applies() {
    let entries = vec![
        loose("w1"),
        folder("f1", "work", &["w2", "w-gone", "w2"]),
        folder("f1", "work-dup", &["w4"]),
        loose("w1"),
    ];

    let (normalized, repairs) =
        normalized_space_order_with_repairs(&entries, &["w1", "w2", "w3", "w4"]);

    assert_eq!(
        normalized,
        vec![
            loose("w1"),
            folder("f1", "work", &["w2", "w4"]),
            loose("w3")
        ]
    );
    assert_eq!(repairs.dangling_workspace_refs, vec!["w-gone"]);
    assert_eq!(repairs.duplicate_workspace_refs, vec!["w2", "w1"]);
    assert_eq!(repairs.merged_duplicate_folder_ids, vec!["f1"]);
    assert_eq!(repairs.appended_missing_workspaces, vec!["w3"]);
    assert!(!repairs.is_empty());
}

#[test]
fn normalize_reports_no_repairs_for_a_clean_order() {
    let entries = vec![loose("w1"), folder("f1", "work", &["w2"])];

    let (normalized, repairs) = normalized_space_order_with_repairs(&entries, &["w1", "w2"]);

    assert_eq!(normalized, entries);
    assert!(
        repairs.is_empty(),
        "clean input must report no repairs: {repairs:?}"
    );
}

#[test]
fn normalize_repairs_are_deterministic_for_the_same_corrupt_input() {
    let entries = vec![
        folder("f2", "beta", &["w2", "w-gone", "w1"]),
        loose("w1"),
        folder("f2", "beta-dup", &["w3"]),
        loose("w-other-gone"),
    ];
    let ids = ["w1", "w2", "w3", "w4", "w5"];

    let first = normalized_space_order_with_repairs(&entries, &ids);
    let second = normalized_space_order_with_repairs(&entries, &ids);

    assert_eq!(first, second, "same corrupt input must heal identically");
}

#[test]
fn normalize_drops_stale_and_duplicate_references_and_appends_unlisted() {
    let entries = vec![
        loose("w1"),
        folder("f1", "work", &["w2", "w-gone", "w2"]),
        loose("w1"),
        loose("w-gone"),
    ];

    let normalized = normalized_space_order(&entries, &["w1", "w2", "w3"]);

    assert_eq!(
        normalized,
        vec![loose("w1"), folder("f1", "work", &["w2"]), loose("w3")]
    );
}

#[test]
fn normalize_keeps_empty_folders_and_merges_duplicate_folder_ids() {
    let entries = vec![
        folder("f1", "work", &[]),
        folder("f2", "play", &["w1"]),
        folder("f2", "play-dup", &["w2"]),
    ];

    let normalized = normalized_space_order(&entries, &["w1", "w2"]);

    assert_eq!(
        normalized,
        vec![
            folder("f1", "work", &[]),
            folder("f2", "play", &["w1", "w2"])
        ]
    );
}

#[test]
fn canonical_order_flattens_folders_in_place() {
    let entries = vec![loose("w1"), folder("f1", "work", &["w3", "w2"])];

    let canonical = canonical_workspace_ids(&entries, &["w1", "w2", "w3", "w4"]);

    assert_eq!(canonical, vec!["w1", "w3", "w2", "w4"]);
}

#[test]
fn folder_id_of_workspace_reports_membership() {
    let entries = vec![loose("w1"), folder("f1", "work", &["w2"])];

    assert_eq!(folder_id_of_workspace(&entries, "w2"), Some("f1"));
    assert_eq!(folder_id_of_workspace(&entries, "w1"), None);
    assert_eq!(folder_id_of_workspace(&entries, "w9"), None);
}

#[test]
fn public_numbers_round_trip_through_the_codec() {
    for n in [0usize, 1, 9, 10, 31, 32, 33, 1023, 1024, 123_456_789] {
        let text = encode_public_number(n);
        assert_eq!(herdr_folders::folder::decode_public_number(&text), Some(n));
    }
    assert_eq!(encode_public_number(0), "0");
    assert_eq!(encode_public_number(31), "v");
    assert_eq!(encode_public_number(32), "10");
    assert_eq!(public_folder_number("f10"), Some(32));
    assert_eq!(public_folder_number("fZZ"), None);
    assert_eq!(public_folder_number("x1"), None);
    assert_eq!(public_folder_number("f"), None);
}

#[test]
fn normalizing_a_normalized_order_changes_nothing() {
    let entries = vec![
        folder("f2", "beta", &["w2", "w-gone", "w1"]),
        loose("w1"),
        folder("f2", "beta-dup", &["w3"]),
    ];
    let ids = ["w1", "w2", "w3", "w4"];
    let once = normalized_space_order(&entries, &ids);
    let (twice, repairs) = normalized_space_order_with_repairs(&once, &ids);
    assert_eq!(once, twice);
    assert!(repairs.is_empty());
}
