use deskollama::blobs::{
    bare_digest, digests_in, freed_bytes, manifest_digests, models_disk_usage, purge_blobs,
    purge_plan, BlobEntry, FileStat, Protected, Removal,
};
use deskollama::json::{parse_json, Json};

fn strings(list: &[&str]) -> Vec<String> {
    list.iter().map(|s| s.to_string()).collect()
}

fn entries(list: &[(&str, u64)]) -> Vec<BlobEntry> {
    list.iter().map(|(name, bytes)| BlobEntry { name: name.to_string(), bytes: *bytes }).collect()
}

fn manifest(digests: &[&str]) -> Option<String> {
    let layers: Vec<String> = digests.iter().map(|d| format!("{{\"digest\": \"{}\"}}", d)).collect();
    Some(format!("{{\"layers\": [{}]}}", layers.join(", ")))
}

fn deleted(plan: &[Removal]) -> Vec<usize> {
    plan.iter().map(|r| r.entry).collect()
}

#[test]
fn a_hexadecimal_digest_is_the_same_in_every_spelling() {
    assert_eq!(bare_digest("abc123"), "abc123");
    assert_eq!(bare_digest("sha256:abc123"), "abc123");
    assert_eq!(bare_digest("sha256-abc123"), "abc123");
    assert_eq!(bare_digest(" sha256:abc123\n"), "abc123");
}

#[test]
fn the_name_of_the_hash_is_dropped_as_often_as_it_occurs() {
    assert_eq!(bare_digest("sha256:sha256:a"), "a");
    assert_eq!(bare_digest("sha256:sha256-sha256-a"), "a");
    assert_eq!(bare_digest("sha256-sha256:a"), "a");
    assert_eq!(bare_digest("sha256-sha256:sha256-a"), "a");
    assert_eq!(bare_digest("sha256:"), "");
    assert_eq!(bare_digest("sha256: a"), " a");
}

#[test]
fn a_manifest_names_its_configuration_and_its_layers() {
    let doc = parse_json(
        r#"{"config": {"digest": "sha256:cc"}, "layers": [{"digest": "sha256:aa"}, {"x": 1}, {"digest": "bb"}]}"#,
    )
    .unwrap();
    assert_eq!(digests_in(&doc), strings(&["cc", "aa", "bb"]));
    assert_eq!(digests_in(&Json::Null), Vec::<String>::new());
    let odd = parse_json(r#"{"config": {"digest": 5}, "layers": {"digest": "aa"}}"#).unwrap();
    assert_eq!(digests_in(&odd), Vec::<String>::new());
}

#[test]
fn every_manifest_adds_to_what_is_protected() {
    let mut set = manifest_digests(&vec![manifest(&["sha256:aa"]), Some("no json".to_string())]);
    assert!(set.contains("aa"));
    assert!(!set.contains("sha256:aa"));
    assert!(!set.contains("bb"));
    set.add_manifest(&parse_json(&manifest(&["sha256-bb"]).unwrap()).unwrap());
    assert!(set.contains("aa") && set.contains("bb"));
    assert!(!set.contains("cc"));
    set.add_everything();
    assert!(set.contains("cc"));
    assert!(!Protected::new().contains("aa"));
}

#[test]
fn what_a_cancelled_download_left_is_deleted() {
    let files = entries(&[
        ("sha256-aa", 10),
        ("sha256-aa-partial", 3),
        ("sha256-aa-partial-0", 4),
        ("sha256-ab", 5),
        ("readme", 6),
        ("sha256-aa-other", 7),
    ]);
    let plan = purge_blobs(&strings(&["sha256:aa"]), &vec![], &vec![], &files);
    assert_eq!(
        plan,
        vec![
            Removal { entry: 0, bytes: 10 },
            Removal { entry: 1, bytes: 3 },
            Removal { entry: 2, bytes: 4 },
        ]
    );
}

#[test]
fn a_finished_blob_of_an_installed_model_survives_and_its_parts_go() {
    let files = entries(&[("sha256-aa", 10), ("sha256-aa-partial-1", 3)]);
    let plan = purge_blobs(&strings(&["aa"]), &vec![], &vec![manifest(&["sha256:aa"])], &files);
    assert_eq!(deleted(&plan), vec![1]);
}

#[test]
fn nothing_of_a_kept_digest_goes() {
    let files = entries(&[("sha256-aa", 10), ("sha256-aa-partial-1", 3), ("sha256-bb", 1)]);
    let plan = purge_blobs(&strings(&["aa", "bb"]), &strings(&["sha256:aa"]), &vec![], &files);
    assert_eq!(deleted(&plan), vec![2]);
}

#[test]
fn a_blank_digest_deletes_nothing() {
    let files = entries(&[("sha256-", 1), ("sha256--partial", 1)]);
    let plan = purge_blobs(&strings(&["", "  ", "sha256:"]), &vec![], &vec![], &files);
    assert_eq!(plan, vec![]);
}

#[test]
fn digests_are_gone_through_in_order() {
    let files = entries(&[("sha256-aa", 1), ("sha256-bb", 2)]);
    let none = manifest_digests(&vec![]);
    let plan = purge_plan(&strings(&["bb", "aa", "bb"]), &vec![], &none, &files);
    assert_eq!(deleted(&plan), vec![1, 0, 1]);
}

#[test]
fn a_digest_that_reads_as_a_part_of_another_is_no_hexadecimal_digest() {
    let files = entries(&[("sha256-aa-partial-x", 1)]);
    let plan = purge_blobs(&strings(&["aa"]), &vec![], &vec![manifest(&["aa-partial-x"])], &files);
    assert_eq!(deleted(&plan), vec![0]);
}

#[test]
fn only_what_was_deleted_counts_as_freed() {
    let plan = vec![
        Removal { entry: 0, bytes: 10 },
        Removal { entry: 1, bytes: 3 },
        Removal { entry: 0, bytes: 10 },
    ];
    assert_eq!(freed_bytes(&plan, &vec![true, true, false]), Some(13));
    assert_eq!(freed_bytes(&plan, &vec![false, true]), Some(3));
    assert_eq!(freed_bytes(&vec![], &vec![true]), Some(0));
}

#[test]
fn a_count_that_does_not_fit_is_no_result() {
    let plan = vec![Removal { entry: 0, bytes: u64::MAX }, Removal { entry: 1, bytes: 1 }];
    assert_eq!(freed_bytes(&plan, &vec![true, false]), Some(u64::MAX));
    assert_eq!(freed_bytes(&plan, &vec![true, true]), None);
    let full = Some(FileStat { is_file: true, bytes: u64::MAX });
    let more = Some(FileStat { is_file: true, bytes: 1 });
    assert_eq!(models_disk_usage(Some("m".to_string()), &vec![full, more]), None);
}

#[test]
fn regular_files_take_room() {
    let stats = vec![
        Some(FileStat { is_file: true, bytes: 5 }),
        Some(FileStat { is_file: false, bytes: 100 }),
        None,
        Some(FileStat { is_file: true, bytes: 7 }),
    ];
    let usage = models_disk_usage(Some("C:\\models".to_string()), &stats).unwrap();
    assert_eq!(usage.bytes, 12);
    assert_eq!(usage.path, "C:\\models");
    assert_eq!(usage.payload().get("bytes"), Some(&Json::Number("12".to_string())));
    assert_eq!(usage.payload().get_text("path"), Some("C:\\models"));
    let nowhere = models_disk_usage(None, &stats).unwrap();
    assert_eq!((nowhere.bytes, nowhere.path.as_str()), (0, ""));
}

#[test]
fn how_digests_are_spelt_does_not_matter() {
    let files = entries(&[("sha256-aa", 1), ("sha256-bb", 2), ("sha256-bb-partial", 3)]);
    let plain = purge_blobs(&strings(&["aa", "bb"]), &strings(&["bb"]), &vec![], &files);
    let other =
        purge_blobs(&strings(&["sha256:aa", " sha256-bb "]), &strings(&["sha256:bb"]), &vec![], &files);
    assert_eq!(plain, other);
    assert_eq!(deleted(&plain), vec![0]);
}

#[test]
fn keeping_more_deletes_no_more() {
    let files = entries(&[("sha256-aa", 1), ("sha256-bb", 2), ("sha256-bb-partial", 3)]);
    let cancelled = strings(&["aa", "bb"]);
    let all = deleted(&purge_blobs(&cancelled, &vec![], &vec![], &files));
    assert_eq!(all, vec![0, 1, 2]);
    for (keep, installed) in [(strings(&["bb"]), vec![]), (vec![], vec![manifest(&["aa"])])] {
        for entry in deleted(&purge_blobs(&cancelled, &keep, &installed, &files)) {
            assert!(all.contains(&entry));
        }
    }
}

#[test]
fn a_bare_digest_never_begins_with_the_name_of_the_hash() {
    for d in [
        "sha256-sha256-a",
        "sha256:sha256-a",
        "sha256-sha256:a",
        "  sha256-",
        "sha256-sha256:sha256-a",
        "sha256:sha256-sha256:sha256:",
    ] {
        let bare = bare_digest(d);
        assert!(!bare.starts_with("sha256-") && !bare.starts_with("sha256:"));
        assert_eq!(bare_digest(&bare), bare);
    }
}

#[test]
fn a_file_of_an_installed_model_is_known_in_every_spelling() {
    let files = entries(&[("sha256-aa", 1)]);
    for spelt in ["aa", "sha256:aa", "sha256-aa", "sha256-sha256:aa", "sha256:sha256-aa"] {
        let installed = vec![manifest(&[spelt])];
        assert_eq!(purge_blobs(&strings(&["aa"]), &vec![], &installed, &files), vec![]);
        let plan = purge_blobs(&strings(&[spelt]), &vec![], &vec![], &files);
        assert_eq!(deleted(&plan), vec![0]);
    }
}

#[test]
fn an_unread_manifest_may_name_any_finished_blob() {
    let files = entries(&[("sha256-aa", 10), ("sha256-aa-partial-1", 3), ("sha256-bb", 1)]);
    let cancelled = strings(&["sha256:aa", "bb"]);
    assert!(manifest_digests(&vec![None]).contains("aa"));
    for manifests in [
        vec![None],
        vec![manifest(&["cc"]), None],
        vec![None, manifest(&["cc"])],
        vec![None, Some("no json".to_string()), None],
    ] {
        let plan = purge_blobs(&cancelled, &vec![], &manifests, &files);
        assert_eq!(deleted(&plan), vec![1]);
    }
    let plan = purge_blobs(&cancelled, &vec![], &vec![manifest(&["cc"])], &files);
    assert_eq!(deleted(&plan), vec![0, 1, 2]);
}

/// Carries out a plan on files that can all be deleted, each once.
fn carried_out(plan: &[Removal]) -> Vec<bool> {
    (0..plan.len()).map(|k| !deleted(&plan[..k]).contains(&plan[k].entry)).collect()
}

#[test]
fn neither_order_nor_repetition_of_the_cancelled_digests_matters() {
    let files =
        entries(&[("sha256-aa", 1), ("sha256-bb", 2), ("sha256-bb-partial", 4), ("sha256-cc", 8)]);
    for cancelled in [
        strings(&["aa", "bb"]),
        strings(&["bb", "aa"]),
        strings(&["bb", "aa", "sha256:bb", "aa", " sha256-bb"]),
    ] {
        let plan = purge_blobs(&cancelled, &vec![], &vec![], &files);
        let mut gone = deleted(&plan);
        gone.sort();
        gone.dedup();
        assert_eq!(gone, vec![0, 1, 2]);
        assert_eq!(freed_bytes(&plan, &carried_out(&plan)), Some(7));
    }
}

#[test]
fn a_second_run_finds_nothing_to_delete() {
    let files = entries(&[("sha256-aa", 1), ("sha256-bb", 2), ("sha256-bb-partial", 4), ("x", 8)]);
    let cancelled = strings(&["aa", "bb"]);
    let installed = vec![manifest(&["bb"])];
    let gone = deleted(&purge_blobs(&cancelled, &vec![], &installed, &files));
    assert_eq!(gone, vec![0, 2]);
    let left: Vec<BlobEntry> = files
        .into_iter()
        .enumerate()
        .filter(|(i, _)| !gone.contains(i))
        .map(|(_, entry)| entry)
        .collect();
    assert_eq!(left.len(), 2);
    assert_eq!(purge_blobs(&cancelled, &vec![], &installed, &left), vec![]);
}
