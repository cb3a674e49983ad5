use std::collections::{BTreeMap, HashSet};

use eup_resizer::manifest::merge_manifests;
use eup_resizer::merge::{
    check_packs, count_files, is_resized_on_copy, plan_pack, MergeReport, Merger, Written,
};
use eup_resizer::placing::{Found, Placed};
use eup_resizer::squisher::{is_manifest, Namespaces, PackFile};

type Folder = BTreeMap<String, Vec<u8>>;

fn pack_file(path: &str) -> PackFile {
    let (folder, name) = match path.rfind('/') {
        Some(at) => (&path[..at + 1], &path[at + 1..]),
        None => ("", path),
    };
    let (stem, ext) = match name.rfind('.') {
        Some(at) if at > 0 => (&name[..at], Some(name[at + 1..].to_string())),
        _ => (name, None),
    };
    PackFile {
        dir: folder
            .split('/')
            .filter(|part| !part.is_empty())
            .map(|part| part.to_string())
            .collect(),
        name: Some(name.to_string()),
        stem: Some(stem.to_string()),
        ext,
        folder: folder.to_string(),
        shown: path.to_string(),
    }
}

fn target(file: &PackFile, placed: &Placed) -> String {
    match &placed.name {
        Some(name) => format!("{}{}", file.folder, name),
        None => file.shown.clone(),
    }
}

fn folder(files: &[(&str, &[u8])]) -> Folder {
    files
        .iter()
        .map(|(path, bytes)| (path.to_string(), bytes.to_vec()))
        .collect()
}

fn empty_files(paths: &[&str]) -> Folder {
    paths
        .iter()
        .map(|path| (path.to_string(), Vec::new()))
        .collect()
}

struct Merged {
    report: MergeReport,
    lines: Vec<String>,
    progress: Vec<(usize, usize)>,
}

fn merge_packs(packs: &[Folder], out: &mut Folder) -> Merged {
    assert_eq!(check_packs(packs.len()), None);
    let files: Vec<Vec<PackFile>> = packs
        .iter()
        .map(|pack| pack.keys().map(|path| pack_file(path)).collect())
        .collect();
    let total = files.iter().map(|files| count_files(files)).sum();
    let mut merger = Merger::new(total);
    let mut lines = Vec::new();
    let mut progress = vec![(0, total)];
    for (idx, files) in files.iter().enumerate() {
        let mut run = merger.plan(idx + 1, files).unwrap();
        while let Some(question) = run.question(files) {
            lines.extend(question.log);
            let file = &files[question.placed.index];
            let dest = target(file, &question.placed);
            let found = match out.get(&dest) {
                None => Found::Free,
                Some(bytes) if *bytes == packs[idx][&file.shown] => Found::Same,
                Some(_) => Found::Other,
            };
            assert!(run.is_waiting() && merger.room());
            merger.answer(&mut run, files, &found);
        }
        assert!(!run.is_waiting());
        for placed in run.into_queue() {
            let file = &files[placed.index];
            let bytes = packs[idx][&file.shown].clone();
            out.insert(target(file, &placed), bytes);
            progress.push(merger.record_write(idx + 1, &file.shown, &Written::Copied));
        }
    }
    let manifests: Vec<Option<String>> = packs
        .iter()
        .map(|pack| {
            pack.get("fxmanifest.lua")
                .or(pack.get("__resource.lua"))
                .map(|bytes| String::from_utf8(bytes.clone()).unwrap())
        })
        .collect();
    let (manifest, warning) = merge_manifests(&manifests);
    out.insert("fxmanifest.lua".to_string(), manifest.into_bytes());
    Merged {
        report: merger.finish(warning),
        lines,
        progress,
    }
}

#[test]
fn merge_renumbers_colliding_ids_and_leaves_the_rest_untouched() {
    let manifest: &[u8] = b"fx_version 'cerulean'\ngame 'gta5'\n";
    let mut pack_a = empty_files(&[
        "stream/male/jbib_014_u.ydd",
        "stream/male/jbib_diff_014_a_uni.ytd",
        "stream/male/jbib_015_u.ydd",
        "stream/male/jbib_diff_015_a_uni.ytd",
    ]);
    pack_a.insert("fxmanifest.lua".to_string(), manifest.to_vec());
    let mut pack_b = empty_files(&[
        "stream/male/jbib_014_u.ydd",
        "stream/male/jbib_diff_014_a_uni.ytd",
        "stream/male/jbib_diff_014_b_uni.ytd",
        "stream/male/jbib_020_u.ydd",
        "stream/male/jbib_diff_020_a_uni.ytd",
    ]);
    pack_b.insert("fxmanifest.lua".to_string(), manifest.to_vec());

    let mut out = Folder::new();
    let merged = merge_packs(&[pack_a, pack_b], &mut out);

    assert_eq!(
        merged.report.assets_renumbered, 3,
        "ydd + 2 ytd variants sharing id 014 should all renumber together"
    );
    assert!(
        out.contains_key("stream/male/jbib_014_u.ydd"),
        "pack 1's id 014 must survive untouched"
    );
    assert!(out.contains_key("stream/male/jbib_015_u.ydd"));
    assert!(
        out.contains_key("stream/male/jbib_020_u.ydd"),
        "pack 2's non-colliding id must survive untouched"
    );
    assert!(
        out.contains_key("stream/male/jbib_016_u.ydd"),
        "expected renumber to next free id 016"
    );
    assert!(out.contains_key("stream/male/jbib_diff_016_a_uni.ytd"));
    assert!(out.contains_key("stream/male/jbib_diff_016_b_uni.ytd"));
    assert!(String::from_utf8(out["fxmanifest.lua"].clone())
        .unwrap()
        .contains("fx_version"));

    assert_eq!(merged.report.assets_copied, 6);
    assert!(merged.report.warnings.is_empty());
    assert_eq!(merged.report.resize_stats, None);
    assert_eq!(
        merged.lines[0],
        "pack 2: renumbered stream/male/jbib_014_u.ydd -> stream/male/jbib_016_u.ydd \
         (jbib id 14 already used)"
    );
    assert_eq!(merged.progress[0], (0, 9));
    assert_eq!(merged.progress[9], (9, 9));
}

#[test]
fn colliding_ymt_keeps_both_copies_instead_of_overwriting() {
    let pack_a = folder(&[(
        "stream/mp_freemode_overlays.ymt",
        b"pack-a-component-data",
    )]);
    let pack_b = folder(&[(
        "stream/mp_freemode_overlays.ymt",
        b"pack-b-component-data-DIFFERENT",
    )]);

    let mut out = Folder::new();
    let merged = merge_packs(&[pack_a, pack_b], &mut out);

    assert_eq!(
        out["stream/mp_freemode_overlays.ymt"], b"pack-a-component-data",
        "pack 1's ymt must survive untouched at its original name"
    );
    let kept_both = out
        .keys()
        .any(|name| name.contains("pack2") && name.ends_with(".ymt"));
    assert!(
        kept_both,
        "pack 2's differing ymt must be kept under a distinct name, not dropped"
    );
    assert!(
        merged
            .report
            .warnings
            .iter()
            .any(|w| w.contains("ymt") || w.contains("metadata")),
        "a collision on ped component metadata must be flagged for manual review"
    );

    assert_eq!(
        out["stream/mp_freemode_overlays_pack2.ymt"],
        b"pack-b-component-data-DIFFERENT"
    );
    assert_eq!(
        merged.report.warnings,
        vec![
            "pack 2 'stream/mp_freemode_overlays.ymt': name collided with an earlier pack, kept \
             both as 'stream/mp_freemode_overlays_pack2.ymt' - ped component metadata, not \
             auto-mergeable; review both and reconcile by hand"
        ]
    );
    assert_eq!(merged.report.other_files_copied, 2);
}

#[test]
fn four_packs_all_fold_into_one_namespace() {
    let packs: Vec<Folder> = (1..=4)
        .map(|_| {
            empty_files(&[
                "stream/male/jbib_014_u.ydd",
                "stream/male/jbib_diff_014_a_uni.ytd",
            ])
        })
        .collect();

    let mut out = Folder::new();
    let merged = merge_packs(&packs, &mut out);

    assert_eq!(
        merged.report.assets_renumbered, 6,
        "packs 2, 3, and 4 each renumber their 014 group (2 files each)"
    );
    let ydd_ids: HashSet<&String> = out
        .keys()
        .filter(|name| name.starts_with("stream/male/") && name.ends_with(".ydd"))
        .collect();
    assert_eq!(
        ydd_ids.len(),
        4,
        "four distinct drawables must exist, one per pack, none overwritten"
    );
}

#[test]
fn manifest_merge_combines_files_blocks_into_one_valid_table() {
    let pack_a = "fx_version 'cerulean'\ngame { 'gta5' }\nfiles {\n\t'female_shop.meta',\n\t'pedalternatevariations.meta'\n}\ndata_file 'SHOP_PED_APPAREL_META_FILE' 'female_shop.meta'\ndata_file 'ALTERNATE_VARIATIONS_FILE' 'pedalternatevariations.meta'\n";
    let pack_b = "fx_version 'cerulean'\ngame { 'gta5' }\nfiles {\n\t'male_shop.meta'\n}\ndata_file 'SHOP_PED_APPAREL_META_FILE' 'male_shop.meta'\n";

    let (merged, _) =
        merge_manifests(&[Some(pack_a.to_string()), Some(pack_b.to_string())]);

    let files_start = merged
        .find("files {")
        .expect("must have exactly one files block");
    let files_end = merged[files_start..]
        .find('}')
        .expect("files block must close")
        + files_start;
    assert_eq!(
        merged[files_start + 1..].find("files {"),
        None,
        "must not have a second files block"
    );

    let files_block = &merged[files_start..=files_end];
    for expected in [
        "female_shop.meta",
        "pedalternatevariations.meta",
        "male_shop.meta",
    ] {
        assert!(
            files_block.contains(expected),
            "'{expected}' must be inside the single files{{}} block, got: {merged}"
        );
    }

    for (line, offset) in merged.lines().scan(0usize, |pos, l| {
        let start = *pos;
        *pos += l.len() + 1;
        Some((l, start))
    }) {
        let trimmed = line.trim();
        let inside_files_block = offset >= files_start && offset <= files_end;
        if trimmed.starts_with('\'') && !inside_files_block {
            panic!(
                "bare quoted string outside any table (invalid Lua): {trimmed:?}\nfull manifest:\n{merged}"
            );
        }
    }

    assert!(merged.contains("data_file 'SHOP_PED_APPAREL_META_FILE' 'female_shop.meta'"));
    assert!(merged.contains("data_file 'SHOP_PED_APPAREL_META_FILE' 'male_shop.meta'"));
    assert!(merged.contains("data_file 'ALTERNATE_VARIATIONS_FILE' 'pedalternatevariations.meta'"));
}

#[test]
fn nothing_in_the_output_folder_is_overwritten() {
    let mut out = folder(&[
        ("readme.txt", b"old"),
        ("readme_pack1.txt", b"older"),
        ("stream/jbib_001_u.ydd", b"old drawable"),
        ("same.txt", b"same"),
    ]);
    let packs = [
        folder(&[
            ("readme.txt", b"new"),
            ("stream/jbib_001_u.ydd", b"new drawable"),
            ("same.txt", b"same"),
        ]),
        folder(&[("readme.txt", b"newer")]),
    ];
    let merged = merge_packs(&packs, &mut out);
    assert_eq!(out["readme.txt"], b"old");
    assert_eq!(out["readme_pack1.txt"], b"older");
    assert_eq!(out["readme_pack1_1.txt"], b"new");
    assert_eq!(out["readme_pack2.txt"], b"newer");
    assert_eq!(out["stream/jbib_001_u.ydd"], b"old drawable");
    assert_eq!(out["stream/jbib_001_u_pack1.ydd"], b"new drawable");
    assert_eq!(
        merged.report.warnings,
        vec![
            "pack 1 'stream/jbib_001_u.ydd': still collided after renumbering, kept both as \
             'stream/jbib_001_u_pack1.ydd'",
            "pack 1 'readme.txt': name collided with an earlier pack, kept both as \
             'readme_pack1_1.txt'",
            "pack 2 'readme.txt': name collided with an earlier pack, kept both as \
             'readme_pack2.txt'",
        ]
    );
    assert_eq!(merged.report.assets_copied, 1);
    assert_eq!(merged.report.other_files_copied, 2);
    assert_eq!(merged.progress.last(), Some(&(3, 4)));
}

#[test]
fn files_that_cannot_be_compared_are_left_out() {
    let mut strange = pack_file("stream/x.ymt");
    strange.name = None;
    strange.stem = None;
    let files = vec![pack_file("stream/jbib_001_u.ydd"), strange];
    let mut merger = Merger::new(2);
    let mut run = merger.plan(7, &files).unwrap();
    let failed = Found::Failed {
        error: "no access".to_string(),
    };
    merger.answer(&mut run, &files, &failed);
    merger.answer(&mut run, &files, &Found::Other);
    let question = run.question(&files).unwrap();
    assert_eq!(question.placed.name.as_deref(), Some("file_pack7.ymt"));
    merger.answer(&mut run, &files, &Found::Same);
    let question = run.question(&files).unwrap();
    assert_eq!(question.placed.name.as_deref(), Some("file_pack7_1.ymt"));
    merger.answer(&mut run, &files, &Found::Free);
    assert!(run.question(&files).is_none());
    let queue = run.into_queue();
    assert_eq!(queue.len(), 1);
    assert_eq!(queue[0].index, 1);
    assert_eq!(queue[0].name.as_deref(), Some("file_pack7_1.ymt"));
    let report = merger.finish(Some("last".to_string()));
    assert_eq!(report.assets_copied, 1);
    assert_eq!(report.other_files_copied, 1);
    assert_eq!(
        report.warnings,
        vec![
            "pack 7 'stream/jbib_001_u.ydd': collision check failed: no access",
            "pack 7 'stream/x.ymt': name collided with an earlier pack, kept both as \
             'stream/file_pack7_1.ymt' - ped component metadata, not auto-mergeable; review both \
             and reconcile by hand",
            "last",
        ]
    );
}

#[test]
fn writes_are_reported() {
    let mut merger = Merger::new(4);
    assert!(merger.texture_room(2, 3));
    let resized = Written::Resized {
        resized: 2,
        total: 3,
    };
    assert_eq!(merger.record_write(1, "a.ytd", &resized), (1, 4));
    assert_eq!(merger.record_write(1, "b.ytd", &resized), (2, 4));
    let copied = Written::Unresized {
        shown: "c_pack1.ytd".to_string(),
        error: "not RSC7".to_string(),
    };
    assert_eq!(merger.record_write(1, "c.ytd", &copied), (3, 4));
    let failed = Written::Failed {
        error: "disk full".to_string(),
    };
    assert_eq!(merger.record_write(1, "d.ytd", &failed), (4, 4));
    assert!(!merger.texture_room(usize::MAX, 0));
    let report = merger.finish(None);
    assert_eq!(report.resize_stats, Some((4, 6)));
    assert_eq!(
        report.warnings,
        vec![
            "pack 1 'c_pack1.ytd': resize failed (not RSC7), copied unresized instead",
            "pack 1 'd.ytd': disk full",
        ]
    );
}

#[test]
fn two_packs_are_needed() {
    assert_eq!(check_packs(0), Some("need at least two packs to squish"));
    assert_eq!(check_packs(1), Some("need at least two packs to squish"));
    assert_eq!(check_packs(2), None);
}

#[test]
fn manifests_are_no_files() {
    assert!(is_manifest(&pack_file("FxManifest.lua")));
    assert!(is_manifest(&pack_file("sub/__resource.LUA")));
    assert!(!is_manifest(&pack_file("manifest.lua")));
    let files = [
        pack_file("fxmanifest.lua"),
        pack_file("a.txt"),
        pack_file("b/__resource.lua"),
    ];
    assert_eq!(count_files(&files), 1);
}

#[test]
fn dictionaries_are_resized_on_the_way() {
    assert!(is_resized_on_copy(Some("YTD"), true));
    assert!(!is_resized_on_copy(Some("ytd"), false));
    assert!(!is_resized_on_copy(Some("ydd"), true));
    assert!(!is_resized_on_copy(None, true));
}

#[test]
fn groups_are_planned_in_order() {
    let files = vec![
        pack_file("z/jbib_002_u.ydd"),
        pack_file("a/uppr_003_u.ydd"),
        pack_file("notes.txt"),
        pack_file("a/jbib_010_u.ydd"),
        pack_file("a/jbib_diff_9_a_uni.ytd"),
        pack_file("a/jbib_009_u.ydd"),
    ];
    let mut spaces = Namespaces::new();
    let first = plan_pack(&mut spaces, 1, &files).unwrap();
    let order: Vec<usize> = first.assets.iter().map(|p| p.index).collect();
    assert_eq!(order, vec![4, 5, 3, 1, 0]);
    assert_eq!(first.others, vec![2]);
    assert!(first
        .assets
        .iter()
        .all(|p| p.new_name.is_none() && p.log.is_none()));

    let second = plan_pack(&mut spaces, 2, &files).unwrap();
    let names: Vec<&str> = second
        .assets
        .iter()
        .map(|p| p.new_name.as_deref().unwrap())
        .collect();
    assert_eq!(
        names,
        vec![
            "jbib_diff_011_a_uni.ytd",
            "jbib_011_u.ydd",
            "jbib_012_u.ydd",
            "uppr_004_u.ydd",
            "jbib_003_u.ydd",
        ]
    );
}

#[test]
fn numbers_are_claimed_per_folder_and_prefix() {
    let mut spaces = Namespaces::new();
    let dir = vec!["a".to_string()];
    let other = vec!["b".to_string()];
    assert_eq!(spaces.claim(&dir, "jbib", 7, 3), Some(None));
    assert_eq!(spaces.claim(&other, "jbib", 7, 3), Some(None));
    assert_eq!(spaces.claim(&dir, "uppr", 7, 3), Some(None));
    assert_eq!(spaces.claim(&dir, "jbib", 7, 3), Some(Some((8, 3))));
    assert_eq!(spaces.claim(&dir, "jbib", u32::MAX, 3), Some(None));
    assert_eq!(spaces.claim(&dir, "jbib", 7, 3), None);
}

#[test]
fn files_of_one_pack_never_share_a_name() {
    let files: Vec<PackFile> = [
        "stream/f.ymt",
        "stream/f_1.ymt",
        "stream/g.meta",
        "stream/jbib_001_u.ydd",
        "stream/jbib_002_u.ydd",
        "stream/jbib_diff_001_a_uni.ytd",
        "stream/jbib_diff_001_b_uni.ytd",
        "stream/mp^jbib_001_u.ydd",
        "stream/readme",
        "other/f.ymt",
    ]
    .iter()
    .map(|path| pack_file(path))
    .collect();
    // Whatever is found to be taken, the names stay apart.
    for taken in 0..4usize {
        let mut merger = Merger::new(2 * count_files(&files));
        merger.plan(1, &files).unwrap();
        let mut run = merger.plan(2, &files).unwrap();
        let mut asked = 0usize;
        while run.question(&files).is_some() {
            let found = if asked % (taken + 1) == 0 {
                Found::Free
            } else {
                Found::Other
            };
            asked += 1;
            merger.answer(&mut run, &files, &found);
        }
        let targets: Vec<String> = run
            .into_queue()
            .iter()
            .map(|placed| target(&files[placed.index], placed))
            .collect();
        assert_eq!(targets.len(), files.len());
        let apart: HashSet<&String> = targets.iter().collect();
        assert_eq!(apart.len(), targets.len());
        if taken == 1 {
            assert!(targets.iter().any(|name| name.contains("_pack2")));
        }
    }
}

#[test]
fn a_pack_without_free_numbers_claims_what_comes_before() {
    let files = vec![
        pack_file("accs_001_u.ydd"),
        pack_file("jbib_4294967295_u.ydd"),
        pack_file("uppr_001_u.ydd"),
    ];
    let mut spaces = Namespaces::new();
    let dir: Vec<String> = Vec::new();
    assert_eq!(spaces.claim(&dir, "jbib", u32::MAX, 3), Some(None));
    assert!(plan_pack(&mut spaces, 1, &files).is_none());
    assert_eq!(spaces.claim(&dir, "accs", 1, 3), Some(Some((2, 3))));
    assert_eq!(spaces.claim(&dir, "uppr", 1, 3), Some(None));

    let mut merger = Merger::new(8);
    assert!(merger.plan(1, &files).is_some());
    assert!(merger.plan(2, &files).is_none());
    let run = merger.plan(3, &[pack_file("accs_001_u.ydd")]).unwrap();
    let question = run.question(&[pack_file("accs_001_u.ydd")]).unwrap();
    assert_eq!(question.placed.name.as_deref(), Some("accs_003_u.ydd"));
}
