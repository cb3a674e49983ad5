use eup_resizer::batch::{
    claim_name, count_update, destination_for, file_result, finished_message, no_output_folder,
    process_file, scan_folders, write_plan, Destination, FoundFile, OutputClaims,
    OutputSearch, WritePlan,
};
use eup_resizer::names::{
    has_extension, is_ytd_file, label_pack, lies_under, rank_path, relative_to_input_root,
};
use eup_resizer::pipeline::ResizeStats;
use eup_resizer::progress::ProgressMsg;
use eup_resizer::settings::{OutputMode, Settings};
use eup_resizer::text::Rank;
use eup_resizer::ytd_io::YtdError;

fn parts(path: &str) -> Vec<String> {
    path.split('/')
        .filter(|part| !part.is_empty())
        .map(|part| part.to_string())
        .collect()
}

#[test]
fn paths_are_ranked_name_by_name() {
    assert_eq!(rank_path(&parts("a/b"), &parts("a-b")), Rank::Less);
    assert_eq!(rank_path(&parts("a"), &parts("a/b")), Rank::Less);
    assert_eq!(rank_path(&parts("b"), &parts("a/b")), Rank::Greater);
    assert_eq!(rank_path(&parts("a/b"), &parts("a/b")), Rank::Same);
    assert_eq!(rank_path(&[], &[]), Rank::Same);
}

#[test]
fn found_files_are_sorted() {
    let found: Vec<FoundFile> = ["in/b.ytd", "in/a/z.ytd", "in/a.ytd", "in/B.ytd"]
        .iter()
        .enumerate()
        .map(|(i, path)| FoundFile {
            path: path.to_string(),
            parts: parts(path),
            size: i as u64,
        })
        .collect();
    let files = scan_folders(&found);
    let list: Vec<(&str, u64)> = files.iter().map(|f| (f.path.as_str(), f.size)).collect();
    assert_eq!(
        list,
        vec![
            ("in/B.ytd", 3),
            ("in/a/z.ytd", 1),
            ("in/a.ytd", 2),
            ("in/b.ytd", 0)
        ]
    );
    assert!(files
        .iter()
        .all(|f| f.texture_count.is_none() && f.parse_error.is_none()));
}

#[test]
fn files_at_the_same_path_keep_their_order() {
    let found: Vec<FoundFile> = (0..3)
        .map(|size| FoundFile {
            path: "x.ytd".to_string(),
            parts: parts("x.ytd"),
            size,
        })
        .collect();
    let sizes: Vec<u64> = scan_folders(&found).iter().map(|f| f.size).collect();
    assert_eq!(sizes, vec![0, 1, 2]);
}

#[test]
fn extensions_are_compared_without_case() {
    assert!(is_ytd_file(Some("YtD")));
    assert!(!is_ytd_file(Some("ydd")));
    assert!(!is_ytd_file(None));
    assert!(has_extension(Some("ymt"), "ymt"));
    assert_eq!(label_pack(12), "pack12");
}

#[test]
fn paths_are_taken_from_the_first_folder_that_holds_them() {
    let roots = vec![parts("x"), parts("in/a"), parts("in")];
    assert!(lies_under(&parts("in/a/b.ytd"), &parts("in/a")));
    assert!(!lies_under(&parts("in/ab"), &parts("in/a")));
    assert_eq!(relative_to_input_root(&parts("in/a/b.ytd"), &roots), 2);
    assert_eq!(relative_to_input_root(&parts("in/c/b.ytd"), &roots), 1);
    assert_eq!(relative_to_input_root(&parts("else/c/b.ytd"), &roots), 2);
    assert_eq!(relative_to_input_root(&[], &roots), 0);
}

#[test]
fn files_go_where_the_settings_say() {
    let mut settings = Settings::default();
    let roots = vec![parts("in")];
    assert_eq!(
        destination_for(&parts("in/a/b.ytd"), &settings, &roots),
        Destination::NoOutputFolder
    );
    assert_eq!(no_output_folder(), "no output folder set");
    settings.output_folder = Some("out".to_string());
    assert_eq!(
        destination_for(&parts("in/a/b.ytd"), &settings, &roots),
        Destination::OutputFolder { from: 1 }
    );
    settings.output_mode = OutputMode::OverwriteInPlace { backup: false };
    assert_eq!(
        destination_for(&parts("in/a/b.ytd"), &settings, &roots),
        Destination::InPlace
    );
}

#[test]
fn what_is_written_follows_the_settings() {
    let mut settings = Settings::default();
    assert_eq!(
        write_plan(&settings),
        WritePlan {
            make_output_folder: false,
            backup: false,
            write: true
        }
    );
    settings.output_folder = Some("out".to_string());
    assert!(write_plan(&settings).make_output_folder);
    let nothing = WritePlan {
        make_output_folder: false,
        backup: false,
        write: false,
    };
    settings.dry_run = true;
    assert_eq!(write_plan(&settings), nothing);
    settings.output_mode = OutputMode::OverwriteInPlace { backup: true };
    assert_eq!(write_plan(&settings), nothing);
    settings.dry_run = false;
    assert_eq!(
        write_plan(&settings),
        WritePlan {
            make_output_folder: false,
            backup: true,
            write: true
        }
    );
}

#[test]
fn output_paths_are_given_away_once() {
    let mut claims = OutputClaims::new();
    assert!(!claims.try_claim("out/a.ytd", true));
    assert!(claims.try_claim("out/a.ytd", false));
    assert!(!claims.try_claim("out/a.ytd", false));
    assert!(claims.try_claim("out/a_2.ytd", false));
    assert_eq!(claim_name(Some("a"), Some("ytd"), 0), None);
    assert_eq!(
        claim_name(Some("a"), Some("ytd"), 1).as_deref(),
        Some("a_2.ytd")
    );
    assert_eq!(claim_name(None, None, 2).as_deref(), Some("file_3"));
}

#[test]
fn counts_are_passed_on() {
    let update = count_update("a".to_string(), Ok(3));
    assert_eq!(update.path, "a");
    assert_eq!(update.texture_count, Some(3));
    assert_eq!(update.parse_error, None);
    let update = count_update("a".to_string(), Err("bad".to_string()));
    assert_eq!(update.texture_count, None);
    assert_eq!(update.parse_error.as_deref(), Some("bad"));
}

#[test]
fn files_that_cannot_be_read_are_passed_on_as_they_are() {
    let bytes = vec![1u8, 2, 3];
    let (result, written) = process_file("a.ytd".to_string(), bytes.clone(), &Settings::default());
    assert_eq!(written, bytes);
    assert_eq!((result.old_size, result.new_size), (3, 3));
    assert_eq!((result.textures_resized, result.textures_total), (0, 0));
    assert_eq!(result.path, "a.ytd");
    assert_eq!(
        result.warnings,
        vec![format!(
            "could not parse, copied unresized instead: {}",
            YtdError::TooShort { len: 3 }.message()
        )]
    );
}

#[test]
fn resized_files_are_reported() {
    let stats = ResizeStats {
        textures_resized: 1,
        textures_total: 2,
        warnings: vec!["w".to_string()],
    };
    let (result, written) =
        file_result("a.ytd".to_string(), vec![0; 9], Ok((vec![7; 4], stats)));
    assert_eq!(written, vec![7; 4]);
    assert_eq!((result.old_size, result.new_size), (9, 4));
    assert_eq!((result.textures_resized, result.textures_total), (1, 2));
    assert_eq!(result.warnings, vec!["w"]);
    assert!(matches!(
        finished_message("a.ytd".to_string(), Ok(result)),
        ProgressMsg::FileFinished { result } if result.new_size == 4
    ));
    assert!(matches!(
        finished_message("a.ytd".to_string(), Err("full".to_string())),
        ProgressMsg::FileErrored { path, error } if path == "a.ytd" && error == "full"
    ));
}

#[test]
fn the_first_free_output_name_is_found() {
    let mut claims = OutputClaims::new();
    assert!(claims.try_claim("out/a_2.ytd", false));
    let on_disk = ["out/a.ytd", "out/a_3.ytd"];
    for wanted in ["out/a_4.ytd", "out/a_5.ytd"] {
        let mut search = OutputSearch::new(Some("a"), Some("ytd"));
        let mut found = None;
        while search.is_waiting() {
            let path = format!("out/{}", search.name().unwrap_or("a.ytd".to_string()));
            if claims.answer(&mut search, &path, on_disk.contains(&path.as_str())) {
                found = Some(path);
            }
        }
        assert_eq!(found.as_deref(), Some(wanted));
    }
    let mut search = OutputSearch::new(None, None);
    assert_eq!(search.name(), None);
    assert!(claims.answer(&mut search, "out/b", false));
    assert!(!search.is_waiting());
}
