use eup_resizer::batch::{count_update, DiscoveredFile};
use eup_resizer::merge::MergeReport;
use eup_resizer::progress::{FileResult, FileStatus, ProgressMsg};
use eup_resizer::resizer_state::{percent_example, saved_bytes, ResizerState};
use eup_resizer::settings::{OutputMode, Settings};
use eup_resizer::squisher_state::{internal_error, SquishMsg, SquisherState};

fn file(path: &str, size: u64) -> DiscoveredFile {
    DiscoveredFile {
        path: path.to_string(),
        size,
        texture_count: None,
        parse_error: None,
    }
}

fn result(path: &str, old_size: u64, new_size: u64) -> FileResult {
    FileResult {
        path: path.to_string(),
        old_size,
        new_size,
        textures_resized: 1,
        textures_total: 2,
        warnings: vec!["odd".to_string()],
    }
}

#[test]
fn shown_files_are_pending_and_counted() {
    let mut state = ResizerState::new();
    assert!(!state.has_data(&Settings::default()));
    state.show_files(vec![file("a", 10), file("b", 20)]);
    assert!(state.counting);
    assert_eq!(state.status_of("a"), FileStatus::Pending);
    assert_eq!(state.status_of("x"), FileStatus::Pending);
    assert_eq!(state.total_current_size(), Some(30));
    state.apply_count(count_update("b".to_string(), Ok(5)));
    state.apply_count(count_update("a".to_string(), Err("bad".to_string())));
    state.apply_count(count_update("x".to_string(), Ok(9)));
    assert_eq!(state.discovered[1].texture_count, Some(5));
    assert_eq!(state.discovered[0].parse_error.as_deref(), Some("bad"));
    state.end_count();
    assert!(!state.counting);
    state.show_files(vec![file("c", u64::MAX), file("d", 1)]);
    assert_eq!(state.total_current_size(), None);
    assert_eq!(state.discovered[0].texture_count, None);
}

#[test]
fn a_batch_runs_through() {
    let mut state = ResizerState::new();
    state.show_files(vec![file("in/a.ytd", 2048), file("in/b.ytd", 1)]);
    state.start_batch();
    assert!(state.running);
    assert_eq!(state.status_of("in/a.ytd"), FileStatus::Processing);
    let started = ProgressMsg::FileStarted {
        path: "in/a.ytd".to_string(),
    };
    state.apply_progress(started, "a.ytd", "");
    let finished = ProgressMsg::FileFinished {
        result: result("in/a.ytd", 2048, 1024),
    };
    state.apply_progress(finished, "a.ytd", "+50.0");
    let errored = ProgressMsg::FileErrored {
        path: "in/b.ytd".to_string(),
        error: "gone".to_string(),
    };
    state.apply_progress(errored, "b.ytd", "");
    assert_eq!(state.status_of("in/a.ytd"), FileStatus::Done);
    assert_eq!(state.status_of("in/b.ytd"), FileStatus::Error);
    assert_eq!(state.files_done, 2);
    assert_eq!(
        state.log,
        vec![
            "a.ytd: 2.0 KB -> 1.0 KB (+50.0%) [1/2 textures resized]",
            "  warning: odd",
            "b.ytd: ERROR - gone",
        ]
    );
    assert_eq!(
        state.errors,
        vec![("in/b.ytd".to_string(), "gone".to_string())]
    );
    assert_eq!(state.totals(), Some((2048, 1024)));
    assert!(state.running);
    state.apply_progress(
        ProgressMsg::BatchFinished {
            elapsed_millis: 1500,
        },
        "",
        "",
    );
    assert!(!state.running);
    assert_eq!(state.elapsed_millis, Some(1500));
    assert!(state.has_data(&Settings::default()));
    state.clear();
    assert!(!state.has_data(&Settings::default()));
    assert_eq!(state.files_done, 0);
    assert_eq!(state.status_of("in/a.ytd"), FileStatus::Pending);
}

#[test]
fn a_batch_needs_files_and_a_place_to_write() {
    let mut state = ResizerState::new();
    let mut settings = Settings::default();
    settings.dry_run = true;
    assert!(!state.can_start(&settings));
    state.show_files(vec![file("a", 1)]);
    assert!(state.can_start(&settings));
    settings.dry_run = false;
    assert!(!state.can_start(&settings));
    settings.output_folder = Some("out".to_string());
    assert!(state.can_start(&settings));
    settings.output_folder = None;
    settings.output_mode = OutputMode::OverwriteInPlace { backup: true };
    assert!(state.can_start(&settings));
    state.start_batch();
    assert!(!state.can_start(&settings));
}

#[test]
fn savings_are_never_negative() {
    assert_eq!(saved_bytes(10, 4), 6);
    assert_eq!(saved_bytes(4, 10), 0);
    let mut state = ResizerState::new();
    state.results.push(result("a", u64::MAX, 1));
    assert_eq!(state.totals(), Some((u64::MAX, 1)));
    state.results.push(result("b", 1, 1));
    assert_eq!(state.totals(), None);
    assert_eq!(percent_example(50), 1024);
    assert_eq!(percent_example(33), 676);
    assert_eq!(percent_example(u32::MAX), u32::MAX);
}

#[test]
fn a_merge_needs_packs_and_an_output_folder() {
    let mut state = SquisherState::new();
    assert!(!state.has_data());
    assert!(!state.start_squish(Vec::new()));
    state.packs = vec!["a".to_string(), "b".to_string()];
    assert!(!state.can_start());
    state.set_output("out".to_string(), true);
    assert!(state.output_not_empty);
    assert!(state.can_start());
    assert!(!state.start_squish(vec!["overflow".to_string()]));
    assert!(!state.can_start());
    assert_eq!(state.pending_overflow, vec!["overflow"]);
    assert!(state.start_squish_now());
    assert!(state.running && state.pending_overflow.is_empty());
    assert!(!state.can_start());
    state.clear();
    assert!(!state.has_data() && !state.running);
}

#[test]
fn a_merge_runs_through() {
    let mut state = SquisherState::new();
    state.packs = vec!["a".to_string(), "b".to_string()];
    state.set_output("out".to_string(), false);
    assert!(state.start_squish(Vec::new()));
    state.apply(SquishMsg::Log("line".to_string()));
    state.apply(SquishMsg::Progress { done: 3, total: 4 });
    assert_eq!(state.progress, (3, 4));
    let report = MergeReport {
        assets_copied: 1,
        assets_renumbered: 2,
        other_files_copied: 3,
        warnings: vec!["w".to_string()],
        resize_stats: None,
    };
    state.apply(SquishMsg::Done(Ok(report)));
    assert!(!state.running);
    assert_eq!(
        state.log,
        vec![
            "line",
            "done: 1 assets copied, 2 renumbered, 3 other files copied, 1 warnings",
            "  warning: w",
        ]
    );
    assert_eq!(state.report.as_ref().unwrap().assets_renumbered, 2);
    assert!(state.start_squish_now());
    assert!(state.report.is_none());
    state.apply(SquishMsg::Done(Err("disk full".to_string())));
    assert_eq!(state.log, vec!["ERROR: disk full"]);
    assert_eq!(internal_error(None), "internal error: unknown panic");
    assert_eq!(
        internal_error(Some("boom".to_string())),
        "internal error: boom"
    );
}
