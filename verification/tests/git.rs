use prmt::error::PromptError;
use prmt::memo::{GitInfo, GitMemo};
use prmt::modules::git::{
    branch_and_status, build_segment, current_branch_from_cli, current_branch_from_repo,
    git_output_value, parse_git_format, status_from_events, status_from_porcelain, GitMode,
    GitModule, GitStatus, HeadName, StatusEvent, status_step, WalkStep, gather_branch_and_status,
    branch_and_status_cli,
};
use std::cell::Cell;

#[test]
fn parse_git_format_defaults_to_full() {
    let format = parse_git_format("").expect("format");
    assert!(matches!(format.mode, GitMode::Full));
    assert!(!format.owned_only);
}

#[test]
fn parse_git_format_full_owned() {
    let format = parse_git_format("full+owned").expect("format");
    assert!(matches!(format.mode, GitMode::Full));
    assert!(format.owned_only);
}

#[test]
fn parse_git_format_short_o() {
    let format = parse_git_format("s+o").expect("format");
    assert!(matches!(format.mode, GitMode::Short));
    assert!(format.owned_only);
}

#[test]
fn parse_git_format_rejects_unknown() {
    let err = parse_git_format("full+wat").unwrap_err();
    match err {
        PromptError::InvalidFormat { module, .. } => assert_eq!(module, "git"),
        other => panic!("unexpected error: {other:?}"),
    }
}

#[test]
fn parse_git_format_last_mode_wins_and_skips_empty_parts() {
    let format = parse_git_format("full++short+owned_only").expect("format");
    assert_eq!(format.mode, GitMode::Short);
    assert!(format.owned_only);
    match parse_git_format("f+x").unwrap_err() {
        PromptError::InvalidFormat { module, format, valid_formats } => {
            assert_eq!(module, "git");
            assert_eq!(format, "f+x");
            assert_eq!(valid_formats, "full, f, short, s, +o, +owned");
        }
        other => panic!("unexpected error: {other:?}"),
    }
}

#[test]
fn porcelain_empty_output_has_no_status() {
    assert!(status_from_porcelain(true, "").is_empty());
}

#[test]
fn failed_git_status_has_no_status() {
    assert!(status_from_porcelain(false, "MM both.rs\n?? x").is_empty());
    assert!(status_from_porcelain(false, "").is_empty());
}

#[test]
fn porcelain_sets_each_flag() {
    let st = status_from_porcelain(true, "?? new.txt\n");
    assert!(st.untracked && !st.staged && !st.modified);
    let st = status_from_porcelain(true, "M  staged.rs\n");
    assert!(st.staged && !st.modified && !st.untracked);
    let st = status_from_porcelain(true, " M changed.rs\r\n");
    assert!(st.modified && !st.staged && !st.untracked);
    let st = status_from_porcelain(true, "MM both.rs\nA  added\n?? x");
    assert!(st.modified && st.staged && st.untracked);
    // A single byte line is too short to say anything.
    assert!(status_from_porcelain(true, "M\n").is_empty());
    // A multi-byte first character counts for both columns.
    let st = status_from_porcelain(true, "\u{e9}");
    assert!(st.staged && st.modified);
}

#[test]
fn git_output_is_trimmed_and_empty_means_none() {
    assert_eq!(git_output_value(true, "  main\n"), Some("main".to_string()));
    assert_eq!(git_output_value(true, " \n\t"), None);
    assert_eq!(git_output_value(false, "main"), None);
}

#[test]
fn branch_from_cli_falls_back_to_rev_parse() {
    let asked = Cell::new(0);
    let b = current_branch_from_cli(|| Some("main".to_string()), || {
        asked.set(asked.get() + 1);
        Some("abc1234".to_string())
    });
    assert_eq!(b, Some("main".to_string()));
    assert_eq!(asked.get(), 0);
    let b = current_branch_from_cli(|| None, || Some("abc1234".to_string()));
    assert_eq!(b, Some("abc1234".to_string()));
}

#[test]
fn branch_and_status_defaults() {
    let (b, st) = branch_and_status(None, None);
    assert_eq!(b, "HEAD");
    assert!(st.is_empty());
    let flags = GitStatus { modified: true, staged: false, untracked: false };
    let (b, st) = branch_and_status(Some("dev".to_string()), Some(flags));
    assert_eq!(b, "dev");
    assert_eq!(st, flags);
}

#[test]
fn branch_from_repo_prefers_reference_then_name_then_id() {
    assert_eq!(
        current_branch_from_repo(Some(HeadName::Utf8("main".into())), None, Some("abc".into())),
        "main"
    );
    assert_eq!(current_branch_from_repo(Some(HeadName::NotUtf8), None, None), "HEAD");
    assert_eq!(
        current_branch_from_repo(None, Some(HeadName::Utf8("unborn".into())), None),
        "unborn"
    );
    assert_eq!(current_branch_from_repo(None, None, Some("abc1234".into())), "abc1234");
    assert_eq!(current_branch_from_repo(None, None, None), "HEAD");
}

#[test]
fn worktree_events_set_flags_and_stop_when_saturated() {
    let events = vec![StatusEvent::OtherEntry, StatusEvent::NeedsUpdate];
    assert_eq!(status_from_events(&events), Some(GitStatus::empty()));
    let events = vec![
        StatusEvent::Untracked { counts: false },
        StatusEvent::IntentToAdd,
        StatusEvent::Rewrite,
    ];
    let st = status_from_events(&events).expect("status");
    assert!(st.staged && st.modified && !st.untracked);
    assert_eq!(status_from_events(&vec![StatusEvent::Failed]), None);
    let events = vec![
        StatusEvent::Changed,
        StatusEvent::TreeIndex,
        StatusEvent::Untracked { counts: true },
        StatusEvent::Failed,
    ];
    let st = status_from_events(&events).expect("walk stops before the failure");
    assert!(st.staged && st.modified && st.untracked);
}

#[test]
fn segment_shows_markers_in_full_mode() {
    let info = GitInfo {
        branch: "main".to_string(),
        has_changes: true,
        has_staged: true,
        has_untracked: true,
    };
    assert_eq!(build_segment(GitMode::Full, &info), "main*+?");
    assert_eq!(build_segment(GitMode::Short, &info), "main");
}

#[test]
fn render_remembers_repository_facts() {
    let module = GitModule::new();
    let mut memo = GitMemo::new();
    let fetches = Cell::new(0);
    let out = module
        .render("", Some(b"/r".to_vec()), &mut memo, || true, |need| {
            fetches.set(fetches.get() + 1);
            assert!(need);
            ("main".to_string(), GitStatus { modified: true, staged: false, untracked: true })
        })
        .expect("render");
    assert_eq!(out, Some("main*?".to_string()));
    let out = module
        .render("short", Some(b"/r".to_vec()), &mut memo, || true, |_| {
            fetches.set(fetches.get() + 1);
            ("other".to_string(), GitStatus::empty())
        })
        .expect("render");
    assert_eq!(out, Some("main".to_string()));
    assert_eq!(fetches.get(), 1);
}

#[test]
fn render_skips_missing_or_foreign_repositories() {
    let module = GitModule::new();
    let mut memo = GitMemo::new();
    let out = module.render("full", None, &mut memo, || true, |_| ("x".to_string(), GitStatus::empty()));
    assert_eq!(out.expect("render"), None);
    let out = module.render("full+o", Some(b"/r".to_vec()), &mut memo, || false, |_| {
        ("x".to_string(), GitStatus::empty())
    });
    assert_eq!(out.expect("render"), None);
    assert!(memo.get(b"/r").is_none());
    assert!(module
        .render("bogus", Some(b"/r".to_vec()), &mut memo, || true, |_| ("x".to_string(), GitStatus::empty()))
        .is_err());
}

#[test]
fn git_markers() {
    assert_eq!(GitModule::new().fs_markers(), vec![".git"]);
}

#[test]
fn one_walk_step_merges_flags_and_says_when_to_stop() {
    let acc = GitStatus { modified: true, staged: true, untracked: false };
    assert_eq!(status_step(acc, StatusEvent::Failed), WalkStep::Abort);
    assert_eq!(
        status_step(acc, StatusEvent::Untracked { counts: false }),
        WalkStep::Continue(acc)
    );
    assert_eq!(
        status_step(acc, StatusEvent::Untracked { counts: true }),
        WalkStep::Done(GitStatus { modified: true, staged: true, untracked: true })
    );
    assert_eq!(
        status_step(GitStatus::empty(), StatusEvent::TreeIndex),
        WalkStep::Continue(GitStatus { modified: false, staged: true, untracked: false })
    );
}

#[test]
fn gathering_prefers_the_open_repository_and_falls_back_in_turn() {
    let flags = GitStatus { modified: true, staged: false, untracked: false };
    let slow_used = Cell::new(false);
    let cli_used = Cell::new(false);
    let r = gather_branch_and_status(
        Some(7u32),
        true,
        |n: &u32| format!("b{}", n),
        |_: &u32| Some(flags),
        || {
            slow_used.set(true);
            GitStatus::empty()
        },
        || {
            cli_used.set(true);
            Some("cli".to_string())
        },
        || None,
    );
    assert_eq!(r, ("b7".to_string(), flags));
    assert!(!slow_used.get() && !cli_used.get());

    let slow = GitStatus { modified: false, staged: true, untracked: false };
    let r = gather_branch_and_status(
        Some(1u32),
        true,
        |_: &u32| "main".to_string(),
        |_: &u32| None,
        || slow,
        || Some("cli".to_string()),
        || None,
    );
    assert_eq!(r, ("main".to_string(), slow));

    let r = gather_branch_and_status(
        Some(1u32),
        false,
        |_: &u32| "main".to_string(),
        |_: &u32| Some(flags),
        || slow,
        || Some("cli".to_string()),
        || None,
    );
    assert_eq!(r, ("main".to_string(), GitStatus::empty()));

    let r = gather_branch_and_status(
        None::<u32>,
        true,
        |_: &u32| "main".to_string(),
        |_: &u32| Some(flags),
        || slow,
        || None,
        || Some("abc1234".to_string()),
    );
    assert_eq!(r, ("abc1234".to_string(), slow));
}

#[test]
fn git_command_fallback_gathers_flags_only_when_asked() {
    let slow_used = Cell::new(false);
    let slow = || {
        slow_used.set(true);
        GitStatus { modified: true, staged: true, untracked: true }
    };
    let r = branch_and_status_cli(false, || Some("dev".to_string()), || None, slow);
    assert_eq!(r, ("dev".to_string(), GitStatus::empty()));
    assert!(!slow_used.get());
    let r = branch_and_status_cli(
        true,
        || None,
        || None,
        || GitStatus { modified: false, staged: false, untracked: true },
    );
    assert_eq!(r, ("HEAD".to_string(), GitStatus { modified: false, staged: false, untracked: true }));
    let r = gather_branch_and_status(
        None::<u32>,
        false,
        |_: &u32| "main".to_string(),
        |_: &u32| None,
        || GitStatus { modified: true, staged: false, untracked: false },
        || Some("dev".to_string()),
        || None,
    );
    assert_eq!(r, ("dev".to_string(), GitStatus::empty()));
}

#[test]
fn empty_repo_has_no_untracked_status_in_slow_path() {
    // `git status --porcelain=v1` in a fresh repository succeeds and prints nothing.
    assert!(status_from_porcelain(true, "").is_empty());
}

#[test]
fn empty_repo_has_no_untracked_status_in_gix_path() {
    // The status walk of a fresh repository yields no item.
    assert!(matches!(status_from_events(&Vec::new()), Some(status) if status.is_empty()));
}
