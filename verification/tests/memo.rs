use prmt::memo::{memoized_version, GitInfo, GitMemo, VersionSlot};
use std::sync::atomic::{AtomicUsize, Ordering};
use std::sync::Arc;

#[test]
fn memoized_version_caches_successful_fetches() {
    let mut slot = VersionSlot::new();
    let calls = AtomicUsize::new(0);
    let value = memoized_version(&mut slot, || {
        calls.fetch_add(1, Ordering::SeqCst);
        Some("1.2.3".to_string())
    })
    .expect("expected version");
    assert_eq!(calls.load(Ordering::SeqCst), 1);
    assert_eq!(value.as_ref(), "1.2.3");

    let second = memoized_version(&mut slot, || {
        calls.fetch_add(1, Ordering::SeqCst);
        Some("should not run".to_string())
    })
    .expect("expected cached version");
    assert_eq!(calls.load(Ordering::SeqCst), 1);
    assert!(Arc::ptr_eq(&value, &second));
}

#[test]
fn memoized_version_caches_absence() {
    let mut slot = VersionSlot::new();
    let calls = AtomicUsize::new(0);
    let value = memoized_version(&mut slot, || {
        calls.fetch_add(1, Ordering::SeqCst);
        None
    });
    assert!(value.is_none());
    assert_eq!(calls.load(Ordering::SeqCst), 1);

    let second = memoized_version(&mut slot, || {
        calls.fetch_add(1, Ordering::SeqCst);
        Some("unexpected".to_string())
    });
    assert!(second.is_none());
    assert_eq!(calls.load(Ordering::SeqCst), 1);
}

fn info(branch: &str, changes: bool) -> GitInfo {
    GitInfo {
        branch: branch.to_string(),
        has_changes: changes,
        has_staged: false,
        has_untracked: true,
    }
}

#[test]
fn git_memo_reads_back_what_was_written() {
    let mut memo = GitMemo::new();
    assert!(memo.get(b"/repo/a").is_none());
    memo.insert(b"/repo/a".to_vec(), info("main", false));
    memo.insert(b"/repo/b".to_vec(), info("dev", true));
    let a = memo.get(b"/repo/a").expect("a");
    assert_eq!(a.branch, "main");
    assert!(!a.has_changes);
    assert!(a.has_untracked);
    memo.insert(b"/repo/a".to_vec(), info("topic", true));
    let a = memo.get(b"/repo/a").expect("a again");
    assert_eq!(a.branch, "topic");
    assert!(a.has_changes);
    assert_eq!(memo.get(b"/repo/b").expect("b").branch, "dev");
    assert!(memo.get(b"/repo").is_none());
}

#[test]
fn git_memo_keeps_paths_apart_byte_for_byte() {
    let mut memo = GitMemo::new();
    memo.insert(b"/repo/\xff".to_vec(), info("a", false));
    memo.insert(b"/repo/\xfe".to_vec(), info("b", false));
    assert_eq!(memo.get(b"/repo/\xff").expect("first").branch, "a");
    assert_eq!(memo.get(b"/repo/\xfe").expect("second").branch, "b");
}
