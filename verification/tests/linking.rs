use cvc_core::linker::{
    eligibility_lower_bound, normalize_repository_path, select_links, Candidate, LinkPolicy,
};
use cvc_core::models::{InteractionId, Timestamp};
use cvc_core::textset::TextSet;

fn at(seconds: i64) -> Timestamp {
    Timestamp { seconds, nanos: 0 }
}

#[test]
fn future_parent_fails_closed() {
    // 2026-01-02 12:00:00 UTC, and a parent six minutes later.
    let now = at(1767355200);
    assert_eq!(
        eligibility_lower_bound(now, LinkPolicy::default(), Some(now.seconds + 6 * 60)),
        None
    );
}

#[test]
fn rejects_cross_platform_absolute_context_paths() {
    assert_eq!(normalize_repository_path("C:\\work\\file.rs"), None);
    assert_eq!(normalize_repository_path("C:secret.rs"), None);
    assert_eq!(normalize_repository_path("\\\\host\\share\\file.rs"), None);
}

#[test]
fn context_paths_are_normalized() {
    assert_eq!(
        normalize_repository_path("src\\.\\lib.rs").as_deref(),
        Some("src/lib.rs")
    );
    assert_eq!(normalize_repository_path("src//lib.rs").as_deref(), Some("src/lib.rs"));
    assert_eq!(normalize_repository_path("/abs"), None);
    assert_eq!(normalize_repository_path("a/../b"), None);
    assert_eq!(normalize_repository_path(""), None);
    assert_eq!(normalize_repository_path("."), None);
    assert_eq!(normalize_repository_path("a\0b"), None);
}

#[test]
fn windows_never_reach_back_more_than_thirty_days() {
    assert_eq!(LinkPolicy::new(60).window_secs(), 60);
    assert!(LinkPolicy::new(u64::MAX).window_secs() <= 2592000);
    assert_eq!(LinkPolicy::from_setting(Some("120")).window_secs(), 120);
    assert_eq!(
        LinkPolicy::from_setting(None).window_secs(),
        LinkPolicy::default().window_secs()
    );
}

#[test]
fn the_lower_bound_is_the_later_of_window_and_parent() {
    let policy = LinkPolicy::new(100);
    assert_eq!(eligibility_lower_bound(at(1000), policy, None), Some(at(900)));
    assert_eq!(eligibility_lower_bound(at(1000), policy, Some(950)), Some(at(950)));
    assert_eq!(eligibility_lower_bound(at(1000), policy, Some(10)), Some(at(900)));
}

fn candidate(n: u128, conversation: &str, seconds: i64, paths: Vec<&str>) -> Candidate {
    Candidate {
        id: InteractionId::from_uuid(n),
        conversation_id: conversation.to_owned(),
        timestamp: at(seconds),
        context_paths: paths.into_iter().map(str::to_owned).collect(),
    }
}

#[test]
fn shared_files_generate_links_and_their_conversations_follow() {
    let all = vec![
        candidate(1, "c", 950, vec!["src/lib.rs"]),
        candidate(2, "c", 960, vec![]),
        candidate(3, "d", 960, vec!["other.rs"]),
        candidate(4, "c", 100, vec!["src/lib.rs"]),
        candidate(5, "e", 970, vec![]),
    ];
    let mut changed = TextSet::new();
    changed.insert("src/lib.rs".to_owned());
    let chosen = select_links(&all, at(900), at(1000), &changed);
    assert_eq!(
        chosen.generated,
        vec![InteractionId::from_uuid(1), InteractionId::from_uuid(2)]
    );
    assert_eq!(chosen.temporal, vec![InteractionId::from_uuid(5)]);
}
