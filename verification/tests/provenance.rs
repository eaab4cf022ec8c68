use cvc_core::changeset::{
    identify, ChangesetError, DeltaSide, DeltaStatus, TreeDelta, ALGORITHM, MAX_DELTAS,
};
use cvc_core::derivation::{
    link_sources, parse_legacy_source, retain_event_closure, source_id, suppressed_events,
    validate_closed_derivation_graph, validate_derivation_event,
};
use cvc_core::models::{
    CommitSha, DerivationEvent, DerivationOrigin, DerivationRelation, Evidence, EvidenceKind,
    InteractionId,
};

fn event(id: &str, interaction: &str, sources: Vec<String>) -> DerivationEvent {
    DerivationEvent {
        event_id: id.into(),
        interaction_id: InteractionId::from_str(interaction).expect("UUID fixture"),
        target_commit: CommitSha::new("c".repeat(40)),
        relation: DerivationRelation::RewriteExact,
        evidence: Evidence {
            version: 1,
            kind: EvidenceKind::LocallyObserved,
        },
        origin: DerivationOrigin::LocalHook,
        source_event_ids: sources,
        old_oid: Some(CommitSha::new("a".repeat(40))),
        new_oid: Some(CommitSha::new("c".repeat(40))),
        range_id: None,
        linked_by: None,
    }
}

const FIRST: &str = "11111111-1111-4111-8111-111111111111";
const SECOND: &str = "22222222-2222-4222-8222-222222222222";

#[test]
fn graph_rejects_empty_dangling_cross_interaction_and_cycle() {
    let a = "a".repeat(64);
    let b = "b".repeat(64);
    let first = FIRST;
    let second = SECOND;
    let legacy = link_sources(&vec![]);
    assert!(
        validate_closed_derivation_graph(&vec![event(&a, first, vec![])], &legacy).is_err()
    );
    assert!(
        validate_closed_derivation_graph(&vec![event(&a, first, vec![b.clone()])], &legacy)
            .is_err()
    );
    assert!(validate_closed_derivation_graph(
        &vec![
            event(&a, first, vec![format!("legacy:{first}:{}", "d".repeat(40))]),
            event(&b, second, vec![a.clone()]),
        ],
        &link_sources(&vec![(first.into(), "d".repeat(40))]),
    )
    .is_err());
    assert!(validate_closed_derivation_graph(
        &vec![
            event(&a, first, vec![b.clone()]),
            event(&b, first, vec![a.clone()]),
        ],
        &legacy,
    )
    .is_err());
}

#[test]
fn closed_graphs_are_accepted() {
    let a = "a".repeat(64);
    let b = "b".repeat(64);
    let legacy = link_sources(&vec![(FIRST.into(), "d".repeat(40))]);
    let root = event(&a, FIRST, vec![format!("legacy:{FIRST}:{}", "d".repeat(40))]);
    let child = event(&b, FIRST, vec![a.clone()]);
    assert!(validate_closed_derivation_graph(&vec![root, child], &legacy).is_ok());
}

#[test]
fn suppression_takes_everything_derived_with_it() {
    let a = "a".repeat(64);
    let b = "b".repeat(64);
    let c = "c".repeat(64);
    let root = event(&a, FIRST, vec![format!("legacy:{FIRST}:{}", "d".repeat(40))]);
    let child = event(&b, SECOND, vec![a.clone()]);
    let other = event(&c, SECOND, vec![format!("legacy:{SECOND}:{}", "d".repeat(40))]);
    let events = vec![root, child, other];
    let ids = vec![InteractionId::from_str(FIRST).expect("id")];
    let fallen = suppressed_events(&events, &ids, false);
    assert!(fallen.contains(&a));
    assert!(fallen.contains(&b));
    assert!(!fallen.contains(&c));
    let kept = retain_event_closure(&events, &ids, false);
    assert_eq!(kept.len(), 1);
    assert_eq!(kept[0].event_id, c);
}

#[test]
fn event_identities_ignore_the_order_of_sources() {
    let x = "1".repeat(64);
    let y = "2".repeat(64);
    let one = event("", FIRST, vec![x.clone(), y.clone()]);
    let two = event("other", FIRST, vec![y.clone(), x.clone(), y.clone()]);
    assert_eq!(one.canonical_id(), two.canonical_id());
    let three = event("", FIRST, vec![x.clone()]);
    assert_ne!(one.canonical_id(), three.canonical_id());
    let mut four = event("", FIRST, vec![x, y]);
    four.linked_by = Some(String::new());
    assert_ne!(one.canonical_id(), four.canonical_id());
    assert_eq!(one.canonical_id().len(), 64);
    assert!(!one.verify_id());
    assert!(one.sources_are_canonical());
    assert!(!two.sources_are_canonical());
}

#[test]
fn valid_events_carry_their_own_identity() {
    let mut e = event("", FIRST, vec![format!("legacy:{FIRST}:{}", "a".repeat(40))]);
    assert!(!validate_derivation_event(&e));
    e.event_id = e.canonical_id();
    assert!(e.verify_id());
    assert!(validate_derivation_event(&e));
    assert!(e.same(&e.clone()));
}

#[test]
fn direct_links_are_read_back_from_their_source_text() {
    let id = InteractionId::from_str(FIRST).expect("id");
    let commit = "d".repeat(40);
    let text = source_id(&id, &commit);
    assert_eq!(text, format!("legacy:{FIRST}:{commit}"));
    assert_eq!(parse_legacy_source(&text), Some((FIRST.to_owned(), commit)));
    assert_eq!(parse_legacy_source("legacy:x:y"), None);
}

fn side(path: &str, mode: u32, fill: u8) -> DeltaSide {
    DeltaSide {
        path: Some(path.as_bytes().to_vec()),
        mode,
        oid: vec![fill; 20],
    }
}

fn modified(path: &str, fill: u8) -> TreeDelta {
    TreeDelta {
        status: DeltaStatus::Modified,
        old: side(path, 0o100644, fill),
        new: side(path, 0o100644, fill + 1),
    }
}

#[test]
fn changesets_do_not_depend_on_the_order_of_changes() {
    let one = identify(&vec![modified("a", 1), modified("b", 5)]).expect("id");
    let two = identify(&vec![modified("b", 5), modified("a", 1)]).expect("id");
    assert_eq!(one, two);
    assert_eq!(one.algorithm, ALGORITHM);
    assert_eq!(one.deltas, 2);
    assert_eq!(one.digest.len(), 64);
    // Two header fields, then path, status and two endpoints for each change.
    assert_eq!(one.canonical_bytes, (9 + 16) + (9 + 8) + 2 * ((9 + 1) + (9 + 1) + 2 * (9 + 26)));
    let three = identify(&vec![modified("a", 1), modified("b", 6)]).expect("id");
    assert_ne!(one.digest, three.digest);
    let empty = identify(&vec![]).expect("id");
    assert_eq!(empty.canonical_bytes, 42);
}

#[test]
fn changesets_have_bounds_and_formats() {
    let many: Vec<TreeDelta> = (0..MAX_DELTAS + 1).map(|_| modified("a", 1)).collect();
    assert!(matches!(identify(&many), Err(ChangesetError::Bound("deltas"))));
    let long = "x".repeat(4097);
    assert!(matches!(
        identify(&vec![modified(&long, 1)]),
        Err(ChangesetError::Bound("path"))
    ));
    let mut renamed = modified("a", 1);
    renamed.status = DeltaStatus::Other;
    assert!(matches!(identify(&vec![renamed]), Err(ChangesetError::Delta)));
    let mut wide = modified("a", 1);
    wide.new.oid = vec![1; 32];
    assert!(matches!(identify(&vec![wide]), Err(ChangesetError::ObjectFormat)));
    let added = TreeDelta {
        status: DeltaStatus::Added,
        old: DeltaSide { path: None, mode: 0, oid: vec![0; 20] },
        new: side("a", 0o120000, 3),
    };
    assert!(identify(&vec![added]).is_ok());
    let mut lost = modified("a", 1);
    lost.new.path = None;
    assert!(matches!(identify(&vec![lost]), Err(ChangesetError::Delta)));
}
