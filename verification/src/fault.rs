//! Why an exchange with a repository is refused.

use vstd::prelude::*;

verus! {

/// Why a projection, an import or a redaction is refused.
#[derive(Debug, Clone, Copy, PartialEq, Eq, Structural)]
pub enum SyncError {
    Malformed,
    InvalidRefName,
    InvalidBaselineRef,
    InvalidTombstone,
    InvalidEventsTree,
    InvalidEventBlob,
    InvalidBaselineEvent,
    BaselineRequired,
    InvalidRedactionRef,
    FormatRequired,
    ExactBaselineRequired,
    TombstoneRequired,
    TombstoneTargetMismatch,
    TargetInReplacement,
    TargetIndexEntry,
    TargetEventReference,
    DanglingRedactedSource,
    InvalidRedactionPlan,
    NotParentless,
    ReplacementHoldsTarget,
    ReplacementHoldsIndex,
    PlanMismatch,
    EntryCountMismatch,
    LostTombstone,
    TombstoneOidMismatch,
    ReplacementTombstoneMismatch,
    UnsafeNode,
    UnsafeLink,
    UnsafeNodeImport,
    UnsafeLinkedBy,
    MissingInteractionRow,
    TombstoneConflict,
    LinkConflict,
    UnsafeLinkEvent,
    InvalidLocalEvent,
    EventConflict,
    InvalidLocalRange,
    RangeConflict,
    FormatNotUtf8,
    FormatNotNumeric,
    FormatTooNew,
    ByCommitNotTree,
    InvalidByCommitCommit,
    InvalidByCommitName,
    InvalidByCommitPointer,
    ByCommitBody,
    DuplicatePointer,
    TooManyPointers,
    NonUtf8Path,
    NodeIdentityMismatch,
    InvalidProjectedLink,
    EventWithoutNode,
    TooManyEndpoints,
    DuplicateEventId,
    ExactWithoutSource,
    LegacyUnresolved,
    DanglingSource,
    CrossInteraction,
    InvalidSourceGrammar,
    CyclicGraph,
    UnsupportedFormat,
    NamespaceInLegacyFormat,
    NamespaceNotTree,
    NamespaceMissing,
    TooManyNodes,
    InvalidInteractionId,
    NodeTooLarge,
    NodeCollections,
    CollectionTotal,
    NodeFilenameMismatch,
    ConflictingNodes,
    MissingRange,
    InconsistentIndex,
    MissingInteraction,
    DependencyCycle,
    InvalidRangesNamespace,
    InvalidEventsNamespace,
    InvalidRangeShard,
    TooManyRanges,
    InvalidRangeFilename,
    RangePathMismatch,
    RangeTooLarge,
    RangeBodyMismatch,
    ConflictingRange,
    InvalidEventShard,
    TooManyEvents,
    InvalidEventFilename,
    EventPathMismatch,
    EventTooLarge,
    EventBodyMismatch,
    ConflictingEvent,
    TombstonesNotTree,
    InvalidTombstoneShard,
    TooManyTombstones,
    InvalidTombstoneEntry,
    InvalidTombstoneFilename,
    TombstoneShardMismatch,
    TombstoneTooLarge,
    TombstoneFilenameMismatch,
    ConflictingTombstones,
    InvalidEmbeddedLink,
    InvalidRemoteIdentity,
    InvalidContextItem,
    InvalidToolItem,
    InvalidLinkInteraction,
    LinkMissingInteraction,
    ConflictingLinkEvent,
    LinkConflictsLocal,
    LinkConflictsEmbedded,
    InvalidLinksPath,
    TooManyLinkEvents,
    InvalidLinksCommit,
    LinkTooLarge,
    InconsistentLinkRecord,
    InvalidLinkAttribution,
    ByteCountOverflow,
    TotalTooLarge,
    ImmutableNodeMismatch,
    NodeSerializationTooLarge,
    LinkSerializationTooLarge,
    UnsafeToolArguments,
    InvalidFinalLink,
    FinalStringInvalid,
    UnredactedSecret,
    InvalidTemporaryRef,
    InvalidCandidateRef,
}

impl SyncError {
    /// The message for people.
    pub open spec fn text(self) -> Seq<char> {
        match self {
            SyncError::Malformed => "malformed record"@,
            SyncError::InvalidRefName => "invalid ref name"@,
            SyncError::InvalidBaselineRef => "invalid baseline ref"@,
            SyncError::InvalidTombstone => "invalid tombstone"@,
            SyncError::InvalidEventsTree => "invalid events tree"@,
            SyncError::InvalidEventBlob => "invalid event blob"@,
            SyncError::InvalidBaselineEvent => "invalid event in redaction baseline"@,
            SyncError::BaselineRequired => "hard redaction requires an existing v4 baseline"@,
            SyncError::InvalidRedactionRef => "invalid redaction baseline ref"@,
            SyncError::FormatRequired => "hard redaction requires v5 FORMAT"@,
            SyncError::ExactBaselineRequired => "hard redaction requires exact v5 baseline"@,
            SyncError::TombstoneRequired => "destination-scoped tombstone is required before hard redaction"@,
            SyncError::TombstoneTargetMismatch => "tombstone target mismatch"@,
            SyncError::TargetInReplacement => "redaction validation found target in replacement tree"@,
            SyncError::TargetIndexEntry => "redaction validation found target index entry"@,
            SyncError::TargetEventReference => "redaction validation found target event reference"@,
            SyncError::DanglingRedactedSource => "redaction validation found dangling event source"@,
            SyncError::InvalidRedactionPlan => "invalid redaction plan"@,
            SyncError::NotParentless => "replacement commit must be parentless"@,
            SyncError::ReplacementHoldsTarget => "replacement still contains redaction target"@,
            SyncError::ReplacementHoldsIndex => "replacement still contains target index"@,
            SyncError::PlanMismatch => "redaction plan repository or destination mismatch"@,
            SyncError::EntryCountMismatch => "redaction plan replacement entry count mismatch"@,
            SyncError::LostTombstone => "replacement lost required tombstone"@,
            SyncError::TombstoneOidMismatch => "redaction plan tombstone oid mismatch"@,
            SyncError::ReplacementTombstoneMismatch => "replacement tombstone target mismatch"@,
            SyncError::UnsafeNode => "unsafe node serialization"@,
            SyncError::UnsafeLink => "unsafe link serialization"@,
            SyncError::UnsafeNodeImport => "unsafe node import"@,
            SyncError::UnsafeLinkedBy => "unsafe linked_by"@,
            SyncError::MissingInteractionRow => "Interaction missing"@,
            SyncError::TombstoneConflict => "immutable tombstone conflict"@,
            SyncError::LinkConflict => "immutable link record conflicts with local link"@,
            SyncError::UnsafeLinkEvent => "unsafe link event serialization"@,
            SyncError::InvalidLocalEvent => "invalid local derivation event"@,
            SyncError::EventConflict => "immutable derivation event conflict"@,
            SyncError::InvalidLocalRange => "invalid local range"@,
            SyncError::RangeConflict => "immutable range conflict"@,
            SyncError::FormatNotUtf8 => "FORMAT is not UTF-8"@,
            SyncError::FormatNotNumeric => "FORMAT is not numeric"@,
            SyncError::FormatTooNew => "remote FORMAT is newer than supported"@,
            SyncError::ByCommitNotTree => "by-commit must be a tree"@,
            SyncError::InvalidByCommitCommit => "invalid by-commit commit entry"@,
            SyncError::InvalidByCommitName => "invalid by-commit interaction name"@,
            SyncError::InvalidByCommitPointer => "invalid by-commit pointer"@,
            SyncError::ByCommitBody => "by-commit pointer body must be empty"@,
            SyncError::DuplicatePointer => "duplicate by-commit pointer"@,
            SyncError::TooManyPointers => "too many by-commit pointers"@,
            SyncError::NonUtf8Path => "non-UTF-8 sync path"@,
            SyncError::NodeIdentityMismatch => "projected node identity mismatch"@,
            SyncError::InvalidProjectedLink => "invalid projected legacy link"@,
            SyncError::EventWithoutNode => "event target has no projected node"@,
            SyncError::TooManyEndpoints => "too many projected endpoints"@,
            SyncError::DuplicateEventId => "duplicate derivation event id"@,
            SyncError::ExactWithoutSource => "exact derivation has no source"@,
            SyncError::LegacyUnresolved => "legacy derivation source does not resolve"@,
            SyncError::DanglingSource => "dangling derivation event source"@,
            SyncError::CrossInteraction => "cross-interaction derivation source"@,
            SyncError::InvalidSourceGrammar => "invalid derivation source grammar"@,
            SyncError::CyclicGraph => "cyclic derivation graph"@,
            SyncError::UnsupportedFormat => "unsupported FORMAT"@,
            SyncError::NamespaceInLegacyFormat => "v5 namespace in legacy FORMAT"@,
            SyncError::NamespaceNotTree => "v5 namespace must be tree"@,
            SyncError::NamespaceMissing => "FORMAT5 namespace missing"@,
            SyncError::TooManyNodes => "too many remote nodes"@,
            SyncError::InvalidInteractionId => "invalid interaction id"@,
            SyncError::NodeTooLarge => "remote node exceeds size limit"@,
            SyncError::NodeCollections => "remote node collection exceeds limit"@,
            SyncError::CollectionTotal => "remote collection total exceeds limit"@,
            SyncError::NodeFilenameMismatch => "interaction blob filename/id mismatch"@,
            SyncError::ConflictingNodes => "conflicting duplicate interaction representations"@,
            SyncError::MissingRange => "squash event references missing range"@,
            SyncError::InconsistentIndex => "by-commit index is inconsistent with projected evidence"@,
            SyncError::MissingInteraction => "derivation references missing interaction"@,
            SyncError::DependencyCycle => "Cycle detected in interaction dependencies"@,
            SyncError::InvalidRangesNamespace => "invalid reserved ranges namespace"@,
            SyncError::InvalidEventsNamespace => "invalid reserved events namespace"@,
            SyncError::InvalidRangeShard => "invalid range shard"@,
            SyncError::TooManyRanges => "too many ranges"@,
            SyncError::InvalidRangeFilename => "invalid range filename"@,
            SyncError::RangePathMismatch => "range path mismatch"@,
            SyncError::RangeTooLarge => "range too large"@,
            SyncError::RangeBodyMismatch => "range body/hash mismatch"@,
            SyncError::ConflictingRange => "conflicting range"@,
            SyncError::InvalidEventShard => "invalid event shard"@,
            SyncError::TooManyEvents => "too many derivation events"@,
            SyncError::InvalidEventFilename => "invalid event filename"@,
            SyncError::EventPathMismatch => "event path mismatch"@,
            SyncError::EventTooLarge => "event too large"@,
            SyncError::EventBodyMismatch => "event body/hash mismatch"@,
            SyncError::ConflictingEvent => "conflicting duplicate event"@,
            SyncError::TombstonesNotTree => "tombstones must be a tree"@,
            SyncError::InvalidTombstoneShard => "invalid tombstone shard"@,
            SyncError::TooManyTombstones => "too many tombstones"@,
            SyncError::InvalidTombstoneEntry => "invalid tombstone entry type"@,
            SyncError::InvalidTombstoneFilename => "invalid tombstone filename"@,
            SyncError::TombstoneShardMismatch => "tombstone shard mismatch"@,
            SyncError::TombstoneTooLarge => "tombstone exceeds size limit"@,
            SyncError::TombstoneFilenameMismatch => "tombstone filename/id mismatch"@,
            SyncError::ConflictingTombstones => "conflicting tombstones"@,
            SyncError::InvalidEmbeddedLink => "invalid embedded artifact link"@,
            SyncError::InvalidRemoteIdentity => "invalid remote identity"@,
            SyncError::InvalidContextItem => "invalid remote context item"@,
            SyncError::InvalidToolItem => "invalid remote tool item"@,
            SyncError::InvalidLinkInteraction => "invalid link interaction id"@,
            SyncError::LinkMissingInteraction => "link record references missing interaction"@,
            SyncError::ConflictingLinkEvent => "conflicting duplicate remote link event"@,
            SyncError::LinkConflictsLocal => "link record conflicts with local provenance"@,
            SyncError::LinkConflictsEmbedded => "link record conflicts with embedded provenance"@,
            SyncError::InvalidLinksPath => "invalid links path interaction id"@,
            SyncError::TooManyLinkEvents => "too many remote link events"@,
            SyncError::InvalidLinksCommit => "invalid links path commit SHA"@,
            SyncError::LinkTooLarge => "remote link event exceeds size limit"@,
            SyncError::InconsistentLinkRecord => "inconsistent link record"@,
            SyncError::InvalidLinkAttribution => "invalid link attribution"@,
            SyncError::ByteCountOverflow => "sync byte count overflow"@,
            SyncError::TotalTooLarge => "sync payload exceeds total size limit"@,
            SyncError::ImmutableNodeMismatch => "immutable node filename/id mismatch"@,
            SyncError::NodeSerializationTooLarge => "node serialization exceeds size limit"@,
            SyncError::LinkSerializationTooLarge => "link serialization exceeds size limit"@,
            SyncError::UnsafeToolArguments => "unsafe final tool arguments"@,
            SyncError::InvalidFinalLink => "invalid final link event"@,
            SyncError::FinalStringInvalid => "final string invalid"@,
            SyncError::UnredactedSecret => "unredacted secret in final Git bytes"@,
            SyncError::InvalidTemporaryRef => "invalid temporary ref"@,
            SyncError::InvalidCandidateRef => "invalid projection candidate ref"@,
        }
    }

    /// The message for people.
    pub fn message(&self) -> (r: &'static str)
        ensures
            r@ == self.text(),
    {
        match self {
            SyncError::Malformed => "malformed record",
            SyncError::InvalidRefName => "invalid ref name",
            SyncError::InvalidBaselineRef => "invalid baseline ref",
            SyncError::InvalidTombstone => "invalid tombstone",
            SyncError::InvalidEventsTree => "invalid events tree",
            SyncError::InvalidEventBlob => "invalid event blob",
            SyncError::InvalidBaselineEvent => "invalid event in redaction baseline",
            SyncError::BaselineRequired => "hard redaction requires an existing v4 baseline",
            SyncError::InvalidRedactionRef => "invalid redaction baseline ref",
            SyncError::FormatRequired => "hard redaction requires v5 FORMAT",
            SyncError::ExactBaselineRequired => "hard redaction requires exact v5 baseline",
            SyncError::TombstoneRequired => "destination-scoped tombstone is required before hard redaction",
            SyncError::TombstoneTargetMismatch => "tombstone target mismatch",
            SyncError::TargetInReplacement => "redaction validation found target in replacement tree",
            SyncError::TargetIndexEntry => "redaction validation found target index entry",
            SyncError::TargetEventReference => "redaction validation found target event reference",
            SyncError::DanglingRedactedSource => "redaction validation found dangling event source",
            SyncError::InvalidRedactionPlan => "invalid redaction plan",
            SyncError::NotParentless => "replacement commit must be parentless",
            SyncError::ReplacementHoldsTarget => "replacement still contains redaction target",
            SyncError::ReplacementHoldsIndex => "replacement still contains target index",
            SyncError::PlanMismatch => "redaction plan repository or destination mismatch",
            SyncError::EntryCountMismatch => "redaction plan replacement entry count mismatch",
            SyncError::LostTombstone => "replacement lost required tombstone",
            SyncError::TombstoneOidMismatch => "redaction plan tombstone oid mismatch",
            SyncError::ReplacementTombstoneMismatch => "replacement tombstone target mismatch",
            SyncError::UnsafeNode => "unsafe node serialization",
            SyncError::UnsafeLink => "unsafe link serialization",
            SyncError::UnsafeNodeImport => "unsafe node import",
            SyncError::UnsafeLinkedBy => "unsafe linked_by",
            SyncError::MissingInteractionRow => "Interaction missing",
            SyncError::TombstoneConflict => "immutable tombstone conflict",
            SyncError::LinkConflict => "immutable link record conflicts with local link",
            SyncError::UnsafeLinkEvent => "unsafe link event serialization",
            SyncError::InvalidLocalEvent => "invalid local derivation event",
            SyncError::EventConflict => "immutable derivation event conflict",
            SyncError::InvalidLocalRange => "invalid local range",
            SyncError::RangeConflict => "immutable range conflict",
            SyncError::FormatNotUtf8 => "FORMAT is not UTF-8",
            SyncError::FormatNotNumeric => "FORMAT is not numeric",
            SyncError::FormatTooNew => "remote FORMAT is newer than supported",
            SyncError::ByCommitNotTree => "by-commit must be a tree",
            SyncError::InvalidByCommitCommit => "invalid by-commit commit entry",
            SyncError::InvalidByCommitName => "invalid by-commit interaction name",
            SyncError::InvalidByCommitPointer => "invalid by-commit pointer",
            SyncError::ByCommitBody => "by-commit pointer body must be empty",
            SyncError::DuplicatePointer => "duplicate by-commit pointer",
            SyncError::TooManyPointers => "too many by-commit pointers",
            SyncError::NonUtf8Path => "non-UTF-8 sync path",
            SyncError::NodeIdentityMismatch => "projected node identity mismatch",
            SyncError::InvalidProjectedLink => "invalid projected legacy link",
            SyncError::EventWithoutNode => "event target has no projected node",
            SyncError::TooManyEndpoints => "too many projected endpoints",
            SyncError::DuplicateEventId => "duplicate derivation event id",
            SyncError::ExactWithoutSource => "exact derivation has no source",
            SyncError::LegacyUnresolved => "legacy derivation source does not resolve",
            SyncError::DanglingSource => "dangling derivation event source",
            SyncError::CrossInteraction => "cross-interaction derivation source",
            SyncError::InvalidSourceGrammar => "invalid derivation source grammar",
            SyncError::CyclicGraph => "cyclic derivation graph",
            SyncError::UnsupportedFormat => "unsupported FORMAT",
            SyncError::NamespaceInLegacyFormat => "v5 namespace in legacy FORMAT",
            SyncError::NamespaceNotTree => "v5 namespace must be tree",
            SyncError::NamespaceMissing => "FORMAT5 namespace missing",
            SyncError::TooManyNodes => "too many remote nodes",
            SyncError::InvalidInteractionId => "invalid interaction id",
            SyncError::NodeTooLarge => "remote node exceeds size limit",
            SyncError::NodeCollections => "remote node collection exceeds limit",
            SyncError::CollectionTotal => "remote collection total exceeds limit",
            SyncError::NodeFilenameMismatch => "interaction blob filename/id mismatch",
            SyncError::ConflictingNodes => "conflicting duplicate interaction representations",
            SyncError::MissingRange => "squash event references missing range",
            SyncError::InconsistentIndex => "by-commit index is inconsistent with projected evidence",
            SyncError::MissingInteraction => "derivation references missing interaction",
            SyncError::DependencyCycle => "Cycle detected in interaction dependencies",
            SyncError::InvalidRangesNamespace => "invalid reserved ranges namespace",
            SyncError::InvalidEventsNamespace => "invalid reserved events namespace",
            SyncError::InvalidRangeShard => "invalid range shard",
            SyncError::TooManyRanges => "too many ranges",
            SyncError::InvalidRangeFilename => "invalid range filename",
            SyncError::RangePathMismatch => "range path mismatch",
            SyncError::RangeTooLarge => "range too large",
            SyncError::RangeBodyMismatch => "range body/hash mismatch",
            SyncError::ConflictingRange => "conflicting range",
            SyncError::InvalidEventShard => "invalid event shard",
            SyncError::TooManyEvents => "too many derivation events",
            SyncError::InvalidEventFilename => "invalid event filename",
            SyncError::EventPathMismatch => "event path mismatch",
            SyncError::EventTooLarge => "event too large",
            SyncError::EventBodyMismatch => "event body/hash mismatch",
            SyncError::ConflictingEvent => "conflicting duplicate event",
            SyncError::TombstonesNotTree => "tombstones must be a tree",
            SyncError::InvalidTombstoneShard => "invalid tombstone shard",
            SyncError::TooManyTombstones => "too many tombstones",
            SyncError::InvalidTombstoneEntry => "invalid tombstone entry type",
            SyncError::InvalidTombstoneFilename => "invalid tombstone filename",
            SyncError::TombstoneShardMismatch => "tombstone shard mismatch",
            SyncError::TombstoneTooLarge => "tombstone exceeds size limit",
            SyncError::TombstoneFilenameMismatch => "tombstone filename/id mismatch",
            SyncError::ConflictingTombstones => "conflicting tombstones",
            SyncError::InvalidEmbeddedLink => "invalid embedded artifact link",
            SyncError::InvalidRemoteIdentity => "invalid remote identity",
            SyncError::InvalidContextItem => "invalid remote context item",
            SyncError::InvalidToolItem => "invalid remote tool item",
            SyncError::InvalidLinkInteraction => "invalid link interaction id",
            SyncError::LinkMissingInteraction => "link record references missing interaction",
            SyncError::ConflictingLinkEvent => "conflicting duplicate remote link event",
            SyncError::LinkConflictsLocal => "link record conflicts with local provenance",
            SyncError::LinkConflictsEmbedded => "link record conflicts with embedded provenance",
            SyncError::InvalidLinksPath => "invalid links path interaction id",
            SyncError::TooManyLinkEvents => "too many remote link events",
            SyncError::InvalidLinksCommit => "invalid links path commit SHA",
            SyncError::LinkTooLarge => "remote link event exceeds size limit",
            SyncError::InconsistentLinkRecord => "inconsistent link record",
            SyncError::InvalidLinkAttribution => "invalid link attribution",
            SyncError::ByteCountOverflow => "sync byte count overflow",
            SyncError::TotalTooLarge => "sync payload exceeds total size limit",
            SyncError::ImmutableNodeMismatch => "immutable node filename/id mismatch",
            SyncError::NodeSerializationTooLarge => "node serialization exceeds size limit",
            SyncError::LinkSerializationTooLarge => "link serialization exceeds size limit",
            SyncError::UnsafeToolArguments => "unsafe final tool arguments",
            SyncError::InvalidFinalLink => "invalid final link event",
            SyncError::FinalStringInvalid => "final string invalid",
            SyncError::UnredactedSecret => "unredacted secret in final Git bytes",
            SyncError::InvalidTemporaryRef => "invalid temporary ref",
            SyncError::InvalidCandidateRef => "invalid projection candidate ref",
        }
    }
}

} // verus!
