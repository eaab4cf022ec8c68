//! What the store keeps and what leaves it.

use crate::capture::CaptureModel;
use crate::derivation;
use crate::models::InteractionId;
use crate::store;
use crate::store::{EventRowModel, LinkWrite};
use crate::text;
use vstd::prelude::*;

verus! {

/// An interaction takes along only what depends on it: whatever set of events is
/// taken, none of which belongs to the interaction or names it, if the set is closed
/// under what its events draw on, all of it stays.
pub proof fn law_unrelated_events_stay(
    rows: Seq<EventRowModel>,
    target: InteractionId,
    good: Set<Seq<char>>,
    k: int,
)
    requires
        forall|i: int|
            0 <= i < rows.len() && good.contains((#[trigger] rows[i]).event_id)
                ==> rows[i].interaction != target.text(),
        forall|i: int, j: int|
            0 <= i < rows.len() && good.contains(rows[i].event_id) && 0 <= j
                < rows[i].sources.len() ==> !text::has_prefix(
                #[trigger] rows[i].sources[j],
                "legacy:"@ + target.text() + ":"@,
            ),
        forall|i: int, j: int, m: int|
            0 <= i < rows.len() && good.contains(rows[i].event_id) && 0 <= j
                < rows[i].sources.len() && 0 <= m < rows.len() && #[trigger] rows[i].sources[j] == (
            #[trigger] rows[m]).event_id ==> good.contains(rows[m].event_id),
        0 <= k < rows.len(),
        good.contains(rows[k].event_id),
    ensures
        !store::leaves(rows[k].event_id, rows, target),
{
    let set = Set::new(
        |x: Seq<char>|
            !good.contains(x) && exists|m: int|
                0 <= m < rows.len() && (#[trigger] rows[m]).event_id == x,
    );
    assert(store::removal_closed(set, rows, target)) by {
        assert forall|i: int|
            0 <= i < rows.len() && (store::row_named(#[trigger] rows[i], target)
                || store::row_draws_on(rows[i], set)) implies set.contains(rows[i].event_id) by {
            let row = rows[i];
            if good.contains(row.event_id) {
                assert(row.interaction != target.text());
                if store::row_named(row, target) {
                    let j = choose|j: int|
                        0 <= j < row.sources.len() && text::has_prefix(
                            #[trigger] row.sources[j],
                            "legacy:"@ + target.text() + ":"@,
                        );
                    assert(!text::has_prefix(
                        rows[i].sources[j],
                        "legacy:"@ + target.text() + ":"@,
                    ));
                    assert(false);
                } else {
                    let j = choose|j: int|
                        0 <= j < row.sources.len() && set.contains(#[trigger] row.sources[j]);
                    let m = choose|m: int|
                        0 <= m < rows.len() && (#[trigger] rows[m]).event_id == row.sources[j];
                    assert(rows[i].sources[j] == rows[m].event_id);
                    assert(false);
                }
            }
        }
    }
    assert(!set.contains(rows[k].event_id));
}

/// What depends on an interaction leaves with it: every event of the interaction,
/// every event that names it, and every event that draws on one that leaves.
pub proof fn law_dependent_events_leave(
    rows: Seq<EventRowModel>,
    target: InteractionId,
    i: int,
)
    requires
        0 <= i < rows.len(),
    ensures
        rows[i].interaction == target.text() ==> store::leaves(rows[i].event_id, rows, target),
        forall|j: int|
            0 <= j < rows[i].sources.len() && (text::has_prefix(
                #[trigger] rows[i].sources[j],
                "legacy:"@ + target.text() + ":"@,
            ) || store::leaves(rows[i].sources[j], rows, target)) ==> store::leaves(
                rows[i].event_id,
                rows,
                target,
            ),
{
    if rows[i].interaction == target.text() {
        assert forall|set: Set<Seq<char>>| #[trigger]
            store::removal_closed(set, rows, target) implies set.contains(rows[i].event_id) by {
            assert(store::row_named(rows[i], target));
        }
    }
    assert forall|j: int|
        0 <= j < rows[i].sources.len() && (text::has_prefix(
            #[trigger] rows[i].sources[j],
            "legacy:"@ + target.text() + ":"@,
        ) || store::leaves(rows[i].sources[j], rows, target)) implies store::leaves(
        rows[i].event_id,
        rows,
        target,
    ) by {
        assert forall|set: Set<Seq<char>>| #[trigger]
            store::removal_closed(set, rows, target) implies set.contains(rows[i].event_id) by {
            if store::leaves(rows[i].sources[j], rows, target) {
                assert(set.contains(rows[i].sources[j]));
                assert(store::row_draws_on(rows[i], set));
            } else {
                assert(store::row_named(rows[i], target));
            }
        }
    }
}

/// A link is inserted where the store does not have it, gets an attribution where it
/// had none, and is left alone otherwise.
pub proof fn law_link_is_written_once(stored: Option<Option<Seq<char>>>, by: Option<Seq<char>>)
    ensures
        store::link_write(stored, by) == LinkWrite::Insert <==> stored is None,
        store::link_write(stored, by) == LinkWrite::Attribute <==> stored == Some(
            None::<Seq<char>>,
        ) && by is Some,
        store::attributions_differ(stored->0, by) ==> store::link_write(stored, by)
            != LinkWrite::Attribute,
        forall|a: Seq<char>, b: Seq<char>| #[trigger]
            store::attributions_differ(Some(a), Some(b)) <==> a != b,
        !store::attributions_differ(None, by) && !store::attributions_differ(by, None),
{
}

/// A capture of a remote goes under a conversation of its own and is otherwise what it
/// was.
pub proof fn law_remote_capture_is_otherwise_unchanged(c: CaptureModel, remote: Seq<char>)
    ensures
        ({
            let n = store::namespaced(c, remote);
            let own = "remote:"@ + remote + ":"@ + c.interaction.conversation_id;
            &&& n.conversation.id == own
            &&& n.interaction.conversation_id == own
            &&& n.conversation.title == c.conversation.title
            &&& n.conversation.created_at == c.conversation.created_at
            &&& n.interaction.id == c.interaction.id
            &&& n.interaction.parent_id == c.interaction.parent_id
            &&& n.interaction.timestamp == c.interaction.timestamp
            &&& n.interaction.author == c.interaction.author
            &&& n.interaction.user_prompt == c.interaction.user_prompt
            &&& n.interaction.model_name == c.interaction.model_name
            &&& n.interaction.model_cot == c.interaction.model_cot
            &&& n.interaction.model_response == c.interaction.model_response
            &&& n.interaction.source_request_id == c.interaction.source_request_id
            &&& n.context_items == c.context_items
            &&& n.tool_executions == c.tool_executions
            &&& n.source == c.source
            &&& n.policy == c.policy
        }),
{
}

/// The first type that the linker never gives is found, and none is where the linker
/// gives all of them.
pub proof fn law_foreign_type_is_found(types: Seq<Seq<char>>, k: int)
    requires
        0 <= k <= types.len(),
    ensures
        match store::first_foreign(types, k) {
            Some(i) => k <= i < types.len() && !derivation::automatic_link_type(types[i])
                && forall|q: int|
                k <= q < i ==> derivation::automatic_link_type(#[trigger] types[q]),
            None => forall|q: int|
                k <= q < types.len() ==> derivation::automatic_link_type(#[trigger] types[q]),
        },
    decreases types.len() - k,
{
    if k < types.len() && derivation::automatic_link_type(types[k]) {
        law_foreign_type_is_found(types, k + 1);
    }
}

/// The linker gives these types and no others.
pub proof fn law_automatic_types(t: Seq<char>)
    ensures
        derivation::automatic_link_type(t) <==> t == "generated"@ || t == "temporal"@,
{
}

} // verus!
