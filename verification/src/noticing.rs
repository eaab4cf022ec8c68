//! What a notice of rewritten commits says, and what a redaction counts.

use crate::layout;
use crate::order;
use crate::redaction;
use crate::rewrite;
use crate::rewrite::RewriteMode;
use crate::text;
use crate::textset;
use crate::tree::{EntryKind, NamespaceModel, ShardModel};
use vstd::prelude::*;
use vstd::string::*;
use vstd::utf8::*;

verus! {

/// A notice that is accepted says exactly what its lines say: each line is the name of
/// a replaced commit, a space and the name of the one in its place, every line gives
/// its pair, and there is no other.
pub proof fn law_every_line_is_a_pair(mode: Seq<char>, input: Seq<u8>)
    requires
        rewrite::parsed_rewrite(mode, input) is Ok,
    ensures
        ({
            let lines = text::pieces(decode_utf8(input).drop_last(), '\n');
            let pairs = rewrite::parsed_rewrite(mode, input)->Ok_0.1;
            &&& pairs.len() == lines.len()
            &&& forall|i: int| 0 <= i < lines.len() ==> is_line_of(pairs, #[trigger] lines[i])
            &&& forall|k: int|
                0 <= k < pairs.len() ==> lines.contains(
                    (#[trigger] pairs[k]).0 + " "@ + pairs[k].1,
                )
            &&& forall|a: int, b: int|
                0 <= a < b < pairs.len() ==> order::text_lt(
                    (#[trigger] pairs[a]).0,
                    (#[trigger] pairs[b]).0,
                )
        }),
{
    let lines = text::pieces(decode_utf8(input).drop_last(), '\n');
    let done = rewrite::rows(lines, lines.len())->Ok_0;
    let pairs = rewrite::parsed_rewrite(mode, input)->Ok_0.1;
    rewrite::lemma_rows_of_lines(lines, lines.len());
    let named = rewrite::olds(done);
    let keys = order::sorted_set(named);
    order::lemma_sorted_set(named);
    assert(pairs == rewrite::arranged(done));
    assert forall|k: int| 0 <= k < pairs.len() implies lines.contains(
        (#[trigger] pairs[k]).0 + " "@ + pairs[k].1,
    ) && done.contains(pairs[k]) by {
        let key = keys[k];
        assert(keys.contains(key));
        assert(named.contains(key));
        textset::lemma_position_of(named, key, 0);
        let m = textset::position_of(named, key, 0)->0;
        assert(named[m] == key);
        assert(pairs[k] == done[m]);
        rewrite::lemma_row_is_its_line(lines[m]);
        assert(lines[m] == pairs[k].0 + " "@ + pairs[k].1);
    }
    assert forall|i: int| 0 <= i < lines.len() implies is_line_of(pairs, #[trigger] lines[i]) by {
        let row = done[i];
        rewrite::lemma_row_is_its_line(lines[i]);
        assert(named[i] == row.0);
        assert(named.contains(row.0));
        assert(keys.contains(row.0));
        let k = choose|k: int| 0 <= k < keys.len() && keys[k] == row.0;
        textset::lemma_position_of(named, row.0, 0);
        let m = textset::position_of(named, row.0, 0)->0;
        assert(named[m] == row.0);
        if m < i {
            assert(done[m].0 != done[i].0);
        } else if i < m {
            assert(done[i].0 != done[m].0);
        }
        assert(pairs[k] == done[m]);
        assert(lines[i] == pairs[k].0 + " "@ + pairs[k].1);
    }
    assert forall|a: int, b: int| 0 <= a < b < pairs.len() implies order::text_lt(
        (#[trigger] pairs[a]).0,
        (#[trigger] pairs[b]).0,
    ) by {
        assert(pairs[a].0 == keys[a] && pairs[b].0 == keys[b]);
        assert(order::text_lt(keys[a], keys[b]));
    }
    assert(named.no_duplicates()) by {
        assert forall|i: int, j: int|
            0 <= i < named.len() && 0 <= j < named.len() && i != j implies named[i] != named[j] by {
            if i < j {
                assert(done[i].0 != done[j].0);
            } else {
                assert(done[j].0 != done[i].0);
            }
        }
    }
    assert(keys.no_duplicates()) by {
        assert forall|i: int, j: int|
            0 <= i < keys.len() && 0 <= j < keys.len() && i != j implies keys[i] != keys[j] by {
            order::lemma_text_order(keys[i], keys[j]);
            if i < j {
                assert(order::text_lt(keys[i], keys[j]));
            } else {
                assert(order::text_lt(keys[j], keys[i]));
            }
        }
    }
    named.unique_seq_to_set();
    keys.unique_seq_to_set();
    assert(keys.to_set() =~= named.to_set()) by {
        assert forall|x: Seq<char>| keys.to_set().contains(x) <==> named.to_set().contains(x) by {
            assert(keys.contains(x) <==> named.contains(x));
        }
    }
}

/// A line states one of the pairs.
pub open spec fn is_line_of(pairs: Seq<(Seq<char>, Seq<char>)>, line: Seq<char>) -> bool {
    exists|k: int| 0 <= k < pairs.len() && line == (#[trigger] pairs[k]).0 + " "@ + pairs[k].1
}

/// The modes of a rewrite are the two that are named so; an amendment has one pair.
pub proof fn law_modes_of_a_rewrite(mode: Seq<char>, input: Seq<u8>)
    ensures
        rewrite::parsed_rewrite(mode, input) matches Ok((kind, pairs)) ==> {
            &&& kind == RewriteMode::Amend ==> mode == "amend"@ && pairs.len() == 1
            &&& kind == RewriteMode::Rebase ==> mode == "rebase"@
            &&& input.len() > 0 && input.last() == 10 && valid_utf8(input)
            &&& !input.contains(13u8) && !input.contains(0u8)
        },
{
    if rewrite::parsed_rewrite(mode, input) is Ok {
        law_every_line_is_a_pair(mode, input);
        let lines = text::pieces(decode_utf8(input).drop_last(), '\n');
        rewrite::lemma_rows_of_lines(lines, lines.len());
    }
}

/// The size of the quarantine is the sum of its files.
pub proof fn law_quarantine_sums_its_files(lengths: Seq<u64>)
    ensures
        rewrite::total(lengths) == lengths.fold_left(0int, |sum: int, n: u64| sum + n),
    decreases lengths.len(),
{
    reveal(Seq::fold_left);
    if lengths.len() > 0 {
        law_quarantine_sums_its_files(lengths.drop_last());
    }
}

proof fn lemma_pointers(shards: Seq<ShardModel<()>>, id: Seq<char>, k: int)
    requires
        0 <= k <= shards.len(),
    ensures
        redaction::pointer_count(shards, id, k) == shards.skip(k).filter(
            |s: ShardModel<()>| points_to(s, id),
        ).len(),
    decreases shards.len() - k,
{
    let f = |s: ShardModel<()>| points_to(s, id);
    let now = shards.skip(k);
    if k < shards.len() {
        lemma_pointers(shards, id, k + 1);
        let s = shards[k];
        layout::lemma_find_leaf(s.leaves, id, 0);
        if let Some(j) = layout::find_leaf(s.leaves, id, 0) {
            assert(s.leaves[j].name == id);
        }
        assert(points_to(s, id) <==> s.kind == EntryKind::Tree && layout::find_leaf(
            s.leaves,
            id,
            0,
        ) is Some);
        assert(now =~= seq![s] + shards.skip(k + 1));
        lemma_filter_front(s, shards.skip(k + 1), f);
    } else {
        reveal(Seq::filter);
        assert(now =~= Seq::empty());
    }
}

proof fn lemma_filter_front(x: ShardModel<()>, s: Seq<ShardModel<()>>, f: spec_fn(ShardModel<()>) -> bool)
    ensures
        (seq![x] + s).filter(f).len() == s.filter(f).len() + if f(x) {
            1nat
        } else {
            0nat
        },
    decreases s.len(),
{
    reveal(Seq::filter);
    let t = seq![x] + s;
    if s.len() == 0 {
        assert(t.drop_last() =~= Seq::<ShardModel<()>>::empty());
        assert(t.last() == x);
        assert(t.drop_last().filter(f).len() == 0);
    } else {
        lemma_filter_front(x, s.drop_last(), f);
        assert(t.drop_last() =~= seq![x] + s.drop_last());
        assert(t.last() == s.last());
    }
}

/// The commit's part of the index holds the interaction.
pub open spec fn points_to(s: ShardModel<()>, id: Seq<char>) -> bool {
    s.kind == EntryKind::Tree && exists|j: int|
        0 <= j < s.leaves.len() && (#[trigger] s.leaves[j]).name == id
}

/// The pointers to an interaction are counted by the commits whose part of the index
/// holds it.
pub proof fn law_pointers_are_counted(n: NamespaceModel<()>, id: Seq<char>)
    requires
        n.kind == EntryKind::Tree,
    ensures
        redaction::pointers_to(Some(n), id) == n.shards.filter(
            |s: ShardModel<()>| points_to(s, id),
        ).len(),
{
    lemma_pointers(n.shards, id, 0);
    assert(n.shards.skip(0) =~= n.shards);
}

} // verus!
