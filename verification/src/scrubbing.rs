//! How secrets leave a text.

use crate::privacy;
use crate::privacy::PrivacyError;
use vstd::prelude::*;
use vstd::utf8::*;

verus! {

/// Where the stretch before match `i` begins.
pub open spec fn stretch_start(spans: Seq<(usize, usize)>, i: int) -> int {
    if i == 0 {
        0
    } else {
        spans[i - 1].1 as int
    }
}

proof fn lemma_spliced(
    bytes: Seq<u8>,
    spans: Seq<(usize, usize)>,
    marks: Seq<Seq<char>>,
    k: int,
)
    requires
        0 <= k <= spans.len(),
    ensures
        privacy::spliced(bytes, spans, marks, k, stretch_start(spans, k)) == Seq::new(
            (spans.len() - k) as nat,
            |i: int|
                bytes.subrange(stretch_start(spans, k + i), spans[k + i].0 as int) + encode_utf8(
                    marks[k + i],
                ),
        ).flatten() + bytes.subrange(stretch_start(spans, spans.len() as int), bytes.len() as int),
    decreases spans.len() - k,
{
    let parts = Seq::new(
        (spans.len() - k) as nat,
        |i: int|
            bytes.subrange(stretch_start(spans, k + i), spans[k + i].0 as int) + encode_utf8(
                marks[k + i],
            ),
    );
    let tail = bytes.subrange(stretch_start(spans, spans.len() as int), bytes.len() as int);
    if k < spans.len() {
        lemma_spliced(bytes, spans, marks, k + 1);
        let rest = Seq::new(
            (spans.len() - (k + 1)) as nat,
            |i: int|
                bytes.subrange(stretch_start(spans, k + 1 + i), spans[k + 1 + i].0 as int)
                    + encode_utf8(marks[k + 1 + i]),
        );
        assert(parts.drop_first() =~= rest) by {
            assert forall|i: int| 0 <= i < rest.len() implies parts.drop_first()[i] == rest[i] by {
                assert(parts[i + 1] == rest[i]);
            }
        }
        let front = bytes.subrange(stretch_start(spans, k), spans[k].0 as int);
        assert(parts.first() == front + encode_utf8(marks[k]));
        assert(stretch_start(spans, k + 1) == spans[k].1 as int);
        assert(front + (encode_utf8(marks[k]) + (rest.flatten() + tail)) =~= (front + encode_utf8(
            marks[k],
        ) + rest.flatten()) + tail);
    } else {
        assert(parts =~= Seq::empty());
        assert(parts.flatten() =~= Seq::empty());
        assert(Seq::<u8>::empty() + tail =~= tail);
    }
}

/// Every match is replaced by its mark and every byte outside the matches stays: the
/// text becomes the stretches before the matches, each followed by its mark, and the
/// stretch behind the last.
pub proof fn law_matches_are_replaced(
    t: Seq<char>,
    spans: Seq<(usize, usize)>,
    marks: Seq<Seq<char>>,
)
    ensures
        ({
            let bytes = encode_utf8(t);
            privacy::redacted(t, spans, marks) == decode_utf8(
                Seq::new(
                    spans.len(),
                    |i: int|
                        bytes.subrange(stretch_start(spans, i), spans[i].0 as int) + encode_utf8(
                            marks[i],
                        ),
                ).flatten() + bytes.subrange(
                    stretch_start(spans, spans.len() as int),
                    bytes.len() as int,
                ),
            )
        }),
{
    let bytes = encode_utf8(t);
    lemma_spliced(bytes, spans, marks, 0);
    assert(Seq::new(
        (spans.len() - 0) as nat,
        |i: int|
            bytes.subrange(stretch_start(spans, 0 + i), spans[0 + i].0 as int) + encode_utf8(
                marks[0 + i],
            ),
    ) =~= Seq::new(
        spans.len(),
        |i: int|
            bytes.subrange(stretch_start(spans, i), spans[i].0 as int) + encode_utf8(marks[i]),
    ));
}

proof fn lemma_uncut(spans: Seq<(usize, usize)>, end: int, k: nat)
    requires
        k <= spans.len(),
        forall|i: int| 0 <= i < spans.len() ==> (#[trigger] spans[i]).0 < spans[i].1 <= end,
    ensures
        privacy::cut_spans(spans, 0, end, k) == spans.take(k as int),
    decreases k,
{
    if k > 0 {
        lemma_uncut(spans, end, (k - 1) as nat);
        assert(spans[k - 1].0 < spans[k - 1].1);
        assert(spans.take(k as int) =~= spans.take(k - 1).push(spans[k - 1]));
    } else {
        assert(spans.take(0) =~= Seq::empty());
    }
}

/// In a text without markers every match of a kind of secret is replaced by a marker of
/// that kind.
pub proof fn law_secrets_of_a_kind_are_replaced(t: Seq<char>, k: int, ids: Seq<Seq<u128>>)
    requires
        ({
            let spans = privacy::matched_spans(privacy::secret_pattern(k).1, t);
            &&& privacy::valid_pattern(privacy::secret_pattern(k).1)
            &&& spans.len() <= 256
            &&& forall|i: int|
                0 <= i < spans.len() ==> (#[trigger] spans[i]).0 < spans[i].1
                    <= encode_utf8(t).len()
        }),
    ensures
        ({
            let (kind, pattern) = privacy::secret_pattern(k);
            let spans = privacy::matched_spans(pattern, t);
            privacy::secret_step(seq![t], k, ids) == Ok::<Seq<Seq<char>>, PrivacyError>(
                seq![
                    privacy::redacted(
                        t,
                        spans,
                        Seq::new(spans.len(), |i: int| privacy::marker_text(kind, ids[0][i])),
                    ),
                ],
            )
        }),
{
    let (kind, pattern) = privacy::secret_pattern(k);
    let spans = privacy::matched_spans(pattern, t);
    let pieces = seq![t];
    reveal_with_fuel(privacy::interleaved, 2);
    assert(privacy::staged(pieces) == t);
    lemma_uncut(spans, encode_utf8(t).len() as int, spans.len());
    assert(spans.take(spans.len() as int) =~= spans);
    let marks = privacy::placeholders((pieces.len() - 1) as nat);
    assert(privacy::piece_spans(pieces, marks, spans, 0) == spans);
    assert(Seq::new(spans.len(), |i: int| privacy::marker_text(kind, ids[0][i]))
        =~= privacy::marker_texts(kind, ids[0], spans.len()));
    assert(privacy::pieces_redacted(pieces, marks, spans, kind, ids) =~= seq![
        privacy::redacted(t, spans, privacy::marker_texts(kind, ids[0], spans.len())),
    ]);
}

/// The stages of scrubbing: each kind of secret is removed from what the one before it
/// left.
pub open spec fn are_stages(
    stages: Seq<Seq<Seq<char>>>,
    choice: Seq<Seq<Seq<u128>>>,
    n: nat,
) -> bool {
    &&& stages.len() == n + 1
    &&& forall|k: int|
        0 <= k < n ==> #[trigger] privacy::secret_step(stages[k], k, choice[k]) == Ok::<
            Seq<Seq<char>>,
            PrivacyError,
        >(stages[k + 1])
}

proof fn lemma_stages(pieces: Seq<Seq<char>>, choice: Seq<Seq<Seq<u128>>>, n: nat) -> (stages: Seq<
    Seq<Seq<char>>,
>)
    requires
        privacy::secrets_removed(pieces, choice, n) is Ok,
    ensures
        are_stages(stages, choice, n),
        stages[0] == pieces,
        stages[n as int] == privacy::secrets_removed(pieces, choice, n)->Ok_0,
    decreases n,
{
    if n == 0 {
        seq![pieces]
    } else {
        let before = lemma_stages(pieces, choice, (n - 1) as nat);
        let last = privacy::secrets_removed(pieces, choice, n)->Ok_0;
        let stages = before.push(last);
        assert forall|k: int| 0 <= k < n implies #[trigger] privacy::secret_step(
            stages[k],
            k,
            choice[k],
        ) == Ok::<Seq<Seq<char>>, PrivacyError>(stages[k + 1]) by {
            if k < n - 1 {
                assert(stages[k] == before[k] && stages[k + 1] == before[k + 1]);
                assert(privacy::secret_step(before[k], k, choice[k]) == Ok::<
                    Seq<Seq<char>>,
                    PrivacyError,
                >(before[k + 1]));
            } else {
                assert(stages[k] == before[k]);
            }
        }
        stages
    }
}

/// Scrubbing applies every one of the ten kinds of secrets, one after the other, to
/// what stands between the markers of a text, and puts the markers back.
pub proof fn law_scrubbing_applies_every_kind(
    t: Seq<char>,
    choice: Seq<Seq<Seq<u128>>>,
    out: Seq<char>,
)
    requires
        privacy::scrub_outcome(t, choice) == Ok::<Seq<char>, PrivacyError>(out),
    ensures
        exists|stages: Seq<Seq<Seq<char>>>| #[trigger]
            are_stages(stages, choice, 10) && ({
                let marks = privacy::matched_spans(privacy::marker_pattern(), t);
                &&& stages[0] == privacy::between(t, marks)
                &&& out == privacy::interleaved(
                    stages[10],
                    privacy::covered(t, marks),
                    stages[10].len(),
                )
            }),
{
    let marks = privacy::matched_spans(privacy::marker_pattern(), t);
    let stages = lemma_stages(privacy::between(t, marks), choice, 10);
    assert(are_stages(stages, choice, 10));
}

} // verus!
