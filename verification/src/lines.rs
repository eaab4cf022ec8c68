//! Replacing and finding texts, seen line by line.

use crate::text;
use vstd::prelude::*;

verus! {

/// The text has no line break.
pub open spec fn is_one_line(s: Seq<char>) -> bool {
    forall|i: int| 0 <= i < s.len() ==> s[i] != '\n'
}

/// A line in which an ending `end` becomes `with`.
pub open spec fn end_changed(line: Seq<char>, end: Seq<char>, with: Seq<char>) -> Seq<char> {
    if text::has_suffix(line, end) {
        line.take(line.len() - end.len()) + with
    } else {
        line
    }
}

/// Some line ends with `end`, and the one behind it starts with `start`.
pub open spec fn meets(parts: Seq<Seq<char>>, end: Seq<char>, start: Seq<char>) -> bool {
    exists|i: int|
        0 <= i < parts.len() - 1 && text::has_suffix(#[trigger] parts[i], end) && text::has_prefix(
            parts[i + 1],
            start,
        )
}

/// A text without line breaks is one line; any other starts with a line and a line
/// break.
pub proof fn lemma_first_line(s: Seq<char>) -> (cut: (Seq<char>, Seq<char>))
    ensures
        is_one_line(s) ==> text::pieces(s, '\n') == seq![s],
        !is_one_line(s) ==> {
            &&& is_one_line(cut.0)
            &&& s == cut.0 + seq!['\n'] + cut.1
            &&& cut.1.len() < s.len()
            &&& text::pieces(s, '\n') == seq![cut.0] + text::pieces(cut.1, '\n')
        },
        text::pieces(s, '\n').len() > 0,
{
    let e = text::next_at(s, '\n', 0);
    text::lemma_next_at(s, '\n', 0);
    if is_one_line(s) {
        text::lemma_one_piece(s, '\n');
        (s, s)
    } else {
        if e == s.len() {
            assert(is_one_line(s));
        }
        let x = s.take(e);
        let rest = s.skip(e + 1);
        assert(s =~= x + seq!['\n'] + rest);
        assert(is_one_line(x));
        text::lemma_pieces_joined(x, rest, '\n');
        text::lemma_one_piece(x, '\n');
        (x, rest)
    }
}

/// The first line is what stands before the first line break.
pub proof fn lemma_first_piece(s: Seq<char>, start: Seq<char>)
    requires
        is_one_line(start),
    ensures
        text::pieces(s, '\n').len() > 0,
        is_one_line(text::pieces(s, '\n')[0]),
        text::has_prefix(s, text::pieces(s, '\n')[0]),
        text::has_prefix(s, start) <==> text::has_prefix(text::pieces(s, '\n')[0], start),
{
    let (x, rest) = lemma_first_line(s);
    let first = text::pieces(s, '\n')[0];
    if is_one_line(s) {
        assert(s.take(s.len() as int) =~= s);
    } else {
        assert(first == x);
        assert(s.take(x.len() as int) =~= x);
        assert(s[x.len() as int] == '\n');
        if text::has_prefix(s, start) {
            if start.len() > x.len() {
                assert(s.take(start.len() as int)[x.len() as int] == '\n');
                assert(false);
            }
            assert(x.take(start.len() as int) =~= s.take(start.len() as int));
        }
        if text::has_prefix(x, start) {
            assert(x.take(start.len() as int) =~= s.take(start.len() as int));
        }
    }
}

/// Where a text does not have some character of `p`, nothing is replaced.
pub proof fn lemma_untouched(s: Seq<char>, p: Seq<char>, with: Seq<char>, k: int)
    requires
        0 <= k < p.len(),
        forall|i: int| 0 <= i < s.len() ==> s[i] != p[k],
    ensures
        text::replaced(s, p, with) == s,
    decreases s.len(),
{
    if s.len() >= p.len() {
        assert(s.take(p.len() as int)[k] == s[k]);
        lemma_untouched(s.drop_first(), p, with, k);
        assert(seq![s[0]] + s.drop_first() =~= s);
    }
}

/// Where a text does not stand, nothing is replaced.
pub proof fn lemma_absent(s: Seq<char>, p: Seq<char>, with: Seq<char>)
    requires
        p.len() > 0,
        text::first_at(s, p, 0) is None,
    ensures
        text::replaced(s, p, with) == s,
    decreases s.len(),
{
    let m = p.len() as int;
    if s.len() >= m {
        let t = s.drop_first();
        assert(s.take(m) =~= s.subrange(0, m));
        text::lemma_stands(t, p, 0);
        if text::first_at(t, p, 0) is Some {
            let at = text::first_at(t, p, 0)->0;
            assert(s.subrange(at + 1, at + 1 + m) =~= t.subrange(at, at + m));
            text::lemma_found(s, p, 0, at + 1);
        }
        lemma_absent(t, p, with);
        assert(seq![s[0]] + t =~= s);
    }
}

/// Replacing a text that ends a line, with its line break, changes the ends of
/// lines.
pub proof fn lemma_ends_replaced(
    x: Seq<char>,
    rest: Seq<char>,
    end: Seq<char>,
    with: Seq<char>,
)
    requires
        is_one_line(x),
        is_one_line(end),
    ensures
        text::replaced(x + seq!['\n'] + rest, end + seq!['\n'], with + seq!['\n'])
            == end_changed(x, end, with) + seq!['\n'] + text::replaced(
            rest,
            end + seq!['\n'],
            with + seq!['\n'],
        ),
    decreases x.len(),
{
    let s = x + seq!['\n'] + rest;
    let p = end + seq!['\n'];
    let w = with + seq!['\n'];
    let n = x.len() as int;
    let m = end.len() as int;
    let behind = text::replaced(rest, p, w);
    assert(s[n] == '\n');
    if s.len() < p.len() {
        assert(behind == rest);
    } else if s.take(p.len() as int) == p {
        assert(s.take(p.len() as int)[m] == s[m]);
        assert(p[m] == '\n');
        if n < m {
            assert(s.take(p.len() as int)[n] == s[n]);
            assert(p[n] == end[n]);
            assert(false);
        }
        if n > m {
            assert(s[m] == x[m]);
            assert(false);
        }
        assert(x =~= end) by {
            assert forall|i: int| 0 <= i < n implies x[i] == end[i] by {
                assert(s.take(p.len() as int)[i] == s[i]);
                assert(p[i] == end[i]);
            }
        }
        assert(x.skip(0) =~= x);
        assert(x.take(0) + with =~= with);
        assert(s.skip(p.len() as int) =~= rest);
        assert(w + behind =~= end_changed(x, end, with) + seq!['\n'] + behind);
    } else if n == 0 {
        assert(s.drop_first() =~= rest);
        if m == 0 {
            assert(s.take(1) =~= p);
            assert(false);
        }
        assert(seq![s[0]] + behind =~= x + seq!['\n'] + behind);
    } else {
        let y = x.drop_first();
        assert(s.drop_first() =~= y + seq!['\n'] + rest);
        lemma_ends_replaced(y, rest, end, with);
        assert(end_changed(x, end, with) =~= seq![x[0]] + end_changed(y, end, with)) by {
            if m <= y.len() {
                assert(x.skip(n - m) =~= y.skip(y.len() - m));
                if text::has_suffix(x, end) {
                    assert(x.take(n - m) =~= seq![x[0]] + y.take(y.len() - m));
                } else {
                    assert(x =~= seq![x[0]] + y);
                }
            } else {
                if m == n && text::has_suffix(x, end) {
                    assert(x.skip(0) =~= x);
                    assert(s.take(p.len() as int) =~= p);
                    assert(false);
                }
                assert(x =~= seq![x[0]] + y);
            }
        }
        assert(seq![s[0]] + (end_changed(y, end, with) + seq!['\n'] + behind) =~= end_changed(
            x,
            end,
            with,
        ) + seq!['\n'] + behind);
    }
}

/// A text without a line break is replaced in each line by itself.
pub proof fn lemma_replaced_in_lines(x: Seq<char>, rest: Seq<char>, p: Seq<char>, with: Seq<char>)
    requires
        is_one_line(p),
        p.len() > 0,
    ensures
        text::replaced(x + seq!['\n'] + rest, p, with) == text::replaced(x, p, with) + seq!['\n']
            + text::replaced(rest, p, with),
    decreases x.len(),
{
    let s = x + seq!['\n'] + rest;
    let n = x.len() as int;
    let m = p.len() as int;
    let behind = text::replaced(rest, p, with);
    assert(s[n] == '\n');
    if s.len() < m {
    } else if s.take(m) == p {
        if n < m {
            assert(s.take(m)[n] == s[n]);
            assert(false);
        }
        assert(x.take(m) =~= s.take(m));
        assert(s.skip(m) =~= x.skip(m) + seq!['\n'] + rest);
        lemma_replaced_in_lines(x.skip(m), rest, p, with);
        let r = text::replaced(x.skip(m), p, with);
        assert(with + (r + seq!['\n'] + behind) =~= with + r + seq!['\n'] + behind);
    } else if n == 0 {
        assert(s.drop_first() =~= rest);
        assert(seq![s[0]] + behind =~= x + seq!['\n'] + behind);
    } else {
        let y = x.drop_first();
        assert(s.drop_first() =~= y + seq!['\n'] + rest);
        lemma_replaced_in_lines(y, rest, p, with);
        if n >= m {
            assert(x.take(m) =~= s.take(m));
        } else {
            assert(x =~= seq![x[0]] + y);
        }
        let r = text::replaced(y, p, with);
        assert(text::replaced(x, p, with) =~= seq![x[0]] + r);
        assert(seq![s[0]] + (r + seq!['\n'] + behind) =~= seq![x[0]] + r + seq!['\n'] + behind);
    }
}

/// A replacement without a line break brings none.
pub proof fn lemma_stays_one_line(s: Seq<char>, p: Seq<char>, with: Seq<char>)
    requires
        is_one_line(s),
        is_one_line(with),
    ensures
        is_one_line(text::replaced(s, p, with)),
    decreases s.len(),
{
    if p.len() > 0 && s.len() >= p.len() {
        if s.take(p.len() as int) == p {
            lemma_stays_one_line(s.skip(p.len() as int), p, with);
        } else {
            lemma_stays_one_line(s.drop_first(), p, with);
        }
    }
}

/// A character that the replacement has stays.
pub proof fn lemma_char_stays(s: Seq<char>, p: Seq<char>, with: Seq<char>, c: char)
    requires
        s.contains(c),
        with.contains(c),
    ensures
        text::replaced(s, p, with).contains(c),
    decreases s.len(),
{
    if p.len() > 0 && s.len() >= p.len() {
        let r = text::replaced(s, p, with);
        if s.take(p.len() as int) == p {
            let k = choose|k: int| 0 <= k < with.len() && with[k] == c;
            assert(r[k] == c);
        } else {
            let k = choose|k: int| 0 <= k < s.len() && s[k] == c;
            if k == 0 {
                assert(r[0] == c);
            } else {
                assert(s.drop_first()[k - 1] == c);
                lemma_char_stays(s.drop_first(), p, with, c);
                let t = text::replaced(s.drop_first(), p, with);
                let j = choose|j: int| 0 <= j < t.len() && t[j] == c;
                assert(r[j + 1] == c);
            }
        }
    }
}

/// Where the replacement has a character that the result lacks, nothing was
/// replaced.
pub proof fn lemma_not_replaced(s: Seq<char>, p: Seq<char>, with: Seq<char>, c: char)
    requires
        with.contains(c),
        !text::replaced(s, p, with).contains(c),
    ensures
        text::replaced(s, p, with) == s,
    decreases s.len(),
{
    if p.len() > 0 && s.len() >= p.len() {
        let r = text::replaced(s, p, with);
        if s.take(p.len() as int) == p {
            let k = choose|k: int| 0 <= k < with.len() && with[k] == c;
            assert(r[k] == c);
        } else {
            let t = text::replaced(s.drop_first(), p, with);
            assert forall|j: int| 0 <= j < t.len() implies t[j] != c by {
                assert(r[j + 1] == t[j]);
            }
            lemma_not_replaced(s.drop_first(), p, with, c);
            assert(r =~= s);
        }
    }
}

/// The last character stays where both texts end with it.
pub proof fn lemma_last_stays(s: Seq<char>, p: Seq<char>, with: Seq<char>)
    requires
        s.len() > 0,
        p.len() > 0,
        with.len() > 0,
        p.last() == with.last(),
    ensures
        text::replaced(s, p, with).len() > 0,
        text::replaced(s, p, with).last() == s.last(),
    decreases s.len(),
{
    if s.len() >= p.len() {
        let m = p.len() as int;
        if s.take(m) == p {
            if s.len() == m {
                assert(s.take(m) =~= s);
                assert(s.skip(m) =~= Seq::empty());
                assert(text::replaced(s.skip(m), p, with) =~= Seq::empty());
                assert(text::replaced(s, p, with) =~= with);
            } else {
                lemma_last_stays(s.skip(m), p, with);
                assert(s.skip(m).last() == s.last());
            }
        } else if s.len() > 1 {
            lemma_last_stays(s.drop_first(), p, with);
            assert(s.drop_first().last() == s.last());
        } else {
            assert(s.drop_first() =~= Seq::empty());
            assert(text::replaced(s.drop_first(), p, with) =~= Seq::empty());
            assert(text::replaced(s, p, with) =~= s);
        }
    }
}

pub proof fn lemma_suffix_behind(head: Seq<char>, tail: Seq<char>, end: Seq<char>)
    requires
        head.len() > 0,
        forall|i: int| 0 <= i < end.len() ==> end[i] != head.last(),
    ensures
        text::has_suffix(head + tail, end) <==> text::has_suffix(tail, end),
{
    let s = head + tail;
    if end.len() <= tail.len() {
        assert(s.skip(s.len() - end.len()) =~= tail.skip(tail.len() - end.len()));
    } else if text::has_suffix(s, end) {
        let k = end.len() - tail.len() - 1;
        assert(s.skip(s.len() - end.len())[k] == s[head.len() - 1]);
        assert(false);
    }
}

proof fn lemma_suffix_ahead(c: char, tail: Seq<char>, end: Seq<char>)
    ensures
        text::has_suffix(seq![c] + tail, end) <==> text::has_suffix(tail, end) || end == seq![c]
            + tail,
{
    let s = seq![c] + tail;
    if end.len() <= tail.len() {
        assert(s.skip(s.len() - end.len()) =~= tail.skip(tail.len() - end.len()));
    } else {
        assert(s.skip(0) =~= s);
    }
}

/// An ending without the last character of both texts stays and is not made.
pub proof fn lemma_suffix_stays(s: Seq<char>, p: Seq<char>, with: Seq<char>, end: Seq<char>)
    requires
        p.len() > 0,
        with.len() > 0,
        p.last() == with.last(),
        forall|i: int| 0 <= i < end.len() ==> end[i] != p.last(),
    ensures
        text::has_suffix(text::replaced(s, p, with), end) <==> text::has_suffix(s, end),
    decreases s.len(),
{
    let m = p.len() as int;
    let r = text::replaced(s, p, with);
    if s.len() < m {
    } else if s.take(m) == p {
        let tail = s.skip(m);
        lemma_suffix_stays(tail, p, with, end);
        assert(s =~= p + tail);
        lemma_suffix_behind(p, tail, end);
        lemma_suffix_behind(with, text::replaced(tail, p, with), end);
    } else {
        let tail = s.drop_first();
        let t = text::replaced(tail, p, with);
        lemma_suffix_stays(tail, p, with, end);
        assert(s =~= seq![s[0]] + tail);
        lemma_suffix_ahead(s[0], t, end);
        lemma_suffix_ahead(s[0], tail, end);
        if end == r {
            assert(with[with.len() - 1] == p.last());
            assert(!r.contains(p.last()));
            lemma_not_replaced(s, p, with, p.last());
        }
        if end == s {
            lemma_untouched(s, p, with, m - 1);
        }
    }
}

/// What stands in `start` from position `i` on is not how `with` starts, nor does it
/// start with it.
pub open spec fn parts_from(start: Seq<char>, with: Seq<char>, i: int) -> bool {
    exists|k: int|
        #![trigger start[k]]
        i <= k < start.len() && k - i < with.len() && start[k] != with[k - i]
}

/// A start that no replacement can be a part of was there before.
pub proof fn lemma_prefix_was_there(
    s: Seq<char>,
    p: Seq<char>,
    with: Seq<char>,
    start: Seq<char>,
    j: int,
)
    requires
        0 <= j <= start.len(),
        forall|i: int| 0 <= i < start.len() ==> #[trigger] parts_from(start, with, i),
        text::has_prefix(text::replaced(s, p, with), start.skip(j)),
    ensures
        text::has_prefix(s, start.skip(j)),
    decreases s.len(),
{
    let r = text::replaced(s, p, with);
    let q = start.skip(j);
    if q.len() == 0 {
        assert(s.take(0) =~= q);
    } else if p.len() > 0 && s.len() >= p.len() {
        if s.take(p.len() as int) == p {
            assert(parts_from(start, with, j));
            let k = choose|k: int|
                #![trigger start[k]]
                j <= k < start.len() && k - j < with.len() && start[k] != with[k - j];
            assert(r.take(q.len() as int)[k - j] == r[k - j]);
            assert(r[k - j] == with[k - j]);
            assert(q[k - j] == start[k]);
            assert(false);
        } else {
            let t = text::replaced(s.drop_first(), p, with);
            assert(start.skip(j + 1) =~= q.drop_first());
            assert(r.take(q.len() as int)[0] == r[0]);
            assert(t.take(q.len() - 1) =~= q.drop_first()) by {
                assert forall|i: int| 0 <= i < q.len() - 1 implies t[i] == q.drop_first()[i] by {
                    assert(r.take(q.len() as int)[i + 1] == r[i + 1]);
                }
            }
            lemma_prefix_was_there(s.drop_first(), p, with, start, j + 1);
            assert(s.take(q.len() as int) =~= q) by {
                assert forall|i: int| 0 <= i < q.len() implies s[i] == q[i] by {
                    if i > 0 {
                        assert(s.drop_first().take(q.len() - 1)[i - 1] == s[i]);
                        assert(q.drop_first()[i - 1] == q[i]);
                    }
                }
            }
        }
    }
}

/// A text over two lines stands somewhere where a line ends with its first part
/// and the next one starts with the other.
pub proof fn lemma_stands_across(s: Seq<char>, end: Seq<char>, start: Seq<char>)
    requires
        is_one_line(end),
        is_one_line(start),
    ensures
        (text::first_at(s, end + seq!['\n'] + start, 0) is Some) <==> meets(
            text::pieces(s, '\n'),
            end,
            start,
        ),
    decreases s.len(),
{
    let p = end + seq!['\n'] + start;
    let m = end.len() as int;
    let parts = text::pieces(s, '\n');
    let found = text::first_at(s, p, 0) is Some;
    text::lemma_stands(s, p, 0);
    let at = text::first_at(s, p, 0)->0;
    if found {
        assert(s.subrange(at, at + p.len())[m] == s[at + m]);
        assert(s[at + m] == '\n');
    }
    let (x, rest) = lemma_first_line(s);
    if !is_one_line(s) {
        let n = x.len() as int;
        let tail = text::pieces(rest, '\n');
        lemma_stands_across(rest, end, start);
        lemma_first_piece(rest, start);
        assert(s[n] == '\n');
        text::lemma_stands(rest, p, 0);
        if found {
            if at + m < n {
                assert(s[at + m] == x[at + m]);
                assert(false);
            } else if at + m == n {
                assert(x.skip(n - m) =~= end) by {
                    assert forall|i: int| 0 <= i < m implies x[n - m + i] == end[i] by {
                        assert(s.subrange(at, at + p.len())[i] == s[at + i]);
                    }
                }
                assert(rest.take(start.len() as int) =~= start) by {
                    assert forall|i: int| 0 <= i < start.len() implies rest[i] == start[i] by {
                        assert(s.subrange(at, at + p.len())[m + 1 + i] == s[at + m + 1 + i]);
                        assert(s[n + 1 + i] == rest[i]);
                    }
                }
                assert(text::has_prefix(rest, start));
                assert(parts[0] == x);
                assert(parts[0int + 1] == tail[0]);
            } else {
                if at <= n {
                    assert(s.subrange(at, at + p.len())[n - at] == s[n]);
                    assert(end[n - at] == '\n');
                    assert(false);
                }
                let k = at - n - 1;
                assert(rest.subrange(k, k + p.len()) =~= s.subrange(at, at + p.len()));
                text::lemma_found(rest, p, 0, k);
                let i = choose|i: int|
                    0 <= i < tail.len() - 1 && text::has_suffix(#[trigger] tail[i], end)
                        && text::has_prefix(tail[i + 1], start);
                assert(parts[i + 1] == tail[i]);
                assert(parts[i + 1 + 1] == tail[i + 1]);
            }
        }
        if meets(parts, end, start) {
            let i = choose|i: int|
                0 <= i < parts.len() - 1 && text::has_suffix(#[trigger] parts[i], end)
                    && text::has_prefix(parts[i + 1], start);
            if i == 0 {
                assert(parts[1] == tail[0]);
                assert(rest.take(start.len() as int) =~= start);
                assert(s.subrange(n - m, n - m + p.len()) =~= p) by {
                    assert forall|k: int| 0 <= k < p.len() implies s[n - m + k] == p[k] by {
                        if k < m {
                            assert(x.skip(n - m)[k] == x[n - m + k]);
                        } else if k > m {
                            assert(rest.take(start.len() as int)[k - m - 1] == rest[k - m - 1]);
                        }
                    }
                }
                text::lemma_found(s, p, 0, n - m);
            } else {
                assert(tail[i - 1] == parts[i]);
                assert(tail[i - 1 + 1] == parts[i + 1]);
                assert(meets(tail, end, start));
                let k = text::first_at(rest, p, 0)->0;
                assert(s.subrange(n + 1 + k, n + 1 + k + p.len()) =~= rest.subrange(
                    k,
                    k + p.len(),
                ));
                text::lemma_found(s, p, 0, n + 1 + k);
            }
        }
    }
}

proof fn lemma_across_replaced(
    x: Seq<char>,
    rest: Seq<char>,
    end: Seq<char>,
    start: Seq<char>,
    with: Seq<char>,
)
    requires
        is_one_line(x),
        is_one_line(end),
    ensures
        ({
            let p = end + seq!['\n'] + start;
            let w = end + seq!['\n'] + with;
            text::replaced(x + seq!['\n'] + rest, p, w) == if text::has_suffix(x, end)
                && text::has_prefix(rest, start) {
                x + seq!['\n'] + (with + text::replaced(rest.skip(start.len() as int), p, w))
            } else {
                x + seq!['\n'] + text::replaced(rest, p, w)
            }
        }),
    decreases x.len(),
{
    let p = end + seq!['\n'] + start;
    let w = end + seq!['\n'] + with;
    let s = x + seq!['\n'] + rest;
    let n = x.len() as int;
    let m = end.len() as int;
    let k = start.len() as int;
    assert(s[n] == '\n');
    assert(p[m] == '\n');
    if s.len() < p.len() {
    } else if s.take(p.len() as int) == p {
        assert(s.take(p.len() as int)[m] == s[m]);
        if n < m {
            assert(s.take(p.len() as int)[n] == s[n]);
            assert(p[n] == end[n]);
            assert(false);
        }
        if n > m {
            assert(s[m] == x[m]);
            assert(false);
        }
        assert(x =~= end) by {
            assert forall|i: int| 0 <= i < n implies x[i] == end[i] by {
                assert(s.take(p.len() as int)[i] == s[i]);
                assert(p[i] == end[i]);
            }
        }
        assert(x.skip(0) =~= x);
        assert(rest.take(k) =~= start) by {
            assert forall|i: int| 0 <= i < k implies rest[i] == start[i] by {
                assert(s.take(p.len() as int)[n + 1 + i] == s[n + 1 + i]);
                assert(p[m + 1 + i] == start[i]);
            }
        }
        assert(s.skip(p.len() as int) =~= rest.skip(k));
        let behind = text::replaced(rest.skip(k), p, w);
        assert(w + behind =~= x + seq!['\n'] + (with + behind));
    } else if n == 0 {
        assert(s.drop_first() =~= rest);
        if text::has_suffix(x, end) && text::has_prefix(rest, start) {
            assert(s.take(p.len() as int) =~= p) by {
                assert forall|i: int| 0 <= i < p.len() implies s[i] == p[i] by {
                    if i > 0 {
                        assert(rest.take(k)[i - 1] == rest[i - 1]);
                    }
                }
            }
            assert(false);
        }
        let behind = text::replaced(rest, p, w);
        assert(seq![s[0]] + behind =~= x + seq!['\n'] + behind);
    } else {
        let y = x.drop_first();
        assert(s.drop_first() =~= y + seq!['\n'] + rest);
        assert(x =~= seq![x[0]] + y);
        lemma_across_replaced(y, rest, end, start, with);
        lemma_suffix_ahead(x[0], y, end);
        if end == x && text::has_prefix(rest, start) {
            assert(s.take(p.len() as int) =~= p) by {
                assert forall|i: int| 0 <= i < p.len() implies s[i] == p[i] by {
                    if i > n {
                        assert(rest.take(k)[i - n - 1] == rest[i - n - 1]);
                    }
                }
            }
            assert(false);
        }
        let one = with + text::replaced(rest.skip(k), p, w);
        let two = text::replaced(rest, p, w);
        assert(seq![x[0]] + (y + seq!['\n'] + one) =~= x + seq!['\n'] + one);
        assert(seq![x[0]] + (y + seq!['\n'] + two) =~= x + seq!['\n'] + two);
    }
}

/// What is put in front of a text stands in front of its first line.
proof fn lemma_pieces_behind(head: Seq<char>, t: Seq<char>)
    requires
        is_one_line(head),
    ensures
        text::pieces(t, '\n').len() > 0,
        text::pieces(head + t, '\n') == seq![head + text::pieces(t, '\n')[0]] + text::pieces(
            t,
            '\n',
        ).skip(1),
{
    let (x, rest) = lemma_first_line(t);
    let parts = text::pieces(t, '\n');
    if is_one_line(t) {
        text::lemma_one_piece(head + t, '\n');
        assert(text::pieces(head + t, '\n') =~= seq![head + parts[0]] + parts.skip(1));
    } else {
        assert(head + t =~= (head + x) + seq!['\n'] + rest);
        text::lemma_pieces_joined(head + x, rest, '\n');
        text::lemma_one_piece(head + x, '\n');
        assert(text::pieces(head + t, '\n') =~= seq![head + parts[0]] + parts.skip(1));
    }
}

pub proof fn lemma_suffix_past(head: Seq<char>, tail: Seq<char>, end: Seq<char>)
    requires
        end.len() > 0,
        forall|i: int| 0 <= i < head.len() ==> head[i] != end[0],
    ensures
        text::has_suffix(head + tail, end) <==> text::has_suffix(tail, end),
{
    let s = head + tail;
    if end.len() <= tail.len() {
        assert(s.skip(s.len() - end.len()) =~= tail.skip(tail.len() - end.len()));
    } else if text::has_suffix(s, end) {
        let k = s.len() - end.len();
        assert(s.skip(k)[0] == s[k]);
        assert(s[k] == head[k]);
        assert(false);
    }
}

/// A line behind another, where a text over two lines is replaced.
pub open spec fn next_changed(
    before: Seq<char>,
    line: Seq<char>,
    end: Seq<char>,
    start: Seq<char>,
    with: Seq<char>,
) -> Seq<char> {
    if text::has_suffix(before, end) && text::has_prefix(line, start) {
        with + line.skip(start.len() as int)
    } else {
        line
    }
}

/// Replacing the part of a text over two lines that stands on the second one
/// changes the starts of lines, each by what stood in the text before.
pub proof fn lemma_across_lines(s: Seq<char>, end: Seq<char>, start: Seq<char>, with: Seq<char>)
    requires
        is_one_line(end),
        is_one_line(start),
        is_one_line(with),
        end.len() > 0,
        forall|i: int| 0 <= i < start.len() ==> start[i] != end[0],
    ensures
        ({
            let parts = text::pieces(s, '\n');
            let p = end + seq!['\n'] + start;
            let w = end + seq!['\n'] + with;
            let made = text::pieces(text::replaced(s, p, w), '\n');
            &&& made.len() == parts.len() > 0
            &&& made[0] == parts[0]
            &&& forall|j: int|
                1 <= j < parts.len() ==> made[j] == next_changed(
                    parts[j - 1],
                    #[trigger] parts[j],
                    end,
                    start,
                    with,
                )
        }),
    decreases s.len(),
{
    let parts = text::pieces(s, '\n');
    let p = end + seq!['\n'] + start;
    let w = end + seq!['\n'] + with;
    let (x, rest) = lemma_first_line(s);
    if is_one_line(s) {
        assert(p[end.len() as int] == '\n');
        lemma_untouched(s, p, w, end.len() as int);
    } else {
        let after = text::replaced(s, p, w);
        let made = text::pieces(after, '\n');
        let tail = text::pieces(rest, '\n');
        lemma_across_replaced(x, rest, end, start, with);
        lemma_first_piece(rest, start);
        text::lemma_one_piece(x, '\n');
        if text::has_suffix(x, end) && text::has_prefix(rest, start) {
            let more = rest.skip(start.len() as int);
            let then = text::replaced(more, p, w);
            assert(rest =~= start + more);
            lemma_pieces_behind(start, more);
            lemma_across_lines(more, end, start, with);
            lemma_pieces_behind(with, then);
            text::lemma_pieces_joined(x, with + then, '\n');
            let left = text::pieces(more, '\n');
            assert(tail[0].skip(start.len() as int) =~= left[0]);
            lemma_suffix_past(start, left[0], end);
            assert forall|j: int| 1 <= j < parts.len() implies made[j] == next_changed(
                parts[j - 1],
                #[trigger] parts[j],
                end,
                start,
                with,
            ) by {
                if j > 1 {
                    assert(parts[j] == left[j - 1]);
                    if j > 2 {
                        assert(parts[j - 1] == left[j - 2]);
                    }
                }
            }
        } else {
            lemma_across_lines(rest, end, start, with);
            text::lemma_pieces_joined(x, text::replaced(rest, p, w), '\n');
            assert forall|j: int| 1 <= j < parts.len() implies made[j] == next_changed(
                parts[j - 1],
                #[trigger] parts[j],
                end,
                start,
                with,
            ) by {
                assert(parts[j] == tail[j - 1]);
                if j > 1 {
                    assert(parts[j - 1] == tail[j - 2]);
                }
            }
        }
    }
}

} // verus!
