//! What an installation makes of hooks of an earlier form: they are upgraded once
//! and left alone from then on.

use crate::hooks;
use crate::hooks::{GitHook, HookAction};
use crate::lines;
use crate::text;
use vstd::prelude::*;
use vstd::string::*;

verus! {

/// The command of a hook in its earlier form.
pub open spec fn bare_command(hook: GitHook) -> Seq<char> {
    match hook {
        GitHook::PostCommit => "cvc hook post-commit"@,
        GitHook::PrePush => "cvc hook pre-push \"$@\""@,
        GitHook::PostMerge => "cvc hook post-merge"@,
        GitHook::PostRewrite => "cvc hook post-rewrite \"$@\""@,
    }
}

/// The hook holds its own lines in their earlier form: behind the title, the
/// command on a line of its own that a line break ends.
pub open spec fn has_earlier_lines(hook: GitHook, content: Seq<char>) -> bool {
    let parts = text::pieces(content, '\n');
    exists|i: int|
        0 <= i < parts.len() - 2 && text::has_suffix(#[trigger] parts[i], "# CVC Hook"@) && parts[i
            + 1] == bare_command(hook)
}

/// Every command of an earlier form that stands on a line of its own is ended by a
/// line break without a carriage return.
pub open spec fn bare_lines_are_ended(content: Seq<char>) -> bool {
    let parts = text::pieces(content, '\n');
    forall|i: int|
        0 <= i < parts.len() && hooks::is_bare_command(#[trigger] hooks::line_of(content, i)) ==> i
            < parts.len() - 1 && parts[i] == hooks::line_of(content, i)
}

/// No command of an earlier form stands on a line of its own.
pub open spec fn has_no_bare_line(content: Seq<char>) -> bool {
    forall|i: int|
        0 <= i < text::pieces(content, '\n').len() ==> !hooks::is_bare_command(
            #[trigger] hooks::line_of(content, i),
        )
}

spec fn guarding() -> Seq<char> {
    " || :"@
}

spec fn guarded_command(hook: GitHook) -> Seq<char> {
    bare_command(hook) + guarding()
}

spec fn merge_old() -> Seq<char> {
    "cvc hook post-merge || :"@
}

spec fn merge_new() -> Seq<char> {
    "cvc hook post-merge \"$@\" || :"@
}

spec fn passing(s: Seq<char>) -> Seq<char> {
    text::replaced(s, merge_old(), merge_new())
}

spec fn changed(line: Seq<char>, hook: GitHook) -> Seq<char> {
    lines::end_changed(line, bare_command(hook), guarded_command(hook))
}

/// A line with the command at its end guarded.
spec fn marked(line: Seq<char>) -> Seq<char> {
    changed(
        changed(
            changed(changed(line, GitHook::PostCommit), GitHook::PrePush),
            GitHook::PostMerge,
        ),
        GitHook::PostRewrite,
    )
}

spec fn ends_bare(line: Seq<char>) -> bool {
    exists|hook: GitHook| text::has_suffix(line, #[trigger] bare_command(hook))
}

proof fn lemma_bare(hook: GitHook)
    ensures
        lines::is_one_line(bare_command(hook)),
        lines::is_one_line(guarded_command(hook)),
        bare_command(hook).len() > 18,
        bare_command(hook)[0] == 'c',
        bare_command(hook).last() != ':',
        bare_command(hook).last() != 'k',
        !bare_command(hook).contains('|'),
        guarded_command(hook).last() == ':',
        guarding().len() == 5,
        guarding()[1] == '|',
        guarding()[4] == ':',
{
    reveal_strlit("cvc hook post-commit");
    reveal_strlit("cvc hook pre-push \"$@\"");
    reveal_strlit("cvc hook post-merge");
    reveal_strlit("cvc hook post-rewrite \"$@\"");
    reveal_strlit(" || :");
}

proof fn lemma_is_bare(line: Seq<char>)
    ensures
        hooks::is_bare_command(line) <==> exists|hook: GitHook| line == #[trigger] bare_command(
            hook,
        ),
{
    if hooks::is_bare_command(line) {
        assert(line == bare_command(GitHook::PostCommit) || line == bare_command(GitHook::PrePush)
            || line == bare_command(GitHook::PostMerge) || line == bare_command(
            GitHook::PostRewrite,
        ));
    }
}

proof fn lemma_patterns()
    ensures
        "cvc hook post-commit\n"@ == bare_command(GitHook::PostCommit) + seq!['\n'],
        "cvc hook post-commit || :\n"@ == guarded_command(GitHook::PostCommit) + seq!['\n'],
        "cvc hook pre-push \"$@\"\n"@ == bare_command(GitHook::PrePush) + seq!['\n'],
        "cvc hook pre-push \"$@\" || :\n"@ == guarded_command(GitHook::PrePush) + seq!['\n'],
        "cvc hook post-merge\n"@ == bare_command(GitHook::PostMerge) + seq!['\n'],
        "cvc hook post-merge || :\n"@ == guarded_command(GitHook::PostMerge) + seq!['\n'],
        "cvc hook post-rewrite \"$@\"\n"@ == bare_command(GitHook::PostRewrite) + seq!['\n'],
        "cvc hook post-rewrite \"$@\" || :\n"@ == guarded_command(GitHook::PostRewrite) + seq!['\n'],
{
    reveal_strlit("cvc hook post-commit");
    reveal_strlit("cvc hook pre-push \"$@\"");
    reveal_strlit("cvc hook post-merge");
    reveal_strlit("cvc hook post-rewrite \"$@\"");
    reveal_strlit(" || :");
    reveal_strlit("cvc hook post-commit\n");
    reveal_strlit("cvc hook post-commit || :\n");
    reveal_strlit("cvc hook pre-push \"$@\"\n");
    reveal_strlit("cvc hook pre-push \"$@\" || :\n");
    reveal_strlit("cvc hook post-merge\n");
    reveal_strlit("cvc hook post-merge || :\n");
    reveal_strlit("cvc hook post-rewrite \"$@\"\n");
    reveal_strlit("cvc hook post-rewrite \"$@\" || :\n");
}

proof fn lemma_merge()
    ensures
        merge_old() == guarded_command(GitHook::PostMerge),
        merge_new() == hooks::command_line(GitHook::PostMerge),
        lines::is_one_line(merge_old()),
        lines::is_one_line(merge_new()),
        merge_old().len() == 24,
        merge_old()[17] == 'g',
        merge_old().last() == ':',
        merge_new().last() == ':',
        merge_new().contains('|'),
        merge_new().len() == 29,
        merge_new()[0] == 'c',
        merge_new()[1] == 'v',
        merge_new()[4] == 'h',
{
    reveal_strlit("cvc hook post-merge");
    reveal_strlit("cvc hook post-merge || :");
    reveal_strlit("cvc hook post-merge \"$@\" || :");
    reveal_strlit(" || :");
    assert(merge_new()[25] == '|' || merge_new()[26] == '|');
    assert(merge_old() =~= guarded_command(GitHook::PostMerge));
}

proof fn lemma_changed(line: Seq<char>, hook: GitHook)
    ensures
        changed(line, hook) == if text::has_suffix(line, bare_command(hook)) {
            line + guarding()
        } else {
            line
        },
        lines::is_one_line(line) ==> lines::is_one_line(changed(line, hook)),
{
    lemma_bare(hook);
    let end = bare_command(hook);
    if text::has_suffix(line, end) {
        let n = line.len() - end.len();
        assert(line =~= line.take(n) + line.skip(n));
        assert(changed(line, hook) =~= line + guarding());
        if lines::is_one_line(line) {
            assert forall|i: int| 0 <= i < guarding().len() implies guarding()[i] != '\n' by {
                assert(guarded_command(hook)[end.len() + i] == guarding()[i]);
            }
        }
    }
}

/// What is guarded does not end with a command of an earlier form.
proof fn lemma_guarded_once(line: Seq<char>, hook: GitHook)
    ensures
        changed(line + guarding(), hook) == line + guarding(),
{
    lemma_bare(hook);
    let s = line + guarding();
    let end = bare_command(hook);
    if text::has_suffix(s, end) {
        assert(s.skip(s.len() - end.len()).last() == s.last());
    }
}

proof fn lemma_marked(line: Seq<char>)
    ensures
        marked(line) == if ends_bare(line) {
            line + guarding()
        } else {
            line
        },
        lines::is_one_line(line) ==> lines::is_one_line(marked(line)),
{
    let a = changed(line, GitHook::PostCommit);
    let b = changed(a, GitHook::PrePush);
    let c = changed(b, GitHook::PostMerge);
    lemma_changed(line, GitHook::PostCommit);
    lemma_changed(a, GitHook::PrePush);
    lemma_changed(b, GitHook::PostMerge);
    lemma_changed(c, GitHook::PostRewrite);
    lemma_guarded_once(line, GitHook::PrePush);
    lemma_guarded_once(line, GitHook::PostMerge);
    lemma_guarded_once(line, GitHook::PostRewrite);
    if ends_bare(line) {
        let hook = choose|hook: GitHook| text::has_suffix(line, #[trigger] bare_command(hook));
        assert(hook == GitHook::PostCommit || hook == GitHook::PrePush || hook == GitHook::PostMerge
            || hook == GitHook::PostRewrite);
    }
}

/// The first line is upgraded by itself.
proof fn lemma_guarded_front(x: Seq<char>, rest: Seq<char>)
    requires
        lines::is_one_line(x),
    ensures
        hooks::guarded(x + seq!['\n'] + rest) == passing(marked(x)) + seq!['\n'] + hooks::guarded(
            rest,
        ),
        lines::is_one_line(passing(marked(x))),
{
    let nl = seq!['\n'];
    let p1 = bare_command(GitHook::PostCommit) + nl;
    let w1 = guarded_command(GitHook::PostCommit) + nl;
    let p2 = bare_command(GitHook::PrePush) + nl;
    let w2 = guarded_command(GitHook::PrePush) + nl;
    let p3 = bare_command(GitHook::PostMerge) + nl;
    let w3 = guarded_command(GitHook::PostMerge) + nl;
    let p4 = bare_command(GitHook::PostRewrite) + nl;
    let w4 = guarded_command(GitHook::PostRewrite) + nl;
    let xa = changed(x, GitHook::PostCommit);
    let xb = changed(xa, GitHook::PrePush);
    let xc = changed(xb, GitHook::PostMerge);
    let xd = changed(xc, GitHook::PostRewrite);
    let ra = text::replaced(rest, p1, w1);
    let rb = text::replaced(ra, p2, w2);
    let rc = text::replaced(rb, p3, w3);
    let rd = text::replaced(rc, p4, w4);
    lemma_patterns();
    lemma_merge();
    lemma_bare(GitHook::PostCommit);
    lemma_bare(GitHook::PrePush);
    lemma_bare(GitHook::PostMerge);
    lemma_bare(GitHook::PostRewrite);
    lemma_changed(x, GitHook::PostCommit);
    lemma_changed(xa, GitHook::PrePush);
    lemma_changed(xb, GitHook::PostMerge);
    lemma_changed(xc, GitHook::PostRewrite);
    lines::lemma_ends_replaced(
        x,
        rest,
        bare_command(GitHook::PostCommit),
        guarded_command(GitHook::PostCommit),
    );
    lines::lemma_ends_replaced(
        xa,
        ra,
        bare_command(GitHook::PrePush),
        guarded_command(GitHook::PrePush),
    );
    lines::lemma_ends_replaced(
        xb,
        rb,
        bare_command(GitHook::PostMerge),
        guarded_command(GitHook::PostMerge),
    );
    lines::lemma_ends_replaced(
        xc,
        rc,
        bare_command(GitHook::PostRewrite),
        guarded_command(GitHook::PostRewrite),
    );
    lines::lemma_replaced_in_lines(xd, rd, merge_old(), merge_new());
    lines::lemma_stays_one_line(xd, merge_old(), merge_new());
}

/// In the last line no command is guarded.
proof fn lemma_guarded_last(x: Seq<char>)
    requires
        lines::is_one_line(x),
    ensures
        hooks::guarded(x) == passing(x),
        lines::is_one_line(passing(x)),
{
    lemma_patterns();
    lemma_merge();
    lemma_unbroken(x, GitHook::PostCommit);
    lemma_unbroken(x, GitHook::PrePush);
    lemma_unbroken(x, GitHook::PostMerge);
    lemma_unbroken(x, GitHook::PostRewrite);
    lines::lemma_stays_one_line(x, merge_old(), merge_new());
}

proof fn lemma_unbroken(x: Seq<char>, hook: GitHook)
    requires
        lines::is_one_line(x),
    ensures
        text::replaced(x, bare_command(hook) + seq!['\n'], guarded_command(hook) + seq!['\n']) == x,
{
    let p = bare_command(hook) + seq!['\n'];
    assert(p[bare_command(hook).len() as int] == '\n');
    lines::lemma_untouched(
        x,
        p,
        guarded_command(hook) + seq!['\n'],
        bare_command(hook).len() as int,
    );
}

/// What a line of a hook becomes.
spec fn upgraded(line: Seq<char>, last: bool) -> Seq<char> {
    if last {
        passing(line)
    } else {
        passing(marked(line))
    }
}

/// An upgrade goes line by line.
proof fn lemma_guarded_lines(s: Seq<char>)
    ensures
        text::pieces(hooks::guarded(s), '\n').len() == text::pieces(s, '\n').len() > 0,
        forall|i: int|
            0 <= i < text::pieces(s, '\n').len() ==> text::pieces(hooks::guarded(s), '\n')[i]
                == upgraded(
                #[trigger] text::pieces(s, '\n')[i],
                i == text::pieces(s, '\n').len() - 1,
            ),
    decreases s.len(),
{
    let parts = text::pieces(s, '\n');
    let (x, rest) = lines::lemma_first_line(s);
    if lines::is_one_line(s) {
        lemma_guarded_last(s);
        text::lemma_one_piece(passing(s), '\n');
    } else {
        lemma_guarded_front(x, rest);
        lemma_guarded_lines(rest);
        text::lemma_pieces_joined(passing(marked(x)), hooks::guarded(rest), '\n');
        text::lemma_one_piece(passing(marked(x)), '\n');
        let tail = text::pieces(rest, '\n');
        let made = text::pieces(hooks::guarded(s), '\n');
        assert forall|i: int| 0 <= i < parts.len() implies made[i] == upgraded(
            #[trigger] parts[i],
            i == parts.len() - 1,
        ) by {
            if i > 0 {
                assert(parts[i] == tail[i - 1]);
            }
        }
    }
}

proof fn lemma_title()
    ensures
        "# CVC Hook\ncvc push"@ == "# CVC Hook"@ + seq!['\n'] + "cvc push"@,
        lines::is_one_line("# CVC Hook"@),
        lines::is_one_line("cvc push"@),
        "# CVC Hook"@.len() == 10,
        "# CVC Hook"@[0] == '#',
        "# CVC Hook"@.last() == 'k',
        forall|i: int| 0 <= i < 10 ==> "# CVC Hook"@[i] != ':',
        "cvc push"@.len() == 8,
        "cvc push"@ == seq!['c', 'v', 'c', ' ', 'p', 'u', 's', 'h'],
{
    reveal_strlit("# CVC Hook\ncvc push");
    reveal_strlit("# CVC Hook");
    reveal_strlit("cvc push");
    assert("# CVC Hook\ncvc push"@ =~= "# CVC Hook"@ + seq!['\n'] + "cvc push"@);
    assert("cvc push"@ =~= seq!['c', 'v', 'c', ' ', 'p', 'u', 's', 'h']);
}

/// An upgrade makes neither the title nor the start of a command to push, and what
/// it changes in a line shows.
proof fn lemma_upgraded(x: Seq<char>, last: bool)
    ensures
        text::has_suffix(upgraded(x, last), "# CVC Hook"@) <==> text::has_suffix(x, "# CVC Hook"@),
        text::has_prefix(upgraded(x, last), "cvc push"@) ==> text::has_prefix(x, "cvc push"@),
        upgraded(x, last) == x || upgraded(x, last).contains('|'),
        !last && ends_bare(x) ==> upgraded(x, last).contains('|'),
{
    let title = "# CVC Hook"@;
    let push = "cvc push"@;
    let p = merge_old();
    let w = merge_new();
    let z = if last {
        x
    } else {
        marked(x)
    };
    let y = upgraded(x, last);
    lemma_title();
    lemma_merge();
    lemma_marked(x);
    lemma_bare(GitHook::PostCommit);
    if z != x {
        assert(z == x + guarding());
        assert(z[x.len() as int + 1] == '|');
        lines::lemma_char_stays(z, p, w, '|');
    } else if !y.contains('|') {
        lines::lemma_not_replaced(z, p, w, '|');
    }
    lines::lemma_suffix_stays(z, p, w, title);
    if z != x {
        if text::has_suffix(z, title) {
            assert(z.skip(z.len() - 10).last() == z.last());
            assert(false);
        }
        let hook = choose|hook: GitHook| text::has_suffix(x, #[trigger] bare_command(hook));
        lemma_bare(hook);
        assert(x.skip(x.len() - bare_command(hook).len()).last() == x.last());
        if text::has_suffix(x, title) {
            assert(x.skip(x.len() - 10).last() == x.last());
            assert(false);
        }
    }
    if text::has_prefix(y, push) {
        assert forall|i: int| 0 <= i < push.len() implies #[trigger] lines::parts_from(push, w, i) by {
            if i == 0 {
                assert(push[4] != w[4 - i]);
            } else if i == 2 {
                assert(push[3] != w[3 - i]);
            } else {
                assert(push[i] != w[i - i]);
            }
        }
        assert(push.skip(0) =~= push);
        lines::lemma_prefix_was_there(z, p, w, push, 0);
        if z != x {
            let hook = choose|hook: GitHook| text::has_suffix(x, #[trigger] bare_command(hook));
            lemma_bare(hook);
            assert(x.take(8) =~= z.take(8));
        }
    }
}

/// A line with a bar is no command of an earlier form, nor is it with a carriage
/// return behind it.
proof fn lemma_bar(part: Seq<char>)
    requires
        part.contains('|'),
    ensures
        !hooks::is_bare_command(part),
        part.last() == '\r' ==> !hooks::is_bare_command(part.drop_last()),
{
    let k = choose|k: int| 0 <= k < part.len() && part[k] == '|';
    if hooks::is_bare_command(part) {
        lemma_is_bare(part);
        let hook = choose|hook: GitHook| part == #[trigger] bare_command(hook);
        lemma_bare(hook);
    }
    if part.last() == '\r' && hooks::is_bare_command(part.drop_last()) {
        let line = part.drop_last();
        lemma_is_bare(line);
        let hook = choose|hook: GitHook| line == #[trigger] bare_command(hook);
        lemma_bare(hook);
        assert(line[k] == '|');
    }
}

/// A hook whose earlier commands are ended by line breaks is of no earlier form
/// once it is upgraded.
proof fn lemma_guarded_is_current(c: Seq<char>)
    requires
        !hooks::holds_text(c, "# CVC Hook\ncvc push"@),
        bare_lines_are_ended(c),
    ensures
        !hooks::holds_text(hooks::guarded(c), "# CVC Hook\ncvc push"@),
        !hooks::is_unguarded(hooks::guarded(c)),
{
    let after = hooks::guarded(c);
    let parts = text::pieces(c, '\n');
    let made = text::pieces(after, '\n');
    let title = "# CVC Hook"@;
    let push = "cvc push"@;
    let n = parts.len() as int;
    lemma_title();
    lemma_guarded_lines(c);
    lines::lemma_stands_across(c, title, push);
    lines::lemma_stands_across(after, title, push);
    if lines::meets(made, title, push) {
        let i = choose|i: int|
            0 <= i < made.len() - 1 && text::has_suffix(#[trigger] made[i], title)
                && text::has_prefix(made[i + 1], push);
        lemma_upgraded(parts[i], false);
        lemma_upgraded(parts[i + 1], i + 1 == n - 1);
        assert(lines::meets(parts, title, push));
    }
    assert forall|i: int| 0 <= i < made.len() implies !hooks::is_bare_command(
        #[trigger] hooks::line_of(after, i),
    ) by {
        let x = parts[i];
        let last = i == n - 1;
        lemma_upgraded(x, last);
        assert(made[i] == upgraded(x, last));
        if made[i].contains('|') {
            lemma_bar(made[i]);
        } else {
            assert(made[i] == x);
            assert(hooks::line_of(after, i) == hooks::line_of(c, i));
            if hooks::is_bare_command(hooks::line_of(c, i)) {
                lemma_is_bare(x);
                let hook = choose|hook: GitHook| x == #[trigger] bare_command(hook);
                assert(x.skip(0) =~= x);
                assert(text::has_suffix(x, bare_command(hook)));
                assert(ends_bare(x));
            }
        }
    }
}

/// A hook that holds its own lines in their earlier form holds the wanted ones once
/// it is upgraded.
proof fn lemma_earlier_lines(hook: GitHook, c: Seq<char>)
    requires
        has_earlier_lines(hook, c),
    ensures
        hooks::holds_text(hooks::guarded(c), hook.wanted()),
{
    let after = hooks::guarded(c);
    let parts = text::pieces(c, '\n');
    let made = text::pieces(after, '\n');
    let title = "# CVC Hook"@;
    let command = hooks::command_line(hook);
    let bare = bare_command(hook);
    let i = choose|i: int|
        0 <= i < parts.len() - 2 && text::has_suffix(#[trigger] parts[i], title) && parts[i + 1]
            == bare;
    lemma_title();
    hooks::lemma_command_line(hook);
    lemma_guarded_lines(c);
    lemma_upgraded(parts[i], false);
    assert(bare.skip(0) =~= bare);
    assert(text::has_suffix(bare, bare_command(hook)));
    assert(ends_bare(bare));
    lemma_marked(bare);
    lemma_own_command(hook);
    assert(made[i + 1] == upgraded(parts[i + 1], false));
    assert(made[i + 1] == command);
    assert(command.take(command.len() as int) =~= command);
    assert(lines::meets(made, title, command));
    lines::lemma_stands_across(after, title, command);
}

proof fn lemma_own_command(hook: GitHook)
    ensures
        passing(guarded_command(hook)) == hooks::command_line(hook),
{
    let s = guarded_command(hook);
    let p = merge_old();
    lemma_merge();
    if hook == GitHook::PostMerge {
        assert(s.take(p.len() as int) =~= s);
        assert(s.skip(p.len() as int) =~= Seq::empty());
        assert(text::replaced(s.skip(p.len() as int), p, merge_new()) =~= Seq::empty());
        assert(passing(s) =~= merge_new());
    } else {
        reveal_strlit("cvc hook post-commit");
        reveal_strlit("cvc hook pre-push \"$@\"");
        reveal_strlit("cvc hook post-rewrite \"$@\"");
        reveal_strlit(" || :");
        reveal_strlit("cvc hook post-commit || :");
        reveal_strlit("cvc hook pre-push \"$@\" || :");
        reveal_strlit("cvc hook post-rewrite \"$@\" || :");
        assert(s =~= hooks::command_line(hook));
        lines::lemma_untouched(s, p, merge_new(), 17);
    }
}

/// The lines of a hook in which the pushes behind the title are replaced: each such
/// line starts with the command of the hook instead, and every other one stays.
pub open spec fn push_replaced(hook: GitHook, parts: Seq<Seq<char>>, made: Seq<Seq<char>>) -> bool {
    &&& made.len() == parts.len() > 0
    &&& made[0] == parts[0]
    &&& forall|j: int|
        1 <= j < parts.len() ==> made[j] == lines::next_changed(
            parts[j - 1],
            #[trigger] parts[j],
            "# CVC Hook"@,
            "cvc push"@,
            hooks::command_line(hook),
        )
}

proof fn lemma_command_bar(hook: GitHook)
    ensures
        hooks::command_line(hook).contains('|'),
{
    reveal_strlit("cvc hook post-commit || :");
    reveal_strlit("cvc hook pre-push \"$@\" || :");
    reveal_strlit("cvc hook post-merge \"$@\" || :");
    reveal_strlit("cvc hook post-rewrite \"$@\" || :");
    let s = hooks::command_line(hook);
    assert(s[s.len() - 3] == '|');
}

/// A line that starts with the wanted command instead of a push ends with the title
/// where it did.
proof fn lemma_title_stays(hook: GitHook, parts: Seq<Seq<char>>, made: Seq<Seq<char>>, i: int)
    requires
        0 <= i < parts.len(),
        push_replaced(hook, parts, made),
    ensures
        text::has_suffix(made[i], "# CVC Hook"@) == text::has_suffix(parts[i], "# CVC Hook"@),
{
    let title = "# CVC Hook"@;
    let push = "cvc push"@;
    let command = hooks::command_line(hook);
    lemma_title();
    hooks::lemma_command_line(hook);
    if made[i] != parts[i] {
        let tail = parts[i].skip(8);
        assert(parts[i] =~= push + tail);
        assert(made[i] == command + tail);
        lines::lemma_suffix_past(push, tail, title);
        lines::lemma_suffix_behind(command, tail, title);
    }
}

proof fn lemma_push_is_gone(hook: GitHook, parts: Seq<Seq<char>>, made: Seq<Seq<char>>)
    requires
        push_replaced(hook, parts, made),
    ensures
        !lines::meets(made, "# CVC Hook"@, "cvc push"@),
{
    let title = "# CVC Hook"@;
    let push = "cvc push"@;
    let command = hooks::command_line(hook);
    if lines::meets(made, title, push) {
        let j = choose|j: int|
            0 <= j < made.len() - 1 && text::has_suffix(#[trigger] made[j], title)
                && text::has_prefix(made[j + 1], push);
        let line = parts[j + 1];
        lemma_title_stays(hook, parts, made, j);
        assert(made[j + 1] == lines::next_changed(parts[j], line, title, push, command));
        if text::has_prefix(line, push) {
            lemma_title();
            hooks::lemma_command_line(hook);
            assert(made[j + 1] == command + line.skip(8));
            assert(made[j + 1].take(8)[4] == command[4]);
        }
        assert(false);
    }
}

proof fn lemma_push_gives_way(hook: GitHook, parts: Seq<Seq<char>>, made: Seq<Seq<char>>)
    requires
        push_replaced(hook, parts, made),
        lines::meets(parts, "# CVC Hook"@, "cvc push"@),
    ensures
        lines::meets(made, "# CVC Hook"@, hooks::command_line(hook)),
{
    let title = "# CVC Hook"@;
    let push = "cvc push"@;
    let command = hooks::command_line(hook);
    let i = choose|i: int|
        0 <= i < parts.len() - 1 && text::has_suffix(#[trigger] parts[i], title)
            && text::has_prefix(parts[i + 1], push);
    let line = parts[i + 1];
    lemma_title_stays(hook, parts, made, i);
    assert(made[i + 1] == lines::next_changed(parts[i], line, title, push, command));
    assert(made[i + 1].take(command.len() as int) =~= command);
    assert(text::has_suffix(made[i], title));
}

/// A hook that pushed holds the wanted lines instead once it is upgraded: every push
/// behind the title gives way to the command of the hook, whatever stands behind it
/// on its line, and every other line stays as it is.
pub proof fn law_push_is_replaced(hook: GitHook, c: Seq<char>)
    requires
        hooks::holds_text(c, "# CVC Hook\ncvc push"@),
    ensures
        ({
            let after = text::replaced(c, "# CVC Hook\ncvc push"@, hook.wanted());
            &&& hooks::installed_hook(hook, Some(c)) == (HookAction::Appended, Some(after))
            &&& push_replaced(hook, text::pieces(c, '\n'), text::pieces(after, '\n'))
            &&& hooks::holds_text(after, hook.wanted())
            &&& !hooks::holds_text(after, "# CVC Hook\ncvc push"@)
        }),
{
    let title = "# CVC Hook"@;
    let push = "cvc push"@;
    let command = hooks::command_line(hook);
    let after = text::replaced(c, "# CVC Hook\ncvc push"@, hook.wanted());
    let parts = text::pieces(c, '\n');
    let made = text::pieces(after, '\n');
    lemma_title();
    hooks::lemma_command_line(hook);
    lines::lemma_across_lines(c, title, push, command);
    assert(push_replaced(hook, parts, made));
    lines::lemma_stands_across(c, title, push);
    lines::lemma_stands_across(after, title, push);
    lines::lemma_stands_across(after, title, command);
    lemma_push_is_gone(hook, parts, made);
    lemma_push_gives_way(hook, parts, made);
}

/// A hook that pushed is of no earlier form once it is upgraded.
proof fn lemma_push_is_upgraded(hook: GitHook, c: Seq<char>)
    requires
        hooks::holds_text(c, "# CVC Hook\ncvc push"@),
        has_no_bare_line(c),
    ensures
        !hooks::is_unguarded(text::replaced(c, "# CVC Hook\ncvc push"@, hook.wanted())),
{
    let command = hooks::command_line(hook);
    let after = text::replaced(c, "# CVC Hook\ncvc push"@, hook.wanted());
    let parts = text::pieces(c, '\n');
    let made = text::pieces(after, '\n');
    law_push_is_replaced(hook, c);
    lemma_title();
    hooks::lemma_command_line(hook);
    assert forall|k: int| 0 <= k < made.len() implies !hooks::is_bare_command(
        #[trigger] hooks::line_of(after, k),
    ) by {
        if made[k] != parts[k] {
            assert(made[k] == command + parts[k].skip(8));
            lemma_command_bar(hook);
            let b = choose|b: int| 0 <= b < command.len() && command[b] == '|';
            assert(made[k][b] == '|');
            lemma_bar(made[k]);
        } else {
            assert(hooks::line_of(after, k) == hooks::line_of(c, k));
        }
    }
}

/// An upgrade touches no other line of a hook: one that neither ends with a command
/// of an earlier form nor holds the command after a merge without its arguments
/// stays as it is, in its place.
pub proof fn law_upgrade_keeps_other_lines(c: Seq<char>, i: int)
    requires
        0 <= i < text::pieces(c, '\n').len(),
        forall|hook: GitHook|
            !text::has_suffix(text::pieces(c, '\n')[i], #[trigger] bare_command(hook)),
        !hooks::holds_text(text::pieces(c, '\n')[i], "cvc hook post-merge || :"@),
    ensures
        text::pieces(hooks::guarded(c), '\n').len() == text::pieces(c, '\n').len(),
        text::pieces(hooks::guarded(c), '\n')[i] == text::pieces(c, '\n')[i],
{
    let x = text::pieces(c, '\n')[i];
    lemma_guarded_lines(c);
    lemma_marked(x);
    lemma_merge();
    lines::lemma_absent(x, merge_old(), merge_new());
}

/// A hook that one installation settles. A push behind the title is replaced;
/// beside it no command may stand in its earlier form. In a hook with such commands
/// each has to be ended by a plain line break, so that it is guarded, and the
/// wanted lines have to be among them. To any other hook the wanted lines are
/// appended, and no command may stand in its earlier form in it, where it lacks
/// them.
pub open spec fn is_settled_by_one(hook: GitHook, c: Seq<char>) -> bool {
    if hooks::holds_text(c, "# CVC Hook\ncvc push"@) {
        has_no_bare_line(c)
    } else if hooks::is_unguarded(c) {
        bare_lines_are_ended(c) && hooks::holds_text(hooks::guarded(c), hook.wanted())
    } else {
        hooks::holds_text(c, hook.wanted()) || hooks::has_no_bare_command(c)
    }
}

/// Once installed, a hook is left alone: a second installation finds every line in
/// place and writes nothing. This holds of a hook that did not exist before, of one
/// without a command of an earlier form, and of every hook of an earlier form that
/// one installation brings up to date.
pub proof fn law_second_install_changes_nothing(hook: GitHook, content: Option<Seq<char>>)
    requires
        content matches Some(c) ==> is_settled_by_one(hook, c),
    ensures
        ({
            let after = match hooks::installed_hook(hook, content).1 {
                Some(written) => written,
                None => content->0,
            };
            hooks::installed_hook(hook, Some(after)) == (
                HookAction::AlreadyPresent,
                None::<Seq<char>>,
            )
        }),
{
    match content {
        None => hooks::lemma_current_is_settled(hook, None),
        Some(c) => {
            if hooks::holds_text(c, "# CVC Hook\ncvc push"@) {
                law_push_is_replaced(hook, c);
                lemma_push_is_upgraded(hook, c);
            } else if hooks::is_unguarded(c) {
                lemma_guarded_is_current(c);
            } else if !hooks::holds_text(c, hook.wanted()) {
                hooks::lemma_current_is_settled(hook, content);
            }
        },
    }
}

/// A hook that holds its own lines in their earlier form is settled by one
/// installation, whatever else stands in it, where every command of an earlier form
/// in it is ended by a plain line break and it does not push.
pub proof fn law_earlier_hook_is_upgraded(hook: GitHook, c: Seq<char>)
    requires
        has_earlier_lines(hook, c),
        bare_lines_are_ended(c),
        !hooks::holds_text(c, "# CVC Hook\ncvc push"@),
    ensures
        is_settled_by_one(hook, c),
        hooks::installed_hook(hook, Some(c)) == (HookAction::Appended, Some(hooks::guarded(c))),
        hooks::holds_text(hooks::guarded(c), hook.wanted()),
{
    let parts = text::pieces(c, '\n');
    let title = "# CVC Hook"@;
    let bare = bare_command(hook);
    let i = choose|i: int|
        0 <= i < parts.len() - 2 && text::has_suffix(#[trigger] parts[i], title) && parts[i + 1]
            == bare;
    lemma_earlier_lines(hook, c);
    lemma_title();
    lemma_bare(hook);
    reveal_strlit("cvc hook post-commit");
    reveal_strlit("cvc hook pre-push \"$@\"");
    reveal_strlit("cvc hook post-merge");
    reveal_strlit("cvc hook post-rewrite \"$@\"");
    assert(hooks::line_of(c, i + 1) == bare);
    assert(hooks::has_line(c, bare));
    lemma_title_is_held(c, i);
}

proof fn lemma_title_is_held(c: Seq<char>, i: int)
    requires
        0 <= i < text::pieces(c, '\n').len() - 1,
        text::has_suffix(text::pieces(c, '\n')[i], "# CVC Hook"@),
    ensures
        hooks::holds_text(c, "# CVC Hook"@),
{
    let title = "# CVC Hook"@;
    let none = Seq::<char>::empty();
    let parts = text::pieces(c, '\n');
    lemma_title();
    assert(parts[i + 1].take(0) =~= none);
    assert(lines::meets(parts, title, none));
    lines::lemma_stands_across(c, title, none);
    let p = title + seq!['\n'] + none;
    text::lemma_stands(c, p, 0);
    let at = text::first_at(c, p, 0)->0;
    assert(c.subrange(at, at + 10) =~= title) by {
        assert forall|k: int| 0 <= k < 10 implies c[at + k] == title[k] by {
            assert(c.subrange(at, at + p.len())[k] == p[k]);
        }
    }
    text::lemma_found(c, title, 0, at);
}

} // verus!
