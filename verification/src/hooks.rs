//! The content of Git hooks: what an installation writes into a new hook, how it
//! upgrades an old one, and what it leaves alone.

use crate::models;
use crate::text;
use crate::text::{chars_of, contains_text, glue3, replace_text, split_text, text_equal, text_of};
use vstd::prelude::*;
use vstd::string::*;

verus! {

/// What happened to a single hook file during an installation.
#[derive(Debug, Clone, Copy, PartialEq, Eq, Structural)]
pub enum HookAction {
    Created,
    Appended,
    AlreadyPresent,
}

/// Outcome of installing a single hook, for callers to report as they see fit.
#[derive(Debug, Clone)]
pub struct HookInstallOutcome {
    pub hook_name: &'static str,
    pub hook_path: String,
    pub action: HookAction,
}

/// A hook that an installation manages.
#[derive(Debug, Clone, Copy, PartialEq, Eq, Structural)]
pub enum GitHook {
    PostCommit,
    PrePush,
    PostMerge,
    PostRewrite,
}

/// Why a hook is not touched.
#[derive(Debug, Clone, Copy, PartialEq, Eq, Structural)]
pub enum HookFault {
    Symlink,
}

impl GitHook {
    /// The name of the hook's file.
    pub open spec fn name(self) -> Seq<char> {
        match self {
            GitHook::PostCommit => "post-commit"@,
            GitHook::PrePush => "pre-push"@,
            GitHook::PostMerge => "post-merge"@,
            GitHook::PostRewrite => "post-rewrite"@,
        }
    }

    /// The name of the hook's file.
    pub fn as_str(self) -> (r: &'static str)
        ensures
            r@ == self.name(),
    {
        match self {
            GitHook::PostCommit => "post-commit",
            GitHook::PrePush => "pre-push",
            GitHook::PostMerge => "post-merge",
            GitHook::PostRewrite => "post-rewrite",
        }
    }

    /// The lines that the hook must hold. A failing command never fails the hook.
    pub open spec fn wanted(self) -> Seq<char> {
        match self {
            GitHook::PostCommit => "# CVC Hook\ncvc hook post-commit || :"@,
            GitHook::PrePush => "# CVC Hook\ncvc hook pre-push \"$@\" || :"@,
            GitHook::PostMerge => "# CVC Hook\ncvc hook post-merge \"$@\" || :"@,
            GitHook::PostRewrite => "# CVC Hook\ncvc hook post-rewrite \"$@\" || :"@,
        }
    }

    /// The lines that the hook must hold.
    pub fn wanted_lines(self) -> (r: &'static str)
        ensures
            r@ == self.wanted(),
    {
        match self {
            GitHook::PostCommit => "# CVC Hook\ncvc hook post-commit || :",
            GitHook::PrePush => "# CVC Hook\ncvc hook pre-push \"$@\" || :",
            GitHook::PostMerge => "# CVC Hook\ncvc hook post-merge \"$@\" || :",
            GitHook::PostRewrite => "# CVC Hook\ncvc hook post-rewrite \"$@\" || :",
        }
    }
}

/// The hooks that an installation manages, in the order in which it does.
pub open spec fn managed() -> Seq<GitHook> {
    seq![GitHook::PostCommit, GitHook::PrePush, GitHook::PostMerge, GitHook::PostRewrite]
}

/// The hooks that an installation manages.
pub fn managed_hooks() -> (r: Vec<GitHook>)
    ensures
        r@ == managed(),
{
    vec![GitHook::PostCommit, GitHook::PrePush, GitHook::PostMerge, GitHook::PostRewrite]
}

/// A text stands somewhere in another.
pub open spec fn holds_text(s: Seq<char>, p: Seq<char>) -> bool {
    text::first_at(s, p, 0) is Some
}

/// A line of a text: what stands between line breaks, without the carriage
/// return of a line that ends in both.
pub open spec fn line_of(s: Seq<char>, i: int) -> Seq<char> {
    let parts = text::pieces(s, '\n');
    let part = parts[i];
    if i < parts.len() - 1 && part.len() > 0 && part.last() == '\r' {
        part.drop_last()
    } else {
        part
    }
}

/// The text has this line.
pub open spec fn has_line(s: Seq<char>, line: Seq<char>) -> bool {
    exists|i: int| 0 <= i < text::pieces(s, '\n').len() && #[trigger] line_of(s, i) == line
}

/// A hook of an earlier form, whose failing command fails the hook.
pub open spec fn is_unguarded(content: Seq<char>) -> bool {
    &&& holds_text(content, "# CVC Hook"@)
    &&& has_line(content, "cvc hook post-commit"@) || has_line(
        content,
        "cvc hook pre-push \"$@\""@,
    ) || has_line(content, "cvc hook post-merge"@) || has_line(
        content,
        "cvc hook post-rewrite \"$@\""@,
    )
}

/// A hook of an earlier form with its commands guarded; the one after a merge
/// passes its arguments on, too.
pub open spec fn guarded(content: Seq<char>) -> Seq<char> {
    let a = text::replaced(
        content,
        "cvc hook post-commit\n"@,
        "cvc hook post-commit || :\n"@,
    );
    let b = text::replaced(
        a,
        "cvc hook pre-push \"$@\"\n"@,
        "cvc hook pre-push \"$@\" || :\n"@,
    );
    let c = text::replaced(b, "cvc hook post-merge\n"@, "cvc hook post-merge || :\n"@);
    let d = text::replaced(
        c,
        "cvc hook post-rewrite \"$@\"\n"@,
        "cvc hook post-rewrite \"$@\" || :\n"@,
    );
    text::replaced(d, "cvc hook post-merge || :"@, "cvc hook post-merge \"$@\" || :"@)
}

/// What an installation does with a hook file, and what it then holds.
pub open spec fn installed_hook(hook: GitHook, content: Option<Seq<char>>) -> (
    HookAction,
    Option<Seq<char>>,
) {
    let block = "\n"@ + hook.wanted() + "\n"@;
    match content {
        None => (HookAction::Created, Some("#!/bin/sh\n"@ + block)),
        Some(c) => if holds_text(c, "# CVC Hook\ncvc push"@) {
            (
                HookAction::Appended,
                Some(text::replaced(c, "# CVC Hook\ncvc push"@, hook.wanted())),
            )
        } else if is_unguarded(c) {
            (HookAction::Appended, Some(guarded(c)))
        } else if !holds_text(c, hook.wanted()) {
            (HookAction::Appended, Some(c + block))
        } else {
            (HookAction::AlreadyPresent, None)
        },
    }
}

fn find_line(content: &str, line: &str) -> (r: bool)
    ensures
        r == has_line(content@, line@),
{
    let parts = split_text(content, '\n');
    let ghost all = text::pieces(content@, '\n');
    let n: usize = parts.len();
    let mut i: usize = 0;
    while i < n
        invariant
            i <= n,
            n == parts@.len(),
            all == text::pieces(content@, '\n'),
            all == parts.deep_view(),
            all.len() == n,
            forall|k: int| 0 <= k < i ==> #[trigger] line_of(content@, k) != line@,
        decreases n - i,
    {
        assert(all[i as int] == parts@[i as int]@);
        let chars = chars_of(parts[i].as_str());
        let m: usize = chars.len();
        let part = if i < n - 1 && m > 0 && chars[m - 1] == '\r' {
            text_of(chars.as_slice(), 0, m - 1)
        } else {
            parts[i].clone()
        };
        assert(part@ =~= line_of(content@, i as int));
        if text_equal(part.as_str(), line) {
            return true;
        }
        i += 1;
    }
    false
}

fn guard(content: &str) -> (r: String)
    ensures
        r@ == guarded(content@),
{
    proof {
        reveal_strlit("cvc hook post-commit\n");
        reveal_strlit("cvc hook pre-push \"$@\"\n");
        reveal_strlit("cvc hook post-merge\n");
        reveal_strlit("cvc hook post-rewrite \"$@\"\n");
        reveal_strlit("cvc hook post-merge || :");
    }
    let a = replace_text(content, "cvc hook post-commit\n", "cvc hook post-commit || :\n");
    let b = replace_text(
        a.as_str(),
        "cvc hook pre-push \"$@\"\n",
        "cvc hook pre-push \"$@\" || :\n",
    );
    let c = replace_text(b.as_str(), "cvc hook post-merge\n", "cvc hook post-merge || :\n");
    let d = replace_text(
        c.as_str(),
        "cvc hook post-rewrite \"$@\"\n",
        "cvc hook post-rewrite \"$@\" || :\n",
    );
    replace_text(d.as_str(), "cvc hook post-merge || :", "cvc hook post-merge \"$@\" || :")
}

/// What an installation writes into a hook file, and what it reports. The hook
/// that follows rewrites is installed without being reported.
pub struct HookWrite {
    pub action: HookAction,
    pub content: Option<String>,
    pub outcome: Option<HookInstallOutcome>,
}

/// Decides what to write into a hook file, given what it holds.
pub fn install(hook: GitHook, hook_path: &str, is_symlink: bool, content: Option<&str>) -> (r:
    Result<HookWrite, HookFault>)
    ensures
        is_symlink <==> r is Err,
        r matches Ok(w) ==> {
            let wanted = installed_hook(
                hook,
                match content {
                    Some(c) => Some(c@),
                    None => None,
                },
            );
            &&& w.action == wanted.0
            &&& models::opt_text(w.content) == wanted.1
            &&& match w.outcome {
                Some(o) => hook != GitHook::PostRewrite && o.hook_name@ == hook.name()
                    && o.hook_path@ == hook_path@ && o.action == w.action,
                None => hook == GitHook::PostRewrite,
            }
        },
{
    if is_symlink {
        return Err(HookFault::Symlink);
    }
    let wanted = hook.wanted_lines();
    let (action, written) = match content {
        None => {
            let mut fresh = glue3("#!/bin/sh\n", "\n", wanted);
            fresh.append("\n");
            assert(fresh@ =~= "#!/bin/sh\n"@ + ("\n"@ + hook.wanted() + "\n"@));
            (HookAction::Created, Some(fresh))
        },
        Some(c) => {
            proof {
                reveal_strlit("# CVC Hook\ncvc push");
            }
            if contains_text(c, "# CVC Hook\ncvc push") {
                (HookAction::Appended, Some(replace_text(c, "# CVC Hook\ncvc push", wanted)))
            } else if contains_text(c, "# CVC Hook") && (find_line(c, "cvc hook post-commit")
                || find_line(c, "cvc hook pre-push \"$@\"") || find_line(c, "cvc hook post-merge")
                || find_line(c, "cvc hook post-rewrite \"$@\"")) {
                (HookAction::Appended, Some(guard(c)))
            } else if !contains_text(c, wanted) {
                let mut grown = glue3(c, "\n", wanted);
                grown.append("\n");
                assert(grown@ =~= c@ + ("\n"@ + hook.wanted() + "\n"@));
                (HookAction::Appended, Some(grown))
            } else {
                (HookAction::AlreadyPresent, None)
            }
        },
    };
    let outcome = if hook == GitHook::PostRewrite {
        None
    } else {
        Some(
            HookInstallOutcome {
                hook_name: hook.as_str(),
                hook_path: hook_path.to_owned(),
                action,
            },
        )
    };
    Ok(HookWrite { action, content: written, outcome })
}

/// A hook that is created, or that is neither of an earlier form nor complete,
/// holds the wanted lines afterwards, behind everything that it held before.
pub proof fn law_hook_holds_wanted_lines(hook: GitHook, content: Option<Seq<char>>)
    requires
        content matches Some(c) ==> !holds_text(c, "# CVC Hook\ncvc push"@) && !is_unguarded(c),
    ensures
        match installed_hook(hook, content).1 {
            Some(after) => {
                &&& holds_text(after, hook.wanted())
                &&& content matches Some(c) ==> text::has_prefix(after, c)
            },
            None => content matches Some(c) && holds_text(c, hook.wanted()),
        },
{
    reveal_strlit("# CVC Hook\ncvc hook post-commit || :");
    reveal_strlit("# CVC Hook\ncvc hook pre-push \"$@\" || :");
    reveal_strlit("# CVC Hook\ncvc hook post-merge \"$@\" || :");
    reveal_strlit("# CVC Hook\ncvc hook post-rewrite \"$@\" || :");
    let wanted = hook.wanted();
    let block = "\n"@ + wanted + "\n"@;
    match installed_hook(hook, content).1 {
        Some(after) => {
            let head = match content {
                Some(c) => c,
                None => "#!/bin/sh\n"@,
            };
            assert(after == head + block);
            let at = (head + "\n"@).len() as int;
            assert(after.subrange(at, at + wanted.len()) =~= wanted);
            text::lemma_found(after, wanted, 0, at);
            assert(after.take(head.len() as int) =~= head);
        },
        None => {},
    }
}

/// The command of one of the hooks in its earlier form, unguarded.
pub open spec fn is_bare_command(line: Seq<char>) -> bool {
    ||| line == "cvc hook post-commit"@
    ||| line == "cvc hook pre-push \"$@\""@
    ||| line == "cvc hook post-merge"@
    ||| line == "cvc hook post-rewrite \"$@\""@
}

/// A hook without a command of an earlier form on a line of its own, be the line
/// ended by a line break alone or by a carriage return, too.
pub open spec fn has_no_bare_command(content: Seq<char>) -> bool {
    forall|i: int|
        0 <= i < text::pieces(content, '\n').len() ==> {
            let part = #[trigger] text::pieces(content, '\n')[i];
            !is_bare_command(part) && !(part.len() > 0 && part.last() == '\r' && is_bare_command(
                part.drop_last(),
            ))
        }
}

/// The line of a hook with its command.
pub open spec fn command_line(hook: GitHook) -> Seq<char> {
    match hook {
        GitHook::PostCommit => "cvc hook post-commit || :"@,
        GitHook::PrePush => "cvc hook pre-push \"$@\" || :"@,
        GitHook::PostMerge => "cvc hook post-merge \"$@\" || :"@,
        GitHook::PostRewrite => "cvc hook post-rewrite \"$@\" || :"@,
    }
}

pub proof fn lemma_command_line(hook: GitHook)
    ensures
        hook.wanted() == "# CVC Hook"@ + seq!['\n'] + command_line(hook),
        "# CVC Hook"@.len() == 10,
        "# CVC Hook"@[0] == '#',
        forall|i: int| 0 <= i < 10 ==> "# CVC Hook"@[i] != '\n',
        command_line(hook).len() > 8,
        command_line(hook)[4] == 'h',
        command_line(hook).last() == ':',
        forall|i: int| 0 <= i < command_line(hook).len() ==> command_line(hook)[i] != '\n',
{
    reveal_strlit("# CVC Hook");
    reveal_strlit("# CVC Hook\ncvc hook post-commit || :");
    reveal_strlit("# CVC Hook\ncvc hook pre-push \"$@\" || :");
    reveal_strlit("# CVC Hook\ncvc hook post-merge \"$@\" || :");
    reveal_strlit("# CVC Hook\ncvc hook post-rewrite \"$@\" || :");
    reveal_strlit("cvc hook post-commit || :");
    reveal_strlit("cvc hook pre-push \"$@\" || :");
    reveal_strlit("cvc hook post-merge \"$@\" || :");
    reveal_strlit("cvc hook post-rewrite \"$@\" || :");
    assert(hook.wanted() =~= "# CVC Hook"@ + seq!['\n'] + command_line(hook));
}

/// A bare command is none of the lines that an installation writes.
proof fn lemma_bare_command(line: Seq<char>)
    requires
        is_bare_command(line),
    ensures
        line.len() > 0,
        line[0] == 'c',
        line.last() != ':',
{
    reveal_strlit("cvc hook post-commit");
    reveal_strlit("cvc hook pre-push \"$@\"");
    reveal_strlit("cvc hook post-merge");
    reveal_strlit("cvc hook post-rewrite \"$@\"");
}

/// The lines of a hook to which the wanted ones are appended.
proof fn lemma_grown_lines(hook: GitHook, head: Seq<char>)
    ensures
        text::pieces(head + ("\n"@ + hook.wanted() + "\n"@), '\n') == text::pieces(head, '\n')
            + seq!["# CVC Hook"@, command_line(hook), Seq::<char>::empty()],
        head + ("\n"@ + hook.wanted() + "\n"@) == head + seq!['\n'] + ("# CVC Hook"@ + seq!['\n'] + (
        command_line(hook) + seq!['\n'] + Seq::<char>::empty())),
{
    lemma_command_line(hook);
    reveal_strlit("\n");
    let none = Seq::<char>::empty();
    let title = "# CVC Hook"@;
    let command = command_line(hook);
    let last = command + seq!['\n'] + none;
    let middle = title + seq!['\n'] + last;
    let after = head + ("\n"@ + hook.wanted() + "\n"@);
    assert("\n"@ =~= seq!['\n']);
    assert(after =~= head + seq!['\n'] + middle);
    text::lemma_pieces_joined(head, middle, '\n');
    text::lemma_pieces_joined(title, last, '\n');
    text::lemma_pieces_joined(command, none, '\n');
    text::lemma_one_piece(title, '\n');
    text::lemma_one_piece(command, '\n');
    text::lemma_one_piece(none, '\n');
    assert(text::pieces(after, '\n') =~= text::pieces(head, '\n') + seq![title, command, none]);
}

/// A hook to which the wanted lines are appended is of no earlier form.
proof fn lemma_grown_is_current(hook: GitHook, head: Seq<char>)
    requires
        !holds_text(head, "# CVC Hook\ncvc push"@),
        has_no_bare_command(head),
    ensures
        !holds_text(head + ("\n"@ + hook.wanted() + "\n"@), "# CVC Hook\ncvc push"@),
        !is_unguarded(head + ("\n"@ + hook.wanted() + "\n"@)),
{
    let after = head + ("\n"@ + hook.wanted() + "\n"@);
    let title = "# CVC Hook"@;
    let command = command_line(hook);
    let old_form = "# CVC Hook\ncvc push"@;
    lemma_command_line(hook);
    lemma_grown_lines(hook, head);
    reveal_strlit("# CVC Hook\ncvc push");
    if holds_text(after, old_form) {
        text::lemma_stands(after, old_form, 0);
        let at = text::first_at(after, old_form, 0)->0;
        let n = head.len() as int;
        let m = command.len() as int;
        assert forall|i: int| 0 <= i < 19 implies after[at + i] == old_form[i] by {
            assert(after.subrange(at, at + 19)[i] == after[at + i]);
        }
        assert(after[n] == '\n');
        assert forall|i: int| 0 <= i < 10 implies after[n + 1 + i] == title[i] by {}
        assert(after[n + 11] == '\n');
        assert forall|i: int| 0 <= i < m implies after[n + 12 + i] == command[i] by {}
        assert(after.len() == n + 13 + m);
        assert(old_form.len() == 19);
        assert(old_form[10] == '\n' && old_form[11] == 'c' && old_form[15] == 'p');
        if at + 19 <= n {
            assert(head.subrange(at, at + 19) =~= after.subrange(at, at + 19));
            text::lemma_found(head, old_form, 0, at);
            assert(false);
        } else if at + 10 < n {
            assert forall|k: int| 11 <= k < 19 implies old_form[k] != '\n' by {}
            assert(after[at + (n - at)] == old_form[n - at]);
            assert(false);
        } else if at + 10 == n {
            assert(after[at + 11] == old_form[11]);
            assert(after[n + 1 + 0] == title[0]);
            assert(false);
        } else if at + 10 == n + 11 {
            assert(after[at + 15] == old_form[15]);
            assert(after[n + 12 + 4] == command[4]);
            assert(false);
        } else if at + 10 < n + 11 {
            assert(after[at + 10] == old_form[10]);
            assert(after[n + 1 + (at + 10 - n - 1)] == title[at + 10 - n - 1]);
            assert(false);
        } else if at + 10 < n + 12 + m {
            assert(after[at + 10] == old_form[10]);
            assert(after[n + 12 + (at + 10 - n - 12)] == command[at + 10 - n - 12]);
            assert(false);
        }
        assert(false);
    }
    let parts = text::pieces(after, '\n');
    let olds = text::pieces(head, '\n');
    assert forall|i: int| 0 <= i < parts.len() implies !is_bare_command(#[trigger] line_of(after, i)) by {
        let line = line_of(after, i);
        if is_bare_command(line) {
            lemma_bare_command(line);
            if i < olds.len() {
                assert(parts[i] == olds[i]);
            } else if i == olds.len() {
                assert(parts[i] == title);
            } else if i == olds.len() + 1 {
                assert(parts[i] == command);
            } else {
                assert(parts[i] == Seq::<char>::empty());
            }
        }
    }
}

/// A hook that did not exist before, or that holds no command of an earlier form,
/// is left alone once it is installed.
pub proof fn lemma_current_is_settled(hook: GitHook, content: Option<Seq<char>>)
    requires
        content matches Some(c) ==> !holds_text(c, "# CVC Hook\ncvc push"@) && has_no_bare_command(c),
    ensures
        ({
            let after = match installed_hook(hook, content).1 {
                Some(written) => written,
                None => content->0,
            };
            installed_hook(hook, Some(after)) == (HookAction::AlreadyPresent, None::<Seq<char>>)
        }),
{
    let first = "#!/bin/sh\n"@;
    let head = match content {
        Some(c) => c,
        None => first,
    };
    if content is None {
        reveal_strlit("#!/bin/sh\n");
        reveal_strlit("#!/bin/sh");
        reveal_strlit("# CVC Hook\ncvc push");
        let none = Seq::<char>::empty();
        assert(first =~= "#!/bin/sh"@ + seq!['\n'] + none);
        text::lemma_pieces_joined("#!/bin/sh"@, none, '\n');
        text::lemma_one_piece("#!/bin/sh"@, '\n');
        text::lemma_one_piece(none, '\n');
        assert(text::pieces(first, '\n') =~= seq!["#!/bin/sh"@, none]);
        assert forall|i: int| 0 <= i < text::pieces(first, '\n').len() implies {
            let part = #[trigger] text::pieces(first, '\n')[i];
            !is_bare_command(part) && !(part.len() > 0 && part.last() == '\r' && is_bare_command(
                part.drop_last(),
            ))
        } by {
            let part = text::pieces(first, '\n')[i];
            if is_bare_command(part) {
                lemma_bare_command(part);
            }
        }
    }
    assert(has_no_bare_command(head));
    lemma_not_unguarded(head);
    law_hook_holds_wanted_lines(hook, content);
    lemma_grown_is_current(hook, head);
}

proof fn lemma_not_unguarded(content: Seq<char>)
    requires
        has_no_bare_command(content),
    ensures
        !is_unguarded(content),
{
    let parts = text::pieces(content, '\n');
    assert forall|i: int| 0 <= i < parts.len() implies !is_bare_command(
        #[trigger] line_of(content, i),
    ) by {
        let part = parts[i];
    }
}

/// Where none of the hooks exists, an installation creates all of them and
/// reports all but the one that follows rewrites; a second one finds each in
/// place and writes nothing.
pub proof fn law_fresh_install_is_settled(i: int)
    requires
        0 <= i < managed().len(),
    ensures
        ({
            let hook = managed()[i];
            let (action, written) = installed_hook(hook, None);
            &&& action == HookAction::Created
            &&& written is Some
            &&& installed_hook(hook, written) == (HookAction::AlreadyPresent, None::<Seq<char>>)
            &&& i < 3 <==> hook != GitHook::PostRewrite
        }),
{
    lemma_current_is_settled(managed()[i], None);
}

} // verus!
