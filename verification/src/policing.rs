//! What the privacy rules cover.

use crate::privacy;
use crate::privacy::{PolicyModel, PrivacyError};
use crate::reading;
use crate::text;
use vstd::prelude::*;
use vstd::string::*;

verus! {

/// The path that a line of a policy file keeps out.
pub open spec fn path_named(line: Seq<char>) -> Option<Seq<char>> {
    let l = text::trimmed(line);
    if text::has_prefix(l, "path:"@) {
        Some(l.skip(5))
    } else {
        None
    }
}

/// The literal that a line of a policy file removes.
pub open spec fn literal_named(line: Seq<char>) -> Option<Seq<char>> {
    let l = text::trimmed(line);
    if text::has_prefix(l, "literal:"@) {
        Some(l.skip(8))
    } else {
        None
    }
}

/// The pattern that a line of a policy file removes.
pub open spec fn pattern_named(line: Seq<char>) -> Option<Seq<char>> {
    let l = text::trimmed(line);
    if text::has_prefix(l, "regex:"@) {
        Some(l.skip(6))
    } else {
        None
    }
}

proof fn lemma_directives_differ(l: Seq<char>)
    ensures
        text::has_prefix(l, "path:"@) ==> l.len() >= 5 && l[0] == 'p',
        text::has_prefix(l, "literal:"@) ==> l.len() >= 8 && l[0] == 'l',
        text::has_prefix(l, "regex:"@) ==> l.len() >= 6 && l[0] == 'r',
{
    reveal_strlit("path:");
    reveal_strlit("literal:");
    reveal_strlit("regex:");
    assert("path:"@[0] == 'p' && "literal:"@[0] == 'l' && "regex:"@[0] == 'r');
    assert("path:"@.len() == 5 && "literal:"@.len() == 8 && "regex:"@.len() == 6);
    if text::has_prefix(l, "path:"@) {
        assert(l.take(5)[0] == l[0]);
    }
    if text::has_prefix(l, "literal:"@) {
        assert(l.take(8)[0] == l[0]);
    }
    if text::has_prefix(l, "regex:"@) {
        assert(l.take(6)[0] == l[0]);
    }
}

proof fn lemma_directives(p: PolicyModel, lines: Seq<Seq<char>>, k: int)
    requires
        0 <= k <= lines.len(),
        privacy::with_lines(p, lines, k) is Ok,
    ensures
        ({
            let out = privacy::with_lines(p, lines, k)->Ok_0;
            let rest = lines.skip(k);
            &&& out.paths == p.paths + rest.filter_map(|l: Seq<char>| path_named(l))
            &&& out.literals == p.literals + rest.filter_map(|l: Seq<char>| literal_named(l))
            &&& out.regexes == p.regexes + rest.filter_map(|l: Seq<char>| pattern_named(l))
        }),
    decreases lines.len() - k,
{
    let f = |l: Seq<char>| path_named(l);
    let g = |l: Seq<char>| literal_named(l);
    let h = |l: Seq<char>| pattern_named(l);
    if k < lines.len() {
        let line = lines[k];
        let next = privacy::with_directive(p, text::trimmed(line))->Ok_0;
        lemma_directives_differ(text::trimmed(line));
        lemma_directives(next, lines, k + 1);
        let rest = lines.skip(k + 1);
        assert(lines.skip(k) =~= seq![line] + rest);
        reading::lemma_filter_map_first(line, rest, f);
        reading::lemma_filter_map_first(line, rest, g);
        reading::lemma_filter_map_first(line, rest, h);
        if let Some(x) = path_named(line) {
            assert(next.paths == p.paths.push(x));
            assert(p.paths.push(x) + rest.filter_map(f) =~= p.paths + (seq![x] + rest.filter_map(
                f,
            )));
        }
        if let Some(x) = literal_named(line) {
            assert(next.literals == p.literals.push(x));
            assert(p.literals.push(x) + rest.filter_map(g) =~= p.literals + (seq![x]
                + rest.filter_map(g)));
        }
        if let Some(x) = pattern_named(line) {
            assert(next.regexes == p.regexes.push(x));
            assert(p.regexes.push(x) + rest.filter_map(h) =~= p.regexes + (seq![x]
                + rest.filter_map(h)));
        }
    } else {
        assert(lines.skip(k) =~= Seq::empty());
        reveal_with_fuel(Seq::filter_map, 2);
        assert(p.paths + Seq::<Seq<char>>::empty() =~= p.paths);
        assert(p.literals + Seq::<Seq<char>>::empty() =~= p.literals);
        assert(p.regexes + Seq::<Seq<char>>::empty() =~= p.regexes);
    }
}

/// A policy holds exactly what its file states: every path, every literal and every
/// pattern, each in its order.
pub proof fn law_policy_holds_every_directive(file: Seq<char>)
    requires
        privacy::policy_of(file) is Ok,
    ensures
        ({
            let p = privacy::policy_of(file)->Ok_0;
            let lines = text::pieces(file, '\n');
            &&& p.paths == lines.filter_map(|l: Seq<char>| path_named(l))
            &&& p.literals == lines.filter_map(|l: Seq<char>| literal_named(l))
            &&& p.regexes == lines.filter_map(|l: Seq<char>| pattern_named(l))
        }),
{
    let lines = text::pieces(file, '\n');
    lemma_directives(privacy::no_policy(), lines, 0);
    assert(lines.skip(0) =~= lines);
    let f = |l: Seq<char>| path_named(l);
    let g = |l: Seq<char>| literal_named(l);
    let h = |l: Seq<char>| pattern_named(l);
    assert(Seq::<Seq<char>>::empty() + lines.filter_map(f) =~= lines.filter_map(f));
    assert(Seq::<Seq<char>>::empty() + lines.filter_map(g) =~= lines.filter_map(g));
    assert(Seq::<Seq<char>>::empty() + lines.filter_map(h) =~= lines.filter_map(h));
}

/// A line of a policy file that is neither empty nor a comment nor one of the three
/// directives is refused.
pub proof fn law_unknown_directive_is_refused(p: PolicyModel, line: Seq<char>)
    requires
        line.len() > 0,
        line[0] != '#',
        !text::has_prefix(line, "path:"@),
        !text::has_prefix(line, "literal:"@),
        !text::has_prefix(line, "regex:"@),
    ensures
        privacy::with_directive(p, line) is Err,
{
}

/// Once the literals of a policy are removed, the last of them stands nowhere in the
/// text; with one literal, that is the literal.
pub proof fn law_last_literal_is_gone(
    t: Seq<char>,
    literals: Seq<Seq<char>>,
    li: int,
    ids: Seq<u128>,
    used: nat,
)
    requires
        0 <= li < literals.len(),
        privacy::literals_removed(t, literals, li, ids, used) is Ok,
    ensures
        text::first_at(
            privacy::literals_removed(t, literals, li, ids, used)->Ok_0.0,
            literals.last(),
            0,
        ) is None,
    decreases literals.len() - li, privacy::MAX_MATCHES - used,
{
    match text::first_at(t, literals[li], 0) {
        None => {
            if li + 1 < literals.len() {
                law_last_literal_is_gone(t, literals, li + 1, ids, used);
            }
        },
        Some(at) => {
            law_last_literal_is_gone(
                t.take(at) + privacy::marker_text("policy_literal"@, ids[used as int]) + t.skip(
                    at + literals[li].len(),
                ),
                literals,
                li,
                ids,
                used + 1,
            );
        },
    }
}

/// A text that holds none of the literals is left as it is.
pub proof fn law_text_without_literals_is_left(
    t: Seq<char>,
    literals: Seq<Seq<char>>,
    li: int,
    ids: Seq<u128>,
    used: nat,
)
    requires
        0 <= li <= literals.len(),
        forall|k: int| li <= k < literals.len() ==> text::first_at(t, #[trigger] literals[k], 0) is None,
    ensures
        privacy::literals_removed(t, literals, li, ids, used) == Ok::<
            (Seq<char>, nat),
            PrivacyError,
        >((t, used)),
    decreases literals.len() - li,
{
    if li < literals.len() {
        assert(text::first_at(t, literals[li], 0) is None);
        law_text_without_literals_is_left(t, literals, li + 1, ids, used);
    }
}

/// These names, in any case and with any punctuation, are those of credentials.
pub proof fn law_credential_names(name: Seq<char>)
    ensures
        privacy::normalized_name(name) == name.filter(
            |c: char| ('a' <= c <= 'z') || ('A' <= c <= 'Z') || ('0' <= c <= '9'),
        ).map_values(
            |c: char|
                if 'A' <= c <= 'Z' {
                    (c as int + 32) as char
                } else {
                    c
                },
        ),
        privacy::credential_name("awssecretaccesskey"@),
        privacy::credential_name("apikey"@),
        privacy::credential_name("clientsecret"@),
        privacy::credential_name("accesstoken"@),
        privacy::credential_name("refreshtoken"@),
        privacy::credential_name("privatekey"@),
        privacy::credential_name("secret"@),
        privacy::credential_name("password"@),
        privacy::credential_name("passwd"@),
        privacy::credential_name("pwd"@),
        privacy::credential_name("token"@),
        privacy::credential_name("authorization"@),
    decreases name.len(),
{
    reveal(Seq::filter);
    let plain = |c: char| ('a' <= c <= 'z') || ('A' <= c <= 'Z') || ('0' <= c <= '9');
    let lower = |c: char|
        if 'A' <= c <= 'Z' {
            (c as int + 32) as char
        } else {
            c
        };
    if name.len() > 0 {
        let p = name.drop_last();
        law_credential_names(p);
        assert(p.filter(plain).push(name.last()).map_values(lower) =~= p.filter(plain).map_values(
            lower,
        ).push(lower(name.last())));
    } else {
        assert(name.filter(plain).map_values(lower) =~= Seq::empty());
    }
}

/// The kinds of secrets that are sought, each by its own pattern.
pub proof fn law_kinds_of_secrets()
    ensures
        privacy::SECRET_PATTERNS == 10,
        privacy::secret_pattern(0).0 == "pem"@,
        privacy::secret_pattern(1).0 == "aws_access_key"@,
        privacy::secret_pattern(2).0 == "jwt"@,
        privacy::secret_pattern(3).0 == "github_token"@,
        privacy::secret_pattern(4).0 == "openai_token"@,
        privacy::secret_pattern(5).0 == "slack_token"@,
        privacy::secret_pattern(6).0 == "google_token"@,
        privacy::secret_pattern(7).0 == "authorization"@,
        privacy::secret_pattern(8).0 == "url_credentials"@,
        privacy::secret_pattern(9).0 == "secret_assignment"@,
        privacy::secret_pattern(1).1 == "\\b(?:AKIA|ASIA)[A-Z0-9]{16}\\b"@,
        privacy::secret_pattern(4).1 == "\\bsk-(?:proj-)?[A-Za-z0-9_-]{20,}\\b"@,
        privacy::secret_pattern(5).1 == "\\bxox[baprs]-[A-Za-z0-9-]{10,}\\b"@,
        privacy::secret_pattern(6).1 == "\\bya29\\.[A-Za-z0-9_-]{20,}\\b"@,
{
}

/// A path is kept out exactly where it is the policy file itself, a path that the
/// policy names, or below one.
pub proof fn law_ignored_paths(p: PolicyModel, path: Seq<char>)
    ensures
        privacy::ignored_path(p, path) <==> path == ".thoughtignore"@ || exists|k: int|
            0 <= k < p.paths.len() && (#[trigger] p.paths[k] == path || exists|rest: Seq<char>|
                path == #[trigger] (p.paths[k] + "/"@ + rest)),
{
    assert forall|k: int| 0 <= k < p.paths.len() implies (text::has_prefix(
        path,
        #[trigger] p.paths[k] + "/"@,
    ) <==> exists|rest: Seq<char>| path == #[trigger] (p.paths[k] + "/"@ + rest)) by {
        let front = p.paths[k] + "/"@;
        if text::has_prefix(path, front) {
            assert(path =~= front + path.skip(front.len() as int));
            assert(path == p.paths[k] + "/"@ + path.skip(front.len() as int));
        }
        if exists|rest: Seq<char>| path == #[trigger] (p.paths[k] + "/"@ + rest) {
            let rest = choose|rest: Seq<char>| path == #[trigger] (p.paths[k] + "/"@ + rest);
            assert(path.take(front.len() as int) =~= front);
        }
    }
}

/// An identifier is safe exactly where it is short and made of letters, digits and
/// four marks.
pub proof fn law_safe_identifiers(s: Seq<char>)
    ensures
        privacy::safe_identifier(s) <==> 0 < s.len() <= 256 && forall|i: int|
            0 <= i < s.len() ==> {
                let c = #[trigger] s[i];
                ||| 'a' <= c <= 'z'
                ||| 'A' <= c <= 'Z'
                ||| '0' <= c <= '9'
                ||| c == '-'
                ||| c == '_'
                ||| c == '.'
                ||| c == ':'
            },
{
    assert forall|i: int| 0 <= i < s.len() implies (privacy::identifier_char(#[trigger] s[i])
        <==> {
        let c = s[i];
        ||| 'a' <= c <= 'z'
        ||| 'A' <= c <= 'Z'
        ||| '0' <= c <= '9'
        ||| c == '-'
        ||| c == '_'
        ||| c == '.'
        ||| c == ':'
    }) by {}
}

} // verus!
