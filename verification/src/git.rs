//! Context snapshots: which part of a file's state is kept, and the digest over
//! a prompt with its context.

use crate::digest;
use crate::digest::{hex_digest, put_bytes};
use crate::models;
use crate::models::{ContextItem, ContextModel, InteractionId};
use crate::text::push_char;
use vstd::prelude::*;
use vstd::string::*;
use vstd::utf8::*;

verus! {

/// Why a context snapshot could not be taken.
#[derive(Debug)]
pub enum GitError {
    Git2(String),
    Io(String),
    Path(String),
}

/// What is kept of a file.
#[derive(Debug, Clone, Copy, PartialEq, Eq, Structural)]
pub enum ContextForm {
    /// An untracked file: only its patch.
    Patch,
    /// A modified file: the committed object and the patch.
    ObjectAndPatch,
    /// A clean file: only the committed object.
    Object,
}

/// What is kept of a file in this state.
pub fn context_form(untracked: bool, modified: bool) -> (r: ContextForm)
    ensures
        r == if untracked {
            ContextForm::Patch
        } else if modified {
            ContextForm::ObjectAndPatch
        } else {
            ContextForm::Object
        },
{
    if untracked {
        ContextForm::Patch
    } else if modified {
        ContextForm::ObjectAndPatch
    } else {
        ContextForm::Object
    }
}

/// The context item for a file, from its committed object and its patch.
pub fn context_item(
    interaction_id: &InteractionId,
    file_path: &str,
    form: ContextForm,
    object: Option<String>,
    patch: String,
) -> (r: ContextItem)
    ensures
        r@ == (ContextModel {
            id: None,
            interaction_id: *interaction_id,
            file_path: file_path@,
            git_blob_sha: if form is Patch {
                None
            } else {
                models::opt_text(object)
            },
            dirty_patch: if form is Object {
                None
            } else {
                Some(patch@)
            },
            start_line: None,
            end_line: None,
        }),
{
    let git_blob_sha = match form {
        ContextForm::Patch => None,
        _ => object,
    };
    let dirty_patch = match form {
        ContextForm::Object => None,
        _ => Some(patch),
    };
    ContextItem {
        id: None,
        interaction_id: *interaction_id,
        file_path: file_path.to_owned(),
        git_blob_sha,
        dirty_patch,
        start_line: None,
        end_line: None,
    }
}

/// A line of a patch: the content, behind its mark where it has one.
pub open spec fn patch_line(origin: char, content: Seq<char>) -> Seq<char> {
    if origin == '+' || origin == '-' || origin == ' ' {
        seq![origin] + content
    } else {
        content
    }
}

/// Appends a line to a patch.
pub fn push_patch_line(patch: &mut String, origin: char, content: &str)
    ensures
        final(patch)@ == old(patch)@ + patch_line(origin, content@),
{
    let ghost start = patch@;
    if origin == '+' || origin == '-' || origin == ' ' {
        push_char(patch, origin);
    }
    patch.append(content);
    assert(patch@ =~= start + patch_line(origin, content@));
}

/// The bytes of an optional text.
pub open spec fn opt_encoded(o: Option<Seq<char>>) -> Seq<u8> {
    match o {
        Some(s) => encode_utf8(s),
        None => Seq::empty(),
    }
}

/// The bytes of the first `k` items: path, object and patch of each.
pub open spec fn context_encoded(items: Seq<ContextModel>, k: nat) -> Seq<u8>
    decreases k,
{
    if k == 0 {
        Seq::empty()
    } else {
        context_encoded(items, (k - 1) as nat) + (encode_utf8(items[k - 1].file_path)
            + opt_encoded(items[k - 1].git_blob_sha) + opt_encoded(items[k - 1].dirty_patch))
    }
}

fn put_opt(out: &mut Vec<u8>, o: &Option<String>)
    ensures
        final(out)@ == old(out)@ + opt_encoded(models::opt_text(*o)),
{
    let ghost start = out@;
    match o {
        Some(s) => put_bytes(out, s.as_str().as_bytes()),
        None => {
            assert(start + Seq::<u8>::empty() =~= start);
        },
    }
}

/// The digest over a prompt and its context.
pub fn calculate_context_hash(prompt: &str, context_items: &Vec<ContextItem>) -> (r: String)
    ensures
        r@ == digest::digest_text(
            encode_utf8(prompt@) + context_encoded(
                models::context_models(context_items@),
                context_items@.len(),
            ),
        ),
{
    let ghost items = models::context_models(context_items@);
    let mut h: Vec<u8> = Vec::new();
    put_bytes(&mut h, prompt.as_bytes());
    let ghost head = encode_utf8(prompt@);
    let n: usize = context_items.len();
    let mut i: usize = 0;
    assert(h@ =~= head + context_encoded(items, 0));
    while i < n
        invariant
            i <= n,
            n == context_items@.len(),
            items == models::context_models(context_items@),
            h@ == head + context_encoded(items, i as nat),
        decreases n - i,
    {
        let item = &context_items[i];
        assert(items[i as int] == item@);
        put_bytes(&mut h, item.file_path.as_str().as_bytes());
        put_opt(&mut h, &item.git_blob_sha);
        put_opt(&mut h, &item.dirty_patch);
        i += 1;
        assert(h@ =~= head + context_encoded(items, i as nat));
    }
    hex_digest(h.as_slice())
}

} // verus!
