//! Editor chat sessions and the full text of their responses.

use crate::json::{Json, Member};
use crate::text::{chars_of, text_equal};
use vstd::prelude::*;
use vstd::string::*;

verus! {

/// A chat session.
#[derive(Debug)]
pub struct ChatSession {
    pub version: Option<u32>,
    pub requests: Vec<ChatRequest>,
}

/// A request of a session.
#[derive(Debug)]
pub struct ChatRequest {
    pub request_id: String,
    pub message: ChatMessage,
    pub response: Option<Vec<ResponsePartRaw>>,
    pub variable_data: Option<VariableData>,
}

/// What was asked.
#[derive(Debug, Clone)]
pub struct ChatMessage {
    pub text: String,
}

/// The variables of a request.
#[derive(Debug)]
pub struct VariableData {
    pub variables: Vec<Variable>,
}

/// A variable of a request.
#[derive(Debug)]
pub struct Variable {
    pub kind: String,
    pub value: Json,
    pub name: Option<String>,
}

/// A message about a tool call.
#[derive(Debug, Clone)]
pub struct ToolMessage {
    pub value: String,
}

/// A message that is given as a text or as an object.
#[derive(Debug, Clone)]
pub enum ToolMessageOrString {
    Msg(ToolMessage),
    Str(String),
}

impl ToolMessageOrString {
    /// The text of the message.
    pub open spec fn text(self) -> Seq<char> {
        match self {
            ToolMessageOrString::Msg(m) => m.value@,
            ToolMessageOrString::Str(s) => s@,
        }
    }

    /// The text of the message.
    pub fn value(&self) -> (r: &str)
        ensures
            r@ == self.text(),
    {
        match self {
            ToolMessageOrString::Msg(m) => m.value.as_str(),
            ToolMessageOrString::Str(s) => s.as_str(),
        }
    }
}

/// An edit of a text.
#[derive(Debug)]
pub struct TextEdit {
    pub text: String,
    pub range: Json,
}

/// A part of a response.
#[derive(Debug)]
pub struct ResponsePartRaw {
    pub kind: Option<String>,
    pub value: Option<String>,
    pub invocation_message: Option<ToolMessageOrString>,
    pub past_tense_message: Option<ToolMessageOrString>,
    pub edits: Option<Vec<Vec<TextEdit>>>,
    pub tool_name: Option<String>,
    pub extra: Vec<Member>,
}

/// The kind of a part; one without a kind is text.
pub open spec fn kind_of(part: ResponsePartRaw) -> Seq<char> {
    match part.kind {
        Some(kind) => kind@,
        None => "text"@,
    }
}

/// What a part shows of a tool call: the message after it, else the one before.
pub open spec fn shown_message(part: ResponsePartRaw) -> Option<Seq<char>> {
    match part.past_tense_message {
        Some(m) => Some(m.text()),
        None => match part.invocation_message {
            Some(m) => Some(m.text()),
            None => None,
        },
    }
}

/// The kinds of which nothing is shown.
pub open spec fn is_silent(kind: Seq<char>) -> bool {
    ||| kind == "thinking"@
    ||| kind == "textEditGroup"@
    ||| kind == "undoStop"@
    ||| kind == "prepareToolInvocation"@
    ||| kind == "mcpServersStarting"@
}

/// The text with a message on a line of its own.
pub open spec fn with_line(output: Seq<char>, message: Seq<char>) -> Seq<char> {
    if output.len() > 0 && output.last() != '\n' {
        output + "\n"@ + message + "\n"@
    } else {
        output + message + "\n"@
    }
}

/// The text with a part added.
pub open spec fn with_part(output: Seq<char>, part: ResponsePartRaw) -> Seq<char> {
    let kind = kind_of(part);
    if kind == "toolInvocationSerialized"@ {
        match shown_message(part) {
            Some(message) => with_line(output, message),
            None => output,
        }
    } else if is_silent(kind) {
        output
    } else {
        match part.value {
            Some(value) => output + value@,
            None => output,
        }
    }
}

/// The text of the first `k` parts.
pub open spec fn parts_text(parts: Seq<ResponsePartRaw>, k: nat) -> Seq<char>
    decreases k,
{
    if k == 0 {
        Seq::empty()
    } else {
        with_part(parts_text(parts, (k - 1) as nat), parts[k - 1])
    }
}

fn push_line(output: &mut String, message: &str)
    ensures
        final(output)@ == with_line(old(output)@, message@),
{
    let chars = chars_of(output.as_str());
    let n: usize = chars.len();
    if n > 0 && chars[n - 1] != '\n' {
        output.append("\n");
    }
    output.append(message);
    output.append("\n");
}

impl ChatRequest {
    /// The text of the whole response.
    pub fn reconstruct_full_response(&self) -> (r: String)
        ensures
            r@ == match self.response {
                Some(parts) => parts_text(parts@, parts@.len()),
                None => Seq::empty(),
            },
    {
        match &self.response {
            Some(parts) => ChatRequest::reconstruct_from_parts(parts),
            None => {
                let empty = String::new();
                assert(empty@ =~= Seq::<char>::empty());
                empty
            },
        }
    }

    /// The text of parts of a response: texts as they are, tool messages on
    /// lines of their own.
    pub fn reconstruct_from_parts(parts: &Vec<ResponsePartRaw>) -> (r: String)
        ensures
            r@ == parts_text(parts@, parts@.len()),
    {
        let n: usize = parts.len();
        let mut output = String::new();
        assert(output@ =~= Seq::<char>::empty());
        let mut i: usize = 0;
        while i < n
            invariant
                i <= n,
                n == parts@.len(),
                output@ == parts_text(parts@, i as nat),
            decreases n - i,
        {
            let part = &parts[i];
            let kind = match &part.kind {
                Some(kind) => kind.as_str(),
                None => "text",
            };
            if text_equal(kind, "toolInvocationSerialized") {
                match &part.past_tense_message {
                    Some(m) => push_line(&mut output, m.value()),
                    None => match &part.invocation_message {
                        Some(m) => push_line(&mut output, m.value()),
                        None => {},
                    },
                }
            } else if !(text_equal(kind, "thinking") || text_equal(kind, "textEditGroup")
                || text_equal(kind, "undoStop") || text_equal(kind, "prepareToolInvocation")
                || text_equal(kind, "mcpServersStarting")) {
                match &part.value {
                    Some(value) => output.append(value.as_str()),
                    None => {},
                }
            }
            i += 1;
        }
        output
    }
}

} // verus!
