//! The chat-completion request and response types, and the transforms
//! applied to them for providers with special handling needs.

use crate::text::str_eq;
use vstd::prelude::*;
use vstd::string::StringExecFns;

verus! {

/// A message in a chat conversation.
#[derive(Debug)]
pub struct Message {
    /// Role: "system", "user", "assistant", or "tool".
    pub role: String,

    /// Message content: a plain string or multimodal parts.
    pub content: MessageContent,

    /// Optional name of the message author.
    pub name: Option<String>,

    /// Tool calls made by the assistant.
    pub tool_calls: Option<Vec<ToolCall>>,

    /// Tool call this message answers (for tool-role messages).
    pub tool_call_id: Option<String>,
}

/// Message content: a plain string, or an array of parts for
/// multimodal messages.
#[derive(Debug)]
pub enum MessageContent {
    /// Simple string content.
    Text(String),

    /// Array of content parts.
    Parts(Vec<ContentPart>),
}

/// A part of a multimodal message.
#[derive(Debug)]
pub enum ContentPart {
    /// Text content.
    Text { text: String },

    /// Image content.
    ImageUrl { image_url: ImageUrl },
}

/// An image reference in a multimodal message.
#[derive(Debug)]
pub struct ImageUrl {
    /// URL or data URL of the image.
    pub url: String,

    /// Optional detail level.
    pub detail: Option<String>,
}

/// A tool call made by the assistant.
#[derive(Debug)]
pub struct ToolCall {
    /// Unique id of this tool call.
    pub id: String,

    /// Kind of tool call (usually "function").
    pub call_type: String,

    /// The function invoked.
    pub function: FunctionCall,
}

/// The function named by a tool call, with its argument text.
#[derive(Debug)]
pub struct FunctionCall {
    /// Name of the function.
    pub name: String,

    /// Arguments as JSON text.
    pub arguments: String,
}

/// The text of a sequence of content parts: the text parts concatenated
/// in order, image parts contributing nothing.
pub open spec fn text_of_parts(parts: Seq<ContentPart>) -> Seq<char>
    decreases parts.len(),
{
    if parts.len() == 0 {
        Seq::empty()
    } else {
        text_of_parts(parts.drop_last()) + (match parts.last() {
            ContentPart::Text { text } => text@,
            ContentPart::ImageUrl { .. } => Seq::empty(),
        })
    }
}

/// The text a content value collapses to.
pub open spec fn spec_content_text(c: MessageContent) -> Seq<char> {
    match c {
        MessageContent::Text(s) => s@,
        MessageContent::Parts(ps) => text_of_parts(ps@),
    }
}

/// Whether a content value counts as empty: an empty string, or an
/// empty list of parts.
pub open spec fn spec_content_empty(c: MessageContent) -> bool {
    match c {
        MessageContent::Text(s) => s@.len() == 0,
        MessageContent::Parts(ps) => ps@.len() == 0,
    }
}

impl MessageContent {
    /// Collapse the content to one string, concatenating text parts.
    pub fn to_string_content(&self) -> (r: String)
        ensures
            r@ == spec_content_text(*self),
    {
        match self {
            MessageContent::Text(s) => s.clone(),
            MessageContent::Parts(parts) => {
                let ghost ps = parts@;
                let mut acc = String::new();
                let n = parts.len();
                let mut i: usize = 0;
                while i < n
                    invariant
                        n == ps.len(),
                        ps == parts@,
                        i <= n,
                        acc@ == text_of_parts(ps.subrange(0, i as int)),
                    decreases n - i,
                {
                    proof {
                        assert(ps.subrange(0, i + 1).drop_last() =~= ps.subrange(0, i as int));
                        assert(ps.subrange(0, i + 1).last() == ps[i as int]);
                    }
                    match &parts[i] {
                        ContentPart::Text { text } => {
                            acc.append(text.as_str());
                        }
                        ContentPart::ImageUrl { .. } => {
                            proof {
                                assert(acc@ + Seq::<char>::empty() =~= acc@);
                            }
                        }
                    }
                    i += 1;
                }
                proof {
                    assert(ps.subrange(0, n as int) =~= ps);
                }
                acc
            }
        }
    }

    /// Whether the content is empty.
    pub fn is_empty(&self) -> (r: bool)
        ensures
            r == spec_content_empty(*self),
    {
        match self {
            MessageContent::Text(s) => s.unicode_len() == 0,
            MessageContent::Parts(parts) => parts.len() == 0,
        }
    }
}

/// A chat completion request: the model, the conversation, sampling
/// bounds, tool definitions, and provider-specific passthrough values.
#[derive(Debug)]
pub struct CompletionRequest {
    /// Model identifier sent to the provider.
    pub model: String,

    /// Messages in the conversation.
    pub messages: Vec<Message>,

    /// Maximum tokens to generate.
    pub max_tokens: Option<u32>,

    /// Maximum completion tokens (newer parameter name).
    pub max_completion_tokens: Option<u32>,

    /// Stop sequences.
    pub stop: Option<Vec<String>>,

    /// Whether to stream the response.
    pub stream: Option<bool>,

    /// Tool definitions.
    pub tools: Option<Vec<Tool>>,

    /// Tool choice.
    pub tool_choice: Option<ToolChoice>,

    /// Additional provider-specific fields, carried through opaquely.
    pub extra: Vec<(String, serde_json::Value)>,
}

impl CompletionRequest {
    /// A request for `model` over `messages`, with nothing else set.
    pub fn new(model: String, messages: Vec<Message>) -> (r: CompletionRequest)
        ensures
            r.model == model,
            r.messages == messages,
            r.max_tokens is None,
            r.max_completion_tokens is None,
            r.stop is None,
            r.stream is None,
            r.tools is None,
            r.tool_choice is None,
            r.extra@.len() == 0,
    {
        CompletionRequest {
            model,
            messages,
            max_tokens: None,
            max_completion_tokens: None,
            stop: None,
            stream: None,
            tools: None,
            tool_choice: None,
            extra: Vec::new(),
        }
    }

    /// The same request with a token limit.
    pub fn with_max_tokens(self, max_tokens: u32) -> (r: CompletionRequest)
        ensures
            r == (CompletionRequest { max_tokens: Some(max_tokens), ..self }),
    {
        CompletionRequest { max_tokens: Some(max_tokens), ..self }
    }

    /// The same request with streaming switched on or off.
    pub fn with_stream(self, stream: bool) -> (r: CompletionRequest)
        ensures
            r == (CompletionRequest { stream: Some(stream), ..self }),
    {
        CompletionRequest { stream: Some(stream), ..self }
    }

    /// Collapse multimodal content arrays to plain strings, for
    /// providers that do not accept arrays: a message with parts gets
    /// their concatenated text; every other message is untouched.
    pub fn convert_content_to_strings(&mut self)
        ensures
            final(self).model == old(self).model,
            final(self).max_tokens == old(self).max_tokens,
            final(self).max_completion_tokens == old(self).max_completion_tokens,
            final(self).stop == old(self).stop,
            final(self).stream == old(self).stream,
            final(self).tools == old(self).tools,
            final(self).tool_choice == old(self).tool_choice,
            final(self).extra == old(self).extra,
            final(self).messages@.len() == old(self).messages@.len(),
            forall|j: int|
                0 <= j < old(self).messages@.len() ==> {
                    let m = #[trigger] old(self).messages@[j];
                    let m2 = final(self).messages@[j];
                    if m.content is Parts {
                        &&& m2.role == m.role
                        &&& m2.name == m.name
                        &&& m2.tool_calls == m.tool_calls
                        &&& m2.tool_call_id == m.tool_call_id
                        &&& m2.content matches MessageContent::Text(s) && s@ == spec_content_text(
                            m.content,
                        )
                    } else {
                        m2 == m
                    }
                },
    {
        let ghost orig = self.messages@;
        let n = self.messages.len();
        let mut i: usize = 0;
        while i < n
            invariant
                n == orig.len(),
                self.model == old(self).model,
                self.max_tokens == old(self).max_tokens,
                self.max_completion_tokens == old(self).max_completion_tokens,
                self.stop == old(self).stop,
                self.stream == old(self).stream,
                self.tools == old(self).tools,
                self.tool_choice == old(self).tool_choice,
                self.extra == old(self).extra,
                orig == old(self).messages@,
                self.messages@.len() == n,
                i <= n,
                forall|j: int| i <= j < n ==> #[trigger] self.messages@[j] == orig[j],
                forall|j: int|
                    0 <= j < i ==> {
                        let m = #[trigger] orig[j];
                        let m2 = self.messages@[j];
                        if m.content is Parts {
                            &&& m2.role == m.role
                            &&& m2.name == m.name
                            &&& m2.tool_calls == m.tool_calls
                            &&& m2.tool_call_id == m.tool_call_id
                            &&& m2.content matches MessageContent::Text(s) && s@
                                == spec_content_text(m.content)
                        } else {
                            m2 == m
                        }
                    },
            decreases n - i,
        {
            let ghost pre = self.messages@;
            let needs = matches!(&self.messages[i].content, MessageContent::Parts(_));
            if needs {
                let m = self.messages.remove(i);
                let txt = m.content.to_string_content();
                let m2 = Message { content: MessageContent::Text(txt), ..m };
                self.messages.insert(i, m2);
                proof {
                    assert forall|j: int| 0 <= j < n && j != i implies #[trigger] self.messages@[j]
                        == pre[j] by {
                        if j < i {
                            assert(pre.remove(i as int)[j] == pre[j]);
                        } else {
                            assert(pre.remove(i as int)[j - 1] == pre[j]);
                        }
                    }
                }
            }
            i += 1;
        }
    }

    /// Give assistant messages that carry tool calls but no content a
    /// single-space text body, for providers that reject empty content
    /// there; every other message is untouched.
    pub fn add_text_to_tool_calls(&mut self)
        ensures
            final(self).model == old(self).model,
            final(self).max_tokens == old(self).max_tokens,
            final(self).max_completion_tokens == old(self).max_completion_tokens,
            final(self).stop == old(self).stop,
            final(self).stream == old(self).stream,
            final(self).tools == old(self).tools,
            final(self).tool_choice == old(self).tool_choice,
            final(self).extra == old(self).extra,
            final(self).messages@.len() == old(self).messages@.len(),
            forall|j: int|
                0 <= j < old(self).messages@.len() ==> {
                    let m = #[trigger] old(self).messages@[j];
                    let m2 = final(self).messages@[j];
                    if m.role@ == "assistant"@ && m.tool_calls is Some && spec_content_empty(
                        m.content,
                    ) {
                        &&& m2.role == m.role
                        &&& m2.name == m.name
                        &&& m2.tool_calls == m.tool_calls
                        &&& m2.tool_call_id == m.tool_call_id
                        &&& m2.content matches MessageContent::Text(s) && s@ == " "@
                    } else {
                        m2 == m
                    }
                },
    {
        let ghost orig = self.messages@;
        let n = self.messages.len();
        let mut i: usize = 0;
        while i < n
            invariant
                n == orig.len(),
                self.model == old(self).model,
                self.max_tokens == old(self).max_tokens,
                self.max_completion_tokens == old(self).max_completion_tokens,
                self.stop == old(self).stop,
                self.stream == old(self).stream,
                self.tools == old(self).tools,
                self.tool_choice == old(self).tool_choice,
                self.extra == old(self).extra,
                orig == old(self).messages@,
                self.messages@.len() == n,
                i <= n,
                forall|j: int| i <= j < n ==> #[trigger] self.messages@[j] == orig[j],
                forall|j: int|
                    0 <= j < i ==> {
                        let m = #[trigger] orig[j];
                        let m2 = self.messages@[j];
                        if m.role@ == "assistant"@ && m.tool_calls is Some && spec_content_empty(
                            m.content,
                        ) {
                            &&& m2.role == m.role
                            &&& m2.name == m.name
                            &&& m2.tool_calls == m.tool_calls
                            &&& m2.tool_call_id == m.tool_call_id
                            &&& m2.content matches MessageContent::Text(s) && s@ == " "@
                        } else {
                            m2 == m
                        }
                    },
            decreases n - i,
        {
            let ghost pre = self.messages@;
            let needs = str_eq(self.messages[i].role.as_str(), "assistant")
                && self.messages[i].tool_calls.is_some() && self.messages[i].content.is_empty();
            if needs {
                let m = self.messages.remove(i);
                let m2 = Message { content: MessageContent::Text(String::from_str(" ")), ..m };
                self.messages.insert(i, m2);
                proof {
                    assert forall|j: int| 0 <= j < n && j != i implies #[trigger] self.messages@[j]
                        == pre[j] by {
                        if j < i {
                            assert(pre.remove(i as int)[j] == pre[j]);
                        } else {
                            assert(pre.remove(i as int)[j - 1] == pre[j]);
                        }
                    }
                }
            }
            i += 1;
        }
    }
}

/// A tool the model may call.
#[derive(Debug)]
pub struct Tool {
    /// Kind of tool (usually "function").
    pub tool_type: String,

    /// The function offered.
    pub function: FunctionDefinition,
}

/// A function definition offered to the model.
#[derive(Debug)]
pub struct FunctionDefinition {
    /// Function name.
    pub name: String,

    /// Human-readable description.
    pub description: Option<String>,

    /// JSON schema of the parameters, carried through opaquely.
    pub parameters: Option<serde_json::Value>,
}

/// How the model should choose among tools.
#[derive(Debug)]
pub enum ToolChoice {
    /// One of "none", "auto", "required".
    Mode(String),

    /// A specific function to call.
    Function { choice_type: String, function: ToolChoiceFunction },
}

/// A specific function named by a tool choice.
#[derive(Debug)]
pub struct ToolChoiceFunction {
    /// The function's name.
    pub name: String,
}

/// A chat completion response.
#[derive(Debug)]
pub struct CompletionResponse {
    /// Response id.
    pub id: String,

    /// Object type.
    pub object: String,

    /// Creation timestamp.
    pub created: u64,

    /// Model that answered.
    pub model: String,

    /// Response choices.
    pub choices: Vec<Choice>,

    /// Token usage.
    pub usage: Option<Usage>,
}

/// A choice in a completion response.
#[derive(Debug)]
pub struct Choice {
    /// Choice index.
    pub index: u32,

    /// The message.
    pub message: Message,

    /// Finish reason.
    pub finish_reason: Option<String>,
}

/// Token usage totals.
#[derive(Debug, Clone, Copy, PartialEq, Eq, Structural)]
pub struct Usage {
    /// Tokens in the prompt.
    pub prompt_tokens: u32,

    /// Tokens in the completion.
    pub completion_tokens: u32,

    /// Total tokens.
    pub total_tokens: u32,
}

impl CompletionResponse {
    /// The first choice's content collapsed to a string, when a choice
    /// exists.
    pub fn content(&self) -> (r: Option<String>)
        ensures
            r is Some <==> self.choices@.len() > 0,
            r matches Some(s) ==> s@ == spec_content_text(self.choices@[0].message.content),
    {
        if self.choices.len() == 0 {
            None
        } else {
            Some(self.choices[0].message.content.to_string_content())
        }
    }

    /// The first choice's tool calls, when a choice exists and it
    /// carries any.
    pub fn tool_calls(&self) -> (r: Option<&Vec<ToolCall>>)
        ensures
            r is Some <==> self.choices@.len() > 0 && self.choices@[0].message.tool_calls is Some,
            r matches Some(v) ==> Some(*v) == self.choices@[0].message.tool_calls,
    {
        if self.choices.len() == 0 {
            None
        } else {
            match &self.choices[0].message.tool_calls {
                Some(v) => Some(v),
                None => None,
            }
        }
    }
}

} // verus!
