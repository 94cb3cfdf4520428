use vstd::prelude::*;

verus! {

/// One chat message.
#[derive(Debug, Clone)]
pub struct ChatMessage {
    pub role: String,
    pub content: String,
}

/// `role: content` lines of the messages, joined by newlines.
pub open spec fn joined_lines(m: Seq<ChatMessage>) -> Seq<char>
    decreases m.len(),
{
    if m.len() == 0 {
        Seq::empty()
    } else if m.len() == 1 {
        m[0].role@ + ": "@ + m[0].content@
    } else {
        joined_lines(m.drop_last()) + "\n"@ + m.last().role@ + ": "@ + m.last().content@
    }
}

/// The plain prompt used where a chat template cannot be applied: a
/// `role: content` line per message, then a line `assistant:`.
pub open spec fn plain_prompt(m: Seq<ChatMessage>) -> Seq<char> {
    joined_lines(m) + "\nassistant:"@
}

/// The plain prompt of `messages`.
pub fn fallback_prompt(messages: &Vec<ChatMessage>) -> (r: String)
    ensures
        r@ == plain_prompt(messages@),
{
    let mut out = String::new();
    let mut i: usize = 0;
    while i < messages.len()
        invariant
            i <= messages.len(),
            out@ == joined_lines(messages@.subrange(0, i as int)),
        decreases messages.len() - i,
    {
        let ghost sub = messages@.subrange(0, i + 1);
        assert(sub.drop_last() =~= messages@.subrange(0, i as int));
        if i > 0 {
            out.append("\n");
        }
        out.append(messages[i].role.as_str());
        out.append(": ");
        out.append(messages[i].content.as_str());
        proof {
            if i == 0 {
                assert(out@ =~= joined_lines(sub));
            } else {
                assert(out@ =~= joined_lines(sub));
            }
        }
        i = i + 1;
    }
    assert(messages@.subrange(0, i as int) =~= messages@);
    out.append("\nassistant:");
    out
}

/// The prompt of a chat: what the chat template gave (`rendered`), or the
/// plain prompt where it gave nothing.
pub fn chat_prompt(rendered: Option<String>, messages: &Vec<ChatMessage>) -> (r: String)
    ensures
        r@ == match rendered {
            Some(t) => t@,
            None => plain_prompt(messages@),
        },
{
    match rendered {
        Some(t) => t,
        None => fallback_prompt(messages),
    }
}

} // verus!
