//! Chat prompts.

use vstd::prelude::*;

use crate::text::same_text;

verus! {

/// A message of a chat.
#[derive(Debug)]
pub struct ChatMessage {
    pub role: String,
    pub content: String,
}

/// What a message puts in the prompt. A role that is not known puts in nothing.
pub open spec fn turn(role: Seq<char>, content: Seq<char>) -> Seq<char> {
    if role == "system"@ {
        "<|system|>\n"@ + content + "</s>\n"@
    } else if role == "user"@ {
        "<|user|>\n"@ + content + "</s>\n"@
    } else if role == "assistant"@ {
        "<|assistant|>\n"@ + content + "</s>\n"@
    } else {
        Seq::empty()
    }
}

/// What messages put in the prompt.
pub open spec fn turns(messages: Seq<ChatMessage>) -> Seq<char>
    decreases messages.len(),
{
    if messages.len() == 0 {
        Seq::empty()
    } else {
        turns(messages.drop_last()) + turn(messages.last().role@, messages.last().content@)
    }
}

/// The prompt of a chat: its turns, and the opening of the answer.
pub fn format_chat_prompt(messages: &[ChatMessage]) -> (r: String)
    ensures
        r@ == turns(messages@) + "<|assistant|>\n"@,
{
    let mut prompt = String::new();
    let mut i: usize = 0;
    assert(messages@.take(0) =~= Seq::<ChatMessage>::empty());
    while i < messages.len()
        invariant
            i <= messages@.len(),
            prompt@ == turns(messages@.take(i as int)),
        decreases messages@.len() - i,
    {
        let ghost before = prompt@;
        let msg = &messages[i];
        proof {
            assert(messages@.take(i + 1).drop_last() =~= messages@.take(i as int));
            assert(messages@.take(i + 1).last() == messages@[i as int]);
        }
        if same_text(msg.role.as_str(), "system") {
            prompt.append("<|system|>\n");
            prompt.append(msg.content.as_str());
            prompt.append("</s>\n");
        } else if same_text(msg.role.as_str(), "user") {
            prompt.append("<|user|>\n");
            prompt.append(msg.content.as_str());
            prompt.append("</s>\n");
        } else if same_text(msg.role.as_str(), "assistant") {
            prompt.append("<|assistant|>\n");
            prompt.append(msg.content.as_str());
            prompt.append("</s>\n");
        }
        assert(prompt@ =~= before + turn(msg.role@, msg.content@));
        i += 1;
    }
    assert(messages@.take(i as int) =~= messages@);
    prompt.append("<|assistant|>\n");
    prompt
}

/// The prompt grows by one turn with each message.
pub proof fn law_prompt_appends(messages: Seq<ChatMessage>, m: ChatMessage)
    ensures
        turns(messages.push(m)) == turns(messages) + turn(m.role@, m.content@),
{
    assert(messages.push(m).drop_last() =~= messages);
}

/// Whether a message has one of the roles of a chat.
pub open spec fn known_role(role: Seq<char>) -> bool {
    role == "system"@ || role == "user"@ || role == "assistant"@
}

/// A message stands in the prompt under the mark of its own role, its text unchanged, and is
/// closed; a message of another role leaves nothing.
pub proof fn law_turn_has_its_role(role: Seq<char>, content: Seq<char>)
    ensures
        known_role(role) ==> turn(role, content) == "<|"@ + role + "|>\n"@ + content + "</s>\n"@,
        !known_role(role) ==> turn(role, content).len() == 0,
{
    reveal_strlit("<|");
    reveal_strlit("|>\n");
    reveal_strlit("system");
    reveal_strlit("user");
    reveal_strlit("assistant");
    reveal_strlit("<|system|>\n");
    reveal_strlit("<|user|>\n");
    reveal_strlit("<|assistant|>\n");
    assert("<|"@ + "system"@ + "|>\n"@ =~= "<|system|>\n"@);
    assert("<|"@ + "user"@ + "|>\n"@ =~= "<|user|>\n"@);
    assert("<|"@ + "assistant"@ + "|>\n"@ =~= "<|assistant|>\n"@);
}

/// The prompt of a chat is the prompts of its two parts one after the other, the mark of the
/// answer at the end alone.
pub proof fn law_prompt_splits(
    front: &[ChatMessage],
    back: &[ChatMessage],
    all: &[ChatMessage],
    a: String,
    b: String,
    r: String,
)
    requires
        call_ensures(format_chat_prompt, (front,), a),
        call_ensures(format_chat_prompt, (back,), b),
        call_ensures(format_chat_prompt, (all,), r),
        all@ == front@ + back@,
    ensures
        a@.skip(a@.len() - 14) == "<|assistant|>\n"@,
        r@ == a@.take(a@.len() - 14) + b@,
{
    lemma_turns_add(front@, back@);
    reveal_strlit("<|assistant|>\n");
    assert("<|assistant|>\n"@.len() == 14);
    assert(a@.take(a@.len() - 14) =~= turns(front@));
    assert(a@.skip(a@.len() - 14) =~= "<|assistant|>\n"@);
    assert(r@ =~= turns(front@) + b@);
}

proof fn lemma_turns_add(a: Seq<ChatMessage>, b: Seq<ChatMessage>)
    ensures
        turns(a + b) == turns(a) + turns(b),
    decreases b.len(),
{
    if b.len() == 0 {
        assert(a + b =~= a);
        assert(turns(a) + turns(b) =~= turns(a));
    } else {
        lemma_turns_add(a, b.drop_last());
        assert((a + b).drop_last() =~= a + b.drop_last());
        assert(turns(a + b) =~= turns(a) + turns(b));
    }
}

/// A chat of one message is its turn and the mark of the answer; a chat of none is the mark.
pub proof fn law_prompt_of_one(messages: &[ChatMessage], r: String)
    requires
        call_ensures(format_chat_prompt, (messages,), r),
        messages@.len() <= 1,
    ensures
        messages@.len() == 0 ==> r@ == "<|assistant|>\n"@,
        messages@.len() == 1 && known_role(messages@[0].role@) ==> r@ == "<|"@ + messages@[0].role@
            + "|>\n"@ + messages@[0].content@ + "</s>\n"@ + "<|assistant|>\n"@,
{
    if messages@.len() == 0 {
        assert(r@ =~= "<|assistant|>\n"@);
    } else {
        law_turn_has_its_role(messages@[0].role@, messages@[0].content@);
        reveal_with_fuel(turns, 2);
        assert(messages@.drop_last() =~= Seq::empty());
        assert(turns(messages@) =~= turn(messages@[0].role@, messages@[0].content@));
    }
}

} // verus!
