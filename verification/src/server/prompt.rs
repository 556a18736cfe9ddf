//! Chats as prompts, and request identifiers.

use crate::text::{hex_padded, push_hex, same_text};
use vstd::prelude::*;
use vstd::string::*;

verus! {

/// A message of a chat.
#[derive(Debug)]
pub struct Message {
    pub role: String,
    pub content: String,
}

/// The contents of a [`Message`].
#[verifier::ext_equal]
pub struct MessageView {
    pub role: Seq<char>,
    pub content: Seq<char>,
}

impl View for Message {
    type V = MessageView;

    open spec fn view(&self) -> MessageView {
        MessageView { role: self.role@, content: self.content@ }
    }
}

/// One message in the prompt.
pub open spec fn turn(m: MessageView) -> Seq<char> {
    if m.role == "system"@ {
        "<|system|>\n"@ + m.content + "</s>\n"@
    } else if m.role == "user"@ {
        "<|user|>\n"@ + m.content + "</s>\n"@
    } else if m.role == "assistant"@ {
        "<|assistant|>\n"@ + m.content + "</s>\n"@
    } else {
        m.role + ": "@ + m.content + "\n"@
    }
}

/// The first `n` messages in the prompt.
pub open spec fn turns(ms: Seq<Message>, n: nat) -> Seq<char>
    decreases n,
{
    if n == 0 {
        Seq::empty()
    } else {
        turns(ms, (n - 1) as nat) + turn(ms[n - 1]@)
    }
}

/// The prompt of a chat: its messages, and the beginning of the answer.
pub open spec fn prompt_of(ms: Seq<Message>) -> Seq<char> {
    turns(ms, ms.len()) + "<|assistant|>\n"@
}

/// A prompt holds every message, in order: the text of a message stands,
/// unchanged, behind the turns before it and before the turns behind it, and
/// the prompt ends with the beginning of an answer.
pub proof fn law_prompt_holds_messages(ms: Seq<Message>, i: int) -> (k: int)
    requires
        0 <= i < ms.len(),
    ensures
        turns(ms, i as nat).len() <= k,
        k + ms[i].content@.len() <= turns(ms, (i + 1) as nat).len(),
        turns(ms, (i + 1) as nat).len() <= prompt_of(ms).len(),
        prompt_of(ms).subrange(k, k + ms[i].content@.len()) == ms[i].content@,
        prompt_of(ms).subrange(
            prompt_of(ms).len() - "<|assistant|>\n"@.len(),
            prompt_of(ms).len() as int,
        ) == "<|assistant|>\n"@,
{
    let m = ms[i]@;
    let before = turns(ms, i as nat);
    let head = if m.role == "system"@ {
        "<|system|>\n"@
    } else if m.role == "user"@ {
        "<|user|>\n"@
    } else if m.role == "assistant"@ {
        "<|assistant|>\n"@
    } else {
        m.role + ": "@
    };
    let k = before.len() + head.len();
    let here = turns(ms, (i + 1) as nat);
    assert(here == before + turn(m));
    assert(here.subrange(k as int, (k + m.content.len()) as int) =~= m.content);
    lemma_turns_begin(ms, (i + 1) as nat, ms.len());
    let p = prompt_of(ms);
    assert(p.subrange(0, here.len() as int) =~= turns(ms, ms.len()).subrange(0, here.len() as int));
    assert(p.subrange(k as int, (k + m.content.len()) as int) =~= p.subrange(
        0,
        here.len() as int,
    ).subrange(k as int, (k + m.content.len()) as int));
    assert(p.subrange(p.len() - "<|assistant|>\n"@.len(), p.len() as int) =~= "<|assistant|>\n"@);
    k as int
}

/// The turns of fewer messages begin those of more.
proof fn lemma_turns_begin(ms: Seq<Message>, n: nat, all: nat)
    requires
        n <= all,
    ensures
        turns(ms, n).len() <= turns(ms, all).len(),
        turns(ms, all).subrange(0, turns(ms, n).len() as int) == turns(ms, n),
    decreases all,
{
    let a = turns(ms, n);
    if n < all {
        let before = turns(ms, (all - 1) as nat);
        lemma_turns_begin(ms, n, (all - 1) as nat);
        assert(turns(ms, all).subrange(0, a.len() as int) =~= before.subrange(0, a.len() as int));
    } else {
        assert(a.subrange(0, a.len() as int) =~= a);
    }
}

/// The prompt of a chat.
pub fn format_messages(messages: &Vec<Message>) -> (prompt: String)
    ensures
        prompt@ == prompt_of(messages@),
{
    let mut prompt = String::new();
    for i in 0..messages.len()
        invariant
            prompt@ == turns(messages@, i as nat),
    {
        let m = &messages[i];
        let ghost before = prompt@;
        if same_text(m.role.as_str(), "system") {
            prompt.append("<|system|>\n");
            prompt.append(m.content.as_str());
            prompt.append("</s>\n");
        } else if same_text(m.role.as_str(), "user") {
            prompt.append("<|user|>\n");
            prompt.append(m.content.as_str());
            prompt.append("</s>\n");
        } else if same_text(m.role.as_str(), "assistant") {
            prompt.append("<|assistant|>\n");
            prompt.append(m.content.as_str());
            prompt.append("</s>\n");
        } else {
            prompt.append(m.role.as_str());
            prompt.append(": ");
            prompt.append(m.content.as_str());
            prompt.append("\n");
        }
        proof {
            assert(prompt@ =~= before + turn(m@));
        }
    }
    prompt.append("<|assistant|>\n");
    prompt
}

/// The state that identifiers start from.
pub const FIRST_STATE: u64 = 0x9ABCDEF12345678;

/// The state behind a state: three shifts, each folded back in.
pub open spec fn next_state(x: u64) -> u64 {
    let a = x ^ (x << 13);
    let b = a ^ (a >> 7);
    b ^ (b << 17)
}

/// The next identifier: sixteen hexadecimal digits of the next state.
pub fn fast_rand_id(state: &mut u64) -> (id: String)
    ensures
        *final(state) == next_state(*old(state)),
        id@ == hex_padded(next_state(*old(state)) as nat, 16),
{
    let mut x: u64 = *state;
    x = x ^ (x << 13);
    x = x ^ (x >> 7);
    x = x ^ (x << 17);
    *state = x;
    let mut id = String::new();
    push_hex(&mut id, x, 16);
    proof {
        assert(id@ =~= hex_padded(x as nat, 16));
    }
    id
}

/// Different states have different successors, so that an identifier comes
/// again only when all that follows it does.
pub proof fn law_states_differ(x: u64, y: u64)
    requires
        next_state(x) == next_state(y),
    ensures
        x == y,
{
    let (a, c) = (x ^ (x << 13), y ^ (y << 13));
    let (b, d) = (a ^ (a >> 7), c ^ (c >> 7));
    lemma_left_17(b, d);
    lemma_right_7(a, c);
    lemma_left_13(x, y);
}

proof fn lemma_left_17(x: u64, y: u64)
    requires
        x ^ (x << 17) == y ^ (y << 17),
    ensures
        x == y,
{
    let u = x ^ (x << 17);
    let v = y ^ (y << 17);
    assert(u ^ (u << 17) ^ (u << 34) ^ (u << 51) == x) by (bit_vector)
        requires
            u == x ^ (x << 17),
    ;
    assert(v ^ (v << 17) ^ (v << 34) ^ (v << 51) == y) by (bit_vector)
        requires
            v == y ^ (y << 17),
    ;
}

proof fn lemma_left_13(x: u64, y: u64)
    requires
        x ^ (x << 13) == y ^ (y << 13),
    ensures
        x == y,
{
    let u = x ^ (x << 13);
    let v = y ^ (y << 13);
    assert(u ^ (u << 13) ^ (u << 26) ^ (u << 39) ^ (u << 52) == x) by (bit_vector)
        requires
            u == x ^ (x << 13),
    ;
    assert(v ^ (v << 13) ^ (v << 26) ^ (v << 39) ^ (v << 52) == y) by (bit_vector)
        requires
            v == y ^ (y << 13),
    ;
}

proof fn lemma_right_7(x: u64, y: u64)
    requires
        x ^ (x >> 7) == y ^ (y >> 7),
    ensures
        x == y,
{
    let u = x ^ (x >> 7);
    let v = y ^ (y >> 7);
    assert(u ^ (u >> 7) ^ (u >> 14) ^ (u >> 21) ^ (u >> 28) ^ (u >> 35) ^ (u >> 42) ^ (u >> 49) ^ (u
        >> 56) ^ (u >> 63) == x) by (bit_vector)
        requires
            u == x ^ (x >> 7),
    ;
    assert(v ^ (v >> 7) ^ (v >> 14) ^ (v >> 21) ^ (v >> 28) ^ (v >> 35) ^ (v >> 42) ^ (v >> 49) ^ (v
        >> 56) ^ (v >> 63) == y) by (bit_vector)
        requires
            v == y ^ (y >> 7),
    ;
}

/// The generator does not get stuck at zero.
pub proof fn law_state_stays_nonzero(x: u64)
    requires
        x != 0,
    ensures
        next_state(x) != 0,
{
    assert(next_state(0) == 0) by {
        assert((0u64 ^ (0u64 << 13)) ^ ((0u64 ^ (0u64 << 13)) >> 7) ^ (((0u64 ^ (0u64 << 13)) ^ ((0u64
            ^ (0u64 << 13)) >> 7)) << 17) == 0u64) by (bit_vector);
    }
    if next_state(x) == 0 {
        law_states_differ(x, 0);
    }
}

/// Different states have different identifiers.
pub proof fn law_ids_differ(x: u64, y: u64)
    requires
        hex_padded(next_state(x) as nat, 16) == hex_padded(next_state(y) as nat, 16),
    ensures
        x == y,
{
    assert(crate::text::pow16(16) > u64::MAX) by {
        reveal_with_fuel(crate::text::pow16, 17);
    }
    crate::text::law_hex_padded_injective(next_state(x) as nat, next_state(y) as nat, 16);
    law_states_differ(x, y);
}

} // verus!
