//! Repair of text fragments in which an escaped newline was split across
//! two consecutive stream chunks.

use crate::text::{ends_with, ends_with_char, push_char};
use vstd::prelude::*;

verus! {

/// The character at the end of a fragment that defers its output until the
/// next fragment arrives.
pub const TRIGGER: char = '\'';

/// `text` with every backslash that is directly followed by the letter `n`
/// replaced, together with that letter, by one newline character.
pub open spec fn collapsed(text: Seq<char>) -> Seq<char>
    decreases text.len(),
{
    if text.len() < 2 {
        text
    } else if text[0] == '\\' && text[1] == 'n' {
        seq!['\n'] + collapsed(text.skip(2))
    } else {
        seq![text[0]] + collapsed(text.skip(1))
    }
}

/// The backslash that has been read but not yet written, if any.
spec fn held_back(held: bool) -> Seq<char> {
    if held {
        seq!['\\']
    } else {
        Seq::empty()
    }
}

/// A character other than the backslash passes through unchanged.
proof fn lemma_collapsed_plain_head(c: char, rest: Seq<char>)
    requires
        c != '\\',
    ensures
        collapsed(seq![c] + rest) == seq![c] + collapsed(rest),
{
    let whole = seq![c] + rest;
    if rest.len() == 0 {
        assert(whole =~= seq![c]);
        assert(collapsed(rest) =~= Seq::<char>::empty());
        assert(seq![c] + collapsed(rest) =~= seq![c]);
    } else {
        assert(whole.skip(1) =~= rest);
    }
}

/// A backslash in front of an `n` makes a newline; in front of anything
/// else it stays.
proof fn lemma_collapsed_backslash_head(c: char, rest: Seq<char>)
    ensures
        c == 'n' ==> collapsed(seq!['\\'] + (seq![c] + rest)) == seq!['\n'] + collapsed(rest),
        c != 'n' ==> collapsed(seq!['\\'] + (seq![c] + rest)) == seq!['\\'] + collapsed(
            seq![c] + rest,
        ),
{
    let whole = seq!['\\'] + (seq![c] + rest);
    assert(whole[0] == '\\');
    assert(whole[1] == c);
    assert(whole.skip(2) =~= rest);
    assert(whole.skip(1) =~= seq![c] + rest);
}

/// Replaces every backslash that is directly followed by the letter `n`,
/// together with that letter, by one newline character, reading the text
/// once from left to right.
pub fn collapse_escapes(text: &str) -> (out: String)
    ensures
        out@ == collapsed(text@),
{
    let mut out = String::new();
    let mut held = false;
    proof {
        assert(text@.skip(0) =~= text@);
        assert(Seq::<char>::empty() + text@ =~= text@);
        assert(out@ + collapsed(text@) =~= collapsed(text@));
    }
    for c in iter: text.chars()
        invariant
            iter.seq() == text@,
            out@ + collapsed(held_back(held) + text@.skip(iter.index())) == collapsed(text@),
    {
        let ghost before = out@;
        let ghost rest = text@.skip(iter.index() + 1);
        proof {
            assert(text@.skip(iter.index()) =~= seq![c] + rest);
            assert(Seq::<char>::empty() + (seq![c] + rest) =~= seq![c] + rest);
            assert(Seq::<char>::empty() + rest =~= rest);
            lemma_collapsed_backslash_head(c, rest);
            if c != '\\' {
                lemma_collapsed_plain_head(c, rest);
            }
        }
        if held {
            if c == 'n' {
                push_char(&mut out, '\n');
                held = false;
                assert(out@ + collapsed(rest) =~= before + (seq!['\n'] + collapsed(rest)));
            } else {
                push_char(&mut out, '\\');
                if c != '\\' {
                    push_char(&mut out, c);
                    held = false;
                    assert(out@ + collapsed(rest) =~= before + (seq!['\\'] + (seq![c] + collapsed(
                        rest,
                    ))));
                } else {
                    assert(out@ + collapsed(seq!['\\'] + rest) =~= before + (seq!['\\']
                        + collapsed(seq![c] + rest)));
                }
            }
        } else if c == '\\' {
            held = true;
        } else {
            push_char(&mut out, c);
            assert(out@ + collapsed(rest) =~= before + (seq![c] + collapsed(rest)));
        }
    }
    proof {
        assert(text@.skip(text@.len() as int) =~= Seq::<char>::empty());
        assert(held_back(held) + Seq::<char>::empty() =~= held_back(held));
        assert(out@ + Seq::<char>::empty() =~= out@);
    }
    if held {
        push_char(&mut out, '\\');
    }
    out
}

/// The buffer and the emitted text after one fragment: a fragment that ends
/// with the trigger is held back; a fragment that arrives while text is held
/// back is joined to it, the escapes of the whole are collapsed and the
/// buffer is emptied; any other fragment passes through unchanged.
pub open spec fn merged(buffer: Seq<char>, patch: Seq<char>) -> (Seq<char>, Seq<char>) {
    if ends_with(patch, TRIGGER) {
        (buffer + patch, Seq::empty())
    } else if buffer.len() > 0 {
        (Seq::empty(), collapsed(buffer + patch))
    } else {
        (buffer, patch)
    }
}

/// Takes the next raw fragment of a stream and returns the text to emit for
/// it, which is empty while output is deferred. `buffer` carries the
/// held-back text from one call to the next and starts out empty.
pub fn merge_newline_split_across_patches(buffer: &mut String, patch: &str) -> (emitted: String)
    ensures
        (final(buffer)@, emitted@) == merged(old(buffer)@, patch@),
{
    if ends_with_char(patch, TRIGGER) {
        buffer.append(patch);
        String::new()
    } else if !buffer.as_str().is_empty() {
        buffer.append(patch);
        let result = collapse_escapes(buffer.as_str());
        *buffer = String::new();
        result
    } else {
        patch.to_owned()
    }
}

/// Whether a backslash at the end of `left` meets an `n` at the start of
/// `right`, so that joining the two creates an escape neither holds alone.
pub open spec fn seam_escaped(left: Seq<char>, right: Seq<char>) -> bool {
    ends_with(left, '\\') && right.len() > 0 && right[0] == 'n'
}

/// Whether a backslash directly followed by the letter `n` occurs in `text`.
pub open spec fn has_escape(text: Seq<char>) -> bool {
    exists|i: int| 0 <= i && i + 1 < text.len() && text[i] == '\\' && #[trigger] text[i + 1] == 'n'
}

/// Collapsing distributes over a concatenation whose seam makes no escape.
pub proof fn lemma_collapsed_concat(left: Seq<char>, right: Seq<char>)
    requires
        !seam_escaped(left, right),
    ensures
        collapsed(left + right) == collapsed(left) + collapsed(right),
    decreases left.len(),
{
    let whole = left + right;
    if left.len() == 0 {
        assert(whole =~= right);
        assert(collapsed(left) + collapsed(right) =~= collapsed(right));
    } else if left.len() == 1 {
        let c = left[0];
        assert(left =~= seq![c]);
        if c != '\\' {
            lemma_collapsed_plain_head(c, right);
        } else if right.len() == 0 {
            assert(whole =~= left);
            assert(collapsed(left) + collapsed(right) =~= collapsed(left));
        } else {
            let d = right[0];
            assert(right =~= seq![d] + right.skip(1));
            lemma_collapsed_backslash_head(d, right.skip(1));
        }
    } else if left[0] == '\\' && left[1] == 'n' {
        assert(whole.skip(2) =~= left.skip(2) + right);
        if left.len() > 2 {
            assert(left.skip(2).last() == left.last());
        }
        lemma_collapsed_concat(left.skip(2), right);
        assert(collapsed(whole) =~= collapsed(left) + collapsed(right));
    } else {
        assert(whole.skip(1) =~= left.skip(1) + right);
        assert(left.skip(1).last() == left.last());
        lemma_collapsed_concat(left.skip(1), right);
        assert(collapsed(whole) =~= collapsed(left) + collapsed(right));
    }
}

/// Where the seam makes an escape, it becomes one newline between the
/// collapsed remainders.
pub proof fn lemma_collapsed_across_seam(left: Seq<char>, right: Seq<char>)
    requires
        seam_escaped(left, right),
    ensures
        collapsed(left + right) == collapsed(left.drop_last()) + seq!['\n'] + collapsed(
            right.skip(1),
        ),
{
    let front = left.drop_last();
    let back = right.skip(1);
    let middle = seq!['\\'] + (seq!['n'] + back);
    assert(left + right =~= front + middle);
    lemma_collapsed_concat(front, middle);
    lemma_collapsed_backslash_head('n', back);
    assert(collapsed(front) + (seq!['\n'] + collapsed(back)) =~= collapsed(front) + seq!['\n']
        + collapsed(back));
}

/// Collapsing changes neither whether a text is empty, nor whether it
/// starts with `n`, nor whether it ends with a backslash; and it commutes
/// with removing such a first or last character.
pub proof fn lemma_collapsed_ends(text: Seq<char>)
    ensures
        collapsed(text).len() == 0 <==> text.len() == 0,
        text.len() > 0 ==> (collapsed(text)[0] == 'n' <==> text[0] == 'n'),
        ends_with(collapsed(text), '\\') <==> ends_with(text, '\\'),
        text.len() > 0 && text[0] == 'n' ==> collapsed(text).skip(1) == collapsed(text.skip(1)),
        ends_with(text, '\\') ==> collapsed(text).drop_last() == collapsed(text.drop_last()),
{
    if text.len() > 0 {
        let head = text[0];
        let tail = text.skip(1);
        assert(text =~= seq![head] + tail);
        if head == 'n' {
            lemma_collapsed_plain_head(head, tail);
            assert((seq![head] + collapsed(tail)).skip(1) =~= collapsed(tail));
        }
        let init = text.drop_last();
        let last = text.last();
        assert(text =~= init + seq![last]);
        assert(collapsed(seq![last]) =~= seq![last]);
        if seam_escaped(init, seq![last]) {
            lemma_collapsed_across_seam(init, seq![last]);
            assert(seq![last].skip(1) =~= Seq::<char>::empty());
            assert(collapsed(text) =~= collapsed(init.drop_last()).push('\n'));
        } else {
            lemma_collapsed_concat(init, seq![last]);
            assert(collapsed(text) =~= collapsed(init).push(last));
            assert(collapsed(text).drop_last() =~= collapsed(init));
        }
    }
}

/// Collapsing a collapsed text changes nothing.
pub proof fn lemma_collapsed_idempotent(text: Seq<char>)
    ensures
        collapsed(collapsed(text)) == collapsed(text),
    decreases text.len(),
{
    if text.len() >= 2 {
        if text[0] == '\\' && text[1] == 'n' {
            let rest = collapsed(text.skip(2));
            lemma_collapsed_idempotent(text.skip(2));
            lemma_collapsed_plain_head('\n', rest);
        } else {
            let rest = collapsed(text.skip(1));
            lemma_collapsed_idempotent(text.skip(1));
            lemma_collapsed_ends(text.skip(1));
            assert(collapsed(seq![text[0]]) =~= seq![text[0]]);
            lemma_collapsed_concat(seq![text[0]], rest);
        }
    }
}

/// Collapsing the left part first does not change the collapsed whole.
pub proof fn lemma_collapsed_absorbs_left(left: Seq<char>, right: Seq<char>)
    ensures
        collapsed(collapsed(left) + right) == collapsed(left + right),
{
    lemma_collapsed_ends(left);
    lemma_collapsed_idempotent(left);
    if seam_escaped(left, right) {
        lemma_collapsed_across_seam(left, right);
        lemma_collapsed_across_seam(collapsed(left), right);
        lemma_collapsed_idempotent(left.drop_last());
    } else {
        lemma_collapsed_concat(left, right);
        lemma_collapsed_concat(collapsed(left), right);
    }
}

/// Collapsing the right part first does not change the collapsed whole.
pub proof fn lemma_collapsed_absorbs_right(left: Seq<char>, right: Seq<char>)
    ensures
        collapsed(left + collapsed(right)) == collapsed(left + right),
{
    lemma_collapsed_ends(right);
    lemma_collapsed_idempotent(right);
    if seam_escaped(left, right) {
        lemma_collapsed_across_seam(left, right);
        lemma_collapsed_across_seam(left, collapsed(right));
        lemma_collapsed_idempotent(right.skip(1));
    } else {
        lemma_collapsed_concat(left, right);
        lemma_collapsed_concat(left, collapsed(right));
    }
}

/// A text without any escape is its own collapsed form.
pub proof fn lemma_collapsed_without_escape(text: Seq<char>)
    requires
        !has_escape(text),
    ensures
        collapsed(text) == text,
    decreases text.len(),
{
    if text.len() >= 2 {
        assert(!(text[0] == '\\' && text[0int + 1] == 'n'));
        let rest = text.skip(1);
        assert forall|i: int| 0 <= i && i + 1 < rest.len() && rest[i] == '\\' implies !(
        #[trigger] rest[i + 1] == 'n') by {
            assert(text[(i + 1) + 1] == rest[i + 1]);
        }
        lemma_collapsed_without_escape(rest);
        assert(seq![text[0]] + rest =~= text);
    }
}

/// An escape anywhere in a text becomes one newline, and what stands before
/// and after it is collapsed on its own.
pub proof fn lemma_collapsed_at_escape(before: Seq<char>, after: Seq<char>)
    ensures
        collapsed(before + seq!['\\', 'n'] + after) == collapsed(before) + seq!['\n'] + collapsed(
            after,
        ),
{
    let tail = seq!['\\'] + (seq!['n'] + after);
    assert(before + seq!['\\', 'n'] + after =~= before + tail);
    lemma_collapsed_concat(before, tail);
    lemma_collapsed_backslash_head('n', after);
    assert(collapsed(before) + (seq!['\n'] + collapsed(after)) =~= collapsed(before) + seq!['\n']
        + collapsed(after));
}

/// One step of reassembly keeps the text: if, up to collapsing, what has
/// been emitted followed by what is held back is what has been received,
/// the same holds after the next fragment.
pub proof fn lemma_merged_keeps_text(
    emitted: Seq<char>,
    buffer: Seq<char>,
    received: Seq<char>,
    patch: Seq<char>,
)
    requires
        collapsed(emitted + buffer) == collapsed(received),
    ensures
        collapsed(emitted + merged(buffer, patch).1 + merged(buffer, patch).0) == collapsed(
            received + patch,
        ),
{
    lemma_collapsed_absorbs_left(emitted + buffer, patch);
    lemma_collapsed_absorbs_left(received, patch);
    assert((emitted + buffer) + patch =~= emitted + (buffer + patch));
    if ends_with(patch, TRIGGER) {
        assert(emitted + Seq::<char>::empty() + (buffer + patch) =~= emitted + (buffer + patch));
    } else if buffer.len() > 0 {
        lemma_collapsed_absorbs_right(emitted, buffer + patch);
        assert(emitted + collapsed(buffer + patch) + Seq::<char>::empty() =~= emitted + collapsed(
            buffer + patch,
        ));
    } else {
        assert(emitted + patch + buffer =~= emitted + (buffer + patch));
    }
}

/// The held-back text and the texts emitted, one for each fragment, after a
/// run of fragments that starts with `buffer` held back.
pub open spec fn reassembled(buffer: Seq<char>, patches: Seq<Seq<char>>) -> (
    Seq<char>,
    Seq<Seq<char>>,
)
    decreases patches.len(),
{
    if patches.len() == 0 {
        (buffer, Seq::empty())
    } else {
        let earlier = reassembled(buffer, patches.drop_last());
        (
            merged(earlier.0, patches.last()).0,
            earlier.1.push(merged(earlier.0, patches.last()).1),
        )
    }
}

/// Fragments of which none ends with the trigger pass through unchanged,
/// each for itself, and nothing is ever held back.
pub proof fn lemma_plain_fragments_pass_through(patches: Seq<Seq<char>>)
    requires
        forall|i: int| 0 <= i < patches.len() ==> !ends_with(#[trigger] patches[i], TRIGGER),
    ensures
        reassembled(Seq::empty(), patches) == (Seq::<char>::empty(), patches),
    decreases patches.len(),
{
    if patches.len() > 0 {
        lemma_plain_fragments_pass_through(patches.drop_last());
        assert(patches.drop_last().push(patches.last()) =~= patches);
    }
}

/// Reassembly keeps the text: up to collapsing, what was emitted followed by
/// what is still held back is what was held back at the start followed by
/// all fragments.
pub proof fn lemma_reassembled_keeps_text(buffer: Seq<char>, patches: Seq<Seq<char>>)
    ensures
        collapsed(reassembled(buffer, patches).1.flatten() + reassembled(buffer, patches).0)
            == collapsed(buffer + patches.flatten()),
    decreases patches.len(),
{
    broadcast use Seq::lemma_flatten_push;

    if patches.len() == 0 {
        assert(Seq::<Seq<char>>::empty().flatten() + buffer =~= buffer + patches.flatten());
    } else {
        let earlier = reassembled(buffer, patches.drop_last());
        lemma_reassembled_keeps_text(buffer, patches.drop_last());
        lemma_merged_keeps_text(
            earlier.1.flatten(),
            earlier.0,
            buffer + patches.drop_last().flatten(),
            patches.last(),
        );
        assert(patches.drop_last().push(patches.last()) =~= patches);
        assert(patches.drop_last().push(patches.last()).flatten() == patches.drop_last().flatten()
            + patches.last());
        assert(buffer + patches.drop_last().flatten() + patches.last() =~= buffer
            + patches.flatten());
    }
}

/// A fragment that ends with the trigger is held back, and with its
/// continuation an escape in the joined text becomes one newline. What
/// stands before and after the escape is collapsed on its own, so it stays
/// as it is where it holds no further escape.
pub proof fn lemma_split_escape_collapsed(
    first: Seq<char>,
    second: Seq<char>,
    before: Seq<char>,
    after: Seq<char>,
)
    requires
        ends_with(first, TRIGGER),
        !ends_with(second, TRIGGER),
        first + second == before + seq!['\\', 'n'] + after,
    ensures
        merged(Seq::empty(), first) == (first, Seq::<char>::empty()),
        merged(first, second) == (
            Seq::<char>::empty(),
            collapsed(before) + seq!['\n'] + collapsed(after),
        ),
        !has_escape(before) && !has_escape(after) ==> merged(first, second).1 == before
            + seq!['\n'] + after,
{
    assert(Seq::<char>::empty() + first =~= first);
    lemma_collapsed_at_escape(before, after);
    if !has_escape(before) && !has_escape(after) {
        lemma_collapsed_without_escape(before);
        lemma_collapsed_without_escape(after);
    }
}

} // verus!
