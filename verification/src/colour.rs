//! Marking a text for the terminal, as the `colored` crate does it.

use colored::Colorize;
use vstd::prelude::*;

verus! {

/// The character that starts a terminal control sequence.
pub const ESCAPE: char = '\x1b';

/// The control sequence that turns red on.
pub open spec fn red_on() -> Seq<char> {
    seq![ESCAPE, '[', '3', '1', 'm']
}

/// The control sequence that turns all colour off.
pub open spec fn reset() -> Seq<char> {
    seq![ESCAPE, '[', '0', 'm']
}

/// `text` between the control sequences that turn red on and all colour off.
pub open spec fn emphasized(text: Seq<char>) -> Seq<char> {
    red_on() + text + reset()
}

/// `text` with red turned on again behind every sequence in it that turns
/// colour off, so that a mark inside `text` does not end the mark around it.
pub open spec fn restyled(text: Seq<char>) -> Seq<char>
    decreases text.len(),
{
    if text.len() < reset().len() {
        text
    } else if text.take(reset().len() as int) == reset() {
        reset() + red_on() + restyled(text.skip(reset().len() as int))
    } else {
        seq![text[0]] + restyled(text.skip(1))
    }
}

/// A text without an escape character holds no sequence that turns colour
/// off, so there is nothing in it to turn on again.
pub proof fn lemma_restyled_plain(text: Seq<char>)
    requires
        !text.contains(ESCAPE),
    ensures
        restyled(text) == text,
    decreases text.len(),
{
    if text.len() >= reset().len() {
        assert(text[0] != ESCAPE);
        assert(text.take(reset().len() as int)[0] == text[0]);
        assert(reset()[0] == ESCAPE);
        let rest = text.skip(1);
        assert forall|i: int| 0 <= i < rest.len() implies rest[i] != ESCAPE by {
            assert(rest[i] == text[i + 1]);
        }
        lemma_restyled_plain(rest);
        assert(seq![text[0]] + rest =~= text);
    }
}

/// Calls `Colorize::red` of `colored` and writes the result to a string.
///
/// Whether `colored` marks anything depends on the environment of the
/// process, so nothing is said of which of two texts comes back: `text` as
/// it was; or `text` between the sequences for red and for reset, with red
/// turned on again behind every reset inside it.
#[verifier::external_body]
pub(crate) fn paint_red(text: &str) -> (r: String)
    ensures
        r@ == text@ || r@ == emphasized(restyled(text@)),
{
    text.red().to_string()
}

} // verus!
