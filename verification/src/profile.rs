//! Hooking the helper script into a shell's start-up file: the line that
//! sources it, and whether a start-up file already mentions it.

use crate::text::{append_bytes, has_byte};
use vstd::prelude::*;

verus! {

/// The single quote, `'`.
pub const QUOTE: u8 = 0x27;

/// Does `pattern` stand in `text` at index `i`?
pub open spec fn occurs_at(text: Seq<u8>, pattern: Seq<u8>, i: int) -> bool {
    0 <= i && i + pattern.len() <= text.len() && text.subrange(i, i + pattern.len()) == pattern
}

/// Does `pattern` stand anywhere in `text`?
pub open spec fn occurs(text: Seq<u8>, pattern: Seq<u8>) -> bool {
    exists|i: int| occurs_at(text, pattern, i)
}

/// Searches with `twoway::find_bytes`, which gives the index of the first
/// occurrence of the pattern in the text, or nothing where there is none.
#[verifier::external_body]
fn find_bytes(text: &[u8], pattern: &[u8]) -> (r: Option<usize>)
    ensures
        match r {
            Some(i) => occurs_at(text@, pattern@, i as int) && forall|j: int|
                0 <= j < i ==> !occurs_at(text@, pattern@, j),
            None => !occurs(text@, pattern@),
        },
{
    twoway::find_bytes(text, pattern)
}

/// Does the start-up file `current` mention the script's path already?
pub fn already_sourced(current: &[u8], script: &[u8]) -> (r: bool)
    ensures
        r == occurs(current@, script@),
{
    find_bytes(current, script).is_some()
}

/// Can the path stand between single quotes? It can when it holds none.
pub fn is_quotable(script: &[u8]) -> (r: bool)
    ensures
        r == !script@.contains(QUOTE),
{
    !has_byte(script, QUOTE)
}

/// The text that sources the script: a blank line, then `. '<script>'`.
pub open spec fn source_line_of(script: Seq<u8>) -> Seq<u8> {
    seq![0x0Au8, 0x0Au8, 0x2Eu8, 0x20u8, QUOTE] + script + seq![QUOTE, 0x0Au8]
}

/// The text to append to a start-up file so that it sources the script.
pub fn source_line(script: &[u8]) -> (r: Vec<u8>)
    ensures
        r@ == source_line_of(script@),
{
    let mut out: Vec<u8> = Vec::new();
    out.push(0x0A);
    out.push(0x0A);
    out.push(0x2E);
    out.push(0x20);
    out.push(QUOTE);
    append_bytes(&mut out, script);
    out.push(QUOTE);
    out.push(0x0A);
    out
}

/// What to append to the start-up file `current`: the line that sources
/// the script, or nothing where the file mentions the script already.
pub fn profile_addition(current: &[u8], script: &[u8]) -> (r: Option<Vec<u8>>)
    ensures
        match r {
            Some(line) => !occurs(current@, script@) && line@ == source_line_of(script@),
            None => occurs(current@, script@),
        },
{
    if already_sourced(current, script) {
        None
    } else {
        Some(source_line(script))
    }
}

/// Once the line is appended, the file mentions the script.
pub proof fn lemma_addition_sticks(current: Seq<u8>, script: Seq<u8>)
    ensures
        occurs(current + source_line_of(script), script),
{
    let text = current + source_line_of(script);
    let at: int = current.len() as int + 5;
    assert(text.subrange(at, at + script.len()) =~= script);
    assert(occurs_at(text, script, at));
}

} // verus!
