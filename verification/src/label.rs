//! What a workspace shows for its number.
//!
//! The numbers 1 to 17 and 19 to 25 show one letter each, taken from two
//! blocks of the Greek alphabet; every other number shows itself. The gap
//! at 18 is wanted: the letter that would stand there is reserved.

use crate::text::{append_decimal, decimal_text, push_char};
use vstd::prelude::*;
use vstd::string::*;

verus! {

/// The code point from which the letters for 1 to 17 are counted.
pub const ALPHA_CHAR: u32 = 912;

/// The code point from which the letters for 19 to 25 are counted.
pub const SIGMA_CHAR: u32 = ALPHA_CHAR + 19;

/// The label of a workspace.
pub open spec fn label(workspace: i32) -> Seq<char> {
    if 1 <= workspace <= 17 {
        seq![(ALPHA_CHAR + workspace) as char]
    } else if 19 <= workspace <= 25 {
        seq![(SIGMA_CHAR + workspace) as char]
    } else {
        decimal_text(workspace as int)
    }
}

/// `char::from_u32` of std: the character with the code point `code`. The
/// contract says that it exists unless `code` is a surrogate or lies above
/// the last code point, and that its code point is `code`.
#[verifier::external_body]
fn char_from_u32(code: u32) -> (found: Option<char>)
    ensures
        match found {
            Some(c) => c as u32 == code,
            None => 0xD800 <= code <= 0xDFFF || code > 0x10FFFF,
        },
{
    char::from_u32(code)
}

/// Puts the letter with the code point `code` at the end of `out`.
fn append_letter(out: &mut String, code: u32)
    requires
        code < 0xD800,
    ensures
        final(out)@ == old(out)@.push(code as char),
{
    match char_from_u32(code) {
        Some(c) => {
            proof {
                vstd::utf8::char_u32_cast(c, code);
            }
            push_char(out, c)
        },
        None => {},
    }
}

/// Puts the label of `workspace` at the end of `out`.
pub fn append_label(out: &mut String, workspace: i32)
    ensures
        final(out)@ == old(out)@ + label(workspace),
{
    if 1 <= workspace && workspace <= 17 {
        append_letter(out, ALPHA_CHAR + workspace as u32);
        assert(out@ =~= old(out)@ + label(workspace));
    } else if 19 <= workspace && workspace <= 25 {
        append_letter(out, SIGMA_CHAR + workspace as u32);
        assert(out@ =~= old(out)@ + label(workspace));
    } else {
        append_decimal(out, workspace);
    }
}

/// The label of `workspace`.
pub fn map_workspace(workspace: i32) -> (text: String)
    ensures
        text@ == label(workspace),
{
    let mut text = String::new();
    append_label(&mut text, workspace);
    assert(Seq::<char>::empty() + label(workspace) =~= label(workspace));
    text
}

/// The labels of 1 to 17 differ from each other, and so do those of 19 to
/// 25; no label of the second range is one of the first; and 18 shows
/// itself.
pub proof fn lemma_labels_differ()
    ensures
        forall|i: i32, j: i32| 1 <= i <= 17 && 1 <= j <= 17 && i != j ==> label(i) != label(j),
        forall|i: i32, j: i32| 19 <= i <= 25 && 19 <= j <= 25 && i != j ==> label(i) != label(j),
        forall|i: i32, j: i32| 1 <= i <= 17 && 19 <= j <= 25 ==> label(i) != label(j),
        label(18) == seq!['1', '8'],
{
    assert forall|i: i32, j: i32|
        (1 <= i <= 17 || 19 <= i <= 25) && (1 <= j <= 17 || 19 <= j <= 25) && i
            != j implies label(i) != label(j) by {
        assert(label(i)[0] != label(j)[0]);
    }
    reveal_with_fuel(crate::text::digits_of, 2);
    assert(label(18) =~= seq!['1', '8']);
}

} // verus!
