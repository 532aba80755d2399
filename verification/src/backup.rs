//! What is said about an account's sealed backup at its exchange: how
//! much room it takes, when it was last written, and the words that open
//! it, numbered as they are to be written down.

use vstd::prelude::*;

use crate::text::{copy_str, decimal, push_decimal, push_str};

verus! {

broadcast use vstd::string::group_string_axioms;

/// How much of its room the backup takes.
pub open spec fn used_words(used: nat, quota: nat) -> Seq<char> {
    decimal(used) + " of "@ + decimal(quota) + " bytes used."@
}

/// How much of its room the backup takes, by [`used_words`].
pub fn used_said(used: u64, quota: u64) -> (r: String)
    ensures
        r@ == used_words(used as nat, quota as nat),
{
    let mut r = String::new();
    push_decimal(&mut r, used);
    push_str(&mut r, " of ");
    push_decimal(&mut r, quota);
    push_str(&mut r, " bytes used.");
    r
}

/// What the last backup was: its generation, when it was written (as the
/// host says a time briefly) and by which device (its key, short).
pub open spec fn held_words(generation: nat, when: Seq<char>, device: Seq<char>) -> Seq<char> {
    "Backed up: generation "@ + decimal(generation) + ", written "@ + when + " by "@ + device
        + "."@
}

/// The last backup, by [`held_words`].
pub fn held_said(generation: u64, when: &str, device: &str) -> (r: String)
    ensures
        r@ == held_words(generation as nat, when@, device@),
{
    let mut r = copy_str("Backed up: generation ");
    push_decimal(&mut r, generation);
    push_str(&mut r, ", written ");
    push_str(&mut r, when);
    push_str(&mut r, " by ");
    push_str(&mut r, device);
    push_str(&mut r, ".");
    r
}

/// The `n`th of the words that open the backup, as it is to be written
/// down: its number right-aligned in two places, a point, and the word.
pub open spec fn numbered_words(n: nat, word: Seq<char>) -> Seq<char> {
    (if n < 10 {
        " "@
    } else {
        ""@
    }) + decimal(n) + ". "@ + word
}

/// The word at `i` among those that open the backup, numbered from one, by
/// [`numbered_words`].
pub fn numbered(i: u64, word: &str) -> (r: String)
    requires
        i < u64::MAX,
    ensures
        r@ == numbered_words(i as nat + 1, word@),
{
    let n = i + 1;
    let mut r = if n < 10 {
        copy_str(" ")
    } else {
        copy_str("")
    };
    push_decimal(&mut r, n);
    push_str(&mut r, ". ");
    push_str(&mut r, word);
    r
}

/// What the button about the key says: show the key there is, or make one.
pub open spec fn key_words(has_key: bool) -> Seq<char> {
    if has_key {
        "Show backup key"@
    } else {
        "Make a backup key"@
    }
}

/// The key button's words, by [`key_words`].
pub fn key_label(has_key: bool) -> (r: String)
    ensures
        r@ == key_words(has_key),
{
    if has_key {
        copy_str("Show backup key")
    } else {
        copy_str("Make a backup key")
    }
}

} // verus!
