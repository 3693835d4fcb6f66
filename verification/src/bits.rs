//! Bit-level facts about the permission bit field and the words of the
//! dirty bitmap, proved once here and used by the rest of the crate.

use vstd::prelude::*;

use crate::mmu::{PERM_EXEC, PERM_READ, PERM_WRITE};

verus! {

/// In a zero word every bit is clear.
pub(crate) proof fn lemma_u128_bit_of_zero(s: u128)
    by (bit_vector)
    requires
        s < 128,
    ensures
        0u128 & (1u128 << s) == 0,
{
}

/// Setting bit `s` of a word sets exactly that bit: afterwards bit `s` is
/// set and every other bit is as it was.
pub(crate) proof fn lemma_u128_set_bit(w: u128, s: u128, t: u128)
    by (bit_vector)
    requires
        s < 128,
        t < 128,
    ensures
        (w | (1u128 << s)) & (1u128 << s) != 0,
        t != s ==> ((w | (1u128 << s)) & (1u128 << t)) == (w & (1u128 << t)),
{
}

/// Clearing bit `s` of a word clears exactly that bit: afterwards bit `s`
/// is clear and every other bit is as it was.
pub(crate) proof fn lemma_u128_clear_bit(w: u128, s: u128, t: u128)
    by (bit_vector)
    requires
        s < 128,
        t < 128,
    ensures
        (w & !(1u128 << s)) & (1u128 << s) == 0,
        t != s ==> ((w & !(1u128 << s)) & (1u128 << t)) == (w & (1u128 << t)),
{
}

/// Granting `PERM_READ` to a permission byte makes it readable and leaves
/// the other permission bits as they were.
pub(crate) proof fn lemma_u8_grant_read(x: u8)
    by (bit_vector)
    ensures
        (x | PERM_READ) & PERM_READ != 0,
        (x | PERM_READ) & PERM_WRITE == x & PERM_WRITE,
        (x | PERM_READ) & PERM_EXEC == x & PERM_EXEC,
{
}

/// A permission byte of exactly `PERM_WRITE` is writable and not readable,
/// and the empty permission byte is neither.
pub(crate) proof fn lemma_u8_fresh_perms()
    by (bit_vector)
    ensures
        PERM_WRITE & PERM_WRITE != 0,
        PERM_WRITE & PERM_READ == 0,
        0u8 & PERM_WRITE == 0,
        0u8 & PERM_READ == 0,
{
}

} // verus!
