//! The short identifier that stands for a signal in the exported text.

use crate::number::{lemma_decimal_injective, lemma_decimal_reads_back, push_decimal, spec_decimal};
use vstd::prelude::*;

verus! {

/// The number of signals that get an identifier of one character.
pub const SINGLE_CHARACTER_IDENTIFIERS: usize = 94;

/// The identifier of the signal at `index` of the signal table: the printable ASCII character
/// number `33 + index` (from `!` to `~`) for the first 94, and `_` followed by the index in
/// decimal for the others.
pub open spec fn spec_identifier(index: nat) -> Seq<char> {
    if index < SINGLE_CHARACTER_IDENTIFIERS {
        seq![(33 + index) as u8 as char]
    } else {
        seq!['_'] + spec_decimal(index)
    }
}

/// Allocates the identifier of the signal at `index` of the signal table.
pub fn allocate_identifier(index: usize) -> (id: String)
    ensures
        id@ == spec_identifier(index as nat),
{
    let mut id = String::new();
    if index < SINGLE_CHARACTER_IDENTIFIERS {
        id.push((index + 33) as u8 as char);
    } else {
        id.push('_');
        push_decimal(&mut id, index as u64);
    }
    id
}

/// Two signals with the same identifier are the same signal: the one-character identifiers
/// differ among themselves, the longer ones differ in their number, and no identifier of one
/// kind has the length of one of the other.
pub proof fn lemma_identifier_injective(i: nat, j: nat)
    requires
        spec_identifier(i) == spec_identifier(j),
    ensures
        i == j,
{
    let a = spec_identifier(i);
    let b = spec_identifier(j);
    if i < SINGLE_CHARACTER_IDENTIFIERS && j < SINGLE_CHARACTER_IDENTIFIERS {
        assert(a[0] == b[0]);
    } else if i >= SINGLE_CHARACTER_IDENTIFIERS && j >= SINGLE_CHARACTER_IDENTIFIERS {
        assert(a.skip(1) =~= spec_decimal(i));
        assert(b.skip(1) =~= spec_decimal(j));
        lemma_decimal_injective(i, j);
    } else if i < SINGLE_CHARACTER_IDENTIFIERS {
        lemma_decimal_reads_back(j);
        assert(a.len() == 1);
    } else {
        lemma_decimal_reads_back(i);
        assert(b.len() == 1);
    }
}

} // verus!
