//! Reverse complement of node sequences, computed by the `bio` crate.

use vstd::prelude::*;

verus! {

/// The complement of a byte in `bio::alphabets::dna`'s table: each IUPAC
/// code is swapped with its partner (A/T, G/C, Y/R, K/M, D/H, V/B), in
/// upper and in lower case, and every other byte (W, S, N among them) is
/// kept.
pub open spec fn complement_of(b: u8) -> u8 {
    if b == 65 { 84 }
    else if b == 84 { 65 }
    else if b == 71 { 67 }
    else if b == 67 { 71 }
    else if b == 89 { 82 }
    else if b == 82 { 89 }
    else if b == 75 { 77 }
    else if b == 77 { 75 }
    else if b == 68 { 72 }
    else if b == 72 { 68 }
    else if b == 86 { 66 }
    else if b == 66 { 86 }
    else if b == 97 { 116 }
    else if b == 116 { 97 }
    else if b == 103 { 99 }
    else if b == 99 { 103 }
    else if b == 121 { 114 }
    else if b == 114 { 121 }
    else if b == 107 { 109 }
    else if b == 109 { 107 }
    else if b == 100 { 104 }
    else if b == 104 { 100 }
    else if b == 118 { 98 }
    else if b == 98 { 118 }
    else { b }
}

/// The table pairs each byte with its partner: complementing twice gives
/// the byte back.
pub proof fn lemma_complement_involution(b: u8)
    ensures
        complement_of(complement_of(b)) == b,
{
}

/// The bytes of `s` in reverse order, each complemented.
pub open spec fn revcomp_of(s: Seq<u8>) -> Seq<u8> {
    Seq::new(s.len(), |i: int| complement_of(s[s.len() - 1 - i]))
}

/// Relies on bio::alphabets::dna::revcomp: it walks the bytes from the end
/// and maps each through `dna::complement`, a lookup in the table that
/// `complement_of` states.
#[verifier::external_body]
pub(crate) fn revcomp(s: &[u8]) -> (r: Vec<u8>)
    ensures
        r@ == revcomp_of(s@),
{
    bio::alphabets::dna::revcomp(s)
}

/// Taking the reverse complement twice gives the sequence back.
pub proof fn lemma_revcomp_involution(s: Seq<u8>, r: Seq<u8>)
    requires
        r == revcomp_of(s),
    ensures
        revcomp_of(r) == s,
{
    assert forall|i: int| 0 <= i < s.len() implies #[trigger] revcomp_of(r)[i] == s[i] by {
        lemma_complement_involution(s[i]);
    }
    assert(revcomp_of(r) =~= s);
}

/// The reverse complement of two sequences one after the other is that of
/// the second, then that of the first.
pub proof fn lemma_revcomp_concat(a: Seq<u8>, b: Seq<u8>)
    ensures
        revcomp_of(a + b) == revcomp_of(b) + revcomp_of(a),
{
    assert(revcomp_of(a + b) =~= revcomp_of(b) + revcomp_of(a));
}

} // verus!
