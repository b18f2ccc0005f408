//! The byte table used to reverse-complement a sequence.

use vstd::prelude::*;

verus! {

/// The table that maps each byte to its complement.
pub open spec fn complement_char(c: u8) -> u8 {
    if c == 43 { 36 }
    else if c == 44 { 35 }
    else if c == 53 { 45 }
    else if c == 73 { 84 }
    else if c == 74 { 86 }
    else if c == 75 { 71 }
    else if c == 76 { 72 }
    else if c == 79 { 67 }
    else if c == 80 { 68 }
    else if c == 83 { 77 }
    else if c == 85 { 75 }
    else if c == 89 { 81 }
    else if c == 90 { 89 }
    else if c == 91 { 87 }
    else if c == 92 { 65 }
    else if c == 93 { 65 }
    else if c == 94 { 66 }
    else if c == 95 { 83 }
    else if c == 97 { 82 }
    else if c == 105 { 116 }
    else if c == 106 { 118 }
    else if c == 107 { 103 }
    else if c == 108 { 104 }
    else if c == 111 { 99 }
    else if c == 112 { 100 }
    else if c == 115 { 109 }
    else if c == 117 { 107 }
    else if c == 118 { 110 }
    else if c == 121 { 113 }
    else if c == 122 { 121 }
    else if c == 123 { 119 }
    else if c == 124 { 97 }
    else if c == 125 { 97 }
    else if c == 126 { 98 }
    else if c == 127 { 115 }
    else if c == 129 { 114 }
    else { 78 }
}

/// The reverse complement of a sequence under `complement_char`.
pub open spec fn reverse_complement_spec(s: Seq<u8>) -> Seq<u8> {
    Seq::new(s.len(), |i: int| complement_char(s[s.len() - 1 - i]))
}

pub fn reverse_complement_char(c: u8) -> (r: u8)
    ensures
        r == complement_char(c),
{
    match c {
        43 => 36,
        44 => 35,
        53 => 45,
        73 => 84,
        74 => 86,
        75 => 71,
        76 => 72,
        79 => 67,
        80 => 68,
        83 => 77,
        85 => 75,
        89 => 81,
        90 => 89,
        91 => 87,
        92 => 65,
        93 => 65,
        94 => 66,
        95 => 83,
        97 => 82,
        105 => 116,
        106 => 118,
        107 => 103,
        108 => 104,
        111 => 99,
        112 => 100,
        115 => 109,
        117 => 107,
        118 => 110,
        121 => 113,
        122 => 121,
        123 => 119,
        124 => 97,
        125 => 97,
        126 => 98,
        127 => 115,
        129 => 114,
        _ => 78,
    }
}

/// Reverses the sequence and complements each byte.
pub fn reverse_complement(seq: &[u8]) -> (r: Vec<u8>)
    ensures
        r@ == reverse_complement_spec(seq@),
{
    let n = seq.len();
    let mut out: Vec<u8> = Vec::with_capacity(n);
    let mut i: usize = n;
    while i > 0
        invariant
            i <= n,
            n == seq@.len(),
            out@.len() == n - i,
            forall|j: int| 0 <= j < n - i ==> out@[j] == complement_char(seq@[n - 1 - j]),
        decreases i,
    {
        i = i - 1;
        let c = reverse_complement_char(seq[i]);
        out.push(c);
    }
    assert(out@ =~= reverse_complement_spec(seq@));
    out
}

/// Replaces the sequence by its reverse complement, in place.
pub fn reverse_complement_inplace(seq: &mut Vec<u8>)
    ensures
        final(seq)@ == reverse_complement_spec(old(seq)@),
{
    let n = seq.len();
    let mut i: usize = 0;
    while i < n / 2
        invariant
            n == seq@.len(),
            n == old(seq)@.len(),
            i <= n / 2,
            forall|j: int| 0 <= j < i ==> #[trigger] seq@[j] == complement_char(old(seq)@[n - 1 - j]),
            forall|j: int| n - i <= j < n ==> #[trigger] seq@[j] == complement_char(old(seq)@[n - 1 - j]),
            forall|j: int| i <= j < n - i ==> #[trigger] seq@[j] == old(seq)@[j],
        decreases n / 2 - i,
    {
        let a = seq[i];
        let b = seq[n - 1 - i];
        seq.set(i, reverse_complement_char(b));
        seq.set(n - 1 - i, reverse_complement_char(a));
        i += 1;
    }
    if n % 2 == 1 {
        let m = seq[n / 2];
        seq.set(n / 2, reverse_complement_char(m));
    }
    assert(seq@ =~= reverse_complement_spec(old(seq)@));
}

} // verus!
