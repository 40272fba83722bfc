//! Byte-level encodings shared by the pipeline: decimal rendering of
//! numbers, lowercase hex rendering of digests, and the facts about the
//! key-path separator that make flattened claim keys unambiguous.

use vstd::prelude::*;

verus! {

/// Separator between the segments of a flattened claim key path (`.`).
pub const SEP: u8 = 46;

/// A byte string that contains no separator byte.
pub open spec fn sep_free(s: Seq<u8>) -> bool {
    forall|i: int| 0 <= i < s.len() ==> s[i] != SEP
}

/// Decimal rendering of a natural number, most significant digit first.
pub open spec fn dec_of(n: nat) -> Seq<u8>
    decreases n,
{
    if n < 10 {
        seq![(48 + n) as u8]
    } else {
        dec_of(n / 10) + seq![(48 + n % 10) as u8]
    }
}

/// Every byte of a decimal rendering is an ASCII digit.
pub proof fn lemma_dec_digits(n: nat)
    ensures
        dec_of(n).len() >= 1,
        forall|i: int| 0 <= i < dec_of(n).len() ==> 48 <= #[trigger] dec_of(n)[i] <= 57,
    decreases n,
{
    if n >= 10 {
        lemma_dec_digits(n / 10);
    }
}

/// A decimal rendering never contains the separator.
pub proof fn lemma_dec_sep_free(n: nat)
    ensures
        sep_free(dec_of(n)),
{
    lemma_dec_digits(n);
}

/// Decimal rendering is injective: distinct numbers render differently.
pub proof fn lemma_dec_injective(a: nat, b: nat)
    requires
        dec_of(a) == dec_of(b),
    ensures
        a == b,
    decreases a,
{
    lemma_dec_digits(a);
    lemma_dec_digits(b);
    if a < 10 && b < 10 {
        assert(dec_of(a) == seq![(48 + a) as u8]);
        assert(dec_of(b) == seq![(48 + b) as u8]);
        assert(seq![(48 + a) as u8][0] == seq![(48 + b) as u8][0]);
        assert((48 + a) as u8 == (48 + b) as u8);
        assert(a == b);
    } else if a < 10 && b >= 10 {
        lemma_dec_digits(b / 10);
        assert(dec_of(b) == dec_of(b / 10) + seq![(48 + b % 10) as u8]);
        assert(dec_of(b).len() >= 2);
        assert(dec_of(a).len() == 1);
        assert(a == b);
    } else if a >= 10 && b < 10 {
        lemma_dec_digits(a / 10);
        assert(dec_of(a) == dec_of(a / 10) + seq![(48 + a % 10) as u8]);
        assert(dec_of(a).len() >= 2);
        assert(dec_of(b).len() == 1);
        assert(a == b);
    } else {
        assert(dec_of(a) == dec_of(a / 10) + seq![(48 + a % 10) as u8]);
        assert(dec_of(b) == dec_of(b / 10) + seq![(48 + b % 10) as u8]);
        assert(dec_of(a).last() == (48 + a % 10) as u8);
        assert(dec_of(b).last() == (48 + b % 10) as u8);
        assert(dec_of(a).drop_last() =~= dec_of(a / 10));
        assert(dec_of(b).drop_last() =~= dec_of(b / 10));
        lemma_dec_injective(a / 10, b / 10);
        assert(a % 10 == b % 10);
        vstd::arithmetic::div_mod::lemma_fundamental_div_mod(a as int, 10);
        vstd::arithmetic::div_mod::lemma_fundamental_div_mod(b as int, 10);
        assert(a == b);
    }
}

/// Renders a number in decimal, matching `dec_of`.
pub fn dec_u64(n: u64) -> (r: Vec<u8>)
    ensures
        r@ == dec_of(n as nat),
    decreases n,
{
    if n < 10 {
        let mut v: Vec<u8> = Vec::new();
        v.push(48 + (n as u8));
        proof { assert(v@ =~= dec_of(n as nat)); }
        v
    } else {
        let mut v = dec_u64(n / 10);
        v.push(48 + ((n % 10) as u8));
        proof { assert(v@ =~= dec_of(n as nat)); }
        v
    }
}

/// Lowercase hex digit for a nibble.
pub open spec fn hex_digit(n: u8) -> u8 {
    if n < 10 {
        (48 + n) as u8
    } else {
        (87 + n) as u8
    }
}

/// Lowercase hex rendering of a byte string, two digits per byte.
pub open spec fn hex_of(s: Seq<u8>) -> Seq<u8>
    decreases s.len(),
{
    if s.len() == 0 {
        Seq::empty()
    } else {
        hex_of(s.drop_last()) + seq![hex_digit(s.last() / 16), hex_digit(s.last() % 16)]
    }
}

/// Renders a byte string in lowercase hex, matching `hex_of`.
pub fn hex_bytes(s: &Vec<u8>) -> (r: Vec<u8>)
    ensures
        r@ == hex_of(s@),
{
    let mut r: Vec<u8> = Vec::new();
    let mut i: usize = 0;
    while i < s.len()
        invariant
            i <= s.len(),
            r@ == hex_of(s@.take(i as int)),
        decreases s.len() - i,
    {
        let b = s[i];
        let hi: u8 = b / 16;
        let lo: u8 = b % 16;
        r.push(if hi < 10 { 48 + hi } else { 87 + hi });
        r.push(if lo < 10 { 48 + lo } else { 87 + lo });
        proof {
            assert(s@.take(i + 1 as int).drop_last() =~= s@.take(i as int));
            assert(s@.take(i + 1 as int).last() == s@[i as int]);
            assert(r@ =~= hex_of(s@.take(i + 1 as int)));
        }
        i = i + 1;
    }
    proof { assert(s@.take(s@.len() as int) =~= s@); }
    r
}

/// The views of a list of byte vectors.
pub open spec fn blobs_view(s: Seq<Vec<u8>>) -> Seq<Seq<u8>> {
    s.map_values(|v: Vec<u8>| v@)
}

/// Concatenation of an ordered list of byte blobs, in list order.
pub open spec fn concat_all(ms: Seq<Seq<u8>>) -> Seq<u8>
    decreases ms.len(),
{
    if ms.len() == 0 {
        Seq::empty()
    } else {
        concat_all(ms.drop_last()) + ms.last()
    }
}

/// Concatenates an ordered list of byte blobs, matching `concat_all`.
pub fn concat_blobs(ms: &Vec<Vec<u8>>) -> (r: Vec<u8>)
    ensures
        r@ == concat_all(blobs_view(ms@)),
{
    let mut r: Vec<u8> = Vec::new();
    let mut i: usize = 0;
    while i < ms.len()
        invariant
            i <= ms.len(),
            r@ == concat_all(blobs_view(ms@).take(i as int)),
        decreases ms.len() - i,
    {
        let mut j: usize = 0;
        let blob = &ms[i];
        while j < blob.len()
            invariant
                j <= blob.len(),
                blob == &ms@[i as int],
                i < ms@.len(),
                r@ == concat_all(blobs_view(ms@).take(i as int)) + blob@.take(j as int),
            decreases blob.len() - j,
        {
            r.push(blob[j]);
            proof {
                assert(blob@.take(j + 1 as int) =~= blob@.take(j as int).push(blob@[j as int]));
            }
            j = j + 1;
        }
        proof {
            assert(blob@.take(blob@.len() as int) =~= blob@);
            assert(blobs_view(ms@).take(i + 1 as int).drop_last() =~= blobs_view(ms@).take(i as int));
            assert(blobs_view(ms@).take(i + 1 as int).last() == blobs_view(ms@)[i as int]);
            assert(blobs_view(ms@)[i as int] == blob@);
            assert(r@ =~= concat_all(blobs_view(ms@).take(i + 1 as int)));
        }
        i = i + 1;
    }
    proof { assert(blobs_view(ms@).take(blobs_view(ms@).len() as int) =~= blobs_view(ms@)); }
    r
}

} // verus!
