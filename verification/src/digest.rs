//! BLAKE3 digests and their lower-case hexadecimal form.

use vstd::prelude::*;

verus! {

/// The 32-byte BLAKE3 digest of some bytes (`blake3::hash`). Named: the
/// compression function takes pages.
pub uninterp spec fn blake3_digest(data: Seq<u8>) -> Seq<u8>;

/// `blake3::hash(data).as_bytes()`. The contract claims the digest is the
/// named function of the input and is `OUT_LEN` (32) bytes long.
#[verifier::external_body]
pub(crate) fn blake3_hash(data: &[u8]) -> (digest: Vec<u8>)
    ensures
        digest@ == blake3_digest(data@),
        digest@.len() == 32,
{
    blake3::hash(data).as_bytes().to_vec()
}

/// A lower-case hexadecimal digit.
pub open spec fn hex_digit_lower(n: nat) -> char {
    if n < 10 {
        ((48 + n) as u32) as char
    } else {
        ((87 + n) as u32) as char
    }
}

/// Lower-case hexadecimal, two digits per byte, high nibble first (the
/// form `blake3::Hash::to_hex` writes).
pub open spec fn hex_lower(bytes: Seq<u8>) -> Seq<char>
    decreases bytes.len(),
{
    if bytes.len() == 0 {
        Seq::empty()
    } else {
        hex_lower(bytes.drop_last()) + seq![
            hex_digit_lower((bytes.last() / 16) as nat),
            hex_digit_lower((bytes.last() % 16) as nat),
        ]
    }
}

/// An ASCII hexadecimal digit of either case.
pub open spec fn is_hex_char(c: char) -> bool {
    ('0' <= c && c <= '9') || ('a' <= c && c <= 'f') || ('A' <= c && c <= 'F')
}

fn nibble(n: u8) -> (c: char)
    requires
        n < 16,
    ensures
        c == hex_digit_lower(n as nat),
{
    if n < 10 {
        (48 + n) as char
    } else {
        (87 + n) as char
    }
}

/// Renders bytes as lower-case hexadecimal.
pub fn to_hex(bytes: &[u8]) -> (hex: Vec<char>)
    ensures
        hex@ == hex_lower(bytes@),
        hex@.len() == 2 * bytes@.len(),
{
    let mut hex: Vec<char> = Vec::new();
    let mut i: usize = 0;
    while i < bytes.len()
        invariant
            i <= bytes@.len(),
            hex@ == hex_lower(bytes@.subrange(0, i as int)),
            hex@.len() == 2 * i,
        decreases bytes.len() - i,
    {
        let b = bytes[i];
        hex.push(nibble(b / 16));
        hex.push(nibble(b % 16));
        i = i + 1;
        assert(bytes@.subrange(0, i as int).drop_last() =~= bytes@.subrange(0, i - 1));
        assert(hex@ =~= hex_lower(bytes@.subrange(0, i as int)));
    }
    assert(bytes@.subrange(0, bytes@.len() as int) =~= bytes@);
    hex
}

/// Every character of a lower-case hex rendering is a hex digit.
pub proof fn lemma_hex_lower_chars(bytes: Seq<u8>)
    ensures
        hex_lower(bytes).len() == 2 * bytes.len(),
        forall|i: int| 0 <= i < hex_lower(bytes).len() ==> is_hex_char(#[trigger] hex_lower(bytes)[i]),
    decreases bytes.len(),
{
    if bytes.len() > 0 {
        lemma_hex_lower_chars(bytes.drop_last());
        let p = hex_lower(bytes.drop_last());
        let h = (bytes.last() / 16) as nat;
        let l = (bytes.last() % 16) as nat;
        assert(((48 + h) as u32) as char as u32 == (48 + h) as u32);
        assert(((87 + h) as u32) as char as u32 == (87 + h) as u32);
        assert(((48 + l) as u32) as char as u32 == (48 + l) as u32);
        assert(((87 + l) as u32) as char as u32 == (87 + l) as u32);
        assert forall|i: int| 0 <= i < hex_lower(bytes).len() implies is_hex_char(#[trigger] hex_lower(bytes)[i]) by {
            if i < p.len() {
                assert(hex_lower(bytes)[i] == p[i]);
            }
        }
    }
}

/// Distinct digits for distinct nibbles.
proof fn lemma_hex_digit_lower_injective(x: nat, y: nat)
    requires
        x < 16,
        y < 16,
        hex_digit_lower(x) == hex_digit_lower(y),
    ensures
        x == y,
{
    assert(((48 + x) as u32) as char as u32 == (48 + x) as u32);
    assert(((87 + x) as u32) as char as u32 == (87 + x) as u32);
    assert(((48 + y) as u32) as char as u32 == (48 + y) as u32);
    assert(((87 + y) as u32) as char as u32 == (87 + y) as u32);
}

/// Different bytes have different hexadecimal renderings.
pub proof fn lemma_hex_lower_injective(a: Seq<u8>, b: Seq<u8>)
    ensures
        hex_lower(a) == hex_lower(b) ==> a == b,
    decreases a.len(),
{
    lemma_hex_lower_chars(a);
    lemma_hex_lower_chars(b);
    if hex_lower(a) == hex_lower(b) && a.len() > 0 {
        let n = hex_lower(a).len() as int;
        lemma_hex_lower_chars(a.drop_last());
        lemma_hex_lower_chars(b.drop_last());
        assert(hex_lower(a.drop_last()) =~= hex_lower(a).subrange(0, n - 2));
        assert(hex_lower(b.drop_last()) =~= hex_lower(b).subrange(0, n - 2));
        lemma_hex_lower_injective(a.drop_last(), b.drop_last());
        assert(hex_lower(a)[n - 2] == hex_lower(b)[n - 2]);
        assert(hex_lower(a)[n - 1] == hex_lower(b)[n - 1]);
        lemma_hex_digit_lower_injective((a.last() / 16) as nat, (b.last() / 16) as nat);
        lemma_hex_digit_lower_injective((a.last() % 16) as nat, (b.last() % 16) as nat);
        assert(a.last() == b.last());
        assert(a =~= a.drop_last().push(a.last()));
        assert(b =~= b.drop_last().push(b.last()));
    }
}

} // verus!
