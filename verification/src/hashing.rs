//! The 64-bit FNV-1a hash.
use vstd::prelude::*;
use vstd::string::*;
use vstd::utf8::encode_utf8;

verus! {

/// What the hash of nothing is.
pub const OFFSET: u64 = 0xcbf2_9ce4_8422_2325;

/// What the hash is multiplied by.
pub const PRIME: u64 = 0x100_0000_01b3;

/// The hash of bytes: one after the other is mixed in, and the hash multiplied.
pub open spec fn fnv(bytes: Seq<u8>) -> u64
    decreases bytes.len(),
{
    if bytes.len() == 0 {
        OFFSET
    } else {
        (((fnv(bytes.drop_last()) ^ (bytes.last() as u64)) as nat * PRIME as nat)
            % 0x1_0000_0000_0000_0000) as u64
    }
}

/// One more byte mixed into a hash.
fn mix(h: u64, b: u8) -> (r: u64)
    ensures
        r == (((h ^ (b as u64)) as nat * PRIME as nat) % 0x1_0000_0000_0000_0000) as u64,
{
    (h ^ b as u64).wrapping_mul(PRIME)
}

/// The hash of bytes.
pub fn hash_bytes(bytes: &[u8]) -> (h: u64)
    ensures
        h == fnv(bytes@),
{
    let mut h: u64 = OFFSET;
    let mut i: usize = 0;
    while i < bytes.len()
        invariant
            i <= bytes@.len(),
            h == fnv(bytes@.take(i as int)),
        decreases bytes@.len() - i,
    {
        proof {
            assert(bytes@.take(i + 1).drop_last() =~= bytes@.take(i as int));
        }
        h = mix(h, bytes[i]);
        i = i + 1;
    }
    proof {
        assert(bytes@.take(bytes@.len() as int) =~= bytes@);
    }
    h
}

/// The hash of a text in UTF-8.
pub fn label_hash(label: &str) -> (h: u64)
    ensures
        h == fnv(encode_utf8(label@)),
{
    hash_bytes(label.as_bytes())
}

/// The lowest `n` bytes of a number, the lowest first.
pub open spec fn low_bytes(x: nat, n: nat) -> Seq<u8>
    decreases n,
{
    if n == 0 {
        seq![]
    } else {
        seq![(x % 256) as u8] + low_bytes(x / 256, (n - 1) as nat)
    }
}

/// The hash of the eight bytes of a number, the lowest first.
pub fn hash_number(x: u64) -> (h: u64)
    ensures
        h == fnv(low_bytes(x as nat, 8)),
{
    let mut bytes: Vec<u8> = Vec::new();
    let mut rest: u64 = x;
    let mut i: usize = 0;
    while i < 8
        invariant
            i <= 8,
            bytes@ + low_bytes(rest as nat, (8 - i) as nat) == low_bytes(x as nat, 8),
        decreases 8 - i,
    {
        let ghost before = bytes@;
        let b: u8 = (rest % 256) as u8;
        bytes.push(b);
        proof {
            assert(bytes@ + low_bytes((rest / 256) as nat, (7 - i) as nat) =~= before + low_bytes(
                rest as nat,
                (8 - i) as nat,
            ));
        }
        rest = rest / 256;
        i = i + 1;
    }
    proof {
        assert(bytes@ + low_bytes(rest as nat, 0) =~= bytes@);
    }
    hash_bytes(bytes.as_slice())
}

} // verus!
