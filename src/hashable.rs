use vstd::prelude::*;

verus! {

/// The seed of the string digest.
pub const DJB2_SEED: usize = 5381;

/// The djb2 digest of a byte sequence: starting from 5381, each byte `b` turns the
/// accumulator `acc` into `acc * 33 + b`, reduced modulo the word size.
pub open spec fn djb2(bytes: Seq<u8>) -> usize
    decreases bytes.len(),
{
    if bytes.len() == 0 {
        DJB2_SEED
    } else {
        let acc = djb2(bytes.drop_last());
        ((acc as nat * 33 + bytes.last() as nat) % (usize::MAX as nat + 1)) as usize
    }
}

/// A key type that a `HashTable` can hold: it has a deterministic digest and an
/// equality, both functions of the key's abstract value.
pub trait Hashable: View + Sized {
    /// The digest of a key, as a function of its abstract value: equal keys
    /// never disagree on it.
    spec fn digest(key: Self::V) -> usize;

    fn hash(&self) -> (r: usize)
        ensures
            r == Self::digest(self@),
    ;

    /// Key equality, which agrees with equality of the abstract values. The table
    /// compares keys through it, so that the digest and the comparison speak of the
    /// same values.
    fn same_key(&self, other: &Self) -> (r: bool)
        ensures
            r == (self@ == other@),
    ;
}

impl Hashable for String {
    open spec fn digest(key: Seq<char>) -> usize {
        djb2(vstd::utf8::encode_utf8(key))
    }

    fn hash(&self) -> (r: usize) {
        let bytes = self.as_str().as_bytes();
        let mut hash: usize = DJB2_SEED;
        let mut i: usize = 0;
        while i < bytes.len()
            invariant
                0 <= i <= bytes@.len(),
                bytes@ == vstd::utf8::encode_utf8(self@),
                hash == djb2(bytes@.subrange(0, i as int)),
            decreases bytes@.len() - i,
        {
            proof {
                let prefix = bytes@.subrange(0, i as int + 1);
                assert(prefix.drop_last() == bytes@.subrange(0, i as int));
                lemma_djb2_step(hash, bytes@[i as int]);
            }
            hash = hash.wrapping_mul(33).wrapping_add(bytes[i] as usize);
            i = i + 1;
        }
        assert(bytes@.subrange(0, bytes@.len() as int) == bytes@);
        hash
    }

    fn same_key(&self, other: &Self) -> (r: bool) {
        *self == *other
    }
}

impl Hashable for usize {
    open spec fn digest(key: usize) -> usize {
        key
    }

    fn hash(&self) -> (r: usize) {
        *self
    }

    fn same_key(&self, other: &Self) -> (r: bool) {
        *self == *other
    }
}

/// One step of the digest, done with wrapping operations, is the step that `djb2`
/// states.
proof fn lemma_djb2_step(acc: usize, b: u8)
    ensures
        acc.wrapping_mul(33).wrapping_add(b as usize) == ((acc as nat * 33 + b as nat) % (
        usize::MAX as nat + 1)) as usize,
{
    let m = usize::MAX as nat + 1;
    let p = acc as nat * 33;
    vstd::arithmetic::div_mod::lemma_add_mod_noop(p as int, b as int, m as int);
    vstd::arithmetic::div_mod::lemma_mod_twice(b as int, m as int);
    assert((b as nat) % m == b as nat) by {
        vstd::arithmetic::div_mod::lemma_small_mod(b as nat, m);
    }
}

/// Digests are functions of the key: equal strings get one digest, and the digest
/// of an integer is the integer itself.
pub proof fn lemma_digest_determinism(s: String, t: String, n: usize)
    requires
        s@ == t@,
    ensures
        String::digest(s@) == String::digest(t@),
        usize::digest(n) == n,
{
}

} // verus!
