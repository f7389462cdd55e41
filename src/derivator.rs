use vstd::prelude::*;

use crate::crypto::{hkdf_expand32_of, hkdf_expand_block, hkdf_extract, hmac_sha512_of};
use crate::encoding::{base64_encode, encode_base64, lemma_base64_len};

verus! {

/// The running HKDF salt after `k` steps of the chain over `secret`: an empty
/// HMAC key at first, then each extracted pseudorandom key in turn.
pub open spec fn salt_after(secret: Seq<u8>, k: nat) -> Seq<u8>
    decreases k,
{
    if k == 0 {
        seq![]
    } else {
        hmac_sha512_of(salt_after(secret, (k - 1) as nat), secret)
    }
}

/// The `k`-th 32-byte block of the chain over `secret`.
pub open spec fn block_at(secret: Seq<u8>, k: nat) -> Seq<u8> {
    hkdf_expand32_of(salt_after(secret, k + 1))
}

/// The sink zone `.xipology.example.com.` as ASCII, with its leading dot.
pub open spec fn sink_suffix() -> Seq<u8> {
    seq![
        46u8, 120, 105, 112, 111, 108, 111, 103, 121,
        46, 101, 120, 97, 109, 112, 108, 101,
        46, 99, 111, 109,
        46,
    ]
}

/// The name made of one block: base64 of bytes 0..15, a dot, base64 of bytes
/// 16..31, and the sink zone.
pub open spec fn name_of_block(block: Seq<u8>) -> Seq<u8> {
    base64_encode(block.subrange(0, 15)) + seq![46u8] + base64_encode(block.subrange(16, 31))
        + sink_suffix()
}

/// The `k`-th name of a fresh derivator over `secret`.
pub open spec fn name_at(secret: Seq<u8>, k: nat) -> Seq<u8> {
    name_of_block(block_at(secret, k))
}

/// A stateful generator of pseudo-random DNS names, driven by a secret.
pub struct NameDerivator {
    salt: Vec<u8>,
    secret: Vec<u8>,
    pos: Ghost<nat>,
}

impl View for NameDerivator {
    /// The secret and the number of blocks drawn so far.
    type V = (Seq<u8>, nat);

    closed spec fn view(&self) -> (Seq<u8>, nat) {
        (self.secret@, self.pos@)
    }
}

fn sink_suffix_bytes() -> (r: Vec<u8>)
    ensures
        r@ == sink_suffix(),
{
    let r: Vec<u8> = vec![
        46u8, 120, 105, 112, 111, 108, 111, 103, 121,
        46, 101, 120, 97, 109, 112, 108, 101,
        46, 99, 111, 109,
        46,
    ];
    assert(r@ =~= sink_suffix());
    r
}

/// A copy of `b` in a vector of its own.
pub fn copy_bytes(b: &[u8]) -> (r: Vec<u8>)
    ensures
        r@ == b@,
{
    let mut r: Vec<u8> = Vec::with_capacity(b.len());
    let mut i: usize = 0;
    while i < b.len()
        invariant
            i <= b@.len(),
            r@ == b@.subrange(0, i as int),
        decreases b@.len() - i,
    {
        r.push(b[i]);
        i = i + 1;
        assert(r@ =~= b@.subrange(0, i as int));
    }
    assert(r@ =~= b@);
    r
}

impl NameDerivator {
    /// The salt is the one the chain holds at the current position: empty,
    /// or a 64-byte key.
    pub closed spec fn wf(&self) -> bool {
        &&& self.salt@ == salt_after(self.secret@, self.pos@)
        &&& self.salt@.len() <= 64
    }

    /// A fresh derivator over a copy of `secret`.
    pub fn from_secret(secret: &[u8]) -> (r: Self)
        ensures
            r.wf(),
            r@ == (secret@, 0nat),
    {
        let salt: Vec<u8> = Vec::new();
        let copy = copy_bytes(secret);
        let r = NameDerivator { salt, secret: copy, pos: Ghost(0nat) };
        assert(r.salt@ =~= salt_after(r.secret@, 0));
        r
    }

    /// Extracts the next pseudorandom key, makes it the salt, and expands
    /// one 32-byte block from it.
    pub fn hkdf_extract_and_expand(&mut self) -> (r: Vec<u8>)
        requires
            old(self).wf(),
        ensures
            final(self).wf(),
            final(self)@ == (old(self)@.0, old(self)@.1 + 1),
            r@ == block_at(old(self)@.0, old(self)@.1),
            r@.len() == 32,
    {
        let prk = hkdf_extract(self.salt.as_slice(), self.secret.as_slice());
        let block = hkdf_expand_block(prk.as_slice());
        self.salt = prk;
        self.pos = Ghost(self.pos@ + 1);
        block
    }

    /// The next name of the sequence: `<label>.<label>.xipology.example.com.`.
    pub fn next_name(&mut self) -> (r: Vec<u8>)
        requires
            old(self).wf(),
        ensures
            final(self).wf(),
            final(self)@ == (old(self)@.0, old(self)@.1 + 1),
            r@ == name_at(old(self)@.0, old(self)@.1),
            r@.len() == 63,
    {
        let block = self.hkdf_extract_and_expand();
        let mut name = encode_base64(vstd::slice::slice_subrange(block.as_slice(), 0, 15));
        let mut dot: Vec<u8> = vec![46u8];
        name.append(&mut dot);
        let mut label2 = encode_base64(vstd::slice::slice_subrange(block.as_slice(), 16, 31));
        name.append(&mut label2);
        let mut suffix = sink_suffix_bytes();
        name.append(&mut suffix);
        proof {
            assert(name@ =~= name_of_block(block@));
            lemma_name_shape(block@);
        }
        name
    }
}

/// A name made of a 32-byte block consists of two labels of 20 characters
/// and the sink zone: 63 octets in all, within the 63-octet label and the
/// 253-octet name limits.
pub proof fn lemma_name_shape(block: Seq<u8>)
    requires
        block.len() == 32,
    ensures
        name_of_block(block).len() == 63,
        name_of_block(block).subrange(0, 20) == base64_encode(block.subrange(0, 15)),
        name_of_block(block)[20] == 46u8,
        name_of_block(block).subrange(21, 41) == base64_encode(block.subrange(16, 31)),
        name_of_block(block).subrange(41, 63) == sink_suffix(),
{
    lemma_base64_len(block.subrange(0, 15));
    lemma_base64_len(block.subrange(16, 31));
    let n = name_of_block(block);
    assert(n.subrange(0, 20) =~= base64_encode(block.subrange(0, 15)));
    assert(n.subrange(21, 41) =~= base64_encode(block.subrange(16, 31)));
    assert(n.subrange(41, 63) =~= sink_suffix());
}

} // verus!
