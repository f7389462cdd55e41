use vstd::prelude::*;

verus! {

/// The ASCII code of the standard base64 symbol for the 6-bit value `v`.
pub open spec fn base64_symbol(v: int) -> u8 {
    if v < 26 {
        (65 + v) as u8
    } else if v < 52 {
        (71 + v) as u8
    } else if v < 62 {
        (v - 4) as u8
    } else if v == 62 {
        43u8
    } else {
        47u8
    }
}

/// Standard base64 (RFC 4648 alphabet, `=` padding) of `b`, as ASCII codes.
pub open spec fn base64_encode(b: Seq<u8>) -> Seq<u8>
    decreases b.len(),
{
    if b.len() >= 3 {
        let (x, y, z) = (b[0] as int, b[1] as int, b[2] as int);
        seq![
            base64_symbol(x / 4),
            base64_symbol((x % 4) * 16 + y / 16),
            base64_symbol((y % 16) * 4 + z / 64),
            base64_symbol(z % 64),
        ] + base64_encode(b.subrange(3, b.len() as int))
    } else if b.len() == 2 {
        let (x, y) = (b[0] as int, b[1] as int);
        seq![
            base64_symbol(x / 4),
            base64_symbol((x % 4) * 16 + y / 16),
            base64_symbol((y % 16) * 4),
            61u8,
        ]
    } else if b.len() == 1 {
        let x = b[0] as int;
        seq![base64_symbol(x / 4), base64_symbol((x % 4) * 16), 61u8, 61u8]
    } else {
        seq![]
    }
}

/// Every three input bytes (and a last partial group) give four symbols.
pub proof fn lemma_base64_len(b: Seq<u8>)
    ensures
        base64_encode(b).len() == 4 * ((b.len() + 2) / 3),
    decreases b.len(),
{
    if b.len() >= 3 {
        lemma_base64_len(b.subrange(3, b.len() as int));
    }
}

/// Relies on `base64::encode`, which encodes with the standard alphabet and
/// `=` padding; its `String` is handed back as its ASCII bytes.
#[verifier::external_body]
pub(crate) fn encode_base64(b: &[u8]) -> (r: Vec<u8>)
    ensures
        r@ == base64_encode(b@),
{
    base64::encode(b).into_bytes()
}

} // verus!
