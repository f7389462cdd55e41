use vstd::prelude::*;

use crate::chance::random_bytes;
use crate::encoding::{base64_encode, encode_base64};
use crate::frame::QueryTimes;

verus! {

/// The record type code of SOA.
pub const SOA_RECORD_TYPE: u16 = 6;

/// The zone `xipoconf.example.com` as ASCII, under which no name exists.
pub open spec fn miss_zone() -> Seq<u8> {
    seq![
        120u8, 105, 112, 111, 99, 111, 110, 102,
        46, 101, 120, 97, 109, 112, 108, 101,
        46, 99, 111, 109,
    ]
}

/// The probe name made of `random`: its base64 as a label under the miss zone.
pub open spec fn miss_name_of(random: Seq<u8>) -> Seq<u8> {
    base64_encode(random) + seq![46u8] + miss_zone()
}

/// The sum of `s`.
pub open spec fn sum_of(s: Seq<u64>) -> int
    decreases s.len(),
{
    if s.len() == 0 {
        0
    } else {
        sum_of(s.drop_last()) + s.last()
    }
}

/// A name under the miss zone whose label is the base64 of `random`.
pub fn miss_probe_name(random: &[u8]) -> (r: Vec<u8>)
    ensures
        r@ == miss_name_of(random@),
{
    let mut name = encode_base64(random);
    let mut zone: Vec<u8> = vec![
        46u8, 120, 105, 112, 111, 99, 111, 110, 102,
        46, 101, 120, 97, 109, 112, 108, 101,
        46, 99, 111, 109,
    ];
    name.append(&mut zone);
    assert(name@ =~= miss_name_of(random@));
    name
}

/// A fresh name under the miss zone, labelled with 32 random bytes: no
/// resolver can have it cached.
pub fn random_name() -> (r: Vec<u8>)
    ensures
        exists|b: Seq<u8>| b.len() == 32 && r@ == miss_name_of(b),
{
    let random = random_bytes(32);
    miss_probe_name(random.as_slice())
}

proof fn lemma_sum_bound(s: Seq<u64>)
    ensures
        0 <= sum_of(s) <= s.len() * 0xffff_ffff_ffff_ffff,
    decreases s.len(),
{
    if s.len() > 0 {
        lemma_sum_bound(s.drop_last());
    }
}

/// The arithmetic mean of `samples`, rounded down.
pub fn mean(samples: &Vec<u64>) -> (r: u64)
    requires
        samples@.len() > 0,
    ensures
        r == sum_of(samples@) / samples@.len() as int,
{
    let mut total: u128 = 0;
    let mut i: usize = 0;
    while i < samples.len()
        invariant
            i <= samples@.len(),
            total == sum_of(samples@.subrange(0, i as int)),
        decreases samples@.len() - i,
    {
        proof {
            let next = samples@.subrange(0, i + 1);
            assert(next.drop_last() =~= samples@.subrange(0, i as int));
            lemma_sum_bound(next);
            assert(next.len() * 0xffff_ffff_ffff_ffff <= 0xffff_ffff_ffff_ffff * 0xffff_ffff_ffff_ffff)
                by (nonlinear_arith)
                requires
                    next.len() <= 0xffff_ffff_ffff_ffff,
            ;
        }
        total = total + samples[i] as u128;
        i = i + 1;
    }
    assert(samples@.subrange(0, i as int) =~= samples@);
    let n = samples.len() as u128;
    proof {
        lemma_sum_bound(samples@);
        assert(sum_of(samples@) / n as int <= 0xffff_ffff_ffff_ffff) by (nonlinear_arith)
            requires
                n >= 1,
                sum_of(samples@) <= n * 0xffff_ffff_ffff_ffff,
                sum_of(samples@) >= 0,
        ;
    }
    (total / n) as u64
}

/// The calibration made of paired probes of fresh names: the mean latency
/// of the first probe (a miss) and of the second (a hit).
pub fn average_query_times(misses: &Vec<u64>, hits: &Vec<u64>) -> (r: QueryTimes)
    requires
        misses@.len() > 0,
        hits@.len() > 0,
    ensures
        r.miss == sum_of(misses@) / misses@.len() as int,
        r.hit == sum_of(hits@) / hits@.len() as int,
{
    QueryTimes { miss: mean(misses), hit: mean(hits) }
}

/// Whether the resolver counts a cached answer's TTL down between two queries.
pub fn ttl_counts_down(ttl1: u32, ttl2: u32) -> (r: bool)
    ensures
        r == (ttl2 < ttl1),
{
    ttl2 < ttl1
}

/// Whether an authority section with these record types carries an SOA.
pub fn carries_soa(record_types: &Vec<u16>) -> (r: bool)
    ensures
        r == record_types@.contains(SOA_RECORD_TYPE),
{
    let mut i: usize = 0;
    while i < record_types.len()
        invariant
            i <= record_types@.len(),
            forall|j: int| 0 <= j < i ==> record_types@[j] != SOA_RECORD_TYPE,
        decreases record_types@.len() - i,
    {
        if record_types[i] == SOA_RECORD_TYPE {
            assert(record_types@[i as int] == SOA_RECORD_TYPE);
            return true;
        }
        i = i + 1;
    }
    false
}

} // verus!
