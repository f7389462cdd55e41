use std::collections::HashSet;

use xipolib::autoconf::{average_query_times, carries_soa, mean, miss_probe_name, ttl_counts_down};
use xipolib::channel::{assemble_payload, probe_order, Xipology};
use xipolib::frame::{decode_tags, is_hit, QueryTimes, ReadError, Slot, SlotTag};
use xipolib::rendezvous::{period, SecretGen};
use xipolib::{get_bit, set_bit, NameDerivator};

const QT: QueryTimes = QueryTimes { miss: 20000, hit: 500 };

/// A resolver that caches every name it is asked for.
struct PerfectCache {
    names: HashSet<Vec<u8>>,
}

impl PerfectCache {
    fn new() -> Self {
        PerfectCache { names: HashSet::new() }
    }

    fn write(&mut self, slots: &[Slot]) {
        for s in slots {
            self.names.insert(s.name.clone());
        }
    }

    fn probe(&mut self, slots: &[Slot]) -> Vec<Option<u64>> {
        let delays = slots
            .iter()
            .map(|s| Some(if self.names.contains(&s.name) { QT.hit } else { QT.miss }))
            .collect();
        self.write(slots);
        delays
    }
}

fn reader(secret: &[u8]) -> Xipology {
    let mut x = Xipology::from_secret(secret.to_vec());
    x.set_query_times(QT);
    x
}

fn read_one(x: &mut Xipology, cache: &mut PerfectCache) -> Result<u8, ReadError> {
    let slots = x.byte_input();
    let delays = cache.probe(&slots);
    x.read_bits(&slots, &delays)
}

#[test]
fn get_bit_examples() {
    assert_eq!(get_bit(0, 0), 0);
    assert_eq!(get_bit(0xFF, 0), 1);
    assert_eq!(get_bit(0x80, 6), 0);
    assert_eq!(get_bit(0x80, 7), 1);
}

#[test]
fn set_bit_examples() {
    let mut b1 = 0u8;
    set_bit(&mut b1, 0);
    assert_eq!(b1, 1);
    let mut b2 = 0u8;
    set_bit(&mut b2, 7);
    assert_eq!(b2, 128);
}

#[test]
fn round_trip_one_byte() {
    let mut cache = PerfectCache::new();
    let mut w = Xipology::from_secret(b"test".to_vec());
    let slots = w.write_byte(0x41);
    cache.write(&slots);
    let mut r = reader(b"test");
    assert_eq!(read_one(&mut r, &mut cache), Ok(0x41));
}

#[test]
fn round_trip_every_byte() {
    for b in 0..=255u8 {
        let mut cache = PerfectCache::new();
        let mut w = Xipology::from_secret(b"every".to_vec());
        cache.write(&w.write_byte(b));
        let mut r = reader(b"every");
        assert_eq!(read_one(&mut r, &mut cache), Ok(b));
    }
}

#[test]
fn free_slot() {
    let mut cache = PerfectCache::new();
    let mut r = reader(b"test");
    assert_eq!(read_one(&mut r, &mut cache), Err(ReadError::Free));
}

#[test]
fn consumed_slot() {
    let mut cache = PerfectCache::new();
    let mut w = Xipology::from_secret(b"test".to_vec());
    cache.write(&w.write_byte(0x00));
    let mut a = reader(b"test");
    assert_eq!(read_one(&mut a, &mut cache), Ok(0x00));
    let mut b = reader(b"test");
    assert_eq!(read_one(&mut b, &mut cache), Err(ReadError::Consumed));
}

#[test]
fn multi_byte_string() {
    let mut cache = PerfectCache::new();
    let mut w = Xipology::from_secret(b"s".to_vec());
    let slots = w.write_bytes(b"hi").expect("length in range");
    cache.write(&slots);
    let mut r = reader(b"s");
    let len = read_one(&mut r, &mut cache).expect("length frame");
    assert_eq!(len, 2);
    let frames = r.payload_inputs(len);
    let results: Vec<Result<u8, ReadError>> = frames
        .iter()
        .map(|f| {
            let d = cache.probe(f);
            r.read_bits(f, &d)
        })
        .collect();
    let buf = assemble_payload(&results);
    assert_eq!(buf, b"hi".to_vec());
}

#[test]
fn write_bytes_rejects_length_out_of_range() {
    let mut w = Xipology::from_secret(b"s".to_vec());
    assert!(w.write_bytes(&[]).is_none());
    assert!(w.write_bytes(&[7u8; 255]).is_none());
    assert!(w.write_bytes(&[7u8; 254]).is_some());
}

#[test]
fn parity_injection() {
    let mut cache = PerfectCache::new();
    let mut w = Xipology::from_secret(b"test".to_vec());
    cache.write(&w.write_byte(0x41));
    let mut r = reader(b"test");
    let slots = r.byte_input();
    let mut delays = cache.probe(&slots);
    // Flip the classification of the slot of bit 1, which 0x41 leaves clear.
    let i = slots.iter().position(|s| s.tag == SlotTag::Data(1)).unwrap();
    delays[i] = Some(QT.hit);
    assert_eq!(r.read_bits(&slots, &delays), Err(ReadError::Parity));
}

#[test]
fn frame_parity_is_even() {
    for b in [0u8, 1, 3, 0x41, 0x7f, 0xff] {
        let mut w = Xipology::from_secret(b"p".to_vec());
        let slots = w.byte_output(b);
        let set = slots
            .iter()
            .filter(|s| matches!(s.tag, SlotTag::Data(_) | SlotTag::Parity))
            .count();
        assert_eq!(set % 2, 0);
        assert_eq!(slots[0].tag, SlotTag::Reservation);
    }
}

#[test]
fn rendezvous_rolling_secret() {
    let t = 1_700_000_000i64;
    let mut g = SecretGen::from_time(b"rendezvous", t);
    assert_eq!(g.secret_at(t), b"rendezvous-5666666-0".to_vec());
    assert_eq!(g.secret_at(t + 1), b"rendezvous-5666666-1".to_vec());
    assert_eq!(g.secret_at(t + 2), b"rendezvous-5666666-2".to_vec());
    assert_eq!(g.secret_at(t + 100), b"rendezvous-5666667-0".to_vec());
    assert_eq!(g.secret_at(t + 101), b"rendezvous-5666667-1".to_vec());
}

#[test]
fn period_rounds_toward_zero() {
    assert_eq!(period(1_700_000_000), 5_666_666);
    assert_eq!(period(299), 0);
    assert_eq!(period(-299), 0);
    assert_eq!(period(-600), -2);
    let mut g = SecretGen::from_time(b"x", -600);
    assert_eq!(g.secret_at(-600), b"x--2-0".to_vec());
}

#[test]
fn names_are_reproducible_and_shaped() {
    let mut a = NameDerivator::from_secret(b"test");
    let mut b = NameDerivator::from_secret(b"test");
    let mut c = NameDerivator::from_secret(b"other");
    let n1 = a.next_name();
    assert_eq!(n1, b.next_name());
    assert_ne!(n1, c.next_name());
    let n2 = a.next_name();
    assert_ne!(n1, n2);
    for n in [&n1, &n2] {
        let text = std::str::from_utf8(n).unwrap();
        assert_eq!(text.len(), 63);
        let labels: Vec<&str> = text.split('.').collect();
        assert_eq!(labels[0].len(), 20);
        assert_eq!(labels[1].len(), 20);
        assert!(text.ends_with(".xipology.example.com."));
    }
}

#[test]
fn reset_replays_names() {
    let mut x = Xipology::from_secret(b"test".to_vec());
    let first = x.byte_input();
    let _ = x.byte_input();
    x.set_query_times(QT);
    x.reset();
    assert_eq!(x.query_times(), None);
    let again = x.byte_input();
    for (a, b) in first.iter().zip(again.iter()) {
        assert_eq!(a.name, b.name);
        assert_eq!(a.tag, b.tag);
    }
    x.change_secret(b"other".to_vec());
    let other = x.byte_input();
    assert_ne!(other[0].name, first[0].name);
}

#[test]
fn classifier_midpoint_is_miss() {
    let qt = QueryTimes { miss: 1000, hit: 0 };
    assert!(!is_hit(qt, Some(500)));
    assert!(is_hit(qt, Some(499)));
    assert!(!is_hit(qt, Some(501)));
    assert!(!is_hit(qt, None));
}

#[test]
fn decode_errors() {
    assert_eq!(decode_tags(&vec![SlotTag::Decoy]), Err(ReadError::Free));
    assert_eq!(
        decode_tags(&vec![SlotTag::Reservation, SlotTag::Guard]),
        Err(ReadError::Consumed)
    );
    assert_eq!(
        decode_tags(&vec![SlotTag::Reservation, SlotTag::Data(3)]),
        Err(ReadError::Parity)
    );
    assert_eq!(
        decode_tags(&vec![SlotTag::Reservation, SlotTag::Data(3), SlotTag::Parity]),
        Ok(8)
    );
}

#[test]
fn payload_substitutes_space() {
    let r = assemble_payload(&vec![Ok(b'a'), Err(ReadError::Parity), Ok(b'c')]);
    assert_eq!(r, b"a c".to_vec());
}

#[test]
fn probe_order_is_a_permutation() {
    let mut o = probe_order(11);
    o.sort();
    assert_eq!(o, (0..11).collect::<Vec<usize>>());
}

#[test]
fn miss_probe_name_encodes_label() {
    assert_eq!(miss_probe_name(&[0, 0, 0]), b"AAAA.xipoconf.example.com".to_vec());
    assert_eq!(miss_probe_name(&[0xff, 0xff]), b"//8=.xipoconf.example.com".to_vec());
    assert_eq!(xipolib::autoconf::random_name().len(), 44 + 21);
}

#[test]
fn calibration_means() {
    assert_eq!(mean(&vec![1, 2, 4]), 2);
    assert_eq!(mean(&vec![u64::MAX, u64::MAX]), u64::MAX);
    let qt = average_query_times(&vec![10000, 12000], &vec![300, 500]);
    assert_eq!(qt, QueryTimes { miss: 11000, hit: 400 });
}

#[test]
fn probe_checks() {
    assert!(ttl_counts_down(300, 299));
    assert!(!ttl_counts_down(300, 300));
    assert!(carries_soa(&vec![1, 6]));
    assert!(!carries_soa(&vec![1, 2]));
}

#[test]
fn names_match_hkdf_sha512_chain() {
    let mut d = NameDerivator::from_secret(b"test");
    assert_eq!(
        d.next_name(),
        b"gY4hLvWcEtcQJmlzlobS.9E36f6DscpYlg2m5JrBj.xipology.example.com.".to_vec()
    );
    assert_eq!(
        d.next_name(),
        b"8KevzFX+fGFCVBUpj4YB.H/Wn4pVW91sXPyq+6fTc.xipology.example.com.".to_vec()
    );
    assert_eq!(
        d.next_name(),
        b"xzh566ncGB1yaa6BZKjW.oskT39R+HKpjiS19IrJh.xipology.example.com.".to_vec()
    );
}

#[test]
fn decoy_derivator_follows_first_block() {
    // A channel's primary derivator has drawn one block (the decoy seed), so
    // its first frame starts at the chain's second name.
    let mut x = Xipology::from_secret(b"test".to_vec());
    let slots = x.byte_input();
    assert_eq!(
        slots[0].name,
        b"8KevzFX+fGFCVBUpj4YB.H/Wn4pVW91sXPyq+6fTc.xipology.example.com.".to_vec()
    );
    assert_eq!(slots.len(), 11);
}
