use vstd::prelude::*;

use crate::bits::bit_set;
use crate::channel::{
    assembled, decoy_view, lemma_concat_contains, read_view, write_view, Xipology,
};
use crate::derivator::{block_at, name_at, NameDerivator};
use crate::frame::{
    byte_of, classified, data_count, decode_spec, hit_spec, ones_below, slot_tag, tags_valid,
    written, written_slots, written_upto, QueryTimes, ReadError, SlotTag,
};

verus! {

/// The latencies that a resolver which caches perfectly shows for `slots`:
/// the hit mean for a cached name, the miss mean for any other.
pub open spec fn cache_delays(
    slots: Seq<(SlotTag, Seq<u8>)>,
    cache: Set<Seq<u8>>,
    qt: QueryTimes,
) -> Seq<Option<u64>> {
    Seq::new(
        slots.len(),
        |i: int|
            Some(
                if cache.contains(slots[i].1) {
                    qt.hit
                } else {
                    qt.miss
                },
            ),
    )
}

/// What a reader makes of the frame at `k`, its `n` decoy slots named from
/// position `dk` of the chain over `ds`, against a resolver that caches
/// perfectly.
pub open spec fn frame_read(
    s: Seq<u8>,
    k: nat,
    ds: Seq<u8>,
    dk: nat,
    n: nat,
    cache: Set<Seq<u8>>,
    qt: QueryTimes,
) -> Result<u8, ReadError> {
    let slots = read_view(s, k) + decoy_view(ds, dk, n);
    decode_spec(classified(slots, cache_delays(slots, cache, qt), qt))
}

/// The eleven names of the frame at position `k` differ from one another.
pub open spec fn frame_names_distinct(s: Seq<u8>, k: nat) -> bool {
    forall|i: nat, j: nat|
        #![trigger name_at(s, k + i), name_at(s, k + j)]
        i < 11 && j < 11 && i != j ==> name_at(s, k + i) != name_at(s, k + j)
}

proof fn lemma_singleton_contains<A>(v: A, y: A)
    ensures
        seq![v].contains(y) <==> v == y,
{
    if v == y {
        assert(seq![v][0] == y);
    }
}

proof fn lemma_cached_hit(qt: QueryTimes)
    requires
        qt.hit != qt.miss,
    ensures
        hit_spec(qt, Some(qt.hit)),
        !hit_spec(qt, Some(qt.miss)),
{
}

/// Two derivators over the same secret that have drawn the same number of
/// blocks produce the same names from then on: the `k`-th name depends on the
/// secret and `k` alone.
pub proof fn lemma_names_reproducible(a: NameDerivator, b: NameDerivator, i: nat)
    requires
        a.wf(),
        b.wf(),
        a@ == b@,
    ensures
        name_at(a@.0, a@.1 + i) == name_at(b@.0, b@.1 + i),
{
}

/// A channel rewound by `reset` or `change_secret` draws the same primary and
/// decoy names as a channel just built from the same secret.
pub proof fn lemma_reset_replays(rewound: Xipology, built: Xipology, s: Seq<u8>, i: nat)
    requires
        rewound.is_fresh(s),
        built.is_fresh(s),
    ensures
        name_at(rewound.primary().0, rewound.primary().1 + i) == name_at(
            built.primary().0,
            built.primary().1 + i,
        ),
        name_at(rewound.decoy_state().0, rewound.decoy_state().1 + i) == name_at(
            built.decoy_state().0,
            built.decoy_state().1 + i,
        ),
{
}

/// Both ends reach the same decoy names without exchanging them: the decoy
/// derivator of a channel just built from `s` is a fresh derivator over the
/// first block of the chain over `s`, and draws the names such a derivator
/// draws.
pub proof fn lemma_decoy_is_fresh_derivator(x: Xipology, d: NameDerivator, s: Seq<u8>, i: nat)
    requires
        x.is_fresh(s),
        d.wf(),
        d@ == (block_at(s, 0), 0nat),
    ensures
        x.decoy_state() == d@,
        name_at(x.decoy_state().0, x.decoy_state().1 + i) == name_at(d@.0, d@.1 + i),
{
}

proof fn lemma_written_upto_contains(b: u8, n: nat, e: nat)
    ensures
        written_upto(b, n).contains(e) <==> (e < n && written(b, e)),
    decreases n,
{
    if n > 0 {
        let m = (n - 1) as nat;
        lemma_written_upto_contains(b, m, e);
        let tail = if written(b, m) {
            seq![m]
        } else {
            seq![]
        };
        lemma_concat_contains(written_upto(b, m), tail, e);
        if tail.contains(e) {
            let j = choose|j: int| 0 <= j < tail.len() && tail[j] == e;
        }
        if e == m && written(b, m) {
            assert(tail[0] == e);
        }
    }
}

/// The tags of the slots that the writer of `b` sets.
pub open spec fn written_tags(b: u8) -> Seq<SlotTag> {
    written_slots(b).map_values(|i: nat| slot_tag(i))
}

proof fn lemma_written_tags_upto(b: u8, n: nat)
    requires
        2 <= n <= 10,
    ensures
        data_count(written_upto(b, n).map_values(|i: nat| slot_tag(i))) == ones_below(b, (n - 2) as nat),
        !written_upto(b, n).map_values(|i: nat| slot_tag(i)).contains(SlotTag::Parity),
    decreases n,
{
    let t = written_upto(b, n).map_values(|i: nat| slot_tag(i));
    if n == 2 {
        assert(written_upto(b, 0) =~= seq![]);
        assert(written_upto(b, 1) =~= seq![0nat]);
        assert(written_upto(b, 2) =~= seq![0nat]);
        assert(t =~= seq![SlotTag::Reservation]);
        assert(t.drop_last() =~= seq![]);
        assert(data_count(Seq::<SlotTag>::empty()) == 0);
        assert(data_count(t) == 0);
        if t.contains(SlotTag::Parity) {
            let j = choose|j: int| 0 <= j < t.len() && t[j] == SlotTag::Parity;
        }
    } else {
        let m = (n - 1) as nat;
        lemma_written_tags_upto(b, m);
        let p = written_upto(b, m).map_values(|i: nat| slot_tag(i));
        assert(ones_below(b, (n - 2) as nat) == ones_below(b, (m - 2) as nat) + if bit_set(
            b,
            (m - 2) as nat,
        ) {
            1nat
        } else {
            0nat
        });
        if written(b, m) {
            assert(t =~= p.push(SlotTag::Data((m - 2) as u8)));
            assert(t.drop_last() =~= p);
            assert(data_count(t) == data_count(p) + 1);
        } else {
            assert(t =~= p);
        }
        if t.contains(SlotTag::Parity) {
            let j = choose|j: int| 0 <= j < t.len() && t[j] == SlotTag::Parity;
            if j < p.len() {
                assert(p[j] == SlotTag::Parity);
            }
        }
    }
}

/// Every frame a writer emits is of even parity: its data slots and its
/// parity slot, if set, number an even count.
pub proof fn lemma_frame_even_parity(b: u8)
    ensures
        (data_count(written_tags(b)) + if written_tags(b).contains(SlotTag::Parity) {
            1int
        } else {
            0int
        }) % 2 == 0,
{
    lemma_written_tags_upto(b, 10);
    let p = written_upto(b, 10).map_values(|i: nat| slot_tag(i));
    let t = written_tags(b);
    if written(b, 10) {
        assert(t =~= p.push(SlotTag::Parity));
        assert(t.drop_last() =~= p);
        assert(t[t.len() - 1] == SlotTag::Parity);
    } else {
        assert(t =~= p);
    }
}

/// The tags a reader keeps from the frame at `k` when exactly the slots `b`
/// sets are cached.
pub open spec fn round_trip_tags(b: u8, n: nat) -> Seq<SlotTag> {
    Seq::new(
        11 + n,
        |i: int|
            if i < 11 && written(b, i as nat) {
                slot_tag(i as nat)
            } else {
                SlotTag::Decoy
            },
    )
}

proof fn lemma_round_trip_prefix(b: u8, n: nat, m: nat)
    requires
        2 <= m <= 10,
    ensures
        data_count(round_trip_tags(b, n).subrange(0, m as int)) == ones_below(b, (m - 2) as nat),
    decreases m,
{
    let t = round_trip_tags(b, n);
    let p = t.subrange(0, m as int);
    if m == 2 {
        assert(p.drop_last().drop_last() =~= seq![]);
        assert(data_count(Seq::<SlotTag>::empty()) == 0);
        assert(data_count(p.drop_last()) == 0);
        assert(data_count(p) == 0);
    } else {
        let q = t.subrange(0, m - 1);
        lemma_round_trip_prefix(b, n, (m - 1) as nat);
        assert(p.drop_last() =~= q);
        assert(p =~= q + seq![t[m - 1]]);
        assert(ones_below(b, (m - 2) as nat) == ones_below(b, (m - 3) as nat) + if bit_set(
            b,
            (m - 3) as nat,
        ) {
            1nat
        } else {
            0nat
        });
        assert(data_count(p) == data_count(q) + if t[m - 1] is Data {
            1nat
        } else {
            0nat
        });
    }
}

proof fn lemma_byte_of_bits(t: Seq<SlotTag>, j: u8)
    requires
        tags_valid(t),
        j < 8,
    ensures
        bit_set(byte_of(t), j as nat) <==> t.contains(SlotTag::Data(j)),
    decreases t.len(),
{
    if t.len() > 0 {
        let p = t.drop_last();
        assert(tags_valid(p)) by {
            assert forall|i: int| 0 <= i < p.len() implies (#[trigger] p[i] matches SlotTag::Data(n)
                ==> n < 8) by {
                assert(p[i] == t[i]);
            }
        }
        lemma_byte_of_bits(p, j);
        assert(t =~= p + seq![t.last()]);
        lemma_concat_contains(p, seq![t.last()], SlotTag::Data(j));
        lemma_singleton_contains(t.last(), SlotTag::Data(j));
        let x = byte_of(p);
        match t.last() {
            SlotTag::Data(n) => {
                assert(t[t.len() - 1] matches SlotTag::Data(n) ==> n < 8);
                assert((((x | (1u8 << n)) >> j) & 1 == 1) <==> (((x >> j) & 1 == 1) || j == n))
                    by (bit_vector)
                    requires
                        n < 8,
                        j < 8,
                ;
            },
            _ => {},
        }
    } else {
        assert((0u8 >> j) & 1 == 0) by (bit_vector);
    }
}

proof fn lemma_bits_eq(x: u8, y: u8)
    requires
        forall|j: nat| j < 8 ==> bit_set(x, j) == bit_set(y, j),
    ensures
        x == y,
{
    assert(bit_set(x, 0) == bit_set(y, 0));
    assert(bit_set(x, 1) == bit_set(y, 1));
    assert(bit_set(x, 2) == bit_set(y, 2));
    assert(bit_set(x, 3) == bit_set(y, 3));
    assert(bit_set(x, 4) == bit_set(y, 4));
    assert(bit_set(x, 5) == bit_set(y, 5));
    assert(bit_set(x, 6) == bit_set(y, 6));
    assert(bit_set(x, 7) == bit_set(y, 7));
    assert(x == y) by (bit_vector)
        requires
            ((x >> 0u8) & 1 == 1) == ((y >> 0u8) & 1 == 1),
            ((x >> 1u8) & 1 == 1) == ((y >> 1u8) & 1 == 1),
            ((x >> 2u8) & 1 == 1) == ((y >> 2u8) & 1 == 1),
            ((x >> 3u8) & 1 == 1) == ((y >> 3u8) & 1 == 1),
            ((x >> 4u8) & 1 == 1) == ((y >> 4u8) & 1 == 1),
            ((x >> 5u8) & 1 == 1) == ((y >> 5u8) & 1 == 1),
            ((x >> 6u8) & 1 == 1) == ((y >> 6u8) & 1 == 1),
            ((x >> 7u8) & 1 == 1) == ((y >> 7u8) & 1 == 1),
    ;
}

proof fn lemma_round_trip_tail(b: u8, n: nat, m: nat)
    requires
        10 <= m <= 11 + n,
    ensures
        data_count(round_trip_tags(b, n).subrange(0, m as int)) == ones_below(b, 8),
    decreases m,
{
    let t = round_trip_tags(b, n);
    if m == 10 {
        lemma_round_trip_prefix(b, n, 10);
    } else {
        lemma_round_trip_tail(b, n, (m - 1) as nat);
        assert(t.subrange(0, m as int).drop_last() =~= t.subrange(0, m - 1));
        assert(!(t[m - 1] is Data));
    }
}

/// What a read makes of the frame that `b` was written to.
proof fn lemma_round_trip_decode(b: u8, n: nat)
    ensures
        decode_spec(round_trip_tags(b, n)) == Ok::<u8, ReadError>(b),
{
    let t = round_trip_tags(b, n);
    assert(t[0] == SlotTag::Reservation);
    assert(t.contains(SlotTag::Reservation));
    if t.contains(SlotTag::Guard) {
        let i = choose|i: int| 0 <= i < t.len() && t[i] == SlotTag::Guard;
    }
    lemma_round_trip_tail(b, n, 11 + n);
    assert(t.subrange(0, (11 + n) as int) =~= t);
    if t.contains(SlotTag::Parity) {
        let i = choose|i: int| 0 <= i < t.len() && t[i] == SlotTag::Parity;
        assert(i == 10);
    }
    if written(b, 10) {
        assert(t[10] == SlotTag::Parity);
    }
    assert(tags_valid(t));
    assert forall|j: nat| j < 8 implies bit_set(byte_of(t), j) == bit_set(b, j) by {
        lemma_byte_of_bits(t, j as u8);
        if t.contains(SlotTag::Data(j as u8)) {
            let i = choose|i: int| 0 <= i < t.len() && t[i] == SlotTag::Data(j as u8);
            assert(i == j + 2);
        }
        if bit_set(b, j) {
            assert(t[j + 2int] == SlotTag::Data(j as u8));
        }
    }
    lemma_bits_eq(byte_of(t), b);
}

/// A byte written to a frame reads back from it. The resolver caches
/// perfectly: of the frame's eleven names it holds exactly those the writer
/// of `b` probed, and those names differ from one another. Then a read of
/// the frame, its decoy slots included, yields `b`.
pub proof fn lemma_write_read_round_trip(
    s: Seq<u8>,
    k: nat,
    b: u8,
    ds: Seq<u8>,
    dk: nat,
    n: nat,
    cache: Set<Seq<u8>>,
    qt: QueryTimes,
)
    requires
        qt.hit != qt.miss,
        frame_names_distinct(s, k),
        holds_frame(s, k, b, cache),
    ensures
        frame_read(s, k, ds, dk, n, cache, qt) == Ok::<u8, ReadError>(b),
{
    let slots = read_view(s, k) + decoy_view(ds, dk, n);
    let t = classified(slots, cache_delays(slots, cache, qt), qt);
    lemma_cached_hit(qt);
    let w = write_view(s, k, b);
    assert forall|i: int| 0 <= i < t.len() implies t[i] == round_trip_tags(b, n)[i] by {
        if i < 11 {
            let iv = i as nat;
            assert(slots[i] == (slot_tag(iv), name_at(s, k + iv)));
            if written(b, iv) {
                lemma_written_upto_contains(b, 11, iv);
                let j = choose|j: int| 0 <= j < written_slots(b).len() && written_slots(b)[j] == iv;
                assert(w[j].1 == name_at(s, k + iv));
                assert(cache.contains(name_at(s, k + iv)));
            } else if cache.contains(name_at(s, k + iv)) {
                let j = choose|j: int| 0 <= j < w.len() && w[j].1 == name_at(s, k + iv);
                let e = written_slots(b)[j];
                assert(written_slots(b).contains(e));
                lemma_written_upto_contains(b, 11, e);
                assert(name_at(s, k + e) == name_at(s, k + iv));
            }
        } else {
            assert(slots[i].0 == SlotTag::Decoy);
        }
    }
    assert(t =~= round_trip_tags(b, n));
    lemma_round_trip_decode(b, n);
}

/// A frame that nobody wrote reads as free: when the resolver does not hold
/// the frame's reservation name, a read of the frame yields `Free`.
pub proof fn lemma_unwritten_frame_is_free(
    s: Seq<u8>,
    k: nat,
    ds: Seq<u8>,
    dk: nat,
    n: nat,
    cache: Set<Seq<u8>>,
    qt: QueryTimes,
)
    requires
        qt.hit != qt.miss,
        !cache.contains(name_at(s, k)),
    ensures
        frame_read(s, k, ds, dk, n, cache, qt) == Err::<u8, ReadError>(ReadError::Free),
{
    let slots = read_view(s, k) + decoy_view(ds, dk, n);
    let t = classified(slots, cache_delays(slots, cache, qt), qt);
    lemma_cached_hit(qt);
    assert(slots[0].1 == name_at(s, k + 0));
    if t.contains(SlotTag::Reservation) {
        let i = choose|i: int| 0 <= i < t.len() && t[i] == SlotTag::Reservation;
        if i < 11 {
            assert(slots[i].0 == slot_tag(i as nat));
        } else {
            assert(slots[i].0 == SlotTag::Decoy);
        }
    }
}

/// A frame reads as consumed once it has been read: a read probes the
/// reservation and the guard names, so that the resolver holds both; a later
/// read of the frame yields `Consumed`.
pub proof fn lemma_second_read_consumed(
    s: Seq<u8>,
    k: nat,
    ds: Seq<u8>,
    dk: nat,
    n: nat,
    cache: Set<Seq<u8>>,
    qt: QueryTimes,
)
    requires
        qt.hit != qt.miss,
        forall|i: int|
            0 <= i < 11 ==> cache.contains(#[trigger] read_view(s, k)[i].1),
    ensures
        frame_read(s, k, ds, dk, n, cache, qt) == Err::<u8, ReadError>(ReadError::Consumed),
{
    let slots = read_view(s, k) + decoy_view(ds, dk, n);
    let t = classified(slots, cache_delays(slots, cache, qt), qt);
    lemma_cached_hit(qt);
    assert(cache.contains(read_view(s, k)[0].1));
    assert(cache.contains(read_view(s, k)[1].1));
    assert(t[0] == SlotTag::Reservation);
    assert(t[1] == SlotTag::Guard);
    assert(t.contains(SlotTag::Reservation));
    assert(t.contains(SlotTag::Guard));
}

/// What a reader makes of the `len` payload frames that follow the length
/// frame at `k`, against a resolver that caches perfectly.
pub open spec fn payload_reads(
    s: Seq<u8>,
    k: nat,
    len: nat,
    cache: Set<Seq<u8>>,
    qt: QueryTimes,
) -> Seq<Result<u8, ReadError>> {
    Seq::new(len, |i: int| frame_read(s, k + 11 * (i + 1) as nat, seq![], 0, 0, cache, qt))
}

/// The resolver holds, of the eleven names of the frame at `k`, exactly
/// those that the writer of `b` probed.
pub open spec fn holds_frame(s: Seq<u8>, k: nat, b: u8, cache: Set<Seq<u8>>) -> bool {
    forall|i: nat|
        i < 11 ==> (cache.contains(#[trigger] name_at(s, k + i)) <==> exists|j: int|
            0 <= j < write_view(s, k, b).len() && write_view(s, k, b)[j].1 == name_at(s, k + i))
}

/// A message of 1 to 254 bytes written from position `k` reads back whole.
/// The resolver caches perfectly: of each frame's names it holds exactly those
/// that the writer probed, and each frame's names differ from one another.
/// Then the length frame reads as the length, each payload frame as its
/// byte, and the payload assembled from those reads is the message.
pub proof fn lemma_message_round_trip(
    s: Seq<u8>,
    k: nat,
    buf: Seq<u8>,
    cache: Set<Seq<u8>>,
    qt: QueryTimes,
)
    requires
        1 <= buf.len() <= 254,
        qt.hit != qt.miss,
        forall|f: nat| f <= buf.len() ==> #[trigger] frame_names_distinct(s, k + 11 * f),
        forall|f: nat|
            f <= buf.len() ==> #[trigger] holds_frame(
                s,
                k + 11 * f,
                (seq![buf.len() as u8] + buf)[f as int],
                cache,
            ),
    ensures
        forall|ds: Seq<u8>, dk: nat, n: nat|
            #[trigger] frame_read(s, k, ds, dk, n, cache, qt) == Ok::<u8, ReadError>(buf.len() as u8),
        forall|f: nat, ds: Seq<u8>, dk: nat, n: nat|
            1 <= f <= buf.len() ==> #[trigger] frame_read(s, k + 11 * f, ds, dk, n, cache, qt)
                == Ok::<u8, ReadError>(buf[f - 1]),
        assembled(payload_reads(s, k, buf.len(), cache, qt)) == buf,
{
    let framed = seq![buf.len() as u8] + buf;
    assert forall|f: nat, ds: Seq<u8>, dk: nat, n: nat| f <= buf.len() implies #[trigger] frame_read(
        s,
        k + 11 * f,
        ds,
        dk,
        n,
        cache,
        qt,
    ) == Ok::<u8, ReadError>(framed[f as int]) by {
        assert(frame_names_distinct(s, k + 11 * f));
        assert(holds_frame(s, k + 11 * f, framed[f as int], cache));
        lemma_write_read_round_trip(s, k + 11 * f, framed[f as int], ds, dk, n, cache, qt);
    }
    assert forall|ds: Seq<u8>, dk: nat, n: nat|
        #[trigger] frame_read(s, k, ds, dk, n, cache, qt) == Ok::<u8, ReadError>(buf.len() as u8) by {
        assert(frame_read(s, k + 11 * 0nat, ds, dk, n, cache, qt) == Ok::<u8, ReadError>(framed[0]));
        assert(k + 11 * 0nat == k);
    }
    assert forall|f: nat, ds: Seq<u8>, dk: nat, n: nat| 1 <= f <= buf.len() implies #[trigger] frame_read(
        s,
        k + 11 * f,
        ds,
        dk,
        n,
        cache,
        qt,
    ) == Ok::<u8, ReadError>(buf[f - 1]) by {
        assert(framed[f as int] == buf[f - 1]);
    }
    let results = payload_reads(s, k, buf.len(), cache, qt);
    assert forall|i: int| 0 <= i < buf.len() implies assembled(results)[i] == buf[i] by {
        let f = (i + 1) as nat;
        assert(frame_read(s, k + 11 * f, seq![], 0, 0, cache, qt) == Ok::<u8, ReadError>(buf[f - 1]));
    }
    assert(assembled(results) =~= buf);
}

/// The classifier is deterministic at the midpoint: a latency exactly as far
/// from the hit mean as from the miss mean counts as a miss.
pub proof fn lemma_midpoint_is_miss(qt: QueryTimes, d: u64)
    requires
        crate::frame::dist(d as int, qt.hit as int) == crate::frame::dist(d as int, qt.miss as int),
    ensures
        !hit_spec(qt, Some(d)),
{
}

} // verus!
