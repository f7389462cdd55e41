use vstd::prelude::*;

use crate::bits::{bit_set, get_bit, set_bit};

verus! {

/// The role of one name within a frame.
#[derive(Clone, Copy, Debug, PartialEq, Eq, Structural)]
pub enum SlotTag {
    Data(u8),
    Decoy,
    Guard,
    Parity,
    Reservation,
}

/// One bit slot: its role and the ASCII text of its name.
pub struct Slot {
    pub tag: SlotTag,
    pub name: Vec<u8>,
}

impl View for Slot {
    type V = (SlotTag, Seq<u8>);

    open spec fn view(&self) -> (SlotTag, Seq<u8>) {
        (self.tag, self.name@)
    }
}

/// The role and name of each slot.
pub open spec fn slots_view(v: Seq<Slot>) -> Seq<(SlotTag, Seq<u8>)> {
    v.map_values(|s: Slot| s@)
}

/// Why a frame could not be read.
#[derive(Clone, Copy, Debug, PartialEq, Eq, Structural)]
pub enum ReadError {
    /// The reservation slot is a miss: nobody wrote this frame.
    Free,
    /// The guard slot is a hit: another reader already read this frame.
    Consumed,
    /// The data slots and the parity slot disagree.
    Parity,
}

/// Calibrated mean latencies of a cache miss and of a cache hit, in
/// microseconds.
#[derive(Clone, Copy, Debug, PartialEq, Eq, Structural)]
pub struct QueryTimes {
    pub miss: u64,
    pub hit: u64,
}

/// The role of slot `i` in the fixed order of a frame.
pub open spec fn slot_tag(i: nat) -> SlotTag {
    if i == 0 {
        SlotTag::Reservation
    } else if i == 1 {
        SlotTag::Guard
    } else if i < 10 {
        SlotTag::Data((i - 2) as u8)
    } else {
        SlotTag::Parity
    }
}

/// The number of set bits of `b` below position `n`.
pub open spec fn ones_below(b: u8, n: nat) -> nat
    decreases n,
{
    if n == 0 {
        0
    } else {
        ones_below(b, (n - 1) as nat) + if bit_set(b, (n - 1) as nat) {
            1nat
        } else {
            0nat
        }
    }
}

/// Whether the writer of `b` sets slot `i`: the reservation always, the guard
/// never, a data slot for each set bit, and the parity slot when the number of
/// set bits is odd.
pub open spec fn written(b: u8, i: nat) -> bool {
    if i == 0 {
        true
    } else if i == 1 {
        false
    } else if i < 10 {
        bit_set(b, (i - 2) as nat)
    } else {
        i == 10 && ones_below(b, 8) % 2 == 1
    }
}

/// The indices below `n` of the slots that the writer of `b` sets, in order.
pub open spec fn written_upto(b: u8, n: nat) -> Seq<nat>
    decreases n,
{
    if n == 0 {
        seq![]
    } else {
        written_upto(b, (n - 1) as nat) + if written(b, (n - 1) as nat) {
            seq![(n - 1) as nat]
        } else {
            seq![]
        }
    }
}

/// The indices of the slots that the writer of `b` sets.
pub open spec fn written_slots(b: u8) -> Seq<nat> {
    written_upto(b, 11)
}

/// `|x - y|`.
pub open spec fn dist(x: int, y: int) -> int {
    if x >= y {
        x - y
    } else {
        y - x
    }
}

/// A latency is a hit when it lies strictly nearer the hit mean than the miss
/// mean; a failed probe, and a latency exactly between, count as a miss.
pub open spec fn hit_spec(qt: QueryTimes, delay: Option<u64>) -> bool {
    match delay {
        Some(d) => dist(d as int, qt.hit as int) < dist(d as int, qt.miss as int),
        None => false,
    }
}

/// The tags that a read keeps: a slot's own tag on a hit, `Decoy` on a miss.
pub open spec fn classified(slots: Seq<(SlotTag, Seq<u8>)>, delays: Seq<Option<u64>>, qt: QueryTimes) -> Seq<SlotTag> {
    Seq::new(
        slots.len(),
        |i: int|
            if hit_spec(qt, delays[i]) {
                slots[i].0
            } else {
                SlotTag::Decoy
            },
    )
}

/// Every `Data` tag names a bit of a byte.
pub open spec fn tags_valid(tags: Seq<SlotTag>) -> bool {
    forall|i: int| 0 <= i < tags.len() ==> (#[trigger] tags[i] matches SlotTag::Data(n) ==> n < 8)
}

/// The byte made of the bits that the `Data` tags name.
pub open spec fn byte_of(tags: Seq<SlotTag>) -> u8
    decreases tags.len(),
{
    if tags.len() == 0 {
        0
    } else {
        let rest = byte_of(tags.drop_last());
        match tags.last() {
            SlotTag::Data(n) => rest | (1u8 << n),
            _ => rest,
        }
    }
}

/// The number of `Data` tags.
pub open spec fn data_count(tags: Seq<SlotTag>) -> nat
    decreases tags.len(),
{
    if tags.len() == 0 {
        0
    } else {
        data_count(tags.drop_last()) + if tags.last() is Data {
            1nat
        } else {
            0nat
        }
    }
}

/// What a read makes of the tags it kept.
pub open spec fn decode_spec(tags: Seq<SlotTag>) -> Result<u8, ReadError> {
    if !tags.contains(SlotTag::Reservation) {
        Err(ReadError::Free)
    } else if tags.contains(SlotTag::Guard) {
        Err(ReadError::Consumed)
    } else if (data_count(tags) % 2 == 1) != tags.contains(SlotTag::Parity) {
        Err(ReadError::Parity)
    } else {
        Ok(byte_of(tags))
    }
}

/// Classifies one probe latency against the calibration.
pub fn is_hit(qt: QueryTimes, delay: Option<u64>) -> (r: bool)
    ensures
        r == hit_spec(qt, delay),
{
    match delay {
        Some(d) => {
            let hd = if d >= qt.hit { d - qt.hit } else { qt.hit - d };
            let md = if d >= qt.miss { d - qt.miss } else { qt.miss - d };
            hd < md
        },
        None => false,
    }
}

/// Keeps the tag of each slot whose probe was a hit and turns the others
/// into `Decoy`.
pub fn classify(slots: &Vec<Slot>, delays: &Vec<Option<u64>>, qt: QueryTimes) -> (r: Vec<SlotTag>)
    requires
        slots@.len() == delays@.len(),
    ensures
        r@ == classified(slots_view(slots@), delays@, qt),
{
    let mut r: Vec<SlotTag> = Vec::new();
    let mut i: usize = 0;
    while i < slots.len()
        invariant
            i <= slots@.len(),
            slots@.len() == delays@.len(),
            r@ =~= classified(slots_view(slots@), delays@, qt).subrange(0, i as int),
        decreases slots@.len() - i,
    {
        let t = if is_hit(qt, delays[i]) {
            slots[i].tag
        } else {
            SlotTag::Decoy
        };
        r.push(t);
        i = i + 1;
        assert(r@ =~= classified(slots_view(slots@), delays@, qt).subrange(0, i as int));
    }
    assert(r@ =~= classified(slots_view(slots@), delays@, qt));
    r
}

/// Decodes the tags that a read kept into the byte, or the frame error.
pub fn decode_tags(tags: &Vec<SlotTag>) -> (r: Result<u8, ReadError>)
    requires
        tags_valid(tags@),
    ensures
        r == decode_spec(tags@),
{
    let mut has_res = false;
    let mut has_guard = false;
    let mut has_parity = false;
    let mut odd = false;
    let mut byte: u8 = 0;
    let mut i: usize = 0;
    while i < tags.len()
        invariant
            i <= tags@.len(),
            tags_valid(tags@),
            has_res == tags@.subrange(0, i as int).contains(SlotTag::Reservation),
            has_guard == tags@.subrange(0, i as int).contains(SlotTag::Guard),
            has_parity == tags@.subrange(0, i as int).contains(SlotTag::Parity),
            odd == (data_count(tags@.subrange(0, i as int)) % 2 == 1),
            byte == byte_of(tags@.subrange(0, i as int)),
        decreases tags@.len() - i,
    {
        let t = tags[i];
        let ghost pre = tags@.subrange(0, i as int);
        let ghost next = tags@.subrange(0, i + 1);
        assert(next.drop_last() =~= pre);
        assert(next.last() == t);
        match t {
            SlotTag::Data(n) => {
                set_bit(&mut byte, n);
                odd = !odd;
            },
            SlotTag::Reservation => {
                has_res = true;
            },
            SlotTag::Guard => {
                has_guard = true;
            },
            SlotTag::Parity => {
                has_parity = true;
            },
            SlotTag::Decoy => {},
        }
        proof {
            assert forall|u: SlotTag| next.contains(u) <==> (pre.contains(u) || u == t) by {
                if next.contains(u) {
                    let j = choose|j: int| 0 <= j < next.len() && next[j] == u;
                    if j < pre.len() {
                        assert(pre[j] == u);
                    }
                }
                if pre.contains(u) {
                    let j = choose|j: int| 0 <= j < pre.len() && pre[j] == u;
                    assert(next[j] == u);
                }
                if u == t {
                    assert(next[i as int] == u);
                }
            }
        }
        i = i + 1;
    }
    assert(tags@.subrange(0, i as int) =~= tags@);
    if !has_res {
        Err(ReadError::Free)
    } else if has_guard {
        Err(ReadError::Consumed)
    } else if odd != has_parity {
        Err(ReadError::Parity)
    } else {
        Ok(byte)
    }
}

} // verus!
