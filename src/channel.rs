use vstd::prelude::*;

use crate::bits::{bit_set, get_bit};
use crate::chance::{random_below, shuffle};
use crate::derivator::{block_at, name_at, NameDerivator};
use crate::frame::{
    classify, decode_spec, classified, decode_tags, slot_tag, slots_view, ones_below, tags_valid, written,
    written_slots, written_upto, QueryTimes, ReadError, Slot, SlotTag,
};

verus! {

/// How many decoy names each frame takes from the decoy derivator.
pub const DECOY_BITS: usize = 0;

/// The slots with the indices `idx` of the frame at position `k` of the
/// chain over `s`.
pub open spec fn layout_of(s: Seq<u8>, k: nat, idx: Seq<nat>) -> Seq<(SlotTag, Seq<u8>)> {
    idx.map_values(|i: nat| (slot_tag(i), name_at(s, k + i)))
}

/// The slots that the writer of `b` sets in the frame at position `k`.
pub open spec fn write_view(s: Seq<u8>, k: nat, b: u8) -> Seq<(SlotTag, Seq<u8>)> {
    layout_of(s, k, written_slots(b))
}

/// All eleven slots of the frame at position `k`, in their fixed order.
pub open spec fn read_view(s: Seq<u8>, k: nat) -> Seq<(SlotTag, Seq<u8>)> {
    Seq::new(11, |i: int| (slot_tag(i as nat), name_at(s, k + i as nat)))
}

/// `n` decoy slots named from position `k` of the chain over `s`.
pub open spec fn decoy_view(s: Seq<u8>, k: nat, n: nat) -> Seq<(SlotTag, Seq<u8>)> {
    Seq::new(n, |j: int| (SlotTag::Decoy, name_at(s, k + j as nat)))
}

/// A number of decoy slots that a frame may carry.
pub open spec fn decoy_count_ok(n: nat) -> bool {
    n == 0 || n < DECOY_BITS
}

/// Whether some slot of `v` has the view `x`.
pub open spec fn has_slot(v: Seq<Slot>, x: (SlotTag, Seq<u8>)) -> bool {
    exists|j: int| 0 <= j < v.len() && #[trigger] v[j]@ == x
}

/// The frames of `bytes` written one after another from position `k`, their
/// decoy slots left out.
pub open spec fn frames_view(s: Seq<u8>, k: nat, bytes: Seq<u8>) -> Seq<(SlotTag, Seq<u8>)>
    decreases bytes.len(),
{
    if bytes.len() == 0 {
        seq![]
    } else {
        frames_view(s, k, bytes.drop_last()) + write_view(
            s,
            k + 11 * (bytes.len() - 1) as nat,
            bytes.last(),
        )
    }
}

/// The state of one end of the channel: a primary derivator over the secret,
/// a decoy derivator seeded from the primary's first block, and the latency
/// calibration once it is known.
pub struct Xipology {
    derivator: NameDerivator,
    decoy: NameDerivator,
    secret: Vec<u8>,
    query_times: Option<QueryTimes>,
}

/// Appends the decoy slots of one frame, and advances the decoy derivator by
/// `DECOY_BITS` names in all, whether or not they were emitted.
fn push_decoys(decoy: &mut NameDerivator, out: &mut Vec<Slot>)
    requires
        old(decoy).wf(),
    ensures
        final(decoy).wf(),
        final(decoy)@ == (old(decoy)@.0, (old(decoy)@.1 + DECOY_BITS) as nat),
        final(out)@.len() >= old(out)@.len(),
        decoy_count_ok((final(out)@.len() - old(out)@.len()) as nat),
        slots_view(final(out)@) == slots_view(old(out)@) + decoy_view(
            old(decoy)@.0,
            old(decoy)@.1,
            (final(out)@.len() - old(out)@.len()) as nat,
        ),
{
    let ghost d0 = decoy@;
    let ghost o0 = slots_view(out@);
    if DECOY_BITS > 0 {
        let flips = random_below(DECOY_BITS);
        let mut i: usize = 0;
        while i < DECOY_BITS
            invariant
                i <= DECOY_BITS,
                flips < DECOY_BITS,
                decoy.wf(),
                decoy@ == (d0.0, (d0.1 + i) as nat),
                out@.len() == o0.len() + if i < flips { i } else { flips },
                slots_view(out@) =~= o0 + decoy_view(d0.0, d0.1, if i < flips { i as nat } else { flips as nat }),
            decreases DECOY_BITS - i,
        {
            let name = decoy.next_name();
            if i < flips {
                out.push(Slot { tag: SlotTag::Decoy, name });
            }
            i = i + 1;
            assert(slots_view(out@) =~= o0 + decoy_view(d0.0, d0.1, if i < flips { i as nat } else { flips as nat }));
        }
    }
    assert(slots_view(out@) =~= o0 + decoy_view(d0.0, d0.1, (out@.len() - o0.len()) as nat));
}

/// Whether a sequence of slot views holds `x`, split over a concatenation.
pub proof fn lemma_concat_contains<A>(a: Seq<A>, b: Seq<A>, x: A)
    ensures
        (a + b).contains(x) <==> (a.contains(x) || b.contains(x)),
{
    if (a + b).contains(x) {
        let j = choose|j: int| 0 <= j < (a + b).len() && (a + b)[j] == x;
        if j < a.len() {
            assert(a[j] == x);
        } else {
            assert(b[j - a.len()] == x);
        }
    }
    if a.contains(x) {
        let j = choose|j: int| 0 <= j < a.len() && a[j] == x;
        assert((a + b)[j] == x);
    }
    if b.contains(x) {
        let j = choose|j: int| 0 <= j < b.len() && b[j] == x;
        assert((a + b)[j + a.len()] == x);
    }
}

/// A slot with a given view is among `v` exactly when the view is among the
/// views of `v`.
pub proof fn lemma_has_slot_view(v: Seq<Slot>, x: (SlotTag, Seq<u8>))
    ensures
        has_slot(v, x) <==> slots_view(v).contains(x),
{
    if has_slot(v, x) {
        let j = choose|j: int| 0 <= j < v.len() && #[trigger] v[j]@ == x;
        assert(slots_view(v)[j] == x);
    }
    if slots_view(v).contains(x) {
        let j = choose|j: int| 0 <= j < slots_view(v).len() && slots_view(v)[j] == x;
        assert(v[j]@ == x);
    }
}

/// Two orders of the same slots hold the same views.
pub proof fn lemma_permuted_has_slot(a: Seq<Slot>, b: Seq<Slot>, x: (SlotTag, Seq<u8>))
    requires
        a.to_multiset() == b.to_multiset(),
    ensures
        has_slot(a, x) <==> has_slot(b, x),
{
    broadcast use vstd::seq_lib::to_multiset_contains;
    if has_slot(a, x) {
        let j = choose|j: int| 0 <= j < a.len() && #[trigger] a[j]@ == x;
        assert(a.contains(a[j]));
        assert(a.to_multiset().count(a[j]) > 0);
        assert(b.to_multiset().count(a[j]) > 0);
        assert(b.contains(a[j]));
        let i = choose|i: int| 0 <= i < b.len() && b[i] == a[j];
        assert(b[i]@ == x);
    }
    if has_slot(b, x) {
        let j = choose|j: int| 0 <= j < b.len() && #[trigger] b[j]@ == x;
        assert(b.contains(b[j]));
        assert(b.to_multiset().count(b[j]) > 0);
        assert(a.to_multiset().count(b[j]) > 0);
        assert(a.contains(b[j]));
        let i = choose|i: int| 0 <= i < a.len() && a[i] == b[j];
        assert(a[i]@ == x);
    }
}

impl Xipology {
    /// The secret the channel was built from.
    pub closed spec fn secret_view(&self) -> Seq<u8> {
        self.secret@
    }

    /// The primary derivator's secret and position.
    pub closed spec fn primary(&self) -> (Seq<u8>, nat) {
        self.derivator@
    }

    /// The decoy derivator's secret and position.
    pub closed spec fn decoy_state(&self) -> (Seq<u8>, nat) {
        self.decoy@
    }

    /// The latency calibration, once known.
    pub closed spec fn calibration(&self) -> Option<QueryTimes> {
        self.query_times
    }

    /// Both derivators are well formed and the primary runs over the secret.
    pub closed spec fn wf(&self) -> bool {
        &&& self.derivator.wf()
        &&& self.decoy.wf()
        &&& self.derivator@.0 == self.secret@
    }

    /// Whether the state is the one right after construction from `s`.
    pub open spec fn is_fresh(&self, s: Seq<u8>) -> bool {
        &&& self.wf()
        &&& self.secret_view() == s
        &&& self.primary() == (s, 1nat)
        &&& self.decoy_state() == (block_at(s, 0), 0nat)
        &&& self.calibration() is None
    }

    /// A channel over `secret`, positioned at its first frame.
    pub fn from_secret(secret: Vec<u8>) -> (r: Self)
        ensures
            r.is_fresh(secret@),
    {
        let mut derivator = NameDerivator::from_secret(secret.as_slice());
        let block = derivator.hkdf_extract_and_expand();
        let decoy = NameDerivator::from_secret(block.as_slice());
        Xipology { derivator, decoy, secret, query_times: None }
    }

    /// Replaces the secret and rewinds to the first frame.
    pub fn change_secret(&mut self, secret: Vec<u8>)
        ensures
            final(self).is_fresh(secret@),
    {
        self.secret = secret;
        self.reset();
    }

    /// Rewinds both derivators to their state right after construction and
    /// drops the calibration.
    pub fn reset(&mut self)
        ensures
            final(self).is_fresh(old(self).secret_view()),
    {
        let mut derivator = NameDerivator::from_secret(self.secret.as_slice());
        let block = derivator.hkdf_extract_and_expand();
        self.decoy = NameDerivator::from_secret(block.as_slice());
        self.derivator = derivator;
        self.query_times = None;
    }

    /// The latency calibration, once known.
    pub fn query_times(&self) -> (r: Option<QueryTimes>)
        ensures
            r == self.calibration(),
    {
        self.query_times
    }

    /// Records the latency calibration that reads classify against.
    pub fn set_query_times(&mut self, qt: QueryTimes)
        requires
            old(self).wf(),
        ensures
            final(self).wf(),
            final(self).calibration() == Some(qt),
            final(self).secret_view() == old(self).secret_view(),
            final(self).primary() == old(self).primary(),
            final(self).decoy_state() == old(self).decoy_state(),
    {
        self.query_times = Some(qt);
    }

    /// Lays out the frame of `byte` as a writer sets it: the reservation, a
    /// data slot for each set bit, the parity slot when that number is odd,
    /// then the frame's decoy slots. The guard's name is drawn and left out.
    pub fn byte_output(&mut self, byte: u8) -> (r: Vec<Slot>)
        requires
            old(self).wf(),
        ensures
            final(self).wf(),
            final(self).secret_view() == old(self).secret_view(),
            final(self).calibration() == old(self).calibration(),
            final(self).primary() == (old(self).primary().0, old(self).primary().1 + 11),
            final(self).decoy_state() == (
                old(self).decoy_state().0,
                (old(self).decoy_state().1 + DECOY_BITS) as nat,
            ),
            r@.len() >= written_slots(byte).len(),
            decoy_count_ok((r@.len() - written_slots(byte).len()) as nat),
            slots_view(r@) == write_view(old(self).primary().0, old(self).primary().1, byte)
                + decoy_view(
                old(self).decoy_state().0,
                old(self).decoy_state().1,
                (r@.len() - written_slots(byte).len()) as nat,
            ),
    {
        let ghost s = self.derivator@.0;
        let ghost k = self.derivator@.1;
        let mut output: Vec<Slot> = Vec::new();
        let mut parity = false;

        let name = self.derivator.next_name();
        output.push(Slot { tag: SlotTag::Reservation, name });
        // The guard: never set by a writer.
        let _guard = self.derivator.next_name();
        assert(written_upto(byte, 0) =~= seq![]);
        assert(written_upto(byte, 1) =~= seq![0nat]);
        assert(written_upto(byte, 2) =~= seq![0nat]);
        assert(slots_view(output@) =~= layout_of(s, k, written_upto(byte, 2)));

        let mut bit: u8 = 0;
        while bit < 8
            invariant
                bit <= 8,
                self.derivator.wf(),
                self.derivator@ == (s, (k + 2 + bit) as nat),
                self.decoy == old(self).decoy,
                self.secret == old(self).secret,
                self.query_times == old(self).query_times,
                parity == (ones_below(byte, bit as nat) % 2 == 1),
                slots_view(output@) =~= layout_of(s, k, written_upto(byte, (bit + 2) as nat)),
            decreases 8 - bit,
        {
            let name = self.derivator.next_name();
            let ghost i = (bit + 2) as nat;
            let ghost pre = written_upto(byte, i);
            let ghost out0 = slots_view(output@);
            assert(written_upto(byte, i + 1) == pre + if written(byte, i) {
                seq![i]
            } else {
                seq![]
            });
            assert(written(byte, i) == bit_set(byte, bit as nat));
            if get_bit(byte, bit) > 0 {
                output.push(Slot { tag: SlotTag::Data(bit), name });
                parity = !parity;
            }
            proof {
                if written(byte, i) {
                    assert(layout_of(s, k, pre + seq![i]) =~= layout_of(s, k, pre) + seq![
                        (slot_tag(i), name_at(s, k + i)),
                    ]);
                    assert(slots_view(output@) =~= out0 + seq![(slot_tag(i), name_at(s, k + i))]);
                } else {
                    assert(pre + seq![] =~= pre);
                    assert(slots_view(output@) =~= out0);
                }
            }
            assert(slots_view(output@) =~= layout_of(s, k, written_upto(byte, i + 1)));
            bit = bit + 1;
        }

        let name = self.derivator.next_name();
        let ghost pre = written_upto(byte, 10);
        let ghost out0 = slots_view(output@);
        assert(written_upto(byte, 11) == pre + if written(byte, 10) {
            seq![10nat]
        } else {
            seq![]
        });
        if parity {
            output.push(Slot { tag: SlotTag::Parity, name });
        }
        proof {
            if parity {
                assert(layout_of(s, k, pre + seq![10nat]) =~= layout_of(s, k, pre) + seq![
                    (slot_tag(10), name_at(s, k + 10)),
                ]);
                assert(slots_view(output@) =~= out0 + seq![(slot_tag(10), name_at(s, k + 10))]);
            } else {
                assert(pre + seq![] =~= pre);
                assert(slots_view(output@) =~= out0);
            }
        }
        assert(slots_view(output@) =~= layout_of(s, k, written_upto(byte, 11)));
        push_decoys(&mut self.decoy, &mut output);
        output
    }

    /// The slots a writer of `byte` probes, in a random order, so that the
    /// order of the queries reveals nothing of the frame.
    pub fn write_byte(&mut self, byte: u8) -> (r: Vec<Slot>)
        requires
            old(self).wf(),
        ensures
            final(self).wf(),
            final(self).secret_view() == old(self).secret_view(),
            final(self).calibration() == old(self).calibration(),
            final(self).primary() == (old(self).primary().0, old(self).primary().1 + 11),
            final(self).decoy_state() == (
                old(self).decoy_state().0,
                (old(self).decoy_state().1 + DECOY_BITS) as nat,
            ),
            r@.len() >= written_slots(byte).len(),
            decoy_count_ok((r@.len() - written_slots(byte).len()) as nat),
            forall|x: (SlotTag, Seq<u8>)|
                has_slot(r@, x) <==> (write_view(old(self).primary().0, old(self).primary().1, byte)
                    + decoy_view(
                    old(self).decoy_state().0,
                    old(self).decoy_state().1,
                    (r@.len() - written_slots(byte).len()) as nat,
                )).contains(x),
    {
        let mut output = self.byte_output(byte);
        let ghost before = output@;
        shuffle(&mut output);
        proof {
            assert forall|x: (SlotTag, Seq<u8>)| has_slot(output@, x) <==> slots_view(before).contains(x) by {
                lemma_permuted_has_slot(output@, before, x);
                lemma_has_slot_view(before, x);
            }
        }
        output
    }

    /// The slots of a message, in one random order: a frame holding the
    /// length, then a frame for each byte. A message must hold 1 to 254
    /// bytes, as its length goes in one frame; otherwise nothing is done.
    pub fn write_bytes(&mut self, buf: &[u8]) -> (r: Option<Vec<Slot>>)
        requires
            old(self).wf(),
        ensures
            r is None <==> (buf@.len() == 0 || buf@.len() >= 255),
            r is None ==> *final(self) == *old(self),
            final(self).wf(),
            final(self).secret_view() == old(self).secret_view(),
            final(self).calibration() == old(self).calibration(),
            r matches Some(v) ==> {
                &&& final(self).primary() == (
                    old(self).primary().0,
                    (old(self).primary().1 + 11 * (buf@.len() + 1)) as nat,
                )
                &&& final(self).decoy_state() == (
                    old(self).decoy_state().0,
                    (old(self).decoy_state().1 + DECOY_BITS * (buf@.len() + 1)) as nat,
                )
                &&& forall|x: (SlotTag, Seq<u8>)|
                    x.0 != SlotTag::Decoy ==> (has_slot(v@, x) <==> frames_view(
                        old(self).primary().0,
                        old(self).primary().1,
                        seq![buf@.len() as u8] + buf@,
                    ).contains(x))
            },
    {
        let len = buf.len();
        if len == 0 || len >= 255 {
            return None;
        }
        let ghost s = self.derivator@.0;
        let ghost k = self.derivator@.1;
        let ghost dk = self.decoy@.1;
        let ghost framed = seq![len as u8] + buf@;
        let mut output = self.byte_output(len as u8);
        proof {
            assert(framed.subrange(0, 1).drop_last() =~= seq![]);
            assert forall|x: (SlotTag, Seq<u8>)| x.0 != SlotTag::Decoy implies (slots_view(output@).contains(x)
                <==> frames_view(s, k, framed.subrange(0, 1)).contains(x)) by {
                let d = decoy_view(self.decoy@.0, dk, (output@.len() - written_slots(len as u8).len()) as nat);
                lemma_concat_contains(write_view(s, k, len as u8), d, x);
                assert(frames_view(s, k, seq![]) =~= seq![]);
                assert(frames_view(s, k, framed.subrange(0, 1)) =~= write_view(s, k, len as u8));
                if d.contains(x) {
                    let j = choose|j: int| 0 <= j < d.len() && d[j] == x;
                }
            }
        }
        let mut i: usize = 0;
        while i < len
            invariant
                i <= len,
                len == buf@.len(),
                0 < len < 255,
                framed == seq![len as u8] + buf@,
                self.wf(),
                self.secret_view() == old(self).secret_view(),
                self.calibration() == old(self).calibration(),
                self.primary() == (s, (k + 11 * (i + 1)) as nat),
                self.decoy_state() == (old(self).decoy_state().0, (dk + DECOY_BITS * (i + 1)) as nat),
                s == old(self).primary().0,
                k == old(self).primary().1,
                dk == old(self).decoy_state().1,
                forall|x: (SlotTag, Seq<u8>)|
                    x.0 != SlotTag::Decoy ==> (slots_view(output@).contains(x) <==> frames_view(
                        s,
                        k,
                        framed.subrange(0, i + 1),
                    ).contains(x)),
            decreases len - i,
        {
            let ghost out0 = output@;
            let ghost k1 = self.derivator@.1;
            let ghost d1 = self.decoy@;
            let mut frame = self.byte_output(buf[i]);
            let ghost fr = frame@;
            output.append(&mut frame);
            proof {
                let prefix = framed.subrange(0, i + 2);
                assert(prefix.drop_last() =~= framed.subrange(0, i + 1));
                assert(prefix.last() == buf@[i as int]);
                assert(slots_view(output@) =~= slots_view(out0) + slots_view(fr));
                assert(k1 == k + 11 * (prefix.len() - 1));
                assert forall|x: (SlotTag, Seq<u8>)| x.0 != SlotTag::Decoy implies (slots_view(output@).contains(x)
                    <==> frames_view(s, k, prefix).contains(x)) by {
                    let d = decoy_view(d1.0, d1.1, (fr.len() - written_slots(buf@[i as int]).len()) as nat);
                    let w = write_view(s, k1, buf@[i as int]);
                    lemma_concat_contains(slots_view(out0), slots_view(fr), x);
                    lemma_concat_contains(w, d, x);
                    lemma_concat_contains(frames_view(s, k, framed.subrange(0, i + 1)), w, x);
                    if d.contains(x) {
                        let j = choose|j: int| 0 <= j < d.len() && d[j] == x;
                    }
                }
            }
            i = i + 1;
        }
        let ghost before = output@;
        shuffle(&mut output);
        proof {
            assert(framed.subrange(0, len + 1) =~= framed);
            assert forall|x: (SlotTag, Seq<u8>)| x.0 != SlotTag::Decoy implies (has_slot(output@, x)
                <==> frames_view(s, k, framed).contains(x)) by {
                lemma_permuted_has_slot(output@, before, x);
                lemma_has_slot_view(before, x);
            }
        }
        Some(output)
    }

    /// Lays out the frame at the current position as a reader probes it: all
    /// eleven slots in their fixed order, then the frame's decoy slots.
    pub fn byte_input(&mut self) -> (r: Vec<Slot>)
        requires
            old(self).wf(),
        ensures
            final(self).wf(),
            final(self).secret_view() == old(self).secret_view(),
            final(self).calibration() == old(self).calibration(),
            final(self).primary() == (old(self).primary().0, old(self).primary().1 + 11),
            final(self).decoy_state() == (
                old(self).decoy_state().0,
                (old(self).decoy_state().1 + DECOY_BITS) as nat,
            ),
            r@.len() >= 11,
            decoy_count_ok((r@.len() - 11) as nat),
            tags_valid(slots_view(r@).map_values(|x: (SlotTag, Seq<u8>)| x.0)),
            slots_view(r@) == read_view(old(self).primary().0, old(self).primary().1) + decoy_view(
                old(self).decoy_state().0,
                old(self).decoy_state().1,
                (r@.len() - 11) as nat,
            ),
    {
        let ghost s = self.derivator@.0;
        let ghost k = self.derivator@.1;
        let mut input: Vec<Slot> = Vec::new();
        let name = self.derivator.next_name();
        input.push(Slot { tag: SlotTag::Reservation, name });
        let name = self.derivator.next_name();
        input.push(Slot { tag: SlotTag::Guard, name });
        let mut bit: u8 = 0;
        while bit < 8
            invariant
                bit <= 8,
                self.derivator.wf(),
                self.derivator@ == (s, (k + 2 + bit) as nat),
                self.decoy == old(self).decoy,
                self.secret == old(self).secret,
                self.query_times == old(self).query_times,
                slots_view(input@) =~= read_view(s, k).subrange(0, bit + 2),
            decreases 8 - bit,
        {
            let name = self.derivator.next_name();
            assert(slot_tag((bit + 2) as nat) == SlotTag::Data(bit));
            assert(read_view(s, k)[bit + 2] == (SlotTag::Data(bit), name@));
            let ghost before = slots_view(input@);
            let ghost x = (SlotTag::Data(bit), name@);
            input.push(Slot { tag: SlotTag::Data(bit), name });
            assert(slots_view(input@) =~= before.push(x));
            assert(read_view(s, k).subrange(0, bit + 3) =~= read_view(s, k).subrange(0, bit + 2).push(x));
            bit = bit + 1;
            assert(slots_view(input@) =~= read_view(s, k).subrange(0, bit + 2));
        }
        let name = self.derivator.next_name();
        assert(read_view(s, k)[10] == (SlotTag::Parity, name@));
        let ghost before = slots_view(input@);
        let ghost x = (SlotTag::Parity, name@);
        input.push(Slot { tag: SlotTag::Parity, name });
        assert(slots_view(input@) =~= before.push(x));
        assert(read_view(s, k) =~= read_view(s, k).subrange(0, 10).push(x));
        assert(slots_view(input@) =~= read_view(s, k));
        push_decoys(&mut self.decoy, &mut input);
        proof {
            let tags = slots_view(input@).map_values(|x: (SlotTag, Seq<u8>)| x.0);
            assert forall|i: int| 0 <= i < tags.len() implies (#[trigger] tags[i] matches SlotTag::Data(
                n,
            ) ==> n < 8) by {
                assert(tags[i] == slots_view(input@)[i].0);
                if i < 11 {
                    assert(slots_view(input@)[i] == read_view(s, k)[i]);
                } else {
                    assert(slots_view(input@)[i].0 == SlotTag::Decoy);
                }
            }
        }
        input
    }

    /// Decides what a read of `slots` found, from the latency of each probe
    /// (`None` for a failed probe) against the calibration.
    pub fn read_bits(&self, slots: &Vec<Slot>, delays: &Vec<Option<u64>>) -> (r: Result<u8, ReadError>)
        requires
            self.calibration() is Some,
            slots@.len() == delays@.len(),
            tags_valid(slots_view(slots@).map_values(|x: (SlotTag, Seq<u8>)| x.0)),
        ensures
            r == decode_spec(classified(slots_view(slots@), delays@, self.calibration()->0)),
    {
        let qt = match self.query_times {
            Some(q) => q,
            None => QueryTimes { miss: 0, hit: 0 },
        };
        let tags = classify(slots, delays, qt);
        proof {
            assert forall|i: int| 0 <= i < tags@.len() implies (#[trigger] tags@[i] matches SlotTag::Data(n) ==> n < 8) by {
                assert(slots_view(slots@).map_values(|x: (SlotTag, Seq<u8>)| x.0)[i] == slots@[i].tag);
            }
        }
        decode_tags(&tags)
    }

    /// Lays out the `len` payload frames of a message whose length frame was
    /// just read, one after another.
    pub fn payload_inputs(&mut self, len: u8) -> (r: Vec<Vec<Slot>>)
        requires
            old(self).wf(),
        ensures
            final(self).wf(),
            final(self).secret_view() == old(self).secret_view(),
            final(self).calibration() == old(self).calibration(),
            final(self).primary() == (
                old(self).primary().0,
                (old(self).primary().1 + 11 * len) as nat,
            ),
            r@.len() == len,
            forall|i: int|
                0 <= i < len ==> {
                    &&& (#[trigger] r@[i])@.len() >= 11
                    &&& tags_valid(slots_view(r@[i]@).map_values(|x: (SlotTag, Seq<u8>)| x.0))
                    &&& slots_view(r@[i]@).subrange(0, 11) == read_view(
                        old(self).primary().0,
                        (old(self).primary().1 + 11 * i) as nat,
                    )
                    &&& decoy_count_ok((r@[i]@.len() - 11) as nat)
                },
    {
        let mut frames: Vec<Vec<Slot>> = Vec::new();
        let mut i: u8 = 0;
        while i < len
            invariant
                i <= len,
                self.wf(),
                self.secret_view() == old(self).secret_view(),
                self.calibration() == old(self).calibration(),
                self.primary() == (old(self).primary().0, (old(self).primary().1 + 11 * i) as nat),
                frames@.len() == i,
                forall|j: int|
                    0 <= j < i ==> {
                        &&& (#[trigger] frames@[j])@.len() >= 11
                        &&& tags_valid(slots_view(frames@[j]@).map_values(|x: (SlotTag, Seq<u8>)| x.0))
                        &&& slots_view(frames@[j]@).subrange(0, 11) == read_view(
                            old(self).primary().0,
                            (old(self).primary().1 + 11 * j) as nat,
                        )
                        &&& decoy_count_ok((frames@[j]@.len() - 11) as nat)
                    },
            decreases len - i,
        {
            let frame = self.byte_input();
            proof {
                let v = slots_view(frame@);
                assert(v.subrange(0, 11) =~= read_view(old(self).primary().0, (old(self).primary().1 + 11 * i) as nat));
            }
            frames.push(frame);
            i = i + 1;
        }
        frames
    }
}

/// The payload made of the results of reading each frame: each byte that
/// was read, and a space (0x20) in place of each frame that could not be.
pub open spec fn assembled(results: Seq<Result<u8, ReadError>>) -> Seq<u8> {
    Seq::new(
        results.len(),
        |i: int|
            match results[i] {
                Ok(b) => b,
                Err(_) => 0x20u8,
            },
    )
}

/// The payload a multi-frame read hands back: each byte that was read, and a
/// space (0x20) in place of each frame that could not be read.
pub fn assemble_payload(results: &Vec<Result<u8, ReadError>>) -> (r: Vec<u8>)
    ensures
        r@ == assembled(results@),
{
    let mut r: Vec<u8> = Vec::new();
    let mut i: usize = 0;
    while i < results.len()
        invariant
            i <= results@.len(),
            r@.len() == i,
            forall|j: int|
                0 <= j < i ==> #[trigger] r@[j] == match results@[j] {
                    Ok(b) => b,
                    Err(_) => 0x20u8,
                },
        decreases results@.len() - i,
    {
        let b = match results[i] {
            Ok(b) => b,
            Err(_) => 0x20u8,
        };
        r.push(b);
        i = i + 1;
    }
    assert(r@ =~= assembled(results@));
    r
}

/// The indices `0..n` in a random order: the order in which a reader sends
/// its probes, so that the order of the queries reveals nothing of the frame.
pub fn probe_order(n: usize) -> (r: Vec<usize>)
    ensures
        r@.len() == n,
        r@.to_multiset() == Seq::new(n as nat, |i: int| i as usize).to_multiset(),
{
    let mut r: Vec<usize> = Vec::new();
    let mut i: usize = 0;
    while i < n
        invariant
            i <= n,
            r@ =~= Seq::new(i as nat, |j: int| j as usize),
        decreases n - i,
    {
        r.push(i);
        i = i + 1;
    }
    shuffle(&mut r);
    r
}

} // verus!
