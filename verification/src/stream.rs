//! The state of one source: its session keys, its replay window and its protocol's counters.
use crate::bitset::{bits, set_range};
use crate::crypto::{append_under_keystream, build_iv, ctr_xor, packet_iv};
use fixedbitset::FixedBitSet;
use vstd::arithmetic::div_mod::{lemma_fundamental_div_mod, lemma_fundamental_div_mod_converse};
use vstd::prelude::*;

verus! {

/// Per-SSRC state: derived session keys and the anti-replay window.
#[derive(Debug, PartialEq, Eq)]
pub struct SsrcContext<P> {
    /// Highest packet index accepted so far (the head of the replay window).
    pub replay_window_head: u64,
    /// Circular bitset; a set bit means that the index has been received.
    pub replay_window: FixedBitSet,
    /// 128-bit (16-byte) AES-CM session encryption key.
    pub session_encr_key: Vec<u8>,
    /// 112-bit (14-byte) session salt.
    pub session_salt_key: Vec<u8>,
    /// 160-bit (20-byte) HMAC-SHA1 session authentication key.
    pub session_auth_key: Vec<u8>,
    /// Protocol-specific state (rollover counter and highest sequence number for SRTP; index for
    /// SRTCP).
    pub protocol_specific: P,
}

/// What an [`SsrcContext`] holds.
#[verifier::ext_equal]
pub struct StreamModel<P> {
    pub head: u64,
    pub window: Seq<bool>,
    pub encr_key: Seq<u8>,
    pub salt_key: Seq<u8>,
    pub auth_key: Seq<u8>,
    pub state: P,
}

impl<P> View for SsrcContext<P> {
    type V = StreamModel<P>;

    open spec fn view(&self) -> StreamModel<P> {
        StreamModel {
            head: self.replay_window_head,
            window: bits(self.replay_window),
            encr_key: self.session_encr_key@,
            salt_key: self.session_salt_key@,
            auth_key: self.session_auth_key@,
            state: self.protocol_specific,
        }
    }
}

/// The index that a slot of a window of `size` slots stands for while `head` is the highest: the
/// last one up to `head` that falls into the slot. Negative where no index has fallen there yet.
pub open spec fn slot_index(head: int, size: int, slot: int) -> int {
    head - (head - slot) % size
}

impl<P> StreamModel<P> {
    /// The encryption key is an AES-128 key and the window has a slot.
    pub open spec fn wf(self) -> bool {
        &&& self.encr_key.len() == 16
        &&& self.window.len() > 0
    }

    /// `data` under the keystream of the packet `index` of the source `ssrc`.
    pub open spec fn keystreamed(self, data: Seq<u8>, ssrc: u32, index: u64) -> Seq<u8> {
        ctr_xor(self.encr_key, packet_iv(self.salt_key, ssrc, index as nat), data)
    }

    /// Whether `index` counts as received: it lies behind the window, or its slot is set.
    pub open spec fn seen(self, index: int) -> bool {
        &&& index <= self.head
        &&& index + self.window.len() <= self.head || self.window[index % (
        self.window.len() as int)]
    }

    /// The stream after `index` was accepted: the head moves up to it if it is higher, slots that
    /// now stand for an index above the old head are clear, and the slot of `index` is set.
    pub open spec fn recorded(self, index: u64) -> Self {
        let head = if index > self.head {
            index
        } else {
            self.head
        };
        let size = self.window.len() as int;
        StreamModel {
            head,
            window: Seq::new(
                self.window.len(),
                |slot: int|
                    slot == index as int % size || self.window[slot] && slot_index(
                        head as int,
                        size,
                        slot,
                    ) <= self.head,
            ),
            ..self
        }
    }
}

impl<P: Clone> Clone for SsrcContext<P> {
    fn clone(&self) -> (r: Self)
        ensures
            cloned(self.protocol_specific, r.protocol_specific),
            r@ == (StreamModel { state: r.protocol_specific, ..self@ }),
    {
        let r = SsrcContext {
            replay_window_head: self.replay_window_head,
            replay_window: self.replay_window.clone(),
            session_encr_key: self.session_encr_key.clone(),
            session_salt_key: self.session_salt_key.clone(),
            session_auth_key: self.session_auth_key.clone(),
            protocol_specific: self.protocol_specific.clone(),
        };
        assert(r@ =~= (StreamModel { state: r.protocol_specific, ..self@ }));
        r
    }
}

/// Where the slots of the indices `head + 1 ..= index` lie in a window that they do not fill.
proof fn lemma_sliding_slots(head: int, index: int, size: int, slot: int)
    requires
        0 <= head < index,
        index - head < size,
        0 <= slot < size,
    ensures
        ({
            let start = (head + 1) % size;
            let end = index % size;
            &&& 0 <= start < size
            &&& 0 <= end < size
            &&& slot != end ==> (slot_index(index, size, slot) > head <==> if start > end {
                slot >= start || slot < end
            } else {
                start <= slot < end
            })
        }),
{
    let start = (head + 1) % size;
    let end = index % size;
    let advance = index - head;
    let q = index / size;
    lemma_fundamental_div_mod(index, size);
    assert(index == size * q + end);
    vstd::arithmetic::div_mod::lemma_mod_bound(index, size);
    vstd::arithmetic::div_mod::lemma_mod_bound(head + 1, size);
    // where the first slid-in index falls
    if end >= advance - 1 {
        assert(head + 1 == q * size + (end - advance + 1)) by (nonlinear_arith)
            requires
                index == size * q + end,
                advance == index - head,
        ;
        lemma_fundamental_div_mod_converse(head + 1, size, q, end - advance + 1);
    } else {
        assert(head + 1 == (q - 1) * size + (end - advance + 1 + size)) by (nonlinear_arith)
            requires
                index == size * q + end,
                advance == index - head,
        ;
        lemma_fundamental_div_mod_converse(head + 1, size, q - 1, end - advance + 1 + size);
    }
    // how far below `index` the slot's own index lies
    if slot <= end {
        assert(index - slot == q * size + (end - slot)) by (nonlinear_arith)
            requires
                index == size * q + end,
        ;
        lemma_fundamental_div_mod_converse(index - slot, size, q, end - slot);
    } else {
        assert(index - slot == (q - 1) * size + (end - slot + size)) by (nonlinear_arith)
            requires
                index == size * q + end,
        ;
        lemma_fundamental_div_mod_converse(index - slot, size, q - 1, end - slot + size);
    }
}

impl<P> SsrcContext<P> {
    /// Apply the AES-CM keystream to `input`, appending results to `output`.
    /// This is identical for encryption and decryption (XOR is its own inverse).
    pub fn apply_keystream(&self, input: &[u8], output: &mut Vec<u8>, ssrc: u32, index: u64)
        requires
            self@.encr_key.len() == 16,
        ensures
            final(output)@ == old(output)@ + self@.keystreamed(input@, ssrc, index),
    {
        let iv = build_iv(self.session_salt_key.as_slice(), ssrc, index);
        append_under_keystream(self.session_encr_key.as_slice(), &iv, input, output);
    }

    /// Whether a packet with this index must be refused as a duplicate or as too old.
    pub fn is_replayed(&self, index: u64) -> (r: bool)
        ensures
            r == self@.seen(index as int),
    {
        let head = self.replay_window_head;
        if index > head {
            return false;
        }
        let size: u64 = self.replay_window.len() as u64;
        if head - index >= size {
            return true;
        }
        self.replay_window.contains((index % size) as usize)
    }

    /// Marks the index of an accepted packet, sliding the window forward if it is the highest.
    pub fn record_index(&mut self, index: u64)
        requires
            old(self)@.window.len() > 0,
        ensures
            final(self)@ == old(self)@.recorded(index),
    {
        let size: u64 = self.replay_window.len() as u64;
        let head = self.replay_window_head;
        let ghost before = self@;
        if index > head {
            let advance: u64 = index - head;
            if advance >= size {
                self.replay_window.clear();
                proof {
                    assert forall|slot: int| 0 <= slot < size implies slot_index(
                        index as int,
                        size as int,
                        slot,
                    ) > head by {
                        vstd::arithmetic::div_mod::lemma_mod_bound(index - slot, size as int);
                    }
                }
            } else {
                let start: usize = ((head + 1) % size) as usize;
                let end: usize = (index % size) as usize;
                if start > end {
                    let len: usize = self.replay_window.len();
                    set_range(&mut self.replay_window, start, len, false);
                    set_range(&mut self.replay_window, 0, end, false);
                } else {
                    set_range(&mut self.replay_window, start, end, false);
                }
                proof {
                    assert forall|slot: int| 0 <= slot < size && slot != end implies bits(
                        self.replay_window,
                    )[slot] == (before.window[slot] && slot_index(index as int, size as int, slot)
                        <= head) by {
                        lemma_sliding_slots(head as int, index as int, size as int, slot);
                    }
                }
            }
            self.replay_window_head = index;
        } else {
            proof {
                assert forall|slot: int| 0 <= slot < size implies slot_index(
                    head as int,
                    size as int,
                    slot,
                ) <= head by {
                    vstd::arithmetic::div_mod::lemma_mod_bound(head - slot, size as int);
                }
            }
        }
        self.replay_window.insert((index % size) as usize);
        assert(self@.window =~= before.recorded(index).window);
    }
}

/// An index inside the window is the one that its slot stands for.
pub proof fn lemma_slot_of_index(head: int, size: int, index: int)
    requires
        0 < size,
        0 <= index,
        head - size < index <= head,
    ensures
        0 <= index % size < size,
        slot_index(head, size, index % size) == index,
{
    let slot = index % size;
    let q = index / size;
    lemma_fundamental_div_mod(index, size);
    vstd::arithmetic::div_mod::lemma_mod_bound(index, size);
    assert(head - slot == q * size + (head - index)) by (nonlinear_arith)
        requires
            index == size * q + slot,
    ;
    lemma_fundamental_div_mod_converse(head - slot, size, q, head - index);
}

/// An index that was accepted counts as received from then on.
pub proof fn law_recorded_index_is_seen<P>(stream: StreamModel<P>, index: u64)
    requires
        stream.window.len() > 0,
    ensures
        stream.recorded(index).seen(index as int),
{
    vstd::arithmetic::div_mod::lemma_mod_bound(index as int, stream.window.len() as int);
}

/// An index that counts as received still does after any other was accepted.
pub proof fn law_seen_stays_seen<P>(stream: StreamModel<P>, index: u64, earlier: u64)
    requires
        stream.window.len() > 0,
        stream.seen(earlier as int),
    ensures
        stream.recorded(index).seen(earlier as int),
{
    let size = stream.window.len() as int;
    let after = stream.recorded(index);
    if earlier + size > after.head {
        lemma_slot_of_index(after.head as int, size, earlier as int);
    }
}

/// Accepting an index that was not received before marks that one and drops nothing else into the
/// received ones but what the window leaves behind.
pub proof fn law_only_recorded_index_becomes_seen<P>(
    stream: StreamModel<P>,
    index: u64,
    other: u64,
)
    requires
        stream.window.len() > 0,
        !stream.seen(index as int),
        !stream.seen(other as int),
        stream.recorded(index).seen(other as int),
    ensures
        other == index || other + stream.window.len() <= stream.recorded(index).head,
{
    let size = stream.window.len() as int;
    let after = stream.recorded(index);
    if other + size > after.head {
        lemma_slot_of_index(after.head as int, size, other as int);
        lemma_slot_of_index(after.head as int, size, index as int);
    }
}

/// What the window answers: nothing above the head counts as received, everything the window's
/// size or more below it does, and in between the slot of the index decides.
pub proof fn law_window_answers<P>(stream: StreamModel<P>, index: u64)
    ensures
        index > stream.head ==> !stream.seen(index as int),
        index <= stream.head && stream.head - index >= stream.window.len() ==> stream.seen(
            index as int,
        ),
        index <= stream.head && stream.head - index < stream.window.len() ==> (stream.seen(
            index as int,
        ) <==> stream.window[index as int % (stream.window.len() as int)]),
{
}

/// What recording does to every slot: the head becomes the higher of itself and the index, and a
/// slot, standing for the one `earlier` among the last indices up to the new head that falls into
/// it, is set exactly if the index falls into it, or if it was set and stands for no index above
/// the old head. Nothing else of the stream changes.
pub proof fn law_recording_slides_the_window<P>(stream: StreamModel<P>, index: u64, earlier: int)
    requires
        stream.window.len() > 0,
        ({
            let head = if index > stream.head {
                index
            } else {
                stream.head
            };
            head - stream.window.len() < earlier <= head
        }),
    ensures
        ({
            let after = stream.recorded(index);
            let size = stream.window.len() as int;
            &&& after.head == if index > stream.head {
                index
            } else {
                stream.head
            }
            &&& after.window.len() == size
            &&& after.window[earlier % size] == (earlier % size == index as int % size || (
            stream.window[earlier % size] && earlier <= stream.head))
            &&& after.encr_key == stream.encr_key
            &&& after.salt_key == stream.salt_key
            &&& after.auth_key == stream.auth_key
            &&& after.state == stream.state
        }),
{
    let head = stream.recorded(index).head as int;
    let size = stream.window.len() as int;
    let slot = earlier % size;
    let q = earlier / size;
    lemma_fundamental_div_mod(earlier, size);
    vstd::arithmetic::div_mod::lemma_mod_bound(earlier, size);
    assert(head - slot == q * size + (head - earlier)) by (nonlinear_arith)
        requires
            earlier == size * q + slot,
    ;
    lemma_fundamental_div_mod_converse(head - slot, size, q, head - earlier);
}

} // verus!
