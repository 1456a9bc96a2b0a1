//! Encoded frames put together again from the datagrams of their chunks.

use std::collections::HashMap;

use vstd::prelude::*;

use crate::crypto::{opened, Cipher};
use crate::host::{chunk, chunk_count, chunk_packet, law_chunks_cover};
use crate::proto::{
    joined, law_parse_written, packet_bytes, parse_packet, push_bytes, InboundVideo, Packet,
};

verus! {

broadcast use vstd::std_specs::hash::group_hash_axioms;

/// A datagram whose frame is further ahead of the last complete frame than this
/// belongs to a frame that has been passed.
pub const MAX_AHEAD: u32 = 60;

/// Frames that are this far ahead of the last complete one, or further, are given
/// up.
pub const EVICT_AHEAD: u32 = 120;

/// A frame of which chunks are missing: how many chunks it has, and those that
/// have come.
pub ghost struct Partial {
    pub total: u16,
    pub chunks: Map<u16, Seq<u8>>,
}

/// The frames of which chunks are missing, by their numbers, and the number of the
/// last complete frame.
pub ghost struct Assembly {
    pub pending: Map<u32, Partial>,
    pub last_seen: u32,
}

/// The state before the first datagram.
pub open spec fn nothing_received() -> Assembly {
    Assembly { pending: Map::empty(), last_seen: 0 }
}

/// The frame has been passed: counted from the last complete frame, with wrap
/// around, it is too far ahead.
pub open spec fn passed(s: Assembly, frame_id: u32) -> bool {
    frame_id.wrapping_sub(s.last_seen) > MAX_AHEAD
}

/// What there was of the frame of `p` before `p` came. The first datagram of a frame
/// says how many chunks there are.
pub open spec fn so_far(s: Assembly, p: Packet) -> Partial {
    if s.pending.contains_key(p.frame_id) {
        s.pending[p.frame_id]
    } else {
        Partial { total: p.total_chunks, chunks: Map::empty() }
    }
}

/// What is there of the frame of `p` once `p` has come. Of several chunks with one
/// index the last one counts.
pub open spec fn with_chunk(s: Assembly, p: Packet) -> Partial {
    let before = so_far(s, p);
    Partial { total: before.total, chunks: before.chunks.insert(p.chunk_idx, p.data) }
}

/// Every chunk of the frame has come.
pub open spec fn is_complete(f: Partial) -> bool {
    &&& f.total > 0
    &&& forall|i: u16| i < f.total ==> #[trigger] f.chunks.contains_key(i)
}

/// The chunks of a frame, in the order of their indices.
pub open spec fn parts(f: Partial) -> Seq<Seq<u8>> {
    Seq::new(f.total as nat, |i: int| f.chunks[i as u16])
}

/// The frames that are kept when the frame `id` is complete.
pub open spec fn kept(pending: Map<u32, Partial>, id: u32) -> Map<u32, Partial> {
    pending.remove(id).restrict(Set::new(|k: u32| k.wrapping_sub(id) < EVICT_AHEAD))
}

/// What a datagram makes of the state, and the frame that it completes. One whose index
/// is not below the count of the frame's chunks is dropped.
pub open spec fn arrive(s: Assembly, p: Packet) -> (Assembly, Option<Seq<u8>>) {
    let f = with_chunk(s, p);
    if passed(s, p.frame_id) || p.chunk_idx >= so_far(s, p).total {
        (s, None)
    } else if is_complete(f) {
        (
            Assembly { pending: kept(s.pending, p.frame_id), last_seen: p.frame_id },
            Some(joined(parts(f))),
        )
    } else {
        (Assembly { pending: s.pending.insert(p.frame_id, f), ..s }, None)
    }
}

/// What a sealed datagram makes of the state: nothing, unless it opens and holds a
/// packet.
pub open spec fn arrive_sealed(s: Assembly, key: Seq<u8>, datagram: Seq<u8>) -> (
    Assembly,
    Option<Seq<u8>>,
) {
    match opened(key, datagram) {
        Some(plain) => match parse_packet(plain) {
            Some(p) => arrive(s, p),
            None => (s, None),
        },
        None => (s, None),
    }
}

struct PartialFrame {
    total: u16,
    chunks: HashMap<u16, Vec<u8>>,
}

impl PartialFrame {
    /// Each chunk that has come is one that the frame has.
    #[verifier::type_invariant]
    spec fn in_range(self) -> bool {
        forall|c: u16| #[trigger] self.chunks@.contains_key(c) ==> c < self.total
    }
}

impl View for PartialFrame {
    type V = Partial;

    closed spec fn view(&self) -> Partial {
        Partial { total: self.total, chunks: self.chunks@.map_values(|v: Vec<u8>| v@) }
    }
}

/// Puts frames together again from the datagrams of their chunks, in whatever
/// order these come.
pub struct Reassembler {
    pending: HashMap<u32, PartialFrame>,
    last_seen: u32,
}

impl View for Reassembler {
    type V = Assembly;

    closed spec fn view(&self) -> Assembly {
        Assembly {
            pending: self.pending@.map_values(|f: PartialFrame| f@),
            last_seen: self.last_seen,
        }
    }
}

/// All chunks of a frame, one behind the other.
fn assemble(chunks: &HashMap<u16, Vec<u8>>, total: u16) -> (out: Vec<u8>)
    requires
        forall|c: u16| c < total ==> #[trigger] chunks@.contains_key(c),
    ensures
        out@ == joined(
            parts(Partial { total, chunks: chunks@.map_values(|v: Vec<u8>| v@) }),
        ),
{
    let ghost all = parts(Partial { total, chunks: chunks@.map_values(|v: Vec<u8>| v@) });
    let mut out: Vec<u8> = Vec::new();
    let mut i: u16 = 0;
    assert(all.take(0) =~= Seq::<Seq<u8>>::empty());
    while i < total
        invariant
            i <= total,
            all == parts(Partial { total, chunks: chunks@.map_values(|v: Vec<u8>| v@) }),
            forall|c: u16| c < total ==> #[trigger] chunks@.contains_key(c),
            out@ == joined(all.take(i as int)),
        decreases total - i,
    {
        assert(chunks@.contains_key(i));
        if let Some(d) = chunks.get(&i) {
            push_bytes(&mut out, d.as_slice());
        }
        proof {
            let next = all.take(i + 1);
            assert(next.drop_last() =~= all.take(i as int));
            assert(next.last() == chunks@[i]@);
        }
        i = i + 1;
    }
    assert(all.take(total as int) =~= all);
    out
}

spec fn below(n: nat) -> Set<u16> {
    Set::new(|c: u16| c < n)
}

proof fn lemma_below(n: nat)
    requires
        n <= 0x1_0000,
    ensures
        below(n).finite(),
        below(n).len() == n,
    decreases n,
{
    if n == 0 {
        assert(below(n) =~= Set::<u16>::empty());
    } else {
        lemma_below((n - 1) as nat);
        assert(below(n) =~= below((n - 1) as nat).insert((n - 1) as u16));
    }
}

/// Chunks that are all in range are all there exactly if they are as many as the frame
/// has.
proof fn lemma_complete_by_count(f: Partial)
    requires
        f.chunks.dom().finite(),
        f.chunks.len() > 0,
        forall|c: u16| #[trigger] f.chunks.contains_key(c) ==> c < f.total,
    ensures
        is_complete(f) <==> f.chunks.len() == f.total,
{
    lemma_below(f.total as nat);
    assert(f.chunks.dom().subset_of(below(f.total as nat)));
    if f.chunks.len() == f.total {
        vstd::set_lib::lemma_subset_equality(f.chunks.dom(), below(f.total as nat));
        assert forall|i: u16| i < f.total implies #[trigger] f.chunks.contains_key(i) by {
            assert(below(f.total as nat).contains(i));
        }
    }
    if is_complete(f) {
        assert forall|i: u16| below(f.total as nat).contains(i) implies f.chunks.dom().contains(
            i,
        ) by {
            assert(f.chunks.contains_key(i));
        }
        assert(f.chunks.dom() =~= below(f.total as nat));
    }
}

impl Reassembler {
    pub fn new() -> (r: Self)
        ensures
            r@ == nothing_received(),
    {
        let r = Reassembler { pending: HashMap::new(), last_seen: 0 };
        assert(r@.pending =~= Map::empty());
        r
    }

    /// Gives up the frames that are too far ahead of the last complete one.
    fn evict(&mut self)
        ensures
            final(self)@.last_seen == old(self)@.last_seen,
            final(self)@.pending == old(self)@.pending.restrict(
                Set::new(|k: u32| k.wrapping_sub(old(self)@.last_seen) < EVICT_AHEAD),
            ),
    {
        let last: u32 = self.last_seen;
        let mut far: Vec<u32> = Vec::new();
        for id in it: self.pending.keys()
            invariant
                last == self.last_seen,
                forall|j: int|
                    0 <= j < it.index() ==> (#[trigger] it.seq()[j]).wrapping_sub(last)
                        >= EVICT_AHEAD ==> far@.contains(*it.seq()[j]),
                forall|j: int| 0 <= j < far@.len() ==> (#[trigger] far@[j]).wrapping_sub(last) >= EVICT_AHEAD,
        {
            let ghost before = far@;
            if id.wrapping_sub(last) >= EVICT_AHEAD {
                far.push(*id);
                assert(far@[before.len() as int] == *id);
            }
            assert forall|k: u32| before.contains(k) implies far@.contains(k) by {
                let j = choose|j: int| 0 <= j < before.len() && before[j] == k;
                assert(far@[j] == k);
            }
        }
        let mut i: usize = 0;
        while i < far.len()
            invariant
                i <= far@.len(),
                self.last_seen == old(self).last_seen,
                forall|k: u32| #[trigger]
                    self.pending@.contains_key(k) <==> old(self).pending@.contains_key(k)
                        && !far@.take(i as int).contains(k),
                forall|k: u32| #[trigger]
                    self.pending@.contains_key(k) ==> self.pending@[k] == old(self).pending@[k],
            decreases far@.len() - i,
        {
            self.pending.remove(&far[i]);
            proof {
                let done = far@.take(i as int);
                let next = far@.take(i + 1);
                assert(next =~= done.push(far@[i as int]));
                assert forall|k: u32| next.contains(k) <==> done.contains(k) || k == far@[i as int] by {
                    if done.contains(k) {
                        let j = choose|j: int| 0 <= j < done.len() && done[j] == k;
                        assert(next[j] == k);
                    }
                    assert(next[i as int] == far@[i as int]);
                }
            }
            i = i + 1;
        }
        proof {
            assert(far@.take(far@.len() as int) =~= far@);
            let near = Set::new(|k: u32| k.wrapping_sub(last) < EVICT_AHEAD);
            assert(self@.pending =~= old(self)@.pending.restrict(near));
        }
    }

    /// Takes in a packet. Gives the frame that it completes, if it does.
    pub fn push(&mut self, pkt: InboundVideo) -> (r: Option<Vec<u8>>)
        ensures
            final(self)@ == arrive(old(self)@, pkt@).0,
            r is Some <==> arrive(old(self)@, pkt@).1 is Some,
            r matches Some(nal) ==> Some(nal@) == arrive(old(self)@, pkt@).1,
    {
        let ghost before = self@;
        let ghost packet = pkt@;
        let id: u32 = pkt.frame_id;
        if id.wrapping_sub(self.last_seen) > MAX_AHEAD {
            return None;
        }
        let total: u16 = match self.pending.get(&id) {
            Some(f) => f.total,
            None => pkt.total_chunks,
        };
        if pkt.chunk_idx >= total {
            return None;
        }
        let mut chunks: HashMap<u16, Vec<u8>> = match self.pending.remove(&id) {
            Some(f) => {
                proof {
                    use_type_invariant(&f);
                }
                f.chunks
            },
            None => HashMap::new(),
        };
        assert(self@.pending =~= before.pending.remove(id));
        chunks.insert(pkt.chunk_idx, pkt.data);
        let ghost f = Partial { total, chunks: chunks@.map_values(|v: Vec<u8>| v@) };
        proof {
            assert(f.chunks =~= with_chunk(before, packet).chunks);
            assert(f == with_chunk(before, packet));
            assert(f.chunks.dom() =~= chunks@.dom());
            assert(f.chunks.dom().contains(packet.chunk_idx));
            lemma_complete_by_count(f);
        }
        if chunks.len() == total as usize {
            assert forall|c: u16| c < total implies #[trigger] chunks@.contains_key(c) by {
                assert(f.chunks.contains_key(c));
            }
            let nal = assemble(&chunks, total);
            self.last_seen = id;
            self.evict();
            assert(self@.pending =~= kept(before.pending, id));
            Some(nal)
        } else {
            self.pending.insert(id, PartialFrame { total, chunks });
            assert(self@.pending =~= before.pending.insert(id, with_chunk(before, packet)));
            None
        }
    }

    /// Takes in a sealed datagram. One that does not open, or that holds no packet,
    /// is dropped.
    pub fn receive(&mut self, cipher: &Cipher, datagram: &[u8]) -> (r: Option<Vec<u8>>)
        ensures
            final(self)@ == arrive_sealed(old(self)@, cipher@, datagram@).0,
            r is Some <==> arrive_sealed(old(self)@, cipher@, datagram@).1 is Some,
            r matches Some(nal) ==> Some(nal@) == arrive_sealed(
                old(self)@,
                cipher@,
                datagram@,
            ).1,
    {
        let plain = match cipher.open(datagram) {
            Some(p) => p,
            None => {
                return None;
            },
        };
        match InboundVideo::parse(plain.as_slice()) {
            Some(pkt) => self.push(pkt),
            None => None,
        }
    }
}

/// What packets make of the state, one after the other, and what each of them
/// completes.
pub open spec fn arrivals(s: Assembly, ps: Seq<Packet>) -> (Assembly, Seq<Option<Seq<u8>>>)
    decreases ps.len(),
{
    if ps.len() == 0 {
        (s, Seq::empty())
    } else {
        let (before, outs) = arrivals(s, ps.drop_last());
        let (after, out) = arrive(before, ps.last());
        (after, outs.push(out))
    }
}

/// What sealed datagrams make of the state, one after the other.
pub open spec fn sealed_arrivals(s: Assembly, key: Seq<u8>, ds: Seq<Seq<u8>>) -> (
    Assembly,
    Seq<Option<Seq<u8>>>,
)
    decreases ds.len(),
{
    if ds.len() == 0 {
        (s, Seq::empty())
    } else {
        let (before, outs) = sealed_arrivals(s, key, ds.drop_last());
        let (after, out) = arrive_sealed(before, key, ds.last());
        (after, outs.push(out))
    }
}

/// The packet carries a chunk of the frame `nal`.
pub open spec fn is_chunk_of(p: Packet, nal: Seq<u8>) -> bool {
    &&& p.chunk_idx < chunk_count(nal.len())
    &&& p == chunk_packet(p.frame_id, p.pts_ms, nal, p.chunk_idx as int)
}

/// A chunk with that index of that frame is among the packets.
pub open spec fn has_come(ps: Seq<Packet>, id: u32, idx: u16) -> bool {
    exists|k: int|
        0 <= k < ps.len() && (#[trigger] ps[k]).frame_id == id && ps[k].chunk_idx == idx
}

/// The packets with the number `id` carry chunks of the frame `nal`. The others are
/// of frames that are not so far behind it that the frame is passed with them.
pub open spec fn stream_of(ps: Seq<Packet>, id: u32, nal: Seq<u8>) -> bool {
    forall|k: int|
        0 <= k < ps.len() ==> if (#[trigger] ps[k]).frame_id == id {
            is_chunk_of(ps[k], nal)
        } else {
            id.wrapping_sub(ps[k].frame_id) <= MAX_AHEAD
        }
}

/// The chunks of the frame `id` among the packets.
spec fn chunks_of(ps: Seq<Packet>, id: u32) -> Map<u16, Seq<u8>>
    decreases ps.len(),
{
    if ps.len() == 0 {
        Map::empty()
    } else if ps.last().frame_id == id {
        chunks_of(ps.drop_last(), id).insert(ps.last().chunk_idx, ps.last().data)
    } else {
        chunks_of(ps.drop_last(), id)
    }
}

proof fn lemma_has_come_push(ps: Seq<Packet>, id: u32, idx: u16)
    requires
        ps.len() > 0,
    ensures
        has_come(ps, id, idx) <==> has_come(ps.drop_last(), id, idx) || (ps.last().frame_id == id
            && ps.last().chunk_idx == idx),
{
    let qs = ps.drop_last();
    if has_come(qs, id, idx) {
        let k = choose|k: int|
            0 <= k < qs.len() && (#[trigger] qs[k]).frame_id == id && qs[k].chunk_idx == idx;
        assert(ps[k].frame_id == id);
    }
    if has_come(ps, id, idx) {
        let k = choose|k: int|
            0 <= k < ps.len() && (#[trigger] ps[k]).frame_id == id && ps[k].chunk_idx == idx;
        if k < qs.len() {
            assert(qs[k].frame_id == id);
        }
    }
}

proof fn lemma_chunks_of(ps: Seq<Packet>, id: u32, nal: Seq<u8>)
    requires
        stream_of(ps, id, nal),
        chunk_count(nal.len()) <= 0xffff,
    ensures
        forall|c: u16| #[trigger]
            chunks_of(ps, id).contains_key(c) <==> has_come(ps, id, c),
        forall|c: u16| #[trigger]
            chunks_of(ps, id).contains_key(c) ==> c < chunk_count(nal.len()) && chunks_of(
                ps,
                id,
            )[c] == chunk(nal, c as int),
        chunks_of(ps, id).dom().finite(),
    decreases ps.len(),
{
    if ps.len() > 0 {
        let qs = ps.drop_last();
        assert(stream_of(qs, id, nal)) by {
            assert forall|k: int| 0 <= k < qs.len() implies if (#[trigger] qs[k]).frame_id == id {
                is_chunk_of(qs[k], nal)
            } else {
                id.wrapping_sub(qs[k].frame_id) <= MAX_AHEAD
            } by {
                assert(qs[k] == ps[k]);
            }
        }
        lemma_chunks_of(qs, id, nal);
        assert forall|c: u16| #[trigger]
            chunks_of(ps, id).contains_key(c) <==> has_come(ps, id, c) by {
            lemma_has_come_push(ps, id, c);
        }
        let p = ps[ps.len() - 1];
    }
}

/// While a chunk of a frame is missing, none of its packets completes anything, and
/// what has come of it is kept.
proof fn lemma_waiting(s: Assembly, ps: Seq<Packet>, id: u32, nal: Seq<u8>, missing: u16)
    requires
        !passed(s, id),
        !s.pending.contains_key(id),
        stream_of(ps, id, nal),
        missing < chunk_count(nal.len()) <= 0xffff,
        !has_come(ps, id, missing),
    ensures
        arrivals(s, ps).1.len() == ps.len(),
        forall|k: int|
            0 <= k < ps.len() && (#[trigger] ps[k]).frame_id == id ==> arrivals(s, ps).1[k] is None,
        !passed(arrivals(s, ps).0, id),
        arrivals(s, ps).0.pending.contains_key(id) <==> chunks_of(ps, id).len() > 0,
        arrivals(s, ps).0.pending.contains_key(id) ==> arrivals(s, ps).0.pending[id] == (Partial {
            total: chunk_count(nal.len()) as u16,
            chunks: chunks_of(ps, id),
        }),
    decreases ps.len(),
{
    lemma_chunks_of(ps, id, nal);
    if ps.len() > 0 {
        let n = chunk_count(nal.len());
        let qs = ps.drop_last();
        let p = ps.last();
        assert(p == ps[ps.len() - 1]);
        assert forall|k: int| 0 <= k < qs.len() implies if (#[trigger] qs[k]).frame_id == id {
            is_chunk_of(qs[k], nal)
        } else {
            id.wrapping_sub(qs[k].frame_id) <= MAX_AHEAD
        } by {
            assert(qs[k] == ps[k]);
        }
        lemma_has_come_push(ps, id, missing);
        lemma_waiting(s, qs, id, nal, missing);
        lemma_chunks_of(qs, id, nal);
        let (before, outs) = arrivals(s, qs);
        if p.frame_id == id {
            let f = with_chunk(before, p);
            if !before.pending.contains_key(id) {
                assert(chunks_of(qs, id) =~= Map::empty());
            }
            assert(f.chunks =~= chunks_of(ps, id));
            assert(f.total == n as u16);
            assert(chunks_of(ps, id).contains_key(p.chunk_idx));
            assert(!f.chunks.contains_key(missing));
            assert(!is_complete(f));
            assert(chunks_of(ps, id).dom().contains(p.chunk_idx));
        }
        assert forall|k: int| 0 <= k < ps.len() && (#[trigger] ps[k]).frame_id == id implies arrivals(
            s,
            ps,
        ).1[k] is None by {
            if k < qs.len() {
                assert(qs[k].frame_id == id);
            }
        }
    } else {
        assert(chunks_of(ps, id).dom() =~= Set::<u16>::empty());
    }
}

/// The chunks of a frame may come in any order, more than once, and between those
/// of other frames: when the last that was missing comes, the frame comes out as it
/// was sent, and nothing comes out of it before. Frames of more chunks than 16 bits
/// can count are left out.
pub proof fn law_frame_comes_out(s: Assembly, ps: Seq<Packet>, id: u32, nal: Seq<u8>)
    requires
        0 < chunk_count(nal.len()) <= 0xffff,
        !passed(s, id),
        !s.pending.contains_key(id),
        stream_of(ps, id, nal),
        ps.len() > 0,
        ps.last().frame_id == id,
        !has_come(ps.drop_last(), id, ps.last().chunk_idx),
        forall|c: u16| c < chunk_count(nal.len()) ==> #[trigger] has_come(ps, id, c),
    ensures
        arrivals(s, ps).1.len() == ps.len(),
        arrivals(s, ps).1.last() == Some(nal),
        arrivals(s, ps).0.last_seen == id,
        forall|k: int|
            0 <= k < ps.len() - 1 && (#[trigger] ps[k]).frame_id == id ==> arrivals(s, ps).1[k] is None,
{
    let n = chunk_count(nal.len());
    let qs = ps.drop_last();
    let p = ps.last();
    assert(p == ps[ps.len() - 1]);
    assert forall|k: int| 0 <= k < qs.len() implies if (#[trigger] qs[k]).frame_id == id {
        is_chunk_of(qs[k], nal)
    } else {
        id.wrapping_sub(qs[k].frame_id) <= MAX_AHEAD
    } by {
        assert(qs[k] == ps[k]);
    }
    lemma_waiting(s, qs, id, nal, p.chunk_idx);
    lemma_chunks_of(qs, id, nal);
    lemma_chunks_of(ps, id, nal);
    let (before, outs) = arrivals(s, qs);
    let f = with_chunk(before, p);
    if !before.pending.contains_key(id) {
        assert(chunks_of(qs, id).dom() =~= Set::<u16>::empty());
        assert(chunks_of(qs, id) =~= Map::empty());
    }
    assert(f.chunks =~= chunks_of(ps, id));
    assert forall|c: u16| c < n implies #[trigger] f.chunks.contains_key(c) && f.chunks[c] == chunk(
        nal,
        c as int,
    ) by {
        assert(has_come(ps, id, c));
    }
    assert forall|i: int| 0 <= i < n implies parts(f)[i] == chunk(nal, i) by {
        assert(f.chunks.contains_key(i as u16));
    }
    assert(parts(f) =~= Seq::new(n, |i: int| chunk(nal, i)));
    law_chunks_cover(nal);
    assert forall|k: int| 0 <= k < ps.len() - 1 && (#[trigger] ps[k]).frame_id == id implies arrivals(
        s,
        ps,
    ).1[k] is None by {
        assert(qs[k].frame_id == id);
    }
}

/// A chunk with that index and that data of that frame is among the packets.
pub open spec fn has_come_with(ps: Seq<Packet>, id: u32, idx: u16, data: Seq<u8>) -> bool {
    exists|k: int|
        0 <= k < ps.len() && (#[trigger] ps[k]).frame_id == id && ps[k].chunk_idx == idx
            && ps[k].data == data
}

/// All packets of a frame say that it has `total` chunks.
pub open spec fn agreed(ps: Seq<Packet>, id: u32, total: u16) -> bool {
    forall|k: int| 0 <= k < ps.len() && (#[trigger] ps[k]).frame_id == id ==> ps[k].total_chunks
        == total
}

proof fn lemma_pending_has_come(ps: Seq<Packet>, id: u32, total: u16)
    requires
        agreed(ps, id, total),
    ensures
        ({
            let s = arrivals(nothing_received(), ps).0;
            s.pending.contains_key(id) ==> {
                &&& s.pending[id].total == total
                &&& forall|c: u16| #[trigger]
                    s.pending[id].chunks.contains_key(c) ==> has_come_with(
                        ps,
                        id,
                        c,
                        s.pending[id].chunks[c],
                    )
            }
        }),
    decreases ps.len(),
{
    if ps.len() > 0 {
        let qs = ps.drop_last();
        let p = ps[ps.len() - 1];
        assert forall|k: int| 0 <= k < qs.len() && (#[trigger] qs[k]).frame_id
            == id implies qs[k].total_chunks == total by {
            assert(qs[k] == ps[k]);
        }
        lemma_pending_has_come(qs, id, total);
        let before = arrivals(nothing_received(), qs).0;
        let s = arrivals(nothing_received(), ps).0;
        assert(s == arrive(before, p).0);
        if s.pending.contains_key(id) {
            assert forall|c: u16| #[trigger]
                s.pending[id].chunks.contains_key(c) implies has_come_with(
                ps,
                id,
                c,
                s.pending[id].chunks[c],
            ) by {
                lemma_chunk_has_come(ps, id, c, s.pending[id].chunks[c]);
            }
        }
    }
}

/// A chunk that is there after the last packet came with it, or was there before.
proof fn lemma_chunk_has_come(ps: Seq<Packet>, id: u32, c: u16, data: Seq<u8>)
    requires
        ps.len() > 0,
        has_come_with(ps.drop_last(), id, c, data) || (ps.last().frame_id == id
            && ps.last().chunk_idx == c && ps.last().data == data),
    ensures
        has_come_with(ps, id, c, data),
{
    let qs = ps.drop_last();
    if has_come_with(qs, id, c, data) {
        let k = choose|k: int|
            0 <= k < qs.len() && (#[trigger] qs[k]).frame_id == id && qs[k].chunk_idx == c
                && qs[k].data == data;
        assert(ps[k] == qs[k]);
    } else {
        assert(ps[ps.len() - 1].frame_id == id);
    }
}

/// Only whole frames come out. When one does, each of its chunks has come, and what
/// comes out is the data of these, in the order of their indices: a chunk that is
/// repeated, or that the frame does not have, takes no other's place.
pub proof fn law_only_whole_frames(ps: Seq<Packet>, total: u16, nal: Seq<u8>)
    requires
        ps.len() > 0,
        agreed(ps, ps.last().frame_id, total),
        arrivals(nothing_received(), ps).1.last() == Some(nal),
    ensures
        total > 0,
        exists|chunks: Seq<Seq<u8>>|
            #![trigger joined(chunks)]
            {
                &&& chunks.len() == total
                &&& nal == joined(chunks)
                &&& forall|i: int|
                    0 <= i < total ==> has_come_with(
                        ps,
                        ps.last().frame_id,
                        i as u16,
                        #[trigger] chunks[i],
                    )
            },
{
    let qs = ps.drop_last();
    let p = ps[ps.len() - 1];
    let id = p.frame_id;
    assert forall|k: int| 0 <= k < qs.len() && (#[trigger] qs[k]).frame_id
        == id implies qs[k].total_chunks == total by {
        assert(qs[k] == ps[k]);
    }
    lemma_pending_has_come(qs, id, total);
    let before = arrivals(nothing_received(), qs).0;
    let f = with_chunk(before, p);
    assert(arrive(before, p).1 == Some(nal));
    assert(f.total == total);
    assert forall|i: int| 0 <= i < total implies has_come_with(
        ps,
        id,
        i as u16,
        #[trigger] parts(f)[i],
    ) by {
        let c = i as u16;
        assert(f.chunks.contains_key(c));
        lemma_chunk_has_come(ps, id, c, f.chunks[c]);
    }
    assert(nal == joined(parts(f)));
}

/// Datagrams that open to the packets have the effect of the packets.
pub proof fn law_sealed_arrivals(s: Assembly, key: Seq<u8>, ds: Seq<Seq<u8>>, ps: Seq<Packet>)
    requires
        ds.len() == ps.len(),
        forall|k: int|
            0 <= k < ps.len() ==> opened(key, #[trigger] ds[k]) == Some(packet_bytes(ps[k])),
        forall|k: int| 0 <= k < ps.len() ==> (#[trigger] ps[k]).data.len() < 0x1_0000,
    ensures
        sealed_arrivals(s, key, ds) == arrivals(s, ps),
    decreases ds.len(),
{
    if ds.len() > 0 {
        let n = ds.len() - 1;
        assert forall|k: int| 0 <= k < n implies opened(key, #[trigger] ds.drop_last()[k]) == Some(
            packet_bytes(ps.drop_last()[k]),
        ) by {
            assert(ds.drop_last()[k] == ds[k]);
        }
        law_sealed_arrivals(s, key, ds.drop_last(), ps.drop_last());
        assert(opened(key, ds[n]) == Some(packet_bytes(ps[n])));
        law_parse_written(ps[n], Seq::empty());
        assert(packet_bytes(ps[n]) + Seq::<u8>::empty() =~= packet_bytes(ps[n]));
    }
}

/// What a host streams, a viewer with its key sees: let the datagrams of a frame,
/// each of which opens to the packet of its chunk, come in any order and more than
/// once; when the last that was missing comes, the frame comes out as it was encoded.
pub proof fn law_video_arrives(
    s: Assembly,
    key: Seq<u8>,
    id: u32,
    pts_ms: u32,
    nal: Seq<u8>,
    datagrams: Seq<Seq<u8>>,
    order: Seq<int>,
)
    requires
        0 < chunk_count(nal.len()) <= 0xffff,
        datagrams.len() == chunk_count(nal.len()),
        forall|i: int|
            0 <= i < datagrams.len() ==> opened(key, #[trigger] datagrams[i]) == Some(
                packet_bytes(chunk_packet(id, pts_ms, nal, i)),
            ),
        !passed(s, id),
        !s.pending.contains_key(id),
        order.len() > 0,
        forall|k: int| 0 <= k < order.len() ==> 0 <= #[trigger] order[k] < datagrams.len(),
        forall|i: int| 0 <= i < datagrams.len() ==> #[trigger] order.contains(i),
        !order.drop_last().contains(order.last()),
    ensures
        ({
            let come = Seq::new(order.len(), |k: int| datagrams[order[k]]);
            let (after, outs) = sealed_arrivals(s, key, come);
            &&& outs.len() == order.len()
            &&& outs.last() == Some(nal)
            &&& after.last_seen == id
            &&& forall|k: int| 0 <= k < outs.len() - 1 ==> (#[trigger] outs[k]) is None
        }),
{
    let come = Seq::new(order.len(), |k: int| datagrams[order[k]]);
    let ps = chunks_in_order(id, pts_ms, nal, order);
    lemma_chunks_in_order(id, pts_ms, nal, order);
    assert forall|k: int| 0 <= k < ps.len() implies opened(key, #[trigger] come[k]) == Some(
        packet_bytes(ps[k]),
    ) by {
        assert(0 <= order[k] < datagrams.len());
        assert(opened(key, datagrams[order[k]]) is Some);
    }
    law_sealed_arrivals(s, key, come, ps);
    law_frame_comes_out(s, ps, id, nal);
    assert forall|k: int| 0 <= k < ps.len() - 1 implies (#[trigger] arrivals(s, ps).1[k]) is None by {
        assert(ps[k].frame_id == id);
    }
}

/// The packets of chunks of one frame, in that order.
spec fn chunks_in_order(id: u32, pts_ms: u32, nal: Seq<u8>, order: Seq<int>) -> Seq<Packet> {
    Seq::new(order.len(), |k: int| chunk_packet(id, pts_ms, nal, order[k]))
}

proof fn lemma_chunks_in_order(id: u32, pts_ms: u32, nal: Seq<u8>, order: Seq<int>)
    requires
        chunk_count(nal.len()) <= 0xffff,
        order.len() > 0,
        forall|k: int|
            0 <= k < order.len() ==> 0 <= #[trigger] order[k] < chunk_count(nal.len()),
        forall|i: int| 0 <= i < chunk_count(nal.len()) ==> #[trigger] order.contains(i),
        !order.drop_last().contains(order.last()),
    ensures
        ({
            let ps = chunks_in_order(id, pts_ms, nal, order);
            &&& stream_of(ps, id, nal)
            &&& forall|k: int|
                0 <= k < ps.len() ==> (#[trigger] ps[k]).frame_id == id && ps[k].data.len()
                    < 0x1_0000
            &&& forall|c: u16| c < chunk_count(nal.len()) ==> #[trigger] has_come(ps, id, c)
            &&& !has_come(ps.drop_last(), id, ps.last().chunk_idx)
        }),
{
    let ps = chunks_in_order(id, pts_ms, nal, order);
    law_chunks_cover(nal);
    assert forall|k: int| 0 <= k < ps.len() implies (#[trigger] ps[k]).frame_id == id
        && ps[k].chunk_idx == order[k] && is_chunk_of(ps[k], nal) && ps[k].data.len()
        < 0x1_0000 by {
        assert(0 <= order[k] < chunk_count(nal.len()));
        assert(chunk(nal, order[k]).len() <= 1300);
    }
    assert forall|c: u16| c < chunk_count(nal.len()) implies #[trigger] has_come(ps, id, c) by {
        assert(order.contains(c as int));
        let k = choose|k: int| 0 <= k < order.len() && order[k] == c as int;
        assert(ps[k].chunk_idx == c);
    }
    let qs = ps.drop_last();
    let last = ps[ps.len() - 1].chunk_idx;
    if has_come(qs, id, last) {
        let k = choose|k: int|
            0 <= k < qs.len() && (#[trigger] qs[k]).frame_id == id && qs[k].chunk_idx == last;
        assert(qs[k] == ps[k]);
        assert(order.drop_last()[k] == order.last());
    }
}

/// A datagram that does not open under the key changes nothing.
pub proof fn law_unauthentic_dropped(s: Assembly, key: Seq<u8>, datagram: Seq<u8>)
    requires
        opened(key, datagram) is None,
    ensures
        arrive_sealed(s, key, datagram) == (s, None::<Seq<u8>>),
{
}

/// A packet of a frame that has been passed changes nothing; so no frame comes out
/// once one that far ahead of it has.
pub proof fn law_passed_dropped(s: Assembly, p: Packet)
    requires
        passed(s, p.frame_id),
    ensures
        arrive(s, p) == (s, None::<Seq<u8>>),
{
}

/// The next 60 frames after the last complete one, and that one itself, are not
/// passed; all others are, those before it among them. So up to 59 frames in a row
/// may be lost.
pub proof fn law_what_is_passed(s: Assembly, ahead: u32)
    ensures
        passed(s, s.last_seen.wrapping_add(ahead)) <==> ahead > MAX_AHEAD,
{
}

/// The packets of a frame, in the order of its chunks.
pub open spec fn frame_packets(id: u32, pts_ms: u32, nal: Seq<u8>) -> Seq<Packet> {
    Seq::new(chunk_count(nal.len()), |i: int| chunk_packet(id, pts_ms, nal, i))
}

/// The packets of frames that are sent one after the other, numbered from 0 on.
pub open spec fn stream_packets(pts_ms: Seq<u32>, nals: Seq<Seq<u8>>) -> Seq<Packet>
    decreases nals.len(),
{
    if nals.len() == 0 {
        Seq::empty()
    } else {
        let k = nals.len() - 1;
        stream_packets(pts_ms, nals.drop_last()) + frame_packets(
            frame_number(k as nat),
            pts_ms[k],
            nals[k],
        )
    }
}

/// The number of the frame that is sent after `k` others.
pub open spec fn frame_number(k: nat) -> u32
    decreases k,
{
    if k == 0 {
        0
    } else {
        frame_number((k - 1) as nat).wrapping_add(1)
    }
}

/// The frames that come out.
pub open spec fn come_out(outs: Seq<Option<Seq<u8>>>) -> Seq<Seq<u8>>
    decreases outs.len(),
{
    if outs.len() == 0 {
        Seq::empty()
    } else {
        match outs.last() {
            Some(nal) => come_out(outs.drop_last()).push(nal),
            None => come_out(outs.drop_last()),
        }
    }
}

proof fn lemma_arrivals_append(s: Assembly, a: Seq<Packet>, b: Seq<Packet>)
    ensures
        ({
            let (mid, first) = arrivals(s, a);
            let (end, second) = arrivals(mid, b);
            arrivals(s, a + b) == (end, first + second)
        }),
    decreases b.len(),
{
    let (mid, first) = arrivals(s, a);
    if b.len() == 0 {
        assert(a + b =~= a);
        assert(first + Seq::<Option<Seq<u8>>>::empty() =~= first);
    } else {
        lemma_arrivals_append(s, a, b.drop_last());
        assert((a + b).drop_last() =~= a + b.drop_last());
        let (before, second) = arrivals(mid, b.drop_last());
        let out = arrive(before, b.last()).1;
        assert((first + second).push(out) =~= first + second.push(out));
    }
}

proof fn lemma_come_out_append(a: Seq<Option<Seq<u8>>>, b: Seq<Option<Seq<u8>>>)
    ensures
        come_out(a + b) == come_out(a) + come_out(b),
    decreases b.len(),
{
    if b.len() == 0 {
        assert(a + b =~= a);
        assert(come_out(a) + Seq::<Seq<u8>>::empty() =~= come_out(a));
    } else {
        lemma_come_out_append(a, b.drop_last());
        assert((a + b).drop_last() =~= a + b.drop_last());
        if let Some(nal) = b.last() {
            assert((come_out(a) + come_out(b.drop_last())).push(nal) =~= come_out(a) + come_out(
                b.drop_last(),
            ).push(nal));
        }
    }
}

proof fn lemma_nothing_comes_out(outs: Seq<Option<Seq<u8>>>)
    requires
        forall|k: int| 0 <= k < outs.len() ==> (#[trigger] outs[k]) is None,
    ensures
        come_out(outs) == Seq::<Seq<u8>>::empty(),
    decreases outs.len(),
{
    if outs.len() > 0 {
        assert(outs[outs.len() - 1] is None);
        assert forall|k: int| 0 <= k < outs.drop_last().len() implies (
        #[trigger] outs.drop_last()[k]) is None by {
            assert(outs[k] is None);
        }
        lemma_nothing_comes_out(outs.drop_last());
    }
}

/// Packets of one frame leave nothing behind of any other.
proof fn lemma_no_other_pending(s: Assembly, ps: Seq<Packet>, id: u32)
    requires
        s.pending == Map::<u32, Partial>::empty(),
        forall|k: int| 0 <= k < ps.len() ==> (#[trigger] ps[k]).frame_id == id,
    ensures
        forall|k: u32| #[trigger] arrivals(s, ps).0.pending.contains_key(k) ==> k == id,
    decreases ps.len(),
{
    if ps.len() > 0 {
        assert forall|k: int| 0 <= k < ps.drop_last().len() implies (
        #[trigger] ps.drop_last()[k]).frame_id == id by {
            assert(ps[k].frame_id == id);
        }
        lemma_no_other_pending(s, ps.drop_last(), id);
        let before = arrivals(s, ps.drop_last()).0;
        let p = ps[ps.len() - 1];
        assert(p.frame_id == id);
        assert forall|k: u32| #[trigger] arrivals(s, ps).0.pending.contains_key(k) implies k
            == id by {
            assert(arrivals(s, ps).0 == arrive(before, p).0);
            assert(kept(before.pending, id).contains_key(k) ==> before.pending.contains_key(k));
            assert(before.pending.contains_key(k) ==> k == id);
        }
    }
}

proof fn lemma_one_frame(s: Assembly, id: u32, pts_ms: u32, nal: Seq<u8>)
    requires
        0 < chunk_count(nal.len()) <= 0xffff,
        s.pending == Map::<u32, Partial>::empty(),
        !passed(s, id),
    ensures
        ({
            let (after, outs) = arrivals(s, frame_packets(id, pts_ms, nal));
            &&& after == (Assembly { pending: Map::empty(), last_seen: id })
            &&& come_out(outs) == seq![nal]
        }),
{
    let n = chunk_count(nal.len());
    let order = Seq::new(n, |i: int| i);
    let ps = frame_packets(id, pts_ms, nal);
    assert(ps =~= chunks_in_order(id, pts_ms, nal, order));
    assert forall|i: int| 0 <= i < n implies #[trigger] order.contains(i) by {
        assert(order[i] == i);
    }
    lemma_chunks_in_order(id, pts_ms, nal, order);
    law_frame_comes_out(s, ps, id, nal);
    let (after, outs) = arrivals(s, ps);
    let qs = ps.drop_last();
    let before = arrivals(s, qs).0;
    assert forall|k: int| 0 <= k < qs.len() implies (#[trigger] qs[k]).frame_id == id by {
        assert(ps[k].frame_id == id);
    }
    lemma_no_other_pending(s, qs, id);
    assert(ps.last() == ps[ps.len() - 1]);
    assert(after == arrive(before, ps.last()).0);
    assert(after.pending =~= Map::empty());
    let front = outs.drop_last();
    assert forall|k: int| 0 <= k < front.len() implies (#[trigger] front[k]) is None by {
        assert(ps[k].frame_id == id);
    }
    lemma_nothing_comes_out(front);
    assert(come_out(outs) =~= seq![nal]);
}

/// Frames that are sent one after the other come out one after the other, each once
/// and all of them, however many there are: their numbers may wrap around.
pub proof fn law_stream_comes_out(pts_ms: Seq<u32>, nals: Seq<Seq<u8>>)
    requires
        forall|k: int|
            0 <= k < nals.len() ==> 0 < chunk_count((#[trigger] nals[k]).len()) <= 0xffff,
    ensures
        come_out(arrivals(nothing_received(), stream_packets(pts_ms, nals)).1) == nals,
        arrivals(nothing_received(), stream_packets(pts_ms, nals)).0.pending == Map::<
            u32,
            Partial,
        >::empty(),
{
    lemma_stream(pts_ms, nals);
}

proof fn lemma_stream(pts_ms: Seq<u32>, nals: Seq<Seq<u8>>)
    requires
        forall|k: int|
            0 <= k < nals.len() ==> 0 < chunk_count((#[trigger] nals[k]).len()) <= 0xffff,
    ensures
        ({
            let (after, outs) = arrivals(nothing_received(), stream_packets(pts_ms, nals));
            &&& come_out(outs) == nals
            &&& after.pending == Map::<u32, Partial>::empty()
            &&& after.last_seen == (if nals.len() == 0 {
                0
            } else {
                frame_number((nals.len() - 1) as nat)
            })
        }),
    decreases nals.len(),
{
    if nals.len() == 0 {
        assert(nals =~= Seq::<Seq<u8>>::empty());
    } else {
        let front = nals.drop_last();
        let k = nals.len() - 1;
        assert forall|j: int| 0 <= j < front.len() implies 0 < chunk_count(
            (#[trigger] front[j]).len(),
        ) <= 0xffff by {
            assert(front[j] == nals[j]);
        }
        lemma_stream(pts_ms, front);
        let (mid, outs) = arrivals(nothing_received(), stream_packets(pts_ms, front));
        let id = frame_number(k as nat);
        let ps = frame_packets(id, pts_ms[k], nals[k]);
        lemma_one_frame(mid, id, pts_ms[k], nals[k]);
        lemma_arrivals_append(nothing_received(), stream_packets(pts_ms, front), ps);
        lemma_come_out_append(outs, arrivals(mid, ps).1);
        assert(front + seq![nals[k]] =~= nals);
    }
}

/// What holds of the state at any time: each frame that is kept lacks chunks, has one
/// at least, has none that it should not have, and is not too far ahead.
pub open spec fn assembly_ok(s: Assembly) -> bool {
    &&& s.pending.dom().finite()
    &&& forall|id: u32| #[trigger]
        s.pending.contains_key(id) ==> {
            &&& id.wrapping_sub(s.last_seen) < EVICT_AHEAD
            &&& !is_complete(s.pending[id])
            &&& forall|c: u16| #[trigger]
                s.pending[id].chunks.contains_key(c) ==> c < s.pending[id].total
            &&& s.pending[id].chunks.dom().finite()
            &&& s.pending[id].chunks.len() > 0
        }
}

/// Every packet keeps the state in order.
pub proof fn law_assembly_stays_ok(s: Assembly, p: Packet)
    requires
        assembly_ok(s),
    ensures
        assembly_ok(nothing_received()),
        assembly_ok(arrive(s, p).0),
{
    let after = arrive(s, p).0;
    let f = with_chunk(s, p);
    assert(f.chunks.dom().contains(p.chunk_idx));
    if !passed(s, p.frame_id) && p.chunk_idx < f.total && is_complete(f) {
        vstd::set_lib::lemma_len_subset(after.pending.dom(), s.pending.dom());
    }
}

/// Never are more than 120 frames kept.
pub proof fn law_pending_bounded(s: Assembly)
    requires
        assembly_ok(s),
    ensures
        s.pending.len() <= EVICT_AHEAD,
{
    lemma_ahead_count(s.pending.dom(), s.last_seen, EVICT_AHEAD as nat);
}

proof fn lemma_ahead_count(ids: Set<u32>, last: u32, n: nat)
    requires
        ids.finite(),
        n <= 0xffff_ffff,
        forall|id: u32| #[trigger] ids.contains(id) ==> id.wrapping_sub(last) < n,
    ensures
        ids.len() <= n,
    decreases n,
{
    if n == 0 {
        assert(ids =~= Set::<u32>::empty());
    } else {
        let top = last.wrapping_add((n - 1) as u32);
        let rest = ids.remove(top);
        assert forall|id: u32| #[trigger] rest.contains(id) implies id.wrapping_sub(last) < n - 1 by {
            assert(ids.contains(id));
        }
        lemma_ahead_count(rest, last, (n - 1) as nat);
    }
}

/// How far a number is ahead of another, counted with wrap around.
proof fn lemma_ahead(id: u32, last: u32)
    ensures
        id.wrapping_sub(last) == (if id >= last {
            id - last
        } else {
            id - last + 0x1_0000_0000
        }),
{
}

/// A packet is dropped, and changes nothing, if its frame is more than 60 ahead of the
/// last complete one, counted with wrap around, or if the frame has no chunk of its
/// index. How many chunks a frame has, the first of its packets says.
pub proof fn law_packet_dropped(
    fresh: Reassembler,
    frames: &mut Reassembler,
    pkt: InboundVideo,
    r: Option<Vec<u8>>,
)
    requires
        call_ensures(Reassembler::new, (), fresh),
        call_ensures(Reassembler::push, (frames, pkt), r),
    ensures
        fresh@.pending == Map::<u32, Partial>::empty(),
        fresh@.last_seen == 0,
        ({
            let last = old(frames)@.last_seen;
            let ahead = if pkt.frame_id >= last {
                pkt.frame_id - last
            } else {
                pkt.frame_id - last + 0x1_0000_0000
            };
            let total = if old(frames)@.pending.contains_key(pkt.frame_id) {
                old(frames)@.pending[pkt.frame_id].total
            } else {
                pkt.total_chunks
            };
            &&& ahead > 60 || pkt.chunk_idx >= total ==> r is None && final(frames)@ == old(frames)@
            &&& ahead <= 60 && pkt.chunk_idx < total ==> r is Some || final(frames)@ != old(frames)@ || (
            old(frames)@.pending.contains_key(pkt.frame_id)
                && old(frames)@.pending[pkt.frame_id].chunks.contains_key(pkt.chunk_idx)
                && old(frames)@.pending[pkt.frame_id].chunks[pkt.chunk_idx] == pkt.data@)
        }),
{
    lemma_ahead(pkt.frame_id, old(frames)@.last_seen);
    let s = old(frames)@;
    let id = pkt.frame_id;
    if r is None && final(frames)@ == s && !passed(s, id) && pkt.chunk_idx < so_far(s, pkt@).total {
        assert(final(frames)@.pending.contains_key(id));
        assert(final(frames)@.pending[id].chunks.contains_key(pkt.chunk_idx));
        assert(final(frames)@.pending[id].chunks[pkt.chunk_idx] == pkt.data@);
    }
}

/// A packet that leaves its frame with a chunk missing is kept with what has come of the
/// frame: its chunk, in place of one with the same index, beside the others. Nothing comes
/// out, and the other frames stay as they are.
pub proof fn law_chunk_kept(
    frames: &mut Reassembler,
    pkt: InboundVideo,
    r: Option<Vec<u8>>,
    missing: u16,
)
    requires
        call_ensures(Reassembler::push, (frames, pkt), r),
        ({
            let last = old(frames)@.last_seen;
            if pkt.frame_id >= last {
                pkt.frame_id - last <= 60
            } else {
                pkt.frame_id - last + 0x1_0000_0000 <= 60
            }
        }),
        missing != pkt.chunk_idx,
        if old(frames)@.pending.contains_key(pkt.frame_id) {
            let f = old(frames)@.pending[pkt.frame_id];
            pkt.chunk_idx < f.total && missing < f.total && !f.chunks.contains_key(missing)
        } else {
            pkt.chunk_idx < pkt.total_chunks && missing < pkt.total_chunks
        },
    ensures
        r is None,
        final(frames)@.last_seen == old(frames)@.last_seen,
        final(frames)@.pending.contains_key(pkt.frame_id),
        final(frames)@.pending.remove(pkt.frame_id) == old(frames)@.pending.remove(pkt.frame_id),
        ({
            let f = final(frames)@.pending[pkt.frame_id];
            &&& f.chunks.contains_key(pkt.chunk_idx)
            &&& f.chunks[pkt.chunk_idx] == pkt.data@
            &&& old(frames)@.pending.contains_key(pkt.frame_id) ==> f.total == old(
                frames,
            )@.pending[pkt.frame_id].total && f.chunks.remove(pkt.chunk_idx) == old(
                frames,
            )@.pending[pkt.frame_id].chunks.remove(pkt.chunk_idx)
            &&& !old(frames)@.pending.contains_key(pkt.frame_id) ==> f.total == pkt.total_chunks
                && f.chunks.remove(pkt.chunk_idx) == Map::<u16, Seq<u8>>::empty()
        }),
{
    let s = old(frames)@;
    let id = pkt.frame_id;
    lemma_ahead(id, s.last_seen);
    let f = with_chunk(s, pkt@);
    assert(!f.chunks.contains_key(missing));
    assert(!is_complete(f));
    assert(final(frames)@.pending =~= s.pending.insert(id, f));
    assert(final(frames)@.pending.remove(id) =~= s.pending.remove(id));
    assert(f.chunks.remove(pkt.chunk_idx) =~= so_far(s, pkt@).chunks.remove(pkt.chunk_idx));
    if !s.pending.contains_key(id) {
        assert(f.chunks.remove(pkt.chunk_idx) =~= Map::<u16, Seq<u8>>::empty());
    }
}

/// The packet that brings the last chunk that was missing brings the frame out: the data
/// of all its chunks, one behind the other in the order of their indices. It is then the
/// last complete frame, and of the others those are kept, as they are, that are less than
/// 120 ahead of it.
pub proof fn law_frame_completed(
    frames: &mut Reassembler,
    pkt: InboundVideo,
    r: Option<Vec<u8>>,
    chunks: Seq<Seq<u8>>,
    other: u32,
)
    requires
        call_ensures(Reassembler::push, (frames, pkt), r),
        ({
            let last = old(frames)@.last_seen;
            if pkt.frame_id >= last {
                pkt.frame_id - last <= 60
            } else {
                pkt.frame_id - last + 0x1_0000_0000 <= 60
            }
        }),
        chunks.len() == (if old(frames)@.pending.contains_key(pkt.frame_id) {
            old(frames)@.pending[pkt.frame_id].total
        } else {
            pkt.total_chunks
        }),
        pkt.chunk_idx < chunks.len(),
        chunks[pkt.chunk_idx as int] == pkt.data@,
        forall|c: u16|
            c < chunks.len() && c != pkt.chunk_idx ==> old(frames)@.pending.contains_key(pkt.frame_id)
                && #[trigger] old(frames)@.pending[pkt.frame_id].chunks.contains_key(c) && old(
                frames,
            )@.pending[pkt.frame_id].chunks[c] == chunks[c as int],
    ensures
        r is Some && r->0@ == joined(chunks),
        final(frames)@.last_seen == pkt.frame_id,
        !final(frames)@.pending.contains_key(pkt.frame_id),
        other != pkt.frame_id ==> {
            let ahead = if other >= pkt.frame_id {
                other - pkt.frame_id
            } else {
                other - pkt.frame_id + 0x1_0000_0000
            };
            &&& final(frames)@.pending.contains_key(other) <==> old(frames)@.pending.contains_key(other)
                && ahead < 120
            &&& final(frames)@.pending.contains_key(other) ==> final(frames)@.pending[other] == old(
                frames,
            )@.pending[other]
        },
{
    let s = old(frames)@;
    let id = pkt.frame_id;
    lemma_ahead(id, s.last_seen);
    lemma_ahead(other, id);
    let f = with_chunk(s, pkt@);
    assert forall|c: u16| c < f.total implies #[trigger] f.chunks.contains_key(c) && f.chunks[c]
        == chunks[c as int] by {
        if c != pkt.chunk_idx {
            assert(s.pending[id].chunks.contains_key(c));
        }
    }
    assert forall|i: int| 0 <= i < chunks.len() implies parts(f)[i] == #[trigger] chunks[i] by {
        assert(f.chunks.contains_key(i as u16));
    }
    assert(parts(f) =~= chunks);
    assert(is_complete(f));
}

/// A datagram counts for the packet that it opens to and that is read from it, and for
/// nothing if it does not open or holds no packet.
pub proof fn law_datagram_received(
    frames: &mut Reassembler,
    cipher: &Cipher,
    datagram: &[u8],
    r: Option<Vec<u8>>,
    plain: Option<Vec<u8>>,
    bytes: &[u8],
    pkt: Option<InboundVideo>,
    twin: &mut Reassembler,
    s: Option<Vec<u8>>,
)
    requires
        call_ensures(Reassembler::receive, (frames, cipher, datagram), r),
        call_ensures(Cipher::open, (cipher, datagram), plain),
        plain matches Some(p) ==> bytes@ == p@,
        call_ensures(InboundVideo::parse, (bytes,), pkt),
        old(twin)@ == old(frames)@,
        pkt matches Some(p) ==> call_ensures(Reassembler::push, (twin, p), s),
    ensures
        plain is None || pkt is None ==> r is None && final(frames)@ == old(frames)@,
        plain is Some && pkt is Some ==> {
            &&& final(frames)@ == final(twin)@
            &&& r is Some <==> s is Some
            &&& r is Some ==> r->0@ == s->0@
        },
{
}

} // verus!
