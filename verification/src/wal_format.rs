use vstd::prelude::*;

use crate::util::extend_bytes;
use crate::util::spec_u32_to_be_bytes;
use crate::util::u32_from_be_bytes;
use crate::util::u32_to_be_bytes;

verus! {

broadcast use vstd::seq_lib::group_seq_properties;

/// The byte framing shared by the write-ahead log and the transaction log
/// files: each record is stored as four big-endian size bytes followed by the
/// record's serialized payload, and frames are concatenated in append order.
/// Reading stops at the first frame whose size bytes or payload run past the
/// end of the stream: a truncated trailing frame is dropped silently.
pub open spec fn spec_frame(p: Seq<u8>) -> Seq<u8> {
    spec_u32_to_be_bytes(p.len() as u32) + p
}

/// The framed stream of a sequence of payloads, in order.
pub open spec fn spec_frames(ps: Seq<Seq<u8>>) -> Seq<u8>
    decreases ps.len(),
{
    if ps.len() == 0 {
        Seq::empty()
    } else {
        spec_frame(ps[0]) + spec_frames(ps.drop_first())
    }
}

/// The value of four big-endian bytes.
pub open spec fn spec_be32_val(b: Seq<u8>) -> u32 {
    vstd::bytes::spec_u32_from_le_bytes(b.reverse())
}

/// Greedy decoding from the front: emit each complete frame's payload and
/// stop at the first incomplete one.
pub open spec fn spec_decode(bytes: Seq<u8>) -> Seq<Seq<u8>>
    decreases bytes.len(),
{
    if bytes.len() < 4 {
        Seq::empty()
    } else {
        let n = spec_be32_val(bytes.take(4)) as int;
        if bytes.len() < 4 + n {
            Seq::empty()
        } else {
            seq![bytes.subrange(4, 4 + n)] + spec_decode(bytes.skip(4 + n))
        }
    }
}

/// The payload bytes of a vector of payloads.
pub open spec fn payload_views(ps: Seq<Vec<u8>>) -> Seq<Seq<u8>> {
    ps.map(|i: int, v: Vec<u8>| v@)
}

/// The four big-endian size bytes of a value read back as that value.
proof fn lemma_be32_round(x: u32)
    ensures
        spec_u32_to_be_bytes(x).len() == 4,
        spec_be32_val(spec_u32_to_be_bytes(x)) == x,
{
    vstd::bytes::lemma_auto_spec_u32_to_from_le_bytes();
    let le = vstd::bytes::spec_u32_to_le_bytes(x);
    assert(le.reverse().reverse() =~= le);
}

/// Law: decoding a framed stream yields exactly the payloads that were
/// framed, in order.
pub proof fn lemma_frames_round_trip(ps: Seq<Seq<u8>>)
    requires
        forall|i: int| 0 <= i < ps.len() ==> (#[trigger] ps[i]).len() <= u32::MAX,
    ensures
        spec_decode(spec_frames(ps)) == ps,
    decreases ps.len(),
{
    if ps.len() == 0 {
        assert(spec_decode(spec_frames(ps)) =~= ps);
    } else {
        let head = ps[0];
        let rest = ps.drop_first();
        let hb = spec_u32_to_be_bytes(head.len() as u32);
        lemma_be32_round(head.len() as u32);
        let whole = spec_frames(ps);
        assert(whole == (hb + head) + spec_frames(rest));
        assert(whole.take(4) =~= hb);
        assert(spec_be32_val(whole.take(4)) as int == head.len() as int);
        assert(whole.subrange(4, 4 + head.len() as int) =~= head);
        assert(whole.skip(4 + head.len() as int) =~= spec_frames(rest));
        assert forall|i: int| 0 <= i < rest.len() implies (#[trigger] rest[i]).len()
            <= u32::MAX by {
            assert(rest[i] == ps[i + 1]);
        }
        lemma_frames_round_trip(rest);
        assert(spec_decode(whole) =~= seq![head] + rest);
        assert(seq![head] + rest =~= ps);
    }
}

/// Law: a truncated trailing frame after whole frames is dropped, and the
/// whole frames still decode to their payloads.
pub proof fn lemma_truncated_tail_dropped(ps: Seq<Seq<u8>>, junk: Seq<u8>)
    requires
        forall|i: int| 0 <= i < ps.len() ==> (#[trigger] ps[i]).len() <= u32::MAX,
        junk.len() < 4 || junk.len() < 4 + spec_be32_val(junk.take(4)),
    ensures
        spec_decode(spec_frames(ps) + junk) == ps,
    decreases ps.len(),
{
    if ps.len() == 0 {
        assert(spec_frames(ps) + junk =~= junk);
        assert(spec_decode(junk) =~= Seq::<Seq<u8>>::empty());
        assert(spec_decode(spec_frames(ps) + junk) =~= ps);
    } else {
        let head = ps[0];
        let rest = ps.drop_first();
        let hb = spec_u32_to_be_bytes(head.len() as u32);
        lemma_be32_round(head.len() as u32);
        let whole = spec_frames(ps) + junk;
        assert(whole =~= (hb + head) + (spec_frames(rest) + junk));
        assert(whole.take(4) =~= hb);
        assert(spec_be32_val(whole.take(4)) as int == head.len() as int);
        assert(whole.subrange(4, 4 + head.len() as int) =~= head);
        assert(whole.skip(4 + head.len() as int) =~= spec_frames(rest) + junk);
        assert forall|i: int| 0 <= i < rest.len() implies (#[trigger] rest[i]).len()
            <= u32::MAX by {
            assert(rest[i] == ps[i + 1]);
        }
        lemma_truncated_tail_dropped(rest, junk);
        assert(spec_decode(whole) =~= seq![head] + rest);
        assert(seq![head] + rest =~= ps);
    }
}

/// Appends one frame to a byte buffer: four big-endian size bytes, then the
/// payload.
pub fn append_frame(buf: &mut Vec<u8>, payload: &[u8])
    requires
        payload@.len() <= u32::MAX,
    ensures
        final(buf)@ == old(buf)@ + spec_frame(payload@),
{
    let header = u32_to_be_bytes(payload.len() as u32);
    extend_bytes(buf, header.as_slice());
    extend_bytes(buf, payload);
    proof {
        assert(buf@ =~= old(buf)@ + spec_frame(payload@));
    }
}

/// Frames a whole sequence of payloads, in order.
pub fn encode_frames(payloads: &Vec<Vec<u8>>) -> (r: Vec<u8>)
    requires
        forall|i: int| 0 <= i < payloads@.len() ==> (#[trigger] payloads@[i])@.len() <= u32::MAX,
    ensures
        r@ == spec_frames(payload_views(payloads@)),
{
    let ghost m = payload_views(payloads@);
    let mut r: Vec<u8> = Vec::new();
    let mut i: usize = 0;
    while i < payloads.len()
        invariant
            0 <= i <= payloads@.len(),
            m == payload_views(payloads@),
            forall|k: int| 0 <= k < payloads@.len() ==> (#[trigger] payloads@[k])@.len()
                <= u32::MAX,
            r@ + spec_frames(m.skip(i as int)) == spec_frames(m),
        decreases payloads@.len() - i,
    {
        let ghost prev = r@;
        append_frame(&mut r, payloads[i].as_slice());
        proof {
            assert(m.skip(i as int)[0] == m[i as int]);
            assert(m.skip(i as int).drop_first() =~= m.skip(i as int + 1));
            assert(spec_frames(m.skip(i as int)) == spec_frame(m[i as int]) + spec_frames(
                m.skip(i as int + 1),
            ));
            assert(r@ + spec_frames(m.skip(i as int + 1)) =~= prev + spec_frames(
                m.skip(i as int),
            ));
        }
        i += 1;
    }
    proof {
        assert(m.skip(m.len() as int) =~= Seq::<Seq<u8>>::empty());
        assert(r@ + spec_frames(m.skip(m.len() as int)) =~= r@);
    }
    r
}

/// Splits a framed stream back into payloads, greedily from the front; a
/// truncated trailing frame ends the stream and is dropped silently.
pub fn decode_frames(bytes: &[u8]) -> (r: Vec<Vec<u8>>)
    ensures
        payload_views(r@) == spec_decode(bytes@),
{
    let mut r: Vec<Vec<u8>> = Vec::new();
    let mut pos: usize = 0;
    loop
        invariant_except_break
            pos <= bytes@.len(),
            spec_decode(bytes@) == payload_views(r@) + spec_decode(bytes@.skip(pos as int)),
        ensures
            payload_views(r@) == spec_decode(bytes@),
        decreases bytes@.len() - pos,
    {
        let ghost tail = bytes@.skip(pos as int);
        if bytes.len() - pos < 4 {
            proof {
                assert(spec_decode(tail) =~= Seq::<Seq<u8>>::empty());
                assert(payload_views(r@) + spec_decode(tail) =~= payload_views(r@));
            }
            break;
        }
        let mut hdr: Vec<u8> = Vec::new();
        hdr.push(bytes[pos]);
        hdr.push(bytes[pos + 1]);
        hdr.push(bytes[pos + 2]);
        hdr.push(bytes[pos + 3]);
        let size32 = u32_from_be_bytes(hdr.as_slice());
        proof {
            assert(hdr@ =~= tail.take(4));
            lemma_be32_round(size32);
            assert(spec_be32_val(tail.take(4)) == size32);
        }
        let size = size32 as usize;
        let rem = bytes.len() - (pos + 4);
        if size > rem {
            proof {
                assert(tail.len() < 4 + spec_be32_val(tail.take(4)) as int);
                assert(spec_decode(tail) =~= Seq::<Seq<u8>>::empty());
                assert(payload_views(r@) + spec_decode(tail) =~= payload_views(r@));
            }
            break;
        }
        let mut payload: Vec<u8> = Vec::new();
        let mut j: usize = 0;
        proof {
            assert(pos + 4 + size <= bytes@.len());
            assert(payload@ =~= bytes@.subrange(pos + 4, pos + 4));
        }
        while j < size
            invariant
                0 <= j <= size,
                bytes@.len() <= usize::MAX,
                pos + 4 + size <= bytes@.len(),
                payload@ == bytes@.subrange(pos + 4, pos + 4 + j as int),
            decreases size - j,
        {
            payload.push(bytes[pos + 4 + j]);
            proof {
                assert(bytes@.subrange(pos + 4, pos + 4 + j as int).push(
                    bytes@[pos + 4 + j as int],
                ) =~= bytes@.subrange(pos + 4, pos + 4 + j as int + 1));
            }
            j += 1;
        }
        let ghost prev = r@;
        r.push(payload);
        proof {
            assert(tail.subrange(4, 4 + size as int) =~= bytes@.subrange(
                pos + 4,
                pos + 4 + size as int,
            ));
            assert(tail.skip(4 + size as int) =~= bytes@.skip(pos + 4 + size as int));
            assert(spec_decode(tail) == seq![payload@] + spec_decode(
                bytes@.skip(pos + 4 + size as int),
            ));
            assert(payload_views(r@) =~= payload_views(prev).push(payload@));
            assert(payload_views(prev) + spec_decode(tail) =~= payload_views(r@) + spec_decode(
                bytes@.skip(pos + 4 + size as int),
            ));
        }
        pos = pos + 4 + size;
    }
    r
}

} // verus!
