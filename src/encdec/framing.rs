//! Locating consecutive packets in a buffer by their little-endian size field.
use vstd::prelude::*;

verus! {

/// Length of the fixed packet header; the walk finds a packet only where at
/// least this many bytes remain.
pub const HEADER_LEN: usize = 12;

/// The little-endian 16-bit value held by `s[at]` and `s[at + 1]`.
pub open spec fn u16_le(s: Seq<u8>, at: int) -> nat {
    s[at] as nat + 256 * (s[at + 1] as nat)
}

/// The size that the packet starting at `at` declares for itself.
pub open spec fn declared_size(s: Seq<u8>, at: int) -> nat {
    u16_le(s, at)
}

/// A complete packet starts at `at`: a whole header remains, and the declared
/// size is no more than the bytes that remain. A declared size of zero ends the
/// walk as well, since the walk could not advance past it.
pub open spec fn packet_at(s: Seq<u8>, at: int) -> bool {
    &&& 0 <= at
    &&& at + HEADER_LEN <= s.len()
    &&& 1 <= declared_size(s, at)
    &&& at + declared_size(s, at) <= s.len()
}

/// The spans `(start, size)` of the complete packets found by walking `s` from
/// `at`, in buffer order. The walk stops at the first position where no
/// complete packet starts.
pub open spec fn spans_from(s: Seq<u8>, at: nat) -> Seq<(nat, nat)>
    decreases s.len() - at,
{
    if packet_at(s, at as int) {
        seq![(at, declared_size(s, at as int))] + spans_from(
            s,
            at + declared_size(s, at as int),
        )
    } else {
        seq![]
    }
}

/// Where the framing walk from `at` stops: the end of the last complete packet
/// it finds, or `at` itself if none starts there.
pub open spec fn walk_end(s: Seq<u8>, at: nat) -> nat
    decreases s.len() - at,
{
    if packet_at(s, at as int) {
        walk_end(s, at + declared_size(s, at as int))
    } else {
        at
    }
}

/// The walk from the start of `s` finds packets that cover all of it.
pub open spec fn tiles(s: Seq<u8>) -> bool {
    walk_end(s, 0) == s.len()
}

/// The spans of all complete packets of `s`, walking from its start.
pub open spec fn spans(s: Seq<u8>) -> Seq<(nat, nat)> {
    spans_from(s, 0)
}

/// Relies on `bytes::Buf::get_u16_le` for `&[u8]`: it reads the first two bytes
/// of the slice as a little-endian `u16` and panics when fewer than two remain.
#[verifier::external_body]
pub(crate) fn read_u16_le(buf: &[u8], at: usize) -> (r: u16)
    requires
        at + 2 <= buf@.len(),
    ensures
        r as nat == u16_le(buf@, at as int),
{
    let mut rest: &[u8] = &buf[at..];
    bytes::Buf::get_u16_le(&mut rest)
}

/// The declared size of the packet that starts at `at`, if a complete packet
/// starts there.
pub fn packet_size_at(buf: &[u8], at: usize) -> (r: Option<usize>)
    ensures
        r is Some <==> packet_at(buf@, at as int),
        r matches Some(n) ==> n as nat == declared_size(buf@, at as int),
{
    if buf.len() < HEADER_LEN || at > buf.len() - HEADER_LEN {
        return None;
    }
    let size = read_u16_le(buf, at) as usize;
    if size == 0 || size > buf.len() - at {
        None
    } else {
        Some(size)
    }
}

/// Walks `buf` from its start and returns the span `(start, size)` of each
/// complete packet, in buffer order. A trailing fragment that does not hold a
/// complete packet ends the walk and yields nothing.
pub fn packet_spans(buf: &[u8]) -> (r: Vec<(usize, usize)>)
    ensures
        r@.len() == spans(buf@).len(),
        forall|k: int|
            0 <= k < r@.len() ==> (#[trigger] r@[k]).0 as nat == spans(buf@)[k].0 && r@[k].1 as nat
                == spans(buf@)[k].1,
{
    let mut out: Vec<(usize, usize)> = Vec::new();
    let mut at: usize = 0;
    while at < buf.len()
        invariant_except_break
            at < buf@.len() || !packet_at(buf@, at as int),
        invariant
            at <= buf@.len(),
            spans(buf@) == seq_of_pairs(out@) + spans_from(buf@, at as nat),
        ensures
            spans(buf@) == seq_of_pairs(out@),
        decreases buf@.len() - at,
    {
        match packet_size_at(buf, at) {
            Some(size) => {
                proof {
                    assert(seq_of_pairs(out@.push((at, size))) =~= seq_of_pairs(out@).push(
                        (at as nat, size as nat),
                    ));
                    assert(spans_from(buf@, at as nat) =~= seq![(at as nat, size as nat)]
                        + spans_from(buf@, (at + size) as nat));
                    assert(seq_of_pairs(out@) + spans_from(buf@, at as nat) =~= seq_of_pairs(
                        out@.push((at, size)),
                    ) + spans_from(buf@, (at + size) as nat));
                }
                out.push((at, size));
                at = at + size;
            },
            None => {
                proof {
                    assert(seq_of_pairs(out@) + spans_from(buf@, at as nat) =~= seq_of_pairs(
                        out@,
                    ));
                }
                break;
            },
        }
    }
    proof {
        assert forall|k: int| 0 <= k < out@.len() implies (#[trigger] out@[k]).0 as nat == spans(
            buf@,
        )[k].0 && out@[k].1 as nat == spans(buf@)[k].1 by {
            assert(seq_of_pairs(out@)[k] == (out@[k].0 as nat, out@[k].1 as nat));
        }
    }
    out
}

/// The spans of `v` as pairs of naturals.
pub open spec fn seq_of_pairs(v: Seq<(usize, usize)>) -> Seq<(nat, nat)> {
    v.map_values(|p: (usize, usize)| (p.0 as nat, p.1 as nat))
}

} // verus!
