use crate::checksum::{checksum, crc32c_of};
use crate::le_bytes::{
    le_u64, lemma_le_bytes_unique, lemma_le_u64_round_trip, push_u64_le, read_u64_le, u64_le,
};
use vstd::prelude::*;
use vstd::slice::{slice_subrange, slice_to_vec};

verus! {

/// Bytes in front of each payload: its length, then its checksum, as little-endian `u64`s.
pub const HEADER_LEN: usize = 16;

/// The on-media form of one record: length, checksum, payload.
pub open spec fn frame(p: Seq<u8>) -> Seq<u8> {
    u64_le(p.len() as u64) + u64_le(crc32c_of(p) as u64) + p
}

/// The frames of `rs`, one after another.
pub open spec fn frames(rs: Seq<Seq<u8>>) -> Seq<u8>
    decreases rs.len(),
{
    if rs.len() == 0 {
        Seq::empty()
    } else {
        frame(rs[0]) + frames(rs.drop_first())
    }
}

/// What a forward scan of a segment image finds.
pub ghost struct Scan {
    /// The payloads of the complete, intact records before the end of the scan.
    pub records: Seq<Seq<u8>>,
    /// How many bytes those records take.
    pub valid: nat,
    /// Whether the scan stopped at a complete record whose checksum does not match.
    pub corrupt: bool,
}

/// A forward scan of `b`: it takes records while a whole frame is present and intact,
/// ends quietly at an incomplete frame (a torn write), and reports a complete frame
/// whose checksum does not match.
#[verifier::opaque]
pub open spec fn scan(b: Seq<u8>) -> Scan
    decreases b.len(),
{
    if b.len() < HEADER_LEN {
        Scan { records: Seq::empty(), valid: 0, corrupt: false }
    } else {
        let len = le_u64(b.subrange(0, 8));
        if len > b.len() - HEADER_LEN {
            Scan { records: Seq::empty(), valid: 0, corrupt: false }
        } else {
            let p = b.subrange(HEADER_LEN as int, HEADER_LEN + len);
            if le_u64(b.subrange(8, HEADER_LEN as int)) != crc32c_of(p) as u64 {
                Scan { records: Seq::empty(), valid: 0, corrupt: true }
            } else {
                let rest = scan(b.subrange(HEADER_LEN + len, b.len() as int));
                Scan {
                    records: seq![p] + rest.records,
                    valid: (HEADER_LEN + len + rest.valid) as nat,
                    corrupt: rest.corrupt,
                }
            }
        }
    }
}

/// A proper prefix of the frame of `p`: what an interrupted append leaves behind.
pub open spec fn is_torn_frame(t: Seq<u8>, p: Seq<u8>) -> bool {
    t.len() < frame(p).len() && t == frame(p).subrange(0, t.len() as int)
}

pub proof fn lemma_frames_concat(a: Seq<Seq<u8>>, b: Seq<Seq<u8>>)
    ensures
        frames(a + b) == frames(a) + frames(b),
    decreases a.len(),
{
    if a.len() == 0 {
        assert(a + b =~= b);
        assert(frames(a) + frames(b) =~= frames(b));
    } else {
        assert((a + b).drop_first() =~= a.drop_first() + b);
        lemma_frames_concat(a.drop_first(), b);
        assert(frames(a + b) =~= frame(a[0]) + (frames(a.drop_first()) + frames(b)));
        assert(frames(a) + frames(b) =~= frame(a[0]) + frames(a.drop_first()) + frames(b));
    }
}

pub proof fn lemma_frames_push(rs: Seq<Seq<u8>>, p: Seq<u8>)
    ensures
        frames(rs.push(p)) == frames(rs) + frame(p),
{
    lemma_frames_concat(rs, seq![p]);
    assert(rs + seq![p] =~= rs.push(p));
    let one = seq![p];
    assert(one.drop_first() =~= Seq::<Seq<u8>>::empty());
    assert(frames(one.drop_first()) =~= Seq::<u8>::empty());
    assert(frames(one) =~= frame(p));
}

/// Record `i` sits, as a whole frame, right after the frames of the records before it.
pub proof fn lemma_frames_split(rs: Seq<Seq<u8>>, i: int)
    requires
        0 <= i < rs.len(),
    ensures
        frames(rs) == frames(rs.take(i)) + frame(rs[i]) + frames(rs.skip(i + 1)),
        frames(rs.take(i + 1)) == frames(rs.take(i)) + frame(rs[i]),
{
    lemma_frames_concat(rs.take(i + 1), rs.skip(i + 1));
    assert(rs.take(i + 1) + rs.skip(i + 1) =~= rs);
    lemma_frames_push(rs.take(i), rs[i]);
    assert(rs.take(i).push(rs[i]) =~= rs.take(i + 1));
}

proof fn lemma_frame_header(p: Seq<u8>, rest: Seq<u8>)
    requires
        p.len() <= u64::MAX,
    ensures
        ({
            let b = frame(p) + rest;
            &&& b.len() >= HEADER_LEN
            &&& le_u64(b.subrange(0, 8)) == p.len()
            &&& le_u64(b.subrange(8, HEADER_LEN as int)) == crc32c_of(p) as u64
            &&& b.subrange(HEADER_LEN as int, HEADER_LEN + p.len()) == p
            &&& b.subrange(HEADER_LEN + p.len(), b.len() as int) == rest
        }),
{
    let b = frame(p) + rest;
    lemma_le_u64_round_trip(p.len() as u64);
    lemma_le_u64_round_trip(crc32c_of(p) as u64);
    assert(b.subrange(0, 8) =~= u64_le(p.len() as u64));
    assert(b.subrange(8, HEADER_LEN as int) =~= u64_le(crc32c_of(p) as u64));
    assert(b.subrange(HEADER_LEN as int, HEADER_LEN + p.len()) =~= p);
    assert(b.subrange(HEADER_LEN + p.len(), b.len() as int) =~= rest);
}

/// A scan takes a whole intact frame and goes on after it.
pub proof fn lemma_scan_frame(p: Seq<u8>, rest: Seq<u8>)
    requires
        p.len() <= u64::MAX,
    ensures
        scan(frame(p) + rest) == (Scan {
            records: seq![p] + scan(rest).records,
            valid: frame(p).len() + scan(rest).valid,
            corrupt: scan(rest).corrupt,
        }),
{
    reveal(scan);
    lemma_frame_header(p, rest);
}

/// A scan of a torn frame finds nothing and reports nothing.
pub proof fn lemma_scan_torn(t: Seq<u8>, p: Seq<u8>)
    requires
        p.len() <= u64::MAX,
        is_torn_frame(t, p),
    ensures
        scan(t) == (Scan { records: Seq::empty(), valid: 0, corrupt: false }),
{
    reveal(scan);
    if t.len() >= HEADER_LEN {
        lemma_le_u64_round_trip(p.len() as u64);
        assert(t.subrange(0, 8) =~= u64_le(p.len() as u64));
    }
}

/// Intact frames followed by a torn one, or by nothing, scan back to exactly their
/// records; the torn bytes are left out of the valid length.
pub proof fn lemma_scan_frames(rs: Seq<Seq<u8>>, t: Seq<u8>, p: Seq<u8>)
    requires
        forall|i: int| 0 <= i < rs.len() ==> (#[trigger] rs[i]).len() <= u64::MAX,
        p.len() <= u64::MAX,
        t.len() == 0 || is_torn_frame(t, p),
    ensures
        scan(frames(rs) + t) == (Scan { records: rs, valid: frames(rs).len(), corrupt: false }),
    decreases rs.len(),
{
    if rs.len() == 0 {
        assert(frames(rs) + t =~= t);
        if t.len() > 0 {
            lemma_scan_torn(t, p);
        } else {
            reveal(scan);
        }
        assert(rs =~= Seq::<Seq<u8>>::empty());
    } else {
        let tail = rs.drop_first();
        lemma_scan_frames(tail, t, p);
        assert(frames(rs) + t =~= frame(rs[0]) + (frames(tail) + t));
        lemma_scan_frame(rs[0], frames(tail) + t);
        assert(seq![rs[0]] + tail =~= rs);
    }
}

/// Appends the frame of `p` to `out`.
pub fn push_frame(out: &mut Vec<u8>, p: &[u8])
    ensures
        final(out)@ == old(out)@ + frame(p@),
{
    push_u64_le(out, p.len() as u64);
    let c = checksum(p);
    push_u64_le(out, c as u64);
    let mut i: usize = 0;
    while i < p.len()
        invariant
            i <= p@.len(),
            out@ == old(out)@ + u64_le(p@.len() as u64) + u64_le(crc32c_of(p@) as u64)
                + p@.take(i as int),
        decreases p@.len() - i,
    {
        out.push(p[i]);
        assert(p@.take(i + 1) =~= p@.take(i as int).push(p@[i as int]));
        i = i + 1;
    }
    assert(p@.take(i as int) =~= p@);
    assert(out@ =~= old(out)@ + frame(p@));
}

/// The contents of a sequence of byte vectors.
pub open spec fn payloads(v: Seq<Vec<u8>>) -> Seq<Seq<u8>> {
    v.map_values(|x: Vec<u8>| x@)
}

/// End offsets of the first `n` frames of `rs`.
pub open spec fn ends_match(ends: Seq<usize>, rs: Seq<Seq<u8>>) -> bool {
    &&& ends.len() == rs.len()
    &&& forall|i: int| 0 <= i < ends.len() ==> #[trigger] ends[i] == frames(rs.take(i + 1)).len()
}

/// Every payload's length fits the header's length field.
pub open spec fn lengths_fit(rs: Seq<Seq<u8>>) -> bool {
    forall|i: int| 0 <= i < rs.len() ==> (#[trigger] rs[i]).len() <= u64::MAX
}

/// The outcome of scanning one segment image.
pub(crate) struct ScannedImage {
    pub(crate) records: Vec<Vec<u8>>,
    pub(crate) ends: Vec<usize>,
    pub(crate) valid: usize,
    pub(crate) corrupt: bool,
}

#[verifier::rlimit(50)]
pub(crate) fn scan_image(b: &[u8]) -> (r: ScannedImage)
    ensures
        payloads(r.records@) == scan(b@).records,
        r.valid == scan(b@).valid,
        r.corrupt == scan(b@).corrupt,
        r.valid <= b@.len(),
        b@.take(r.valid as int) == frames(payloads(r.records@)),
        ends_match(r.ends@, payloads(r.records@)),
        lengths_fit(payloads(r.records@)),
{
    let mut records: Vec<Vec<u8>> = Vec::new();
    let mut ends: Vec<usize> = Vec::new();
    let mut pos: usize = 0;
    let mut corrupt = false;
    let mut done = false;
    assert(b@.subrange(0, 0) =~= frames(payloads(records@)));
    assert(b@.subrange(0, b@.len() as int) =~= b@);
    assert(payloads(records@) + scan(b@).records =~= scan(b@).records);
    while !done
        invariant
            pos <= b@.len(),
            b@.subrange(0, pos as int) == frames(payloads(records@)),
            ends_match(ends@, payloads(records@)),
            lengths_fit(payloads(records@)),
            !done ==> !corrupt,
            !done ==> scan(b@) == (Scan {
                records: payloads(records@) + scan(b@.subrange(pos as int, b@.len() as int)).records,
                valid: (pos + scan(b@.subrange(pos as int, b@.len() as int)).valid) as nat,
                corrupt: scan(b@.subrange(pos as int, b@.len() as int)).corrupt,
            }),
            done ==> scan(b@) == (Scan {
                records: payloads(records@),
                valid: pos as nat,
                corrupt: corrupt,
            }),
        decreases b@.len() - pos + (if done { 0int } else { 1int }),
    {
        let ghost rest = b@.subrange(pos as int, b@.len() as int);
        proof {
            reveal(scan);
        }
        if b.len() - pos < HEADER_LEN {
            assert(payloads(records@) + Seq::<Seq<u8>>::empty() =~= payloads(records@));
            done = true;
        } else {
            let len = read_u64_le(b, pos);
            assert(rest.subrange(0, 8) =~= b@.subrange(pos as int, pos + 8));
            if len > (b.len() - pos - HEADER_LEN) as u64 {
                assert(payloads(records@) + Seq::<Seq<u8>>::empty() =~= payloads(records@));
                done = true;
            } else {
                let len = len as usize;
                let stored = read_u64_le(b, pos + 8);
                assert(rest.subrange(8, 16) =~= b@.subrange(pos + 8, pos + 16));
                let start = pos + HEADER_LEN;
                let end = start + len;
                let p = slice_subrange(b, start, end);
                assert(rest.subrange(16, 16 + len) =~= p@);
                let c = checksum(p);
                if stored != c as u64 {
                    assert(payloads(records@) + Seq::<Seq<u8>>::empty() =~= payloads(records@));
                    corrupt = true;
                    done = true;
                } else {
                    let ghost old_recs = payloads(records@);
                    let ghost fr = b@.subrange(pos as int, end as int);
                    proof {
                        lemma_le_u64_round_trip(len as u64);
                        lemma_le_u64_round_trip(stored);
                        assert(u64_le(len as u64) =~= b@.subrange(pos as int, pos + 8)) by {
                            // both are the eight bytes whose number is `len`
                            assert(le_u64(b@.subrange(pos as int, pos + 8)) == len);
                            lemma_le_bytes_unique(b@.subrange(pos as int, pos + 8));
                        }
                        assert(u64_le(crc32c_of(p@) as u64) =~= b@.subrange(pos + 8, pos + 16)) by {
                            lemma_le_bytes_unique(b@.subrange(pos + 8, pos + 16));
                        }
                        assert(fr =~= frame(p@));
                        assert(b@.subrange(0, end as int) =~= b@.subrange(0, pos as int) + fr);
                        lemma_frames_push(old_recs, p@);
                        assert(rest.subrange(16 + len, rest.len() as int) =~= b@.subrange(
                            end as int,
                            b@.len() as int,
                        ));
                    }
                    records.push(slice_to_vec(p));
                    ends.push(end);
                    proof {
                        assert(payloads(records@) =~= old_recs.push(p@));
                        assert(payloads(records@).take(payloads(records@).len() as int)
                            =~= payloads(records@));
                        assert forall|i: int| 0 <= i < ends@.len() - 1 implies
                            #[trigger] payloads(records@).take(i + 1) == old_recs.take(i + 1) by {
                            assert(payloads(records@).take(i + 1) =~= old_recs.take(i + 1));
                        }
                        assert(payloads(records@) + scan(b@.subrange(end as int, b@.len() as int)).records
                            =~= old_recs + (seq![p@] + scan(b@.subrange(end as int, b@.len() as int)).records));
                    }
                    pos = end;
                }
            }
        }
    }
    assert(b@.take(pos as int) =~= b@.subrange(0, pos as int));
    ScannedImage { records, ends, valid: pos, corrupt }
}

} // verus!
