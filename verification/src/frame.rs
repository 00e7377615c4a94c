//! The framing of log records: `length u32 LE | crc32 u32 LE | payload`.

use vstd::prelude::*;
use crate::codec;
use crate::codec::{push_all, push_le32, read_le32};

verus! {

/// The bytes in front of a payload: its length and its checksum.
pub const HEADER_LEN: usize = 8;

/// What `crc32fast::hash` returns for some bytes: their CRC-32 checksum.
pub uninterp spec fn crc32(bytes: Seq<u8>) -> u32;

/// Calls `crc32fast::hash`, whose result is named `crc32`: it depends on the
/// bytes alone.
#[verifier::external_body]
fn checksum(bytes: &[u8]) -> (r: u32)
    ensures
        r == crc32(bytes@),
{
    crc32fast::hash(bytes)
}

/// The frame of a payload.
pub open spec fn frame(payload: Seq<u8>) -> Seq<u8> {
    codec::le32(payload.len() as u32) + codec::le32(crc32(payload)) + payload
}

/// What stands at the beginning of some bytes.
pub enum Head {
    /// A frame with this payload.
    Frame(Seq<u8>),
    /// Fewer bytes than the frame needs: a write that was cut short.
    Torn,
    /// A complete frame whose checksum does not match: damage in place.
    Damaged,
}

/// The length that the header at the beginning of `data` claims.
pub open spec fn claimed_len(data: Seq<u8>) -> int {
    codec::from_le32(data.subrange(0, 4))
}

/// What stands at the beginning of `data`.
pub open spec fn head(data: Seq<u8>) -> Head {
    if data.len() < 8 || 8 + claimed_len(data) > data.len() {
        Head::Torn
    } else {
        let payload = data.subrange(8, 8 + claimed_len(data));
        if crc32(payload) != codec::from_le32(data.subrange(4, 8)) {
            Head::Damaged
        } else {
            Head::Frame(payload)
        }
    }
}

/// How a run of frames ends.
#[derive(Clone, Copy, Debug, PartialEq, Eq, Structural)]
pub enum ScanEnd {
    /// At the end of the data.
    Clean,
    /// In front of a frame that was cut short.
    Torn,
    /// In front of a complete frame whose checksum does not match.
    Damaged,
}

/// The payloads of the frames that `data` begins with.
pub open spec fn payloads(data: Seq<u8>) -> Seq<Seq<u8>>
    decreases data.len(),
{
    match head(data) {
        Head::Frame(p) => if 8 + p.len() <= data.len() {
            seq![p] + payloads(data.subrange(8 + p.len() as int, data.len() as int))
        } else {
            Seq::empty()
        },
        _ => Seq::empty(),
    }
}

/// How the run of frames at the beginning of `data` ends.
pub open spec fn scan_end(data: Seq<u8>) -> ScanEnd
    decreases data.len(),
{
    if data.len() == 0 {
        ScanEnd::Clean
    } else {
        match head(data) {
            Head::Frame(p) => if 8 + p.len() <= data.len() {
                scan_end(data.subrange(8 + p.len() as int, data.len() as int))
            } else {
                ScanEnd::Torn
            },
            Head::Torn => ScanEnd::Torn,
            Head::Damaged => ScanEnd::Damaged,
        }
    }
}

/// The bytes that the frames of some payloads take together.
pub open spec fn frames_len(ps: Seq<Seq<u8>>) -> int
    decreases ps.len(),
{
    if ps.len() == 0 {
        0
    } else {
        frames_len(ps.drop_last()) + 8 + ps.last().len()
    }
}

/// The frames of some payloads, one behind the other.
pub open spec fn frames(ps: Seq<Seq<u8>>) -> Seq<u8>
    decreases ps.len(),
{
    if ps.len() == 0 {
        Seq::empty()
    } else {
        frames(ps.drop_last()) + frame(ps.last())
    }
}

/// The frame of a payload.
pub fn encode_frame(payload: &[u8]) -> (r: Vec<u8>)
    requires
        payload@.len() <= u32::MAX,
    ensures
        r@ == frame(payload@),
{
    let mut r: Vec<u8> = Vec::new();
    push_le32(&mut r, payload.len() as u32);
    push_le32(&mut r, checksum(payload));
    push_all(&mut r, payload);
    assert(r@ =~= frame(payload@));
    r
}

/// What stands at a position of a log.
#[derive(Clone, Copy, Debug, PartialEq, Eq, Structural)]
pub enum FrameDecode {
    /// A frame whose payload ends at `end`; it begins `HEADER_LEN` bytes behind
    /// the position.
    Frame { end: usize },
    /// A write that was cut short.
    Torn,
    /// Damage in place.
    Damaged,
}

/// Reads the frame at `pos`.
pub fn decode_frame(data: &[u8], pos: usize) -> (r: FrameDecode)
    requires
        pos <= data.len(),
    ensures
        ({
            let rest = data@.subrange(pos as int, data@.len() as int);
            match r {
                FrameDecode::Frame { end } => {
                    &&& pos + 8 <= end <= data@.len()
                    &&& head(rest) == Head::Frame(data@.subrange(pos + 8, end as int))
                },
                FrameDecode::Torn => head(rest) is Torn,
                FrameDecode::Damaged => head(rest) is Damaged,
            }
        }),
{
    let ghost rest = data@.subrange(pos as int, data@.len() as int);
    if data.len() - pos < HEADER_LEN {
        return FrameDecode::Torn;
    }
    let length: u32 = read_le32(data, pos);
    let stored: u32 = read_le32(data, pos + 4);
    assert(data@.subrange(pos as int, pos + 4) =~= rest.subrange(0, 4));
    assert(data@.subrange(pos + 4, pos + 8) =~= rest.subrange(4, 8));
    if data.len() - pos - HEADER_LEN < length as usize {
        return FrameDecode::Torn;
    }
    let end: usize = pos + HEADER_LEN + length as usize;
    let payload = vstd::slice::slice_subrange(data, pos + HEADER_LEN, end);
    assert(payload@ =~= rest.subrange(8, 8 + claimed_len(rest)));
    if checksum(payload) != stored {
        FrameDecode::Damaged
    } else {
        FrameDecode::Frame { end }
    }
}

/// The frames of a log: where each payload begins and ends, where the last whole
/// frame ends, and what stands behind it.
pub struct FrameScan {
    pub spans: Vec<(usize, usize)>,
    pub valid_len: usize,
    pub end: ScanEnd,
}

/// The payloads at the given places of `data`.
pub open spec fn cut(data: Seq<u8>, spans: Seq<(usize, usize)>) -> Seq<Seq<u8>> {
    Seq::new(spans.len(), |i: int| data.subrange(spans[i].0 as int, spans[i].1 as int))
}

/// `scan` is what a scan of `data` finds.
pub open spec fn scan_of(data: Seq<u8>, scan: FrameScan) -> bool {
    &&& forall|i: int|
        0 <= i < scan.spans.len() ==> (#[trigger] scan.spans@[i]).0 <= scan.spans@[i].1
            <= data.len()
    &&& cut(data, scan.spans@) == payloads(data)
    &&& scan.valid_len == frames_len(payloads(data))
    &&& scan.end == scan_end(data)
}

proof fn lemma_frames_len_push(ps: Seq<Seq<u8>>, p: Seq<u8>)
    ensures
        frames_len(ps.push(p)) == frames_len(ps) + 8 + p.len(),
{
    assert(ps.push(p).drop_last() =~= ps);
}

/// Reads all frames of a log, up to the first position where there is none.
pub fn scan_frames(data: &[u8]) -> (r: FrameScan)
    ensures
        scan_of(data@, r),
        r.valid_len <= data@.len(),
        r.end is Clean <==> r.valid_len == data@.len(),
        r.spans@.len() == payloads(data@).len(),
        forall|i: int|
            0 <= i < r.spans@.len() ==> {
                &&& (#[trigger] r.spans@[i]).0 <= r.spans@[i].1 <= data@.len()
                &&& data@.subrange(r.spans@[i].0 as int, r.spans@[i].1 as int) == payloads(data@)[i]
            },
        r.end == scan_end(data@),
{
    let mut spans: Vec<(usize, usize)> = Vec::new();
    let mut pos: usize = 0;
    let ghost all = payloads(data@);
    proof {
        assert(data@.subrange(0, data@.len() as int) =~= data@);
        assert(cut(data@, spans@) =~= Seq::<Seq<u8>>::empty());
        assert(cut(data@, spans@) + all =~= all);
    }
    while pos < data.len()
        invariant
            pos <= data.len(),
            all == payloads(data@),
            forall|i: int|
                0 <= i < spans.len() ==> (#[trigger] spans@[i]).0 <= spans@[i].1 <= data@.len(),
            cut(data@, spans@) + payloads(data@.subrange(pos as int, data@.len() as int)) == all,
            pos == frames_len(cut(data@, spans@)),
            scan_end(data@.subrange(pos as int, data@.len() as int)) == scan_end(data@),
        decreases data.len() - pos,
    {
        let ghost rest = data@.subrange(pos as int, data@.len() as int);
        let ghost before = spans@;
        match decode_frame(data, pos) {
            FrameDecode::Frame { end } => {
                spans.push((pos + HEADER_LEN, end));
                proof {
                    let p = data@.subrange(pos + 8, end as int);
                    assert(cut(data@, spans@) =~= cut(data@, before).push(p));
                    lemma_frames_len_push(cut(data@, before), p);
                    assert(rest.subrange(8 + p.len() as int, rest.len() as int) =~= data@.subrange(
                        end as int,
                        data@.len() as int,
                    ));
                    assert(payloads(rest) == seq![p] + payloads(
                        data@.subrange(end as int, data@.len() as int),
                    ));
                    assert(cut(data@, spans@) + payloads(
                        data@.subrange(end as int, data@.len() as int),
                    ) =~= cut(data@, before) + payloads(rest));
                }
                pos = end;
            },
            FrameDecode::Torn => {
                assert(cut(data@, spans@) =~= all);
                return FrameScan { spans, valid_len: pos, end: ScanEnd::Torn };
            },
            FrameDecode::Damaged => {
                assert(cut(data@, spans@) =~= all);
                return FrameScan { spans, valid_len: pos, end: ScanEnd::Damaged };
            },
        }
    }
    assert(payloads(data@.subrange(pos as int, data@.len() as int)) =~= Seq::<Seq<u8>>::empty());
    assert(cut(data@, spans@) =~= all);
    FrameScan { spans, valid_len: pos, end: ScanEnd::Clean }
}

// ---------------------------------------------------------------------------
// What the framing promises
// ---------------------------------------------------------------------------

proof fn lemma_head_of_frame(p: Seq<u8>, rest: Seq<u8>)
    requires
        p.len() <= u32::MAX,
    ensures
        head(frame(p) + rest) == Head::Frame(p),
        (frame(p) + rest).subrange(8 + p.len() as int, (frame(p) + rest).len() as int) == rest,
        frame(p).len() == 8 + p.len(),
{
    let d = frame(p) + rest;
    codec::le32_roundtrip(p.len() as u32);
    codec::le32_roundtrip(crc32(p));
    assert(d.subrange(0, 4) =~= codec::le32(p.len() as u32));
    assert(d.subrange(4, 8) =~= codec::le32(crc32(p)));
    assert(d.subrange(8, 8 + p.len() as int) =~= p);
    assert(d.subrange(8 + p.len() as int, d.len() as int) =~= rest);
}

/// What is behind some frames is read as if they were not there.
pub proof fn frames_then_rest(ps: Seq<Seq<u8>>, rest: Seq<u8>)
    requires
        forall|i: int| 0 <= i < ps.len() ==> (#[trigger] ps[i]).len() <= u32::MAX,
    ensures
        payloads(frames(ps) + rest) == ps + payloads(rest),
        scan_end(frames(ps) + rest) == scan_end(rest),
        frames(ps).len() == frames_len(ps),
    decreases ps.len(),
{
    if ps.len() == 0 {
        assert(frames(ps) + rest =~= rest);
        assert(ps + payloads(rest) =~= payloads(rest));
    } else {
        let p = ps.last();
        let short = ps.drop_last();
        assert(ps[ps.len() - 1].len() <= u32::MAX);
        assert(forall|i: int| 0 <= i < short.len() ==> short[i] == #[trigger] ps[i]);
        frames_then_rest(short, frame(p) + rest);
        assert(frames(ps) + rest =~= frames(short) + (frame(p) + rest));
        lemma_head_of_frame(p, rest);
        assert(payloads(frame(p) + rest) == seq![p] + payloads(rest));
        assert(ps + payloads(rest) =~= short + (seq![p] + payloads(rest)));
    }
}

/// Reading a log back gives the records that were appended to it.
pub proof fn log_roundtrip(ps: Seq<Seq<u8>>)
    requires
        forall|i: int| 0 <= i < ps.len() ==> (#[trigger] ps[i]).len() <= u32::MAX,
    ensures
        payloads(frames(ps)) == ps,
        scan_end(frames(ps)) is Clean,
        frames_len(ps) == frames(ps).len(),
{
    frames_then_rest(ps, Seq::empty());
    assert(frames(ps) + Seq::<u8>::empty() =~= frames(ps));
    assert(ps + payloads(Seq::empty()) =~= ps);
}

/// An append that was cut short loses no earlier record: the log reads as it was
/// before the append, and is not taken for damaged.
pub proof fn torn_append_recovers(ps: Seq<Seq<u8>>, p: Seq<u8>, n: int)
    requires
        forall|i: int| 0 <= i < ps.len() ==> (#[trigger] ps[i]).len() <= u32::MAX,
        p.len() <= u32::MAX,
        0 <= n < frame(p).len(),
    ensures
        payloads(frames(ps) + frame(p).subrange(0, n)) == ps,
        !(scan_end(frames(ps) + frame(p).subrange(0, n)) is Damaged),
        frames_len(ps) == frames(ps).len(),
{
    let rest = frame(p).subrange(0, n);
    frames_then_rest(ps, rest);
    codec::le32_roundtrip(p.len() as u32);
    codec::le32_roundtrip(crc32(p));
    if n >= 8 {
        assert(rest.subrange(0, 4) =~= codec::le32(p.len() as u32));
    }
    assert(head(rest) is Torn);
    assert(ps + payloads(rest) =~= ps);
}

/// A log that was cut back to its last whole frame takes appends as before: the next
/// reading gives the old records and the new ones.
pub proof fn appends_after_cut(ps: Seq<Seq<u8>>, p: Seq<u8>, n: int, more: Seq<Seq<u8>>)
    requires
        forall|i: int| 0 <= i < ps.len() ==> (#[trigger] ps[i]).len() <= u32::MAX,
        forall|i: int| 0 <= i < more.len() ==> (#[trigger] more[i]).len() <= u32::MAX,
        p.len() <= u32::MAX,
        0 <= n < frame(p).len(),
    ensures
        ({
            let torn = frames(ps) + frame(p).subrange(0, n);
            let kept = torn.subrange(0, frames_len(payloads(torn)));
            &&& payloads(kept + frames(more)) == ps + more
            &&& scan_end(kept + frames(more)) is Clean
        }),
{
    let torn = frames(ps) + frame(p).subrange(0, n);
    torn_append_recovers(ps, p, n);
    assert(torn.subrange(0, frames_len(ps)) =~= frames(ps));
    log_roundtrip(more);
    frames_then_rest(ps, frames(more));
}

/// A complete frame with a wrong checksum is reported as damage wherever it
/// stands, whatever follows it.
pub proof fn damage_is_reported(ps: Seq<Seq<u8>>, bad: Seq<u8>)
    requires
        forall|i: int| 0 <= i < ps.len() ==> (#[trigger] ps[i]).len() <= u32::MAX,
        head(bad) is Damaged,
    ensures
        scan_end(frames(ps) + bad) is Damaged,
        payloads(frames(ps) + bad) == ps,
{
    frames_then_rest(ps, bad);
    assert(ps + payloads(bad) =~= ps);
}

/// A scan takes one frame after the other and ends where none begins. What does not
/// begin with a whole, sound frame has no payloads.
pub proof fn scan_takes_frames(p: Seq<u8>, rest: Seq<u8>, bad: Seq<u8>)
    requires
        p.len() <= u32::MAX,
        !(head(bad) is Frame),
    ensures
        payloads(frame(p) + rest) == seq![p] + payloads(rest),
        scan_end(frame(p) + rest) == scan_end(rest),
        payloads(bad).len() == 0,
        bad.len() > 0 ==> (scan_end(bad) is Torn <==> head(bad) is Torn) && (scan_end(bad) is Damaged
            <==> head(bad) is Damaged),
        scan_end(Seq::empty()) is Clean,
{
    let ps = seq![p];
    assert(ps.drop_last() =~= Seq::<Seq<u8>>::empty());
    assert(ps.last() == p);
    assert(frames(ps) =~= frame(p)) by {
        assert(frames(ps) == frames(ps.drop_last()) + frame(p));
        assert(frames(ps.drop_last()) =~= Seq::<u8>::empty());
    }
    frames_then_rest(ps, rest);
}

} // verus!
