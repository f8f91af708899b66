//! Binary framing of segment files.
//!
//! A segment file starts with a fixed header: an eight-byte signature,
//! a sequence slot, an expiration timestamp, and the length-prefixed
//! key bytes. Record frames follow: a six-byte signature, a two-byte
//! header length, the header bytes, an eight-byte content length, and
//! the content bytes. All integers are little-endian.
//!
//! Reading is tolerant at the tail: a scan stops at the first position
//! where no complete, correctly signed frame begins, so a truncated
//! tail never hides the complete records before it.

use vstd::prelude::*;
use vstd::bytes::*;
use vstd::slice::{slice_subrange, slice_to_vec};
use crate::errors::WalError;

verus! {

/// The ASCII bytes of `NANO-LOG`, opening every segment file.
pub open spec fn log_signature() -> Seq<u8> {
    seq![78u8, 65u8, 78u8, 79u8, 45u8, 76u8, 79u8, 71u8]
}

/// The ASCII bytes of `NANORC`, opening every record frame.
pub open spec fn rec_signature() -> Seq<u8> {
    seq![78u8, 65u8, 78u8, 79u8, 82u8, 67u8]
}

/// The bytes of a segment file header for a key and an expiration
/// timestamp. The sequence slot is written as zero; the authoritative
/// sequence number lives in the file name.
pub open spec fn segment_header_bytes(expiration: u64, key: Seq<u8>) -> Seq<u8>
    recommends
        key.len() <= u64::MAX,
{
    log_signature() + spec_u64_to_le_bytes(0u64) + spec_u64_to_le_bytes(expiration) + spec_u64_to_le_bytes(
        key.len() as u64,
    ) + key
}

/// The bytes of one record frame.
pub open spec fn frame_bytes(header: Seq<u8>, content: Seq<u8>) -> Seq<u8>
    recommends
        header.len() <= 65535,
        content.len() <= u64::MAX,
{
    rec_signature() + spec_u16_to_le_bytes(header.len() as u16) + header + spec_u64_to_le_bytes(
        content.len() as u64,
    ) + content
}

/// A complete frame starting at `pos`: its content and end position.
pub open spec fn parse_frame(data: Seq<u8>, pos: int) -> Option<(Seq<u8>, int)> {
    if pos < 0 || pos + 6 > data.len() {
        None
    } else if data.subrange(pos, pos + 6) != rec_signature() {
        None
    } else if pos + 8 > data.len() {
        None
    } else {
        let hlen = spec_u16_from_le_bytes(data.subrange(pos + 6, pos + 8)) as int;
        if pos + 16 + hlen > data.len() {
            None
        } else {
            let clen = spec_u64_from_le_bytes(data.subrange(pos + 8 + hlen, pos + 16 + hlen)) as int;
            if pos + 16 + hlen + clen > data.len() {
                None
            } else {
                Some((data.subrange(pos + 16 + hlen, pos + 16 + hlen + clen), pos + 16 + hlen + clen))
            }
        }
    }
}

/// The contents of the complete frames from `pos` to the first
/// position where no complete frame begins: the tolerant scan.
pub open spec fn parse_records_from(data: Seq<u8>, pos: int) -> Seq<Seq<u8>>
    decreases data.len() - pos,
{
    if pos < 0 || pos > data.len() {
        seq![]
    } else {
        match parse_frame(data, pos) {
            None => seq![],
            Some((c, end)) => seq![c] + parse_records_from(data, end),
        }
    }
}

/// Frames tile the data exactly from `pos` to the end of the file.
pub open spec fn well_framed_from(data: Seq<u8>, pos: int) -> bool
    decreases data.len() - pos,
{
    if pos == data.len() {
        true
    } else if pos < 0 || pos > data.len() {
        false
    } else {
        match parse_frame(data, pos) {
            None => false,
            Some((c, end)) => well_framed_from(data, end),
        }
    }
}

/// Where the records of a segment file begin: after the fixed header
/// and the key bytes. `None` when the fixed header itself is cut off.
pub open spec fn records_start(data: Seq<u8>) -> Option<int> {
    if data.len() < 32 {
        None
    } else {
        Some(32 + spec_u64_from_le_bytes(data.subrange(24, 32)) as int)
    }
}

/// All record contents of a segment file, in file order, by the
/// tolerant scan. A file whose fixed header is cut off has none.
pub open spec fn segment_records(data: Seq<u8>) -> Seq<Seq<u8>> {
    match records_start(data) {
        None => seq![],
        Some(p) => parse_records_from(data, p),
    }
}

/// Whether a file opens with the segment signature.
pub open spec fn has_log_signature(data: Seq<u8>) -> bool {
    data.len() >= 8 && data.subrange(0, 8) == log_signature()
}

/// The expiration timestamp stored in a segment file header.
pub open spec fn segment_expiration(data: Seq<u8>) -> u64
    recommends
        data.len() >= 24,
{
    spec_u64_from_le_bytes(data.subrange(16, 24))
}

/// The key bytes stored in a segment file header, when they are all
/// present.
pub open spec fn segment_key_bytes(data: Seq<u8>) -> Option<Seq<u8>> {
    if data.len() < 32 {
        None
    } else {
        let klen = spec_u64_from_le_bytes(data.subrange(24, 32)) as int;
        if 32 + klen > data.len() {
            None
        } else {
            Some(data.subrange(32, 32 + klen))
        }
    }
}

/// Outcome of a targeted read at one frame position.
pub enum FrameReadOutcome {
    /// A complete frame was present; its content bytes.
    Content(Seq<u8>),
    /// The six bytes at the position were present but were not the
    /// record signature.
    BadSignature,
    /// The file ended before the frame was complete.
    ShortRead,
}

/// A targeted read of the frame at `pos`.
pub open spec fn read_frame_at(data: Seq<u8>, pos: int) -> FrameReadOutcome {
    if pos < 0 || pos + 6 > data.len() {
        FrameReadOutcome::ShortRead
    } else if data.subrange(pos, pos + 6) != rec_signature() {
        FrameReadOutcome::BadSignature
    } else {
        match parse_frame(data, pos) {
            Some((c, end)) => FrameReadOutcome::Content(c),
            None => FrameReadOutcome::ShortRead,
        }
    }
}

/// A targeted read in a segment file: skip the file header, advance by
/// `offset`, and read one frame.
pub open spec fn read_in_segment(data: Seq<u8>, offset: u64) -> FrameReadOutcome {
    match records_start(data) {
        None => FrameReadOutcome::ShortRead,
        Some(p) => read_frame_at(data, p + offset),
    }
}

/// A subrange taken inside the left part of a concatenation ignores
/// the right part.
pub proof fn lemma_subrange_of_concat_left(a: Seq<u8>, b: Seq<u8>, i: int, j: int)
    requires
        0 <= i <= j <= a.len(),
    ensures
        (a + b).subrange(i, j) == a.subrange(i, j),
{
    assert((a + b).subrange(i, j) =~= a.subrange(i, j));
}

/// A subrange taken inside the right part of a concatenation ignores
/// the left part.
pub proof fn lemma_subrange_of_concat_right(a: Seq<u8>, b: Seq<u8>, i: int, j: int)
    requires
        0 <= i <= j <= b.len(),
    ensures
        (a + b).subrange(a.len() + i, a.len() + j) == b.subrange(i, j),
{
    assert((a + b).subrange(a.len() + i, a.len() + j) =~= b.subrange(i, j));
}

/// Field extraction from an encoded frame.
pub proof fn lemma_frame_fields(h: Seq<u8>, c: Seq<u8>)
    requires
        h.len() <= 65535,
        c.len() <= u64::MAX,
    ensures
        frame_bytes(h, c).len() == 16 + h.len() + c.len(),
        frame_bytes(h, c).subrange(0, 6) == rec_signature(),
        frame_bytes(h, c).subrange(6, 8) == spec_u16_to_le_bytes(h.len() as u16),
        frame_bytes(h, c).subrange(8, 8 + h.len() as int) == h,
        frame_bytes(h, c).subrange(8 + h.len() as int, 16 + h.len() as int) == spec_u64_to_le_bytes(
            c.len() as u64,
        ),
        frame_bytes(h, c).subrange(16 + h.len() as int, 16 + h.len() as int + c.len() as int) == c,
{
    lemma_auto_spec_u16_to_from_le_bytes();
    lemma_auto_spec_u64_to_from_le_bytes();
    let f = frame_bytes(h, c);
    assert(f.len() == 16 + h.len() + c.len());
    assert(f.subrange(0, 6) =~= rec_signature());
    assert(f.subrange(6, 8) =~= spec_u16_to_le_bytes(h.len() as u16));
    assert(f.subrange(8, 8 + h.len() as int) =~= h);
    assert(f.subrange(8 + h.len() as int, 16 + h.len() as int) =~= spec_u64_to_le_bytes(c.len() as u64));
    assert(f.subrange(16 + h.len() as int, 16 + h.len() as int + c.len() as int) =~= c);
}

/// A frame appended at the end of the data parses to its content.
pub proof fn lemma_frame_at_end(data: Seq<u8>, h: Seq<u8>, c: Seq<u8>)
    requires
        h.len() <= 65535,
        c.len() <= u64::MAX,
    ensures
        parse_frame(data + frame_bytes(h, c), data.len() as int) == Some(
            (c, data.len() as int + 16 + h.len() as int + c.len() as int),
        ),
{
    lemma_auto_spec_u16_to_from_le_bytes();
    lemma_auto_spec_u64_to_from_le_bytes();
    lemma_frame_fields(h, c);
    let f = frame_bytes(h, c);
    let d2 = data + f;
    let pos = data.len() as int;
    lemma_subrange_of_concat_right(data, f, 0, 6);
    assert(d2.subrange(pos, pos + 6) == rec_signature());
    lemma_subrange_of_concat_right(data, f, 6, 8);
    assert(spec_u16_from_le_bytes(d2.subrange(pos + 6, pos + 8)) == h.len());
    let hlen = h.len() as int;
    lemma_subrange_of_concat_right(data, f, 8 + hlen, 16 + hlen);
    assert(spec_u64_from_le_bytes(d2.subrange(pos + 8 + hlen, pos + 16 + hlen)) == c.len());
    lemma_subrange_of_concat_right(data, f, 16 + hlen, 16 + hlen + c.len() as int);
    assert(d2.subrange(pos + 16 + hlen, pos + 16 + hlen + c.len()) == c);
}

/// A complete frame is unaffected by bytes appended after the data.
pub proof fn lemma_parse_frame_prefix_stable(data: Seq<u8>, ext: Seq<u8>, pos: int)
    requires
        parse_frame(data, pos) is Some,
    ensures
        parse_frame(data + ext, pos) == parse_frame(data, pos),
{
    let d2 = data + ext;
    lemma_subrange_of_concat_left(data, ext, pos, pos + 6);
    lemma_subrange_of_concat_left(data, ext, pos + 6, pos + 8);
    let hlen = spec_u16_from_le_bytes(data.subrange(pos + 6, pos + 8)) as int;
    lemma_subrange_of_concat_left(data, ext, pos + 8 + hlen, pos + 16 + hlen);
    let clen = spec_u64_from_le_bytes(data.subrange(pos + 8 + hlen, pos + 16 + hlen)) as int;
    lemma_subrange_of_concat_left(data, ext, pos + 16 + hlen, pos + 16 + hlen + clen);
}

/// A targeted read that found a complete frame is unaffected by bytes
/// appended after the data.
pub proof fn lemma_read_frame_prefix_stable(data: Seq<u8>, ext: Seq<u8>, pos: int)
    requires
        read_frame_at(data, pos) is Content,
    ensures
        read_frame_at(data + ext, pos) == read_frame_at(data, pos),
{
    lemma_subrange_of_concat_left(data, ext, pos, pos + 6);
    lemma_parse_frame_prefix_stable(data, ext, pos);
}

/// Appending a frame to well-framed data keeps it well-framed and
/// appends exactly the frame's content to the tolerant scan.
pub proof fn lemma_append_frame_records(data: Seq<u8>, pos: int, h: Seq<u8>, c: Seq<u8>)
    requires
        0 <= pos <= data.len(),
        well_framed_from(data, pos),
        h.len() <= 65535,
        c.len() <= u64::MAX,
    ensures
        well_framed_from(data + frame_bytes(h, c), pos),
        parse_records_from(data + frame_bytes(h, c), pos) == parse_records_from(data, pos).push(c),
    decreases data.len() - pos,
{
    let f = frame_bytes(h, c);
    let d2 = data + f;
    lemma_frame_fields(h, c);
    if pos == data.len() {
        lemma_frame_at_end(data, h, c);
        let end = data.len() + 16 + h.len() + c.len();
        assert(parse_frame(data, pos) is None);
        assert(parse_records_from(data, pos) =~= seq![]);
        assert(end == d2.len());
        assert(parse_records_from(d2, end as int) =~= Seq::<Seq<u8>>::empty());
        assert(parse_records_from(d2, pos) =~= seq![c] + Seq::<Seq<u8>>::empty());
        assert(parse_records_from(d2, pos) =~= parse_records_from(data, pos).push(c));
        assert(well_framed_from(d2, end as int));
    } else {
        let (c0, end) = parse_frame(data, pos).unwrap();
        lemma_parse_frame_prefix_stable(data, f, pos);
        assert(end > pos) by {
            lemma_auto_spec_u16_to_from_le_bytes();
            lemma_auto_spec_u64_to_from_le_bytes();
        }
        lemma_append_frame_records(data, end, h, c);
        assert(parse_records_from(d2, pos) == seq![c0] + parse_records_from(d2, end));
        assert(seq![c0] + parse_records_from(data, end).push(c) =~= (seq![c0] + parse_records_from(
            data,
            end,
        )).push(c));
    }
}

/// Well-framed data yields no records from its end position.
pub proof fn lemma_records_at_len(data: Seq<u8>)
    ensures
        parse_records_from(data, data.len() as int) == Seq::<Seq<u8>>::empty(),
{
    assert(parse_frame(data, data.len() as int) is None);
    assert(parse_records_from(data, data.len() as int) =~= Seq::<Seq<u8>>::empty());
}

/// Compare two byte slices for equality.
pub fn bytes_equal(a: &[u8], b: &[u8]) -> (r: bool)
    ensures
        r <==> a@ == b@,
{
    if a.len() != b.len() {
        assert(a@.len() != b@.len());
        return false;
    }
    let n = a.len();
    let mut i: usize = 0;
    while i < n
        invariant
            0 <= i <= n,
            n == a@.len() == b@.len(),
            forall|k: int| 0 <= k < i ==> a@[k] == b@[k],
        decreases n - i,
    {
        if a[i] != b[i] {
            return false;
        }
        i = i + 1;
    }
    assert(a@ =~= b@);
    true
}

/// Encode a segment file header for a key and an expiration timestamp.
pub fn encode_segment_header(expiration: u64, key: &[u8]) -> (r: Vec<u8>)
    ensures
        r@ == segment_header_bytes(expiration, key@),
        r@.len() == 32 + key@.len(),
{
    proof {
        lemma_auto_spec_u64_to_from_le_bytes();
    }
    let mut v: Vec<u8> = Vec::new();
    v.push(78u8);
    v.push(65u8);
    v.push(78u8);
    v.push(79u8);
    v.push(45u8);
    v.push(76u8);
    v.push(79u8);
    v.push(71u8);
    assert(v@ =~= log_signature());
    let mut seq_slot = u64_to_le_bytes(0u64);
    v.append(&mut seq_slot);
    let mut exp = u64_to_le_bytes(expiration);
    v.append(&mut exp);
    let mut klen = u64_to_le_bytes(key.len() as u64);
    v.append(&mut klen);
    let mut kb = slice_to_vec(key);
    v.append(&mut kb);
    assert(v@ =~= segment_header_bytes(expiration, key@));
    v
}

/// Append one record frame to a file's bytes.
pub fn append_frame(data: &mut Vec<u8>, header: &[u8], content: &[u8])
    requires
        header@.len() <= 65535,
    ensures
        final(data)@ == old(data)@ + frame_bytes(header@, content@),
{
    proof {
        lemma_auto_spec_u16_to_from_le_bytes();
        lemma_auto_spec_u64_to_from_le_bytes();
    }
    data.push(78u8);
    data.push(65u8);
    data.push(78u8);
    data.push(79u8);
    data.push(82u8);
    data.push(67u8);
    let mut hlen = u16_to_le_bytes(header.len() as u16);
    data.append(&mut hlen);
    let mut hb = slice_to_vec(header);
    data.append(&mut hb);
    let mut clen = u64_to_le_bytes(content.len() as u64);
    data.append(&mut clen);
    let mut cb = slice_to_vec(content);
    data.append(&mut cb);
    assert(data@ =~= old(data)@ + frame_bytes(header@, content@));
}

/// One step of the tolerant scan: the complete frame at `pos`, if one
/// begins there.
pub fn try_parse_frame(data: &Vec<u8>, pos: usize) -> (r: Option<(Vec<u8>, usize)>)
    requires
        pos <= data@.len(),
    ensures
        match r {
            None => parse_frame(data@, pos as int) is None,
            Some(p) => {
                &&& parse_frame(data@, pos as int) == Some((p.0@, p.1 as int))
                &&& pos < p.1 <= data@.len()
            },
        },
{
    proof {
        lemma_auto_spec_u16_to_from_le_bytes();
        lemma_auto_spec_u64_to_from_le_bytes();
    }
    let n = data.len();
    if n - pos < 6 {
        return None;
    }
    if !(data[pos] == 78u8 && data[pos + 1] == 65u8 && data[pos + 2] == 78u8 && data[pos + 3] == 79u8
        && data[pos + 4] == 82u8 && data[pos + 5] == 67u8) {
        proof {
            if data@.subrange(pos as int, pos + 6) == rec_signature() {
                assert(data@[pos as int] == rec_signature()[0]);
                assert(data@[pos + 1] == rec_signature()[1]);
                assert(data@[pos + 2] == rec_signature()[2]);
                assert(data@[pos + 3] == rec_signature()[3]);
                assert(data@[pos + 4] == rec_signature()[4]);
                assert(data@[pos + 5] == rec_signature()[5]);
            }
        }
        return None;
    }
    assert(data@.subrange(pos as int, pos + 6) =~= rec_signature());
    if n - pos < 8 {
        return None;
    }
    let hlen_bytes = slice_subrange(data.as_slice(), pos + 6, pos + 8);
    let hlen = u16_from_le_bytes(hlen_bytes) as usize;
    if n - pos < 16 || n - pos - 16 < hlen {
        assert(pos + 16 + hlen > data@.len());
        return None;
    }
    let clen_pos = pos + 8 + hlen;
    let clen_bytes = slice_subrange(data.as_slice(), clen_pos, clen_pos + 8);
    let clen = u64_from_le_bytes(clen_bytes);
    let rem = (n - pos - 16 - hlen) as u64;
    if clen > rem {
        assert(pos + 16 + hlen + clen > data@.len());
        return None;
    }
    let clen_us = clen as usize;
    let cstart = pos + 16 + hlen;
    let content = slice_to_vec(slice_subrange(data.as_slice(), cstart, cstart + clen_us));
    assert(content@ =~= data@.subrange(cstart as int, cstart + clen_us));
    Some((content, cstart + clen_us))
}

/// All record contents of a segment file, by the tolerant scan.
pub fn read_records(data: &Vec<u8>) -> (r: Vec<Vec<u8>>)
    ensures
        r.deep_view() == segment_records(data@),
{
    let mut out: Vec<Vec<u8>> = Vec::new();
    let n = data.len();
    if n < 32 {
        assert(out.deep_view() =~= segment_records(data@));
        return out;
    }
    let klen_bytes = slice_subrange(data.as_slice(), 24, 32);
    let klen = u64_from_le_bytes(klen_bytes);
    if klen > (n - 32) as u64 {
        proof {
            let p = records_start(data@).unwrap();
            assert(p > data@.len());
            assert(out.deep_view() =~= segment_records(data@));
        }
        return out;
    }
    let mut pos: usize = 32 + (klen as usize);
    assert(records_start(data@) == Some(pos as int));
    let ghost total = segment_records(data@);
    let mut done = false;
    while !done
        invariant
            pos <= data@.len(),
            total == segment_records(data@),
            total =~= out.deep_view() + parse_records_from(data@, pos as int),
            done ==> parse_frame(data@, pos as int) is None,
        decreases data@.len() - pos + (if done { 0int } else { 1int }),
    {
        match try_parse_frame(data, pos) {
            None => {
                done = true;
            },
            Some((content, end)) => {
                let ghost prev = out.deep_view();
                let ghost cv = content@;
                proof {
                    assert(content.deep_view() =~= cv);
                    assert(parse_records_from(data@, pos as int) == seq![cv] + parse_records_from(
                        data@,
                        end as int,
                    ));
                }
                out.push(content);
                pos = end;
                proof {
                    assert(out.deep_view() =~= prev.push(cv));
                    assert(prev.push(cv) + parse_records_from(data@, pos as int) =~= prev + (seq![cv]
                        + parse_records_from(data@, pos as int)));
                }
            },
        }
    }
    proof {
        assert(parse_records_from(data@, pos as int) =~= Seq::<Seq<u8>>::empty());
        assert(out.deep_view() =~= total);
    }
    out
}

/// A targeted read of one record in a segment file: skip the file
/// header, advance by `offset`, check the record signature, and read
/// the content.
pub fn read_frame_in_segment(data: &Vec<u8>, offset: u64) -> (r: Result<Vec<u8>, WalError>)
    ensures
        match read_in_segment(data@, offset) {
            FrameReadOutcome::Content(c) => r matches Ok(v) && v@ == c,
            FrameReadOutcome::BadSignature => r matches Err(e) && e is CorruptedData,
            FrameReadOutcome::ShortRead => r matches Err(e) && e is Io,
        },
{
    proof {
        lemma_auto_spec_u64_to_from_le_bytes();
    }
    let n = data.len();
    if n < 32 {
        return Err(WalError::Io("segment file header is incomplete".to_owned()));
    }
    let klen_bytes = slice_subrange(data.as_slice(), 24, 32);
    let klen = u64_from_le_bytes(klen_bytes);
    let ghost p = records_start(data@).unwrap() + offset;
    let base = match 32u64.checked_add(klen) {
        Some(b) => b,
        None => {
            assert(p + 6 > data@.len());
            return Err(WalError::Io("record lies past the end of the segment file".to_owned()));
        },
    };
    let pos64 = match base.checked_add(offset) {
        Some(q) => q,
        None => {
            assert(p + 6 > data@.len());
            return Err(WalError::Io("record lies past the end of the segment file".to_owned()));
        },
    };
    if pos64 > (n as u64) || (n as u64) - pos64 < 6 {
        assert(p + 6 > data@.len());
        return Err(WalError::Io("record lies past the end of the segment file".to_owned()));
    }
    let pos = pos64 as usize;
    assert(pos as int == p);
    if !(data[pos] == 78u8 && data[pos + 1] == 65u8 && data[pos + 2] == 78u8 && data[pos + 3] == 79u8
        && data[pos + 4] == 82u8 && data[pos + 5] == 67u8) {
        proof {
            if data@.subrange(p, p + 6) == rec_signature() {
                assert(data@[p] == rec_signature()[0]);
                assert(data@[p + 1] == rec_signature()[1]);
                assert(data@[p + 2] == rec_signature()[2]);
                assert(data@[p + 3] == rec_signature()[3]);
                assert(data@[p + 4] == rec_signature()[4]);
                assert(data@[p + 5] == rec_signature()[5]);
            }
        }
        return Err(WalError::CorruptedData("record signature not found".to_owned()));
    }
    assert(data@.subrange(p, p + 6) =~= rec_signature());
    match try_parse_frame(data, pos) {
        Some((content, _end)) => Ok(content),
        None => Err(WalError::Io("record frame is incomplete".to_owned())),
    }
}

} // verus!

verus! {

/// Field extraction from an encoded segment file header, also when
/// more bytes follow it.
pub proof fn lemma_segment_header_fields(expiration: u64, key: Seq<u8>, rest: Seq<u8>)
    requires
        key.len() <= u64::MAX,
    ensures
        ({
            let d = segment_header_bytes(expiration, key) + rest;
            &&& segment_header_bytes(expiration, key).len() == 32 + key.len()
            &&& d.subrange(0, 8) == log_signature()
            &&& d.len() >= 8 ==> has_log_signature(d)
            &&& segment_expiration(d) == expiration
            &&& d.subrange(24, 32) == spec_u64_to_le_bytes(key.len() as u64)
            &&& records_start(d) == Some(32 + key.len() as int)
            &&& d.subrange(32, 32 + key.len() as int) == key
        }),
{
    lemma_auto_spec_u64_to_from_le_bytes();
    let hdr = segment_header_bytes(expiration, key);
    let d = hdr + rest;
    assert(hdr.len() == 32 + key.len());
    assert(d.subrange(0, 8) =~= log_signature());
    assert(d.subrange(16, 24) =~= spec_u64_to_le_bytes(expiration));
    assert(d.subrange(24, 32) =~= spec_u64_to_le_bytes(key.len() as u64));
    assert(d.subrange(32, 32 + key.len() as int) =~= key);
    assert(d.len() >= 32);
}

/// A targeted read that found a complete frame in a prefix of the data
/// reads the same content from the whole data.
pub proof fn lemma_read_in_segment_prefix(d1: Seq<u8>, d2: Seq<u8>, offset: u64)
    requires
        d1.len() <= d2.len(),
        d1 == d2.take(d1.len() as int),
        read_in_segment(d1, offset) is Content,
    ensures
        read_in_segment(d2, offset) == read_in_segment(d1, offset),
{
    assert(d1.len() >= 32);
    assert(d2.subrange(24, 32) =~= d1.subrange(24, 32));
    let p = records_start(d1).unwrap() + offset;
    let ext = d2.skip(d1.len() as int);
    assert(d2 =~= d1 + ext);
    lemma_read_frame_prefix_stable(d1, ext, p);
}

} // verus!
