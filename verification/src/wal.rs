//! The record codec and the replay scan.
//!
//! A log file is a concatenation of frames. Each frame carries, in order and
//! little-endian throughout: a 4-byte CRC-32 checksum, an 8-byte key length,
//! an 8-byte value length, the key bytes, and the value bytes. The checksum
//! covers the two length fields and the key and value bytes.

use vstd::prelude::*;
use vstd::bytes::*;
use vstd::slice::*;

verus! {

/// Bytes in a frame before the key: checksum and the two length fields.
pub const HEADER_LEN: usize = 20;

/// One key/value pair as it is recorded in the log. Keys and values are
/// opaque byte blobs of arbitrary length.
#[derive(Debug)]
pub struct LogRecord {
    pub key: Vec<u8>,
    pub value: Vec<u8>,
}

/// Why a buffer failed to decode as a frame.
#[derive(Debug, Clone, Copy, PartialEq, Eq, Structural)]
pub enum DecodeError {
    /// Fewer than `HEADER_LEN` bytes: not even a complete header.
    TruncatedHeader,
    /// A complete header, but fewer than header + key length + value length
    /// bytes in all.
    TruncatedBody,
    /// The stored checksum differs from the checksum recomputed over the
    /// decoded fields.
    ChecksumMismatch,
}

/// The CRC-32 checksum of a byte sequence, as `crc32fast` computes it:
/// a function of the bytes alone.
pub uninterp spec fn crc32_of(data: Seq<u8>) -> u32;

/// Relies on crc32fast::hash: the CRC-32 checksum of the bytes, determined
/// by the bytes alone.
#[verifier::external_body]
fn crc32(data: &[u8]) -> (r: u32)
    ensures
        r == crc32_of(data@),
{
    crc32fast::hash(data)
}

/// The checksummed portion of a frame: key length, value length, key bytes,
/// value bytes.
pub open spec fn spec_payload(key: Seq<u8>, value: Seq<u8>) -> Seq<u8> {
    spec_u64_to_le_bytes(key.len() as u64) + spec_u64_to_le_bytes(value.len() as u64) + key
        + value
}

/// The full on-disk frame: the checksum of the payload, then the payload.
pub open spec fn spec_frame(key: Seq<u8>, value: Seq<u8>) -> Seq<u8> {
    spec_u32_to_le_bytes(crc32_of(spec_payload(key, value))) + spec_payload(key, value)
}

/// Appends the bytes of `src` to `dst`.
pub(crate) fn push_bytes(dst: &mut Vec<u8>, src: &[u8])
    ensures
        final(dst)@ == old(dst)@ + src@,
{
    let mut i: usize = 0;
    while i < src.len()
        invariant
            i <= src@.len(),
            dst@ == old(dst)@ + src@.take(i as int),
        decreases src@.len() - i,
    {
        dst.push(src[i]);
        i = i + 1;
        proof {
            assert(src@.take(i as int) == src@.take(i as int - 1).push(src@[i as int - 1]));
        }
    }
    proof {
        assert(src@.take(src@.len() as int) == src@);
    }
}

/// The key length recorded in the header at the start of the buffer.
pub open spec fn spec_key_len(bytes: Seq<u8>) -> u64
    recommends
        bytes.len() >= HEADER_LEN,
{
    spec_u64_from_le_bytes(bytes.subrange(4, 12))
}

/// The value length recorded in the header at the start of the buffer.
pub open spec fn spec_value_len(bytes: Seq<u8>) -> u64
    recommends
        bytes.len() >= HEADER_LEN,
{
    spec_u64_from_le_bytes(bytes.subrange(12, 20))
}

/// The total size of the frame whose header starts the buffer, as the header
/// declares it.
pub open spec fn spec_frame_size(bytes: Seq<u8>) -> int
    recommends
        bytes.len() >= HEADER_LEN,
{
    HEADER_LEN + spec_key_len(bytes) + spec_value_len(bytes)
}

/// What decoding a buffer yields: the record framed at its start (trailing
/// bytes beyond the frame are ignored), or the reason it is rejected.
pub open spec fn spec_decode(bytes: Seq<u8>) -> Result<(Seq<u8>, Seq<u8>), DecodeError> {
    if bytes.len() < HEADER_LEN {
        Err(DecodeError::TruncatedHeader)
    } else if bytes.len() < spec_frame_size(bytes) {
        Err(DecodeError::TruncatedBody)
    } else if spec_u32_from_le_bytes(bytes.subrange(0, 4)) != crc32_of(
        bytes.subrange(4, spec_frame_size(bytes)),
    ) {
        Err(DecodeError::ChecksumMismatch)
    } else {
        Ok(
            (
                bytes.subrange(HEADER_LEN as int, HEADER_LEN + spec_key_len(bytes)),
                bytes.subrange(HEADER_LEN + spec_key_len(bytes), spec_frame_size(bytes)),
            ),
        )
    }
}

/// Encodes one record as a frame: checksum, key length, value length, key,
/// value, all integers little-endian.
pub fn serialize(record: &LogRecord) -> (r: Vec<u8>)
    ensures
        r@ == spec_frame(record.key@, record.value@),
{
    let key_len_bytes = u64_to_le_bytes(record.key.len() as u64);
    let value_len_bytes = u64_to_le_bytes(record.value.len() as u64);

    let mut payload: Vec<u8> = Vec::new();
    push_bytes(&mut payload, key_len_bytes.as_slice());
    push_bytes(&mut payload, value_len_bytes.as_slice());
    push_bytes(&mut payload, record.key.as_slice());
    push_bytes(&mut payload, record.value.as_slice());
    proof {
        assert(payload@ == spec_payload(record.key@, record.value@));
    }

    let crc = crc32(payload.as_slice());
    let crc_bytes = u32_to_le_bytes(crc);

    let mut result: Vec<u8> = Vec::new();
    push_bytes(&mut result, crc_bytes.as_slice());
    push_bytes(&mut result, payload.as_slice());
    result
}

/// Decoding a buffer that begins with the frame of a record yields exactly
/// that record, whatever bytes follow the frame.
pub proof fn lemma_decode_frame(key: Seq<u8>, value: Seq<u8>, rest: Seq<u8>)
    requires
        key.len() < 0x1_0000_0000_0000_0000,
        value.len() < 0x1_0000_0000_0000_0000,
    ensures
        spec_decode(spec_frame(key, value) + rest) == Ok::<_, DecodeError>((key, value)),
{
    lemma_auto_spec_u64_to_from_le_bytes();
    lemma_auto_spec_u32_to_from_le_bytes();
    let payload = spec_payload(key, value);
    let frame = spec_frame(key, value);
    let bytes = frame + rest;
    let k: int = key.len() as int;
    let v: int = value.len() as int;
    assert(bytes.len() == HEADER_LEN + k + v + rest.len());
    assert(bytes.subrange(4, 12) =~= spec_u64_to_le_bytes(key.len() as u64));
    assert(bytes.subrange(12, 20) =~= spec_u64_to_le_bytes(value.len() as u64));
    assert(spec_key_len(bytes) == key.len() as u64);
    assert(spec_value_len(bytes) == value.len() as u64);
    assert(spec_frame_size(bytes) == HEADER_LEN + k + v);
    assert(bytes.subrange(0, 4) =~= spec_u32_to_le_bytes(crc32_of(payload)));
    assert(bytes.subrange(4, HEADER_LEN + k + v) =~= payload);
    assert(spec_u32_from_le_bytes(bytes.subrange(0, 4)) == crc32_of(
        bytes.subrange(4, spec_frame_size(bytes)),
    ));
    assert(bytes.subrange(HEADER_LEN as int, HEADER_LEN + k) =~= key);
    assert(bytes.subrange(HEADER_LEN + k, HEADER_LEN + k + v) =~= value);
}

/// Round-trip: decoding the encoded frame of any record yields that record
/// unchanged.
pub proof fn lemma_round_trip(key: Seq<u8>, value: Seq<u8>)
    requires
        key.len() < 0x1_0000_0000_0000_0000,
        value.len() < 0x1_0000_0000_0000_0000,
    ensures
        spec_decode(spec_frame(key, value)) == Ok::<_, DecodeError>((key, value)),
{
    lemma_decode_frame(key, value, Seq::empty());
    assert(spec_frame(key, value) + Seq::<u8>::empty() =~= spec_frame(key, value));
}

/// Corrupting the stored checksum field of a frame, while its payload
/// stands, makes decoding reject the whole frame as `ChecksumMismatch`.
pub proof fn lemma_checksum_field_corruption(key: Seq<u8>, value: Seq<u8>, corrupted: Seq<u8>)
    requires
        key.len() < 0x1_0000_0000_0000_0000,
        value.len() < 0x1_0000_0000_0000_0000,
        corrupted.len() == spec_frame(key, value).len(),
        corrupted.skip(4) == spec_frame(key, value).skip(4),
        corrupted != spec_frame(key, value),
    ensures
        spec_decode(corrupted) == Err::<(Seq<u8>, Seq<u8>), _>(DecodeError::ChecksumMismatch),
{
    lemma_auto_spec_u64_to_from_le_bytes();
    lemma_auto_spec_u32_to_from_le_bytes();
    let payload = spec_payload(key, value);
    let frame = spec_frame(key, value);
    let k: int = key.len() as int;
    let v: int = value.len() as int;
    assert(frame.len() == HEADER_LEN + k + v);
    assert forall|j: int| 4 <= j < frame.len() implies corrupted[j] == frame[j] by {
        assert(corrupted.skip(4)[j - 4] == frame.skip(4)[j - 4]);
    }
    assert(corrupted.subrange(4, 12) =~= spec_u64_to_le_bytes(key.len() as u64));
    assert(corrupted.subrange(12, 20) =~= spec_u64_to_le_bytes(value.len() as u64));
    assert(spec_frame_size(corrupted) == HEADER_LEN + k + v);
    assert(corrupted.subrange(4, HEADER_LEN + k + v) =~= payload);
    let stored = corrupted.subrange(0, 4);
    let genuine = spec_u32_to_le_bytes(crc32_of(payload));
    assert(frame.subrange(0, 4) =~= genuine);
    if spec_u32_from_le_bytes(stored) == crc32_of(payload) {
        assert(spec_u32_to_le_bytes(spec_u32_from_le_bytes(stored)) == stored);
        assert(stored == genuine);
        assert(corrupted =~= frame);
        assert(false);
    }
}

/// Truncation safety: a strict prefix of a frame never decodes. Shorter than
/// the header it is rejected as `TruncatedHeader`; with the header complete
/// but the frame cut short, as `TruncatedBody`.
pub proof fn lemma_truncated_frame(key: Seq<u8>, value: Seq<u8>, n: int)
    requires
        key.len() < 0x1_0000_0000_0000_0000,
        value.len() < 0x1_0000_0000_0000_0000,
        0 <= n < spec_frame(key, value).len(),
    ensures
        n < HEADER_LEN ==> spec_decode(spec_frame(key, value).take(n)) == Err::<
            (Seq<u8>, Seq<u8>),
            _,
        >(DecodeError::TruncatedHeader),
        n >= HEADER_LEN ==> spec_decode(spec_frame(key, value).take(n)) == Err::<
            (Seq<u8>, Seq<u8>),
            _,
        >(DecodeError::TruncatedBody),
{
    lemma_auto_spec_u64_to_from_le_bytes();
    lemma_auto_spec_u32_to_from_le_bytes();
    let frame = spec_frame(key, value);
    let prefix = frame.take(n);
    let k: int = key.len() as int;
    let v: int = value.len() as int;
    assert(frame.len() == HEADER_LEN + k + v);
    if n >= HEADER_LEN {
        assert(prefix.subrange(4, 12) =~= spec_u64_to_le_bytes(key.len() as u64));
        assert(prefix.subrange(12, 20) =~= spec_u64_to_le_bytes(value.len() as u64));
        assert(spec_frame_size(prefix) == HEADER_LEN + k + v);
        assert(prefix.len() < spec_frame_size(prefix));
    }
}

/// The records recovered by scanning the buffer from the start: the longest
/// prefix of valid frames. The scan ends at the first shortfall or checksum
/// mismatch; everything from that byte onward is discarded, never reported.
pub open spec fn spec_replay(bytes: Seq<u8>) -> Seq<(Seq<u8>, Seq<u8>)>
    decreases bytes.len(),
{
    match spec_decode(bytes) {
        Ok(rec) => seq![rec] + spec_replay(
            bytes.skip(HEADER_LEN + rec.0.len() + rec.1.len()),
        ),
        Err(_) => Seq::empty(),
    }
}

/// Decodes the frame at the start of the buffer, rejecting it whole on any
/// shortfall or checksum discrepancy. Bytes beyond the declared frame size
/// are ignored.
pub fn deserialize(bytes: &[u8]) -> (r: Result<LogRecord, DecodeError>)
    ensures
        match r {
            Ok(rec) => spec_decode(bytes@) == Ok::<_, DecodeError>((rec.key@, rec.value@)),
            Err(e) => spec_decode(bytes@) == Err::<(Seq<u8>, Seq<u8>), _>(e),
        },
{
    if bytes.len() < HEADER_LEN {
        return Err(DecodeError::TruncatedHeader);
    }
    let stored_crc = u32_from_le_bytes(slice_subrange(bytes, 0, 4));
    let key_len = u64_from_le_bytes(slice_subrange(bytes, 4, 12));
    let value_len = u64_from_le_bytes(slice_subrange(bytes, 12, 20));
    proof {
        assert(key_len == spec_key_len(bytes@));
        assert(value_len == spec_value_len(bytes@));
    }

    let avail = (bytes.len() - HEADER_LEN) as u64;
    if key_len > avail || value_len > avail - key_len {
        return Err(DecodeError::TruncatedBody);
    }

    let frame_size = HEADER_LEN + key_len as usize + value_len as usize;
    let computed_crc = crc32(slice_subrange(bytes, 4, frame_size));
    if stored_crc != computed_crc {
        return Err(DecodeError::ChecksumMismatch);
    }

    let key = slice_to_vec(slice_subrange(bytes, HEADER_LEN, HEADER_LEN + key_len as usize));
    let value = slice_to_vec(slice_subrange(bytes, HEADER_LEN + key_len as usize, frame_size));
    Ok(LogRecord { key, value })
}

/// The bytes of a log holding exactly these records, one frame each, in
/// order.
pub open spec fn spec_log_bytes(records: Seq<(Seq<u8>, Seq<u8>)>) -> Seq<u8>
    decreases records.len(),
{
    if records.len() == 0 {
        Seq::empty()
    } else {
        spec_frame(records.first().0, records.first().1) + spec_log_bytes(records.drop_first())
    }
}

/// Every record's key and value fit the 8-byte length fields of a frame.
pub open spec fn records_fit(records: Seq<(Seq<u8>, Seq<u8>)>) -> bool {
    forall|i: int|
        0 <= i < records.len() ==> records[i].0.len() < 0x1_0000_0000_0000_0000
            && records[i].1.len() < 0x1_0000_0000_0000_0000
}

/// Appending one record's frame extends the log's bytes at the end.
pub proof fn lemma_log_bytes_push(records: Seq<(Seq<u8>, Seq<u8>)>, rec: (Seq<u8>, Seq<u8>))
    ensures
        spec_log_bytes(records.push(rec)) == spec_log_bytes(records) + spec_frame(rec.0, rec.1),
    decreases records.len(),
{
    if records.len() == 0 {
        assert(records.push(rec).first() == rec);
        assert(records.push(rec).drop_first() =~= Seq::<(Seq<u8>, Seq<u8>)>::empty());
        assert(spec_log_bytes(records.push(rec)) == spec_frame(rec.0, rec.1) + spec_log_bytes(
            Seq::<(Seq<u8>, Seq<u8>)>::empty(),
        ));
        assert(spec_frame(rec.0, rec.1) + Seq::<u8>::empty() =~= spec_frame(rec.0, rec.1));
        assert(Seq::<u8>::empty() + spec_frame(rec.0, rec.1) =~= spec_frame(rec.0, rec.1));
    } else {
        lemma_log_bytes_push(records.drop_first(), rec);
        assert(records.push(rec).drop_first() =~= records.drop_first().push(rec));
        assert(records.push(rec).first() == records.first());
        assert(spec_frame(records.first().0, records.first().1) + (spec_log_bytes(
            records.drop_first(),
        ) + spec_frame(rec.0, rec.1)) =~= (spec_frame(records.first().0, records.first().1)
            + spec_log_bytes(records.drop_first())) + spec_frame(rec.0, rec.1));
    }
}

/// Replaying a log made of whole frames recovers exactly its records.
pub proof fn lemma_replay_log_bytes(records: Seq<(Seq<u8>, Seq<u8>)>)
    requires
        records_fit(records),
    ensures
        spec_replay(spec_log_bytes(records)) == records,
    decreases records.len(),
{
    lemma_auto_spec_u64_to_from_le_bytes();
    lemma_auto_spec_u32_to_from_le_bytes();
    if records.len() == 0 {
        assert(spec_replay(spec_log_bytes(records)) =~= records);
    } else {
        let first = records.first();
        let rest = spec_log_bytes(records.drop_first());
        lemma_decode_frame(first.0, first.1, rest);
        lemma_replay_log_bytes(records.drop_first());
        let bytes = spec_log_bytes(records);
        let advance: int = HEADER_LEN + first.0.len() + first.1.len();
        assert(spec_frame(first.0, first.1).len() == advance);
        assert(bytes.skip(advance) =~= rest);
        assert(spec_replay(bytes) == seq![first] + spec_replay(bytes.skip(advance)));
        assert(seq![first] + records.drop_first() =~= records);
    }
}

/// How many whole frames of the given records lie within the first `n`
/// bytes of their log.
pub open spec fn spec_frames_within(records: Seq<(Seq<u8>, Seq<u8>)>, n: int) -> int
    decreases records.len(),
{
    if records.len() == 0 {
        0
    } else if n < spec_frame(records.first().0, records.first().1).len() {
        0
    } else {
        1 + spec_frames_within(
            records.drop_first(),
            n - spec_frame(records.first().0, records.first().1).len(),
        )
    }
}

/// Crash-tail tolerance: a log cut at any byte offset replays to exactly
/// the records whose frames lie wholly before the cut. The trailing partial
/// frame, if any, is discarded silently — no error, no partial record.
pub proof fn lemma_replay_truncated_log(records: Seq<(Seq<u8>, Seq<u8>)>, n: int)
    requires
        records_fit(records),
        0 <= n <= spec_log_bytes(records).len(),
    ensures
        0 <= spec_frames_within(records, n) <= records.len(),
        spec_replay(spec_log_bytes(records).take(n)) == records.take(
            spec_frames_within(records, n),
        ),
    decreases records.len(),
{
    lemma_auto_spec_u64_to_from_le_bytes();
    lemma_auto_spec_u32_to_from_le_bytes();
    if records.len() == 0 {
        assert(spec_log_bytes(records).take(n) =~= Seq::<u8>::empty());
        assert(spec_replay(spec_log_bytes(records).take(n)) =~= records.take(0));
    } else {
        let first = records.first();
        let flen: int = spec_frame(first.0, first.1).len() as int;
        let rest = records.drop_first();
        let bytes = spec_log_bytes(records);
        let prefix = bytes.take(n);
        assert(flen == HEADER_LEN + first.0.len() + first.1.len());
        if n < flen {
            assert(prefix =~= spec_frame(first.0, first.1).take(n));
            if n < bytes.len() {
                lemma_truncated_frame(first.0, first.1, n);
            }
            assert(spec_decode(prefix) is Err);
            assert(spec_replay(prefix) =~= Seq::<(Seq<u8>, Seq<u8>)>::empty());
            assert(records.take(0) =~= Seq::<(Seq<u8>, Seq<u8>)>::empty());
        } else {
            let tail = spec_log_bytes(rest).take(n - flen);
            assert(prefix =~= spec_frame(first.0, first.1) + tail);
            lemma_decode_frame(first.0, first.1, tail);
            lemma_replay_truncated_log(rest, n - flen);
            assert(prefix.skip(flen) =~= tail);
            assert(spec_replay(prefix) == seq![first] + spec_replay(prefix.skip(flen)));
            let inner: int = spec_frames_within(rest, n - flen);
            assert(records.take(1 + inner) =~= seq![first] + rest.take(inner));
        }
    }
}

/// Replays frames from an in-memory copy of a log file's bytes, yielding one
/// record per valid frame and stopping for good at the first frame that is
/// incomplete or fails its checksum.
pub struct LogIterator {
    bytes: Vec<u8>,
    pos: usize,
}

impl LogIterator {
    /// The scan has not run past the end of the buffer.
    pub closed spec fn wf(self) -> bool {
        self.pos <= self.bytes@.len()
    }

    /// The bytes not yet consumed.
    pub closed spec fn remaining(self) -> Seq<u8> {
        self.bytes@.skip(self.pos as int)
    }

    /// Starts a replay scan at the beginning of the given log bytes.
    pub fn new(bytes: Vec<u8>) -> (r: LogIterator)
        ensures
            r.wf(),
            r.remaining() == bytes@,
    {
        let it = LogIterator { bytes, pos: 0 };
        proof {
            assert(it.remaining() =~= it.bytes@);
        }
        it
    }

    /// Yields the record of the frame at the current position, or `None` at
    /// the first invalid or incomplete frame, after which the scan stays put.
    pub fn next(&mut self) -> (r: Option<LogRecord>)
        requires
            old(self).wf(),
        ensures
            final(self).wf(),
            match r {
                Some(rec) => {
                    &&& spec_decode(old(self).remaining()) == Ok::<_, DecodeError>(
                        (rec.key@, rec.value@),
                    )
                    &&& final(self).remaining() == old(self).remaining().skip(
                        HEADER_LEN + rec.key@.len() + rec.value@.len(),
                    )
                },
                None => {
                    &&& spec_decode(old(self).remaining()) is Err
                    &&& *final(self) == *old(self)
                },
            },
    {
        let rest = slice_subrange(self.bytes.as_slice(), self.pos, self.bytes.len());
        match deserialize(rest) {
            Ok(rec) => {
                let advance: usize = HEADER_LEN + rec.key.len() + rec.value.len();
                proof {
                    assert(rest@.len() >= spec_frame_size(rest@));
                    assert(rec.key@.len() == spec_key_len(rest@) as int);
                    assert(rec.value@.len() == spec_value_len(rest@) as int);
                }
                let ghost old_pos: int = self.pos as int;
                self.pos = self.pos + advance;
                proof {
                    assert(self.bytes@.skip(self.pos as int) =~= self.bytes@.skip(old_pos).skip(
                        advance as int,
                    ));
                }
                Some(rec)
            },
            Err(_) => None,
        }
    }
}

} // verus!
