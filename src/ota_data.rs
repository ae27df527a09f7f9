use vstd::prelude::*;

use crate::crc::{esp_crc32, esp_crc32_spec};

verus! {

/// Length of a persisted OTA descriptor record.
pub const RECORD_LEN: usize = 32;

/// Length of the opaque label of a descriptor.
pub const LABEL_LEN: usize = 20;

/// Verification state of a firmware image, as the bootloader understands it.
/// - `New`: freshly written; the bootloader turns it into `PendingVerify` on first boot.
/// - `PendingVerify`: booted once, awaiting confirmation; on the next boot it becomes `Aborted`.
/// - `Valid`: confirmed working; boots without limits.
/// - `Invalid`: confirmed broken; never selected for boot.
/// - `Aborted`: not confirmed before the next reboot; never selected for boot.
/// - `Undefined`: legacy or untracked image; boots without limits.
#[derive(Debug, Copy, Clone, PartialEq, Eq, Structural)]
pub enum EspOTAState {
    New,
    PendingVerify,
    Valid,
    Invalid,
    Aborted,
    Undefined,
}

impl EspOTAState {
    /// The 32-bit code of the state in a record.
    pub open spec fn code(self) -> u32 {
        match self {
            EspOTAState::New => 0,
            EspOTAState::PendingVerify => 1,
            EspOTAState::Valid => 2,
            EspOTAState::Invalid => 3,
            EspOTAState::Aborted => 4,
            EspOTAState::Undefined => 0xFFFF_FFFF,
        }
    }

    /// The state that a 32-bit code stands for, if any.
    pub open spec fn from_code(c: u32) -> Option<EspOTAState> {
        if c == 0 {
            Some(EspOTAState::New)
        } else if c == 1 {
            Some(EspOTAState::PendingVerify)
        } else if c == 2 {
            Some(EspOTAState::Valid)
        } else if c == 3 {
            Some(EspOTAState::Invalid)
        } else if c == 4 {
            Some(EspOTAState::Aborted)
        } else if c == 0xFFFF_FFFF {
            Some(EspOTAState::Undefined)
        } else {
            None
        }
    }

    /// A state that lets the running image seed another update.
    pub open spec fn is_accepted(self) -> bool {
        self == EspOTAState::Valid || self == EspOTAState::Undefined
    }

    pub fn to_u32(self) -> (r: u32)
        ensures
            r == self.code(),
            EspOTAState::from_code(r) == Some(self),
    {
        match self {
            EspOTAState::New => 0,
            EspOTAState::PendingVerify => 1,
            EspOTAState::Valid => 2,
            EspOTAState::Invalid => 3,
            EspOTAState::Aborted => 4,
            EspOTAState::Undefined => 0xFFFF_FFFF,
        }
    }

    /// Reads a state code; unknown codes are refused.
    pub fn try_from_u32(value: u32) -> (r: Result<EspOTAState, ()>)
        ensures
            r is Ok <==> EspOTAState::from_code(value) is Some,
            r is Ok ==> EspOTAState::from_code(value) == Some(r->Ok_0) && r->Ok_0.code() == value,
    {
        match value {
            0 => Ok(EspOTAState::New),
            1 => Ok(EspOTAState::PendingVerify),
            2 => Ok(EspOTAState::Valid),
            3 => Ok(EspOTAState::Invalid),
            4 => Ok(EspOTAState::Aborted),
            0xFFFF_FFFF => Ok(EspOTAState::Undefined),
            _ => Err(()),
        }
    }

    pub fn is_accepted_exec(self) -> (r: bool)
        ensures
            r == self.is_accepted(),
    {
        match self {
            EspOTAState::Valid => true,
            EspOTAState::Undefined => true,
            _ => false,
        }
    }
}

/// Little-endian bytes of a 32-bit integer.
pub open spec fn u32_le_bytes(x: u32) -> Seq<u8> {
    seq![
        (x & 0xff) as u8,
        ((x >> 8u32) & 0xff) as u8,
        ((x >> 16u32) & 0xff) as u8,
        ((x >> 24u32) & 0xff) as u8,
    ]
}

/// The 32-bit integer whose little-endian bytes are `b0 b1 b2 b3`.
pub open spec fn u32_from_le(b0: u8, b1: u8, b2: u8, b3: u8) -> u32 {
    (b0 as u32) | ((b1 as u32) << 8u32) | ((b2 as u32) << 16u32) | ((b3 as u32) << 24u32)
}

/// The little-endian integer at `at .. at + 4` of `b`.
pub open spec fn le_u32_at(b: Seq<u8>, at: int) -> u32 {
    u32_from_le(b[at], b[at + 1], b[at + 2], b[at + 3])
}

pub proof fn lemma_le_round_trip(x: u32)
    ensures
        le_u32_at(u32_le_bytes(x), 0) == x,
{
    let b = u32_le_bytes(x);
    let b0 = (x & 0xff) as u8;
    let b1 = ((x >> 8u32) & 0xff) as u8;
    let b2 = ((x >> 16u32) & 0xff) as u8;
    let b3 = ((x >> 24u32) & 0xff) as u8;
    assert(b[0] == b0 && b[1] == b1 && b[2] == b2 && b[3] == b3);
    assert(u32_from_le(
        (x & 0xff) as u8,
        ((x >> 8u32) & 0xff) as u8,
        ((x >> 16u32) & 0xff) as u8,
        ((x >> 24u32) & 0xff) as u8,
    ) == x) by (bit_vector);
}

pub proof fn lemma_le_bytes_of_read(b0: u8, b1: u8, b2: u8, b3: u8)
    ensures
        u32_le_bytes(u32_from_le(b0, b1, b2, b3)) == seq![b0, b1, b2, b3],
{
    let x = u32_from_le(b0, b1, b2, b3);
    assert((x & 0xff) as u8 == b0 && ((x >> 8u32) & 0xff) as u8 == b1 && ((x >> 16u32)
        & 0xff) as u8 == b2 && ((x >> 24u32) & 0xff) as u8 == b3) by (bit_vector)
        requires
            x == (b0 as u32) | ((b1 as u32) << 8u32) | ((b2 as u32) << 16u32) | ((b3 as u32)
                << 24u32),
    ;
    assert(u32_le_bytes(x) =~= seq![b0, b1, b2, b3]);
}

/// Writes the little-endian bytes of `x` at the end of `out`.
fn push_u32_le(out: &mut Vec<u8>, x: u32)
    ensures
        final(out)@ == old(out)@ + u32_le_bytes(x),
{
    out.push((x & 0xff) as u8);
    out.push(((x >> 8u32) & 0xff) as u8);
    out.push(((x >> 16u32) & 0xff) as u8);
    out.push(((x >> 24u32) & 0xff) as u8);
    assert(final(out)@ =~= old(out)@ + u32_le_bytes(x));
}

fn read_u32_le(b: &[u8], at: usize) -> (r: u32)
    requires
        at + 4 <= b@.len(),
    ensures
        r == le_u32_at(b@, at as int),
{
    (b[at] as u32) | ((b[at + 1] as u32) << 8u32) | ((b[at + 2] as u32) << 16u32) | ((b[at
        + 3] as u32) << 24u32)
}

/// Little-endian bytes of a 32-bit integer, as a vector.
pub fn u32_to_le_vec(x: u32) -> (r: Vec<u8>)
    ensures
        r@ == u32_le_bytes(x),
{
    let mut v: Vec<u8> = Vec::with_capacity(4);
    push_u32_le(&mut v, x);
    assert(v@ =~= u32_le_bytes(x));
    v
}

/// The checksum that a record with sequence number `seq` must carry.
pub open spec fn seq_crc(seq: u32) -> u32 {
    esp_crc32_spec(u32_le_bytes(seq))
}

/// The redundant descriptor that tells the bootloader which firmware slot to boot.
#[derive(Debug, Clone, PartialEq, Eq)]
pub struct EspOTAData {
    /// Strictly increasing number; the slot booted is derived from it.
    pub seq: u32,
    /// Opaque tag of `LABEL_LEN` bytes.
    pub label: Vec<u8>,
    pub state: EspOTAState,
    /// Checksum of the sequence number.
    pub crc: u32,
}

/// A record decodes when its state code is known and its checksum matches its sequence.
pub open spec fn decodable(b: Seq<u8>) -> bool {
    &&& b.len() == RECORD_LEN
    &&& EspOTAState::from_code(le_u32_at(b, 24)) is Some
    &&& le_u32_at(b, 28) == seq_crc(le_u32_at(b, 0))
}

/// `b` is a record with a known state code whose checksum field holds `checksum`.
pub open spec fn record_ok(b: Seq<u8>, checksum: u32) -> bool {
    &&& b.len() == RECORD_LEN
    &&& EspOTAState::from_code(le_u32_at(b, 24)) is Some
    &&& le_u32_at(b, 28) == checksum
}

/// `d` holds the fields that the record `b` stores.
pub open spec fn decodes_to(b: Seq<u8>, d: EspOTAData) -> bool {
    &&& d.seq == le_u32_at(b, 0)
    &&& d.label@ == b.subrange(4, 24)
    &&& EspOTAState::from_code(le_u32_at(b, 24)) == Some(d.state)
    &&& d.crc == le_u32_at(b, 28)
}

impl EspOTAData {
    /// Field lengths are those of the record.
    pub open spec fn wf(&self) -> bool {
        self.label@.len() == LABEL_LEN
    }

    /// The checksum matches the sequence number.
    pub open spec fn crc_ok(&self) -> bool {
        self.crc == seq_crc(self.seq)
    }

    /// The 32 bytes that persist the descriptor with `checksum` in the checksum field.
    pub open spec fn encoding_with(&self, checksum: u32) -> Seq<u8> {
        u32_le_bytes(self.seq) + self.label@ + u32_le_bytes(self.state.code()) + u32_le_bytes(
            checksum,
        )
    }

    /// The 32 bytes that persist the descriptor; the checksum is computed afresh.
    pub open spec fn encoding(&self) -> Seq<u8> {
        self.encoding_with(seq_crc(self.seq))
    }

    /// A fresh descriptor for a newly written image.
    pub fn new(seq: u32, label: Vec<u8>) -> (r: EspOTAData)
        requires
            label@.len() == LABEL_LEN,
        ensures
            r.wf(),
            r.crc_ok(),
            r.seq == seq,
            r.label@ == label@,
            r.state == EspOTAState::New,
    {
        let seq_bytes = u32_to_le_vec(seq);
        let crc = esp_crc32(seq_bytes.as_slice());
        EspOTAData { seq, label, state: EspOTAState::New, crc }
    }

    /// Parses a persisted record. Fails when the length is not `RECORD_LEN`, the state code
    /// is unknown, or the checksum does not match the sequence number.
    pub fn try_from_bytes(bytes: &[u8]) -> (r: Result<EspOTAData, ()>)
        ensures
            r is Ok <==> decodable(bytes@),
            r is Ok ==> decodes_to(bytes@, r->Ok_0) && r->Ok_0.wf() && r->Ok_0.crc_ok(),
    {
        if bytes.len() != RECORD_LEN {
            return Err(());
        }
        let seq_bytes = u32_to_le_vec(read_u32_le(bytes, 0));
        let checksum = esp_crc32(seq_bytes.as_slice());
        EspOTAData::from_bytes_with_checksum(bytes, checksum)
    }

    /// Parses a record against `seq_checksum`, the checksum of its sequence bytes. Fails
    /// when the length is not `RECORD_LEN`, the state code is unknown, or the stored
    /// checksum differs from `seq_checksum`.
    pub fn from_bytes_with_checksum(bytes: &[u8], seq_checksum: u32) -> (r: Result<EspOTAData, ()>)
        ensures
            r is Ok <==> record_ok(bytes@, seq_checksum),
            r is Ok ==> decodes_to(bytes@, r->Ok_0) && r->Ok_0.wf() && r->Ok_0.crc == seq_checksum,
    {
        if bytes.len() != RECORD_LEN {
            return Err(());
        }
        let seq = read_u32_le(bytes, 0);
        let code = read_u32_le(bytes, 24);
        let crc = read_u32_le(bytes, 28);
        let state = match EspOTAState::try_from_u32(code) {
            Ok(s) => s,
            Err(()) => {
                return Err(());
            },
        };
        if crc != seq_checksum {
            return Err(());
        }
        let mut label: Vec<u8> = Vec::with_capacity(LABEL_LEN);
        let mut i: usize = 4;
        while i < 24
            invariant
                4 <= i <= 24,
                bytes@.len() == RECORD_LEN,
                label@ == bytes@.subrange(4, i as int),
            decreases 24 - i,
        {
            label.push(bytes[i]);
            i = i + 1;
            assert(label@ =~= bytes@.subrange(4, i as int));
        }
        Ok(EspOTAData { seq, label, state, crc })
    }

    /// The persisted record; the checksum written is that of the sequence number.
    pub fn to_bytes(&self) -> (r: Vec<u8>)
        requires
            self.wf(),
        ensures
            r@ == self.encoding(),
            r@.len() == RECORD_LEN,
    {
        let seq_bytes = u32_to_le_vec(self.seq);
        let checksum = esp_crc32(seq_bytes.as_slice());
        self.to_bytes_with_checksum(checksum)
    }

    /// The persisted record with `seq_checksum` in the checksum field.
    pub fn to_bytes_with_checksum(&self, seq_checksum: u32) -> (r: Vec<u8>)
        requires
            self.wf(),
        ensures
            r@ == self.encoding_with(seq_checksum),
            r@.len() == RECORD_LEN,
    {
        let mut out: Vec<u8> = Vec::with_capacity(RECORD_LEN);
        push_u32_le(&mut out, self.seq);
        let mut i: usize = 0;
        while i < LABEL_LEN
            invariant
                i <= LABEL_LEN,
                self.label@.len() == LABEL_LEN,
                out@ == u32_le_bytes(self.seq) + self.label@.subrange(0, i as int),
            decreases LABEL_LEN - i,
        {
            out.push(self.label[i]);
            i = i + 1;
            assert(out@ =~= u32_le_bytes(self.seq) + self.label@.subrange(0, i as int));
        }
        assert(self.label@.subrange(0, LABEL_LEN as int) =~= self.label@);
        push_u32_le(&mut out, self.state.to_u32());
        push_u32_le(&mut out, seq_checksum);
        out
    }
}


/// `b` with bit `k` of byte `i` flipped.
pub open spec fn flip_bit(b: Seq<u8>, i: int, k: u8) -> Seq<u8> {
    b.update(i, b[i] ^ (1u8 << k))
}

/// Encoding a well-formed descriptor and decoding the bytes gives back its sequence
/// number, label and state, with the checksum of the sequence number.
pub proof fn lemma_encode_decode(d: EspOTAData, e: EspOTAData)
    requires
        d.wf(),
    ensures
        decodable(d.encoding()),
        decodes_to(d.encoding(), e) <==> (e.seq == d.seq && e.label@ == d.label@ && e.state
            == d.state && e.crc == seq_crc(d.seq)),
{
    let b = d.encoding();
    lemma_le_round_trip(d.seq);
    lemma_le_round_trip(d.state.code());
    lemma_le_round_trip(seq_crc(d.seq));
    assert(b.subrange(0, 4) =~= u32_le_bytes(d.seq));
    assert(b.subrange(4, 24) =~= d.label@);
    assert(b.subrange(24, 28) =~= u32_le_bytes(d.state.code()));
    assert(b.subrange(28, 32) =~= u32_le_bytes(seq_crc(d.seq)));
    assert(le_u32_at(b, 0) == le_u32_at(b.subrange(0, 4), 0));
    assert(le_u32_at(b, 24) == le_u32_at(b.subrange(24, 28), 0));
    assert(le_u32_at(b, 28) == le_u32_at(b.subrange(28, 32), 0));
}

proof fn lemma_flip_changes_byte(x: u8, k: u8)
    requires
        k < 8,
    ensures
        x ^ (1u8 << k) != x,
{
    assert(x ^ (1u8 << k) != x) by (bit_vector)
        requires
            k < 8,
    ;
}

/// Flipping one bit of the sequence or state field of a record that decodes is detected:
/// in the sequence field the record still decodes only if the altered sequence number,
/// which differs from the stored one, has the same checksum; in the state field it still
/// decodes only if the altered code names a state.
pub proof fn lemma_bit_flip_detected(b: Seq<u8>, i: int, k: u8)
    requires
        decodable(b),
        0 <= i < 4 || 24 <= i < 28,
        k < 8,
    ensures
        0 <= i < 4 ==> le_u32_at(flip_bit(b, i, k), 0) != le_u32_at(b, 0),
        0 <= i < 4 ==> (decodable(flip_bit(b, i, k)) <==> seq_crc(le_u32_at(flip_bit(b, i, k), 0))
            == seq_crc(le_u32_at(b, 0))),
        24 <= i < 28 ==> (decodable(flip_bit(b, i, k)) <==> EspOTAState::from_code(
            le_u32_at(flip_bit(b, i, k), 24),
        ) is Some),
{
    let f = flip_bit(b, i, k);
    lemma_flip_changes_byte(b[i], k);
    assert(f.len() == b.len());
    if 0 <= i < 4 {
        assert(le_u32_at(f, 28) == le_u32_at(b, 28));
        assert(le_u32_at(f, 24) == le_u32_at(b, 24));
        lemma_le_bytes_of_read(b[0], b[1], b[2], b[3]);
        lemma_le_bytes_of_read(f[0], f[1], f[2], f[3]);
        if le_u32_at(f, 0) == le_u32_at(b, 0) {
            assert(seq![f[0], f[1], f[2], f[3]][i] == seq![b[0], b[1], b[2], b[3]][i]);
        }
    } else {
        assert(le_u32_at(f, 28) == le_u32_at(b, 28));
        assert(le_u32_at(f, 0) == le_u32_at(b, 0));
    }
}

} // verus!
