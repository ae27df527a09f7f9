use vstd::prelude::*;

use crate::flash::{same_outside, write_at, Flash, FlashError};
use crate::ota_data::{
    decodable, decodes_to, lemma_encode_decode, lemma_le_round_trip, le_u32_at, u32_le_bytes,
    EspOTAData, EspOTAState, RECORD_LEN,
};
use crate::partition::{
    find_partition_type, lookup_ok, only_match, PartitionEntry, PartitionKey,
    ReadWritePartitionError, SUBTYPE_APP_OTA_0, SUBTYPE_DATA_OTA, TYPE_APP, TYPE_DATA,
};

verus! {

/// Size of a flash sector; the second descriptor copy starts one sector after the first.
pub const SECTOR_SIZE: u32 = 0x1000;

/// Failures below the update logic: storage, partition table and descriptor faults.
#[derive(Debug, Clone, Copy, PartialEq, Eq, Structural)]
pub enum OtaInternalError {
    /// Neither descriptor copy decodes.
    OtaDataCorrupt,
    /// The flash device failed.
    FlashError(FlashError),
    /// The partition needed could not be resolved.
    PartitionError(ReadWritePartitionError),
    /// The sequence number cannot grow any further.
    SequenceExhausted,
    /// A partition lies so high that an offset inside it does not fit in 32 bits.
    PartitionOutOfRange,
}

/// The lookup key of the descriptor partition.
pub open spec fn ota_data_key() -> PartitionKey<'static> {
    PartitionKey::Type(TYPE_DATA, SUBTYPE_DATA_OTA)
}

/// Offset of the descriptor partition, when the table holds exactly one.
pub open spec fn ota_data_offset(table: Seq<PartitionEntry>) -> Option<u32> {
    if exists|i: int| only_match(table, ota_data_key(), i) {
        Some(table[choose|i: int| only_match(table, ota_data_key(), i)].offset)
    } else {
        None
    }
}

/// Bytes of descriptor copy `k` (0 or 1) in a partition at `base`.
pub open spec fn copy_bytes(flash: Seq<u8>, base: u32, k: int) -> Seq<u8> {
    flash.subrange(base + k * SECTOR_SIZE, base + k * SECTOR_SIZE + RECORD_LEN)
}

/// Which copy holds the current descriptor: the one with the higher sequence number
/// among those that decode (copy 1 on equal numbers); `None` when neither decodes.
pub open spec fn current_copy(c0: Seq<u8>, c1: Seq<u8>) -> Option<int> {
    if decodable(c0) && decodable(c1) {
        if le_u32_at(c0, 0) > le_u32_at(c1, 0) {
            Some(0)
        } else {
            Some(1)
        }
    } else if decodable(c0) {
        Some(0)
    } else if decodable(c1) {
        Some(1)
    } else {
        None
    }
}

/// The copy that a write replaces: the one that is not current (copy 0 when neither is).
pub open spec fn stale_copy(c0: Seq<u8>, c1: Seq<u8>) -> int {
    match current_copy(c0, c1) {
        Some(k) => 1 - k,
        None => 0,
    }
}

/// The resolution rule on two decoded copies.
pub open spec fn newest_spec(c0: Option<EspOTAData>, c1: Option<EspOTAData>) -> Result<
    EspOTAData,
    OtaInternalError,
> {
    match (c0, c1) {
        (Some(d0), Some(d1)) => if d0.seq > d1.seq {
            Ok(d0)
        } else {
            Ok(d1)
        },
        (None, Some(d1)) => Ok(d1),
        (Some(d0), None) => Ok(d0),
        (None, None) => Err(OtaInternalError::OtaDataCorrupt),
    }
}

/// `o` is what decoding `b` gives.
pub open spec fn decoded(b: Seq<u8>, o: Option<EspOTAData>) -> bool {
    &&& (o is Some <==> decodable(b))
    &&& o is Some ==> decodes_to(b, o->Some_0) && o->Some_0.wf() && o->Some_0.crc_ok()
}

/// The descriptor that the store at `base` yields: `d` decodes from the current copy.
pub open spec fn holds_descriptor(flash: Seq<u8>, base: u32, d: EspOTAData) -> bool {
    &&& base + SECTOR_SIZE + RECORD_LEN <= flash.len()
    &&& current_copy(copy_bytes(flash, base, 0), copy_bytes(flash, base, 1)) matches Some(k)
        && decodes_to(copy_bytes(flash, base, k), d)
    &&& d.wf()
    &&& d.crc_ok()
}

/// The record of the current descriptor copy in a store at `base`, if any copy decodes.
pub open spec fn current_record(flash: Seq<u8>, base: u32) -> Option<Seq<u8>> {
    match current_copy(copy_bytes(flash, base, 0), copy_bytes(flash, base, 1)) {
        Some(k) => Some(copy_bytes(flash, base, k)),
        None => None,
    }
}

/// The state stored in a record.
pub open spec fn record_state(rec: Seq<u8>) -> Option<EspOTAState> {
    EspOTAState::from_code(le_u32_at(rec, 24))
}

/// Picks the current descriptor of two decoded copies: the higher sequence number wins,
/// a single copy that decodes wins unconditionally, and none is a corrupt store.
pub fn newest_copy(c0: Option<EspOTAData>, c1: Option<EspOTAData>) -> (r: Result<
    EspOTAData,
    OtaInternalError,
>)
    ensures
        r == newest_spec(c0, c1),
{
    match (c0, c1) {
        (Some(d0), Some(d1)) => {
            if d0.seq > d1.seq {
                Ok(d0)
            } else {
                Ok(d1)
            }
        },
        (None, Some(d1)) => Ok(d1),
        (Some(d0), None) => Ok(d0),
        (None, None) => Err(OtaInternalError::OtaDataCorrupt),
    }
}

proof fn lemma_only_match_unique(table: Seq<PartitionEntry>, key: PartitionKey, i: int, j: int)
    requires
        only_match(table, key, i),
        only_match(table, key, j),
    ensures
        i == j,
{
}

/// Resolves the descriptor partition; its offset is `ota_data_offset(table)`.
pub fn ota_data_part(table: &[PartitionEntry]) -> (r: Result<PartitionEntry, OtaInternalError>)
    ensures
        r is Ok ==> ota_data_offset(table@) == Some(r->Ok_0.offset),
        r is Err ==> (r->Err_0 matches OtaInternalError::PartitionError(e) && lookup_ok(
            table@,
            ota_data_key(),
            Err(e),
        ) && ota_data_offset(table@) is None),
{
    match find_partition_type(table, TYPE_DATA, SUBTYPE_DATA_OTA) {
        Ok(e) => {
            let ghost i = choose|i: int| only_match(table@, ota_data_key(), i);
            proof {
                let w = choose|w: int| only_match(table@, ota_data_key(), w) && #[trigger] table@[w].offset == e.offset;
                assert(only_match(table@, ota_data_key(), i));
                lemma_only_match_unique(table@, ota_data_key(), i, w);
            }
            Ok(e)
        },
        Err(e) => {
            proof {
                if exists|i: int| only_match(table@, ota_data_key(), i) {
                    let i = choose|i: int| only_match(table@, ota_data_key(), i);
                    if e == ReadWritePartitionError::PartitionFoundTwice {
                        let (a, b) = choose|a: int, b: int|
                            0 <= a < b < table@.len() && ota_data_key().matches(
                                #[trigger] table@[a],
                            ) && ota_data_key().matches(#[trigger] table@[b]);
                        assert(a == i || b == i);
                    }
                }
            }
            Err(OtaInternalError::PartitionError(e))
        },
    }
}

/// Resolves the application partition of OTA slot `slot`.
pub fn ota_part(table: &[PartitionEntry], slot: u8) -> (r: Result<PartitionEntry, OtaInternalError>)
    requires
        slot < 16,
    ensures
        r matches Ok(e) ==> lookup_ok(
            table@,
            PartitionKey::Type(TYPE_APP, (SUBTYPE_APP_OTA_0 + slot) as u8),
            Ok(e),
        ),
        r matches Err(e) ==> (e matches OtaInternalError::PartitionError(pe) && lookup_ok(
            table@,
            PartitionKey::Type(TYPE_APP, (SUBTYPE_APP_OTA_0 + slot) as u8),
            Err(pe),
        )),
{
    match find_partition_type(table, TYPE_APP, SUBTYPE_APP_OTA_0 + slot) {
        Ok(e) => Ok(e),
        Err(e) => Err(OtaInternalError::PartitionError(e)),
    }
}

/// Reads the raw bytes of both descriptor copies in a partition at `base`. A partition so
/// high that its second copy's offset does not fit in 32 bits is `PartitionOutOfRange`.
fn read_copies<F: Flash>(flash: &F, base: u32) -> (r: Result<(Vec<u8>, Vec<u8>), OtaInternalError>)
    ensures
        base + SECTOR_SIZE > u32::MAX <==> r == Err::<(Vec<u8>, Vec<u8>), OtaInternalError>(
            OtaInternalError::PartitionOutOfRange,
        ),
        r is Ok ==> base + SECTOR_SIZE + RECORD_LEN <= flash.contents().len(),
        r is Ok ==> r->Ok_0.0@ == copy_bytes(flash.contents(), base, 0) && r->Ok_0.1@ == copy_bytes(
            flash.contents(),
            base,
            1,
        ),
        r is Err ==> r->Err_0 is FlashError || r->Err_0 is PartitionOutOfRange,
{
    let second = match base.checked_add(SECTOR_SIZE) {
        Some(o) => o,
        None => {
            return Err(OtaInternalError::PartitionOutOfRange);
        },
    };
    let b0 = match flash.read(base, RECORD_LEN) {
        Ok(b) => b,
        Err(e) => {
            return Err(OtaInternalError::FlashError(e));
        },
    };
    let b1 = match flash.read(second, RECORD_LEN) {
        Ok(b) => b,
        Err(e) => {
            return Err(OtaInternalError::FlashError(e));
        },
    };
    Ok((b0, b1))
}

fn decode_copy(b: &[u8]) -> (r: Option<EspOTAData>)
    ensures
        decoded(b@, r),
{
    match EspOTAData::try_from_bytes(b) {
        Ok(d) => Some(d),
        Err(()) => None,
    }
}

/// The current descriptor of two stored copies: of the copies that decode, the one with
/// the higher sequence number (the second on equal numbers); a single copy that decodes
/// wins unconditionally; none is `OtaDataCorrupt`.
pub fn descriptor_from_copies(c0: &[u8], c1: &[u8]) -> (r: Result<EspOTAData, OtaInternalError>)
    ensures
        r is Ok <==> current_copy(c0@, c1@) is Some,
        r matches Ok(d) ==> (current_copy(c0@, c1@) matches Some(k) && decodes_to(
            if k == 0 {
                c0@
            } else {
                c1@
            },
            d,
        ) && d.wf() && d.crc_ok()),
        r is Err ==> r->Err_0 == OtaInternalError::OtaDataCorrupt,
{
    newest_copy(decode_copy(c0), decode_copy(c1))
}

/// The copy (0 or 1) that a write replaces first: the one that is not current, or copy 0
/// when neither decodes.
pub fn stale_sector(c0: &[u8], c1: &[u8]) -> (r: u32)
    ensures
        r == stale_copy(c0@, c1@),
{
    match (decode_copy(c0), decode_copy(c1)) {
        (Some(a), Some(b)) => {
            if a.seq > b.seq {
                1
            } else {
                0
            }
        },
        (None, Some(_)) => 0,
        (Some(_), None) => 1,
        (None, None) => 0,
    }
}

/// Whether copy 1 must be rewritten after a record with sequence number `seq` went over
/// copy 0: copy 1 decodes with the same number, so it would still win the tie.
pub open spec fn rewrite_second(c0: Seq<u8>, c1: Seq<u8>, seq: u32) -> bool {
    stale_copy(c0, c1) == 0 && decodable(c1) && le_u32_at(c1, 0) == seq
}

/// Whether copy 1 must be rewritten after a record with sequence number `seq` went over
/// copy 0 (see `rewrite_second`).
pub fn needs_second_write(c0: &[u8], c1: &[u8], seq: u32) -> (r: bool)
    ensures
        r == rewrite_second(c0@, c1@, seq),
{
    if stale_sector(c0, c1) != 0 {
        return false;
    }
    match decode_copy(c1) {
        Some(d1) => d1.seq == seq,
        None => false,
    }
}

/// The flash after `rec` is persisted in the store at `base`: it goes over the stale copy
/// and, when copy 1 would still win the tie, over copy 1 as well.
pub open spec fn persist_spec(flash: Seq<u8>, base: u32, rec: Seq<u8>) -> Seq<u8> {
    let c0 = copy_bytes(flash, base, 0);
    let c1 = copy_bytes(flash, base, 1);
    let mid = write_at(flash, base + stale_copy(c0, c1) * SECTOR_SIZE, rec);
    if rewrite_second(c0, c1, le_u32_at(rec, 0)) {
        write_at(mid, base + SECTOR_SIZE, rec)
    } else {
        mid
    }
}

pub proof fn lemma_copy_of_write(f: Seq<u8>, base: u32, k: int, rec: Seq<u8>)
    requires
        rec.len() == RECORD_LEN,
        base + SECTOR_SIZE + RECORD_LEN <= f.len(),
        k == 0 || k == 1,
    ensures
        write_at(f, base + k * SECTOR_SIZE, rec).len() == f.len(),
        copy_bytes(write_at(f, base + k * SECTOR_SIZE, rec), base, k) == rec,
        copy_bytes(write_at(f, base + k * SECTOR_SIZE, rec), base, 1 - k) == copy_bytes(
            f,
            base,
            1 - k,
        ),
{
    let g = write_at(f, base + k * SECTOR_SIZE, rec);
    assert(copy_bytes(g, base, k) =~= rec);
    assert(copy_bytes(g, base, 1 - k) =~= copy_bytes(f, base, 1 - k));
}

/// Persisting a record that decodes, and whose sequence number is at least that of the
/// current descriptor, makes it the descriptor that a read resolves; only the two copies
/// change.
pub proof fn lemma_persist_resolves(flash: Seq<u8>, base: u32, rec: Seq<u8>)
    requires
        decodable(rec),
        base + SECTOR_SIZE + RECORD_LEN <= flash.len(),
        current_record(flash, base) matches Some(cur) ==> le_u32_at(cur, 0) <= le_u32_at(rec, 0),
    ensures
        current_record(persist_spec(flash, base, rec), base) == Some(rec),
        same_outside(flash, persist_spec(flash, base, rec), base as int, SECTOR_SIZE + RECORD_LEN),
{
    let c0 = copy_bytes(flash, base, 0);
    let c1 = copy_bytes(flash, base, 1);
    let k = stale_copy(c0, c1);
    lemma_copy_of_write(flash, base, k, rec);
    let mid = write_at(flash, base + k * SECTOR_SIZE, rec);
    if rewrite_second(c0, c1, le_u32_at(rec, 0)) {
        lemma_copy_of_write(mid, base, 1, rec);
        let f2 = write_at(mid, base + 1 * SECTOR_SIZE, rec);
        assert(copy_bytes(f2, base, 0) == rec);
        assert(copy_bytes(f2, base, 1) == rec);
        assert(current_copy(rec, rec) == Some(1int));
    } else {
        assert(copy_bytes(mid, base, k) == rec);
        assert(copy_bytes(mid, base, 1 - k) == copy_bytes(flash, base, 1 - k));
    }
}

/// The current descriptor of two stored copies resolves to the descriptor read.
proof fn lemma_current_of_copies(flash: Seq<u8>, base: u32, d: EspOTAData)
    requires
        base + SECTOR_SIZE + RECORD_LEN <= flash.len(),
        current_copy(copy_bytes(flash, base, 0), copy_bytes(flash, base, 1)) matches Some(k)
            && decodes_to(copy_bytes(flash, base, k), d),
    ensures
        current_record(flash, base) matches Some(rec) && decodes_to(rec, d) && decodable(rec),
{
}

/// Reads the current descriptor: of the two copies that decode, the one with the higher
/// sequence number; a single copy that decodes wins; none is `OtaDataCorrupt`.
pub fn read_ota_data<F: Flash>(flash: &F, table: &[PartitionEntry]) -> (r: Result<
    EspOTAData,
    OtaInternalError,
>)
    ensures
        r matches Ok(d) ==> (ota_data_offset(table@) matches Some(base) && holds_descriptor(
            flash.contents(),
            base,
            d,
        )),
        ota_data_offset(table@) is None <==> r matches Err(OtaInternalError::PartitionError(_)),
        r matches Err(OtaInternalError::PartitionError(e)) ==> lookup_ok(
            table@,
            ota_data_key(),
            Err(e),
        ),
        (ota_data_offset(table@) matches Some(base) && base + SECTOR_SIZE > u32::MAX) <==> r
            == Err::<EspOTAData, OtaInternalError>(OtaInternalError::PartitionOutOfRange),
        r == Err::<EspOTAData, OtaInternalError>(OtaInternalError::OtaDataCorrupt) ==> (ota_data_offset(
            table@,
        ) matches Some(base) && base + SECTOR_SIZE + RECORD_LEN <= flash.contents().len()
            && current_record(flash.contents(), base) is None),
        r matches Err(OtaInternalError::FlashError(_)) ==> (ota_data_offset(table@) matches Some(base)
            && base + SECTOR_SIZE <= u32::MAX),
        r != Err::<EspOTAData, OtaInternalError>(OtaInternalError::SequenceExhausted),
{
    let part = ota_data_part(table)?;
    let (b0, b1) = read_copies(flash, part.offset)?;
    let r = descriptor_from_copies(b0.as_slice(), b1.as_slice());
    proof {
        if r is Ok {
            lemma_current_of_copies(flash.contents(), part.offset, r->Ok_0);
        }
    }
    r
}

/// Persists `data` so that a read afterwards resolves to it. The record goes over the
/// stale copy first, leaving the current copy untouched; when the copy left would still
/// win (copy 1 with the same sequence number, as when only the state changes), copy 1 is
/// then written too, while copy 0 already holds the new record. A power loss at any point
/// leaves a copy that decodes.
pub fn write_ota_data<F: Flash>(flash: &mut F, table: &[PartitionEntry], data: &EspOTAData) -> (r:
    Result<(), OtaInternalError>)
    requires
        data.wf(),
    ensures
        ota_data_offset(table@) is None <==> r matches Err(OtaInternalError::PartitionError(_)),
        r matches Err(OtaInternalError::PartitionError(e)) ==> lookup_ok(
            table@,
            ota_data_key(),
            Err(e),
        ),
        (ota_data_offset(table@) matches Some(base) && base + SECTOR_SIZE > u32::MAX) <==> r
            == Err::<(), OtaInternalError>(OtaInternalError::PartitionOutOfRange),
        r is Ok ==> (ota_data_offset(table@) matches Some(base) && base + SECTOR_SIZE + RECORD_LEN
            <= old(flash).contents().len() && final(flash).contents() == persist_spec(
            old(flash).contents(),
            base,
            data.encoding(),
        )),
        r matches Err(OtaInternalError::FlashError(_)) ==> (ota_data_offset(table@) matches Some(base)
            && same_outside(
            old(flash).contents(),
            final(flash).contents(),
            base as int,
            SECTOR_SIZE + RECORD_LEN,
        ) && (current_record(old(flash).contents(), base) is Some ==> current_record(
            final(flash).contents(),
            base,
        ) is Some)),
        r is Err ==> r->Err_0 is PartitionError || r->Err_0 is PartitionOutOfRange
            || r->Err_0 is FlashError,
        r is Err && !(r->Err_0 is FlashError) ==> final(flash).contents() == old(flash).contents(),
{
    let part = match ota_data_part(table) {
        Ok(p) => p,
        Err(e) => {
            return Err(e);
        },
    };
    let (b0, b1) = match read_copies(flash, part.offset) {
        Ok(p) => p,
        Err(e) => {
            return Err(e);
        },
    };
    let ghost f0 = flash.contents();
    let ghost base = part.offset;
    let bytes = data.to_bytes();
    proof {
        lemma_encode_decode(*data, *data);
        lemma_le_round_trip(data.seq);
        assert(le_u32_at(bytes@, 0) == le_u32_at(bytes@.subrange(0, 4), 0));
        assert(bytes@.subrange(0, 4) =~= u32_le_bytes(data.seq));
    }
    let sector = stale_sector(b0.as_slice(), b1.as_slice());
    let second = needs_second_write(b0.as_slice(), b1.as_slice(), data.seq);
    match flash.write(part.offset + sector * SECTOR_SIZE, bytes.as_slice()) {
        Ok(()) => {},
        Err(e) => {
            proof {
                if current_record(f0, base) is Some {
                    lemma_interrupted_write_keeps_a_copy(f0, flash.contents(), base);
                }
            }
            return Err(OtaInternalError::FlashError(e));
        },
    }
    let ghost mid = flash.contents();
    proof {
        lemma_copy_of_write(f0, base, sector as int, bytes@);
    }
    if second {
        match flash.write(part.offset + SECTOR_SIZE, bytes.as_slice()) {
            Ok(()) => {},
            Err(e) => {
                proof {
                    assert(copy_bytes(flash.contents(), base, 0) =~= copy_bytes(mid, base, 0));
                    assert(copy_bytes(mid, base, 0) == bytes@);
                }
                return Err(OtaInternalError::FlashError(e));
            },
        }
    }
    Ok(())
}

/// A write that stops part way, as on a power loss, changes at most the stale copy; the
/// copy that was current still decodes, so the store still yields a descriptor, and one
/// whose sequence number is at least that of the copy kept.
pub proof fn lemma_interrupted_write_keeps_a_copy(before: Seq<u8>, after: Seq<u8>, base: u32)
    requires
        current_copy(copy_bytes(before, base, 0), copy_bytes(before, base, 1)) is Some,
        base + SECTOR_SIZE + RECORD_LEN <= before.len(),
        same_outside(
            before,
            after,
            base + stale_copy(copy_bytes(before, base, 0), copy_bytes(before, base, 1))
                * SECTOR_SIZE,
            RECORD_LEN as int,
        ),
    ensures
        ({
            let k = current_copy(copy_bytes(before, base, 0), copy_bytes(before, base, 1))->Some_0;
            &&& copy_bytes(after, base, k) == copy_bytes(before, base, k)
            &&& current_copy(copy_bytes(after, base, 0), copy_bytes(after, base, 1)) matches Some(j)
                && le_u32_at(copy_bytes(after, base, j), 0) >= le_u32_at(copy_bytes(before, base, k), 0)
        }),
{
    let k = current_copy(copy_bytes(before, base, 0), copy_bytes(before, base, 1))->Some_0;
    let kept = copy_bytes(before, base, k);
    assert(copy_bytes(after, base, k) =~= kept);
}

} // verus!
