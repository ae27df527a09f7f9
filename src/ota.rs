use vstd::prelude::*;

use crate::flash::{same_outside, Flash};
use crate::ota_data::{
    decodable, decodes_to, lemma_le_bytes_of_read, lemma_le_round_trip, le_u32_at, u32_le_bytes,
    EspOTAData, EspOTAState, RECORD_LEN,
};
use crate::ota_store::{
    current_record, lemma_persist_resolves, ota_data_key, ota_data_offset, read_ota_data,
    record_state, write_ota_data, OtaInternalError, SECTOR_SIZE,
};
use crate::partition::{lookup_ok, PartitionEntry};

verus! {

/// `rec` with its state field replaced by `s`.
pub open spec fn with_state(rec: Seq<u8>, s: EspOTAState) -> Seq<u8> {
    rec.subrange(0, 24) + u32_le_bytes(s.code()) + rec.subrange(28, 32)
}

proof fn lemma_encoding_with_state(rec: Seq<u8>, d: EspOTAData, s: EspOTAState)
    requires
        decodable(rec),
        decodes_to(rec, d),
        d.wf(),
        d.crc_ok(),
    ensures
        (EspOTAData { state: s, ..d }).encoding() == with_state(rec, s),
{
    lemma_le_bytes_of_read(rec[0], rec[1], rec[2], rec[3]);
    lemma_le_bytes_of_read(rec[28], rec[29], rec[30], rec[31]);
    assert(rec.subrange(0, 4) =~= seq![rec[0], rec[1], rec[2], rec[3]]);
    assert(rec.subrange(28, 32) =~= seq![rec[28], rec[29], rec[30], rec[31]]);
    assert(d.crc == le_u32_at(rec, 28));
    assert(rec.subrange(0, 24) =~= rec.subrange(0, 4) + rec.subrange(4, 24));
    let e = EspOTAData { state: s, ..d };
    assert(e.encoding() =~= with_state(rec, s));
}

/// Replacing the state keeps a record decodable, with the same sequence number, label and
/// checksum; replacing it twice with the same state is replacing it once.
pub proof fn lemma_with_state(rec: Seq<u8>, s: EspOTAState)
    requires
        decodable(rec),
    ensures
        decodable(with_state(rec, s)),
        le_u32_at(with_state(rec, s), 0) == le_u32_at(rec, 0),
        with_state(rec, s).subrange(4, 24) == rec.subrange(4, 24),
        record_state(with_state(rec, s)) == Some(s),
        with_state(with_state(rec, s), s) == with_state(rec, s),
        with_state(rec, s).len() == RECORD_LEN,
{
    let w = with_state(rec, s);
    lemma_le_round_trip(s.code());
    assert(le_u32_at(w, 24) == le_u32_at(u32_le_bytes(s.code()), 0));
    assert(le_u32_at(w, 0) == le_u32_at(rec, 0));
    assert(le_u32_at(w, 28) == le_u32_at(rec, 28));
    assert(w.subrange(4, 24) =~= rec.subrange(4, 24));
    assert(with_state(w, s) =~= w);
}

/// What holds when an operation on the descriptor store fails: a missing, doubled or
/// out-of-range descriptor partition or an unreadable store changes nothing; a device fault
/// changes at most the two copies, and leaves one that decodes if one did before.
pub open spec fn ota_error_ok(
    table: Seq<PartitionEntry>,
    before: Seq<u8>,
    after: Seq<u8>,
    e: OtaInternalError,
) -> bool {
    match e {
        OtaInternalError::PartitionError(pe) => lookup_ok(table, ota_data_key(), Err(pe))
            && ota_data_offset(table) is None && after == before,
        OtaInternalError::PartitionOutOfRange => ota_data_offset(table) matches Some(base) && base
            + SECTOR_SIZE > u32::MAX && after == before,
        OtaInternalError::OtaDataCorrupt => ota_data_offset(table) matches Some(base)
            && current_record(before, base) is None && after == before,
        OtaInternalError::FlashError(_) => ota_data_offset(table) matches Some(base) && same_outside(
            before,
            after,
            base as int,
            SECTOR_SIZE + RECORD_LEN,
        ) && (current_record(before, base) is Some ==> current_record(after, base) is Some),
        OtaInternalError::SequenceExhausted => false,
    }
}

/// After a successful change of state to `s`, the store resolves to the descriptor that was
/// current before, with state `s`; nothing outside the two copies changed.
pub open spec fn state_set(
    table: Seq<PartitionEntry>,
    before: Seq<u8>,
    after: Seq<u8>,
    s: EspOTAState,
) -> bool {
    ota_data_offset(table) matches Some(base) && current_record(before, base) matches Some(rec)
        && current_record(after, base) == Some(with_state(rec, s)) && same_outside(
        before,
        after,
        base as int,
        SECTOR_SIZE + RECORD_LEN,
    )
}

/// Persists the current descriptor again with state `s`.
fn set_ota_state<F: Flash>(flash: &mut F, table: &[PartitionEntry], s: EspOTAState) -> (r: Result<
    (),
    OtaInternalError,
>)
    ensures
        r is Ok ==> state_set(table@, old(flash).contents(), final(flash).contents(), s),
        r is Err ==> ota_error_ok(table@, old(flash).contents(), final(flash).contents(), r->Err_0),
{
    let mut d = read_ota_data(&*flash, table)?;
    let ghost base = ota_data_offset(table@)->Some_0;
    let ghost rec = current_record(flash.contents(), base)->Some_0;
    proof {
        lemma_encoding_with_state(rec, d, s);
        lemma_with_state(rec, s);
        lemma_persist_resolves(flash.contents(), base, with_state(rec, s));
    }
    d.state = s;
    write_ota_data(flash, table, &d)
}

/// Marks the running image as confirmed working. Must be called after an update to keep
/// the new firmware; may also be called after a reboot without an update.
pub fn ota_accept<F: Flash>(flash: &mut F, table: &[PartitionEntry]) -> (r: Result<
    (),
    OtaInternalError,
>)
    ensures
        r is Ok ==> state_set(table@, old(flash).contents(), final(flash).contents(), EspOTAState::Valid),
        r is Err ==> ota_error_ok(table@, old(flash).contents(), final(flash).contents(), r->Err_0),
{
    set_ota_state(flash, table, EspOTAState::Valid)
}

/// Marks the running image as confirmed broken; it will not be booted again.
pub fn ota_reject<F: Flash>(flash: &mut F, table: &[PartitionEntry]) -> (r: Result<
    (),
    OtaInternalError,
>)
    ensures
        r is Ok ==> state_set(table@, old(flash).contents(), final(flash).contents(), EspOTAState::Invalid),
        r is Err ==> ota_error_ok(table@, old(flash).contents(), final(flash).contents(), r->Err_0),
{
    set_ota_state(flash, table, EspOTAState::Invalid)
}

/// Whether the running image has been accepted: its state is `Valid` or `Undefined`.
pub fn ota_valid<F: Flash>(flash: &F, table: &[PartitionEntry]) -> (r: Result<
    bool,
    OtaInternalError,
>)
    ensures
        r matches Ok(b) ==> (ota_data_offset(table@) matches Some(base) && current_record(
            flash.contents(),
            base,
        ) matches Some(rec) && record_state(rec) matches Some(s) && b == s.is_accepted()),
        r is Err ==> ota_error_ok(table@, flash.contents(), flash.contents(), r->Err_0),
{
    let d = read_ota_data(flash, table)?;
    Ok(d.state.is_accepted_exec())
}

/// Accepting twice resolves to the same descriptor as accepting once: the running
/// descriptor's sequence number and label with state `Valid`.
pub proof fn lemma_accept_idempotent(
    table: Seq<PartitionEntry>,
    f0: Seq<u8>,
    f1: Seq<u8>,
    f2: Seq<u8>,
)
    requires
        state_set(table, f0, f1, EspOTAState::Valid),
        state_set(table, f1, f2, EspOTAState::Valid),
    ensures
        ({
            let base = ota_data_offset(table)->Some_0;
            let rec = current_record(f0, base)->Some_0;
            &&& current_record(f2, base) == current_record(f1, base)
            &&& current_record(f2, base) matches Some(r) && record_state(r) == Some(EspOTAState::Valid)
                && le_u32_at(r, 0) == le_u32_at(rec, 0) && r.subrange(4, 24) == rec.subrange(4, 24)
        }),
{
    let base = ota_data_offset(table)->Some_0;
    let rec = current_record(f0, base)->Some_0;
    assert(decodable(rec));
    lemma_with_state(rec, EspOTAState::Valid);
}

} // verus!
