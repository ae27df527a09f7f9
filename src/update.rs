use vstd::prelude::*;

use crate::flash::{same_outside, write_at, Flash};
use crate::ota::ota_error_ok;
use crate::ota_data::{le_u32_at, seq_crc, u32_le_bytes, EspOTAData, EspOTAState, LABEL_LEN};
use crate::ota_store::{
    current_record, lemma_persist_resolves, ota_data_offset, ota_part, persist_spec,
    read_ota_data, record_state, write_ota_data, OtaInternalError, SECTOR_SIZE,
};
use crate::partition::{
    no_match, only_match, PartitionEntry, PartitionKey, ReadWritePartitionError,
    SUBTYPE_APP_OTA_0, TYPE_APP,
};

verus! {

/// Bytes programmed per flash write: one erase/program unit.
pub const CHUNK_SIZE: usize = 0x1000;

/// Number of firmware slots.
pub const SLOT_COUNT: u32 = 2;

/// Errors that end an OTA update.
#[derive(Debug, Clone, Copy, PartialEq, Eq)]
pub enum OtaError<T> {
    /// The image source failed; its error is passed on unchanged.
    ReadError(T),
    /// The running image has not been confirmed yet, so it may not seed an update.
    PendingVerify,
    /// The image does not fit in the destination slot.
    OutOfSpace,
    /// Another update is in flight.
    AlreadyUpdating,
    /// Descriptor, partition table or flash failure.
    InternalError(OtaInternalError),
}

/// The name under which callers of the update manager know its errors.
pub type OtaUpdateError<T> = OtaError<T>;

/// The application context shared by the tasks that may start an update; it holds the
/// flag that marks an update in flight.
pub struct OtaContext {
    pub updating: bool,
}

impl OtaContext {
    pub fn new() -> (r: OtaContext)
        ensures
            !r.updating,
    {
        OtaContext { updating: false }
    }

    pub fn is_updating(&self) -> (r: bool)
        ensures
            r == self.updating,
    {
        self.updating
    }
}

/// An update in flight: where the image goes, what has been programmed, and the bytes
/// received that do not yet fill a chunk.
pub struct UpdateSession {
    /// Flash offset of the destination slot.
    pub target_offset: u32,
    /// Size of the destination slot.
    pub target_size: u32,
    /// Sequence number of the descriptor that will publish the image.
    pub new_seq: u32,
    /// Bytes programmed so far, from the start of the slot.
    pub written: u32,
    /// Received bytes not yet programmed; always less than a chunk.
    pub buffer: Vec<u8>,
}

impl UpdateSession {
    pub open spec fn wf(&self) -> bool {
        &&& self.buffer@.len() < CHUNK_SIZE
        &&& self.written <= self.target_size
        &&& self.target_offset + self.target_size <= u32::MAX
    }

    /// Same destination and sequence number.
    pub open spec fn same_target(&self, o: UpdateSession) -> bool {
        &&& self.target_offset == o.target_offset
        &&& self.target_size == o.target_size
        &&& self.new_seq == o.new_seq
    }
}

/// The lookup key of the firmware slot that a descriptor with sequence `seq` boots.
pub open spec fn slot_key(seq: u32) -> PartitionKey<'static> {
    PartitionKey::Type(TYPE_APP, (SUBTYPE_APP_OTA_0 + seq % SLOT_COUNT) as u8)
}

/// The record that publishes a freshly written image with sequence number `seq`.
pub open spec fn fresh_record(seq: u32) -> Seq<u8> {
    u32_le_bytes(seq) + Seq::new(LABEL_LEN as nat, |i: int| 0xffu8) + u32_le_bytes(
        EspOTAState::New.code(),
    ) + u32_le_bytes(seq_crc(seq))
}

/// `after` holds `data` at `at` and agrees with `before` everywhere else.
pub open spec fn image_written(before: Seq<u8>, after: Seq<u8>, at: int, data: Seq<u8>) -> bool {
    &&& same_outside(before, after, at, data.len() as int)
    &&& forall|i: int| at <= i < at + data.len() ==> #[trigger] after[i] == data[i - at]
}

/// The current descriptor names a state that may not seed an update.
pub open spec fn running_unconfirmed(table: Seq<PartitionEntry>, flash: Seq<u8>) -> bool {
    ota_data_offset(table) matches Some(base) && (base + SECTOR_SIZE <= u32::MAX && (current_record(
        flash,
        base,
    ) matches Some(rec) && record_state(rec) matches Some(st) && !st.is_accepted()))
}

/// The slot partition that a descriptor with sequence `seq` boots, when the table holds
/// exactly one.
pub open spec fn slot_of(table: Seq<PartitionEntry>, seq: u32) -> Option<PartitionEntry> {
    if exists|i: int| only_match(table, slot_key(seq), i) {
        Some(table[choose|i: int| only_match(table, slot_key(seq), i)])
    } else {
        None
    }
}

/// What starting an update decides from the running descriptor's sequence number and
/// state: the destination's offset and size, or why the update is refused.
pub open spec fn begin_decision<T>(table: Seq<PartitionEntry>, seq: u32, state: EspOTAState) -> Result<
    (u32, u32),
    OtaError<T>,
> {
    if !state.is_accepted() {
        Err(OtaError::PendingVerify)
    } else if seq == u32::MAX {
        Err(OtaError::InternalError(OtaInternalError::SequenceExhausted))
    } else {
        match slot_of(table, (seq + 1) as u32) {
            None => Err(
                OtaError::InternalError(
                    OtaInternalError::PartitionError(
                        if no_match(table, slot_key((seq + 1) as u32)) {
                            ReadWritePartitionError::PartitionNotFound
                        } else {
                            ReadWritePartitionError::PartitionFoundTwice
                        },
                    ),
                ),
            ),
            Some(e) => if e.offset + e.size > u32::MAX {
                Err(OtaError::InternalError(OtaInternalError::PartitionOutOfRange))
            } else {
                Ok((e.offset, e.size))
            },
        }
    }
}

/// `r` is the outcome `dec` for an update that will publish sequence number `seq + 1`.
pub open spec fn begin_matches<T>(
    r: Result<UpdateSession, OtaError<T>>,
    dec: Result<(u32, u32), OtaError<T>>,
    seq: u32,
) -> bool {
    match dec {
        Ok((offset, size)) => r matches Ok(s) && s.wf() && s.target_offset == offset
            && s.target_size == size && s.new_seq == seq + 1 && s.written == 0
            && s.buffer@.len() == 0,
        Err(e) => r == Err::<UpdateSession, OtaError<T>>(e),
    }
}

proof fn lemma_slot_unique(table: Seq<PartitionEntry>, key: PartitionKey, i: int, j: int)
    requires
        only_match(table, key, i),
        only_match(table, key, j),
    ensures
        i == j,
{
}

/// Decides, from the running descriptor `d`, whether an update may start and where it
/// goes: `AlreadyUpdating` while another is in flight; `PendingVerify` exactly when the
/// running image is unconfirmed; `SequenceExhausted` when the sequence number cannot grow;
/// otherwise the slot of the next sequence number, when the table holds exactly one and it
/// lies in range. On success the context is marked as updating.
pub fn begin_from_descriptor<T>(ctx: &mut OtaContext, d: &EspOTAData, table: &[PartitionEntry]) -> (r:
    Result<UpdateSession, OtaError<T>>)
    ensures
        old(ctx).updating ==> (r matches Err(OtaError::AlreadyUpdating) && final(ctx).updating),
        !old(ctx).updating ==> (final(ctx).updating <==> r is Ok),
        !old(ctx).updating ==> begin_matches(r, begin_decision(table@, d.seq, d.state), d.seq),
        !old(ctx).updating ==> (r matches Err(OtaError::PendingVerify) <==> !d.state.is_accepted()),
        !old(ctx).updating ==> (r matches Err(
            OtaError::InternalError(OtaInternalError::SequenceExhausted),
        ) <==> (d.state.is_accepted() && d.seq == u32::MAX)),
{
    if ctx.updating {
        return Err(OtaError::AlreadyUpdating);
    }
    if !d.state.is_accepted_exec() {
        return Err(OtaError::PendingVerify);
    }
    if d.seq == u32::MAX {
        return Err(OtaError::InternalError(OtaInternalError::SequenceExhausted));
    }
    let new_seq = d.seq + 1;
    let ghost key = slot_key(new_seq);
    let part = match ota_part(table, (new_seq % SLOT_COUNT) as u8) {
        Ok(p) => p,
        Err(e) => {
            proof {
                if exists|i: int| only_match(table@, key, i) {
                    let i = choose|i: int| only_match(table@, key, i);
                    if !no_match(table@, key) {
                        let (a, b) = choose|a: int, b: int|
                            0 <= a < b < table@.len() && key.matches(#[trigger] table@[a])
                                && key.matches(#[trigger] table@[b]);
                        assert(a == i || b == i);
                    } else {
                        assert(!key.matches(table@[i]));
                    }
                }
            }
            return Err(OtaError::InternalError(e));
        },
    };
    proof {
        let i = choose|i: int| only_match(table@, key, i);
        let w = choose|w: int| only_match(table@, key, w) && crate::partition::same_entry(part, #[trigger] table@[w]);
        lemma_slot_unique(table@, key, i, w);
    }
    if part.offset > u32::MAX - part.size {
        return Err(OtaError::InternalError(OtaInternalError::PartitionOutOfRange));
    }
    ctx.updating = true;
    Ok(UpdateSession {
        target_offset: part.offset,
        target_size: part.size,
        new_seq,
        written: 0,
        buffer: Vec::new(),
    })
}

/// Starts an update: `AlreadyUpdating` while another is in flight; otherwise reads the
/// running descriptor and decides with `begin_from_descriptor`. A failed read is reported
/// as `InternalError`. Nothing is written to flash.
pub fn ota_begin<F: Flash, T>(ctx: &mut OtaContext, flash: &F, table: &[PartitionEntry]) -> (r:
    Result<UpdateSession, OtaError<T>>)
    ensures
        old(ctx).updating ==> (r matches Err(OtaError::AlreadyUpdating) && final(ctx).updating),
        !old(ctx).updating ==> (final(ctx).updating <==> r is Ok),
        !old(ctx).updating ==> ((r matches Err(OtaError::InternalError(e)) && ota_error_ok(
            table@,
            flash.contents(),
            flash.contents(),
            e,
        )) || (ota_data_offset(table@) matches Some(base) && current_record(
            flash.contents(),
            base,
        ) matches Some(rec) && record_state(rec) matches Some(st) && begin_matches(
            r,
            begin_decision(table@, le_u32_at(rec, 0), st),
            le_u32_at(rec, 0),
        ))),
        !old(ctx).updating && ota_data_offset(table@) is None ==> r matches Err(
            OtaError::InternalError(OtaInternalError::PartitionError(_)),
        ),
        !old(ctx).updating && running_unconfirmed(table@, flash.contents()) ==> (r matches Err(
            OtaError::PendingVerify,
        ) || r matches Err(OtaError::InternalError(OtaInternalError::FlashError(_)))),
        !old(ctx).updating && (ota_data_offset(table@) matches Some(base) && base + SECTOR_SIZE
            <= u32::MAX && current_record(flash.contents(), base) is None)
            ==> (r matches Err(OtaError::InternalError(OtaInternalError::OtaDataCorrupt))
            || r matches Err(OtaError::InternalError(OtaInternalError::FlashError(_)))),
{
    if ctx.updating {
        return Err(OtaError::AlreadyUpdating);
    }
    let d = match read_ota_data(flash, table) {
        Ok(d) => d,
        Err(e) => {
            return Err(OtaError::InternalError(e));
        },
    };
    begin_from_descriptor(ctx, &d, table)
}

proof fn lemma_image_extend(f0: Seq<u8>, f1: Seq<u8>, at: int, x: Seq<u8>, y: Seq<u8>)
    requires
        image_written(f0, f1, at, x),
        0 <= at,
        at + x.len() + y.len() <= f1.len(),
    ensures
        image_written(f0, write_at(f1, at + x.len(), y), at, x + y),
{
    let f2 = write_at(f1, at + x.len(), y);
    assert forall|i: int| at <= i < at + (x + y).len() implies #[trigger] f2[i] == (x + y)[i - at] by {
        if i < at + x.len() {
            assert(f2[i] == f1[i]);
        } else {
            assert(f2[i] == y[i - at - x.len()]);
        }
    }
}

/// Programs the full buffer of the session as the next chunk, after checking that it fits.
fn flush_chunk<F: Flash, T>(ctx: &mut OtaContext, session: &mut UpdateSession, flash: &mut F) -> (r:
    Result<(), OtaError<T>>)
    requires
        old(session).buffer@.len() <= CHUNK_SIZE,
        old(session).written <= old(session).target_size,
        old(session).target_offset + old(session).target_size <= u32::MAX,
    ensures
        final(session).same_target(*old(session)),
        r is Ok ==> {
            &&& final(session).written == old(session).written + old(session).buffer@.len()
            &&& final(session).written <= final(session).target_size
            &&& final(session).buffer@.len() == 0
            &&& final(flash).contents() == write_at(
                old(flash).contents(),
                old(session).target_offset + old(session).written,
                old(session).buffer@,
            )
            &&& old(session).target_offset + old(session).written + old(session).buffer@.len()
                <= old(flash).contents().len()
            &&& final(ctx).updating == old(ctx).updating
        },
        old(session).written + old(session).buffer@.len() > old(session).target_size <==> (r matches Err(
            OtaError::OutOfSpace,
        )),
        r matches Err(OtaError::OutOfSpace) ==> final(flash).contents() == old(flash).contents(),
        r matches Err(OtaError::InternalError(e)) ==> {
            &&& e is FlashError
            &&& old(session).written + old(session).buffer@.len() <= old(session).target_size
            &&& same_outside(
                old(flash).contents(),
                final(flash).contents(),
                old(session).target_offset + old(session).written,
                old(session).buffer@.len() as int,
            )
        },
        r is Err ==> (r->Err_0 is OutOfSpace || r->Err_0 is InternalError) && !final(ctx).updating
            && final(session).written == old(session).written,
{
    let len = session.buffer.len();
    if len as u32 > session.target_size - session.written {
        ctx.updating = false;
        return Err(OtaError::OutOfSpace);
    }
    let offset = session.target_offset + session.written;
    match flash.write(offset, session.buffer.as_slice()) {
        Ok(()) => {},
        Err(e) => {
            ctx.updating = false;
            return Err(OtaError::InternalError(OtaInternalError::FlashError(e)));
        },
    }
    session.written = session.written + len as u32;
    session.buffer = Vec::new();
    Ok(())
}

/// Takes the next bytes of the image. Bytes are gathered into chunks of `CHUNK_SIZE`, and
/// each full chunk is programmed at the next offset of the slot, after checking that it
/// fits; a chunk that would not fit is not written and ends the update with `OutOfSpace`.
/// Any failure clears the update flag.
pub fn ota_write<F: Flash, T>(
    ctx: &mut OtaContext,
    session: &mut UpdateSession,
    flash: &mut F,
    bytes: &[u8],
) -> (r: Result<(), OtaError<T>>)
    requires
        old(ctx).updating,
        old(session).wf(),
    ensures
        final(session).same_target(*old(session)),
        final(session).written >= old(session).written,
        ({
            let stream = old(session).buffer@ + bytes@;
            let n = final(session).written - old(session).written;
            let at = old(session).target_offset + old(session).written;
            &&& n % (CHUNK_SIZE as int) == 0
            &&& stream.len() < CHUNK_SIZE ==> r is Ok
            &&& r is Ok ==> {
                &&& final(session).wf()
                &&& final(ctx).updating
                &&& n + final(session).buffer@.len() == stream.len()
                &&& final(session).buffer@ == stream.subrange(n, stream.len() as int)
                &&& image_written(old(flash).contents(), final(flash).contents(), at, stream.subrange(0, n))
            }
            &&& r matches Err(OtaError::OutOfSpace) ==> {
                &&& final(session).written + CHUNK_SIZE > final(session).target_size
                &&& n + CHUNK_SIZE <= stream.len()
                &&& image_written(old(flash).contents(), final(flash).contents(), at, stream.subrange(0, n))
            }
            &&& r matches Err(OtaError::InternalError(_)) ==> n + CHUNK_SIZE <= stream.len()
                && old(session).written + n + CHUNK_SIZE <= old(session).target_size
            &&& r matches Err(OtaError::InternalError(e)) ==> e is FlashError && same_outside(
                old(flash).contents(),
                final(flash).contents(),
                at,
                n + CHUNK_SIZE,
            )
            &&& r is Err ==> (r->Err_0 is OutOfSpace || r->Err_0 is InternalError) && !final(ctx).updating
            &&& old(session).written + stream.len() <= old(session).target_size ==> !(r matches Err(OtaError::OutOfSpace))
        }),
{
    let ghost s0 = *session;
    let ghost f0 = flash.contents();
    let ghost stream = s0.buffer@ + bytes@;
    let ghost at = s0.target_offset + s0.written;
    let mut i: usize = 0;
    while i < bytes.len()
        invariant
            i <= bytes@.len(),
            s0 == *old(session),
            f0 == old(flash).contents(),
            stream == s0.buffer@ + bytes@,
            at == s0.target_offset + s0.written,
            session.same_target(s0),
            session.wf(),
            ctx.updating,
            session.written >= s0.written,
            (session.written - s0.written) % (CHUNK_SIZE as int) == 0,
            session.written - s0.written + session.buffer@.len() == s0.buffer@.len() + i,
            session.buffer@ == stream.subrange(session.written - s0.written, s0.buffer@.len() + i),
            image_written(f0, flash.contents(), at, stream.subrange(0, session.written - s0.written)),
        decreases bytes@.len() - i,
    {
        session.buffer.push(bytes[i]);
        i = i + 1;
        let ghost n = session.written - s0.written;
        assert(session.buffer@ =~= stream.subrange(n, s0.buffer@.len() + i));
        if session.buffer.len() == CHUNK_SIZE {
            let ghost f1 = flash.contents();
            let ghost chunk = session.buffer@;
            assert(session.same_target(s0));
            assert(session.written >= s0.written);
            let res = flush_chunk(ctx, session, flash);
            match res {
                Ok(()) => {},
                Err(e) => {
                    proof {
                        if e is InternalError {
                            assert forall|j: int| 0 <= j < f0.len() && !(at <= j < at + n + CHUNK_SIZE) implies f0[j] == flash.contents()[j] by {
                                assert(f1[j] == f0[j]);
                            }
                        }
                    }
                    return Err(e);
                },
            }
            proof {
                lemma_image_extend(f0, f1, at, stream.subrange(0, n), chunk);
                assert(stream.subrange(0, n) + chunk =~= stream.subrange(0, n + CHUNK_SIZE));
            }
        }
    }
    assert(stream.len() == s0.buffer@.len() + bytes@.len());
    Ok(())
}

/// Ends the update after the source is exhausted: programs the remaining bytes, after
/// checking that they fit, then publishes a descriptor with the new sequence number and
/// state `New` over the stale copy. The publish comes only after the whole image is
/// written. The update flag is cleared on every path.
pub fn ota_finish<F: Flash, T>(
    ctx: &mut OtaContext,
    session: UpdateSession,
    flash: &mut F,
    table: &[PartitionEntry],
) -> (r: Result<(), OtaError<T>>)
    requires
        old(ctx).updating,
        session.wf(),
    ensures
        !final(ctx).updating,
        ({
            let tail_at = session.target_offset + session.written;
            let mid = write_at(old(flash).contents(), tail_at, session.buffer@);
            &&& r is Ok ==> {
                &&& session.written + session.buffer@.len() <= session.target_size
                &&& tail_at + session.buffer@.len() <= old(flash).contents().len()
                &&& ota_data_offset(table@) matches Some(base)
                &&& base + SECTOR_SIZE + 32 <= mid.len()
                &&& final(flash).contents() == persist_spec(mid, base, fresh_record(session.new_seq))
                &&& (current_record(mid, base) matches Some(c) ==> le_u32_at(c, 0) <= session.new_seq)
                    ==> current_record(final(flash).contents(), base) == Some(fresh_record(session.new_seq))
            }
            &&& (session.written + session.buffer@.len() > session.target_size <==> (r matches Err(
                OtaError::OutOfSpace,
            )))
            &&& r matches Err(OtaError::OutOfSpace) ==> final(flash).contents() == old(flash).contents()
            &&& r matches Err(OtaError::InternalError(e)) ==> (e is FlashError
                && session.written + session.buffer@.len() <= session.target_size && same_outside(
                old(flash).contents(),
                final(flash).contents(),
                tail_at,
                session.buffer@.len() as int,
            )) || (tail_at + session.buffer@.len() <= old(flash).contents().len() && ota_error_ok(
                table@,
                mid,
                final(flash).contents(),
                e,
            ))
            &&& r is Err ==> r->Err_0 is OutOfSpace || r->Err_0 is InternalError
        }),
{
    let mut session = session;
    let ghost s0 = session;
    let new_seq = session.new_seq;
    flush_chunk(ctx, &mut session, flash)?;
    ctx.updating = false;
    assert(flash.contents() == write_at(old(flash).contents(), s0.target_offset + s0.written, s0.buffer@));
    let label = erased_label();
    let data = EspOTAData::new(new_seq, label);
    assert(data.encoding() =~= fresh_record(new_seq));
    proof {
        let base = ota_data_offset(table@);
        if base is Some && base->Some_0 + SECTOR_SIZE + 32 <= flash.contents().len() && (current_record(
            flash.contents(),
            base->Some_0,
        ) matches Some(c) ==> le_u32_at(c, 0) <= new_seq) {
            crate::ota_data::lemma_encode_decode(data, data);
            lemma_fresh_seq(new_seq);
            lemma_persist_resolves(flash.contents(), base->Some_0, fresh_record(new_seq));
        }
    }
    match write_ota_data(flash, table, &data) {
        Ok(()) => Ok(()),
        Err(e) => Err(OtaError::InternalError(e)),
    }
}

/// A label of all-ones bytes, as erased flash reads.
fn erased_label() -> (r: Vec<u8>)
    ensures
        r@ == Seq::new(LABEL_LEN as nat, |i: int| 0xffu8),
{
    let mut v: Vec<u8> = Vec::with_capacity(LABEL_LEN);
    let mut i: usize = 0;
    while i < LABEL_LEN
        invariant
            i <= LABEL_LEN,
            v@ == Seq::new(i as nat, |j: int| 0xffu8),
        decreases LABEL_LEN - i,
    {
        v.push(0xff);
        i = i + 1;
        assert(v@ =~= Seq::new(i as nat, |j: int| 0xffu8));
    }
    v
}

/// Ends the update because the image source failed or the caller gave up; the slot stays
/// partly written and the next update starts again from its first byte.
pub fn ota_abort(ctx: &mut OtaContext, session: UpdateSession)
    ensures
        !final(ctx).updating,
{
    ctx.updating = false;
}

/// Ends the update on an error of the image source and hands that error back unchanged.
pub fn ota_read_failed<T>(ctx: &mut OtaContext, session: UpdateSession, e: T) -> (r: OtaError<T>)
    ensures
        !final(ctx).updating,
        r == OtaError::ReadError(e),
{
    ota_abort(ctx, session);
    OtaError::ReadError(e)
}

proof fn lemma_fresh_seq(seq: u32)
    ensures
        le_u32_at(fresh_record(seq), 0) == seq,
{
    crate::ota_data::lemma_le_round_trip(seq);
    assert(fresh_record(seq).subrange(0, 4) =~= u32_le_bytes(seq));
    assert(le_u32_at(fresh_record(seq), 0) == le_u32_at(fresh_record(seq).subrange(0, 4), 0));
}

} // verus!
