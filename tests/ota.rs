use lightbringer::flash::{Flash, FlashError, RamFlash};
use lightbringer::ota::{ota_accept, ota_reject, ota_valid};
use lightbringer::ota_data::{EspOTAData, EspOTAState};
use lightbringer::ota_store::{
    descriptor_from_copies, needs_second_write, newest_copy, read_ota_data, stale_sector,
    write_ota_data, OtaInternalError,
};
use lightbringer::partition::{PartitionEntry, ReadWritePartitionError};
use lightbringer::update::{
    begin_from_descriptor, ota_abort, ota_begin, ota_finish, ota_read_failed, ota_write, OtaContext, OtaError,
    CHUNK_SIZE,
};

const OTADATA: u32 = 0x0000;
const SLOT0: u32 = 0x2000;
const SLOT1: u32 = 0x4000;
const SLOT_SIZE: u32 = 0x2000;
const FLASH_SIZE: usize = 0x6000;

fn entry(type_: u8, subtype: u8, offset: u32, size: u32, name: &str) -> PartitionEntry {
    PartitionEntry { type_, subtype, offset, size, name: name.as_bytes().to_vec() }
}

fn table() -> Vec<PartitionEntry> {
    vec![
        entry(1, 0x00, OTADATA, 0x2000, "otadata"),
        entry(0, 0x10, SLOT0, SLOT_SIZE, "ota_0"),
        entry(0, 0x11, SLOT1, SLOT_SIZE, "ota_1"),
    ]
}

fn descriptor(seq: u32, state: EspOTAState) -> EspOTAData {
    let mut d = EspOTAData::new(seq, vec![0x11; 20]);
    d.state = state;
    d
}

fn put_copy(flash: &mut RamFlash, copy: u32, seq: u32, state: EspOTAState) {
    let bytes = descriptor(seq, state).to_bytes();
    flash.write(OTADATA + copy * 0x1000, &bytes).unwrap();
}

fn device(copy0: Option<(u32, EspOTAState)>, copy1: Option<(u32, EspOTAState)>) -> RamFlash {
    let mut f = RamFlash::new(FLASH_SIZE);
    if let Some((s, st)) = copy0 {
        put_copy(&mut f, 0, s, st);
    }
    if let Some((s, st)) = copy1 {
        put_copy(&mut f, 1, s, st);
    }
    f
}

#[test]
fn higher_sequence_wins() {
    let f = device(Some((5, EspOTAState::Valid)), Some((4, EspOTAState::Valid)));
    let d = read_ota_data(&f, &table()).unwrap();
    assert_eq!(d.seq, 5);
    let f = device(Some((4, EspOTAState::Valid)), Some((5, EspOTAState::Invalid)));
    let d = read_ota_data(&f, &table()).unwrap();
    assert_eq!(d.seq, 5);
    assert_eq!(d.state, EspOTAState::Invalid);
}

#[test]
fn single_valid_copy_wins() {
    let mut f = device(Some((5, EspOTAState::Valid)), Some((4, EspOTAState::Valid)));
    // Corrupt copy A's checksum.
    f.data[28] ^= 0x01;
    let d = read_ota_data(&f, &table()).unwrap();
    assert_eq!(d.seq, 4);
    let f = device(Some((9, EspOTAState::New)), None);
    assert_eq!(read_ota_data(&f, &table()).unwrap().seq, 9);
}

#[test]
fn both_copies_corrupt_is_fatal() {
    let f = device(None, None);
    assert_eq!(read_ota_data(&f, &table()), Err(OtaInternalError::OtaDataCorrupt));
    assert_eq!(ota_valid(&f, &table()), Err(OtaInternalError::OtaDataCorrupt));
}

#[test]
fn newest_copy_rule() {
    let a = descriptor(5, EspOTAState::Valid);
    let b = descriptor(4, EspOTAState::Valid);
    assert_eq!(newest_copy(Some(a.clone()), Some(b.clone())).unwrap().seq, 5);
    assert_eq!(newest_copy(None, Some(b.clone())).unwrap().seq, 4);
    assert_eq!(newest_copy(Some(a.clone()), None).unwrap().seq, 5);
    assert_eq!(newest_copy(None, None), Err(OtaInternalError::OtaDataCorrupt));
    // Equal sequence numbers: the second copy is taken.
    let c = descriptor(5, EspOTAState::Invalid);
    assert_eq!(newest_copy(Some(a), Some(c)).unwrap().state, EspOTAState::Invalid);
}

#[test]
fn missing_descriptor_partition() {
    let f = device(Some((1, EspOTAState::Valid)), None);
    let t = vec![entry(0, 0x10, SLOT0, SLOT_SIZE, "ota_0")];
    assert_eq!(
        read_ota_data(&f, &t),
        Err(OtaInternalError::PartitionError(ReadWritePartitionError::PartitionNotFound))
    );
}

#[test]
fn write_replaces_only_the_stale_copy() {
    let mut f = device(Some((5, EspOTAState::Valid)), Some((4, EspOTAState::Valid)));
    let before_a = f.data[0..32].to_vec();
    write_ota_data(&mut f, &table(), &descriptor(6, EspOTAState::New)).unwrap();
    assert_eq!(f.data[0..32].to_vec(), before_a);
    assert_eq!(f.data[0x1000..0x1004].to_vec(), vec![6, 0, 0, 0]);
    let d = read_ota_data(&f, &table()).unwrap();
    assert_eq!(d.seq, 6);
    assert_eq!(d.state, EspOTAState::New);
}

#[test]
fn validity_follows_state() {
    for (state, accepted) in [
        (EspOTAState::New, false),
        (EspOTAState::PendingVerify, false),
        (EspOTAState::Valid, true),
        (EspOTAState::Invalid, false),
        (EspOTAState::Aborted, false),
        (EspOTAState::Undefined, true),
    ] {
        let f = device(Some((3, state)), Some((2, EspOTAState::Valid)));
        assert_eq!(ota_valid(&f, &table()), Ok(accepted));
    }
}

#[test]
fn accept_marks_valid() {
    let mut f = device(Some((3, EspOTAState::PendingVerify)), Some((2, EspOTAState::Valid)));
    assert_eq!(ota_valid(&f, &table()), Ok(false));
    ota_accept(&mut f, &table()).unwrap();
    assert_eq!(ota_valid(&f, &table()), Ok(true));
    let d = read_ota_data(&f, &table()).unwrap();
    assert_eq!(d.seq, 3);
    assert_eq!(d.label, vec![0x11; 20]);
}

#[test]
fn accept_twice_same_as_once() {
    for (c0, c1) in [
        ((3, EspOTAState::PendingVerify), (2, EspOTAState::Valid)),
        ((2, EspOTAState::Valid), (3, EspOTAState::PendingVerify)),
        ((3, EspOTAState::Undefined), (3, EspOTAState::New)),
        ((3, EspOTAState::PendingVerify), (3, EspOTAState::PendingVerify)),
    ] {
        let mut once = device(Some(c0), Some(c1));
        ota_accept(&mut once, &table()).unwrap();
        let mut twice = device(Some(c0), Some(c1));
        ota_accept(&mut twice, &table()).unwrap();
        ota_accept(&mut twice, &table()).unwrap();
        let a = read_ota_data(&once, &table()).unwrap();
        assert_eq!(a.state, EspOTAState::Valid);
        assert_eq!(a.seq, 3);
        assert_eq!(read_ota_data(&once, &table()), read_ota_data(&twice, &table()));
    }
}

#[test]
fn accept_when_second_copy_is_current() {
    let mut f = device(Some((2, EspOTAState::Valid)), Some((3, EspOTAState::PendingVerify)));
    assert_eq!(ota_valid(&f, &table()), Ok(false));
    ota_accept(&mut f, &table()).unwrap();
    let d = read_ota_data(&f, &table()).unwrap();
    assert_eq!(d.seq, 3);
    assert_eq!(d.state, EspOTAState::Valid);
    assert_eq!(d.label, vec![0x11; 20]);
    assert_eq!(ota_valid(&f, &table()), Ok(true));
    // The firmware slots are untouched.
    assert!(f.data[SLOT0 as usize..].iter().all(|b| *b == 0xff));
}

#[test]
fn accept_with_equal_copies() {
    let mut f = device(Some((3, EspOTAState::PendingVerify)), Some((3, EspOTAState::PendingVerify)));
    ota_accept(&mut f, &table()).unwrap();
    assert_eq!(read_ota_data(&f, &table()).unwrap().state, EspOTAState::Valid);
}

#[test]
fn reject_when_second_copy_is_current() {
    let mut f = device(Some((2, EspOTAState::Valid)), Some((3, EspOTAState::PendingVerify)));
    ota_reject(&mut f, &table()).unwrap();
    let d = read_ota_data(&f, &table()).unwrap();
    assert_eq!(d.seq, 3);
    assert_eq!(d.state, EspOTAState::Invalid);
    assert_eq!(ota_valid(&f, &table()), Ok(false));
}

#[test]
fn second_copy_is_rewritten_only_on_a_tie() {
    let a = descriptor(5, EspOTAState::Valid).to_bytes();
    let b = descriptor(6, EspOTAState::Valid).to_bytes();
    assert!(needs_second_write(&a, &b, 6));
    assert!(!needs_second_write(&a, &b, 7));
    assert!(!needs_second_write(&b, &a, 6));
    assert!(!needs_second_write(&[0xff; 32], &[0xff; 32], 6));
}

#[test]
fn begin_decides_from_the_descriptor() {
    let t = table();
    let mut ctx = OtaContext::new();
    for state in [EspOTAState::New, EspOTAState::PendingVerify, EspOTAState::Invalid, EspOTAState::Aborted] {
        let r = begin_from_descriptor::<()>(&mut ctx, &descriptor(1, state), &t);
        assert!(matches!(r, Err(OtaError::PendingVerify)));
        assert!(!ctx.is_updating());
    }
    let r = begin_from_descriptor::<()>(&mut ctx, &descriptor(u32::MAX, EspOTAState::Valid), &t);
    assert!(matches!(r, Err(OtaError::InternalError(OtaInternalError::SequenceExhausted))));
    let s = begin_from_descriptor::<()>(&mut ctx, &descriptor(4, EspOTAState::Undefined), &t).unwrap();
    assert_eq!(s.new_seq, 5);
    assert_eq!(s.target_offset, SLOT1);
    assert_eq!(s.target_size, SLOT_SIZE);
    assert!(ctx.is_updating());
    let r = begin_from_descriptor::<()>(&mut ctx, &descriptor(4, EspOTAState::Valid), &t);
    assert!(matches!(r, Err(OtaError::AlreadyUpdating)));
}

#[test]
fn slot_beyond_the_address_range_is_refused() {
    let f = device(Some((1, EspOTAState::Valid)), None);
    let t = vec![
        entry(1, 0x00, OTADATA, 0x2000, "otadata"),
        entry(0, 0x10, 0xffff_f000, 0x2000, "ota_0"),
    ];
    let mut ctx = OtaContext::new();
    let r = ota_begin::<RamFlash, ()>(&mut ctx, &f, &t);
    assert!(matches!(r, Err(OtaError::InternalError(OtaInternalError::PartitionOutOfRange))));
    assert!(!ctx.is_updating());
}

#[test]
fn descriptor_partition_beyond_the_address_range_is_refused() {
    let f = device(Some((1, EspOTAState::Valid)), None);
    let t = vec![entry(1, 0x00, 0xffff_f800, 0x2000, "otadata")];
    assert_eq!(read_ota_data(&f, &t), Err(OtaInternalError::PartitionOutOfRange));
}

#[test]
fn reject_marks_invalid() {
    let mut f = device(Some((3, EspOTAState::PendingVerify)), Some((2, EspOTAState::Valid)));
    ota_reject(&mut f, &table()).unwrap();
    let d = read_ota_data(&f, &table()).unwrap();
    assert_eq!(d.state, EspOTAState::Invalid);
    assert_eq!(ota_valid(&f, &table()), Ok(false));
}

#[test]
fn accept_on_corrupt_store_changes_nothing() {
    let mut f = device(None, None);
    let before = f.data.clone();
    assert_eq!(ota_accept(&mut f, &table()), Err(OtaInternalError::OtaDataCorrupt));
    assert_eq!(f.data, before);
}

#[test]
fn pending_image_cannot_seed_an_update() {
    let f = device(Some((3, EspOTAState::PendingVerify)), Some((2, EspOTAState::Valid)));
    let before = f.data.clone();
    let mut ctx = OtaContext::new();
    let r = ota_begin::<RamFlash, ()>(&mut ctx, &f, &table());
    assert!(matches!(r, Err(OtaError::PendingVerify)));
    assert!(!ctx.is_updating());
    assert_eq!(f.data, before);
}

#[test]
fn second_update_is_refused_while_one_is_in_flight() {
    let f = device(Some((1, EspOTAState::Valid)), None);
    let mut ctx = OtaContext::new();
    let s = ota_begin::<RamFlash, ()>(&mut ctx, &f, &table()).unwrap();
    assert!(ctx.is_updating());
    let r = ota_begin::<RamFlash, ()>(&mut ctx, &f, &table());
    assert!(matches!(r, Err(OtaError::AlreadyUpdating)));
    assert!(ctx.is_updating());
    ota_abort(&mut ctx, s);
    assert!(!ctx.is_updating());
    assert!(ota_begin::<RamFlash, ()>(&mut ctx, &f, &table()).is_ok());
}

#[test]
fn update_targets_slot_of_next_sequence() {
    let f = device(Some((1, EspOTAState::Valid)), None);
    let mut ctx = OtaContext::new();
    let s = ota_begin::<RamFlash, ()>(&mut ctx, &f, &table()).unwrap();
    assert_eq!(s.new_seq, 2);
    assert_eq!(s.target_offset, SLOT0);
    assert_eq!(s.written, 0);
    let f = device(Some((2, EspOTAState::Undefined)), None);
    let mut ctx = OtaContext::new();
    let s = ota_begin::<RamFlash, ()>(&mut ctx, &f, &table()).unwrap();
    assert_eq!(s.new_seq, 3);
    assert_eq!(s.target_offset, SLOT1);
}

fn image(len: usize) -> Vec<u8> {
    (0..len).map(|i| (i % 251) as u8).collect()
}

#[test]
fn full_update_writes_image_then_publishes() {
    let mut f = device(Some((1, EspOTAState::Valid)), Some((0, EspOTAState::Valid)));
    let t = table();
    let mut ctx = OtaContext::new();
    let mut s = ota_begin::<RamFlash, ()>(&mut ctx, &f, &t).unwrap();
    let img = image(0x1800);
    // Short reads of uneven length; chunks are still written whole.
    for part in img.chunks(700) {
        ota_write::<RamFlash, ()>(&mut ctx, &mut s, &mut f, part).unwrap();
        // Nothing is published while the image is written.
        assert_eq!(read_ota_data(&f, &t).unwrap().seq, 1);
    }
    assert_eq!(s.written as usize, CHUNK_SIZE);
    assert_eq!(s.buffer.len(), 0x800);
    ota_finish::<RamFlash, ()>(&mut ctx, s, &mut f, &t).unwrap();
    assert!(!ctx.is_updating());
    let start = SLOT0 as usize;
    assert_eq!(f.data[start..start + img.len()].to_vec(), img);
    assert!(f.data[start + img.len()..start + SLOT_SIZE as usize].iter().all(|b| *b == 0xff));
    let d = read_ota_data(&f, &t).unwrap();
    assert_eq!(d.seq, 2);
    assert_eq!(d.state, EspOTAState::New);
    assert_eq!(d.label, vec![0xff; 20]);
    // The copy that was current before the update is kept.
    assert_eq!(f.data[0..4].to_vec(), vec![1, 0, 0, 0]);
}

#[test]
fn image_larger_than_slot_is_out_of_space() {
    let mut f = device(Some((1, EspOTAState::Valid)), None);
    let t = table();
    let mut ctx = OtaContext::new();
    let mut s = ota_begin::<RamFlash, ()>(&mut ctx, &f, &t).unwrap();
    let img = image(SLOT_SIZE as usize + CHUNK_SIZE);
    let r = ota_write::<RamFlash, ()>(&mut ctx, &mut s, &mut f, &img);
    assert!(matches!(r, Err(OtaError::OutOfSpace)));
    assert!(!ctx.is_updating());
    assert_eq!(s.written, SLOT_SIZE);
    // The two chunks that fit were written; the over-limit chunk was not.
    let start = SLOT0 as usize;
    assert_eq!(f.data[start..start + SLOT_SIZE as usize].to_vec(), img[..SLOT_SIZE as usize].to_vec());
    assert!(f.data[SLOT1 as usize..SLOT1 as usize + 32].iter().all(|b| *b == 0xff));
    assert_eq!(read_ota_data(&f, &t).unwrap().seq, 1);
}

#[test]
fn tail_larger_than_slot_is_out_of_space() {
    let mut f = device(Some((1, EspOTAState::Valid)), None);
    let t = table();
    let mut ctx = OtaContext::new();
    let mut s = ota_begin::<RamFlash, ()>(&mut ctx, &f, &t).unwrap();
    let img = image(SLOT_SIZE as usize + 1);
    ota_write::<RamFlash, ()>(&mut ctx, &mut s, &mut f, &img).unwrap();
    assert_eq!(s.written, SLOT_SIZE);
    let before = f.data.clone();
    let r = ota_finish::<RamFlash, ()>(&mut ctx, s, &mut f, &t);
    assert!(matches!(r, Err(OtaError::OutOfSpace)));
    assert!(!ctx.is_updating());
    assert_eq!(f.data, before);
    assert_eq!(read_ota_data(&f, &t).unwrap().seq, 1);
}

#[test]
fn exact_fit_succeeds() {
    let mut f = device(Some((1, EspOTAState::Valid)), None);
    let t = table();
    let mut ctx = OtaContext::new();
    let mut s = ota_begin::<RamFlash, ()>(&mut ctx, &f, &t).unwrap();
    let img = image(SLOT_SIZE as usize);
    ota_write::<RamFlash, ()>(&mut ctx, &mut s, &mut f, &img).unwrap();
    ota_finish::<RamFlash, ()>(&mut ctx, s, &mut f, &t).unwrap();
    assert_eq!(read_ota_data(&f, &t).unwrap().seq, 2);
}

#[test]
fn read_error_is_passed_on_and_clears_the_flag() {
    let f = device(Some((1, EspOTAState::Valid)), None);
    let mut ctx = OtaContext::new();
    let s = ota_begin::<RamFlash, &str>(&mut ctx, &f, &table()).unwrap();
    let e = ota_read_failed(&mut ctx, s, "connection reset");
    assert!(matches!(e, OtaError::ReadError("connection reset")));
    assert!(!ctx.is_updating());
}

#[test]
fn missing_slot_is_internal_error() {
    let f = device(Some((1, EspOTAState::Valid)), None);
    let t = vec![entry(1, 0x00, OTADATA, 0x2000, "otadata")];
    let mut ctx = OtaContext::new();
    let r = ota_begin::<RamFlash, ()>(&mut ctx, &f, &t);
    assert!(matches!(
        r,
        Err(OtaError::InternalError(OtaInternalError::PartitionError(
            ReadWritePartitionError::PartitionNotFound
        )))
    ));
    assert!(!ctx.is_updating());
}

#[test]
fn exhausted_sequence_is_internal_error() {
    let f = device(Some((u32::MAX, EspOTAState::Valid)), None);
    let mut ctx = OtaContext::new();
    let r = ota_begin::<RamFlash, ()>(&mut ctx, &f, &table());
    assert!(matches!(r, Err(OtaError::InternalError(OtaInternalError::SequenceExhausted))));
}

#[test]
fn flash_out_of_bounds_is_reported() {
    let mut f = RamFlash::new(16);
    assert_eq!(f.read(8, 16), Err(FlashError::OutOfBounds));
    assert_eq!(f.write(8, &[0; 16]), Err(FlashError::OutOfBounds));
    assert_eq!(f.data, vec![0xff; 16]);
    f.write(8, &[1; 8]).unwrap();
    assert_eq!(f.read(6, 4).unwrap(), vec![0xff, 0xff, 1, 1]);
}

#[test]
fn copies_resolve_by_sequence_and_validity() {
    let a = descriptor(5, EspOTAState::Valid).to_bytes();
    let b = descriptor(4, EspOTAState::Valid).to_bytes();
    assert_eq!(descriptor_from_copies(&a, &b).unwrap().seq, 5);
    assert_eq!(stale_sector(&a, &b), 1);
    assert_eq!(descriptor_from_copies(&b, &a).unwrap().seq, 5);
    assert_eq!(stale_sector(&b, &a), 0);
    let mut bad = a.clone();
    bad[0] ^= 0x01;
    assert_eq!(descriptor_from_copies(&bad, &b).unwrap().seq, 4);
    assert_eq!(stale_sector(&bad, &b), 0);
    assert_eq!(descriptor_from_copies(&a, &bad).unwrap().seq, 5);
    assert_eq!(stale_sector(&a, &bad), 1);
    assert_eq!(descriptor_from_copies(&bad, &bad), Err(OtaInternalError::OtaDataCorrupt));
    assert_eq!(stale_sector(&bad, &bad), 0);
    // Equal sequence numbers: the second copy is current and the first is replaced.
    let c = descriptor(5, EspOTAState::Invalid).to_bytes();
    assert_eq!(descriptor_from_copies(&a, &c).unwrap().state, EspOTAState::Invalid);
    assert_eq!(stale_sector(&a, &c), 0);
}

#[test]
fn short_input_is_buffered_without_writing() {
    let mut f = device(Some((1, EspOTAState::Valid)), None);
    let t = table();
    let mut ctx = OtaContext::new();
    let mut s = ota_begin::<RamFlash, ()>(&mut ctx, &f, &t).unwrap();
    let before = f.data.clone();
    ota_write::<RamFlash, ()>(&mut ctx, &mut s, &mut f, &image(CHUNK_SIZE - 1)).unwrap();
    assert_eq!(f.data, before);
    assert_eq!(s.written, 0);
    assert_eq!(s.buffer.len(), CHUNK_SIZE - 1);
    ota_write::<RamFlash, ()>(&mut ctx, &mut s, &mut f, &[7]).unwrap();
    assert_eq!(s.written as usize, CHUNK_SIZE);
    assert_eq!(s.buffer.len(), 0);
}
