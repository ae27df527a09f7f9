use vstd::prelude::*;

verus! {

/// The standard CRC-32 (ISO-HDLC: reflected polynomial 0x04C11DB7, initial value all
/// ones, final complement) of a byte sequence.
pub uninterp spec fn crc32_iso_hdlc(bytes: Seq<u8>) -> u32;

/// Every byte of `s` complemented.
pub open spec fn complement_bytes(s: Seq<u8>) -> Seq<u8> {
    Seq::new(s.len(), |i: int| !s[i])
}

/// The checksum of the vendor boot ROM (`esp_rom_crc32_le` with an initial value of zero):
/// each input byte complemented, then the reflected CRC-32 with initial value all ones and
/// no final XOR, then the result complemented. Complementing the result is the same as the
/// final XOR of the standard CRC-32, so the whole is the standard CRC-32 of the
/// complemented bytes.
pub open spec fn esp_crc32_spec(bytes: Seq<u8>) -> u32 {
    crc32_iso_hdlc(complement_bytes(bytes))
}

/// Relies on `crc::Crc::<u32>::checksum` with the catalog algorithm `CRC_32_ISO_HDLC`:
/// the checksum is a function of the bytes alone.
#[verifier::external_body]
fn crc32_standard(bytes: &[u8]) -> (r: u32)
    ensures
        r == crc32_iso_hdlc(bytes@),
{
    crc::Crc::<u32>::new(&crc::CRC_32_ISO_HDLC).checksum(bytes)
}

/// Checksum used to guard the OTA descriptor records.
pub fn esp_crc32(bytes: &[u8]) -> (r: u32)
    ensures
        r == esp_crc32_spec(bytes@),
{
    let mut flipped: Vec<u8> = Vec::with_capacity(bytes.len());
    let mut i: usize = 0;
    while i < bytes.len()
        invariant
            i <= bytes@.len(),
            flipped@ == complement_bytes(bytes@.subrange(0, i as int)),
        decreases bytes@.len() - i,
    {
        flipped.push(!bytes[i]);
        i = i + 1;
        assert(flipped@ =~= complement_bytes(bytes@.subrange(0, i as int)));
    }
    assert(bytes@.subrange(0, bytes@.len() as int) =~= bytes@);
    crc32_standard(flipped.as_slice())
}

} // verus!
