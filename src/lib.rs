//! Firmware-update and shared-state core of a network-connected LED dimmer.
//!
//! - `crc`: the checksum that guards the OTA descriptor records.
//! - `ota_data`: the 32-byte descriptor record and its codec.
//! - `partition`: lookups in the on-device partition table.
//! - `flash`: the flash capability and an in-memory device.
//! - `ota_store`: the two redundant descriptor copies.
//! - `ota`: confirming or rejecting the running image.
//! - `update`: writing a new image and publishing it.
//! - `value_synchronizer`: a shared value with per-consumer change cursors.
//! - `light_state`: the persisted light settings and LED duty scaling.

pub mod crc;
pub mod flash;
pub mod light_state;
pub mod ota;
pub mod ota_data;
pub mod ota_store;
pub mod partition;
pub mod update;
pub mod value_synchronizer;
