//! Profile binary codec and device upload protocol for a custom hand
//! controller: packs button-mapping profiles into a compact byte stream
//! bounded by the device's EEPROM budget, and drives an acknowledgement
//! handshake to push that stream over a byte channel.

pub mod bits;
pub mod decoder;
pub mod encoder;
pub mod profile;
pub mod profiles;
pub mod roundtrip;
pub mod uploader;
