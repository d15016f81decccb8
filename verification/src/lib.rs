//! Decoder for the Beast framing of Mode S / ADS-B receivers, and the reading
//! of an airborne position out of an Extended Squitter payload.

pub mod beast;
pub mod deframe;
pub mod framing;
pub mod hex;
pub mod position;
pub mod tracking;
