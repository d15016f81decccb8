//! Reading the identity and the airborne position of an aircraft out of the
//! payload of an Extended Squitter message.

use vstd::prelude::*;
use crate::beast::ModeSMessage;
use crate::deframe::{well_framed, RawFrame};
use crate::hex::{hex_pair, push_hex};

verus! {

/// The message type that `get_aircraft_position` reads. It has the value of
/// the wire's sync byte, which is no frame type: see
/// `lemma_decoded_frame_carries_no_position`.
pub const EXTENDED_SQUITTER: u8 = 0x1A;

/// Bytes of payload that an airborne position takes up.
pub const POSITION_PAYLOAD_LEN: usize = 11;

/// First and last of the type codes that mark an airborne position with
/// barometric altitude.
pub const FIRST_POSITION_CODE: u8 = 9;

pub const LAST_POSITION_CODE: u8 = 18;

/// What `Position` counts angles in: this many units make one degree.
pub const UNITS_PER_DEGREE: u32 = 131072;

/// Where an aircraft reported itself to be.
///
/// Angles are whole numbers of `1 / UNITS_PER_DEGREE` of a degree, so that
/// `latitude / UNITS_PER_DEGREE` is the latitude in degrees; nothing is
/// rounded. The altitude is in feet.
#[derive(Debug, Clone, Copy, PartialEq, Eq)]
pub struct Position {
    pub latitude: u32,
    pub longitude: u32,
    pub altitude: i32,
}

/// The type code of a message: the upper five bits of the payload byte that
/// holds it.
pub open spec fn type_code(byte: u8) -> int {
    byte as int / 8
}

/// The twelve-bit altitude field: all of `high` above the upper four bits of
/// `low`.
pub open spec fn altitude_code(high: u8, low: u8) -> int {
    high as int * 16 + low as int / 16
}

/// Whether an altitude field counts in steps of 25 feet: its bit of value 16,
/// the Q-bit, says so.
pub open spec fn q_bit(code: int) -> bool {
    (code / 16) % 2 == 1
}

/// The count of 25-foot steps in an altitude field: its twelve bits with the
/// Q-bit taken out and the seven bits above it moved down into the gap.
pub open spec fn altitude_steps(code: int) -> int {
    ((code / 32) % 128) * 16 + code % 16
}

/// The altitude in feet that an altitude field stands for. A field without
/// the Q-bit is Gillham-coded, which is not decoded: its altitude reads 0.
pub open spec fn altitude_feet(code: int) -> int {
    if q_bit(code) {
        altitude_steps(code) * 25 - 1000
    } else {
        0
    }
}

/// The seventeen-bit latitude field: the lower two bits of `a`, then all of
/// `b`, then the upper seven bits of `c`.
pub open spec fn cpr_latitude(a: u8, b: u8, c: u8) -> int {
    (a as int % 4) * 32768 + b as int * 128 + c as int / 2
}

/// The seventeen-bit longitude field: the lowest bit of `a`, then all of `b`,
/// then all of `c`.
pub open spec fn cpr_longitude(a: u8, b: u8, c: u8) -> int {
    (a as int % 2) * 65536 + b as int * 256 + c as int
}

/// Whether a position was sent in the odd of the two encodings: the bit of
/// value 4 in the payload byte that also holds the top of the latitude.
pub open spec fn cpr_odd(byte: u8) -> bool {
    (byte as int / 4) % 2 == 1
}

/// A seventeen-bit field read as a share of the full circle, in `Position`'s
/// units: `field * 360 / 131072` degrees.
pub open spec fn angle_units(field: int) -> int {
    field * 360
}

/// The aircraft's 24-bit address as six hexadecimal digits.
pub open spec fn icao_hex(payload: Seq<u8>) -> Seq<char> {
    hex_pair(payload[1]) + hex_pair(payload[2]) + hex_pair(payload[3])
}

/// Whether a message holds an airborne position that this library reads.
pub open spec fn carries_position(frame: RawFrame) -> bool {
    &&& frame.message_type == EXTENDED_SQUITTER
    &&& frame.payload.len() >= POSITION_PAYLOAD_LEN
    &&& FIRST_POSITION_CODE <= type_code(frame.payload[4]) <= LAST_POSITION_CODE
}

/// Whether `position` is what the fields of `payload` say.
pub open spec fn position_in(payload: Seq<u8>, position: Position) -> bool {
    &&& position.latitude == angle_units(cpr_latitude(payload[6], payload[7], payload[8]))
    &&& position.longitude == angle_units(cpr_longitude(payload[8], payload[9], payload[10]))
    &&& position.altitude == altitude_feet(altitude_code(payload[5], payload[6]))
}

/// Reads the type code out of the payload byte that holds it.
pub fn read_type_code(byte: u8) -> (code: u8)
    ensures
        code == type_code(byte),
{
    assert((byte >> 3) & 0x1F == byte / 8) by (bit_vector);
    (byte >> 3) & 0x1F
}

/// Puts the altitude field together from the two payload bytes that hold it.
pub fn read_altitude_code(high: u8, low: u8) -> (code: u16)
    ensures
        code == altitude_code(high, low),
{
    assert((((high as u16) << 4) | ((low as u16) >> 4)) == (high as u16) * 16 + (low as u16) / 16)
        by (bit_vector);
    ((high as u16) << 4) | ((low as u16) >> 4)
}

/// The altitude in feet that an altitude field stands for.
pub fn decode_altitude(code: u16) -> (feet: i32)
    ensures
        feet == altitude_feet(code as int),
{
    assert(((code & 0x10) != 0) == ((code / 16) % 2 == 1)) by (bit_vector);
    if (code & 0x10) != 0 {
        let steps: u16 = ((code & 0x0FE0) >> 1) | (code & 0x000F);
        assert((((code & 0x0FE0) >> 1) | (code & 0x000F)) == ((code / 32) % 128) * 16 + code % 16)
            by (bit_vector);
        (steps as i32) * 25 - 1000
    } else {
        0
    }
}

/// Puts the latitude field together from the three payload bytes that hold
/// it.
pub fn read_cpr_latitude(a: u8, b: u8, c: u8) -> (field: u32)
    ensures
        field == cpr_latitude(a, b, c),
{
    assert(((((a as u32) & 0x03) << 15) | ((b as u32) << 7) | ((c as u32) >> 1)) == ((a as u32)
        % 4) * 32768 + (b as u32) * 128 + (c as u32) / 2) by (bit_vector);
    (((a as u32) & 0x03) << 15) | ((b as u32) << 7) | ((c as u32) >> 1)
}

/// Puts the longitude field together from the three payload bytes that hold
/// it.
pub fn read_cpr_longitude(a: u8, b: u8, c: u8) -> (field: u32)
    ensures
        field == cpr_longitude(a, b, c),
{
    assert(((((a as u32) & 0x01) << 16) | ((b as u32) << 8) | (c as u32)) == ((a as u32) % 2)
        * 65536 + (b as u32) * 256 + (c as u32)) by (bit_vector);
    (((a as u32) & 0x01) << 16) | ((b as u32) << 8) | (c as u32)
}

/// Reads the odd/even flag out of the payload byte that holds it.
pub fn read_cpr_odd(byte: u8) -> (odd: bool)
    ensures
        odd == cpr_odd(byte),
{
    assert(((byte & 0x04) != 0) == ((byte / 4) % 2 == 1)) by (bit_vector);
    (byte & 0x04) != 0
}

impl ModeSMessage {
    /// The aircraft's address and position, where the message holds an
    /// airborne position; `None` for every other message: one of another type,
    /// one with less than `POSITION_PAYLOAD_LEN` bytes of payload, or one whose
    /// type code lies outside `FIRST_POSITION_CODE..=LAST_POSITION_CODE`.
    ///
    /// The position is the plain share of the full circle that each of the two
    /// seventeen-bit fields stands for. The odd and the even encoding are not
    /// paired, so it is no unambiguous place on the globe.
    pub fn get_aircraft_position(&self) -> (found: Option<(String, Position)>)
        ensures
            match found {
                Some((icao, position)) => {
                    &&& carries_position(self@)
                    &&& icao@ == icao_hex(self.payload@)
                    &&& position_in(self.payload@, position)
                },
                None => !carries_position(self@),
            },
    {
        if self.message_type != EXTENDED_SQUITTER {
            return None;
        }
        if self.payload.len() < POSITION_PAYLOAD_LEN {
            return None;
        }
        let code: u8 = read_type_code(self.payload[4]);
        if code < FIRST_POSITION_CODE || code > LAST_POSITION_CODE {
            return None;
        }
        let mut icao: String = String::new();
        push_hex(&mut icao, self.payload[1]);
        push_hex(&mut icao, self.payload[2]);
        push_hex(&mut icao, self.payload[3]);
        assert(icao@ =~= icao_hex(self.payload@));

        let latitude_field: u32 = read_cpr_latitude(
            self.payload[6],
            self.payload[7],
            self.payload[8],
        );
        let longitude_field: u32 = read_cpr_longitude(
            self.payload[8],
            self.payload[9],
            self.payload[10],
        );
        let altitude: i32 = decode_altitude(read_altitude_code(self.payload[5], self.payload[6]));
        let position = Position {
            latitude: latitude_field * 360,
            longitude: longitude_field * 360,
            altitude,
        };
        Some((icao, position))
    }
}

/// No frame that the decoder hands out carries a position that
/// `get_aircraft_position` reads: the message type that it asks for is the
/// sync byte, and the decoder takes a sync byte for no frame's type.
pub proof fn lemma_decoded_frame_carries_no_position(frame: RawFrame)
    requires
        well_framed(frame),
    ensures
        !carries_position(frame),
{
}

} // verus!
