use airplane_notifier::beast::{Beast, ModeSMessage};
use airplane_notifier::framing::SYNC;
use airplane_notifier::hex::push_hex;
use airplane_notifier::position::{
    decode_altitude, read_altitude_code, read_cpr_latitude, read_cpr_longitude, read_cpr_odd,
    read_type_code, Position, EXTENDED_SQUITTER, FIRST_POSITION_CODE, LAST_POSITION_CODE,
    POSITION_PAYLOAD_LEN, UNITS_PER_DEGREE,
};

/// A payload of eleven bytes with the given fields in their places.
fn payload_with(
    icao: [u8; 3],
    type_code: u8,
    altitude_code: u16,
    odd: bool,
    latitude: u32,
    longitude: u32,
) -> Vec<u8> {
    let flag: u8 = if odd { 0x04 } else { 0x00 };
    vec![
        0x8D,
        icao[0],
        icao[1],
        icao[2],
        type_code << 3,
        (altitude_code >> 4) as u8,
        (((altitude_code & 0x0F) as u8) << 4) | flag | ((latitude >> 15) as u8 & 0x03),
        (latitude >> 7) as u8,
        (((latitude & 0x7F) as u8) << 1) | ((longitude >> 16) as u8 & 0x01),
        (longitude >> 8) as u8,
        longitude as u8,
    ]
}

fn degrees(units: u32) -> f64 {
    units as f64 / UNITS_PER_DEGREE as f64
}

#[test]
fn position_constants() {
    assert_eq!(EXTENDED_SQUITTER, 0x1A);
    assert_eq!(EXTENDED_SQUITTER, SYNC);
    assert_eq!(POSITION_PAYLOAD_LEN, 11);
    assert_eq!(FIRST_POSITION_CODE, 9);
    assert_eq!(LAST_POSITION_CODE, 18);
    assert_eq!(UNITS_PER_DEGREE, 131072);
}

#[test]
fn type_codes_below_nine_give_nothing() {
    for type_code in 0u8..=8 {
        let message = ModeSMessage {
            message_type: 0x1A,
            payload: payload_with([1, 2, 3], type_code, 0x0D4, false, 100, 200),
        };
        assert!(message.get_aircraft_position().is_none());
    }
}

#[test]
fn type_codes_above_eighteen_give_nothing() {
    for type_code in 19u8..=31 {
        let message = ModeSMessage {
            message_type: 0x1A,
            payload: payload_with([1, 2, 3], type_code, 0x0D4, false, 100, 200),
        };
        assert!(message.get_aircraft_position().is_none());
    }
}

#[test]
fn type_codes_nine_to_eighteen_give_position() {
    for type_code in 9u8..=18 {
        let message = ModeSMessage {
            message_type: 0x1A,
            payload: payload_with([1, 2, 3], type_code, 0x0D4, false, 100, 200),
        };
        let (icao, position) = message.get_aircraft_position().expect("an airborne position");
        assert_eq!(icao, "010203");
        assert_eq!(position, Position { latitude: 36000, longitude: 72000, altitude: 1500 });
    }
}

#[test]
fn low_bits_of_type_code_byte_do_not_count() {
    let mut payload = payload_with([1, 2, 3], 9, 0x0D4, false, 100, 200);
    payload[4] |= 0x07;
    let message = ModeSMessage { message_type: 0x1A, payload };
    assert!(message.get_aircraft_position().is_some());
    let mut payload = payload_with([1, 2, 3], 8, 0x0D4, false, 100, 200);
    payload[4] |= 0x07;
    let message = ModeSMessage { message_type: 0x1A, payload };
    assert!(message.get_aircraft_position().is_none());
}

#[test]
fn payload_shorter_than_eleven_bytes_gives_nothing() {
    let whole = payload_with([0x48, 0x40, 0xD6], 11, 0x0D4, false, 65536, 65536);
    for len in 0..11usize {
        let message = ModeSMessage { message_type: 0x1A, payload: whole[..len].to_vec() };
        assert!(message.get_aircraft_position().is_none());
    }
    let message = ModeSMessage { message_type: 0x1A, payload: whole };
    assert!(message.get_aircraft_position().is_some());
}

#[test]
fn payload_longer_than_eleven_bytes_is_read_by_its_first_eleven() {
    let mut payload = payload_with([0x48, 0x40, 0xD6], 11, 0x0D4, false, 65536, 65536);
    payload.extend_from_slice(&[0xAA, 0xBB, 0xCC]);
    let message = ModeSMessage { message_type: 0x1A, payload };
    let (icao, position) = message.get_aircraft_position().expect("an airborne position");
    assert_eq!(icao, "4840D6");
    assert_eq!(position.altitude, 1500);
}

#[test]
fn other_message_types_give_nothing() {
    for message_type in [0x00u8, 0x19, 0x1B, 0x31, 0x32, 0x33, 0xFF] {
        let message = ModeSMessage {
            message_type,
            payload: payload_with([1, 2, 3], 11, 0x0D4, false, 100, 200),
        };
        assert!(message.get_aircraft_position().is_none());
    }
}

#[test]
fn decoded_frames_give_no_position() {
    let mut bytes: Vec<u8> = vec![SYNC, 0x33];
    bytes.extend(payload_with([1, 2, 3], 11, 0x0D4, false, 100, 200));
    bytes.extend_from_slice(&[0u8; 10]);
    let mut decoder = Beast::new(());
    let messages = decoder.decode(&bytes);
    assert_eq!(messages.len(), 1);
    assert_eq!(messages[0].payload.len(), 21);
    assert!(messages[0].get_aircraft_position().is_none());
}

#[test]
fn altitude_of_hundred_steps_is_1500_feet() {
    // 100 steps with the Q-bit in its place: 0b000_0110_1_0100.
    let code: u16 = ((100 & 0x7F0) << 1) | 0x010 | (100 & 0x00F);
    assert_eq!(code, 0x0D4);
    assert_eq!(decode_altitude(code), 1500);
    let message = ModeSMessage {
        message_type: 0x1A,
        payload: payload_with([0x48, 0x40, 0xD6], 11, code, false, 0, 0),
    };
    let (_, position) = message.get_aircraft_position().expect("an airborne position");
    assert_eq!(position.altitude, 100 * 25 - 1000);
    assert_eq!(position.altitude as f64, 1500.0);
}

#[test]
fn altitude_without_q_bit_reads_zero() {
    assert_eq!(decode_altitude(0x0C4), 0);
    assert_eq!(decode_altitude(0x000), 0);
    assert_eq!(decode_altitude(0xFEF), 0);
    let message = ModeSMessage {
        message_type: 0x1A,
        payload: payload_with([0x48, 0x40, 0xD6], 11, 0xFEF, false, 5, 6),
    };
    let (_, position) = message.get_aircraft_position().expect("an airborne position");
    assert_eq!(position.altitude, 0);
}

#[test]
fn altitude_range() {
    assert_eq!(decode_altitude(0x010), -1000);
    assert_eq!(decode_altitude(0x011), -975);
    assert_eq!(decode_altitude(0x030), -1000 + 16 * 25);
    assert_eq!(decode_altitude(0xFFF), 2047 * 25 - 1000);
    assert_eq!(decode_altitude(0xFFF), 50175);
}

#[test]
fn altitude_ignores_bits_above_the_twelfth() {
    assert_eq!(decode_altitude(0xF0D4), 1500);
    assert_eq!(decode_altitude(0x10D4), decode_altitude(0x00D4));
}

#[test]
fn altitude_code_is_put_together_from_two_bytes() {
    assert_eq!(read_altitude_code(0x0D, 0x40), 0x0D4);
    assert_eq!(read_altitude_code(0x0D, 0x4F), 0x0D4);
    assert_eq!(read_altitude_code(0xFF, 0xFF), 0xFFF);
    assert_eq!(read_altitude_code(0x00, 0x0F), 0x000);
    assert_eq!(read_altitude_code(0xC3, 0x80), 0xC38);
}

#[test]
fn type_code_is_upper_five_bits() {
    assert_eq!(read_type_code(0x00), 0);
    assert_eq!(read_type_code(0x07), 0);
    assert_eq!(read_type_code(0x48), 9);
    assert_eq!(read_type_code(0x58), 11);
    assert_eq!(read_type_code(0x97), 18);
    assert_eq!(read_type_code(0xFF), 31);
}

#[test]
fn half_circle_fields_read_180_degrees() {
    let message = ModeSMessage {
        message_type: 0x1A,
        payload: payload_with([0x48, 0x40, 0xD6], 11, 0x0D4, false, 65536, 65536),
    };
    let (_, position) = message.get_aircraft_position().expect("an airborne position");
    assert_eq!(position.latitude, 65536 * 360);
    assert_eq!(position.longitude, 65536 * 360);
    assert_eq!(degrees(position.latitude), 180.0);
    assert_eq!(degrees(position.longitude), 180.0);
    assert_eq!(65536.0_f64 * 360.0 / 131072.0, degrees(position.latitude));
}

#[test]
fn angles_are_field_times_360_over_131072() {
    let message = ModeSMessage {
        message_type: 0x1A,
        payload: payload_with([0x48, 0x40, 0xD6], 12, 0x0D4, true, 93000, 51372),
    };
    let (_, position) = message.get_aircraft_position().expect("an airborne position");
    assert_eq!(position.latitude, 93000 * 360);
    assert_eq!(position.longitude, 51372 * 360);
    assert_eq!(degrees(position.latitude), 93000.0 * 360.0 / 131072.0);
    assert_eq!(degrees(position.longitude), 51372.0 * 360.0 / 131072.0);
}

#[test]
fn angle_range() {
    let message = ModeSMessage {
        message_type: 0x1A,
        payload: payload_with([0, 0, 0], 18, 0x010, false, 0, 131071),
    };
    let (icao, position) = message.get_aircraft_position().expect("an airborne position");
    assert_eq!(icao, "000000");
    assert_eq!(position, Position { latitude: 0, longitude: 131071 * 360, altitude: -1000 });
    assert!(degrees(position.longitude) < 360.0);
}

#[test]
fn latitude_field_is_put_together_from_three_bytes() {
    assert_eq!(read_cpr_latitude(0x00, 0x00, 0x00), 0);
    assert_eq!(read_cpr_latitude(0x02, 0x00, 0x00), 65536);
    assert_eq!(read_cpr_latitude(0x01, 0x00, 0x00), 32768);
    assert_eq!(read_cpr_latitude(0x00, 0x01, 0x00), 128);
    assert_eq!(read_cpr_latitude(0x00, 0x00, 0x02), 1);
    assert_eq!(read_cpr_latitude(0x00, 0x00, 0x01), 0);
    assert_eq!(read_cpr_latitude(0xFC, 0x00, 0x00), 0);
    assert_eq!(read_cpr_latitude(0xFF, 0xFF, 0xFF), 131071);
    assert_eq!(read_cpr_latitude(0x02, 0xD6, 0x90), 0x16B48);
}

#[test]
fn longitude_field_is_put_together_from_three_bytes() {
    assert_eq!(read_cpr_longitude(0x00, 0x00, 0x00), 0);
    assert_eq!(read_cpr_longitude(0x01, 0x00, 0x00), 65536);
    assert_eq!(read_cpr_longitude(0xFE, 0x00, 0x00), 0);
    assert_eq!(read_cpr_longitude(0x00, 0x01, 0x00), 256);
    assert_eq!(read_cpr_longitude(0x00, 0x00, 0x01), 1);
    assert_eq!(read_cpr_longitude(0xFF, 0xFF, 0xFF), 131071);
    assert_eq!(read_cpr_longitude(0x90, 0xC8, 0xAC), 0x0C8AC);
}

#[test]
fn odd_flag_is_bit_of_value_four() {
    assert!(read_cpr_odd(0x04));
    assert!(read_cpr_odd(0xFF));
    assert!(!read_cpr_odd(0x00));
    assert!(!read_cpr_odd(0xFB));
    let odd = payload_with([1, 2, 3], 11, 0x0D4, true, 1, 1);
    let even = payload_with([1, 2, 3], 11, 0x0D4, false, 1, 1);
    assert!(read_cpr_odd(odd[6]));
    assert!(!read_cpr_odd(even[6]));
}

#[test]
fn odd_flag_does_not_change_position() {
    let odd = ModeSMessage {
        message_type: 0x1A,
        payload: payload_with([1, 2, 3], 11, 0x0D4, true, 4242, 2424),
    };
    let even = ModeSMessage {
        message_type: 0x1A,
        payload: payload_with([1, 2, 3], 11, 0x0D4, false, 4242, 2424),
    };
    assert_eq!(odd.get_aircraft_position(), even.get_aircraft_position());
}

#[test]
fn address_is_six_upper_case_hex_digits() {
    for (icao, text) in [
        ([0x48u8, 0x40, 0xD6], "4840D6"),
        ([0xAB, 0xCD, 0xEF], "ABCDEF"),
        ([0x00, 0x00, 0x0A], "00000A"),
        ([0xFF, 0xFF, 0xFF], "FFFFFF"),
        ([0x01, 0x23, 0x45], "012345"),
        ([0x67, 0x89, 0x9A], "67899A"),
    ] {
        let message = ModeSMessage {
            message_type: 0x1A,
            payload: payload_with(icao, 11, 0x0D4, false, 0, 0),
        };
        let (found, _) = message.get_aircraft_position().expect("an airborne position");
        assert_eq!(found, text);
        assert_eq!(found, format!("{:02X}{:02X}{:02X}", icao[0], icao[1], icao[2]));
    }
}

#[test]
fn same_message_gives_same_position() {
    let message = ModeSMessage {
        message_type: 0x1A,
        payload: payload_with([0x48, 0x40, 0xD6], 15, 0x5B7, true, 77777, 11111),
    };
    assert_eq!(message.get_aircraft_position(), message.get_aircraft_position());
}

#[test]
fn push_hex_writes_every_byte_as_two_digits() {
    for byte in 0u8..=255 {
        let mut text = String::from("x");
        push_hex(&mut text, byte);
        assert_eq!(text, format!("x{:02X}", byte));
    }
}
