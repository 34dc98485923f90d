use psylink::firmware::PROTOCOL_HEADER_LEN;
use psylink::protocol::{delay_codes, to_physical, DecodeError, Decoder, SampleLayout};

const SAMPLE_DELAY_PARAM_A: f64 = -11.3384217;
const SAMPLE_DELAY_PARAM_B: f64 = 1.93093431;

fn delay_from_code(code: u8) -> f64 {
    ((code as f64 - SAMPLE_DELAY_PARAM_A) / SAMPLE_DELAY_PARAM_B).exp()
}

fn assert_close(value: f64, expected: f64, tolerance: f64) {
    assert!(
        (value - expected).abs() <= tolerance,
        "{value} differs from {expected} by more than {tolerance}"
    );
}

#[test]
fn test_decoding() {
    let channel_count = 8;
    let mut decoder = Decoder::with_layout(channel_count, PROTOCOL_HEADER_LEN, SampleLayout::Interleaved);
    let packet_data_1: Vec<u8> = vec![
        45, 21, 127, 124, 126, 175, 122, 239, 122, 6, 139, 110, 128, 131, 94, 116, 123, 205, 159,
        103, 128, 136, 90, 133, 120, 203, 144, 104, 85, 136, 86, 133, 121, 6, 143, 130, 130, 139,
        94, 146, 122, 205, 138, 130, 128, 137, 95, 132, 124, 205, 144, 138, 127, 139, 94, 138, 122,
        6, 144, 108, 86, 133, 87, 108, 121, 17, 145, 103, 85, 137, 88, 119, 123, 205, 158, 119,
        129, 131, 95, 119, 121, 15, 143, 112, 84, 134, 87, 124, 122, 6, 143, 114, 86, 132, 90, 120,
        124, 205, 160, 107, 126, 138, 92, 148, 121, 205, 147, 100, 87, 136, 90, 134, 121, 16, 146,
        112, 83, 133, 88, 124, 121, 205, 146, 103, 93, 135, 94, 133, 121, 17, 145, 104, 125, 135,
        93, 131, 122, 42, 143, 109, 81, 137, 90, 143, 123, 205, 157, 124, 125, 139, 91, 156, 122,
        205, 147, 101, 86, 137, 87, 132, 124, 205, 153, 129, 126, 139, 94, 145, 122, 205, 146, 101,
        83, 137, 88, 133, 121, 205, 148, 100, 90, 136, 89, 133, 121, 22, 144, 128, 128, 138, 95,
        143, 122, 205, 159, 115, 126, 138, 94, 147, 120, 205, 147, 102, 82, 136, 88, 133,
    ];
    let packet_data_2: Vec<u8> = vec![
        47, 21, 127, 124, 126, 174, 129, 240, 122, 27, 139, 116, 82, 134, 103, 127, 123, 205, 140,
        106, 86, 136, 103, 129, 122, 205, 142, 108, 86, 137, 104, 127, 122, 205, 142, 108, 86, 135,
        106, 127, 122, 205, 145, 106, 87, 135, 106, 127, 123, 205, 155, 118, 125, 140, 103, 128,
        123, 205, 154, 120, 124, 140, 103, 129, 123, 205, 157, 111, 124, 140, 103, 128, 124, 205,
        138, 131, 124, 137, 102, 128, 124, 205, 154, 120, 124, 140, 102, 129, 124, 205, 151, 120,
        123, 140, 101, 129, 121, 205, 140, 121, 124, 139, 99, 130, 123, 205, 142, 108, 82, 136,
        105, 127, 121, 12, 139, 120, 126, 133, 103, 128, 122, 205, 144, 109, 83, 135, 105, 127,
        122, 205, 151, 106, 102, 135, 104, 127, 124, 205, 152, 106, 100, 134, 104, 127, 121, 184,
        139, 130, 125, 137, 100, 130, 122, 205, 138, 123, 124, 138, 100, 129, 122, 12, 138, 131,
        125, 131, 104, 125, 123, 205, 155, 107, 124, 135, 105, 126, 124, 205, 153, 106, 124, 135,
        104, 126, 122, 191, 140, 122, 124, 137, 101, 129, 122, 12, 139, 132, 124, 136, 101, 130,
        124, 205, 153, 106, 125, 136, 103, 127,
    ];

    let packet = decoder.decode_packet(packet_data_1);
    assert!(packet.is_ok());
    let packet = packet.unwrap();

    assert_eq!(packet.channel_count, channel_count);
    assert_eq!(packet.tick, 45);
    assert_eq!(packet.is_duplicate, false);
    assert_close(delay_from_code(packet.min_delay_code), 595.779, 1e-3);
    assert_close(delay_from_code(packet.max_delay_code), 4728.708, 1e-3);
    assert_eq!(packet.lost_packets, 0);

    let packet = decoder.decode_packet(packet_data_2);
    assert!(packet.is_ok());
    let packet = packet.unwrap();
    assert_eq!(packet.tick, 47);
    assert_eq!(packet.lost_packets, 1); // packet 46 was missing
}

#[test]
fn reference_packet_frames() {
    let mut decoder = Decoder::with_layout(8, PROTOCOL_HEADER_LEN, SampleLayout::Interleaved);
    let mut raw: Vec<u8> = vec![45, 21, 127, 124, 126, 175, 122, 239];
    raw.extend_from_slice(&[122, 6, 139, 110, 128, 131, 94, 116]);
    raw.extend_from_slice(&[123, 205, 159, 103, 128, 136, 90, 133]);
    let packet = decoder.decode_packet(raw).unwrap();
    assert_eq!(packet.sample_count, 2);
    assert_eq!(packet.samples.len(), 8);
    assert_eq!(packet.samples[0], vec![122, 123]);
    assert_eq!(packet.samples[1], vec![6, 205]);
    assert_eq!(packet.samples[7], vec![116, 133]);
}

#[test]
fn default_layout_reads_samples_after_two_bytes() {
    let mut decoder = Decoder::new(2);
    let packet = decoder.decode_packet(vec![9, 0x15, 1, 2, 3, 4, 5, 6]).unwrap();
    assert_eq!(packet.tick, 9);
    assert_eq!(packet.sample_count, 3);
    assert_eq!(packet.samples, vec![vec![1, 3, 5], vec![2, 4, 6]]);
}

#[test]
fn blocked_layout_reads_channel_after_channel() {
    let mut decoder = Decoder::with_layout(2, 2, SampleLayout::Blocked);
    let packet = decoder.decode_packet(vec![9, 0x15, 1, 2, 3, 4, 5, 6]).unwrap();
    assert_eq!(packet.samples, vec![vec![1, 2, 3], vec![4, 5, 6]]);
}

#[test]
fn empty_payload_gives_empty_rows() {
    let mut decoder = Decoder::new(3);
    let packet = decoder.decode_packet(vec![1, 2]).unwrap();
    assert_eq!(packet.sample_count, 0);
    assert_eq!(packet.samples, vec![Vec::<u8>::new(), Vec::new(), Vec::new()]);
}

#[test]
fn short_packets_are_truncated() {
    let mut decoder = Decoder::new(1);
    assert_eq!(decoder.decode_packet(vec![]).err(), Some(DecodeError::Truncated));
    assert_eq!(decoder.decode_packet(vec![7]).err(), Some(DecodeError::Truncated));
    assert_eq!(decoder.last_tick(), None);
    let mut device = Decoder::with_layout(1, PROTOCOL_HEADER_LEN, SampleLayout::Interleaved);
    assert_eq!(device.decode_packet(vec![1, 2, 3, 4, 5, 6, 7]).err(), Some(DecodeError::Truncated));
}

#[test]
fn uneven_payload_is_misaligned() {
    let mut decoder = Decoder::new(2);
    assert_eq!(decoder.decode_packet(vec![1, 0, 5, 6, 7]).err(), Some(DecodeError::Misaligned));
    let mut no_channels = Decoder::new(0);
    assert_eq!(no_channels.decode_packet(vec![1, 0]).err(), Some(DecodeError::Misaligned));
}

#[test]
fn failed_decode_keeps_last_tick() {
    let mut decoder = Decoder::new(2);
    decoder.decode_packet(vec![10, 0, 1, 2]).unwrap();
    assert_eq!(decoder.last_tick(), Some(10));
    assert!(decoder.decode_packet(vec![11, 0, 1]).is_err());
    assert_eq!(decoder.last_tick(), Some(10));
    let packet = decoder.decode_packet(vec![12, 0]).unwrap();
    assert_eq!(packet.lost_packets, 1);
    assert!(!packet.is_duplicate);
}

#[test]
fn same_tick_twice_is_duplicate() {
    for t in [0u8, 1, 77, 255] {
        let mut decoder = Decoder::new(1);
        let first = decoder.decode_packet(vec![t, 0x33, 9]).unwrap();
        assert!(!first.is_duplicate);
        assert_eq!(first.lost_packets, 0);
        let second = decoder.decode_packet(vec![t, 0x33, 9]).unwrap();
        assert!(second.is_duplicate);
        assert_eq!(second.lost_packets, 255);
    }
}

#[test]
fn lost_count_wraps_around() {
    let mut decoder = Decoder::new(1);
    decoder.decode_packet(vec![250, 0]).unwrap();
    let packet = decoder.decode_packet(vec![3, 0]).unwrap();
    assert_eq!(packet.lost_packets, (3 + 256) - 250 - 1);
    assert_eq!(packet.lost_packets, 8);
    assert!(!packet.is_duplicate);
}

#[test]
fn consecutive_ticks_lose_nothing() {
    let mut decoder = Decoder::new(1);
    decoder.decode_packet(vec![255, 0]).unwrap();
    let packet = decoder.decode_packet(vec![0, 0]).unwrap();
    assert_eq!(packet.lost_packets, 0);
    let packet = decoder.decode_packet(vec![1, 0]).unwrap();
    assert_eq!(packet.lost_packets, 0);
}

#[test]
fn delay_byte_splits_into_nibbles() {
    assert_eq!(delay_codes(21), (1, 5));
    assert_eq!(delay_codes(0x06), (0, 6));
    assert_eq!(delay_codes(0xab), (10, 11));
    assert_eq!(delay_codes(0xff), (15, 15));
    assert_eq!(delay_codes(0), (0, 0));
}

#[test]
fn reference_delay_values() {
    let (min_code, max_code) = delay_codes(21);
    assert_close(delay_from_code(min_code), 595.779, 1e-3);
    assert_close(delay_from_code(max_code), 4728.708, 1e-3);
}

#[test]
fn physical_values_center_at_zero() {
    assert_eq!(to_physical(127), 0);
    assert_eq!(to_physical(0), -127);
    assert_eq!(to_physical(255), 128);
}
