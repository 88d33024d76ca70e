use flac::error::ErrorKind;
use flac::frame::{
    adjust_bits_per_sample, block_sample, blocking_strategy, channel_bits, decode,
    decode_left_side, decode_midpoint_side, decode_right_side, footer, header, number_type,
    secondary_block_size, secondary_sample_rate, utf8_header, ChannelAssignment, Footer, Header,
    NumberType,
};
use flac::metadata::StreamInfo;

#[test]
fn test_blocking_strategy() {
    assert_eq!(blocking_strategy(b"\xff\xf8"), Ok((false, 2)));
    assert_eq!(blocking_strategy(b"\xff\xf9"), Ok((true, 2)));
    assert_eq!(blocking_strategy(b"\xfe\xf8"), Err(ErrorKind::BlockingStrategyParser));
    assert_eq!(blocking_strategy(b"\xff\xfa"), Err(ErrorKind::BlockingStrategyParser));
}

#[test]
fn test_block_sample() {
    assert_eq!(block_sample(b"\xf9"), Ok(((0x0f, 0x09), 1)));
    assert_eq!(block_sample(b"\x1a"), Ok(((0x01, 0x0a), 1)));
    assert_eq!(block_sample(b"\x0b"), Err(ErrorKind::BlockingSampleParser));
    assert_eq!(block_sample(b"\x4f"), Err(ErrorKind::BlockingSampleParser));
}

#[test]
fn test_channel_bits() {
    assert_eq!(
        channel_bits(b"\x58"),
        Ok(((ChannelAssignment::Independent, 6, 4), 1))
    );
    assert_eq!(channel_bits(b"\x80"), Ok(((ChannelAssignment::LeftSide, 2, 0), 1)));
    assert_eq!(
        channel_bits(b"\xac"),
        Ok(((ChannelAssignment::MidpointSide, 2, 6), 1))
    );
    assert_eq!(channel_bits(b"\xf2"), Err(ErrorKind::ChannelBitsParser));
    assert_eq!(channel_bits(b"\xae"), Err(ErrorKind::ChannelBitsParser));
    assert_eq!(channel_bits(b"\x91"), Err(ErrorKind::ChannelBitsParser));
}

#[test]
fn test_utf8_header() {
    assert_eq!(utf8_header(b"\x74", false), Ok((Some((0, 116)), 1)));
    assert_eq!(utf8_header(b"\xfc", true), Ok((Some((5, 0)), 1)));
    assert_eq!(utf8_header(b"\xfe", false), Ok((None, 1)));
    assert_eq!(utf8_header(b"\xfe", true), Ok((Some((6, 0)), 1)));
    assert_eq!(utf8_header(b"\xff", false), Ok((None, 1)));
    assert_eq!(utf8_header(b"\xff", true), Ok((None, 1)));
}

#[test]
fn test_number_type() {
    assert_eq!(
        number_type(b"\xa0", false, 1, 0x00),
        Ok((NumberType::Frame(32), 1))
    );
    assert_eq!(
        number_type(b"\xaa\xaa", true, 2, 0x0a),
        Ok((NumberType::Sample(43690), 2))
    );
    assert_eq!(
        number_type(b"\x80\x80\x88\x80\x80", false, 5, 0x00),
        Ok((NumberType::Frame(32768), 5))
    );
    assert_eq!(
        number_type(b"\xbf\x80\xbf\x80\xbf\x80", true, 6, 0x00),
        Ok((NumberType::Sample(67662254016), 6))
    );
    assert_eq!(
        number_type(b"\x41", false, 1, 0x00),
        Err(ErrorKind::UTF8BodyParser)
    );
}

#[test]
fn test_secondary_block_size() {
    assert_eq!(secondary_block_size(b"\x4b", 0b0110), Ok((Some(75), 1)));
    assert_eq!(secondary_block_size(b"\x01\0", 0b0111), Ok((Some(256), 2)));
    assert_eq!(secondary_block_size(&[], 0b1111), Ok((None, 0)));
}

#[test]
fn test_secondary_sample_rate() {
    assert_eq!(secondary_sample_rate(b"\x1a", 0b1100), Ok((Some(26), 1)));
    assert_eq!(secondary_sample_rate(b"\x10\x04", 0b1110), Ok((Some(4100), 2)));
    assert_eq!(secondary_sample_rate(&[], 0b1111), Ok((None, 0)));
}

#[test]
fn parser_test_header() {
    let mut info = StreamInfo::new();
    info.bits_per_sample = 16;

    assert_eq!(
        header(b"\xff\xf8\x53\x1c\xf0\x90\x80\x80\x2e", &info),
        Ok((
            Header {
                block_size: 4608,
                sample_rate: 192000,
                channels: 2,
                channel_assignment: ChannelAssignment::Independent,
                bits_per_sample: 24,
                number: NumberType::Frame(65536),
                crc: 0x2e,
            },
            9
        ))
    );

    assert_eq!(
        header(
            b"\xff\xf9\x7c\xa0\xfe\xbf\xbf\xbf\xbf\xbf\xbc\x01\xff\x01\x88",
            &info
        ),
        Ok((
            Header {
                block_size: 512,
                sample_rate: 1000,
                channels: 2,
                channel_assignment: ChannelAssignment::MidpointSide,
                bits_per_sample: 16,
                number: NumberType::Sample(68719476732),
                crc: 0x88,
            },
            15
        ))
    );

    assert_eq!(
        header(b"\xff\xf8\xc8\x72\x40\x19", &info),
        Ok((
            Header {
                block_size: 4096,
                sample_rate: 32000,
                channels: 8,
                channel_assignment: ChannelAssignment::Independent,
                bits_per_sample: 8,
                number: NumberType::Frame(64),
                crc: 0x19,
            },
            6
        ))
    );
}

#[test]
fn test_header_bad_crc() {
    let mut info = StreamInfo::new();
    info.bits_per_sample = 16;

    assert_eq!(
        header(b"\xff\xf8\x53\x1c\xf0\x90\x80\x80\x2f", &info),
        Err(ErrorKind::InvalidCRC8)
    );
}

#[test]
fn test_footer() {
    assert_eq!(footer(b"\x03\xe8"), Ok((Footer(0x03e8), 2)));
}

fn sample_header() -> Header {
    Header {
        block_size: 512,
        sample_rate: 41000,
        channels: 2,
        channel_assignment: ChannelAssignment::Independent,
        bits_per_sample: 16,
        number: NumberType::Sample(40),
        crc: 0xc4,
    }
}

#[test]
fn test_adjust_bits_per_sample() {
    let mut frame_header = sample_header();

    assert_eq!(adjust_bits_per_sample(&frame_header, 0), 16);
    assert_eq!(adjust_bits_per_sample(&frame_header, 1), 16);

    frame_header.channel_assignment = ChannelAssignment::LeftSide;

    assert_eq!(adjust_bits_per_sample(&frame_header, 0), 16);
    assert_eq!(adjust_bits_per_sample(&frame_header, 1), 17);

    frame_header.channel_assignment = ChannelAssignment::RightSide;

    assert_eq!(adjust_bits_per_sample(&frame_header, 0), 17);
    assert_eq!(adjust_bits_per_sample(&frame_header, 1), 16);

    frame_header.channel_assignment = ChannelAssignment::MidpointSide;

    assert_eq!(adjust_bits_per_sample(&frame_header, 0), 16);
    assert_eq!(adjust_bits_per_sample(&frame_header, 1), 17);
}

#[test]
fn parser_test_adjust_bits_per_sample() {
    let mut frame_header = sample_header();
    frame_header.channel_assignment = ChannelAssignment::LeftSide;

    assert_eq!(adjust_bits_per_sample(&frame_header, 0), 16);
    assert_eq!(adjust_bits_per_sample(&frame_header, 1), 17);
}

#[test]
fn test_decode_left_side() {
    let mut channels: Vec<i64> = vec![
        2, 5, 83, 113, 127, -63, -45, -15, 7, 38, 142, 238, 0, -152, -52, -18,
    ];
    let result: Vec<i64> = vec![-5, -33, -59, -125, 127, 89, 7, 3];

    assert!(decode_left_side(&mut channels));

    assert_eq!(&channels[8..16], &result[..]);
}

#[test]
fn test_decode_right_side() {
    let mut channels: Vec<i64> = vec![
        7, 38, 142, 238, 0, -152, -52, -18, -5, -33, -59, -125, 127, 89, 7, 3,
    ];
    let result: Vec<i64> = vec![2, 5, 83, 113, 127, -63, -45, -15];

    assert!(decode_right_side(&mut channels));

    assert_eq!(&channels[0..8], &result[..]);
}

#[test]
fn test_decode_midpoint_side() {
    let mut channels: Vec<i64> = vec![
        -2, -14, 12, -6, 127, 13, -19, -6, 7, 38, 142, 238, 0, -152, -52, -18,
    ];
    let results: Vec<i64> = vec![
        2, 5, 83, 113, 127, -63, -45, -15, -5, -33, -59, -125, 127, 89, 7, 3,
    ];

    assert!(decode_midpoint_side(&mut channels));

    assert_eq!(channels, results);
}

#[test]
fn decoder_test_decode() {
    let mut channels: Vec<i64> = vec![
        2, 5, 83, 113, 127, -63, -45, -15, 7, 38, 142, 238, 0, -152, -52, -18,
    ];

    let results = [
        vec![2i64, 5, 83, 113, 127, -63, -45, -15, 7, 38, 142, 238, 0, -152, -52, -18],
        vec![2i64, 5, 83, 113, 127, -63, -45, -15, -5, -33, -59, -125, 127, 89, 7, 3],
    ];

    assert!(decode(ChannelAssignment::Independent, &mut channels));
    assert_eq!(channels, results[0]);

    channels = vec![2, 5, 83, 113, 127, -63, -45, -15, 7, 38, 142, 238, 0, -152, -52, -18];

    assert!(decode(ChannelAssignment::LeftSide, &mut channels));
    assert_eq!(channels, results[1]);

    channels = vec![7, 38, 142, 238, 0, -152, -52, -18, -5, -33, -59, -125, 127, 89, 7, 3];

    assert!(decode(ChannelAssignment::RightSide, &mut channels));
    assert_eq!(channels, results[1]);

    channels = vec![-2, -14, 12, -6, 127, 13, -19, -6, 7, 38, 142, 238, 0, -152, -52, -18];

    assert!(decode(ChannelAssignment::MidpointSide, &mut channels));
    assert_eq!(channels, results[1]);
}
