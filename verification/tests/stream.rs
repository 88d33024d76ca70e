use flac::error::ErrorKind;
use flac::metadata::{Data, Metadata, StreamInfo};
use flac::stream::Stream;
use flac::utility::{crc16, crc8};

/// The little-endian bytes of the decoded samples, two bytes per 16-bit
/// sample, in stream order.
fn sample_bytes(samples: &[i64]) -> Vec<u8> {
    let mut bytes: Vec<u8> = Vec::new();
    for sample in samples {
        bytes.push(*sample as u8);
        bytes.push((*sample >> 8) as u8);
    }
    bytes
}

/// A complete stream: STREAMINFO for two 16-bit channels with four samples
/// per channel, then one frame whose two subframes are CONSTANT(+1000).
fn constant_stereo_stream() -> Vec<u8> {
    let md5_sum: [u8; 16] = md5::compute(&sample_bytes(&[1000; 8])).0;
    let info = StreamInfo {
        min_block_size: 4,
        max_block_size: 4,
        min_frame_size: 0,
        max_frame_size: 0,
        sample_rate: 8000,
        channels: 2,
        bits_per_sample: 16,
        total_samples: 4,
        md5_sum,
    };

    let mut bytes = b"fLaC".to_vec();
    bytes.extend_from_slice(&Metadata::new(true, 34, Data::StreamInfo(info)).to_bytes());

    // Frame header: sync + fixed strategy; block-size code 6 with one
    // secondary byte (3 + 1 = 4 samples); sample-rate code 4 (8000 Hz);
    // two independent channels at 16 bits; frame number 0.
    let mut frame: Vec<u8> = vec![0xff, 0xf8, 0x64, 0x18, 0x00, 0x03];
    let header_crc = crc8(&frame);
    frame.push(header_crc);

    // Two CONSTANT subframes holding +1000 as a 16-bit value.
    frame.extend_from_slice(&[0x00, 0x03, 0xe8]);
    frame.extend_from_slice(&[0x00, 0x03, 0xe8]);

    let footer_crc = crc16(&frame);
    frame.push((footer_crc >> 8) as u8);
    frame.push(footer_crc as u8);

    bytes.extend_from_slice(&frame);
    bytes
}

fn decode_all(stream: &mut Stream) -> Vec<i64> {
    let mut samples: Vec<i64> = Vec::new();
    loop {
        match stream.next_sample() {
            Ok(sample) => samples.push(sample),
            Err(ErrorKind::EndOfInput) => break,
            Err(e) => panic!("unexpected decode error: {:?}", e),
        }
    }
    samples
}

#[test]
fn test_constant_stereo_frame() {
    let bytes = constant_stereo_stream();
    let mut stream = Stream::from_buffer(&bytes).unwrap();

    let info = stream.info();
    assert_eq!(info.channels, 2);
    assert_eq!(info.bits_per_sample, 16);
    assert_eq!(info.total_samples, 4);

    let samples = decode_all(&mut stream);
    assert_eq!(samples, vec![1000, 1000, 1000, 1000, 1000, 1000, 1000, 1000]);
}

#[test]
fn test_sample_count_matches_stream_info() {
    let bytes = constant_stereo_stream();
    let mut stream = Stream::from_buffer(&bytes).unwrap();
    let info = stream.info();

    let samples = decode_all(&mut stream);
    assert_eq!(
        samples.len() as u64,
        info.total_samples * (info.channels as u64)
    );
    assert_eq!(samples.len() as u64, stream.declared_sample_count());
}

#[test]
fn test_decoded_md5_sum() {
    let bytes = constant_stereo_stream();
    let mut stream = Stream::from_buffer(&bytes).unwrap();
    let info = stream.info();

    let samples = decode_all(&mut stream);
    let digest = md5::compute(&sample_bytes(&samples));

    assert_eq!(digest.0, info.md5_sum);
}

#[test]
fn test_single_byte_reader_matches_buffer() {
    let bytes = constant_stereo_stream();

    let mut whole = Stream::from_buffer(&bytes).unwrap();
    let whole_samples = decode_all(&mut whole);

    let mut trickle = Stream::new();
    let mut fed: usize = 0;
    loop {
        match trickle.process_metadata() {
            Ok(()) => break,
            Err(_) if fed < bytes.len() => {
                assert!(trickle.feed(&bytes[fed..fed + 1]));
                fed += 1;
            },
            Err(e) => panic!("metadata failed: {:?}", e),
        }
    }

    let mut trickle_samples: Vec<i64> = Vec::new();
    loop {
        match trickle.next_sample() {
            Ok(sample) => trickle_samples.push(sample),
            Err(_) if fed < bytes.len() => {
                assert!(trickle.feed(&bytes[fed..fed + 1]));
                fed += 1;
            },
            Err(ErrorKind::EndOfInput) => break,
            Err(e) => panic!("decode failed: {:?}", e),
        }
    }

    assert_eq!(whole_samples, trickle_samples);
    assert_eq!(whole.info(), trickle.info());
    assert_eq!(whole.metadata().len(), trickle.metadata().len());
}

#[test]
fn test_corrupt_frame_crc_is_terminal() {
    let mut bytes = constant_stereo_stream();
    let last = bytes.len() - 1;
    bytes[last] ^= 0x01;

    let mut stream = Stream::from_buffer(&bytes).unwrap();
    assert_eq!(stream.next_sample(), Err(ErrorKind::InvalidCRC16));
}

#[test]
fn test_missing_signature() {
    assert_eq!(
        Stream::from_buffer(b"not a flac stream").unwrap_err(),
        ErrorKind::HeaderParser
    );
}

/// A mono stream whose single frame is a FIXED subframe of order zero:
/// the Rice-coded residuals are the output samples themselves.
fn fixed_mono_stream() -> Vec<u8> {
    let info = StreamInfo {
        min_block_size: 4,
        max_block_size: 4,
        min_frame_size: 0,
        max_frame_size: 0,
        sample_rate: 8000,
        channels: 1,
        bits_per_sample: 8,
        total_samples: 4,
        md5_sum: [0; 16],
    };

    let mut bytes = b"fLaC".to_vec();
    bytes.extend_from_slice(&Metadata::new(true, 34, Data::StreamInfo(info)).to_bytes());

    // One mono channel at 8 bits, four samples, frame number 0.
    let mut frame: Vec<u8> = vec![0xff, 0xf8, 0x64, 0x02, 0x00, 0x03];
    let header_crc = crc8(&frame);
    frame.push(header_crc);

    // FIXED order 0; Rice method, one partition, parameter 2; the coded
    // residuals decode to 3, -2, 1, 0.
    frame.extend_from_slice(&[0x10, 0x00, 0x9b, 0xe8]);

    let footer_crc = crc16(&frame);
    frame.push((footer_crc >> 8) as u8);
    frame.push(footer_crc as u8);

    bytes.extend_from_slice(&frame);
    bytes
}

#[test]
fn test_fixed_mono_frame() {
    let bytes = fixed_mono_stream();
    let mut stream = Stream::from_buffer(&bytes).unwrap();

    let samples = decode_all(&mut stream);
    assert_eq!(samples, vec![3, -2, 1, 0]);
}
