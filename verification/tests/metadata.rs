use flac::chain::{get_cue_sheet, get_metadata, get_picture, get_stream_info, get_vorbis_comment,
    optional_eq};
use flac::error::ErrorKind;
use flac::metadata::{
    Application, CueSheet, CueSheetTrack, CueSheetTrackIndex, Data, Metadata, Picture,
    PictureType, SeekPoint, StreamInfo, VorbisComment,
};
use flac::metadata_parser::{
    application, block_data, cue_sheet, header, metadata_parser, padding, picture, seek_table,
    stream_info, unknown, vorbis_comment,
};

#[test]
fn test_header() {
    assert_eq!(header(b"\x80\0\0\x22"), Ok(((true, 0, 34), 4)));
    assert_eq!(header(b"\x01\0\x04\0"), Ok(((false, 1, 1024), 4)));
    assert_eq!(header(b"\x84\0\0\xf8"), Ok(((true, 4, 248), 4)));
}

#[test]
fn test_stream_info() {
    let input = b"\x12\0\x12\0\0\0\x0e\0\0\x10\x01\xf4\x02\x70\0\x01\x38\x80\
                  \xa0\x42\x23\x7c\x54\x93\xfd\xb9\x65\x6b\x94\xa8\x36\x08\
                  \xd1\x1a";
    let result = Data::StreamInfo(StreamInfo {
        min_block_size: 4608,
        max_block_size: 4608,
        min_frame_size: 14,
        max_frame_size: 16,
        sample_rate: 8000,
        channels: 2,
        bits_per_sample: 8,
        total_samples: 80000,
        md5_sum: [
            0xa0, 0x42, 0x23, 0x7c, 0x54, 0x93, 0xfd, 0xb9, 0x65, 0x6b, 0x94, 0xa8, 0x36, 0x08,
            0xd1, 0x1a,
        ],
    });

    assert_eq!(stream_info(input), Ok((result, 34)));
}

#[test]
fn test_padding() {
    assert_eq!(padding(b"\0\0\0\0\0\0\0\0\0\0", 10), Ok((Data::Padding(10), 10)));
    assert_eq!(
        padding(b"\0\0\0\0\x01\0\0\0\0\0", 10),
        Err(ErrorKind::PaddingParser)
    );
}

#[test]
fn test_padding_roundtrip() {
    let block = Metadata::new(false, 10, Data::Padding(10));
    let bytes = block.to_bytes();

    let (parsed, consumed) = metadata_parser(&bytes).unwrap();
    assert_eq!(consumed, bytes.len());
    assert_eq!(parsed.data, Data::Padding(10));
}

#[test]
fn test_application() {
    assert_eq!(
        application(b"fake", 4),
        Ok((
            Data::Application(Application { id: "fake".to_owned(), data: vec![] }),
            4
        ))
    );
    assert_eq!(
        application(b"rifffake data", 13),
        Ok((
            Data::Application(Application {
                id: "riff".to_owned(),
                data: b"fake data".to_vec(),
            }),
            13
        ))
    );
}

#[test]
fn test_seek_table() {
    let input = b"\0\0\0\0\0\0\0\0\0\0\0\0\0\0\0\0\x12\0\0\0\0\0\0\0\x12\0\0\
                  \0\0\0\0\0\0\x0e\x04\xf8\xff\xff\xff\xff\xff\xff\xff\xff\0\
                  \0\0\0\0\0\0\0\0\0\xff\xff\xff\xff\xff\xff\xff\xff\0\0\0\0\
                  \0\0\0\0\0\0\xff\xff\xff\xff\xff\xff\xff\xff\0\0\0\0\0\0\0\
                  \0\0\0";
    let result = Data::SeekTable(vec![
        SeekPoint { sample_number: 0, stream_offset: 0, frame_samples: 4608 },
        SeekPoint { sample_number: 4608, stream_offset: 14, frame_samples: 1272 },
        SeekPoint { sample_number: 0xffffffffffffffff, stream_offset: 0, frame_samples: 0 },
        SeekPoint { sample_number: 0xffffffffffffffff, stream_offset: 0, frame_samples: 0 },
        SeekPoint { sample_number: 0xffffffffffffffff, stream_offset: 0, frame_samples: 0 },
    ]);

    assert_eq!(seek_table(input, 5 * 18), Ok((result, 90)));
}

#[test]
fn test_vorbis_comment() {
    let input = b"\x20\0\0\0reference libFLAC 1.1.3 20060805\x06\0\0\0\
                  \x20\0\0\0REPLAYGAIN_TRACK_PEAK=0.99996948\
                  \x1e\0\0\0REPLAYGAIN_TRACK_GAIN=-7.89 dB\
                  \x20\0\0\0REPLAYGAIN_ALBUM_PEAK=0.99996948\
                  \x1e\0\0\0REPLAYGAIN_ALBUM_GAIN=-7.89 dB\
                  \x08\0\0\0artist=1\x07\0\0\0title=2";

    let comments = vec![
        ("REPLAYGAIN_TRACK_PEAK".to_owned(), "0.99996948".to_owned()),
        ("REPLAYGAIN_TRACK_GAIN".to_owned(), "-7.89 dB".to_owned()),
        ("REPLAYGAIN_ALBUM_PEAK".to_owned(), "0.99996948".to_owned()),
        ("REPLAYGAIN_ALBUM_GAIN".to_owned(), "-7.89 dB".to_owned()),
        ("artist".to_owned(), "1".to_owned()),
        ("title".to_owned(), "2".to_owned()),
    ];
    let result = Data::VorbisComment(VorbisComment {
        vendor_string: "reference libFLAC 1.1.3 20060805".to_owned(),
        comments,
    });

    assert_eq!(vorbis_comment(input), Ok((result, input.len())));
}

fn sample_cue_sheet_bytes() -> Vec<u8> {
    let mut b: Vec<u8> = Vec::new();
    b.extend_from_slice(b"1234567890123");
    b.resize(128, 0);
    b.extend_from_slice(&88200u64.to_be_bytes());
    b.push(0x80);
    b.resize(b.len() + 258, 0);
    b.push(3);
    // first track, two index points
    b.extend_from_slice(&0u64.to_be_bytes());
    b.push(1);
    b.extend_from_slice(&[0u8; 12]);
    b.push(0);
    b.extend_from_slice(&[0u8; 13]);
    b.push(2);
    b.extend_from_slice(&0u64.to_be_bytes());
    b.push(1);
    b.extend_from_slice(&[0u8; 3]);
    b.extend_from_slice(&588u64.to_be_bytes());
    b.push(2);
    b.extend_from_slice(&[0u8; 3]);
    // second track, one index point
    b.extend_from_slice(&2940u64.to_be_bytes());
    b.push(2);
    b.extend_from_slice(&[0u8; 12]);
    b.push(0);
    b.extend_from_slice(&[0u8; 13]);
    b.push(1);
    b.extend_from_slice(&0u64.to_be_bytes());
    b.push(1);
    b.extend_from_slice(&[0u8; 3]);
    // lead-out track
    b.extend_from_slice(&5880u64.to_be_bytes());
    b.push(170);
    b.extend_from_slice(&[0u8; 12]);
    b.push(0);
    b.extend_from_slice(&[0u8; 13]);
    b.push(0);
    b
}

fn sample_cue_sheet() -> CueSheet {
    let mut media_catalog_number = String::from("1234567890123");
    while media_catalog_number.len() < 128 {
        media_catalog_number.push('\0');
    }
    let isrc = "\0\0\0\0\0\0\0\0\0\0\0\0".to_owned();
    CueSheet {
        media_catalog_number,
        lead_in: 88200,
        is_cd: true,
        tracks: vec![
            CueSheetTrack {
                offset: 0,
                number: 1,
                isrc: isrc.clone(),
                is_audio: true,
                is_pre_emphasis: false,
                indices: vec![
                    CueSheetTrackIndex { offset: 0, number: 1 },
                    CueSheetTrackIndex { offset: 588, number: 2 },
                ],
            },
            CueSheetTrack {
                offset: 2940,
                number: 2,
                isrc: isrc.clone(),
                is_audio: true,
                is_pre_emphasis: false,
                indices: vec![CueSheetTrackIndex { offset: 0, number: 1 }],
            },
            CueSheetTrack {
                offset: 5880,
                number: 170,
                isrc,
                is_audio: true,
                is_pre_emphasis: false,
                indices: vec![],
            },
        ],
    }
}

#[test]
fn test_cue_sheet() {
    let input = sample_cue_sheet_bytes();
    let result = Data::CueSheet(sample_cue_sheet());

    assert_eq!(cue_sheet(&input), Ok((result, input.len())));
}

#[test]
fn test_cue_sheet_reserved_nonzero() {
    let mut input = sample_cue_sheet_bytes();
    input[200] = 0x01;

    assert_eq!(cue_sheet(&input), Err(ErrorKind::CueSheetParser));
}

#[test]
fn test_picture() {
    let input = b"\0\0\0\0\0\0\0\x09image/png\0\0\0\0\0\0\0\0\0\0\0\0\0\0\0\
                  \0\0\0\0\0\0\0\0\0";
    let result = Data::Picture(Picture {
        picture_type: PictureType::Other,
        mime_type: "image/png".to_owned(),
        description: String::new(),
        width: 0,
        height: 0,
        depth: 0,
        colors: 0,
        data: vec![],
    });

    assert_eq!(picture(input), Ok((result, input.len())));
}

#[test]
fn test_unknown() {
    let input = b"random data that won't really be parsed anyway.";
    let result = Data::Unknown(input.to_vec());

    assert_eq!(unknown(input, 47), Ok((result, 47)));
}

#[test]
fn test_is_varied_block_size() {
    let mut info = StreamInfo::new();

    info.min_block_size = 512;
    info.max_block_size = 1024;

    assert!(info.is_varied_block_size());

    info.min_block_size = 2048;
    info.max_block_size = 2048;

    assert!(!info.is_varied_block_size());
}

#[test]
fn test_is_fixed_block_size() {
    let mut info = StreamInfo::new();

    info.min_block_size = 512;
    info.max_block_size = 512;

    assert!(info.is_fixed_block_size());

    info.min_block_size = 1024;
    info.max_block_size = 2048;

    assert!(!info.is_fixed_block_size());
}

#[test]
fn test_stream_info_to_bytes() {
    {
        let stream_info = StreamInfo {
            min_block_size: 4608,
            max_block_size: 4608,
            min_frame_size: 14,
            max_frame_size: 16,
            sample_rate: 8000,
            channels: 2,
            bits_per_sample: 8,
            total_samples: 80000,
            md5_sum: [
                0xa0, 0x42, 0x23, 0x7c, 0x54, 0x93, 0xfd, 0xb9, 0x65, 0x6b, 0x94, 0xa8, 0x36,
                0x08, 0xd1, 0x1a,
            ],
        };

        let input = Metadata::new(false, 34, Data::StreamInfo(stream_info));
        let result = b"\0\0\0\x22\x12\0\x12\0\0\0\x0e\0\0\x10\x01\xf4\x02\x70\
                       \0\x01\x38\x80\xa0\x42\x23\x7c\x54\x93\xfd\xb9\x65\x6b\
                       \x94\xa8\x36\x08\xd1\x1a";

        assert_eq!(&input.to_bytes()[..], &result[..]);
    }

    {
        let stream_info = StreamInfo {
            min_block_size: 4096,
            max_block_size: 4096,
            min_frame_size: 2731,
            max_frame_size: 21253,
            sample_rate: 48000,
            channels: 2,
            bits_per_sample: 24,
            total_samples: 10194762,
            md5_sum: [
                0xc6, 0x16, 0x1b, 0x2b, 0xb3, 0xf8, 0x1c, 0xa6, 0x72, 0x79, 0x1d, 0x96, 0xf0,
                0x9d, 0x0b, 0x0c,
            ],
        };

        let input = Metadata::new(true, 34, Data::StreamInfo(stream_info));
        let result = b"\x80\0\0\x22\x10\0\x10\0\0\x0a\xab\0\x53\x05\x0b\xb8\
                       \x03\x70\0\x9b\x8f\x4a\xc6\x16\x1b\x2b\xb3\xf8\x1c\xa6\
                       \x72\x79\x1d\x96\xf0\x9d\x0b\x0c";

        assert_eq!(&input.to_bytes()[..], &result[..]);
    }
}

#[test]
fn test_padding_to_bytes() {
    let input = Metadata::new(false, 10, Data::Padding(10));
    let result = b"\x01\0\0\x0a\0\0\0\0\0\0\0\0\0\0";

    assert_eq!(&input.to_bytes()[..], &result[..]);
}

#[test]
fn test_application_to_bytes() {
    {
        let application = Application { id: "fake".to_owned(), data: vec![] };

        let input = Metadata::new(true, 4, Data::Application(application));
        let result = b"\x82\0\0\x04fake";

        assert_eq!(&input.to_bytes()[..], &result[..]);
    }

    {
        let application = Application { id: "riff".to_owned(), data: b"fake data".to_vec() };

        let input = Metadata::new(false, 13, Data::Application(application));
        let result = b"\x02\0\0\x0drifffake data";

        assert_eq!(&input.to_bytes()[..], &result[..]);
    }
}

#[test]
fn test_seek_table_to_bytes() {
    let seek_points = vec![
        SeekPoint { sample_number: 0, stream_offset: 0, frame_samples: 4608 },
        SeekPoint { sample_number: 4608, stream_offset: 14, frame_samples: 1272 },
        SeekPoint { sample_number: 0xffffffffffffffff, stream_offset: 0, frame_samples: 0 },
        SeekPoint { sample_number: 0xffffffffffffffff, stream_offset: 0, frame_samples: 0 },
        SeekPoint { sample_number: 0xffffffffffffffff, stream_offset: 0, frame_samples: 0 },
    ];

    let input = Metadata::new(true, 90, Data::SeekTable(seek_points));
    let result = b"\x83\0\0\x5a\0\0\0\0\0\0\0\0\0\0\0\0\0\0\0\0\x12\0\0\0\0\
                   \0\0\0\x12\0\0\0\0\0\0\0\0\x0e\x04\xf8\xff\xff\xff\xff\
                   \xff\xff\xff\xff\0\0\0\0\0\0\0\0\0\0\xff\xff\xff\xff\xff\
                   \xff\xff\xff\0\0\0\0\0\0\0\0\0\0\xff\xff\xff\xff\xff\xff\
                   \xff\xff\0\0\0\0\0\0\0\0\0\0";

    assert_eq!(&input.to_bytes()[..], &result[..]);
}

#[test]
fn test_vorbis_comment_to_bytes() {
    let comments = vec![
        ("REPLAYGAIN_TRACK_PEAK".to_owned(), "0.99996948".to_owned()),
        ("REPLAYGAIN_TRACK_GAIN".to_owned(), "-7.89 dB".to_owned()),
        ("REPLAYGAIN_ALBUM_PEAK".to_owned(), "0.99996948".to_owned()),
        ("REPLAYGAIN_ALBUM_GAIN".to_owned(), "-7.89 dB".to_owned()),
        ("artist".to_owned(), "1".to_owned()),
        ("title".to_owned(), "2".to_owned()),
    ];
    let vorbis_comment = VorbisComment {
        vendor_string: "reference libFLAC 1.1.3 20060805".to_owned(),
        comments,
    };

    let input = Metadata::new(false, 203, Data::VorbisComment(vorbis_comment));
    let result = b"\x04\0\0\xcb\x20\0\0\0reference libFLAC 1.1.3 20060805\x06\0\0\0\
                   \x20\0\0\0REPLAYGAIN_TRACK_PEAK=0.99996948\
                   \x1e\0\0\0REPLAYGAIN_TRACK_GAIN=-7.89 dB\
                   \x20\0\0\0REPLAYGAIN_ALBUM_PEAK=0.99996948\
                   \x1e\0\0\0REPLAYGAIN_ALBUM_GAIN=-7.89 dB\
                   \x08\0\0\0artist=1\x07\0\0\0title=2";

    assert_eq!(&input.to_bytes()[..], &result[..]);
}

#[test]
fn test_cue_sheet_to_bytes() {
    let input = Metadata::new(true, 540, Data::CueSheet(sample_cue_sheet()));
    let mut result: Vec<u8> = vec![0x85, 0x00, 0x02, 0x1c];
    result.extend_from_slice(&sample_cue_sheet_bytes());

    assert_eq!(input.to_bytes(), result);
}

#[test]
fn test_picture_to_bytes() {
    let picture = Picture {
        picture_type: PictureType::Other,
        mime_type: "image/png".to_owned(),
        description: String::new(),
        width: 0,
        height: 0,
        depth: 0,
        colors: 0,
        data: vec![],
    };

    let input = Metadata::new(false, 41, Data::Picture(picture));
    let result = b"\x06\0\0\x29\0\0\0\0\0\0\0\x09image/png\0\0\0\0\0\0\0\0\0\
                   \0\0\0\0\0\0\0\0\0\0\0\0\0\0\0";

    assert_eq!(&input.to_bytes()[..], &result[..]);
}

#[test]
fn test_unknown_to_bytes() {
    let unknown_data = Data::Unknown(b"random data that won't really be parsed anyway.".to_vec());
    let input = Metadata::new(true, 47, unknown_data);
    let result = b"\x87\0\0\x2frandom data that won't really be parsed anyway.";

    assert_eq!(&input.to_bytes()[..], &result[..]);
}

#[test]
fn test_metadata_parser_roundtrip() {
    let picture = Picture {
        picture_type: PictureType::FrontCover,
        mime_type: "image/png".to_owned(),
        description: "7.png".to_owned(),
        width: 31,
        height: 47,
        depth: 24,
        colors: 23,
        data: vec![1, 2, 3],
    };
    let block = Metadata::new(true, 0, Data::Picture(picture));
    let bytes = block.to_bytes();

    let (parsed, consumed) = metadata_parser(&bytes).unwrap();
    assert_eq!(consumed, bytes.len());
    assert!(parsed.is_last());
    assert!(parsed.is_picture());
    match parsed.data {
        Data::Picture(p) => {
            assert_eq!(p.description, "7.png");
            assert_eq!(p.data, vec![1, 2, 3]);
        },
        _ => panic!("expected a picture block"),
    }
}

#[test]
fn test_optional_eq() {
    assert!(optional_eq(None, 0), "Should always return true when None");
    assert!(optional_eq(Some(0), 0), "Should return true (Some(0) == 0)");
    assert!(!optional_eq(Some(1), 0));
}

fn stream_info_block(is_last: bool) -> Vec<u8> {
    let stream_info = StreamInfo {
        min_block_size: 4608,
        max_block_size: 4608,
        min_frame_size: 14,
        max_frame_size: 16,
        sample_rate: 8000,
        channels: 2,
        bits_per_sample: 8,
        total_samples: 80000,
        md5_sum: [0; 16],
    };
    Metadata::new(is_last, 34, Data::StreamInfo(stream_info)).to_bytes()
}

fn picture_block(
    is_last: bool,
    picture_type: PictureType,
    mime: &str,
    description: &str,
    width: u32,
    height: u32,
    depth: u32,
    colors: u32,
) -> Vec<u8> {
    let picture = Picture {
        picture_type,
        mime_type: mime.to_owned(),
        description: description.to_owned(),
        width,
        height,
        depth,
        colors,
        data: vec![],
    };
    Metadata::new(is_last, 0, Data::Picture(picture)).to_bytes()
}

/// A stream with STREAMINFO, a cue sheet, and closing padding.
fn make_cue_stream() -> Vec<u8> {
    let mut bytes = b"fLaC".to_vec();
    bytes.extend_from_slice(&stream_info_block(false));
    bytes.extend_from_slice(&Metadata::new(false, 540, Data::CueSheet(sample_cue_sheet()))
        .to_bytes());
    bytes.extend_from_slice(&Metadata::new(true, 4, Data::Padding(4)).to_bytes());
    bytes
}

/// A stream with STREAMINFO, vorbis comments, and closing padding.
fn make_tagged_stream() -> Vec<u8> {
    let comments = vec![("artist".to_owned(), "1".to_owned())];
    let vc = VorbisComment { vendor_string: "test vendor".to_owned(), comments };
    let mut bytes = b"fLaC".to_vec();
    bytes.extend_from_slice(&stream_info_block(false));
    bytes.extend_from_slice(&Metadata::new(false, 0, Data::VorbisComment(vc)).to_bytes());
    bytes.extend_from_slice(&Metadata::new(true, 4, Data::Padding(4)).to_bytes());
    bytes
}

/// A stream with STREAMINFO and three pictures.
fn make_picture_stream() -> Vec<u8> {
    let mut bytes = b"fLaC".to_vec();
    bytes.extend_from_slice(&stream_info_block(false));
    bytes.extend_from_slice(&picture_block(
        false,
        PictureType::Other,
        "image/gif",
        "",
        16,
        14,
        24,
        128,
    ));
    bytes.extend_from_slice(&picture_block(
        false,
        PictureType::FileIconStandard,
        "image/png",
        "8.png",
        32,
        32,
        32,
        0,
    ));
    bytes.extend_from_slice(&picture_block(
        true,
        PictureType::FrontCover,
        "image/png",
        "7.png",
        31,
        47,
        24,
        23,
    ));
    bytes
}

#[test]
fn test_get_metadata() {
    let invalid = get_metadata(b"not a flac stream at all");
    let valid = get_metadata(&make_cue_stream());

    assert_eq!(invalid.unwrap_err(), ErrorKind::HeaderParser);
    assert_eq!(valid.unwrap().len(), 3);
}

#[test]
fn test_get_stream_info() {
    let result = get_stream_info(&make_cue_stream());

    assert!(result.is_ok());
    assert_eq!(result.unwrap().sample_rate, 8000);
}

#[test]
fn test_get_vorbis_comment() {
    let tags = get_vorbis_comment(&make_tagged_stream());
    let no_tags = get_vorbis_comment(&make_cue_stream());

    assert!(tags.is_ok(), "Should have vorbis comments");
    assert_eq!(no_tags.unwrap_err(), ErrorKind::NotFound);
}

#[test]
fn test_get_cue_sheet() {
    let cue = get_cue_sheet(&make_cue_stream());
    let no_cue = get_cue_sheet(&make_tagged_stream());

    assert!(cue.is_ok(), "Should have a cue sheet");
    assert_eq!(cue.unwrap(), sample_cue_sheet());
    assert_eq!(no_cue.unwrap_err(), ErrorKind::NotFound);
}

fn compare_all_but_data(picture: &Picture, other: &Picture) -> bool {
    picture.picture_type == other.picture_type && picture.mime_type == other.mime_type
        && picture.description == other.description && picture.width == other.width
        && picture.height == other.height && picture.depth == other.depth
        && picture.colors == other.colors
}

#[test]
fn test_get_picture() {
    let stream = make_picture_stream();
    let all_options = get_picture(
        &stream,
        Some(PictureType::Other),
        Some("image/gif"),
        Some(""),
        Some(16),
        Some(14),
        Some(24),
        Some(128),
    );
    let picture1 = Picture {
        picture_type: PictureType::Other,
        mime_type: "image/gif".to_owned(),
        description: "".to_owned(),
        width: 16,
        height: 14,
        depth: 24,
        colors: 128,
        data: vec![],
    };

    let one_option = get_picture(
        &stream,
        Some(PictureType::FileIconStandard),
        None,
        None,
        None,
        None,
        None,
        None,
    );
    let picture2 = Picture {
        picture_type: PictureType::FileIconStandard,
        mime_type: "image/png".to_owned(),
        description: "8.png".to_owned(),
        width: 32,
        height: 32,
        depth: 32,
        colors: 0,
        data: vec![],
    };

    let no_option = get_picture(&stream, None, None, None, None, None, None, None);
    let picture3 = Picture {
        picture_type: PictureType::FrontCover,
        mime_type: "image/png".to_owned(),
        description: "7.png".to_owned(),
        width: 31,
        height: 47,
        depth: 24,
        colors: 23,
        data: vec![],
    };

    let no_picture = get_picture(&make_tagged_stream(), None, None, None, None, None, None, None);

    assert!(
        compare_all_but_data(&all_options.unwrap(), &picture1),
        "All constraint options"
    );
    assert!(
        compare_all_but_data(&one_option.unwrap(), &picture2),
        "One constraint option"
    );
    assert!(
        compare_all_but_data(&no_option.unwrap(), &picture3),
        "No constraint option"
    );
    assert_eq!(no_picture.unwrap_err(), ErrorKind::NotFound);
}

#[test]
fn test_comment_lookup() {
    let vc = VorbisComment {
        vendor_string: "test vendor".to_owned(),
        comments: vec![
            ("artist".to_owned(), "1".to_owned()),
            ("title".to_owned(), "2".to_owned()),
            ("artist".to_owned(), "3".to_owned()),
        ],
    };

    assert_eq!(vc.comment("artist"), Some(&"3".to_owned()));
    assert_eq!(vc.comment("title"), Some(&"2".to_owned()));
    assert_eq!(vc.comment("album"), None);
}

#[test]
fn test_block_length_must_match_body() {
    // A seek table whose declared length is not a multiple of 18 leaves
    // slack bytes; the declared length must match the consumed body.
    let input = [0u8; 20];

    assert_eq!(block_data(&input, 3, 20), Err(ErrorKind::SeekTableParser));
    assert!(block_data(&input[..18], 3, 18).is_ok());
}
