use flac::bits::{leading_zeros, BitCursor};
use flac::error::ErrorKind;
use flac::subframe::{
    constant, decode, fixed, fixed_restore_signal, header, lpc, lpc_restore_signal,
    subframe_parser, verbatim, CodingMethod, Data, EntropyCodingMethod, Fixed, PartitionedRice,
    PartitionedRiceContents, Subframe, LPC,
};

fn at(byte: usize, bit: usize) -> BitCursor {
    BitCursor { byte, bit }
}

#[test]
fn parser_test_leading_zeros() {
    assert_eq!(leading_zeros(&[0b10000000], at(0, 0)), Some((0, at(0, 1))));
    assert_eq!(leading_zeros(&[0b11000000], at(0, 1)), Some((0, at(0, 2))));
    assert_eq!(leading_zeros(&[0b00000001], at(0, 0)), Some((7, at(1, 0))));
    assert_eq!(leading_zeros(&[0b11111111], at(0, 7)), Some((0, at(1, 0))));
    assert_eq!(
        leading_zeros(&[0b00000000, 0b10000000], at(0, 0)),
        Some((8, at(1, 1)))
    );
    assert_eq!(
        leading_zeros(&[0b10000000, 0b10000000], at(0, 1)),
        Some((7, at(1, 1)))
    );
    assert_eq!(
        leading_zeros(&[0b00000000, 0b00000001], at(0, 0)),
        Some((15, at(2, 0)))
    );
    assert_eq!(
        leading_zeros(&[0b11111110, 0b00000010], at(0, 7)),
        Some((7, at(1, 7)))
    );
    assert_eq!(leading_zeros(&[0b10101010, 0b00000000], at(0, 7)), None);
}

#[test]
fn subframe_test_header() {
    assert_eq!(header(&[0b01010100], at(0, 0)), Ok(((0b101010, false), at(1, 0))));
    assert_eq!(header(&[0b00011111], at(0, 0)), Ok(((0b001111, true), at(1, 0))));
    assert_eq!(header(&[0b00000000], at(0, 0)), Ok(((0b000000, false), at(1, 0))));
    assert_eq!(
        header(&[0b10000000], at(0, 0)),
        Err(ErrorKind::SubframeHeaderParser)
    );
}

#[test]
fn parser_test_constant() {
    assert_eq!(
        constant(b"\0\x80", at(0, 0), 16),
        Ok((Data::Constant(128), at(2, 0)))
    );
    assert_eq!(constant(b"\x18", at(0, 3), 5), Ok((Data::Constant(-8), at(1, 0))));
}

#[test]
fn parser_test_verbatim() {
    assert_eq!(
        verbatim(
            b"\xff\x80\0\x0a\xff\x65\0\0\x04\x28\xff\x28\0\0\xff\xe7",
            at(0, 0),
            16,
            8
        ),
        Ok((
            Data::Verbatim(vec![-128, 10, -155, 0, 1064, -216, 0, -25]),
            at(16, 0)
        ))
    );
    assert_eq!(
        verbatim(b"\xe2\x81\x07\x80\x89", at(0, 0), 5, 8),
        Ok((Data::Verbatim(vec![-4, 10, 0, -16, 15, 0, 4, 9]), at(5, 0)))
    );
}

#[test]
fn parser_test_fixed() {
    let input0 = b"\xe8\0\x40\xaf\x02\x01\x04\x80\x42\x92\x84\x65\x64";
    let result0 = Data::Fixed(Fixed {
        entropy_coding_method: EntropyCodingMethod {
            method_type: CodingMethod::PartitionedRice,
            data: PartitionedRice {
                order: 0,
                contents: PartitionedRiceContents {
                    parameters: vec![8],
                    raw_bits: vec![0],
                },
            },
        },
        order: 4,
        warmup: vec![-24, 0, 64, -81],
        residual: vec![642, 0, 5, 148, -141, 178],
    });

    assert_eq!(fixed(input0, at(0, 0), 4, 8, 10), Ok((result0, at(13, 0))));

    let input1 = b"\xf5\x47\xf0\xff\xdc\0\x42\0\x8e\xf9\xbc\x08\x08\x10";
    let result1 = Data::Fixed(Fixed {
        entropy_coding_method: EntropyCodingMethod {
            method_type: CodingMethod::PartitionedRice2,
            data: PartitionedRice {
                order: 1,
                contents: PartitionedRiceContents {
                    parameters: vec![31, 31],
                    raw_bits: vec![16, 6],
                },
            },
        },
        order: 2,
        warmup: vec![-1, 5],
        residual: vec![-36, 66, 142, -4, 2, 0, -32, 16],
    });

    assert_eq!(fixed(input1, at(0, 0), 2, 4, 10), Ok((result1, at(14, 0))));
}

#[test]
fn parser_test_lpc() {
    let input0 = b"\xe8\0\x40\xaf\x74\x73\x19\0\x75\x81\xe8\x16\0\x05\x18\xef\x36";
    let result0 = Data::LPC(LPC {
        entropy_coding_method: EntropyCodingMethod {
            method_type: CodingMethod::PartitionedRice,
            data: PartitionedRice {
                order: 0,
                contents: PartitionedRiceContents {
                    parameters: vec![15],
                    raw_bits: vec![8],
                },
            },
        },
        order: 4,
        qlp_coeff_precision: 8,
        quantization_level: 8,
        qlp_coefficients: vec![-26, 50, 0, -21],
        warmup: vec![-24, 0, 64, -81],
        residual: vec![22, 0, 5, 24, -17, 54],
    });

    assert_eq!(lpc(input0, at(0, 0), 4, 8, 10), Ok((result0, at(17, 0))));

    let input1 = b"\x84\x01\xb6\xc2\x37\xf9\xd3\x82\x4a\xa2\x3b\xe9\xfc\x2b\x66\
                   \xea\x36\xcb\x85\x72\xc5\x13\x14\xed\x1b\x3f";
    let result1 = Data::LPC(LPC {
        entropy_coding_method: EntropyCodingMethod {
            method_type: CodingMethod::PartitionedRice2,
            data: PartitionedRice {
                order: 1,
                contents: PartitionedRiceContents {
                    parameters: vec![3, 5],
                    raw_bits: vec![0, 0],
                },
            },
        },
        order: 8,
        qlp_coeff_precision: 4,
        quantization_level: 15,
        qlp_coefficients: vec![-1, 3, -6, 7, 0, 4, -7, 5],
        warmup: vec![-8, 4, 0, 1, -5, 6, -4, 2],
        residual: vec![-2, 3, -1, -4, 2, 27, -28, 20, 11, 9, 12, -22, -3, 1, 1, -25, -20, 26],
    });

    assert_eq!(lpc(input1, at(0, 0), 8, 4, 26), Ok((result1, at(24, 2))));
}

#[test]
fn test_lpc_reserved_precision() {
    // An LPC body whose quantized-precision nibble is all ones is refused.
    let input = b"\x00\xf0";

    assert_eq!(lpc(input, at(0, 0), 1, 8, 2), Err(ErrorKind::LPCParser));
}

#[test]
fn test_subframe_parser_constant() {
    // Header byte 0 (constant, no wasted bits), then a 16-bit value.
    let input = b"\x00\x03\xe8";
    let (subframe, cursor) = subframe_parser(input, at(0, 0), 16, 4).unwrap();

    assert_eq!(subframe.wasted_bits, 0);
    assert_eq!(subframe.data, Data::Constant(1000));
    assert_eq!(cursor, at(3, 0));
}

#[test]
fn test_fixed_restore_signal() {
    let mut output0: Vec<i64> = vec![
        -729, -722, -667, -19, -16, 17, -23, -7, 16, -16, -5, 3, -8, -13, -15, -1,
    ];
    let mut output1: Vec<i64> = vec![21877, 27482, -6513];

    assert!(fixed_restore_signal(3, 16, &mut output0));
    assert!(fixed_restore_signal(2, 3, &mut output1));

    assert_eq!(
        output0,
        vec![-729, -722, -667, -583, -486, -359, -225, -91, 59, 209, 354, 497, 630, 740, 812, 845]
    );
    assert_eq!(output1, vec![21877, 27482, 26574]);
}

#[test]
fn test_lpc_restore_signal() {
    let coefficients0: Vec<i32> = vec![1042, -399, -75, -269, 121, 166, -75];
    let coefficients1: Vec<i32> = vec![1757, -1199, 879, -836, 555, -255, 119];

    let mut output0: Vec<i64> = vec![
        -796, -547, -285, -32, 199, 443, 670, -2, -23, 14, 6, 3, -4, 12, -2, 10,
    ];
    let mut output1: Vec<i64> = vec![
        -21363, -21951, -22649, -24364, -27297, -26870, -30017, 3157,
    ];

    assert!(lpc_restore_signal(9, 16, &coefficients0, &mut output0));
    assert!(lpc_restore_signal(10, 8, &coefficients1, &mut output1));

    assert_eq!(
        output0,
        vec![-796, -547, -285, -32, 199, 443, 670, 875, 1046, 1208, 1343, 1454, 1541, 1616, 1663,
             1701]
    );
    assert_eq!(
        output1,
        vec![-21363, -21951, -22649, -24364, -27297, -26870, -30017, -29718]
    );
}

fn empty_coding_method() -> EntropyCodingMethod {
    EntropyCodingMethod {
        method_type: CodingMethod::PartitionedRice,
        data: PartitionedRice {
            order: 0,
            contents: PartitionedRiceContents { parameters: vec![], raw_bits: vec![] },
        },
    }
}

#[test]
fn test_decode() {
    let constant_subframe = Subframe { data: Data::Constant(4), wasted_bits: 0 };

    let verbatim_subframe = Subframe {
        data: Data::Verbatim(vec![16, -3, 55, 49, -32, 6, 40, -90, 1, 0, 77, -12, 84, 10, -112,
            136]),
        wasted_bits: 0,
    };

    let fixed_subframe = Subframe {
        data: Data::Fixed(Fixed {
            entropy_coding_method: empty_coding_method(),
            order: 3,
            warmup: vec![-729, -722, -667],
            residual: vec![-19, -16, 17, -23, -7, 16, -16, -5, 3, -8, -13, -15, -1],
        }),
        wasted_bits: 0,
    };

    let lpc_subframe = Subframe {
        data: Data::LPC(LPC {
            entropy_coding_method: empty_coding_method(),
            order: 7,
            qlp_coeff_precision: 0,
            quantization_level: 9,
            qlp_coefficients: vec![1042, -399, -75, -269, 121, 166, -75],
            warmup: vec![-796, -547, -285, -32, 199, 443, 670],
            residual: vec![-2, -23, 14, 6, 3, -4, 12, -2, 10],
        }),
        wasted_bits: 0,
    };

    assert_eq!(decode(&constant_subframe, 16).unwrap(), vec![4i64; 16]);

    assert_eq!(
        decode(&verbatim_subframe, 16).unwrap(),
        vec![16, -3, 55, 49, -32, 6, 40, -90, 1, 0, 77, -12, 84, 10, -112, 136]
    );

    assert_eq!(
        decode(&fixed_subframe, 16).unwrap(),
        vec![-729, -722, -667, -583, -486, -359, -225, -91, 59, 209, 354, 497, 630, 740, 812, 845]
    );

    assert_eq!(
        decode(&lpc_subframe, 16).unwrap(),
        vec![-796, -547, -285, -32, 199, 443, 670, 875, 1046, 1208, 1343, 1454, 1541, 1616, 1663,
             1701]
    );
}

#[test]
fn test_wasted_bit_decode() {
    let constant_subframe = Subframe { data: Data::Constant(1), wasted_bits: 10 };

    assert_eq!(decode(&constant_subframe, 4).unwrap(), vec![1024, 1024, 1024, 1024]);
}

#[test]
fn test_decode_rejects_short_warmup() {
    let bad = Subframe {
        data: Data::Fixed(Fixed {
            entropy_coding_method: empty_coding_method(),
            order: 3,
            warmup: vec![-729, -722],
            residual: vec![-19, -16, 17, -23, -7, 16, -16, -5, 3, -8, -13, -15, -1],
        }),
        wasted_bits: 0,
    };

    assert_eq!(decode(&bad, 16), Err(ErrorKind::FixedParser));
}

#[test]
fn test_subframe_parser_wasted_bits() {
    // Constant subframe with the wasted-bits flag: a unary run of length
    // zero gives one wasted bit, so the constant is read at seven bits and
    // decoding shifts it back up.
    let input = &[0x01, 0x85];
    let (subframe, cursor) = subframe_parser(input, at(0, 0), 8, 2).unwrap();

    assert_eq!(subframe.wasted_bits, 1);
    assert_eq!(subframe.data, Data::Constant(5));
    assert_eq!(cursor, at(2, 0));

    assert_eq!(decode(&subframe, 2).unwrap(), vec![10, 10]);
}
