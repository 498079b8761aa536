use ben::ben32::{decode_ben32_line, encode_ben_32_line, push_ben32_record, rle_to_ben32};
use ben::encode::{encode_ben, encode_ben32};
use ben::error::CodecError;
use ben::translate::{
    ben32_file_to_ben, ben32_to_ben_lines, ben_file_to_ben32, ben_to_ben32_lines,
};

fn golden_ben() -> Vec<u8> {
    vec![
        83, 84, 65, 78, 68, 65, 82, 68, 32, 66, 69, 78, 32, 70, 73, 76, 69, 2, 2, 0, 0, 0, 1, 123,
        2, 2, 0, 0, 0, 2, 106, 89,
    ]
}

fn golden_ben32() -> Vec<u8> {
    let mut out = "STANDARD BEN FILE".as_bytes().to_vec();
    out.extend_from_slice(&[0, 1, 0, 3, 0, 2, 0, 3, 0, 0, 0, 0]);
    out.extend_from_slice(&[0, 1, 0, 2, 0, 2, 0, 2, 0, 1, 0, 1, 0, 2, 0, 1, 0, 0, 0, 0]);
    out
}

#[test]
fn record_is_value_then_length() {
    let mut out: Vec<u8> = Vec::new();
    push_ben32_record(&mut out, 0x1234, 0xABCD);
    push_ben32_record(&mut out, 2, 3);
    assert_eq!(out, vec![0x12, 0x34, 0xAB, 0xCD, 0, 2, 0, 3]);
}

#[test]
fn staging_form_of_runs() {
    assert_eq!(
        rle_to_ben32(&vec![(1, 3), (2, 3)]),
        vec![0, 1, 0, 3, 0, 2, 0, 3, 0, 0, 0, 0]
    );
    assert_eq!(rle_to_ben32(&Vec::new()), vec![0, 0, 0, 0]);
}

#[test]
fn staging_form_of_vector() {
    assert_eq!(
        encode_ben_32_line(vec![1, 1, 1, 2, 2, 2]),
        vec![0, 1, 0, 3, 0, 2, 0, 3, 0, 0, 0, 0]
    );
    assert_eq!(encode_ben_32_line(Vec::new()), vec![0, 0, 0, 0]);
    assert_eq!(encode_ben_32_line(vec![0]), vec![0, 0, 0, 1, 0, 0, 0, 0]);
    assert_eq!(
        encode_ben_32_line(vec![7; 70000]),
        vec![0, 7, 255, 255, 0, 7, 0x11, 0x71, 0, 0, 0, 0]
    );
}

#[test]
fn record_of_a_run_is_never_the_end_word() {
    for value in [0u16, 1, 255, 65535] {
        for length in [1u16, 2, 256, 65535] {
            let mut out: Vec<u8> = Vec::new();
            push_ben32_record(&mut out, value, length);
            assert_ne!(out, vec![0, 0, 0, 0]);
            out.extend_from_slice(&[0, 0, 0, 0]);
            assert_eq!(decode_ben32_line(&out, 0), Ok((vec![(value, length)], 8)));
        }
    }
}

#[test]
fn staging_form_is_read_up_to_the_end_word() {
    let data = [0, 1, 0, 3, 0, 2, 0, 3, 0, 0, 0, 0, 0, 9, 0, 1, 0, 0, 0, 0];
    assert_eq!(decode_ben32_line(&data, 0), Ok((vec![(1, 3), (2, 3)], 12)));
    assert_eq!(decode_ben32_line(&data, 12), Ok((vec![(9, 1)], 20)));
    assert_eq!(decode_ben32_line(&data, 8), Ok((Vec::new(), 12)));
}

#[test]
fn staging_form_that_ends_early_is_truncated() {
    assert_eq!(decode_ben32_line(&[], 0), Err(CodecError::TruncatedStream));
    assert_eq!(decode_ben32_line(&[0, 1, 0, 3], 0), Err(CodecError::TruncatedStream));
    assert_eq!(
        decode_ben32_line(&[0, 1, 0, 3, 0, 0, 0], 0),
        Err(CodecError::TruncatedStream)
    );
    assert_eq!(decode_ben32_line(&[0, 0, 0], 0), Err(CodecError::TruncatedStream));
}

#[test]
fn blocks_translate_to_staging_form() {
    let ben = golden_ben();
    assert_eq!(ben_to_ben32_lines(&ben[17..]), Ok(golden_ben32()[17..].to_vec()));
    assert_eq!(ben_to_ben32_lines(&[]), Ok(Vec::new()));
    assert_eq!(ben_to_ben32_lines(&ben[17..30]), Err(CodecError::TruncatedStream));
    assert_eq!(ben_to_ben32_lines(&[20, 1, 0, 0, 0, 0]), Err(CodecError::Format));
}

#[test]
fn staging_form_translates_to_blocks() {
    let ben32 = golden_ben32();
    assert_eq!(ben32_to_ben_lines(&ben32[17..]), Ok(golden_ben()[17..].to_vec()));
    assert_eq!(ben32_to_ben_lines(&[]), Ok(Vec::new()));
    assert_eq!(ben32_to_ben_lines(&[0, 0, 0, 0]), Ok(vec![1, 0, 0, 0, 0, 0]));
    assert_eq!(ben32_to_ben_lines(&ben32[17..40]), Err(CodecError::TruncatedStream));
}

#[test]
fn files_translate_both_ways() {
    assert_eq!(ben_file_to_ben32(&golden_ben()), Ok(golden_ben32()));
    assert_eq!(ben32_file_to_ben(&golden_ben32()), Ok(golden_ben()));
}

#[test]
fn files_without_marker_are_refused() {
    assert_eq!(ben_file_to_ben32(&golden_ben()[1..]), Err(CodecError::Format));
    assert_eq!(ben32_file_to_ben(&golden_ben32()[1..]), Err(CodecError::Format));
    assert_eq!(ben_file_to_ben32(&[]), Err(CodecError::Format));
    assert_eq!(ben32_file_to_ben(&[0, 0, 0, 0]), Err(CodecError::Format));
}

#[test]
fn staging_file_of_samples() {
    let samples: Vec<Vec<u16>> = vec![vec![1, 1, 1, 2, 2, 2], vec![1, 1, 2, 2, 1, 2]];
    assert_eq!(encode_ben32(&samples), golden_ben32());
    assert_eq!(encode_ben32(&Vec::new()), "STANDARD BEN FILE".as_bytes().to_vec());
}

#[test]
fn translation_agrees_with_encoding() {
    let samples: Vec<Vec<u16>> = vec![
        vec![0],
        vec![],
        vec![65535, 65535, 3],
        vec![7; 70000],
        (0..500).map(|i| (i / 7) as u16).collect(),
    ];
    let ben = encode_ben(&samples).unwrap();
    let ben32 = encode_ben32(&samples);
    assert_eq!(ben_file_to_ben32(&ben), Ok(ben32.clone()));
    assert_eq!(ben32_file_to_ben(&ben32), Ok(ben));
}
