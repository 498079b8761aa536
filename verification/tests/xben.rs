use ben::decode::{decode_ben, decode_ben32, decode_xben, decode_xben_to_ben};
use ben::encode::{
    encode_ben, encode_ben32, encode_ben_to_xben, encode_xben, jsonl_encode_ben,
    jsonl_encode_ben32, jsonl_encode_xben,
};
use ben::error::CodecError;
use ben::decode::xz_decompress;
use ben::encode::xz_compress;
use ben::xz::XZ_LEVEL;

const XZ_HEADER: [u8; 6] = [0xFD, 0x37, 0x7A, 0x58, 0x5A, 0x00];

fn golden_ben() -> Vec<u8> {
    vec![
        83, 84, 65, 78, 68, 65, 82, 68, 32, 66, 69, 78, 32, 70, 73, 76, 69, 2, 2, 0, 0, 0, 1, 123,
        2, 2, 0, 0, 0, 2, 106, 89,
    ]
}

fn two_lines() -> Vec<String> {
    vec![
        "{\"assignment\": [1,1,1,2,2,2], \"sample\": 1}".to_string(),
        "{\"assignment\": [1,1,2,2,1,2], \"sample\": 2}".to_string(),
    ]
}

#[test]
fn compression_level_is_nine() {
    assert_eq!(XZ_LEVEL, 9);
}

#[test]
fn compressed_bytes_are_an_xz_stream() {
    let data = "the quick brown fox jumps over the lazy dog".as_bytes();
    let stream = xz_compress(data).unwrap();
    assert_eq!(&stream[..6], &XZ_HEADER);
    assert_ne!(stream, data.to_vec());
    assert_eq!(&stream[stream.len() - 2..], "YZ".as_bytes());
}

#[test]
fn compression_shrinks_repeated_bytes() {
    let data: Vec<u8> = vec![42; 100_000];
    let stream = xz_compress(&data).unwrap();
    assert!(stream.len() < 1000);
    assert_eq!(xz_decompress(&stream), Ok(data));
}

#[test]
fn decompression_undoes_compression() {
    let data: Vec<u8> = (0..5000u32).map(|i| (i * i % 251) as u8).collect();
    let stream = xz_compress(&data).unwrap();
    assert_eq!(xz_decompress(&stream), Ok(data));
    let empty = xz_compress(&[]).unwrap();
    assert_eq!(&empty[..6], &XZ_HEADER);
    assert_eq!(xz_decompress(&empty), Ok(Vec::new()));
}

#[test]
fn compression_is_repeatable() {
    let data = "STANDARD BEN FILE and some bytes".as_bytes();
    assert_eq!(xz_compress(data), xz_compress(data));
}

#[test]
fn decompression_of_garbage_fails() {
    assert_eq!(
        xz_decompress("this is no xz stream".as_bytes()),
        Err(CodecError::Compression)
    );
    let stream = xz_compress("some data to be cut short".as_bytes()).unwrap();
    assert_eq!(
        xz_decompress(&stream[..stream.len() - 5]),
        Err(CodecError::Compression)
    );
    let mut flipped = stream.clone();
    flipped[10] ^= 0xFF;
    flipped[14] ^= 0xFF;
    assert_eq!(xz_decompress(&flipped), Err(CodecError::Compression));
}

#[test]
fn jsonl_staging_file() {
    let mut expected = "STANDARD BEN FILE".as_bytes().to_vec();
    expected.extend_from_slice(&[0, 1, 0, 3, 0, 2, 0, 3, 0, 0, 0, 0]);
    expected.extend_from_slice(&[0, 1, 0, 2, 0, 2, 0, 2, 0, 1, 0, 1, 0, 2, 0, 1, 0, 0, 0, 0]);
    assert_eq!(jsonl_encode_ben32(&two_lines()), Ok(expected));
}

#[test]
fn jsonl_xben_holds_the_staging_file() {
    let xben = jsonl_encode_xben(&two_lines()).unwrap();
    assert_eq!(&xben[..6], &XZ_HEADER);
    assert_eq!(xz_decompress(&xben), jsonl_encode_ben32(&two_lines()));
}

#[test]
fn jsonl_xben_bad_line() {
    let lines = vec!["{\"assignment\": [1,2,".to_string()];
    assert_eq!(jsonl_encode_xben(&lines), Err(CodecError::Parse));
    assert_eq!(jsonl_encode_ben32(&lines), Err(CodecError::Parse));
    let missing = vec![two_lines()[0].clone(), "{\"sample\": 3}".to_string()];
    assert_eq!(jsonl_encode_xben(&missing), Err(CodecError::Parse));
}

#[test]
fn xben_decodes_to_the_ben_file() {
    let xben = jsonl_encode_xben(&two_lines()).unwrap();
    assert_eq!(decode_xben_to_ben(&xben), Ok(golden_ben()));
    assert_eq!(decode_xben_to_ben(&xben), jsonl_encode_ben(&two_lines()));
}

#[test]
fn xben_decodes_to_vectors() {
    let xben = jsonl_encode_xben(&two_lines()).unwrap();
    assert_eq!(
        decode_xben(&xben),
        Ok(vec![vec![1, 1, 1, 2, 2, 2], vec![1, 1, 2, 2, 1, 2]])
    );
}

#[test]
fn ben_to_xben_and_back() {
    let xben = encode_ben_to_xben(&golden_ben()).unwrap();
    assert_eq!(&xben[..6], &XZ_HEADER);
    assert_eq!(decode_xben_to_ben(&xben), Ok(golden_ben()));
    assert_eq!(xben, jsonl_encode_xben(&two_lines()).unwrap());
}

#[test]
fn ben_to_xben_refuses_wrong_marker() {
    let mut ben = golden_ben();
    ben[3] = 0;
    assert_eq!(encode_ben_to_xben(&ben), Err(CodecError::Format));
    assert_eq!(encode_ben_to_xben(&[]), Err(CodecError::Format));
}

#[test]
fn ben_to_xben_refuses_truncated_file() {
    let ben = golden_ben();
    assert_eq!(encode_ben_to_xben(&ben[..29]), Err(CodecError::TruncatedStream));
}

#[test]
fn xben_with_wrong_marker_inside_is_refused() {
    let xben = xz_compress("STANDARD BAN FILE\0\0\0\0".as_bytes()).unwrap();
    assert_eq!(decode_xben_to_ben(&xben), Err(CodecError::Format));
    assert_eq!(decode_xben(&xben), Err(CodecError::Format));
    let short = xz_compress("STANDARD".as_bytes()).unwrap();
    assert_eq!(decode_xben_to_ben(&short), Err(CodecError::Format));
}

#[test]
fn xben_with_truncated_word_is_refused() {
    let mut payload = "STANDARD BEN FILE".as_bytes().to_vec();
    payload.extend_from_slice(&[0, 1, 0, 3, 0, 0]);
    let xben = xz_compress(&payload).unwrap();
    assert_eq!(decode_xben_to_ben(&xben), Err(CodecError::TruncatedStream));
    let mut unended = "STANDARD BEN FILE".as_bytes().to_vec();
    unended.extend_from_slice(&[0, 1, 0, 3]);
    assert_eq!(decode_ben32(&unended), Err(CodecError::TruncatedStream));
}

#[test]
fn xben_that_is_no_stream_is_a_compression_failure() {
    assert_eq!(decode_xben_to_ben(&golden_ben()), Err(CodecError::Compression));
    assert_eq!(decode_xben(&[]), Err(CodecError::Compression));
}

#[test]
fn staging_file_decodes_to_vectors() {
    let ben32 = jsonl_encode_ben32(&two_lines()).unwrap();
    assert_eq!(
        decode_ben32(&ben32),
        Ok(vec![vec![1, 1, 1, 2, 2, 2], vec![1, 1, 2, 2, 1, 2]])
    );
}

#[test]
fn xben_roundtrip_of_samples() {
    let samples: Vec<Vec<u16>> = vec![
        vec![0],
        vec![],
        vec![65535, 65535, 3],
        vec![7; 70000],
        (0..4000).map(|i| (i / 13 % 50) as u16).collect(),
        (0..1000).map(|i| (i * 7919 % 65536) as u16).collect(),
    ];
    let xben = encode_xben(&samples).unwrap();
    assert_eq!(xz_decompress(&xben), Ok(encode_ben32(&samples)));
    assert_eq!(decode_xben_to_ben(&xben), encode_ben(&samples));
    assert_eq!(decode_xben(&xben), Ok(samples.clone()));
    let ben = decode_xben_to_ben(&xben).unwrap();
    assert_eq!(decode_ben(&ben), Ok(samples));
}
