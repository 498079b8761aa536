use ben::decode::{decode_ben, decode_ben_block, decode_ben_line, BenReader};
use ben::encode::{
    block_fits, encode_ben, encode_ben_line, encode_ben_vec_from_rle, jsonl_encode_ben,
};
use ben::error::CodecError;
use ben::format::{has_magic_header, magic_bytes, push_magic, MAGIC_LEN};

fn golden_file() -> Vec<u8> {
    vec![
        83, 84, 65, 78, 68, 65, 82, 68, 32, 66, 69, 78, 32, 70, 73, 76, 69, 2, 2, 0, 0, 0, 1, 123,
        2, 2, 0, 0, 0, 2, 106, 89,
    ]
}

fn pseudo_random_samples(count: usize) -> Vec<Vec<u16>> {
    let mut state: u64 = 0x2545_F491_4F6C_DD1D;
    let mut next = move || {
        state = state
            .wrapping_mul(6364136223846793005)
            .wrapping_add(1442695040888963407);
        (state >> 33) as u32
    };
    let mut samples = Vec::new();
    for s in 0..count {
        let len = (next() % 400) as usize;
        let labels = match s % 4 {
            0 => 1,
            1 => 3,
            2 => 300,
            _ => 65536,
        };
        let mut v: Vec<u16> = Vec::new();
        while v.len() < len {
            let label = (next() % labels) as u16;
            let run = 1 + (next() % 9) as usize;
            for _ in 0..run {
                v.push(label);
            }
        }
        samples.push(v);
    }
    samples
}

#[test]
fn marker_is_the_ascii_text() {
    assert_eq!(magic_bytes().to_vec(), "STANDARD BEN FILE".as_bytes().to_vec());
    assert_eq!(MAGIC_LEN, 17);
    let mut out: Vec<u8> = vec![1];
    push_magic(&mut out);
    assert_eq!(out[0], 1);
    assert_eq!(&out[1..], "STANDARD BEN FILE".as_bytes());
}

#[test]
fn marker_is_recognised() {
    assert!(has_magic_header("STANDARD BEN FILE".as_bytes()));
    assert!(has_magic_header(&golden_file()));
    assert!(!has_magic_header("STANDARD BEN FIL".as_bytes()));
    assert!(!has_magic_header("STANDARD BEN FILX and more".as_bytes()));
    assert!(!has_magic_header(&[]));
}

#[test]
fn block_of_two_runs() {
    assert_eq!(
        encode_ben_vec_from_rle(vec![(1, 3), (2, 3)]),
        vec![2, 2, 0, 0, 0, 1, 0b01_11_10_11]
    );
}

#[test]
fn block_of_four_runs() {
    assert_eq!(
        encode_ben_vec_from_rle(vec![(1, 2), (2, 2), (1, 1), (2, 1)]),
        vec![2, 2, 0, 0, 0, 2, 106, 89]
    );
}

#[test]
fn block_of_no_runs() {
    assert_eq!(encode_ben_vec_from_rle(Vec::new()), vec![1, 0, 0, 0, 0, 0]);
}

#[test]
fn block_of_single_zero_label() {
    assert_eq!(encode_ben_vec_from_rle(vec![(0, 1)]), vec![1, 1, 0, 0, 0, 1, 64]);
}

#[test]
fn block_of_widest_value() {
    assert_eq!(
        encode_ben_vec_from_rle(vec![(65535, 1)]),
        vec![16, 1, 0, 0, 0, 3, 255, 255, 128]
    );
}

#[test]
fn block_of_mixed_widths() {
    assert_eq!(
        encode_ben_vec_from_rle(vec![(0, 3), (5, 2), (1000, 4), (3, 1)]),
        vec![10, 3, 0, 0, 0, 7, 0, 24, 10, 190, 136, 1, 144]
    );
}

#[test]
fn block_of_cut_stretch() {
    assert_eq!(
        encode_ben_vec_from_rle(vec![(7, 65535), (7, 4465)]),
        vec![3, 16, 0, 0, 0, 5, 255, 255, 252, 69, 196]
    );
}

#[test]
fn byte_length_is_bits_rounded_up() {
    for n in 0..40usize {
        let runs: Vec<(u16, u16)> = (0..n).map(|i| ((i % 5) as u16, 1 + (i % 3) as u16)).collect();
        let block = encode_ben_vec_from_rle(runs.clone());
        let bits = n * (block[0] as usize + block[1] as usize);
        let declared = u32::from_be_bytes([block[2], block[3], block[4], block[5]]) as usize;
        assert_eq!(declared, (bits + 7) / 8);
        assert_eq!(block.len(), 6 + declared);
    }
}

#[test]
fn small_blocks_fit() {
    assert!(block_fits(&Vec::new()));
    assert!(block_fits(&vec![(65535, 65535); 1000]));
}

#[test]
fn line_block_from_vector() {
    assert_eq!(
        encode_ben_line(&[1, 1, 1, 2, 2, 2]),
        Ok(vec![2, 2, 0, 0, 0, 1, 123])
    );
    assert_eq!(encode_ben_line(&[]), Ok(vec![1, 0, 0, 0, 0, 0]));
    assert_eq!(
        encode_ben_line(&vec![7u16; 70000]),
        Ok(vec![3, 16, 0, 0, 0, 5, 255, 255, 252, 69, 196])
    );
}

#[test]
fn file_of_two_samples() {
    let samples: Vec<Vec<u16>> = vec![vec![1, 1, 1, 2, 2, 2], vec![1, 1, 2, 2, 1, 2]];
    assert_eq!(encode_ben(&samples), Ok(golden_file()));
}

#[test]
fn file_of_no_samples_is_the_marker() {
    assert_eq!(encode_ben(&Vec::new()), Ok("STANDARD BEN FILE".as_bytes().to_vec()));
    assert_eq!(decode_ben("STANDARD BEN FILE".as_bytes()), Ok(Vec::new()));
}

#[test]
fn jsonl_two_lines_golden() {
    let lines = vec![
        "{\"assignment\": [1,1,1,2,2,2], \"sample\": 1}".to_string(),
        "{\"assignment\": [1,1,2,2,1,2], \"sample\": 2}".to_string(),
    ];
    assert_eq!(jsonl_encode_ben(&lines), Ok(golden_file()));
}

#[test]
fn jsonl_single_line_block() {
    let lines = vec!["{\"assignment\":[1,1,1,2,2,2]}".to_string()];
    let ben = jsonl_encode_ben(&lines).unwrap();
    assert_eq!(&ben[..17], "STANDARD BEN FILE".as_bytes());
    assert_eq!(&ben[17..], &[2, 2, 0, 0, 0, 1, 123]);
}

#[test]
fn jsonl_empty_assignment() {
    let lines = vec!["{\"assignment\": [], \"sample\": 1}".to_string()];
    let ben = jsonl_encode_ben(&lines).unwrap();
    assert_eq!(&ben[17..], &[1, 0, 0, 0, 0, 0]);
    assert_eq!(decode_ben(&ben), Ok(vec![Vec::<u16>::new()]));
}

#[test]
fn jsonl_no_lines() {
    assert_eq!(
        jsonl_encode_ben(&Vec::new()),
        Ok("STANDARD BEN FILE".as_bytes().to_vec())
    );
}

#[test]
fn jsonl_bad_line_fails_the_whole_file() {
    let lines = vec![
        "{\"assignment\": [1,1,1,2,2,2], \"sample\": 1}".to_string(),
        "{\"assignment\": [1,1,2,2,1,2], \"sample\": 2".to_string(),
    ];
    assert_eq!(jsonl_encode_ben(&lines), Err(CodecError::Parse));
    let missing = vec!["{\"sample\": 1}".to_string()];
    assert_eq!(jsonl_encode_ben(&missing), Err(CodecError::Parse));
}

#[test]
fn payload_of_two_runs() {
    assert_eq!(decode_ben_line(&[123], 2, 2), vec![(1, 3), (2, 3)]);
    assert_eq!(
        decode_ben_line(&[106, 89], 2, 2),
        vec![(1, 2), (2, 2), (1, 1), (2, 1)]
    );
}

#[test]
fn payload_padding_is_no_run() {
    // one run of two bits, then six bits of padding: three pairs of zeros
    assert_eq!(decode_ben_line(&[64], 1, 1), vec![(0, 1)]);
    assert_eq!(decode_ben_line(&[0], 1, 1), Vec::<(u16, u16)>::new());
}

#[test]
fn payload_of_widest_fields() {
    assert_eq!(decode_ben_line(&[255, 255, 128], 16, 1), vec![(65535, 1)]);
    assert_eq!(
        decode_ben_line(&[255, 255, 252, 69, 196], 3, 16),
        vec![(7, 65535), (7, 4465)]
    );
    assert_eq!(
        decode_ben_line(&[0x12, 0x34, 0xAB, 0xCD], 16, 16),
        vec![(0x1234, 0xABCD)]
    );
}

#[test]
fn payload_with_lengths_of_no_bits_holds_no_run() {
    assert_eq!(decode_ben_line(&[255, 255], 4, 0), Vec::<(u16, u16)>::new());
    assert_eq!(decode_ben_line(&[255, 255], 0, 0), Vec::<(u16, u16)>::new());
    assert_eq!(decode_ben_line(&[], 2, 2), Vec::<(u16, u16)>::new());
}

#[test]
fn payload_with_values_of_no_bits() {
    assert_eq!(decode_ben_line(&[0b0110_0000], 0, 2), vec![(0, 1), (0, 2)]);
}

#[test]
fn block_is_read_at_an_offset() {
    let file = golden_file();
    assert_eq!(decode_ben_block(&file, 17), Ok((vec![(1, 3), (2, 3)], 24)));
    assert_eq!(
        decode_ben_block(&file, 24),
        Ok((vec![(1, 2), (2, 2), (1, 1), (2, 1)], 32))
    );
    assert_eq!(decode_ben_block(&file, 32), Err(CodecError::TruncatedStream));
}

#[test]
fn block_errors() {
    assert_eq!(decode_ben_block(&[2, 2, 0, 0, 0], 0), Err(CodecError::TruncatedStream));
    assert_eq!(decode_ben_block(&[2, 2, 0, 0, 0, 2, 106], 0), Err(CodecError::TruncatedStream));
    assert_eq!(decode_ben_block(&[17, 2, 0, 0, 0, 1, 123], 0), Err(CodecError::Format));
    assert_eq!(decode_ben_block(&[2, 17, 0, 0, 0, 1, 123], 0), Err(CodecError::Format));
    assert_eq!(
        decode_ben_block(&[2, 2, 255, 255, 255, 255, 1], 0),
        Err(CodecError::TruncatedStream)
    );
    assert_eq!(decode_ben_block(&[1, 0, 0, 0, 0, 0], 0), Ok((Vec::new(), 6)));
}

#[test]
fn file_decodes_to_vectors() {
    assert_eq!(
        decode_ben(&golden_file()),
        Ok(vec![vec![1, 1, 1, 2, 2, 2], vec![1, 1, 2, 2, 1, 2]])
    );
}

#[test]
fn file_with_wrong_marker_is_refused() {
    let mut file = golden_file();
    file[0] = 115;
    assert_eq!(decode_ben(&file), Err(CodecError::Format));
    assert_eq!(decode_ben(&[]), Err(CodecError::Format));
    assert_eq!(decode_ben("STANDARD BEN FIL".as_bytes()), Err(CodecError::Format));
    // the marker is checked before any block: what follows is never looked at
    let mut broken = "STANDARD XEN FILE".as_bytes().to_vec();
    broken.extend_from_slice(&[99, 99, 0]);
    assert_eq!(decode_ben(&broken), Err(CodecError::Format));
}

#[test]
fn file_that_ends_early_is_truncated() {
    let file = golden_file();
    assert_eq!(decode_ben(&file[..31]), Err(CodecError::TruncatedStream));
    assert_eq!(decode_ben(&file[..27]), Err(CodecError::TruncatedStream));
    assert_eq!(decode_ben(&file[..24]), Ok(vec![vec![1, 1, 1, 2, 2, 2]]));
}

#[test]
fn file_with_impossible_width_is_refused() {
    let mut file = golden_file();
    file[24] = 40;
    assert_eq!(decode_ben(&file), Err(CodecError::Format));
}

#[test]
fn reader_yields_samples_one_by_one() {
    let file = golden_file();
    let mut reader = BenReader::new(&file).unwrap();
    assert_eq!(reader.next_sample(), Some(Ok(vec![1, 1, 1, 2, 2, 2])));
    assert_eq!(reader.next_sample(), Some(Ok(vec![1, 1, 2, 2, 1, 2])));
    assert_eq!(reader.next_sample(), None);
    assert_eq!(reader.next_sample(), None);
}

#[test]
fn reader_stops_at_the_first_broken_block() {
    let file = golden_file();
    let mut reader = BenReader::new(&file[..30]).unwrap();
    assert_eq!(reader.next_sample(), Some(Ok(vec![1, 1, 1, 2, 2, 2])));
    assert_eq!(reader.next_sample(), Some(Err(CodecError::TruncatedStream)));
    assert_eq!(reader.next_sample(), None);
}

#[test]
fn reader_refuses_wrong_marker() {
    assert!(matches!(BenReader::new(&[1, 2, 3]), Err(CodecError::Format)));
    let mut file = golden_file();
    file[16] = 70;
    assert!(matches!(BenReader::new(&file), Err(CodecError::Format)));
}

#[test]
fn decode_undoes_encode() {
    let samples = pseudo_random_samples(60);
    let ben = encode_ben(&samples).unwrap();
    assert_eq!(decode_ben(&ben), Ok(samples));
}

#[test]
fn decode_undoes_encode_on_edge_vectors() {
    let samples: Vec<Vec<u16>> = vec![
        vec![0],
        vec![],
        vec![65535],
        vec![0; 9],
        vec![7; 70000],
        vec![1, 0, 1, 0, 1, 0, 1],
        (0..3000).map(|i| (i * 37 % 65536) as u16).collect(),
    ];
    let ben = encode_ben(&samples).unwrap();
    assert_eq!(decode_ben(&ben), Ok(samples));
}

#[test]
fn header_widths_match_decoded_runs() {
    for v in pseudo_random_samples(20) {
        let block = encode_ben_line(&v).unwrap();
        let (runs, next) = decode_ben_block(&block, 0).unwrap();
        assert_eq!(next, block.len());
        assert_eq!(ben::encode::field_widths(&runs), (block[0], block[1]));
    }
}

#[test]
fn error_messages() {
    assert_eq!(CodecError::Format.message(), "invalid file format");
    assert_ne!(CodecError::Parse.message(), CodecError::Compression.message());
    assert_ne!(
        CodecError::TruncatedStream.message(),
        CodecError::BlockTooLarge.message()
    );
}
