use obscura::bitio::{BitReader, BitWriter};
use obscura::checksum::adler32;
use obscura::cipher::{fractal_mirror_hash, generated_password, GOLDEN_RATIO_MAGIC};
use obscura::desktop::{log_tone, CodecRun, LogTone, ObscuraApp};
use obscura::codec::{CodecCore, StreamFault};
use obscura::container::{RecordError, CHUNK_SIZE};

fn bits_of(bytes: &[u8]) -> Vec<u8> {
    let mut reader = BitReader::new(bytes);
    let mut out = Vec::new();
    while let Some(b) = reader.read_bit() {
        out.push(b);
    }
    out
}

fn write_bits(bits: &[u8]) -> (Vec<u8>, u8) {
    let mut w = BitWriter::new(0);
    for &b in bits {
        w.write_bit(b);
    }
    w.finish()
}

fn sample_text() -> Vec<u8> {
    let mut v = Vec::new();
    for i in 0..40u32 {
        v.extend_from_slice(b"the quick brown fox jumps over the lazy dog ");
        v.push((i % 7) as u8 + b'0');
    }
    v
}

fn ramp() -> Vec<u8> {
    (0..3000u32).map(|i| (i * 3 % 256) as u8).collect()
}

#[test]
fn bit_writer_packs_msb_first_with_padding() {
    let (bytes, pad) = write_bits(&[1, 0, 1]);
    assert_eq!(bytes, vec![0b1010_0000]);
    assert_eq!(pad, 5);
    let (bytes, pad) = write_bits(&[1, 1, 1, 1, 0, 0, 0, 0, 1]);
    assert_eq!(bytes, vec![0xF0, 0x80]);
    assert_eq!(pad, 7);
    let (bytes, pad) = write_bits(&[0, 0, 0, 0, 0, 0, 0, 1]);
    assert_eq!(bytes, vec![0x01]);
    assert_eq!(pad, 0);
    let (bytes, pad) = write_bits(&[]);
    assert!(bytes.is_empty());
    assert_eq!(pad, 0);
}

#[test]
fn bit_reader_reads_back_written_bits() {
    let bits = [1u8, 0, 0, 1, 1, 0, 1, 0, 1, 1, 1];
    let (bytes, pad) = write_bits(&bits);
    let read = bits_of(&bytes);
    assert_eq!(read.len(), bits.len() + pad as usize);
    assert_eq!(&read[..bits.len()], &bits[..]);
    assert!(read[bits.len()..].iter().all(|&b| b == 0));
}

#[test]
fn bit_reader_ends_with_none() {
    let data = [0xA5u8];
    let mut r = BitReader::new(&data);
    let mut got = Vec::new();
    for _ in 0..8 {
        got.push(r.read_bit().unwrap());
    }
    assert_eq!(got, vec![1, 0, 1, 0, 0, 1, 0, 1]);
    assert_eq!(r.read_bit(), None);
    assert_eq!(r.read_bit(), None);
}

#[test]
fn fibonacci_codes_of_small_values() {
    let core = CodecCore::new(0);
    let code = |n: u32| {
        let mut w = BitWriter::new(0);
        core.fib_encode_number(n, &mut w);
        let (bytes, pad) = w.finish();
        let mut bits = bits_of(&bytes);
        bits.truncate(bits.len() - pad as usize);
        bits
    };
    assert_eq!(code(0), vec![1, 1]);
    assert_eq!(code(1), vec![0, 1, 1]);
    assert_eq!(code(2), vec![0, 0, 1, 1]);
    assert_eq!(code(3), vec![1, 0, 1, 1]);
    assert_eq!(code(4), vec![0, 0, 0, 1, 1]);
    assert_eq!(code(255), vec![0, 1, 0, 0, 0, 0, 1, 0, 0, 0, 0, 1, 1]);
}

#[test]
fn fibonacci_roundtrip_many_values() {
    let core = CodecCore::new(7);
    let values: Vec<u32> = vec![0, 1, 2, 3, 5, 8, 100, 255, 256, 1000, 65535, 3_000_000, 3_524_576];
    let mut w = BitWriter::new(0);
    for &v in &values {
        core.fib_encode_number(v, &mut w);
    }
    let (bytes, _) = w.finish();
    let mut r = BitReader::new(&bytes);
    for &v in &values {
        assert_eq!(core.fib_decode_number(&mut r), Ok(Some(v)));
    }
    assert_eq!(core.fib_decode_number(&mut r), Ok(None));
}

#[test]
fn fibonacci_decode_fault_past_table() {
    let core = CodecCore::new(0);
    let mut bits = vec![0u8; 31];
    bits.push(1);
    let (bytes, _) = write_bits(&bits);
    let mut r = BitReader::new(&bytes);
    assert_eq!(core.fib_decode_number(&mut r), Err(StreamFault));
}

#[test]
fn fibonacci_decode_runs_out() {
    let core = CodecCore::new(0);
    let (bytes, _) = write_bits(&[1, 0, 1, 0]);
    let mut r = BitReader::new(&bytes);
    assert_eq!(core.fib_decode_number(&mut r), Ok(None));
    assert_eq!(r.read_bit(), None);
}

#[test]
fn elias_gamma_codes_of_small_values() {
    let core = CodecCore::new(0);
    let code = |n: u32| {
        let mut w = BitWriter::new(0);
        core.elias_gamma_encode(n, &mut w);
        let (bytes, pad) = w.finish();
        let mut bits = bits_of(&bytes);
        bits.truncate(bits.len() - pad as usize);
        bits
    };
    assert_eq!(code(0), vec![1]);
    assert_eq!(code(1), vec![0, 1, 0]);
    assert_eq!(code(2), vec![0, 1, 1]);
    assert_eq!(code(3), vec![0, 0, 1, 0, 0]);
    assert_eq!(code(6), vec![0, 0, 1, 1, 1]);
}

#[test]
fn elias_gamma_roundtrip_many_values() {
    let core = CodecCore::new(0);
    let values: Vec<u32> = vec![0, 1, 2, 3, 7, 8, 254, 1 << 20, u32::MAX - 1];
    let mut w = BitWriter::new(0);
    for &v in &values {
        core.elias_gamma_encode(v, &mut w);
    }
    let (bytes, _) = w.finish();
    let mut r = BitReader::new(&bytes);
    for &v in &values {
        assert_eq!(core.elias_gamma_decode(&mut r), Ok(Some(v)));
    }
    assert_eq!(core.elias_gamma_decode(&mut r), Ok(None));
}

#[test]
fn elias_gamma_value_shifted_out_wraps() {
    let core = CodecCore::new(0);
    let mut bits = vec![0u8; 32];
    bits.push(1);
    bits.extend(vec![0u8; 32]);
    let (bytes, _) = write_bits(&bits);
    let mut r = BitReader::new(&bytes);
    assert_eq!(core.elias_gamma_decode(&mut r), Ok(Some(u32::MAX)));
}

#[test]
fn delta_filter_values_and_roundtrip() {
    let d = CodecCore::apply_delta(&[10, 20, 15, 15, 0]);
    assert_eq!(d, vec![10, 10, 251, 0, 241]);
    assert_eq!(CodecCore::remove_delta(&d), vec![10, 20, 15, 15, 0]);
    let r = ramp();
    assert_eq!(CodecCore::remove_delta(&CodecCore::apply_delta(&r)), r);
    assert!(CodecCore::apply_delta(&[]).is_empty());
}

#[test]
fn encrypt_chunk_masks_and_unmasks() {
    let core = CodecCore::new(0x1234_5678_9abc_def0);
    let data = sample_text();
    let enc = core.encrypt_chunk(&data);
    assert_ne!(enc, data);
    assert_eq!(core.encrypt_chunk(&enc), data);
    let zero_key = CodecCore::new(0);
    let first = zero_key.encrypt_chunk(&[0]);
    assert_eq!(first, vec![(GOLDEN_RATIO_MAGIC & 0xFF) as u8]);
    let eight = zero_key.encrypt_chunk(&[0; 8]);
    for i in 0..8u64 {
        let expect = (GOLDEN_RATIO_MAGIC.wrapping_mul(i + 1) >> (8 * i)) & 0xFF;
        assert_eq!(eight[i as usize] as u64, expect);
    }
    // each key byte masks its own positions
    let high = CodecCore::new(0xFF << 56).encrypt_chunk(&[0; 8]);
    for i in 0..7 {
        assert_eq!(high[i], eight[i]);
    }
    assert_eq!(high[7], eight[7] ^ 0xFF);
}

#[test]
fn container_refused_under_key_differing_in_a_high_byte() {
    let core = CodecCore::new(0x1234);
    let other = CodecCore::new(0x1234 ^ 256);
    let data = sample_text();
    let container = core.pack_container(&data);
    assert_eq!(core.unpack_container(&container), Ok(data.clone()));
    assert!(other.unpack_container(&container).is_err());
}

#[test]
fn adler32_known_values() {
    assert_eq!(adler32(b"Wikipedia"), 0x11E6_0398);
    assert_eq!(adler32(b""), 1);
    assert_eq!(adler32(&[0xFF; 4]), (2554 << 16) | 1021);
}

#[test]
fn password_hash_values() {
    assert_eq!(fractal_mirror_hash(""), 0x9e37_79b9_7f4a_7c15);
    assert_eq!(fractal_mirror_hash("a"), 0x0416_de99_08b0_e9b9);
    assert_eq!(fractal_mirror_hash("password"), 0x7504_8933_6cce_dc5f);
    assert_eq!(fractal_mirror_hash("Obscura-2024!"), 0x8bc6_668c_5f30_ad1d);
}

#[test]
fn desktop_app_starts_with_one_log_line() {
    let app = ObscuraApp::default();
    assert!(app.input_path.is_empty() && app.output_path.is_empty() && app.password.is_empty());
    assert_eq!(app.logs, vec!["[SYSTEM] Obscura Engine initialized. Standing by.".to_string()]);
}

#[test]
fn desktop_app_log_appends() {
    let mut app = ObscuraApp::default();
    app.log("hello");
    assert_eq!(app.logs.len(), 2);
    assert_eq!(app.logs[1], "hello");
}

#[test]
fn desktop_app_refuses_empty_fields() {
    let mut app = ObscuraApp::default();
    app.input_path = "in.bin".to_string();
    app.password = "pw".to_string();
    assert!(app.execute_codec("compress").is_none());
    assert_eq!(app.logs.last().unwrap(), "[ERROR] All fields must be filled.");
}

#[test]
fn desktop_app_run_keys_codec() {
    let mut app = ObscuraApp::default();
    app.input_path = "in.bin".to_string();
    app.output_path = "out.bin".to_string();
    app.password = "ab".to_string();
    let (core, run) = app.execute_codec("decompress").unwrap();
    assert_eq!(run, CodecRun::Decompress);
    assert_eq!(app.logs.last().unwrap(), "[SYSTEM] Executing decompress path...");
    let reference = CodecCore::new(fractal_mirror_hash("ab"));
    let data = sample_text();
    assert_eq!(core.encrypt_chunk(&data), reference.encrypt_chunk(&data));
    let (_, run) = app.execute_codec("compress").unwrap();
    assert_eq!(run, CodecRun::Compress);
    let (_, run) = app.execute_codec("pack").unwrap();
    assert_eq!(run, CodecRun::Decompress);
    assert_eq!(app.logs.len(), 4);
}

#[test]
fn desktop_app_logs_outcome() {
    let mut app = ObscuraApp::default();
    app.finish_codec("compress", Ok("0.25s"));
    assert_eq!(app.logs.last().unwrap(), "[SUCCESS] Operation compress completed in 0.25s");
    app.finish_codec("decompress", Err("No such file"));
    assert_eq!(app.logs.last().unwrap(), "[CRITICAL] Operation decompress failed: No such file");
    assert_eq!(app.logs.len(), 3);
}

#[test]
fn desktop_log_tones() {
    assert_eq!(log_tone("[ERROR] All fields must be filled."), LogTone::Alarm);
    assert_eq!(log_tone("x [CRITICAL] y"), LogTone::Alarm);
    assert_eq!(log_tone("[SUCCESS] done [ERROR]"), LogTone::Alarm);
    assert_eq!(log_tone("[SUCCESS] Operation compress completed in 1.00s"), LogTone::Success);
    assert_eq!(log_tone("[SYSTEM] Obscura Engine initialized. Standing by."), LogTone::Plain);
    assert_eq!(log_tone("[ERROR"), LogTone::Plain);
    assert_eq!(log_tone(""), LogTone::Plain);
}

#[test]
fn generated_password_values() {
    assert_eq!(generated_password(0), "0");
    assert_eq!(generated_password(1), "9E3779B97F4A");
    assert_eq!(generated_password(12345), "A12CE22B4ED9");
}

fn unpack_stream(core: &CodecCore, packed: &[u8]) -> Result<(bool, Vec<u8>), StreamFault> {
    let mut r = BitReader::new(packed);
    let d = r.read_bit().unwrap() == 1;
    let hi = r.read_bit().unwrap();
    let lo = r.read_bit().unwrap();
    let out = match (hi, lo) {
        (0, 0) => Ok(core.decompress_path0(&mut r)),
        (0, 1) => core.decompress_path1(&mut r),
        (1, 0) => core.decompress_path2(&mut r),
        _ => core.decompress_path3(&mut r),
    }?;
    // every format reads to the end of a well-formed stream
    assert_eq!(r.read_bit(), None);
    Ok((d, out))
}

#[test]
fn raw_format_roundtrip_and_layout() {
    let core = CodecCore::new(1);
    let packed = core.compress_path0(&[0xFF, 0x00], true);
    assert_eq!(packed, vec![0b1001_1111, 0b1110_0000, 0]);
    let data = sample_text();
    let packed = core.compress_path0(&data, false);
    assert_eq!(packed.len(), data.len() + 1);
    assert_eq!(unpack_stream(&core, &packed), Ok((false, data)));
}

#[test]
fn fibonacci_format_roundtrip() {
    let core = CodecCore::new(1);
    let packed = core.compress_path1(&[0, 1], false);
    // header 001, codes 11 and 011
    assert_eq!(packed, vec![0b0011_1011]);
    for data in [sample_text(), ramp(), vec![], vec![0u8; 100]] {
        let packed = core.compress_path1(&data, true);
        assert_eq!(unpack_stream(&core, &packed), Ok((true, data)));
    }
}

#[test]
fn lz_format_roundtrip() {
    let core = CodecCore::new(1);
    for data in [sample_text(), ramp(), vec![], vec![7u8; 1000], b"abcabcabcabcabcabc".to_vec()] {
        let packed = core.compress_path2(&data, false);
        assert_eq!(unpack_stream(&core, &packed), Ok((false, data)));
    }
    let text = sample_text();
    assert!(core.compress_path2(&text, false).len() < core.compress_path1(&text, false).len());
}

#[test]
fn lz_format_back_reference_before_start_is_a_fault() {
    let core = CodecCore::new(1);
    let mut w = BitWriter::new(0);
    for b in [0u8, 1, 0] {
        w.write_bit(b);
    }
    w.write_bit(1);
    core.fib_encode_number(5, &mut w);
    core.fib_encode_number(3, &mut w);
    let (bytes, _) = w.finish();
    assert_eq!(unpack_stream(&core, &bytes), Err(StreamFault));
}

#[test]
fn lz_format_overlapping_copy() {
    let core = CodecCore::new(1);
    let mut w = BitWriter::new(0);
    for b in [0u8, 1, 0] {
        w.write_bit(b);
    }
    w.write_bit(0);
    core.fib_encode_number(b'x' as u32, &mut w);
    w.write_bit(0);
    core.fib_encode_number(b'y' as u32, &mut w);
    w.write_bit(1);
    core.fib_encode_number(2, &mut w);
    core.fib_encode_number(5, &mut w);
    let (bytes, _) = w.finish();
    assert_eq!(unpack_stream(&core, &bytes), Ok((false, b"xyxyxyx".to_vec())));
}

#[test]
fn pair_format_roundtrip() {
    let core = CodecCore::new(1);
    for data in [sample_text(), ramp(), vec![], vec![1u8], b"abababababababab".to_vec(), vec![9u8; 500]] {
        let packed = core.compress_path3(&data, true);
        assert_eq!(unpack_stream(&core, &packed), Ok((true, data)));
    }
}

#[test]
fn pair_format_dictionary_layout() {
    let core = CodecCore::new(1);
    // "ab" occurs 8 times and "ba" 7 times: a dictionary of two pairs, most frequent first.
    let packed = core.compress_path3(b"abababababababab", false);
    let mut r = BitReader::new(&packed);
    assert_eq!((r.read_bit(), r.read_bit(), r.read_bit()), (Some(0), Some(1), Some(1)));
    assert_eq!(core.fib_decode_number(&mut r), Ok(Some(2)));
    let pairs: Vec<u32> = (0..4).map(|_| core.fib_decode_number(&mut r).unwrap().unwrap()).collect();
    assert_eq!(pairs, vec![b'a' as u32, b'b' as u32, b'b' as u32, b'a' as u32]);
    // the body: eight times a 1 flag and index 0
    for _ in 0..8 {
        assert_eq!(r.read_bit(), Some(1));
        assert_eq!(core.elias_gamma_decode(&mut r), Ok(Some(0)));
    }
    // no pair occurs more than five times: no dictionary
    let packed = core.compress_path3(b"abcab", false);
    let mut r = BitReader::new(&packed);
    for _ in 0..3 {
        r.read_bit();
    }
    assert_eq!(core.fib_decode_number(&mut r), Ok(Some(0)));
}

#[test]
fn pair_format_missing_dictionary_entry_is_a_fault() {
    let core = CodecCore::new(1);
    let mut w = BitWriter::new(0);
    for b in [0u8, 1, 1] {
        w.write_bit(b);
    }
    core.fib_encode_number(3, &mut w);
    core.fib_encode_number(10, &mut w);
    let (bytes, _) = w.finish();
    assert_eq!(unpack_stream(&core, &bytes), Err(StreamFault));
}

#[test]
fn pair_format_stops_at_index_past_dictionary() {
    let core = CodecCore::new(1);
    let mut w = BitWriter::new(0);
    core.fib_encode_number(1, &mut w);
    core.fib_encode_number(b'a' as u32, &mut w);
    core.fib_encode_number(b'b' as u32, &mut w);
    w.write_bit(1);
    core.elias_gamma_encode(0, &mut w);
    w.write_bit(1);
    core.elias_gamma_encode(4, &mut w);
    w.write_bit(1);
    w.write_bit(1);
    let (bytes, _) = w.finish();
    let mut r = BitReader::new(&bytes);
    assert_eq!(core.decompress_path3(&mut r), Ok(b"ab".to_vec()));
    // the two bits after the stopping index are left unread, then the padding
    assert_eq!(r.read_bit(), Some(1));
    assert_eq!(r.read_bit(), Some(1));
}

#[test]
fn pair_format_wrapped_index_stops_and_keeps_bytes() {
    let core = CodecCore::new(1);
    let mut w = BitWriter::new(0);
    // a dictionary of one pair (0, 0), then index 0
    core.fib_encode_number(1, &mut w);
    core.fib_encode_number(0, &mut w);
    core.fib_encode_number(0, &mut w);
    w.write_bit(1);
    core.elias_gamma_encode(0, &mut w);
    // an index code whose value has shifted out: 32 zeros, a 1, 32 zeros
    w.write_bit(1);
    for _ in 0..32 {
        w.write_bit(0);
    }
    w.write_bit(1);
    for _ in 0..32 {
        w.write_bit(0);
    }
    let (bytes, _) = w.finish();
    let mut r = BitReader::new(&bytes);
    assert_eq!(core.decompress_path3(&mut r), Ok(vec![0u8, 0u8]));
}

#[test]
fn chunk_record_roundtrip() {
    let core = CodecCore::new(fractal_mirror_hash("secret"));
    for data in [sample_text(), ramp(), vec![], vec![0u8; 5000], vec![42u8]] {
        let record = core.pack_chunk(&data);
        assert!(record.len() >= 8);
        let (len, checksum) = core.parse_record_header(&record[..8]);
        assert_eq!(len as usize, record.len() - 8);
        assert_eq!(checksum, adler32(&data));
        assert!(record.len() - 8 <= data.len() + 1);
        assert_eq!(core.unpack_record(&record), Ok(data));
    }
}

#[test]
fn chunk_record_header_is_masked() {
    let core = CodecCore::new(fractal_mirror_hash("secret"));
    let data = sample_text();
    let record = core.pack_chunk(&data);
    let plain = core.encrypt_chunk(&record);
    let len = (record.len() - 8) as u32;
    assert_eq!(&plain[..4], &len.to_le_bytes());
    assert_eq!(&plain[4..8], &adler32(&data).to_le_bytes());
    assert_ne!(&record[..4], &len.to_le_bytes());
}

#[test]
fn chunk_record_picks_the_shortest_candidate() {
    let core = CodecCore::new(5);
    let data = ramp();
    let record = core.pack_chunk(&data);
    let delta = CodecCore::apply_delta(&data);
    let best = [
        core.compress_path0(&data, false).len(),
        core.compress_path1(&data, false).len(),
        core.compress_path2(&data, false).len(),
        core.compress_path3(&data, false).len(),
        core.compress_path0(&delta, true).len(),
        core.compress_path1(&delta, true).len(),
        core.compress_path2(&delta, true).len(),
        core.compress_path3(&delta, true).len(),
    ]
    .into_iter()
    .min()
    .unwrap();
    assert_eq!(record.len() - 8, best);
}

#[test]
fn chunk_record_wrong_key_is_refused() {
    let core = CodecCore::new(fractal_mirror_hash("secret"));
    let other = CodecCore::new(fractal_mirror_hash("guess"));
    let data = sample_text();
    let record = core.pack_chunk(&data);
    assert!(other.unpack_record(&record).is_err());
}

#[test]
fn chunk_record_tampered_checksum_is_refused() {
    let core = CodecCore::new(7);
    let data = sample_text();
    let mut record = core.pack_chunk(&data);
    record[5] ^= 1;
    assert_eq!(core.unpack_record(&record), Err(RecordError::ChecksumMismatch));
}

#[test]
fn chunk_record_corrupt_stream_is_refused() {
    let core = CodecCore::new(7);
    let mut w = BitWriter::new(0);
    for b in [0u8, 1, 0] {
        w.write_bit(b);
    }
    w.write_bit(1);
    core.fib_encode_number(5, &mut w);
    core.fib_encode_number(3, &mut w);
    let (body, _) = w.finish();
    let mut plain = (body.len() as u32).to_le_bytes().to_vec();
    plain.extend_from_slice(&1u32.to_le_bytes());
    plain.extend_from_slice(&body);
    let record = core.encrypt_chunk(&plain);
    assert_eq!(core.unpack_record(&record), Err(RecordError::Corrupt));
}

#[test]
fn unpack_of_empty_record_is_empty() {
    let core = CodecCore::new(3);
    let record = core.encrypt_chunk(&[0, 0, 0, 0, 1, 0, 0, 0]);
    assert_eq!(core.unpack_record(&record), Ok(vec![]));
}

#[test]
fn record_header_little_endian() {
    let core = CodecCore::new(9);
    let header = core.encrypt_chunk(&[1, 0, 0, 0, 0x98, 0x03, 0xE6, 0x11]);
    assert_eq!(core.parse_record_header(&header), (1, 0x11E6_0398));
    assert_eq!(CHUNK_SIZE, 1 << 20);
}

#[test]
fn container_roundtrip_over_several_chunks() {
    let core = CodecCore::new(fractal_mirror_hash("secret"));
    let mut data = Vec::new();
    for i in 0..(CHUNK_SIZE + 300) {
        data.push(((i * 7) % 251) as u8 ^ ((i / 4096) as u8));
    }
    let container = core.pack_container(&data);
    assert_eq!(core.unpack_container(&container), Ok(data));
}

#[test]
fn container_of_nothing_is_empty() {
    let core = CodecCore::new(2);
    assert!(core.pack_container(&[]).is_empty());
    assert_eq!(core.unpack_container(&[]), Ok(vec![]));
}

#[test]
fn container_records_follow_each_other() {
    let core = CodecCore::new(11);
    let data = sample_text();
    let container = core.pack_container(&data);
    assert_eq!(container, core.pack_chunk(&data));
    let mut two = container.clone();
    two.extend_from_slice(&container);
    let mut expect = data.clone();
    expect.extend_from_slice(&data);
    assert_eq!(core.unpack_container(&two), Ok(expect));
}

#[test]
fn container_truncated_is_refused() {
    let core = CodecCore::new(11);
    let container = core.pack_container(&sample_text());
    assert_eq!(core.unpack_container(&container[..container.len() - 1]), Err(RecordError::Truncated));
    assert_eq!(core.unpack_container(&container[..5]), Err(RecordError::Truncated));
}
