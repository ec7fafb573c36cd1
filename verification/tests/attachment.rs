use cipherpad::attachment::{
    blob_len, decrypt_pad_to_bytes, encode_chunk_sizes, encrypt_file_to_pad, open_chunk,
    open_sidecar, open_sidecar_of, parse_chunk_sizes, AttachmentWriter, CHUNK_SIZE,
    MAX_BLOB_SIZE, SIZE_WIDTH,
};
use cipherpad::crypto::{decrypt, encrypt};
use cipherpad::error::Error;

fn pattern(len: usize) -> Vec<u8> {
    (0..len).map(|i| (i * 7 % 253) as u8).collect()
}

#[test]
fn attachment_constants() {
    assert_eq!(CHUNK_SIZE, 4096);
    assert_eq!(MAX_BLOB_SIZE, 1_000_000_000);
    assert_eq!(SIZE_WIDTH, 8);
}

#[test]
fn sidecar_is_big_endian() {
    assert_eq!(
        encode_chunk_sizes(&[4140, 1852]),
        vec![0, 0, 0, 0, 0, 0, 0x10, 0x2c, 0, 0, 0, 0, 0, 0, 0x07, 0x3c]
    );
    assert_eq!(
        encode_chunk_sizes(&[0x0102030405060708]),
        vec![1, 2, 3, 4, 5, 6, 7, 8]
    );
    assert_eq!(encode_chunk_sizes(&[]), Vec::<u8>::new());
}

#[test]
fn sidecar_is_read_back() {
    assert_eq!(
        parse_chunk_sizes(&[0, 0, 0, 0, 0, 0, 0x10, 0x2c, 0, 0, 0, 0, 0, 0, 0x07, 0x3c]),
        Ok(vec![4140, 1852])
    );
    assert_eq!(parse_chunk_sizes(&[1, 2, 3, 4, 5, 6, 7, 8]), Ok(vec![0x0102030405060708]));
    assert_eq!(parse_chunk_sizes(&[0xff; 8]), Ok(vec![u64::MAX]));
    assert_eq!(parse_chunk_sizes(&[]), Ok(vec![]));
}

#[test]
fn sidecar_round_trip() {
    let sizes = vec![0, 1, 255, 256, 65535, 65536, u32::MAX as u64, u64::MAX, 0x8000000000000000];
    let bytes = encode_chunk_sizes(&sizes);
    assert_eq!(bytes.len(), sizes.len() * 8);
    assert_eq!(parse_chunk_sizes(&bytes), Ok(sizes));
}

#[test]
fn sidecar_of_odd_length_is_corrupt() {
    for len in [1usize, 7, 9, 15, 17] {
        assert_eq!(parse_chunk_sizes(&vec![0u8; len]), Err(Error::CorruptAttachment));
    }
}

#[test]
fn blob_len_follows_the_layout() {
    assert_eq!(blob_len(0), Some(44));
    assert_eq!(blob_len(1), Some(8 + 44 + 1 + 44));
    assert_eq!(blob_len(4096), Some(8 + 44 + 4096 + 44));
    assert_eq!(blob_len(4097), Some(16 + 44 + 4097 + 88));
    assert_eq!(blob_len(10_000), Some(24 + 44 + 10_000 + 132));
}

#[test]
fn blob_len_stops_below_the_cap() {
    // 241_080 chunks: 987_463_636 + 52 * 241_080 + 44 = 999_999_840.
    assert_eq!(blob_len(987_463_636), Some(999_999_840));
    // The last length whose blob stays below the cap.
    assert_eq!(blob_len(987_463_743), Some(999_999_999));
    assert_eq!(blob_len(987_463_744), None);
    assert_eq!(blob_len(1_000_000_000), None);
    assert_eq!(blob_len(usize::MAX), None);
}

#[test]
fn file_of_ten_thousand_bytes() {
    let key = [0x42u8; 32];
    let file = vec![0xABu8; 10_000];
    let sealed = encrypt_file_to_pad(&file, &key).unwrap();
    assert_eq!(sealed.encrypted_data_offset, 3 * 8 + 44);
    assert_eq!(sealed.pad_data.len(), 68 + 10_000 + 3 * 44);
    let sizes = open_sidecar(&sealed.pad_data[..68], &key).unwrap();
    assert_eq!(sizes, vec![4096 + 44, 4096 + 44, 1808 + 44]);
    assert_eq!(decrypt(&sealed.pad_data[68..68 + 4140], &key).unwrap(), vec![0xABu8; 4096]);
    assert_eq!(
        decrypt(&sealed.pad_data[68 + 4140..68 + 8280], &key).unwrap(),
        vec![0xABu8; 4096]
    );
    assert_eq!(decrypt(&sealed.pad_data[68 + 8280..], &key).unwrap(), vec![0xABu8; 1808]);
    let back = decrypt_pad_to_bytes(&sealed.pad_data, sealed.encrypted_data_offset, &key).unwrap();
    assert_eq!(back, file);
}

#[test]
fn attachment_round_trip_of_many_lengths() {
    let key = [0x17u8; 32];
    for len in [0usize, 1, 43, 44, 4095, 4096, 4097, 8191, 8192, 8193, 20_000] {
        let file = pattern(len);
        let sealed = encrypt_file_to_pad(&file, &key).unwrap();
        assert_eq!(Some(sealed.pad_data.len()), blob_len(len));
        let back =
            decrypt_pad_to_bytes(&sealed.pad_data, sealed.encrypted_data_offset, &key).unwrap();
        assert_eq!(back, file);
    }
}

#[test]
fn sidecar_has_one_entry_for_each_chunk() {
    let key = [0x17u8; 32];
    let cases: Vec<(usize, Vec<u64>)> = vec![
        (0, vec![]),
        (1, vec![45]),
        (4095, vec![4139]),
        (4096, vec![4140]),
        (4097, vec![4140, 45]),
        (8192, vec![4140, 4140]),
        (12_289, vec![4140, 4140, 4140, 45]),
    ];
    for (len, expected) in cases {
        let sealed = encrypt_file_to_pad(&pattern(len), &key).unwrap();
        assert_eq!(sealed.encrypted_data_offset, expected.len() * 8 + 44);
        let sizes =
            open_sidecar(&sealed.pad_data[..sealed.encrypted_data_offset], &key).unwrap();
        assert_eq!(sizes, expected);
    }
}

#[test]
fn empty_file_is_a_sidecar_alone() {
    let key = [0x17u8; 32];
    let sealed = encrypt_file_to_pad(&[], &key).unwrap();
    assert_eq!(sealed.encrypted_data_offset, 44);
    assert_eq!(sealed.pad_data.len(), 44);
    assert_eq!(
        decrypt_pad_to_bytes(&sealed.pad_data, 44, &key),
        Ok(Vec::<u8>::new())
    );
}

#[test]
fn file_that_is_too_large_is_refused() {
    let key = [0x17u8; 32];
    let file = vec![0u8; 987_463_744];
    assert!(matches!(encrypt_file_to_pad(&file, &key), Err(Error::FileTooLarge)));
}

#[test]
fn changed_blob_does_not_decrypt() {
    let key = [0x42u8; 32];
    let file = vec![0xABu8; 10_000];
    let sealed = encrypt_file_to_pad(&file, &key).unwrap();
    let offset = sealed.encrypted_data_offset;
    for at in [0usize, 11, 12, 27, 28, 67, 68, 80, 100, 68 + 4139, 68 + 4140, 68 + 8280, 10_199] {
        let mut changed = sealed.pad_data.clone();
        changed[at] ^= 0x80;
        assert_eq!(decrypt_pad_to_bytes(&changed, offset, &key), Err(Error::CryptoFailure));
    }
}

#[test]
fn blob_under_another_key_does_not_decrypt() {
    let sealed = encrypt_file_to_pad(&pattern(5000), &[1u8; 32]).unwrap();
    assert_eq!(
        decrypt_pad_to_bytes(&sealed.pad_data, sealed.encrypted_data_offset, &[2u8; 32]),
        Err(Error::CryptoFailure)
    );
}

#[test]
fn truncated_blob_is_corrupt() {
    let key = [0x42u8; 32];
    let sealed = encrypt_file_to_pad(&pattern(10_000), &key).unwrap();
    let offset = sealed.encrypted_data_offset;
    for cut in [1usize, 1852, 1853, 4140, 10_000] {
        let short = &sealed.pad_data[..sealed.pad_data.len() - cut];
        assert_eq!(decrypt_pad_to_bytes(short, offset, &key), Err(Error::CorruptAttachment));
    }
}

#[test]
fn offset_beyond_the_blob_is_corrupt() {
    let key = [0x42u8; 32];
    let sealed = encrypt_file_to_pad(&pattern(100), &key).unwrap();
    assert_eq!(
        decrypt_pad_to_bytes(&sealed.pad_data, sealed.pad_data.len() + 1, &key),
        Err(Error::CorruptAttachment)
    );
    assert_eq!(decrypt_pad_to_bytes(&[], 44, &key), Err(Error::CorruptAttachment));
}

#[test]
fn wrong_offset_does_not_decrypt() {
    let key = [0x42u8; 32];
    let sealed = encrypt_file_to_pad(&pattern(100), &key).unwrap();
    assert_eq!(decrypt_pad_to_bytes(&sealed.pad_data, 0, &key), Err(Error::CryptoFailure));
    assert_eq!(decrypt_pad_to_bytes(&sealed.pad_data, 51, &key), Err(Error::CryptoFailure));
    assert_eq!(decrypt_pad_to_bytes(&sealed.pad_data, 60, &key), Err(Error::CryptoFailure));
}

#[test]
fn sidecar_that_is_no_list_of_sizes_is_corrupt() {
    let key = [0x42u8; 32];
    let header = encrypt(&[0u8; 12], &key).unwrap();
    assert_eq!(open_sidecar(&header, &key), Err(Error::CorruptAttachment));
    assert_eq!(decrypt_pad_to_bytes(&header, header.len(), &key), Err(Error::CorruptAttachment));
}

#[test]
fn sidecar_that_announces_too_much_is_corrupt() {
    let key = [0x42u8; 32];
    let chunk = encrypt(b"chunk", &key).unwrap();
    let header = encrypt(&encode_chunk_sizes(&[chunk.len() as u64 + 1]), &key).unwrap();
    let mut blob = header.clone();
    blob.extend_from_slice(&chunk);
    assert_eq!(decrypt_pad_to_bytes(&blob, header.len(), &key), Err(Error::CorruptAttachment));
    let huge = encrypt(&encode_chunk_sizes(&[u64::MAX]), &key).unwrap();
    let mut blob = huge.clone();
    blob.extend_from_slice(&chunk);
    assert_eq!(decrypt_pad_to_bytes(&blob, huge.len(), &key), Err(Error::CorruptAttachment));
}

#[test]
fn bytes_behind_the_last_chunk_are_not_read() {
    let key = [0x42u8; 32];
    let file = pattern(5000);
    let sealed = encrypt_file_to_pad(&file, &key).unwrap();
    let mut longer = sealed.pad_data.clone();
    longer.extend_from_slice(&[1, 2, 3]);
    assert_eq!(decrypt_pad_to_bytes(&longer, sealed.encrypted_data_offset, &key), Ok(file));
}

#[test]
fn chunks_of_any_length_are_read_back() {
    let key = [0x42u8; 32];
    let pieces: Vec<Vec<u8>> = vec![pattern(10), pattern(0), pattern(5000), pattern(1)];
    let mut sizes = Vec::new();
    let mut body = Vec::new();
    for piece in &pieces {
        let envelope = encrypt(piece, &key).unwrap();
        sizes.push(envelope.len() as u64);
        body.extend_from_slice(&envelope);
    }
    assert_eq!(sizes, vec![54, 44, 5044, 45]);
    let header = encrypt(&encode_chunk_sizes(&sizes), &key).unwrap();
    let mut blob = header.clone();
    blob.extend_from_slice(&body);
    let expected: Vec<u8> = pieces.concat();
    assert_eq!(decrypt_pad_to_bytes(&blob, header.len(), &key), Ok(expected));
}

#[test]
fn writer_takes_full_chunks_and_a_last_shorter_one() {
    let key = [0x42u8; 32];
    let pieces: Vec<Vec<u8>> = vec![pattern(4096), pattern(4096), pattern(100)];
    let mut writer = AttachmentWriter::new();
    let mut body = Vec::new();
    for piece in &pieces {
        let (next, envelope) = writer.push_chunk(piece, &key).unwrap();
        assert_eq!(envelope.len(), piece.len() + 44);
        assert_eq!(decrypt(&envelope, &key).unwrap(), *piece);
        body.extend_from_slice(&envelope);
        writer = next;
    }
    assert_eq!(writer.chunk_sizes(), &[4140, 4140, 144]);
    let sidecar = writer.finish(&key).unwrap();
    assert_eq!(writer.body_len(), 4140 + 4140 + 144);
    assert_eq!(sidecar.blob_len, 3 * 8 + 44 + 4140 + 4140 + 144);
    assert_eq!(Some(sidecar.blob_len), blob_len(8292));
    let header = sidecar.header;
    assert_eq!(header.len(), 3 * 8 + 44);
    let mut blob = header.clone();
    blob.extend_from_slice(&body);
    let expected: Vec<u8> = pieces.concat();
    assert_eq!(decrypt_pad_to_bytes(&blob, header.len(), &key), Ok(expected));
}

#[test]
fn writer_refuses_a_chunk_that_breaks_the_chunk_rule() {
    let key = [0x42u8; 32];
    assert!(matches!(
        AttachmentWriter::new().push_chunk(&[], &key),
        Err(Error::CorruptAttachment)
    ));
    assert!(matches!(
        AttachmentWriter::new().push_chunk(&pattern(4097), &key),
        Err(Error::CorruptAttachment)
    ));
    let (writer, _) = AttachmentWriter::new().push_chunk(&pattern(4096), &key).unwrap();
    let (writer, _) = writer.push_chunk(&pattern(4095), &key).unwrap();
    assert!(matches!(writer.push_chunk(&pattern(1), &key), Err(Error::CorruptAttachment)));
    let (writer, _) = AttachmentWriter::new().push_chunk(&pattern(1), &key).unwrap();
    assert!(matches!(writer.push_chunk(&pattern(4096), &key), Err(Error::CorruptAttachment)));
}

#[test]
fn sidecar_is_opened_only_at_its_announced_length() {
    let key = [0x42u8; 32];
    let header = encrypt(&encode_chunk_sizes(&[4140, 45]), &key).unwrap();
    assert_eq!(header.len(), 60);
    assert_eq!(open_sidecar_of(&header, 60, &key), Ok(vec![4140, 45]));
    assert_eq!(open_sidecar_of(&header, 61, &key), Err(Error::CorruptAttachment));
    assert_eq!(open_sidecar_of(&header[..59], 60, &key), Err(Error::CorruptAttachment));
    assert_eq!(open_sidecar_of(&header[..59], 59, &key), Err(Error::CryptoFailure));
    assert_eq!(open_sidecar_of(&[], 0, &key), Err(Error::CryptoFailure));
    let odd = encrypt(&[0u8; 9], &key).unwrap();
    assert_eq!(open_sidecar_of(&odd, odd.len(), &key), Err(Error::CorruptAttachment));
}

#[test]
fn writer_starts_empty() {
    let key = [0x42u8; 32];
    let writer = AttachmentWriter::new();
    assert!(writer.chunk_sizes().is_empty());
    let sidecar = writer.finish(&key).unwrap();
    assert_eq!(writer.body_len(), 0);
    assert_eq!(sidecar.blob_len, 44);
    let header = sidecar.header;
    assert_eq!(header.len(), 44);
    assert_eq!(open_sidecar(&header, &key), Ok(vec![]));
}

#[test]
fn writer_refuses_a_chunk_of_the_size_of_the_cap() {
    let key = [0x42u8; 32];
    let writer = AttachmentWriter::new();
    let chunk = vec![0u8; MAX_BLOB_SIZE - 44];
    assert!(matches!(writer.push_chunk(&chunk, &key), Err(Error::CorruptAttachment)));
}

#[test]
fn writer_and_one_call_give_the_same_layout() {
    let key = [0x42u8; 32];
    let file = pattern(9000);
    let mut writer = AttachmentWriter::new();
    for piece in file.chunks(CHUNK_SIZE) {
        let (next, _) = writer.push_chunk(piece, &key).unwrap();
        writer = next;
    }
    let sealed = encrypt_file_to_pad(&file, &key).unwrap();
    let sizes = open_sidecar(&sealed.pad_data[..sealed.encrypted_data_offset], &key).unwrap();
    assert_eq!(writer.chunk_sizes(), &sizes[..]);
    assert_eq!(sizes, vec![4140, 4140, 852]);
}

#[test]
fn chunk_is_opened_only_at_its_announced_length() {
    let key = [0x42u8; 32];
    let envelope = encrypt(b"one chunk", &key).unwrap();
    assert_eq!(open_chunk(&envelope, envelope.len() as u64, &key), Ok(b"one chunk".to_vec()));
    assert_eq!(
        open_chunk(&envelope, envelope.len() as u64 + 1, &key),
        Err(Error::CorruptAttachment)
    );
    assert_eq!(
        open_chunk(&envelope[..envelope.len() - 1], envelope.len() as u64, &key),
        Err(Error::CorruptAttachment)
    );
    let mut changed = envelope.clone();
    changed[30] ^= 1;
    assert_eq!(open_chunk(&changed, changed.len() as u64, &key), Err(Error::CryptoFailure));
}

#[test]
fn chunks_of_a_blob_are_read_one_by_one() {
    let key = [0x42u8; 32];
    let file = pattern(10_000);
    let sealed = encrypt_file_to_pad(&file, &key).unwrap();
    let offset = sealed.encrypted_data_offset;
    let sizes = open_sidecar(&sealed.pad_data[..offset], &key).unwrap();
    let mut at = offset;
    let mut back = Vec::new();
    for size in sizes {
        let end = at + size as usize;
        back.extend_from_slice(&open_chunk(&sealed.pad_data[at..end], size, &key).unwrap());
        at = end;
    }
    assert_eq!(at, sealed.pad_data.len());
    assert_eq!(back, file);
}
