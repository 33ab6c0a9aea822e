use oxido::cipher::ChunkTag;
use oxido::codec::{encode_descriptor, Descriptor};
use oxido::error::Error;
use oxido::seal::{encrypt, next_tag, Encryptor};
use oxido::unseal::{body_step, decrypt, metadata_from, Decryptor};
use sodiumoxide::crypto::secretstream::xchacha20poly1305 as engine;

fn zero_key() -> Vec<u8> {
    let _ = sodiumoxide::init();
    vec![0u8; 32]
}

/// A container put together by hand with the cipher itself: the chunks are
/// sealed as given, whatever the descriptor says.
fn handmade(key: &[u8], d: Descriptor, metadata: &[u8], chunks: &[(&[u8], engine::Tag)]) -> Vec<u8> {
    let k = engine::Key::from_slice(key).unwrap();
    let (mut stream, header) = engine::Stream::init_push(&k).unwrap();
    let mut out = encode_descriptor(d);
    out.extend_from_slice(header.as_ref());
    let mut first = encode_descriptor(d);
    first.extend_from_slice(metadata);
    out.extend_from_slice(&stream.push(&first, None, engine::Tag::Message).unwrap());
    for (bytes, tag) in chunks {
        out.extend_from_slice(&stream.push(bytes, None, *tag).unwrap());
    }
    out
}

#[test]
fn tag_is_final_where_the_rest_fits_one_chunk() {
    assert_eq!(next_tag(9, 4), ChunkTag::Message);
    assert_eq!(next_tag(5, 4), ChunkTag::Message);
    assert_eq!(next_tag(4, 4), ChunkTag::Final);
    assert_eq!(next_tag(1, 4), ChunkTag::Final);
    assert_eq!(next_tag(u64::MAX, u32::MAX), ChunkTag::Message);
    assert_eq!(next_tag(1, 0), ChunkTag::Message);
}

#[test]
fn sealing_block_by_block_gives_a_container_that_opens() {
    let key = zero_key();
    let plain = b"abcdefghi";
    let (mut enc, mut container) = Encryptor::begin(&key, b"file-id-1", 4, 9).unwrap();
    assert_eq!(container.len(), 16 + 24 + 16 + 9 + 17);
    assert_eq!(enc.chunk_size(), 4);
    let mut pos = 0;
    let mut lens = Vec::new();
    while enc.remaining() > 0 {
        let n = enc.next_block_len() as usize;
        lens.push(n);
        let chunk = enc.seal_block(&plain[pos..pos + n]).unwrap();
        assert_eq!(chunk.len(), n + 17);
        container.extend_from_slice(&chunk);
        pos += n;
    }
    assert_eq!(lens, vec![4, 4, 1]);
    assert_eq!(pos, 9);
    let opened = decrypt(&key, &container, false, b"").unwrap();
    assert_eq!(opened.metadata, b"file-id-1".to_vec());
    assert_eq!(opened.plaintext, Some(plain.to_vec()));
}

#[test]
fn next_block_is_a_full_chunk_or_what_is_left() {
    let key = zero_key();
    let (mut enc, _) = Encryptor::begin(&key, b"", 4, 6).unwrap();
    assert_eq!(enc.remaining(), 6);
    assert_eq!(enc.next_block_len(), 4);
    enc.seal_block(b"abcd").unwrap();
    assert_eq!(enc.remaining(), 2);
    assert_eq!(enc.next_block_len(), 2);
    enc.seal_block(b"ef").unwrap();
    assert_eq!(enc.remaining(), 0);
    assert_eq!(enc.next_block_len(), 0);
}

#[test]
fn an_empty_block_while_bytes_remain_is_an_io_error() {
    let key = zero_key();
    let (mut enc, _) = Encryptor::begin(&key, b"m", 4, 6).unwrap();
    assert!(matches!(enc.seal_block(b""), Err(Error::Io)));
    assert_eq!(enc.remaining(), 6);
    assert!(enc.seal_block(b"abcd").is_ok());
}

#[test]
fn a_block_after_the_final_one_is_an_engine_error() {
    let key = zero_key();
    let (mut enc, _) = Encryptor::begin(&key, b"m", 4, 3).unwrap();
    // the source gives one byte where three were asked for
    assert!(enc.seal_block(b"a").is_ok());
    assert_eq!(enc.remaining(), 2);
    assert!(matches!(enc.seal_block(b"b"), Err(Error::Engine)));
}

#[test]
fn begin_checks_sizes_before_the_key() {
    let _ = sodiumoxide::init();
    assert!(matches!(Encryptor::begin(&[1, 2, 3], b"m", 1 << 32, 0), Err(Error::Validation)));
    assert!(matches!(Encryptor::begin(&[1, 2, 3], b"m", 4, 0), Err(Error::Key)));
}

#[test]
fn opening_chunk_by_chunk() {
    let key = zero_key();
    let container = encrypt(&key, b"abcdefghi", b"file-id-1", 4).unwrap();
    let mut dec = Decryptor::begin(&key, &container[..16], &container[16..40]).unwrap();
    assert_eq!(dec.descriptor(), Descriptor { metadata_size: 9, chunk_size: 4, plain_size: 9 });
    assert_eq!(dec.metadata_chunk_len(), 16 + 9 + 17);
    assert_eq!(dec.next_read_len(), 4 + 17);
    assert_eq!(dec.remaining(), 9);
    let metadata = dec.open_metadata(&container[40..82]).unwrap();
    assert_eq!(metadata, b"file-id-1".to_vec());
    assert_eq!(dec.open_block(&container[82..103]).unwrap(), b"abcd".to_vec());
    assert_eq!(dec.remaining(), 5);
    assert_eq!(dec.open_block(&container[103..124]).unwrap(), b"efgh".to_vec());
    assert_eq!(dec.remaining(), 1);
    assert_eq!(dec.open_block(&container[124..]).unwrap(), b"i".to_vec());
    assert_eq!(dec.remaining(), 0);
}

#[test]
fn opening_starts_only_on_a_whole_lead_and_header() {
    let key = zero_key();
    let container = encrypt(&key, b"abc", b"m", 4).unwrap();
    assert!(matches!(Decryptor::begin(&key, &container[..15], &container[16..40]), Err(Error::Format)));
    assert!(matches!(Decryptor::begin(&key, &container[..16], &container[16..39]), Err(Error::Format)));
    assert!(matches!(Decryptor::begin(&key[..5], &container[..16], &container[16..39]), Err(Error::Format)));
    assert!(matches!(Decryptor::begin(&key[..5], &container[..16], &container[16..40]), Err(Error::Key)));
}

#[test]
fn a_metadata_chunk_of_another_length_is_a_format_error() {
    let key = zero_key();
    let container = encrypt(&key, b"abc", b"file-id-1", 4).unwrap();
    let mut dec = Decryptor::begin(&key, &container[..16], &container[16..40]).unwrap();
    assert!(matches!(dec.open_metadata(&container[40..81]), Err(Error::Format)));
    assert!(matches!(dec.open_metadata(&container[40..83]), Err(Error::Format)));
    assert_eq!(dec.open_metadata(&container[40..82]).unwrap(), b"file-id-1".to_vec());
}

#[test]
fn nothing_read_while_bytes_are_expected_is_a_format_error() {
    let key = zero_key();
    let container = encrypt(&key, b"abcdef", b"", 4).unwrap();
    let mut dec = Decryptor::begin(&key, &container[..16], &container[16..40]).unwrap();
    dec.open_metadata(&container[40..73]).unwrap();
    assert!(matches!(dec.open_block(b""), Err(Error::Format)));
    assert_eq!(dec.remaining(), 6);
    assert_eq!(dec.open_block(&container[73..94]).unwrap(), b"abcd".to_vec());
}

#[test]
fn chunks_out_of_order_do_not_authenticate() {
    let key = zero_key();
    let container = encrypt(&key, b"abcdefghi", b"", 4).unwrap();
    let mut dec = Decryptor::begin(&key, &container[..16], &container[16..40]).unwrap();
    dec.open_metadata(&container[40..73]).unwrap();
    assert!(matches!(dec.open_block(&container[94..115]), Err(Error::Auth)));
}

#[test]
fn body_step_on_each_outcome_of_the_cipher() {
    assert!(matches!(body_step(4, 9, None), Err(Error::Auth)));
    assert_eq!(body_step(4, 9, Some((b"abcd".to_vec(), ChunkTag::Message))), Ok((b"abcd".to_vec(), 5)));
    assert_eq!(body_step(4, 9, Some((b"abcd".to_vec(), ChunkTag::Push))), Ok((b"abcd".to_vec(), 5)));
    assert_eq!(body_step(4, 9, Some((b"abcd".to_vec(), ChunkTag::Rekey))), Ok((b"abcd".to_vec(), 5)));
    assert_eq!(body_step(4, 4, Some((b"abcd".to_vec(), ChunkTag::Message))), Ok((b"abcd".to_vec(), 0)));
    assert_eq!(body_step(4, 3, Some((b"abcd".to_vec(), ChunkTag::Message))), Ok((b"abcd".to_vec(), 0)));
    assert_eq!(body_step(4, 9, Some((b"ab".to_vec(), ChunkTag::Final))), Ok((b"ab".to_vec(), 0)));
    assert_eq!(body_step(4, 9, Some((Vec::new(), ChunkTag::Final))), Ok((Vec::new(), 0)));
    assert_eq!(body_step(4, 9, Some((b"abcde".to_vec(), ChunkTag::Final))), Ok((b"abcde".to_vec(), 0)));
    assert!(matches!(body_step(4, 9, Some((b"abc".to_vec(), ChunkTag::Message))), Err(Error::Format)));
    assert!(matches!(body_step(4, 9, Some((b"abcde".to_vec(), ChunkTag::Message))), Err(Error::Format)));
    assert_eq!(body_step(0, 9, Some((Vec::new(), ChunkTag::Message))), Ok((Vec::new(), 9)));
}

#[test]
fn metadata_from_on_each_outcome_of_the_cipher() {
    let lead = encode_descriptor(Descriptor { metadata_size: 2, chunk_size: 4, plain_size: 9 });
    assert!(matches!(metadata_from(&lead, None), Err(Error::Auth)));
    let mut sealed = lead.clone();
    sealed.extend_from_slice(b"me");
    assert_eq!(metadata_from(&lead, Some((sealed.clone(), ChunkTag::Message))), Ok(b"me".to_vec()));
    assert_eq!(metadata_from(&lead, Some((sealed.clone(), ChunkTag::Final))), Ok(b"me".to_vec()));
    assert_eq!(metadata_from(&lead, Some((lead.clone(), ChunkTag::Message))), Ok(Vec::new()));
    let mut other = sealed.clone();
    other[15] ^= 1;
    assert!(matches!(metadata_from(&lead, Some((other, ChunkTag::Message))), Err(Error::Integrity)));
    assert!(matches!(metadata_from(&lead, Some((lead[..15].to_vec(), ChunkTag::Message))), Err(Error::Integrity)));
    assert!(matches!(metadata_from(&lead[..15], Some((sealed, ChunkTag::Message))), Err(Error::Integrity)));
}

#[test]
fn a_final_chunk_ends_the_body_before_the_count_does() {
    let key = zero_key();
    let d = Descriptor { metadata_size: 1, chunk_size: 4, plain_size: 100 };
    let c = handmade(&key, d, b"m", &[(b"abcd", engine::Tag::Message), (b"ef", engine::Tag::Final)]);
    let opened = decrypt(&key, &c, false, b"").unwrap();
    assert_eq!(opened.plaintext, Some(b"abcdef".to_vec()));
}

#[test]
fn a_short_chunk_that_is_not_final_is_a_format_error() {
    let key = zero_key();
    let d = Descriptor { metadata_size: 1, chunk_size: 4, plain_size: 6 };
    let c = handmade(&key, d, b"m", &[(b"abc", engine::Tag::Message), (b"def", engine::Tag::Final)]);
    assert!(matches!(decrypt(&key, &c[..16 + 24 + 34 + 20], false, b""), Err(Error::Format)));
}

#[test]
fn full_chunks_without_a_final_tag_end_with_the_count() {
    let key = zero_key();
    let d = Descriptor { metadata_size: 1, chunk_size: 4, plain_size: 8 };
    let c = handmade(&key, d, b"m", &[(b"abcd", engine::Tag::Message), (b"efgh", engine::Tag::Message)]);
    let opened = decrypt(&key, &c, false, b"").unwrap();
    assert_eq!(opened.plaintext, Some(b"abcdefgh".to_vec()));
}

#[test]
fn the_count_stops_at_zero() {
    let key = zero_key();
    let d = Descriptor { metadata_size: 1, chunk_size: 4, plain_size: 2 };
    let c = handmade(&key, d, b"m", &[(b"abcd", engine::Tag::Message), (b"efgh", engine::Tag::Final)]);
    let opened = decrypt(&key, &c, false, b"").unwrap();
    assert_eq!(opened.plaintext, Some(b"abcd".to_vec()));
}

#[test]
fn a_stream_without_a_final_tag_that_ends_early_is_a_format_error() {
    let key = zero_key();
    let d = Descriptor { metadata_size: 1, chunk_size: 4, plain_size: 12 };
    let c = handmade(&key, d, b"m", &[(b"abcd", engine::Tag::Message), (b"efgh", engine::Tag::Message)]);
    assert!(matches!(decrypt(&key, &c, false, b""), Err(Error::Format)));
}

#[test]
fn a_sealed_descriptor_that_is_not_the_lead_is_an_integrity_error() {
    let key = zero_key();
    let d = Descriptor { metadata_size: 1, chunk_size: 4, plain_size: 4 };
    let mut c = handmade(&key, d, b"m", &[(b"abcd", engine::Tag::Final)]);
    let shown = encode_descriptor(Descriptor { metadata_size: 1, chunk_size: 8, plain_size: 4 });
    c[..16].copy_from_slice(&shown);
    assert!(matches!(decrypt(&key, &c, false, b""), Err(Error::Integrity)));
}

#[test]
fn a_metadata_chunk_tagged_final_closes_the_stream() {
    let _ = sodiumoxide::init();
    let key = vec![7u8; 32];
    let k = engine::Key::from_slice(&key).unwrap();
    let (mut stream, header) = engine::Stream::init_push(&k).unwrap();
    let d = Descriptor { metadata_size: 1, chunk_size: 4, plain_size: 0 };
    let mut c = encode_descriptor(d);
    c.extend_from_slice(header.as_ref());
    let mut first = encode_descriptor(d);
    first.extend_from_slice(b"m");
    c.extend_from_slice(&stream.push(&first, None, engine::Tag::Final).unwrap());
    let opened = decrypt(&key, &c, false, b"").unwrap();
    assert_eq!(opened.metadata, b"m".to_vec());
    assert_eq!(opened.plaintext, Some(Vec::new()));
}
