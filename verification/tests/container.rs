use oxido::cipher::{HEADER_LEN, KEY_LEN, OVERHEAD};
use oxido::codec::{decode_descriptor, Descriptor, DESCRIPTOR_LEN};
use oxido::error::Error;
use oxido::layout::LEAD_LEN;
use oxido::seal::{check_sizes, encrypt};
use oxido::unseal::decrypt;
use sodiumoxide::crypto::secretstream::xchacha20poly1305 as engine;

fn key() -> Vec<u8> {
    let _ = sodiumoxide::init();
    vec![0u8; 32]
}

fn metadata_naming(mode: u32, path: &[u8]) -> Vec<u8> {
    let mut m = Vec::new();
    m.extend_from_slice(&mode.to_le_bytes());
    m.extend_from_slice(&5u64.to_le_bytes());
    m.extend_from_slice(&6u64.to_le_bytes());
    m.extend_from_slice(path);
    m
}

/// Opens the chunks of a container with the cipher itself and returns, for
/// each, the length of its plaintext and whether it is tagged as the last.
fn chunk_shapes(key: &[u8], container: &[u8]) -> Vec<(usize, bool)> {
    let d = decode_descriptor(container).unwrap();
    let k = engine::Key::from_slice(key).unwrap();
    let h = engine::Header::from_slice(&container[DESCRIPTOR_LEN..LEAD_LEN]).unwrap();
    let mut stream = engine::Stream::init_pull(&h, &k).unwrap();
    let mut shapes = Vec::new();
    let mut pos = LEAD_LEN;
    let mut len = DESCRIPTOR_LEN + d.metadata_size as usize + OVERHEAD;
    while pos < container.len() {
        let end = usize::min(pos + len, container.len());
        let (plain, tag) = stream.pull(&container[pos..end], None).unwrap();
        shapes.push((plain.len(), tag == engine::Tag::Final));
        pos = end;
        len = d.chunk_size as usize + OVERHEAD;
    }
    shapes
}

#[test]
fn constants_are_those_of_the_cipher() {
    assert_eq!(KEY_LEN, engine::KEYBYTES);
    assert_eq!(HEADER_LEN, engine::HEADERBYTES);
    assert_eq!(OVERHEAD, engine::ABYTES);
    assert_eq!(LEAD_LEN, DESCRIPTOR_LEN + HEADER_LEN);
}

#[test]
fn nine_bytes_in_chunks_of_four() {
    let key = key();
    let container = encrypt(&key, b"abcdefghi", b"file-id-1", 4).unwrap();
    assert_eq!(container.len(), 16 + 24 + (16 + 9 + 17) + (4 + 17) + (4 + 17) + (1 + 17));
    assert_eq!(
        decode_descriptor(&container),
        Ok(Descriptor { metadata_size: 9, chunk_size: 4, plain_size: 9 })
    );
    assert_eq!(
        chunk_shapes(&key, &container),
        vec![(16 + 9, false), (4, false), (4, false), (1, true)]
    );
    let opened = decrypt(&key, &container, false, b"").unwrap();
    assert_eq!(opened.metadata, b"file-id-1".to_vec());
    assert_eq!(opened.plaintext, Some(b"abcdefghi".to_vec()));
}

#[test]
fn metadata_chunk_seals_the_descriptor_in_front_of_the_metadata() {
    let key = key();
    let container = encrypt(&key, b"abcdefghi", b"file-id-1", 4).unwrap();
    let k = engine::Key::from_slice(&key).unwrap();
    let h = engine::Header::from_slice(&container[16..40]).unwrap();
    let mut stream = engine::Stream::init_pull(&h, &k).unwrap();
    let (plain, tag) = stream.pull(&container[40..82], None).unwrap();
    assert_eq!(tag, engine::Tag::Message);
    assert_eq!(&plain[..16], &container[..16]);
    assert_eq!(&plain[16..], b"file-id-1");
}

#[test]
fn round_trip_over_sizes_and_chunk_sizes() {
    let key = key();
    let plain: Vec<u8> = (0..100u32).map(|i| (i * 7 + 3) as u8).collect();
    for len in [0usize, 1, 2, 3, 4, 5, 7, 8, 9, 16, 17, 64, 99, 100] {
        for chunk_size in [1usize, 2, 3, 4, 8, 16, 99, 100, 101, 4096] {
            for metadata in [&b""[..], &b"m"[..], &b"some metadata of the caller"[..]] {
                let container = encrypt(&key, &plain[..len], metadata, chunk_size).unwrap();
                let opened = decrypt(&key, &container, false, b"").unwrap();
                assert_eq!(opened.metadata, metadata.to_vec());
                assert_eq!(opened.plaintext, Some(plain[..len].to_vec()));
            }
        }
    }
}

#[test]
fn round_trip_under_another_key() {
    let _ = sodiumoxide::init();
    let key: Vec<u8> = (1..=32u8).collect();
    let container = encrypt(&key, b"the quick brown fox", b"meta", 5).unwrap();
    let opened = decrypt(&key, &container, false, b"").unwrap();
    assert_eq!(opened.metadata, b"meta".to_vec());
    assert_eq!(opened.plaintext, Some(b"the quick brown fox".to_vec()));
    assert!(matches!(decrypt(&vec![0u8; 32], &container, false, b""), Err(Error::Auth)));
}

#[test]
fn two_sealings_differ_in_their_header() {
    let key = key();
    let a = encrypt(&key, b"abc", b"m", 4).unwrap();
    let b = encrypt(&key, b"abc", b"m", 4).unwrap();
    assert_eq!(a.len(), b.len());
    assert_eq!(&a[..16], &b[..16]);
    assert_ne!(&a[16..40], &b[16..40]);
}

#[test]
fn empty_plaintext_has_no_body_chunks() {
    let key = key();
    for chunk_size in [0usize, 1, 4, 1 << 20] {
        let container = encrypt(&key, b"", b"file-id-1", chunk_size).unwrap();
        assert_eq!(container.len(), 16 + 24 + 16 + 9 + 17);
        assert_eq!(chunk_shapes(&key, &container), vec![(25, false)]);
        let opened = decrypt(&key, &container, false, b"").unwrap();
        assert_eq!(opened.metadata, b"file-id-1".to_vec());
        assert_eq!(opened.plaintext, Some(Vec::new()));
    }
}

#[test]
fn whole_chunks_end_in_a_full_final_chunk() {
    let key = key();
    let container = encrypt(&key, b"abcdefgh", b"", 4).unwrap();
    assert_eq!(container.len(), 40 + 33 + 2 * 21);
    assert_eq!(chunk_shapes(&key, &container), vec![(16, false), (4, false), (4, true)]);
    let one = encrypt(&key, b"abcd", b"", 4).unwrap();
    assert_eq!(chunk_shapes(&key, &one), vec![(16, false), (4, true)]);
}

#[test]
fn other_lengths_end_in_a_shorter_final_chunk() {
    let key = key();
    let container = encrypt(&key, b"abcdefghij", b"", 4).unwrap();
    assert_eq!(container.len(), 40 + 33 + 2 * 21 + 19);
    assert_eq!(
        chunk_shapes(&key, &container),
        vec![(16, false), (4, false), (4, false), (2, true)]
    );
    let short = encrypt(&key, b"abc", b"", 4).unwrap();
    assert_eq!(chunk_shapes(&key, &short), vec![(16, false), (3, true)]);
}

#[test]
fn metadata_only_gives_the_same_metadata_and_no_plaintext() {
    let key = key();
    let container = encrypt(&key, b"abcdefghi", b"file-id-1", 4).unwrap();
    let full = decrypt(&key, &container, false, b"").unwrap();
    let only = decrypt(&key, &container, true, b"").unwrap();
    assert_eq!(only.metadata, full.metadata);
    assert_eq!(only.plaintext, None);
}

#[test]
fn metadata_only_does_not_read_the_body() {
    let key = key();
    let container = encrypt(&key, b"abcdefghi", b"file-id-1", 4).unwrap();
    let mut broken = container.clone();
    let last = broken.len() - 1;
    broken[last] ^= 1;
    assert!(matches!(decrypt(&key, &broken, false, b""), Err(Error::Auth)));
    let only = decrypt(&key, &broken, true, b"anything").unwrap();
    assert_eq!(only.metadata, b"file-id-1".to_vec());
    let cut = &container[..40 + 42];
    assert_eq!(decrypt(&key, cut, true, b"").unwrap().metadata, b"file-id-1".to_vec());
}

#[test]
fn check_path_accepts_exactly_the_sealed_path() {
    let key = key();
    let metadata = metadata_naming(0o100644, b"/srv/backup/a.txt");
    let container = encrypt(&key, b"payload", &metadata, 3).unwrap();
    let opened = decrypt(&key, &container, false, b"/srv/backup/a.txt").unwrap();
    assert_eq!(opened.metadata, metadata);
    assert_eq!(opened.plaintext, Some(b"payload".to_vec()));
    for other in [&b"/srv/backup/a.tx"[..], &b"/srv/backup/a.txt "[..], &b"/srv/backup/b.txt"[..], &b"x"[..]] {
        assert!(matches!(decrypt(&key, &container, false, other), Err(Error::Validation)));
    }
}

#[test]
fn check_path_rejects_what_is_no_regular_file() {
    let key = key();
    let metadata = metadata_naming(0o040755, b"/srv/backup/a.txt");
    let container = encrypt(&key, b"payload", &metadata, 3).unwrap();
    assert!(matches!(
        decrypt(&key, &container, false, b"/srv/backup/a.txt"),
        Err(Error::Validation)
    ));
    assert!(decrypt(&key, &container, false, b"").is_ok());
}

#[test]
fn check_path_on_metadata_without_a_path_layout_is_a_format_error() {
    let key = key();
    let container = encrypt(&key, b"payload", b"file-id-1", 3).unwrap();
    assert!(matches!(decrypt(&key, &container, false, b"file-id-1"), Err(Error::Format)));
}

#[test]
fn a_flipped_byte_in_any_chunk_is_an_auth_error() {
    let key = key();
    let container = encrypt(&key, b"abcdefghi", b"file-id-1", 4).unwrap();
    for i in 40..container.len() {
        let mut broken = container.clone();
        broken[i] ^= 0x40;
        assert!(matches!(decrypt(&key, &broken, false, b""), Err(Error::Auth)), "byte {}", i);
    }
}

#[test]
fn a_flipped_byte_in_the_stream_header_is_an_auth_error() {
    let key = key();
    let container = encrypt(&key, b"abcdefghi", b"file-id-1", 4).unwrap();
    for i in 16..40 {
        let mut broken = container.clone();
        broken[i] ^= 1;
        assert!(matches!(decrypt(&key, &broken, true, b""), Err(Error::Auth)), "byte {}", i);
    }
}

#[test]
fn a_changed_chunk_or_plain_size_is_an_integrity_error() {
    let key = key();
    let container = encrypt(&key, b"abcdefghi", b"file-id-1", 4).unwrap();
    for i in 4..16 {
        let mut broken = container.clone();
        broken[i] ^= 1;
        assert!(matches!(decrypt(&key, &broken, false, b""), Err(Error::Integrity)), "byte {}", i);
        assert!(matches!(decrypt(&key, &broken, true, b""), Err(Error::Integrity)), "byte {}", i);
    }
}

#[test]
fn a_changed_metadata_size_is_refused() {
    let key = key();
    let container = encrypt(&key, b"abcdefghi", b"file-id-1", 4).unwrap();
    let mut smaller = container.clone();
    smaller[0] ^= 1;
    assert!(matches!(decrypt(&key, &smaller, false, b""), Err(Error::Auth)));
    let mut larger = container.clone();
    larger[0] ^= 2;
    assert!(matches!(decrypt(&key, &larger, false, b""), Err(Error::Auth)));
    let mut huge = container.clone();
    huge[3] ^= 0x80;
    assert!(matches!(decrypt(&key, &huge, false, b""), Err(Error::Format)));
}

#[test]
fn a_wrong_key_is_an_auth_error() {
    let key = key();
    let container = encrypt(&key, b"abcdefghi", b"file-id-1", 4).unwrap();
    let mut other = key.clone();
    other[31] = 1;
    assert!(matches!(decrypt(&other, &container, false, b""), Err(Error::Auth)));
}

#[test]
fn a_key_of_the_wrong_length_is_a_key_error() {
    let key = key();
    assert!(matches!(encrypt(&key[..31], b"abc", b"m", 4), Err(Error::Key)));
    assert!(matches!(encrypt(&[], b"abc", b"m", 4), Err(Error::Key)));
    let container = encrypt(&key, b"abc", b"m", 4).unwrap();
    assert!(matches!(decrypt(&key[..31], &container, false, b""), Err(Error::Key)));
    let long = vec![0u8; 33];
    assert!(matches!(decrypt(&long, &container, true, b""), Err(Error::Key)));
}

#[test]
fn sizes_of_two_to_the_thirty_two_are_a_validation_error() {
    let key = key();
    let limit = 1usize << 32;
    assert!(matches!(encrypt(&key, b"abc", b"m", limit), Err(Error::Validation)));
    assert!(matches!(encrypt(&key[..3], b"abc", b"m", limit), Err(Error::Validation)));
    assert!(encrypt(&key, b"abc", b"m", limit - 1).is_ok());
    assert_eq!(check_sizes(limit, 4), Err(Error::Validation));
    assert_eq!(check_sizes(4, limit), Err(Error::Validation));
    assert_eq!(check_sizes(limit - 1, limit - 1), Ok(()));
    assert_eq!(check_sizes(0, 0), Ok(()));
}

#[test]
fn blocks_of_no_bytes_are_an_io_error() {
    let key = key();
    assert!(matches!(encrypt(&key, b"abc", b"m", 0), Err(Error::Io)));
}

#[test]
fn a_container_cut_short_is_a_format_error() {
    let key = key();
    let container = encrypt(&key, b"abcdefghi", b"file-id-1", 4).unwrap();
    assert!(matches!(decrypt(&key, &[], false, b""), Err(Error::Format)));
    assert!(matches!(decrypt(&key, &container[..15], false, b""), Err(Error::Format)));
    assert!(matches!(decrypt(&key, &container[..39], true, b""), Err(Error::Format)));
    assert!(matches!(decrypt(&key, &container[..40], true, b""), Err(Error::Format)));
    assert!(matches!(decrypt(&key, &container[..81], true, b""), Err(Error::Format)));
    // between two chunks: the next read finds nothing
    assert!(matches!(decrypt(&key, &container[..82], false, b""), Err(Error::Format)));
    assert!(matches!(decrypt(&key, &container[..82 + 21], false, b""), Err(Error::Format)));
    // inside a chunk: what is left does not authenticate
    assert!(matches!(decrypt(&key, &container[..82 + 22], false, b""), Err(Error::Auth)));
}

#[test]
fn the_final_tag_ends_the_stream_whatever_the_count() {
    let key = key();
    let mut container = encrypt(&key, b"abcdefgh", b"file-id-1", 4).unwrap();
    container.extend_from_slice(b"trailing bytes that nobody sealed");
    let opened = decrypt(&key, &container, false, b"").unwrap();
    assert_eq!(opened.plaintext, Some(b"abcdefgh".to_vec()));
}
