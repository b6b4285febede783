use bsdiff::cache::{cache_key, fetch_or_build, hex_name};
use bsdiff::diff::Index;
use bsdiff::linear_diff::{apply_patch, generate_full_patch, Command};
use bsdiff::stream::{PatchError, Stream};

fn assert_roundtrip(old: &[u8], new: &[u8]) {
    let index = Index::compute(old.to_vec());

    let mut patch = Vec::new();
    generate_full_patch(&index, &new[..], &mut patch);

    let mut computed = Vec::new();
    apply_patch(&mut Stream::new(patch), &mut Stream::new(old.to_vec()), &mut computed).unwrap();

    assert_eq!(&new[..], &computed[..]);
}

#[test]
fn test_simple_patches() {
    let bufs = vec![
        &b""[..],
        b"this is a test",
        b"this is really a cool test",
        b"this is a test 12345678 test",
        b"this is really a cool uftu 12345678 uftu",
    ];

    for old in &bufs {
        for new in &bufs {
            assert_roundtrip(old, new);
        }
    }
}

#[test]
fn linear_patch_with_short_reads() {
    let old = b"the quick brown fox jumps over the lazy dog";
    let new = b"the quick red fox jumps over the lazy cat";
    let index = Index::compute(old.to_vec());
    let mut patch = Vec::new();
    generate_full_patch(&index, new, &mut patch);
    let mut out = Vec::new();
    let mut p = Stream::with_chunks(patch, vec![1, 5, 30]);
    let mut o = Stream::with_chunks(old.to_vec(), vec![2, 3]);
    apply_patch(&mut p, &mut o, &mut out).unwrap();
    assert_eq!(&out[..], &new[..]);
}

#[test]
fn linear_command_encoding() {
    let c = Command { old_offset: 0x0102, bytewise_add_size: 3, extra_append_size: u64::MAX };
    let mut b = vec![7u8];
    c.write_to(&mut b);
    assert_eq!(b.len(), 25);
    assert_eq!(&b[1..9], &[2, 1, 0, 0, 0, 0, 0, 0]);
    assert_eq!(&b[17..25], &[0xff; 8]);
    let mut s = Stream::with_chunks(b[1..].to_vec(), vec![4]);
    assert_eq!(Command::read_from(&mut s), Ok(Some(c)));
    assert_eq!(Command::read_from(&mut s), Ok(None));
}

#[test]
fn truncated_linear_command_is_an_error() {
    let c = Command { old_offset: 1, bytewise_add_size: 2, extra_append_size: 3 };
    let mut b = Vec::new();
    c.write_to(&mut b);
    let mut s = Stream::new(b[..10].to_vec());
    assert_eq!(Command::read_from(&mut s), Err(PatchError::TruncatedCommand));
    let mut out = Vec::new();
    assert_eq!(
        apply_patch(&mut Stream::new(b[..10].to_vec()), &mut Stream::new(vec![0; 8]), &mut out),
        Err(PatchError::TruncatedCommand)
    );
}

#[test]
fn linear_patch_reaching_past_old_fails() {
    let c = Command { old_offset: 2, bytewise_add_size: 5, extra_append_size: 0 };
    let mut b = Vec::new();
    c.write_to(&mut b);
    b.extend_from_slice(&[0; 5]);
    let mut out = Vec::new();
    assert_eq!(apply_patch(&mut Stream::new(b), &mut Stream::new(vec![1, 2, 3]), &mut out), Err(PatchError::UnexpectedEnd));
}

#[test]
fn cache_key_is_sha1() {
    let k = cache_key(b"abc");
    assert_eq!(k.len(), 20);
    assert_eq!(
        String::from_utf8(hex_name(&k)).unwrap(),
        "a9993e364706816aba3e25717850c26c9cd0d89d"
    );
}

#[test]
fn hex_name_spells_bytes() {
    assert_eq!(hex_name(&[0x00, 0x0f, 0xa0, 0xff]), b"000fa0ff".to_vec());
    assert_eq!(hex_name(&[]), Vec::<u8>::new());
}

#[test]
fn cache_second_fetch_uses_entry() {
    let old = b"this is a test 12345678 test".to_vec();
    let (first, stored) = fetch_or_build(old.clone(), None);
    let stored = stored.expect("a build hands back an entry to store");
    let (second, again) = fetch_or_build(old.clone(), Some(stored.clone()));
    assert!(again.is_none());
    assert_eq!(first.suffix_array(), second.suffix_array());
    assert_eq!(first.data(), second.data());
    let new = b"this is really a cool test 12345678";
    assert_eq!(first.best_match(new), second.best_match(new));
}

#[test]
fn cache_entry_for_other_data_is_ignored() {
    let (_, stored) = fetch_or_build(b"alpha".to_vec(), None);
    let (idx, again) = fetch_or_build(b"beta".to_vec(), stored);
    assert!(again.is_some());
    assert_eq!(&idx.data()[..], b"beta");
    let (_, again) = fetch_or_build(b"beta".to_vec(), Some(vec![1, 2, 3]));
    assert!(again.is_some());
}

#[test]
fn stored_index_round_trip() {
    let idx = Index::compute(b"banana".to_vec());
    let b = idx.to_bytes();
    assert_eq!(b.len(), 8 + 6 + 48);
    let back = Index::from_bytes(&b).unwrap();
    assert_eq!(back.suffix_array(), idx.suffix_array());
    assert_eq!(&idx.suffix_array()[..], &[5, 3, 1, 0, 4, 2]);
}

#[test]
fn unsorted_cache_entry_is_rejected() {
    let idx = Index::compute(b"banana".to_vec());
    let mut b = idx.to_bytes();
    // swap the first two stored offsets
    let first: Vec<u8> = b[14..22].to_vec();
    let second: Vec<u8> = b[22..30].to_vec();
    b[14..22].copy_from_slice(&second);
    b[22..30].copy_from_slice(&first);
    assert!(Index::from_bytes(&b).is_none());
    let (_, again) = fetch_or_build(b"banana".to_vec(), Some(b));
    assert!(again.is_some());
}

#[test]
fn cache_entry_with_repeated_offsets_is_rejected() {
    let idx = Index::compute(b"aaaa".to_vec());
    let mut b = idx.to_bytes();
    // list offset 3 four times: sorted, in range, but not every offset
    let three: Vec<u8> = b[12..20].to_vec();
    for k in 0..4 {
        let at = 12 + 8 * k;
        b[at..at + 8].copy_from_slice(&three);
    }
    assert!(Index::from_bytes(&b).is_none());
    let (fresh, again) = fetch_or_build(b"aaaa".to_vec(), Some(b));
    assert!(again.is_some());
    assert_eq!(fresh.suffix_array(), idx.suffix_array());
}
