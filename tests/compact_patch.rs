use bsdiff::diff::{self, DiffStat, Index};
use bsdiff::patch::{self, read_paired_bufs, read_size_from, Patcher};
use bsdiff::compact::{decode_commands, encode_commands, Command, Header};
use bsdiff::stream::{PatchError, Stream};

#[test]
fn test_identity_patch() {
    let buf = b"this is a test";
    let patch = diff::generate_identity_patch(buf.len() as u64);

    let mut new = Vec::new();
    let old = Stream::new(buf.to_vec());

    patch::apply(&patch, old, &mut new).unwrap();

    assert_eq!(&buf[..], &new[..]);
}

#[test]
fn test_idempotent_patch() {
    let buf = b"this is a test";
    let patch = diff::generate_idempotent_patch(buf);

    let examples = ["", "this is a test", "1234", "\0"];

    for example in examples.iter() {
        let mut new = Vec::new();
        let old = Stream::new(example.as_bytes().to_vec());

        patch::apply(&patch, old, &mut new).unwrap();

        assert_eq!(&buf[..], &new[..]);
    }
}

#[test]
fn test_simple_patch() {
    let buf = b"this is a test";
    let buf2 = b"this is really a cool test";
    let index = Index::compute(buf.to_vec());
    let patch = diff::generate_simple_patch(&index, &buf2[..]);

    let mut new = Vec::new();
    let old = Stream::new(buf.to_vec());

    patch::apply(&patch, old, &mut new).unwrap();

    assert_eq!(&buf2[..], &new[..]);
}

fn compact_round_trip(old: &[u8], new: &[u8]) {
    let index = Index::compute(old.to_vec());
    let patch = diff::generate_simple_patch(&index, new);
    let mut out = Vec::new();
    patch::apply(&patch, Stream::new(old.to_vec()), &mut out).unwrap();
    assert_eq!(new, &out[..]);
}

#[test]
fn compact_round_trip_pairs() {
    let bufs: Vec<&[u8]> = vec![
        b"",
        b"this is a test",
        b"this is really a cool test",
        b"this is a test 12345678 test",
        b"this is really a cool uftu 12345678 uftu",
    ];
    for old in &bufs {
        for new in &bufs {
            compact_round_trip(old, new);
        }
    }
}

#[test]
fn empty_new_gives_empty_output() {
    compact_round_trip(b"some old data", b"");
}

#[test]
fn empty_old_gives_only_literals() {
    let index = Index::compute(Vec::new());
    let (cs, delta, extra) = diff::generate_segments(&index, b"fresh bytes");
    assert!(cs.iter().all(|c| c.bytewise_add_size == 0));
    assert!(delta.is_empty());
    assert_eq!(&extra[..], b"fresh bytes");
}

#[test]
fn long_match_is_used() {
    let old = b"0123456789abcdefghij";
    let new = b"xx0123456789abcdefghijyy";
    let index = Index::compute(old.to_vec());
    let m = index.best_match(&new[2..]);
    assert_eq!(m.old_offset, 0);
    assert_eq!(m.length, 20);
    let stat = DiffStat::from(&index, new);
    assert_eq!(stat.total_matched_bytes, 20);
    assert_eq!(stat.total_literal_bytes, 4);
    compact_round_trip(old, new);
}

#[test]
fn paired_merger_with_short_reads() {
    let a: Vec<u8> = (0..3000u32).map(|k| (k % 251) as u8).collect();
    let b: Vec<u8> = (0..3000u32).map(|k| (k * 7 % 256) as u8).collect();
    let mut r0 = Stream::with_chunks(a.clone(), vec![1, 7, 1000, 3]);
    let mut r1 = Stream::with_chunks(b.clone(), vec![513, 2, 0]);
    let mut out = Vec::new();
    read_paired_bufs(2500, &mut r0, &mut r1, &mut out).unwrap();
    assert_eq!(out.len(), 2500);
    for k in 0..2500 {
        assert_eq!(out[k], a[k].wrapping_add(b[k]));
    }
    assert_eq!(r0.position(), 2500);
    assert_eq!(r1.position(), 2500);
}

#[test]
fn paired_merger_short_stream_fails() {
    let mut r0 = Stream::new(vec![1, 2, 3]);
    let mut r1 = Stream::new(vec![1, 2, 3, 4, 5]);
    let mut out = Vec::new();
    assert_eq!(read_paired_bufs(4, &mut r0, &mut r1, &mut out), Err(PatchError::UnexpectedEnd));
}

#[test]
fn read_size_with_short_reads() {
    let data: Vec<u8> = (0..2000u32).map(|k| (k % 256) as u8).collect();
    let mut r = Stream::with_chunks(data.clone(), vec![5, 1100]);
    let mut out = vec![9u8];
    read_size_from(1500, &mut r, &mut out).unwrap();
    assert_eq!(out[0], 9);
    assert_eq!(&out[1..], &data[..1500]);
    assert_eq!(read_size_from(600, &mut r, &mut out), Err(PatchError::UnexpectedEnd));
}

#[test]
fn patcher_applies_one_command() {
    let mut p = Patcher {
        delta: Stream::new(vec![1, 1, 1]),
        extra: Stream::new(b"XY".to_vec()),
        old: Stream::new(b"abcdef".to_vec()),
        new: Vec::new(),
    };
    let c = Command { bytewise_add_size: 3, extra_append_size: 2, oldfile_seek_offset: -3 };
    p.apply(&c).unwrap();
    assert_eq!(&p.new[..], b"bcdXY");
    assert_eq!(p.old.position(), 0);
    assert_eq!(p.check_written_size(5), Ok(()));
    assert_eq!(p.check_written_size(4), Err(PatchError::WrongSize));
    assert_eq!(p.seek_old(-1), Err(PatchError::BadSeek));
}

#[test]
fn commands_round_trip_and_truncation() {
    let cs = vec![
        Command { bytewise_add_size: 1, extra_append_size: 2, oldfile_seek_offset: -3 },
        Command { bytewise_add_size: u64::MAX, extra_append_size: 0, oldfile_seek_offset: i64::MIN },
    ];
    let b = encode_commands(&cs);
    assert_eq!(b.len(), 48);
    assert_eq!(&b[0..8], &[1, 0, 0, 0, 0, 0, 0, 0]);
    assert_eq!(&b[16..24], &[0xfd, 0xff, 0xff, 0xff, 0xff, 0xff, 0xff, 0xff]);
    assert_eq!(decode_commands(&b).unwrap(), cs);
    assert_eq!(decode_commands(&b[..30]), Err(PatchError::TruncatedCommand));
}

#[test]
fn header_round_trip_and_rejection() {
    let h = Header { compressed_commands_size: 10, compressed_delta_size: 20, new_file_size: 30 };
    let b = h.to_bytes();
    assert_eq!(b.len(), 32);
    assert_eq!(Header::read(&b), Ok(h));
    assert_eq!(Header::read(&b[..31]), Err(PatchError::BadHeader));
    let mut bad = b.clone();
    bad[0] ^= 1;
    assert_eq!(Header::read(&bad), Err(PatchError::BadHeader));
}

#[test]
fn corrupt_patches_are_rejected() {
    let index = Index::compute(b"this is a test".to_vec());
    let patch = diff::generate_simple_patch(&index, b"this is really a cool test");
    let mut out = Vec::new();
    assert_eq!(patch::apply(&patch[..20], Stream::new(b"this is a test".to_vec()), &mut out), Err(PatchError::BadHeader));
    let mut bad = patch.clone();
    let last = bad.len() - 5;
    bad[last] ^= 0xff;
    let mut out = Vec::new();
    assert!(patch::apply(&bad, Stream::new(b"this is a test".to_vec()), &mut out).is_err());
    let mut huge = patch.clone();
    huge[8] = 0xff;
    huge[15] = 0x7f;
    let mut out = Vec::new();
    assert_eq!(patch::apply(&huge, Stream::new(b"this is a test".to_vec()), &mut out), Err(PatchError::BadHeader));
}

#[test]
fn identity_patch_on_wrong_length_fails() {
    let patch = diff::generate_identity_patch(10);
    let mut out = Vec::new();
    assert!(patch::apply(&patch, Stream::new(b"short".to_vec()), &mut out).is_err());
}

#[test]
fn segments_are_bzip2_streams() {
    let index = Index::compute(b"this is a test".to_vec());
    let patch = diff::generate_simple_patch(&index, b"this is really a cool test");
    let h = Header::read(&patch).unwrap();
    assert_eq!(h.new_file_size, 26);
    let c = h.compressed_commands_size as usize;
    let d = h.compressed_delta_size as usize;
    assert_eq!(&patch[32..35], b"BZh");
    assert_eq!(&patch[32 + c..35 + c], b"BZh");
    assert_eq!(&patch[32 + c + d..35 + c + d], b"BZh");
}

#[test]
fn scan_keeps_short_matches_as_literals() {
    let index = Index::compute(b"abcdefg".to_vec());
    let ps = diff::scan(&index, b"xabcdefgx");
    assert_eq!(ps.len(), 1);
    assert_eq!(ps[0].matched.length, 0);
    assert_eq!(ps[0].unmatched_suffix, 9);
}

#[test]
fn ties_go_to_the_lowest_offset() {
    let index = Index::compute(b"abab".to_vec());
    let m = index.best_match(b"ab");
    assert_eq!(m.old_offset, 0);
    assert_eq!(m.length, 2);
    let m = index.best_match(b"zz");
    assert_eq!(m.old_offset, 0);
    assert_eq!(m.length, 0);
}
