use kpack::codec::{decode_archive, encode_archive, sec_to_bits, bits_to_sec, FORMAT_VERSION};
use kpack::checksum::{checksum_range, wrap_add64};
use kpack::entry::{ArchiveError, Entry, EntryKind};

fn file(path: &str, content: &[u8]) -> Entry {
    Entry {
        path: path.as_bytes().to_vec(),
        kind: EntryKind::File,
        mode: 0o644,
        mtime_sec: 1_600_000_000,
        mtime_nsec: 250,
        content: content.to_vec(),
    }
}

fn dir(path: &str) -> Entry {
    Entry {
        path: path.as_bytes().to_vec(),
        kind: EntryKind::Directory,
        mode: 0o755,
        mtime_sec: 1_600_000_000,
        mtime_nsec: 0,
        content: Vec::new(),
    }
}

fn link(path: &str, target: &str) -> Entry {
    Entry {
        path: path.as_bytes().to_vec(),
        kind: EntryKind::Symlink,
        mode: 0o777,
        mtime_sec: -7,
        mtime_nsec: 3,
        content: target.as_bytes().to_vec(),
    }
}

#[test]
fn round_trip_mixed_tree() {
    let entries = vec![
        dir("sub"),
        file("a.txt", b"hello"),
        file("sub/b.txt", b""),
        link("ln", "a.txt"),
    ];
    let bytes = encode_archive(&entries);
    let back = decode_archive(&bytes).expect("valid archive must decode");
    assert_eq!(back.len(), entries.len());
    for (orig, got) in entries.iter().zip(back.iter()) {
        assert_eq!(orig.path, got.path);
        assert_eq!(orig.kind, got.kind);
        assert_eq!(orig.mode, got.mode);
        assert_eq!(orig.mtime_sec, got.mtime_sec);
        assert_eq!(orig.mtime_nsec, got.mtime_nsec);
        assert_eq!(orig.content, got.content);
    }
}

#[test]
fn round_trip_empty_archive() {
    let entries: Vec<Entry> = Vec::new();
    let bytes = encode_archive(&entries);
    assert_eq!(bytes.len(), 24);
    let back = decode_archive(&bytes).expect("empty archive decodes");
    assert_eq!(back.len(), 0);
}

#[test]
fn header_layout() {
    let bytes = encode_archive(&vec![file("a", b"x")]);
    assert_eq!(&bytes[0..4], b"KPAK");
    assert_eq!(u16::from_le_bytes([bytes[4], bytes[5]]), FORMAT_VERSION);
    assert_eq!(u16::from_le_bytes([bytes[6], bytes[7]]), 0);
    let mut cnt = [0u8; 8];
    cnt.copy_from_slice(&bytes[8..16]);
    assert_eq!(u64::from_le_bytes(cnt), 1);
}

#[test]
fn decoding_is_deterministic() {
    let bytes = encode_archive(&vec![dir("d"), file("d/f", b"abc")]);
    let once = decode_archive(&bytes).unwrap();
    let twice = decode_archive(&bytes).unwrap();
    assert_eq!(once.len(), twice.len());
    for (a, b) in once.iter().zip(twice.iter()) {
        assert_eq!(a.path, b.path);
        assert_eq!(a.content, b.content);
    }
}

#[test]
fn escape_path_rejected() {
    let bytes = encode_archive(&vec![file("../escape", b"boom")]);
    assert_eq!(decode_archive(&bytes), Err(ArchiveError::PathSafetyError));
}

#[test]
fn absolute_path_rejected() {
    let bytes = encode_archive(&vec![file("/abs", b"")]);
    assert_eq!(decode_archive(&bytes), Err(ArchiveError::PathSafetyError));
}

#[test]
fn inner_dotdot_rejected() {
    let bytes = encode_archive(&vec![dir("a"), file("a/../b", b"z")]);
    assert_eq!(decode_archive(&bytes), Err(ArchiveError::PathSafetyError));
}

#[test]
fn every_truncation_rejected() {
    let bytes = encode_archive(&vec![file("a.txt", b"hello"), dir("sub"), file("sub/b", b"xy")]);
    for l in 0..bytes.len() {
        let cut = bytes[0..l].to_vec();
        assert_eq!(
            decode_archive(&cut),
            Err(ArchiveError::FormatError),
            "truncation at {l} must be rejected"
        );
    }
}

#[test]
fn flipped_content_byte_detected() {
    let bytes = encode_archive(&vec![file("a.txt", b"hello")]);
    // Content bytes of the first entry start after the 16-byte header and
    // the 27 fixed record bytes plus the 5 path bytes.
    let content_at = 16 + 27 + 5;
    assert_eq!(&bytes[content_at..content_at + 5], b"hello");
    for k in 0..5 {
        let mut bad = bytes.clone();
        bad[content_at + k] ^= 0x20;
        assert_eq!(decode_archive(&bad), Err(ArchiveError::IntegrityError));
    }
}

#[test]
fn flipped_trailer_byte_detected() {
    let bytes = encode_archive(&vec![file("a.txt", b"hello")]);
    let mut bad = bytes.clone();
    let last = bad.len() - 1;
    bad[last] ^= 1;
    assert_eq!(decode_archive(&bad), Err(ArchiveError::IntegrityError));
}

#[test]
fn unknown_version_rejected() {
    let mut bytes = encode_archive(&vec![file("a", b"x")]);
    bytes[4] = 2;
    assert_eq!(decode_archive(&bytes), Err(ArchiveError::VersionError));
}

#[test]
fn unknown_flags_tolerated() {
    let mut bytes = encode_archive(&vec![file("a", b"x")]);
    bytes[6] = 0xFF;
    bytes[7] = 0x80;
    let back = decode_archive(&bytes).expect("flag bits of the same version are tolerated");
    assert_eq!(back.len(), 1);
    assert_eq!(back[0].content, b"x".to_vec());
}

#[test]
fn bad_magic_rejected() {
    let mut bytes = encode_archive(&vec![file("a", b"x")]);
    bytes[0] = b'Z';
    assert_eq!(decode_archive(&bytes), Err(ArchiveError::FormatError));
}

#[test]
fn garbage_and_empty_rejected() {
    assert_eq!(decode_archive(&Vec::new()), Err(ArchiveError::FormatError));
    assert_eq!(decode_archive(&vec![0u8; 10]), Err(ArchiveError::FormatError));
    assert_eq!(decode_archive(&vec![0xAAu8; 64]), Err(ArchiveError::FormatError));
}

#[test]
fn trailing_garbage_rejected() {
    let mut bytes = encode_archive(&vec![file("a", b"x")]);
    bytes.push(0);
    assert_eq!(decode_archive(&bytes), Err(ArchiveError::FormatError));
}

#[test]
fn directory_with_content_rejected() {
    // Hand-build a record claiming a directory with one content byte.
    let entries = vec![file("d", b"q")];
    let mut bytes = encode_archive(&entries);
    // kind byte of the first record sits right after the header
    bytes[16] = 2;
    assert_eq!(decode_archive(&bytes), Err(ArchiveError::FormatError));
}

#[test]
fn checksum_is_wrapping_byte_sum() {
    let v: Vec<u8> = vec![1, 2, 3, 250];
    assert_eq!(checksum_range(&v, 0, 4), 256);
    assert_eq!(checksum_range(&v, 1, 3), 5);
    assert_eq!(checksum_range(&v, 2, 2), 0);
    assert_eq!(wrap_add64(u64::MAX, 1), 0);
    assert_eq!(wrap_add64(u64::MAX, 250), 249);
    assert_eq!(wrap_add64(7, 8), 15);
}

#[test]
fn second_count_bits_round_trip() {
    for s in [0i64, 1, -1, 1_600_000_000, -1_600_000_000, i64::MAX, i64::MIN] {
        assert_eq!(bits_to_sec(sec_to_bits(s)), s);
    }
    assert_eq!(sec_to_bits(0), 0);
    assert_eq!(sec_to_bits(-1), u64::MAX);
}

#[test]
fn unknown_kind_byte_rejected() {
    let mut bytes = encode_archive(&vec![file("a", b"x")]);
    bytes[16] = 9;
    assert_eq!(decode_archive(&bytes), Err(ArchiveError::FormatError));
}

#[test]
fn empty_path_rejected() {
    let bytes = encode_archive(&vec![file("", b"x")]);
    assert_eq!(decode_archive(&bytes), Err(ArchiveError::PathSafetyError));
}

#[test]
fn absolute_symlink_target_rejected() {
    let bytes = encode_archive(&vec![link("ln", "/tmp/x"), file("ln/evil", b"!")]);
    assert_eq!(decode_archive(&bytes), Err(ArchiveError::PathSafetyError));
    let alone = encode_archive(&vec![link("ln", "/tmp/x")]);
    assert_eq!(decode_archive(&alone), Err(ArchiveError::PathSafetyError));
}

#[test]
fn escaping_symlink_target_rejected() {
    for target in ["..", "../outside", "a/../b", "x\\y", ""] {
        let bytes = encode_archive(&vec![link("ln", target)]);
        assert_eq!(
            decode_archive(&bytes),
            Err(ArchiveError::PathSafetyError),
            "target {target:?} must be rejected"
        );
    }
}

#[test]
fn contained_symlink_target_accepted() {
    let bytes = encode_archive(&vec![dir("sub"), file("sub/b.txt", b"x"), link("sub/ln", "b.txt")]);
    let back = decode_archive(&bytes).expect("in-tree targets are fine");
    assert_eq!(back.len(), 3);
    assert_eq!(back[2].content, b"b.txt".to_vec());
}
