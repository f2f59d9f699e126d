//! The container format codec. An archive is one byte stream:
//!
//! ```text
//! Header:  magic(4) | version(u16) | flags(u16) | entry_count(u64)
//! Entry:   kind(u8) | path_len(u16) | path | mode(u32) | mtime_sec(i64)
//!          | mtime_nsec(u32) | size(u64) | content(size bytes)
//! Trailer: checksum(u64)
//! ```
//!
//! All multi-byte fields are little-endian. `mtime_sec` is stored as the
//! two's-complement 64-bit image of the signed second count. A file's
//! content and a symlink's target travel in the `content` bytes (`size` of
//! them); a directory stores none and must declare `size == 0`. The
//! trailer checksum covers every byte between the header and the trailer.
//!
//! The decoder validates in this order: header shape and magic
//! (`FormatError`), format version (`VersionError`), entry structure and
//! exact stream length (`FormatError`), per-entry path safety — the
//! relative path of every entry and the target of every symlink
//! (`PathSafetyError`) — and finally the trailer checksum
//! (`IntegrityError`). It restores nothing from a stream that fails any of
//! these checks, so a truncated archive yields zero entries rather than a
//! partially written file.

use vstd::prelude::*;
use vstd::bytes::spec_u16_to_le_bytes;
use vstd::bytes::spec_u16_from_le_bytes;
use vstd::bytes::spec_u32_to_le_bytes;
use vstd::bytes::spec_u32_from_le_bytes;
use vstd::bytes::spec_u64_to_le_bytes;
use vstd::bytes::spec_u64_from_le_bytes;
use vstd::bytes::lemma_auto_spec_u16_to_from_le_bytes;
use vstd::bytes::lemma_auto_spec_u32_to_from_le_bytes;
use vstd::bytes::lemma_auto_spec_u64_to_from_le_bytes;
use vstd::bytes::u16_to_le_bytes;
use vstd::bytes::u32_to_le_bytes;
use vstd::bytes::u64_to_le_bytes;
use vstd::bytes::u16_from_le_bytes;
use vstd::bytes::u32_from_le_bytes;
use vstd::bytes::u64_from_le_bytes;
use vstd::slice::slice_subrange;
use crate::entry::Entry;
use crate::entry::EntryKind;
use crate::entry::EntryModel;
use crate::entry::ArchiveError;
use crate::entry::entry_wf;
use crate::entry::views;
use crate::checksum::stream_sum;
use crate::checksum::checksum_range;
use crate::safety::safe_path;

verus! {

/// First magic byte, `K`.
pub const MAGIC0: u8 = 75;

/// Second magic byte, `P`.
pub const MAGIC1: u8 = 80;

/// Third magic byte, `A`.
pub const MAGIC2: u8 = 65;

/// Fourth magic byte, `K`.
pub const MAGIC3: u8 = 75;

/// The format version this codec writes and accepts.
pub const FORMAT_VERSION: u16 = 1;

/// The four magic bytes that open every archive.
pub open spec fn spec_magic() -> Seq<u8> {
    seq![MAGIC0, MAGIC1, MAGIC2, MAGIC3]
}

/// The two's-complement 64-bit image of a signed second count.
pub open spec fn bits_of_sec(s: i64) -> u64 {
    if s >= 0 {
        s as u64
    } else {
        (s + 0x1_0000_0000_0000_0000) as u64
    }
}

/// The signed second count read back from its 64-bit image.
pub open spec fn sec_of_bits(u: u64) -> i64 {
    if u < 0x8000_0000_0000_0000 {
        u as i64
    } else {
        (u - 0x1_0000_0000_0000_0000) as i64
    }
}

/// Storing a second count and reading it back returns the same count.
pub proof fn lemma_sec_bits_roundtrip(s: i64)
    ensures
        sec_of_bits(bits_of_sec(s)) == s,
{
}

/// Computes `bits_of_sec`.
pub fn sec_to_bits(s: i64) -> (r: u64)
    ensures
        r == bits_of_sec(s),
{
    if s >= 0 {
        s as u64
    } else {
        let m: u64 = (-(s + 1)) as u64;
        u64::MAX - m
    }
}

/// Computes `sec_of_bits`.
pub fn bits_to_sec(u: u64) -> (r: i64)
    ensures
        r == sec_of_bits(u),
{
    if u < 0x8000_0000_0000_0000 {
        u as i64
    } else {
        let m: u64 = u64::MAX - u;
        -(m as i64) - 1
    }
}

/// The byte written for an entry kind.
pub open spec fn kind_byte(k: EntryKind) -> u8 {
    match k {
        EntryKind::File => 1,
        EntryKind::Directory => 2,
        EntryKind::Symlink => 3,
    }
}

/// The entry kind read from a byte, if the byte names one.
pub open spec fn kind_of_byte(b: u8) -> Option<EntryKind> {
    if b == 1 {
        Some(EntryKind::File)
    } else if b == 2 {
        Some(EntryKind::Directory)
    } else if b == 3 {
        Some(EntryKind::Symlink)
    } else {
        None
    }
}

/// The encoded record of one entry.
pub open spec fn spec_encode_entry(e: EntryModel) -> Seq<u8> {
    seq![kind_byte(e.kind)] + spec_u16_to_le_bytes(e.path.len() as u16) + e.path
        + spec_u32_to_le_bytes(e.mode) + spec_u64_to_le_bytes(bits_of_sec(e.mtime_sec))
        + spec_u32_to_le_bytes(e.mtime_nsec) + spec_u64_to_le_bytes(e.content.len() as u64)
        + e.content
}

/// The encoded records of a sequence of entries, in order.
pub open spec fn spec_payload(es: Seq<EntryModel>) -> Seq<u8>
    decreases es.len(),
{
    if es.len() == 0 {
        Seq::empty()
    } else {
        spec_payload(es.drop_last()) + spec_encode_entry(es.last())
    }
}

/// The archive header announcing `n` entries.
pub open spec fn spec_header(n: nat) -> Seq<u8> {
    spec_magic() + spec_u16_to_le_bytes(FORMAT_VERSION) + spec_u16_to_le_bytes(0)
        + spec_u64_to_le_bytes(n as u64)
}

/// The full encoded archive holding `es`.
pub open spec fn spec_encode(es: Seq<EntryModel>) -> Seq<u8> {
    spec_header(es.len()) + spec_payload(es) + spec_u64_to_le_bytes(
        stream_sum(spec_payload(es)),
    )
}

/// Appends a copy of `src` to `out`.
fn append_bytes(out: &mut Vec<u8>, src: &Vec<u8>)
    ensures
        final(out)@ == old(out)@ + src@,
{
    let mut k: usize = 0;
    while k < src.len()
        invariant
            0 <= k <= src@.len(),
            out@ == old(out)@ + src@.subrange(0, k as int),
        decreases src@.len() - k,
    {
        out.push(src[k]);
        proof {
            assert(old(out)@ + src@.subrange(0, k as int) + seq![src@[k as int]] =~= old(out)@
                + src@.subrange(0, k + 1));
        }
        k = k + 1;
    }
    proof {
        assert(src@.subrange(0, src@.len() as int) =~= src@);
    }
}

/// Appends the little-endian bytes of `x` to `out`.
fn push_u16_le(out: &mut Vec<u8>, x: u16)
    ensures
        final(out)@ == old(out)@ + spec_u16_to_le_bytes(x),
{
    let mut t = u16_to_le_bytes(x);
    out.append(&mut t);
}

/// Appends the little-endian bytes of `x` to `out`.
fn push_u32_le(out: &mut Vec<u8>, x: u32)
    ensures
        final(out)@ == old(out)@ + spec_u32_to_le_bytes(x),
{
    let mut t = u32_to_le_bytes(x);
    out.append(&mut t);
}

/// Appends the little-endian bytes of `x` to `out`.
fn push_u64_le(out: &mut Vec<u8>, x: u64)
    ensures
        final(out)@ == old(out)@ + spec_u64_to_le_bytes(x),
{
    let mut t = u64_to_le_bytes(x);
    out.append(&mut t);
}

/// Appends the encoded record of `e` to `out`.
fn encode_entry_into(out: &mut Vec<u8>, e: &Entry)
    requires
        entry_wf(e@),
    ensures
        final(out)@ == old(out)@ + spec_encode_entry(e@),
{
    let kb: u8 = match e.kind {
        EntryKind::File => 1,
        EntryKind::Directory => 2,
        EntryKind::Symlink => 3,
    };
    assert(kb == kind_byte(e@.kind));
    out.push(kb);
    push_u16_le(out, e.path.len() as u16);
    append_bytes(out, &e.path);
    push_u32_le(out, e.mode);
    push_u64_le(out, sec_to_bits(e.mtime_sec));
    push_u32_le(out, e.mtime_nsec);
    push_u64_le(out, e.content.len() as u64);
    append_bytes(out, &e.content);
    proof {
        assert(out@ =~= old(out)@ + spec_encode_entry(e@));
    }
}

/// Encodes a well-formed entry list into one archive stream, returning
/// exactly the bytes `spec_encode` describes: header, entry records in
/// order, and the trailing checksum.
pub fn encode_archive(entries: &Vec<Entry>) -> (out: Vec<u8>)
    requires
        forall|i: int| 0 <= i < entries@.len() ==> entry_wf(#[trigger] entries@[i]@),
    ensures
        out@ == spec_encode(views(entries@)),
{
    proof {
        lemma_auto_spec_u16_to_from_le_bytes();
        lemma_auto_spec_u64_to_from_le_bytes();
    }
    let ghost vs = views(entries@);
    let mut out: Vec<u8> = Vec::new();
    out.push(MAGIC0);
    out.push(MAGIC1);
    out.push(MAGIC2);
    out.push(MAGIC3);
    push_u16_le(&mut out, FORMAT_VERSION);
    push_u16_le(&mut out, 0);
    push_u64_le(&mut out, entries.len() as u64);
    proof {
        assert(vs.len() == entries@.len());
        assert(out@ =~= spec_header(vs.len()));
        assert(out@.len() == 16);
        assert(spec_payload(vs.take(0)) =~= Seq::<u8>::empty());
        assert(out@ =~= spec_header(vs.len()) + spec_payload(vs.take(0)));
    }
    let n = entries.len();
    let mut i: usize = 0;
    while i < n
        invariant
            n == entries@.len(),
            vs == views(entries@),
            forall|k: int| 0 <= k < entries@.len() ==> entry_wf(#[trigger] entries@[k]@),
            0 <= i <= n,
            out@ == spec_header(vs.len()) + spec_payload(vs.take(i as int)),
        decreases n - i,
    {
        encode_entry_into(&mut out, &entries[i]);
        proof {
            let q = vs.take(i + 1);
            assert(q.drop_last() =~= vs.take(i as int));
            assert(q.last() == vs[i as int]);
            assert(vs[i as int] == entries@[i as int]@);
            assert(spec_payload(q) == spec_payload(q.drop_last()) + spec_encode_entry(q.last()));
            assert(out@ =~= spec_header(vs.len()) + spec_payload(vs.take(i + 1)));
        }
        i = i + 1;
    }
    proof {
        assert(vs.take(vs.len() as int) =~= vs);
    }
    let total = out.len();
    proof {
        assert(out@.subrange(16, total as int) =~= spec_payload(vs));
    }
    let cs = checksum_range(&out, 16, total);
    push_u64_le(&mut out, cs);
    proof {
        assert(out@ =~= spec_encode(vs));
    }
    out
}

/// Reads the 16-bit little-endian field at `pos`.
fn read_u16_at(b: &Vec<u8>, pos: usize) -> (r: u16)
    requires
        pos + 2 <= b@.len(),
    ensures
        r == spec_u16_from_le_bytes(b@.subrange(pos as int, pos + 2)),
{
    let n = b.len();
    assert(pos + 2 <= n);
    u16_from_le_bytes(slice_subrange(b.as_slice(), pos, pos + 2))
}

/// Reads the 32-bit little-endian field at `pos`.
fn read_u32_at(b: &Vec<u8>, pos: usize) -> (r: u32)
    requires
        pos + 4 <= b@.len(),
    ensures
        r == spec_u32_from_le_bytes(b@.subrange(pos as int, pos + 4)),
{
    let n = b.len();
    assert(pos + 4 <= n);
    u32_from_le_bytes(slice_subrange(b.as_slice(), pos, pos + 4))
}

/// Reads the 64-bit little-endian field at `pos`.
fn read_u64_at(b: &Vec<u8>, pos: usize) -> (r: u64)
    requires
        pos + 8 <= b@.len(),
    ensures
        r == spec_u64_from_le_bytes(b@.subrange(pos as int, pos + 8)),
{
    let n = b.len();
    assert(pos + 8 <= n);
    u64_from_le_bytes(slice_subrange(b.as_slice(), pos, pos + 8))
}

/// Copies the byte range `[from, to)` of `b` into a fresh vector.
pub fn copy_range(b: &Vec<u8>, from: usize, to: usize) -> (r: Vec<u8>)
    requires
        from <= to <= b@.len(),
    ensures
        r@ == b@.subrange(from as int, to as int),
{
    let mut r: Vec<u8> = Vec::new();
    let mut k: usize = from;
    while k < to
        invariant
            from <= k <= to <= b@.len(),
            r@ == b@.subrange(from as int, k as int),
        decreases to - k,
    {
        r.push(b[k]);
        proof {
            assert(b@.subrange(from as int, k as int) + seq![b@[k as int]] =~= b@.subrange(
                from as int,
                k + 1,
            ));
        }
        k = k + 1;
    }
    r
}

/// Parses one entry record starting at `pos`, returning its model and the
/// position just past it, or nothing if the record is malformed or runs
/// off the end of the stream.
pub open spec fn parse_entry(b: Seq<u8>, pos: int) -> Option<(EntryModel, int)> {
    if pos < 0 || pos + 27 > b.len() {
        None
    } else {
        match kind_of_byte(b[pos]) {
            None => None,
            Some(kind) => {
                let pl = spec_u16_from_le_bytes(b.subrange(pos + 1, pos + 3)) as int;
                if pos + 27 + pl > b.len() {
                    None
                } else {
                    let size = spec_u64_from_le_bytes(
                        b.subrange(pos + 19 + pl, pos + 27 + pl),
                    ) as int;
                    if kind is Directory && size != 0 {
                        None
                    } else if pos + 27 + pl + size > b.len() {
                        None
                    } else {
                        Some(
                            (
                                EntryModel {
                                    path: b.subrange(pos + 3, pos + 3 + pl),
                                    kind,
                                    mode: spec_u32_from_le_bytes(
                                        b.subrange(pos + 3 + pl, pos + 7 + pl),
                                    ),
                                    mtime_sec: sec_of_bits(
                                        spec_u64_from_le_bytes(
                                            b.subrange(pos + 7 + pl, pos + 15 + pl),
                                        ),
                                    ),
                                    mtime_nsec: spec_u32_from_le_bytes(
                                        b.subrange(pos + 15 + pl, pos + 19 + pl),
                                    ),
                                    content: b.subrange(pos + 27 + pl, pos + 27 + pl + size),
                                },
                                pos + 27 + pl + size,
                            ),
                        )
                    }
                }
            },
        }
    }
}

/// Parses `n` consecutive entry records starting at `pos`.
pub open spec fn parse_entries(b: Seq<u8>, pos: int, n: nat) -> Option<(Seq<EntryModel>, int)>
    decreases n,
{
    if n == 0 {
        Some((Seq::empty(), pos))
    } else {
        match parse_entry(b, pos) {
            None => None,
            Some((e, p2)) => match parse_entries(b, p2, (n - 1) as nat) {
                None => None,
                Some((rest, end)) => Some((seq![e] + rest, end)),
            },
        }
    }
}

/// Every entry of `es` has a safe relative path.
pub open spec fn all_paths_safe(es: Seq<EntryModel>) -> bool {
    forall|i: int| 0 <= i < es.len() ==> safe_path(#[trigger] es[i].path)
}

/// Every symlink entry of `es` has a safe target: relative, and free of
/// parent-directory segments, so following it can never leave the
/// destination tree.
pub open spec fn all_targets_safe(es: Seq<EntryModel>) -> bool {
    forall|i: int|
        0 <= i < es.len() ==> (#[trigger] es[i].kind is Symlink ==> safe_path(es[i].content))
}

/// The outcome of decoding a byte stream: the entries it holds, or the
/// first error in validation order (header shape, version, structure and
/// exact length, path safety, checksum).
pub open spec fn spec_decode(b: Seq<u8>) -> Result<Seq<EntryModel>, ArchiveError> {
    if b.len() < 16 {
        Err(ArchiveError::FormatError)
    } else if b.subrange(0, 4) != spec_magic() {
        Err(ArchiveError::FormatError)
    } else if spec_u16_from_le_bytes(b.subrange(4, 6)) != FORMAT_VERSION {
        Err(ArchiveError::VersionError)
    } else {
        match parse_entries(b, 16, spec_u64_from_le_bytes(b.subrange(8, 16)) as nat) {
            None => Err(ArchiveError::FormatError),
            Some((es, end)) => {
                if end + 8 != b.len() {
                    Err(ArchiveError::FormatError)
                } else if !all_paths_safe(es) {
                    Err(ArchiveError::PathSafetyError)
                } else if !all_targets_safe(es) {
                    Err(ArchiveError::PathSafetyError)
                } else if spec_u64_from_le_bytes(b.subrange(end, end + 8)) != stream_sum(
                    b.subrange(16, end),
                ) {
                    Err(ArchiveError::IntegrityError)
                } else {
                    Ok(es)
                }
            },
        }
    }
}

/// A successful structural parse consumes at least 27 bytes per entry and
/// never runs past the end of the stream.
pub proof fn lemma_parse_entries_bounds(b: Seq<u8>, pos: int, n: nat)
    requires
        0 <= pos <= b.len(),
    ensures
        match parse_entries(b, pos, n) {
            Some((es, end)) => pos + 27 * n <= end <= b.len() && es.len() == n,
            None => true,
        },
    decreases n,
{
    if n > 0 {
        match parse_entry(b, pos) {
            None => {},
            Some((e, p2)) => {
                lemma_parse_entries_bounds(b, p2, (n - 1) as nat);
            },
        }
    }
}

/// Parses one entry record at `pos` of a concrete stream.
fn parse_one(b: &Vec<u8>, pos: usize) -> (r: Option<(Entry, usize)>)
    requires
        pos <= b@.len(),
    ensures
        match r {
            Some(ep) => parse_entry(b@, pos as int) == Some((ep.0@, ep.1 as int)) && pos < ep.1
                <= b@.len(),
            None => parse_entry(b@, pos as int) is None,
        },
{
    let n = b.len();
    if n < 27 || pos > n - 27 {
        return None;
    }
    let kb = b[pos];
    let kind = if kb == 1 {
        EntryKind::File
    } else if kb == 2 {
        EntryKind::Directory
    } else if kb == 3 {
        EntryKind::Symlink
    } else {
        return None;
    };
    assert(kind_of_byte(b@[pos as int]) == Some(kind));
    let pl = read_u16_at(b, pos + 1) as usize;
    if pl > n - 27 - pos {
        return None;
    }
    let path = copy_range(b, pos + 3, pos + 3 + pl);
    let mode = read_u32_at(b, pos + 3 + pl);
    let secbits = read_u64_at(b, pos + 7 + pl);
    let nsec = read_u32_at(b, pos + 15 + pl);
    let size64 = read_u64_at(b, pos + 19 + pl);
    let cstart = pos + 27 + pl;
    if matches!(kind, EntryKind::Directory) && size64 != 0 {
        return None;
    }
    let avail = n - cstart;
    if size64 > avail as u64 {
        return None;
    }
    let size = size64 as usize;
    let content = copy_range(b, cstart, cstart + size);
    let e = Entry { path, kind, mode, mtime_sec: bits_to_sec(secbits), mtime_nsec: nsec, content };
    Some((e, cstart + size))
}

/// Decodes an archive stream, returning its entries exactly when
/// `spec_decode` accepts the bytes, and the same error `spec_decode`
/// names otherwise. Nothing is restored from a rejected stream.
pub fn decode_archive(b: &Vec<u8>) -> (r: Result<Vec<Entry>, ArchiveError>)
    ensures
        match r {
            Ok(es) => spec_decode(b@) == Ok::<Seq<EntryModel>, ArchiveError>(views(es@)),
            Err(e) => spec_decode(b@) == Err::<Seq<EntryModel>, ArchiveError>(e),
        },
{
    let n = b.len();
    if n < 16 {
        return Err(ArchiveError::FormatError);
    }
    if b[0] != MAGIC0 || b[1] != MAGIC1 || b[2] != MAGIC2 || b[3] != MAGIC3 {
        proof {
            assert(b@.subrange(0, 4)[0] == b@[0]);
            assert(b@.subrange(0, 4)[1] == b@[1]);
            assert(b@.subrange(0, 4)[2] == b@[2]);
            assert(b@.subrange(0, 4)[3] == b@[3]);
            assert(b@.subrange(0, 4) != spec_magic());
        }
        return Err(ArchiveError::FormatError);
    }
    proof {
        assert(b@.subrange(0, 4) =~= spec_magic());
    }
    let ver = read_u16_at(b, 4);
    if ver != FORMAT_VERSION {
        return Err(ArchiveError::VersionError);
    }
    let cnt64 = read_u64_at(b, 8);
    let ghost spec_n = spec_u64_from_le_bytes(b@.subrange(8, 16)) as nat;
    let budget = ((n - 16) / 27) as u64;
    if cnt64 > budget {
        proof {
            lemma_parse_entries_bounds(b@, 16, spec_n);
            vstd::arithmetic::div_mod::lemma_fundamental_div_mod((n - 16) as int, 27);
            if parse_entries(b@, 16, spec_n) is Some {
                assert(27 * spec_n >= 27 * (budget + 1));
                assert(false);
            }
        }
        return Err(ArchiveError::FormatError);
    }
    let cnt = cnt64 as usize;
    let mut acc: Vec<Entry> = Vec::new();
    let mut pos: usize = 16;
    let mut i: usize = 0;
    proof {
        assert(views(acc@) =~= Seq::<EntryModel>::empty());
    }
    while i < cnt
        invariant
            n == b@.len(),
            16 <= pos <= n,
            0 <= i <= cnt,
            cnt == spec_n,
            spec_n == spec_u64_from_le_bytes(b@.subrange(8, 16)) as nat,
            b@.subrange(0, 4) == spec_magic(),
            spec_u16_from_le_bytes(b@.subrange(4, 6)) == FORMAT_VERSION,
            views(acc@).len() == i,
            acc@.len() == i,
            parse_entries(b@, 16, spec_n) == (match parse_entries(
                b@,
                pos as int,
                (cnt - i) as nat,
            ) {
                None => None::<(Seq<EntryModel>, int)>,
                Some((rest, end)) => Some((views(acc@) + rest, end)),
            }),
        decreases cnt - i,
    {
        match parse_one(b, pos) {
            None => {
                proof {
                    assert(parse_entries(b@, pos as int, (cnt - i) as nat) is None);
                }
                return Err(ArchiveError::FormatError);
            },
            Some((e, p2)) => {
                proof {
                    let rem = parse_entries(b@, p2 as int, (cnt - i - 1) as nat);
                    assert(parse_entries(b@, pos as int, (cnt - i) as nat) == (match rem {
                        None => None::<(Seq<EntryModel>, int)>,
                        Some((rest, end)) => Some((seq![e@] + rest, end)),
                    }));
                    assert(views(acc@.push(e)) =~= views(acc@) + seq![e@]);
                    if rem is Some {
                        let (rest, end) = rem.unwrap();
                        assert(views(acc@) + (seq![e@] + rest) =~= (views(acc@) + seq![e@])
                            + rest);
                    }
                }
                acc.push(e);
                pos = p2;
                i = i + 1;
            },
        }
    }
    proof {
        assert(parse_entries(b@, pos as int, 0) == Some((Seq::<EntryModel>::empty(), pos as int)));
        assert(views(acc@) + Seq::<EntryModel>::empty() =~= views(acc@));
        assert(parse_entries(b@, 16, spec_n) == Some((views(acc@), pos as int)));
    }
    if n - pos != 8 {
        return Err(ArchiveError::FormatError);
    }
    let mut j: usize = 0;
    while j < cnt
        invariant
            n == b@.len(),
            16 <= pos <= n,
            cnt == acc@.len(),
            parse_entries(b@, 16, spec_n) == Some((views(acc@), pos as int)),
            spec_n == spec_u64_from_le_bytes(b@.subrange(8, 16)) as nat,
            b@.subrange(0, 4) == spec_magic(),
            spec_u16_from_le_bytes(b@.subrange(4, 6)) == FORMAT_VERSION,
            pos + 8 == n,
            0 <= j <= cnt,
            forall|k: int| 0 <= k < j ==> safe_path(#[trigger] views(acc@)[k].path),
            forall|k: int|
                0 <= k < j ==> (#[trigger] views(acc@)[k].kind is Symlink ==> safe_path(
                    views(acc@)[k].content,
                )),
        decreases cnt - j,
    {
        proof {
            assert(views(acc@)[j as int] == acc@[j as int]@);
        }
        if !crate::safety::is_safe_path(&acc[j].path) {
            proof {
                assert(views(acc@)[j as int].path == acc@[j as int]@.path);
                assert(!all_paths_safe(views(acc@)));
            }
            return Err(ArchiveError::PathSafetyError);
        }
        if matches!(acc[j].kind, EntryKind::Symlink) && !crate::safety::is_safe_path(
            &acc[j].content,
        ) {
            proof {
                assert(views(acc@)[j as int].content == acc@[j as int]@.content);
                assert(views(acc@)[j as int].kind is Symlink);
                assert(!all_targets_safe(views(acc@)));
            }
            return Err(ArchiveError::PathSafetyError);
        }
        j = j + 1;
    }
    assert(all_paths_safe(views(acc@)));
    assert(all_targets_safe(views(acc@)));
    let cs = checksum_range(b, 16, pos);
    let trailer = read_u64_at(b, pos);
    if trailer != cs {
        return Err(ArchiveError::IntegrityError);
    }
    Ok(acc)
}

/// A window of a stream region that is known byte-for-byte equals the
/// matching component.
proof fn lemma_window(b: Seq<u8>, pos: int, enc: Seq<u8>, a: int, c: Seq<u8>)
    requires
        0 <= pos,
        pos + enc.len() <= b.len(),
        b.subrange(pos, pos + enc.len() as int) == enc,
        0 <= a,
        a + c.len() <= enc.len(),
        forall|i: int| 0 <= i < c.len() ==> enc[a + i] == #[trigger] c[i],
    ensures
        b.subrange(pos + a, pos + a + c.len() as int) == c,
{
    assert forall|i: int|
        0 <= i < c.len() implies b.subrange(pos + a, pos + a + c.len() as int)[i] == c[i] by {
        assert(b.subrange(pos, pos + enc.len() as int)[a + i] == enc[a + i]);
        assert(b.subrange(pos + a, pos + a + c.len() as int)[i] == b[pos + a + i]);
        assert(b[pos + a + i] == b.subrange(pos, pos + enc.len() as int)[a + i]);
        assert(c[i] == enc[a + i]);
    }
    assert(b.subrange(pos + a, pos + a + c.len() as int) =~= c);
}

/// An encoded entry record sitting at `pos` inside a stream parses back
/// to exactly the entry it encodes.
proof fn lemma_parse_encoded_entry(b: Seq<u8>, pos: int, e: EntryModel)
    requires
        entry_wf(e),
        0 <= pos,
        pos + spec_encode_entry(e).len() <= b.len(),
        b.subrange(pos, pos + spec_encode_entry(e).len() as int) == spec_encode_entry(e),
    ensures
        parse_entry(b, pos) == Some((e, pos + spec_encode_entry(e).len())),
{
    lemma_auto_spec_u16_to_from_le_bytes();
    lemma_auto_spec_u32_to_from_le_bytes();
    lemma_auto_spec_u64_to_from_le_bytes();
    let enc = spec_encode_entry(e);
    let pl = e.path.len() as int;
    let size = e.content.len() as int;
    let c0 = seq![kind_byte(e.kind)];
    let c1 = spec_u16_to_le_bytes(e.path.len() as u16);
    let c2 = e.path;
    let c3 = spec_u32_to_le_bytes(e.mode);
    let c4 = spec_u64_to_le_bytes(bits_of_sec(e.mtime_sec));
    let c5 = spec_u32_to_le_bytes(e.mtime_nsec);
    let c6 = spec_u64_to_le_bytes(e.content.len() as u64);
    let c7 = e.content;
    assert(enc == c0 + c1 + c2 + c3 + c4 + c5 + c6 + c7);
    assert(c0.len() == 1 && c1.len() == 2 && c2.len() == pl && c3.len() == 4 && c4.len() == 8
        && c5.len() == 4 && c6.len() == 8 && c7.len() == size);
    assert(enc.len() == 27 + pl + size);
    assert(enc[0] == (c0 + c1 + c2 + c3 + c4 + c5 + c6 + c7)[0]);
    assert(enc[0] == kind_byte(e.kind));
    assert(b.subrange(pos, pos + enc.len() as int)[0] == b[pos]);
    assert(b[pos] == kind_byte(e.kind));
    assert(kind_of_byte(kind_byte(e.kind)) == Some(e.kind));
    assert forall|i: int| 0 <= i < 2 implies enc[1 + i] == #[trigger] c1[i] by {
        assert(enc[1 + i] == (c0 + c1 + c2 + c3 + c4 + c5 + c6 + c7)[1 + i]);
    }
    lemma_window(b, pos, enc, 1, c1);
    assert(spec_u16_from_le_bytes(b.subrange(pos + 1, pos + 3)) as int == pl);
    assert forall|i: int| 0 <= i < pl implies enc[3 + i] == #[trigger] c2[i] by {
        assert(enc[3 + i] == (c0 + c1 + c2 + c3 + c4 + c5 + c6 + c7)[3 + i]);
    }
    lemma_window(b, pos, enc, 3, c2);
    assert forall|i: int| 0 <= i < 4 implies enc[3 + pl + i] == #[trigger] c3[i] by {
        assert(enc[3 + pl + i] == (c0 + c1 + c2 + c3 + c4 + c5 + c6 + c7)[3 + pl + i]);
    }
    lemma_window(b, pos, enc, 3 + pl, c3);
    assert forall|i: int| 0 <= i < 8 implies enc[7 + pl + i] == #[trigger] c4[i] by {
        assert(enc[7 + pl + i] == (c0 + c1 + c2 + c3 + c4 + c5 + c6 + c7)[7 + pl + i]);
    }
    lemma_window(b, pos, enc, 7 + pl, c4);
    assert forall|i: int| 0 <= i < 4 implies enc[15 + pl + i] == #[trigger] c5[i] by {
        assert(enc[15 + pl + i] == (c0 + c1 + c2 + c3 + c4 + c5 + c6 + c7)[15 + pl + i]);
    }
    lemma_window(b, pos, enc, 15 + pl, c5);
    assert forall|i: int| 0 <= i < 8 implies enc[19 + pl + i] == #[trigger] c6[i] by {
        assert(enc[19 + pl + i] == (c0 + c1 + c2 + c3 + c4 + c5 + c6 + c7)[19 + pl + i]);
    }
    lemma_window(b, pos, enc, 19 + pl, c6);
    assert(spec_u64_from_le_bytes(b.subrange(pos + 19 + pl, pos + 27 + pl)) as int == size);
    assert forall|i: int| 0 <= i < size implies enc[27 + pl + i] == #[trigger] c7[i] by {
        assert(enc[27 + pl + i] == (c0 + c1 + c2 + c3 + c4 + c5 + c6 + c7)[27 + pl + i]);
    }
    lemma_window(b, pos, enc, 27 + pl, c7);
    lemma_sec_bits_roundtrip(e.mtime_sec);
    assert(sec_of_bits(spec_u64_from_le_bytes(b.subrange(pos + 7 + pl, pos + 15 + pl)))
        == e.mtime_sec);
    assert(parse_entry(b, pos) == Some((e, pos + 27 + pl + size)));
}

/// The payload of a non-empty entry list is the first record followed by
/// the payload of the rest.
proof fn lemma_payload_first(es: Seq<EntryModel>)
    requires
        es.len() > 0,
    ensures
        spec_payload(es) == spec_encode_entry(es.first()) + spec_payload(es.drop_first()),
    decreases es.len(),
{
    if es.len() == 1 {
        assert(es.drop_last() =~= Seq::<EntryModel>::empty());
        assert(es.drop_first() =~= Seq::<EntryModel>::empty());
        assert(es.last() == es.first());
        assert(spec_payload(es) =~= spec_encode_entry(es.first()) + spec_payload(
            es.drop_first(),
        ));
    } else {
        lemma_payload_first(es.drop_last());
        assert(es.drop_last().first() == es.first());
        assert(es.drop_last().drop_first() =~= es.drop_first().drop_last());
        assert(es.drop_first().last() == es.last());
        assert(spec_payload(es.drop_first()) == spec_payload(es.drop_first().drop_last())
            + spec_encode_entry(es.drop_first().last()));
        assert(spec_payload(es) =~= spec_encode_entry(es.first()) + spec_payload(
            es.drop_first(),
        ));
    }
}

/// A stream region holding the payload of a well-formed entry list parses
/// back to exactly that list.
proof fn lemma_parse_payload(b: Seq<u8>, pos: int, es: Seq<EntryModel>)
    requires
        forall|i: int| 0 <= i < es.len() ==> entry_wf(#[trigger] es[i]),
        0 <= pos,
        pos + spec_payload(es).len() <= b.len(),
        b.subrange(pos, pos + spec_payload(es).len() as int) == spec_payload(es),
    ensures
        parse_entries(b, pos, es.len()) == Some((es, pos + spec_payload(es).len())),
    decreases es.len(),
{
    let pay = spec_payload(es);
    if es.len() == 0 {
        assert(es =~= Seq::<EntryModel>::empty());
    } else {
        lemma_payload_first(es);
        let e0 = es.first();
        let enc0 = spec_encode_entry(e0);
        let rest = es.drop_first();
        let payr = spec_payload(rest);
        assert(pay.len() == enc0.len() + payr.len());
        assert forall|i: int| 0 <= i < enc0.len() implies pay[0 + i] == #[trigger] enc0[i] by {
            assert(pay[i] == (enc0 + payr)[i]);
        }
        lemma_window(b, pos, pay, 0, enc0);
        assert(b.subrange(pos, pos + enc0.len() as int) == enc0);
        assert(entry_wf(es[0]));
        lemma_parse_encoded_entry(b, pos, e0);
        let a = enc0.len() as int;
        assert forall|i: int| 0 <= i < payr.len() implies pay[a + i] == #[trigger] payr[i] by {
            assert(pay[a + i] == (enc0 + payr)[a + i]);
        }
        lemma_window(b, pos, pay, a, payr);
        assert(forall|i: int| 0 <= i < rest.len() ==> entry_wf(#[trigger] rest[i])) by {
            assert(forall|i: int| 0 <= i < rest.len() ==> #[trigger] rest[i] == es[i + 1]);
        }
        lemma_parse_payload(b, pos + a, rest);
        assert(seq![e0] + rest =~= es);
        assert(parse_entries(b, pos, es.len()) == Some((es, pos + pay.len())));
    }
}

/// A stream made of the standard header for `es`, the payload of `es`,
/// and an arbitrary trailer value: what the encoder writes when the
/// trailer is the payload checksum, and what a content tamperer leaves
/// behind when it is not.
pub open spec fn stream_with(es: Seq<EntryModel>, tv: u64) -> Seq<u8> {
    spec_header(es.len()) + spec_payload(es) + spec_u64_to_le_bytes(tv)
}

/// The shape of a header-payload-trailer stream: its header fields read
/// back as written, its entry region parses back to the entry list, and
/// its trailer reads back the trailer value.
proof fn lemma_stream_structure(es: Seq<EntryModel>, tv: u64)
    requires
        forall|i: int| 0 <= i < es.len() ==> entry_wf(#[trigger] es[i]),
        es.len() < 0x1_0000_0000_0000_0000,
    ensures
        stream_with(es, tv).len() == 16 + spec_payload(es).len() + 8,
        stream_with(es, tv).subrange(0, 4) == spec_magic(),
        spec_u16_from_le_bytes(stream_with(es, tv).subrange(4, 6)) == FORMAT_VERSION,
        spec_u64_from_le_bytes(stream_with(es, tv).subrange(8, 16)) as nat == es.len(),
        stream_with(es, tv).subrange(16, 16 + spec_payload(es).len() as int) == spec_payload(es),
        parse_entries(stream_with(es, tv), 16, es.len()) == Some(
            (es, 16 + spec_payload(es).len() as int),
        ),
        spec_u64_from_le_bytes(
            stream_with(es, tv).subrange(
                16 + spec_payload(es).len() as int,
                stream_with(es, tv).len() as int,
            ),
        ) == tv,
{
    lemma_auto_spec_u16_to_from_le_bytes();
    lemma_auto_spec_u64_to_from_le_bytes();
    let b = stream_with(es, tv);
    let hm = spec_magic();
    let hv = spec_u16_to_le_bytes(FORMAT_VERSION);
    let hf = spec_u16_to_le_bytes(0);
    let hc = spec_u64_to_le_bytes(es.len() as u64);
    let pay = spec_payload(es);
    let tr = spec_u64_to_le_bytes(tv);
    assert(hm.len() == 4 && hv.len() == 2 && hf.len() == 2 && hc.len() == 8 && tr.len() == 8);
    assert(spec_header(es.len()) == hm + hv + hf + hc);
    assert(spec_header(es.len()).len() == 16);
    assert(b == hm + hv + hf + hc + pay + tr);
    assert(b.len() == 16 + pay.len() + 8);
    assert(b.subrange(0, b.len() as int) =~= b);
    assert forall|i: int| 0 <= i < 4 implies b[0 + i] == #[trigger] hm[i] by {
        assert(b[i] == (hm + hv + hf + hc + pay + tr)[i]);
    }
    lemma_window(b, 0, b, 0, hm);
    assert forall|i: int| 0 <= i < 2 implies b[4 + i] == #[trigger] hv[i] by {
        assert(b[4 + i] == (hm + hv + hf + hc + pay + tr)[4 + i]);
    }
    lemma_window(b, 0, b, 4, hv);
    assert forall|i: int| 0 <= i < 8 implies b[8 + i] == #[trigger] hc[i] by {
        assert(b[8 + i] == (hm + hv + hf + hc + pay + tr)[8 + i]);
    }
    lemma_window(b, 0, b, 8, hc);
    assert(spec_u64_from_le_bytes(b.subrange(8, 16)) as nat == es.len());
    assert forall|i: int| 0 <= i < pay.len() implies b[16 + i] == #[trigger] pay[i] by {
        assert(b[16 + i] == (hm + hv + hf + hc + pay + tr)[16 + i]);
    }
    lemma_window(b, 0, b, 16, pay);
    lemma_parse_payload(b, 16, es);
    let ta = 16 + pay.len() as int;
    assert forall|i: int| 0 <= i < 8 implies b[ta + i] == #[trigger] tr[i] by {
        assert(b[ta + i] == (hm + hv + hf + hc + pay + tr)[ta + i]);
    }
    lemma_window(b, 0, b, ta, tr);
}

/// The shape of an encoded archive: a checksum-trailed stream.
proof fn lemma_encode_structure(es: Seq<EntryModel>)
    requires
        forall|i: int| 0 <= i < es.len() ==> entry_wf(#[trigger] es[i]),
        es.len() < 0x1_0000_0000_0000_0000,
    ensures
        spec_encode(es) == stream_with(es, stream_sum(spec_payload(es))),
        spec_encode(es).len() == 16 + spec_payload(es).len() + 8,
        spec_encode(es).subrange(0, 4) == spec_magic(),
        spec_u16_from_le_bytes(spec_encode(es).subrange(4, 6)) == FORMAT_VERSION,
        spec_u64_from_le_bytes(spec_encode(es).subrange(8, 16)) as nat == es.len(),
        spec_encode(es).subrange(16, 16 + spec_payload(es).len() as int) == spec_payload(es),
        parse_entries(spec_encode(es), 16, es.len()) == Some(
            (es, 16 + spec_payload(es).len() as int),
        ),
        spec_u64_from_le_bytes(
            spec_encode(es).subrange(
                16 + spec_payload(es).len() as int,
                spec_encode(es).len() as int,
            ),
        ) == stream_sum(spec_payload(es)),
{
    lemma_stream_structure(es, stream_sum(spec_payload(es)));
}

/// Round trip: decoding an encoded archive of well-formed entries whose
/// relative paths and symlink targets are all safe returns exactly the
/// entry list that was encoded — paths, kinds, metadata and content
/// bytes all survive the trip.
pub proof fn lemma_encode_decode_roundtrip(es: Seq<EntryModel>)
    requires
        forall|i: int| 0 <= i < es.len() ==> entry_wf(#[trigger] es[i]),
        all_paths_safe(es),
        all_targets_safe(es),
        es.len() < 0x1_0000_0000_0000_0000,
    ensures
        spec_decode(spec_encode(es)) == Ok::<Seq<EntryModel>, ArchiveError>(es),
{
    lemma_encode_structure(es);
}

/// Path safety is enforced: an archive holding any entry whose relative
/// path is unsafe (a `..` segment, an absolute path, and so on), or any
/// symlink whose target is, is rejected whole with `PathSafetyError`.
pub proof fn lemma_unsafe_entry_rejected(es: Seq<EntryModel>)
    requires
        forall|i: int| 0 <= i < es.len() ==> entry_wf(#[trigger] es[i]),
        !all_paths_safe(es) || !all_targets_safe(es),
        es.len() < 0x1_0000_0000_0000_0000,
    ensures
        spec_decode(spec_encode(es)) == Err::<Seq<EntryModel>, ArchiveError>(
            ArchiveError::PathSafetyError,
        ),
{
    lemma_encode_structure(es);
}

/// Every structurally parsed entry is itself well-formed: its path fits
/// the 16-bit length field and a directory carries no content.
proof fn lemma_parsed_entries_wf(b: Seq<u8>, pos: int, n: nat)
    requires
        parse_entries(b, pos, n) is Some,
    ensures
        forall|i: int|
            0 <= i < parse_entries(b, pos, n).unwrap().0.len() ==> entry_wf(
                #[trigger] parse_entries(b, pos, n).unwrap().0[i],
            ),
    decreases n,
{
    if n > 0 {
        let (e, p2) = parse_entry(b, pos).unwrap();
        lemma_parsed_entries_wf(b, p2, (n - 1) as nat);
        let rest = parse_entries(b, p2, (n - 1) as nat).unwrap().0;
        assert(entry_wf(e));
        assert(forall|i: int|
            0 <= i < rest.len() ==> (seq![e] + rest)[i + 1] == #[trigger] rest[i]);
        assert forall|i: int|
            0 <= i < parse_entries(b, pos, n).unwrap().0.len() implies entry_wf(
            #[trigger] parse_entries(b, pos, n).unwrap().0[i],
        ) by {
            if i > 0 {
                assert((seq![e] + rest)[i] == rest[i - 1]);
            }
        }
    }
}

/// Whatever decodes can be packed again: the entries of any accepted
/// stream are structurally well-formed and all their paths are safe.
pub proof fn lemma_decoded_entries_wf(b: Seq<u8>, es: Seq<EntryModel>)
    requires
        spec_decode(b) == Ok::<Seq<EntryModel>, ArchiveError>(es),
    ensures
        forall|i: int| 0 <= i < es.len() ==> entry_wf(#[trigger] es[i]),
        all_paths_safe(es),
        all_targets_safe(es),
{
    let n = spec_u64_from_le_bytes(b.subrange(8, 16)) as nat;
    lemma_parsed_entries_wf(b, 16, n);
}

/// A successfully parsed entry record at a position of a prefix parses
/// identically in the full stream.
proof fn lemma_parse_entry_prefix(bp: Seq<u8>, b: Seq<u8>, pos: int)
    requires
        bp.len() <= b.len(),
        bp == b.subrange(0, bp.len() as int),
        parse_entry(bp, pos) is Some,
    ensures
        parse_entry(b, pos) == parse_entry(bp, pos),
{
    assert(forall|j: int| 0 <= j < bp.len() ==> #[trigger] bp[j] == b[j]) by {
        assert(forall|j: int|
            0 <= j < bp.len() ==> #[trigger] b.subrange(0, bp.len() as int)[j] == b[j]);
    }
    let pl = spec_u16_from_le_bytes(bp.subrange(pos + 1, pos + 3)) as int;
    assert(bp.subrange(pos + 1, pos + 3) =~= b.subrange(pos + 1, pos + 3));
    let size = spec_u64_from_le_bytes(bp.subrange(pos + 19 + pl, pos + 27 + pl)) as int;
    assert(bp.subrange(pos + 19 + pl, pos + 27 + pl) =~= b.subrange(pos + 19 + pl, pos + 27 + pl));
    assert(bp.subrange(pos + 3, pos + 3 + pl) =~= b.subrange(pos + 3, pos + 3 + pl));
    assert(bp.subrange(pos + 3 + pl, pos + 7 + pl) =~= b.subrange(pos + 3 + pl, pos + 7 + pl));
    assert(bp.subrange(pos + 7 + pl, pos + 15 + pl) =~= b.subrange(pos + 7 + pl, pos + 15 + pl));
    assert(bp.subrange(pos + 15 + pl, pos + 19 + pl) =~= b.subrange(pos + 15 + pl, pos + 19 + pl));
    assert(bp.subrange(pos + 27 + pl, pos + 27 + pl + size) =~= b.subrange(
        pos + 27 + pl,
        pos + 27 + pl + size,
    ));
}

/// Entry records successfully parsed from a prefix parse identically in
/// the full stream.
proof fn lemma_parse_entries_prefix(bp: Seq<u8>, b: Seq<u8>, pos: int, n: nat)
    requires
        bp.len() <= b.len(),
        bp == b.subrange(0, bp.len() as int),
        parse_entries(bp, pos, n) is Some,
    ensures
        parse_entries(b, pos, n) == parse_entries(bp, pos, n),
    decreases n,
{
    if n > 0 {
        lemma_parse_entry_prefix(bp, b, pos);
        let (e, p2) = parse_entry(bp, pos).unwrap();
        lemma_parse_entries_prefix(bp, b, p2, (n - 1) as nat);
    }
}

/// Truncation is detected: cutting any number of bytes off the end of a
/// valid archive leaves a stream the decoder rejects whole with
/// `FormatError`, so no truncated archive restores any entry.
pub proof fn lemma_truncated_rejected(b: Seq<u8>, l: int)
    requires
        spec_decode(b) is Ok,
        0 <= l < b.len(),
    ensures
        spec_decode(b.subrange(0, l)) == Err::<Seq<EntryModel>, ArchiveError>(
            ArchiveError::FormatError,
        ),
{
    let bp = b.subrange(0, l);
    if l < 16 {
    } else {
        assert(forall|j: int| 0 <= j < l ==> #[trigger] bp[j] == b[j]);
        assert(bp.subrange(0, 4) =~= b.subrange(0, 4));
        assert(bp.subrange(4, 6) =~= b.subrange(4, 6));
        assert(bp.subrange(8, 16) =~= b.subrange(8, 16));
        let n = spec_u64_from_le_bytes(b.subrange(8, 16)) as nat;
        let (es, end) = parse_entries(b, 16, n).unwrap();
        assert(end + 8 == b.len());
        match parse_entries(bp, 16, n) {
            None => {},
            Some((es2, end2)) => {
                lemma_parse_entries_prefix(bp, b, 16, n);
                assert(end2 == end);
                lemma_parse_entries_bounds(bp, 16, n);
                assert(end2 <= l);
                assert(end2 + 8 != bp.len());
            },
        }
    }
}

/// The payload decomposed around entry `m`: the records before it, its
/// own record, and the records after it.
proof fn lemma_payload_split(es: Seq<EntryModel>, m: int)
    requires
        0 <= m < es.len(),
    ensures
        spec_payload(es) == spec_payload(es.take(m)) + spec_encode_entry(es[m]) + spec_payload(
            es.skip(m + 1),
        ),
    decreases es.len(),
{
    if m == es.len() - 1 {
        assert(es.take(m) =~= es.drop_last());
        assert(es.skip(m + 1) =~= Seq::<EntryModel>::empty());
        assert(spec_payload(es) =~= spec_payload(es.take(m)) + spec_encode_entry(es[m])
            + spec_payload(es.skip(m + 1)));
    } else {
        let dl = es.drop_last();
        lemma_payload_split(dl, m);
        assert(dl.take(m) =~= es.take(m));
        assert(dl[m] == es[m]);
        let suf = es.skip(m + 1);
        assert(suf.len() > 0);
        assert(suf.drop_last() =~= dl.skip(m + 1));
        assert(suf.last() == es.last());
        assert(spec_payload(suf) == spec_payload(dl.skip(m + 1)) + spec_encode_entry(es.last()));
        assert(spec_payload(es) =~= spec_payload(es.take(m)) + spec_encode_entry(es[m])
            + spec_payload(es.skip(m + 1)));
    }
}

/// Entry `e` with the content byte at `ci` replaced by `v`.
pub open spec fn with_content_byte(e: EntryModel, ci: int, v: u8) -> EntryModel {
    EntryModel {
        path: e.path,
        kind: e.kind,
        mode: e.mode,
        mtime_sec: e.mtime_sec,
        mtime_nsec: e.mtime_nsec,
        content: e.content.update(ci, v),
    }
}

/// Content tampering is always detected: take any valid archive of
/// well-formed, path-safe entries and flip one stored content byte of
/// any entry — the bytes left behind (entry records with the changed
/// byte, original trailer) still parse structurally, but the decoder
/// rejects them with `IntegrityError`.
pub proof fn lemma_content_tamper_detected(es: Seq<EntryModel>, m: int, ci: int, v: u8)
    requires
        forall|i: int| 0 <= i < es.len() ==> entry_wf(#[trigger] es[i]),
        all_paths_safe(es),
        all_targets_safe(es),
        es.len() < 0x1_0000_0000_0000_0000,
        0 <= m < es.len(),
        es[m].kind is File,
        0 <= ci < es[m].content.len(),
        v != es[m].content[ci],
    ensures
        spec_decode(
            stream_with(
                es.update(m, with_content_byte(es[m], ci, v)),
                stream_sum(spec_payload(es)),
            ),
        ) == Err::<Seq<EntryModel>, ArchiveError>(ArchiveError::IntegrityError),
{
    lemma_auto_spec_u16_to_from_le_bytes();
    let e1 = es[m];
    let e2 = with_content_byte(e1, ci, v);
    let es2 = es.update(m, e2);
    assert(forall|i: int| 0 <= i < es2.len() ==> entry_wf(#[trigger] es2[i])) by {
        assert(forall|i: int| 0 <= i < es2.len() && i != m ==> #[trigger] es2[i] == es[i]);
        assert(es2[m] == e2);
        assert(e2.content.len() == e1.content.len());
    }
    assert(all_paths_safe(es2)) by {
        assert(forall|i: int| 0 <= i < es2.len() && i != m ==> #[trigger] es2[i] == es[i]);
        assert(es2[m].path == es[m].path);
    }
    assert(all_targets_safe(es2)) by {
        assert(forall|i: int| 0 <= i < es2.len() && i != m ==> #[trigger] es2[i] == es[i]);
        assert(es2[m].kind is File);
    }
    let tv = stream_sum(spec_payload(es));
    lemma_stream_structure(es2, tv);
    let b2 = stream_with(es2, tv);
    // The two payloads differ in exactly the flipped byte.
    lemma_payload_split(es, m);
    lemma_payload_split(es2, m);
    assert(es2.take(m) =~= es.take(m));
    assert(es2.skip(m + 1) =~= es.skip(m + 1));
    let a = spec_payload(es.take(m));
    let z = spec_payload(es.skip(m + 1));
    let enc1 = spec_encode_entry(e1);
    let enc2 = spec_encode_entry(e2);
    let x = seq![kind_byte(e1.kind)] + spec_u16_to_le_bytes(e1.path.len() as u16) + e1.path
        + spec_u32_to_le_bytes(e1.mode) + spec_u64_to_le_bytes(bits_of_sec(e1.mtime_sec))
        + spec_u32_to_le_bytes(e1.mtime_nsec) + spec_u64_to_le_bytes(e1.content.len() as u64);
    assert(enc1 == x + e1.content);
    assert(e2.content.len() == e1.content.len());
    assert(enc2 == x + e1.content.update(ci, v));
    let kd = x.len() + ci;
    assert(enc1.len() == enc2.len());
    assert(enc2[kd] != enc1[kd]) by {
        assert(enc1[kd] == (x + e1.content)[kd]);
        assert(enc2[kd] == (x + e1.content.update(ci, v))[kd]);
    }
    assert(forall|j: int| 0 <= j < enc1.len() && j != kd ==> #[trigger] enc1[j] == enc2[j]) by {
        assert(forall|j: int|
            0 <= j < enc1.len() && j != kd ==> (x + e1.content)[j] == (x + e1.content.update(
                ci,
                v,
            ))[j] && #[trigger] enc1[j] == (x + e1.content)[j] && enc2[j] == (x
                + e1.content.update(ci, v))[j]);
    }
    let pay = spec_payload(es);
    let pay2 = spec_payload(es2);
    assert(pay == a + enc1 + z);
    assert(pay2 == a + enc2 + z);
    assert(pay.len() == pay2.len());
    let kk = a.len() + kd;
    assert(pay2[kk] != pay[kk]) by {
        assert(pay[kk] == ((a + enc1) + z)[kk]);
        assert(pay2[kk] == ((a + enc2) + z)[kk]);
    }
    assert(forall|j: int| 0 <= j < pay.len() && j != kk ==> #[trigger] pay[j] == pay2[j]) by {
        assert(forall|j: int|
            0 <= j < pay.len() && j != kk ==> #[trigger] pay[j] == ((a + enc1) + z)[j] && pay2[j]
                == ((a + enc2) + z)[j]);
    }
    crate::checksum::lemma_stream_sum_one_diff(pay, pay2, kk);
    // Structure parses, paths are safe, so the checksum test decides.
    assert(spec_u64_from_le_bytes(b2.subrange(16 + pay2.len() as int, b2.len() as int)) == tv);
    assert(b2.subrange(16, 16 + pay2.len() as int) == pay2);
    assert(spec_decode(b2) == Err::<Seq<EntryModel>, ArchiveError>(ArchiveError::IntegrityError));
}

/// Tampering is detected: changing a single byte strictly inside the
/// checksummed region of a valid archive, in a way that still parses
/// structurally to the same boundary with safe paths (as any change
/// confined to stored content bytes does), is rejected with
/// `IntegrityError`.
pub proof fn lemma_tampered_byte_detected(b: Seq<u8>, b2: Seq<u8>, t: int, es2: Seq<EntryModel>)
    requires
        spec_decode(b) is Ok,
        b2.len() == b.len(),
        16 <= t < b.len() - 8,
        b2[t] != b[t],
        forall|j: int| 0 <= j < b.len() && j != t ==> #[trigger] b[j] == b2[j],
        parse_entries(b2, 16, spec_u64_from_le_bytes(b2.subrange(8, 16)) as nat) == Some(
            (es2, b.len() - 8),
        ),
        all_paths_safe(es2),
        all_targets_safe(es2),
    ensures
        spec_decode(b2) == Err::<Seq<EntryModel>, ArchiveError>(ArchiveError::IntegrityError),
{
    assert(b2.subrange(0, 4) =~= b.subrange(0, 4));
    assert(b2.subrange(4, 6) =~= b.subrange(4, 6));
    assert(b2.subrange(8, 16) =~= b.subrange(8, 16));
    let n = spec_u64_from_le_bytes(b.subrange(8, 16)) as nat;
    let (es, end) = parse_entries(b, 16, n).unwrap();
    assert(end + 8 == b.len());
    let r1 = b.subrange(16, end);
    let r2 = b2.subrange(16, end);
    assert(r1.len() == r2.len());
    assert(r1[t - 16] != r2[t - 16]);
    assert(forall|j: int| 0 <= j < r1.len() && j != t - 16 ==> #[trigger] r1[j] == r2[j]);
    crate::checksum::lemma_stream_sum_one_diff(r1, r2, t - 16);
    assert(b2.subrange(end, end + 8) =~= b.subrange(end, end + 8));
    assert(spec_u64_from_le_bytes(b.subrange(end, end + 8)) == stream_sum(r1));
    assert(spec_decode(b2) == Err::<Seq<EntryModel>, ArchiveError>(ArchiveError::IntegrityError));
}

} // verus!
