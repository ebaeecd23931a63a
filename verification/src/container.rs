//! Whole-file operations on the container: integrity checking and the
//! zero-copy metadata edit, which rewrites only the metadata chunk and the
//! 8-byte metadata-size field at offset 62 while leaving every audio byte
//! untouched.

use vstd::prelude::*;
use vstd::bytes::*;
use vstd::slice::{slice_subrange};

use crate::crc32::{compute, spec_crc32};
use crate::reader::{le32_at, le64_at, spec_parse_file, Reader};
use crate::types::{FloResult, Header};
use crate::writer::push_bytes;

verus! {

/// Whether a buffer declares metadata: it is long enough to hold a header
/// and the metadata-size field at byte offset 62 is nonzero. In particular,
/// whenever this returns false on a buffer that holds the field, that field
/// is zero.
pub fn has_metadata(flo_data: &[u8]) -> (r: bool)
    ensures
        r == (flo_data@.len() >= 70 && le64_at(flo_data@, 62) != 0),
{
    let n: usize = flo_data.len();
    if n < 70 {
        return false;
    }
    let meta_size: u64 = crate::reader::read_u64_at(flo_data, 62);
    meta_size > 0
}

/// The start of the metadata chunk of a parsed file.
pub open spec fn spec_meta_offset(b: Seq<u8>) -> int
    recommends
        spec_parse_file(b) is Ok,
{
    let h = (spec_parse_file(b)->Ok_0).header;
    70 + h.toc_size + h.data_size + h.extra_size
}

/// The bytes of a file after a metadata replacement: everything before the
/// metadata unchanged except the metadata-size field, then the new metadata.
pub open spec fn spec_updated_bytes(b: Seq<u8>, new_meta: Seq<u8>) -> Seq<u8>
    recommends
        spec_parse_file(b) is Ok,
{
    b.subrange(0, 62) + spec_u64_to_le_bytes(new_meta.len() as u64) + b.subrange(
        70,
        spec_meta_offset(b),
    ) + new_meta
}

/// Replaces the metadata chunk without re-encoding: the magic, header (but
/// for the metadata-size field), table of contents, DATA chunk, and extra
/// chunk are copied byte for byte, so the audio and its checksum are
/// untouched. Fails exactly when the input does not parse.
pub fn update_metadata_bytes(flo_data: &[u8], new_metadata: &[u8]) -> (r: FloResult<Vec<u8>>)
    ensures
        (r is Ok) == (spec_parse_file(flo_data@) is Ok),
        r is Ok ==> (r->Ok_0)@ == spec_updated_bytes(flo_data@, new_metadata@),
        r is Err ==> r->Err_0 == spec_parse_file(flo_data@)->Err_0,
{
    let reader = Reader::new();
    let file = match reader.read(flo_data) {
        Ok(f) => f,
        Err(e) => {
            return Err(e);
        },
    };
    let h = &file.header;
    proof {
        vstd::slice::axiom_spec_len(flo_data);
    }
    let n: usize = flo_data.len();
    let meta_offset: usize = 70 + (h.toc_size as usize) + (h.data_size as usize) + (h.extra_size
        as usize);
    let mut out: Vec<u8> = Vec::new();
    let head: &[u8] = slice_subrange(flo_data, 0, 62);
    push_bytes(&mut out, head);
    crate::writer::push_u64_le(&mut out, new_metadata.len() as u64);
    let mid: &[u8] = slice_subrange(flo_data, 70, meta_offset);
    push_bytes(&mut out, mid);
    push_bytes(&mut out, new_metadata);
    proof {
        assert(out@ =~= spec_updated_bytes(flo_data@, new_metadata@));
    }
    Ok(out)
}

/// Removes all metadata: a metadata replacement with an empty chunk.
pub fn strip_metadata_bytes(flo_data: &[u8]) -> (r: FloResult<Vec<u8>>)
    ensures
        (r is Ok) == (spec_parse_file(flo_data@) is Ok),
        r is Ok ==> (r->Ok_0)@ == spec_updated_bytes(flo_data@, Seq::<u8>::empty()),
{
    let empty: [u8; 0] = [];
    let r = update_metadata_bytes(flo_data, &empty);
    proof {
        if spec_parse_file(flo_data@) is Ok {
            assert(spec_updated_bytes(flo_data@, empty@) =~= spec_updated_bytes(
                flo_data@,
                Seq::<u8>::empty(),
            ));
        }
    }
    r
}

/// Extracts the raw metadata chunk.
pub fn get_metadata_bytes_native(flo_data: &[u8]) -> (r: FloResult<Vec<u8>>)
    ensures
        (r is Ok) == (spec_parse_file(flo_data@) is Ok),
        r is Ok ==> (r->Ok_0)@ == (spec_parse_file(flo_data@)->Ok_0).metadata,
        r is Err ==> r->Err_0 == spec_parse_file(flo_data@)->Err_0,
{
    let reader = Reader::new();
    match reader.read(flo_data) {
        Ok(f) => Ok(f.metadata),
        Err(e) => Err(e),
    }
}


/// Law: nothing but `validate` reads the stored checksum. Two equal-length
/// files that differ only inside the four checksum bytes parse to the same
/// table, frames and metadata, the headers differing in that field alone —
/// so a checksum mismatch never stops parsing or decoding.
pub proof fn lemma_parse_ignores_crc(b1: Seq<u8>, b2: Seq<u8>)
    requires
        b1.len() == b2.len(),
        forall|q: int| 0 <= q < b1.len() && !(26 <= q < 30) ==> b1[q] == #[trigger] b2[q],
        spec_parse_file(b1) is Ok,
    ensures
        spec_parse_file(b2) is Ok,
        ({
            let f1 = spec_parse_file(b1)->Ok_0;
            let f2 = spec_parse_file(b2)->Ok_0;
            &&& f2.frames == f1.frames
            &&& f2.toc == f1.toc
            &&& f2.metadata == f1.metadata
            &&& f2.header == Header { data_crc32: f2.header.data_crc32, ..f1.header }
        }),
{
    let h1 = crate::reader::spec_parse_header(b1);
    let h2 = crate::reader::spec_parse_header(b2);
    assert(b2.subrange(0, 4) =~= b1.subrange(0, 4));
    assert(b2.subrange(6, 8) =~= b1.subrange(6, 8));
    assert(b2.subrange(8, 12) =~= b1.subrange(8, 12));
    assert(b2.subrange(14, 22) =~= b1.subrange(14, 22));
    assert(b2.subrange(30, 38) =~= b1.subrange(30, 38));
    assert(b2.subrange(38, 46) =~= b1.subrange(38, 46));
    assert(b2.subrange(46, 54) =~= b1.subrange(46, 54));
    assert(b2.subrange(54, 62) =~= b1.subrange(54, 62));
    assert(b2.subrange(62, 70) =~= b1.subrange(62, 70));
    assert(b2.subrange(70, 74) =~= b1.subrange(70, 74));
    assert(b2[4] == b1[4] && b2[5] == b1[5] && b2[12] == b1[12] && b2[13] == b1[13] && b2[22]
        == b1[22]);
    assert(h2 == Header { data_crc32: h2.data_crc32, ..h1 });
    let n = le32_at(b1, 70) as nat;
    let toc1 = crate::reader::spec_parse_toc(b1, n);
    let toc2 = crate::reader::spec_parse_toc(b2, n);
    assert(h1.toc_size <= b1.len() - 70);
    assert(toc2 =~= toc1) by {
        assert forall|i: int| 0 <= i < n implies toc2[i] == toc1[i] by {
            assert(74 + 20 * i + 20 <= 70 + h1.toc_size + 10);
            assert(b2.subrange(74 + 20 * i, 74 + 20 * i + 4) =~= b1.subrange(
                74 + 20 * i,
                74 + 20 * i + 4,
            ));
            assert(b2.subrange(78 + 20 * i, 78 + 20 * i + 8) =~= b1.subrange(
                78 + 20 * i,
                78 + 20 * i + 8,
            ));
            assert(b2.subrange(86 + 20 * i, 86 + 20 * i + 4) =~= b1.subrange(
                86 + 20 * i,
                86 + 20 * i + 4,
            ));
            assert(b2.subrange(90 + 20 * i, 90 + 20 * i + 4) =~= b1.subrange(
                90 + 20 * i,
                90 + 20 * i + 4,
            ));
        }
    }
    let data_start = 70 + h1.toc_size as int;
    let ds = h1.data_size as int;
    assert(b2.subrange(data_start, data_start + ds) =~= b1.subrange(data_start, data_start + ds));
    crate::reader::lemma_parse_frames_agree(b1, b2, toc1, data_start, ds, h1.channels, 0);
    let meta_lo = data_start + h1.data_size + h1.extra_size;
    assert(b2.subrange(meta_lo, meta_lo + h1.meta_size) =~= b1.subrange(
        meta_lo,
        meta_lo + h1.meta_size,
    ));
}

/// Replacing the metadata of a parsed file leaves everything audible alone:
/// the updated bytes still parse, with the same header but for the
/// metadata-size field, the same table of contents, the same frames (so
/// decoding is unchanged), the new metadata in place, and an unchanged DATA
/// chunk — hence an unchanged checksum relation.
pub proof fn lemma_update_metadata_preserves_audio(b: Seq<u8>, new_meta: Seq<u8>)
    requires
        spec_parse_file(b) is Ok,
        new_meta.len() < 0x1_0000_0000_0000_0000,
    ensures
        ({
            let u = spec_updated_bytes(b, new_meta);
            let oldf = spec_parse_file(b)->Ok_0;
            &&& spec_parse_file(u) is Ok
            &&& (spec_parse_file(u)->Ok_0).frames == oldf.frames
            &&& (spec_parse_file(u)->Ok_0).toc == oldf.toc
            &&& (spec_parse_file(u)->Ok_0).metadata == new_meta
            &&& (spec_parse_file(u)->Ok_0).header == Header {
                meta_size: new_meta.len() as u64,
                ..oldf.header
            }
            &&& spec_crc_valid(u) == spec_crc_valid(b)
        }),
{
    let u = spec_updated_bytes(b, new_meta);
    let oldf = spec_parse_file(b)->Ok_0;
    let h = oldf.header;
    let moff = spec_meta_offset(b);
    vstd::bytes::lemma_auto_spec_u64_to_from_le_bytes();
    assert(u.len() == moff + new_meta.len());
    // everything before offset 62 and between 70 and the metadata is copied
    assert forall|i: int| 0 <= i < 62 implies u[i] == b[i] by {
        assert(u[i] == b.subrange(0, 62)[i]);
    }
    assert forall|i: int| 70 <= i < moff implies u[i] == b[i] by {
        assert(u[i] == b.subrange(70, moff)[i - 70]);
    }
    assert(u.subrange(62, 70) =~= vstd::bytes::spec_u64_to_le_bytes(new_meta.len() as u64));
    assert(u.subrange(moff, moff + new_meta.len()) =~= new_meta);
    // the header parses field for field, with only the metadata size new
    assert(u.subrange(0, 4) =~= b.subrange(0, 4));
    lemma_le_agree(u, b, 6, 2);
    lemma_le_agree(u, b, 8, 4);
    lemma_le_agree(u, b, 14, 8);
    lemma_le_agree(u, b, 26, 4);
    lemma_le_agree(u, b, 30, 8);
    lemma_le_agree(u, b, 38, 8);
    lemma_le_agree(u, b, 46, 8);
    lemma_le_agree(u, b, 54, 8);
    let hu = crate::reader::spec_parse_header(u);
    assert(hu == Header { meta_size: new_meta.len() as u64, ..h });
    // the table of contents is inside the copied range
    let n = le32_at(b, 70) as nat;
    assert(le32_at(u, 70) == le32_at(b, 70)) by {
        lemma_le_agree(u, b, 70, 4);
    }
    assert forall|i: int| 0 <= i < n implies crate::reader::spec_parse_toc_entry(u, i)
        == crate::reader::spec_parse_toc_entry(b, i) by {
        assert(74 + 20 * i + 20 <= 70 + h.toc_size) by (nonlinear_arith)
            requires
                0 <= i < n,
                h.toc_size == 4 + 20 * n,
        ;
        lemma_le_agree(u, b, 74 + 20 * i, 4);
        lemma_le_agree(u, b, 78 + 20 * i, 8);
        lemma_le_agree(u, b, 86 + 20 * i, 4);
        lemma_le_agree(u, b, 90 + 20 * i, 4);
    }
    assert(crate::reader::spec_parse_toc(u, n) =~= crate::reader::spec_parse_toc(b, n));
    // the frames read only the DATA window, which is copied byte for byte
    let data_start = 70 + h.toc_size as int;
    assert(u.subrange(data_start, data_start + h.data_size) =~= b.subrange(
        data_start,
        data_start + h.data_size,
    ));
    crate::reader::lemma_parse_frames_agree(
        u,
        b,
        crate::reader::spec_parse_toc(b, n),
        data_start,
        h.data_size as int,
        h.channels,
        0,
    );
    // the checksum compares the same bytes against the same stored field
    assert(u.subrange(70 + hu.toc_size, 70 + hu.toc_size + hu.data_size) =~= b.subrange(
        70 + h.toc_size,
        70 + h.toc_size + h.data_size,
    ));
    assert((spec_parse_file(u)->Ok_0).metadata =~= new_meta);
}

/// Two buffers agreeing on a window read the same little-endian value there.
proof fn lemma_le_agree(u: Seq<u8>, b: Seq<u8>, p: int, k: int)
    requires
        0 <= p,
        k >= 0,
        p + k <= u.len(),
        p + k <= b.len(),
        forall|i: int| p <= i < p + k ==> u[i] == #[trigger] b[i],
    ensures
        u.subrange(p, p + k) == b.subrange(p, p + k),
{
    assert(u.subrange(p, p + k) =~= b.subrange(p, p + k));
}

/// Whether a parsed file's checksum field matches the CRC-32 of its DATA
/// chunk.
pub open spec fn spec_crc_valid(b: Seq<u8>) -> bool
    recommends
        spec_parse_file(b) is Ok,
{
    let h = (spec_parse_file(b)->Ok_0).header;
    spec_crc32(b.subrange(70 + h.toc_size, 70 + h.toc_size + h.data_size)) == h.data_crc32
}

/// Checks file integrity: true exactly when the file parses and the CRC-32
/// over its DATA chunk equals the checksum stored in the header. A CRC
/// mismatch makes `validate` false but does not stop decoding.
pub fn validate(data: &[u8]) -> (r: bool)
    ensures
        r == (spec_parse_file(data@) is Ok && spec_crc_valid(data@)),
{
    let reader = Reader::new();
    let file = match reader.read(data) {
        Ok(f) => f,
        Err(_) => {
            return false;
        },
    };
    let h = &file.header;
    proof {
        vstd::slice::axiom_spec_len(data);
    }
    let start: usize = 70 + (h.toc_size as usize);
    let end: usize = start + (h.data_size as usize);
    let chunk: &[u8] = slice_subrange(data, start, end);
    let computed: u32 = compute(chunk);
    computed == h.data_crc32
}

/// Parses and checks a file's integrity: the checksum verdict on success,
/// the parse error otherwise.
pub fn validate_flo(data: &[u8]) -> (r: FloResult<bool>)
    ensures
        (r is Ok) == (spec_parse_file(data@) is Ok),
        r is Ok ==> (r->Ok_0) == spec_crc_valid(data@),
{
    let reader = Reader::new();
    match reader.read(data) {
        Ok(_) => Ok(validate(data)),
        Err(e) => Err(e),
    }
}

/// Removes all metadata without re-encoding the audio.
pub fn strip_metadata_no_reencode(flo_data: &[u8]) -> (r: FloResult<Vec<u8>>)
    ensures
        (r is Ok) == (spec_parse_file(flo_data@) is Ok),
        r is Ok ==> (r->Ok_0)@ == spec_updated_bytes(flo_data@, Seq::<u8>::empty()),
{
    strip_metadata_bytes(flo_data)
}

} // verus!
