//! Upstream archives: ustar records inside a `zst` or `xz` stream.
//!
//! The decompressors and the tar reader are outside code; each is called
//! through one trusted wrapper whose result is named by an uninterpreted
//! function of the input bytes, since the outcome depends on the bytes alone.
//! Everything downstream of these wrappers works on plain [`TarEntry`]
//! values and is verified.

use std::io::Cursor;
use std::io::Read;

use vstd::prelude::*;

verus! {

/// One ustar record, reduced to plain values: header fields plus body bytes.
/// `link` is empty when the header carries no link name.
#[derive(Debug)]
pub struct TarEntry {
    pub path: String,
    pub typeflag: u8,
    pub mtime: u64,
    pub uid: u32,
    pub gid: u32,
    pub perm: u32,
    pub link: String,
    pub body: Vec<u8>,
}

/// The mathematical value of a [`TarEntry`].
pub ghost struct TarEntryView {
    pub path: Seq<char>,
    pub typeflag: u8,
    pub mtime: u64,
    pub uid: u32,
    pub gid: u32,
    pub perm: u32,
    pub link: Seq<char>,
    pub body: Seq<u8>,
}

impl View for TarEntry {
    type V = TarEntryView;

    open spec fn view(&self) -> TarEntryView {
        TarEntryView {
            path: self.path@,
            typeflag: self.typeflag,
            mtime: self.mtime,
            uid: self.uid,
            gid: self.gid,
            perm: self.perm,
            link: self.link@,
            body: self.body@,
        }
    }
}

/// The element-wise values of a list of records.
pub open spec fn entry_views(s: Seq<TarEntry>) -> Seq<TarEntryView> {
    s.map_values(|e: TarEntry| e@)
}

/// Why an upstream archive was rejected.
#[derive(Debug, Copy, Clone, PartialEq, Eq, Structural)]
pub enum ArchiveError {
    /// The archive suffix is neither `zst` nor `xz`.
    UnknownSuffix,
    /// The compressed stream or the ustar records could not be decoded.
    Corrupt,
}

/// The decompressed form of a zstd stream.
pub uninterp spec fn zstd_plain(b: Seq<u8>) -> Seq<u8>;

/// Whether a byte stream is a well-formed zstd stream, so decoding succeeds.
pub uninterp spec fn zstd_ok(b: Seq<u8>) -> bool;

/// The decompressed form of an xz stream.
pub uninterp spec fn xz_plain(b: Seq<u8>) -> Seq<u8>;

/// Whether a byte stream is a well-formed xz stream, so decoding succeeds.
pub uninterp spec fn xz_ok(b: Seq<u8>) -> bool;

/// The ustar records held by a byte stream.
pub uninterp spec fn tar_records(b: Seq<u8>) -> Seq<TarEntryView>;

/// Whether every record of the stream parses and carries a unicode path and
/// link name, so the path pass succeeds.
pub uninterp spec fn tar_paths_ok(b: Seq<u8>) -> bool;

/// Whether every record of the stream parses with a ustar header whose
/// numeric fields decode and whose body reads, so the field pass succeeds.
pub uninterp spec fn tar_fields_ok(b: Seq<u8>) -> bool;

/// Relies on zstd's `decode_all`: whether decoding succeeds, and what it
/// yields, are functions of the compressed bytes alone.
#[verifier::external_body]
fn zstd_decode(b: &Vec<u8>) -> (r: Option<Vec<u8>>)
    ensures
        r is Some <==> zstd_ok(b@),
        r matches Some(o) ==> o@ == zstd_plain(b@),
{
    zstd::stream::decode_all(std::io::Cursor::new(b.as_slice())).ok()
}

/// Relies on xz's `XzDecoder` read to the end: whether decoding succeeds,
/// and what it yields, are functions of the compressed bytes alone.
#[verifier::external_body]
fn xz_decode(b: &Vec<u8>) -> (r: Option<Vec<u8>>)
    ensures
        r is Some <==> xz_ok(b@),
        r matches Some(o) ==> o@ == xz_plain(b@),
{
    let mut out = Vec::new();
    let mut dec = xz::read::XzDecoder::new(std::io::Cursor::new(b.as_slice()));
    std::io::Read::read_to_end(&mut dec, &mut out).ok()?;
    Some(out)
}

/// Relies on tar's `Archive`: one pass over the ustar records collecting
/// each record's path and link name, in record order; both are functions of
/// the bytes alone.
#[verifier::external_body]
fn tar_paths(b: &Vec<u8>) -> (r: Option<Vec<(String, String)>>)
    ensures
        r is Some <==> tar_paths_ok(b@),
        r matches Some(v) ==> v@.len() == tar_records(b@).len() && forall|k: int|
            0 <= k < v@.len() ==> (#[trigger] v@[k]).0@ == tar_records(b@)[k].path && v@[k].1@
                == tar_records(b@)[k].link,
{
    let mut out = Vec::new();
    for ent in tar::Archive::new(Cursor::new(b.as_slice())).entries().ok()? {
        let e = ent.ok()?;
        let path = e.path().ok()?.to_str()?.to_string();
        let link = match e.link_name().ok()? {
            Some(l) => l.to_str()?.to_string(),
            None => String::new(),
        };
        out.push((path, link));
    }
    Some(out)
}

/// Relies on tar's `Archive`: one pass over the ustar records collecting
/// each record's typeflag, mtime, uid, gid, mode and body bytes, in record
/// order; all are functions of the bytes alone.
#[verifier::external_body]
fn tar_fields(b: &Vec<u8>) -> (r: Option<Vec<(u8, u64, u32, u32, u32, Vec<u8>)>>)
    ensures
        r is Some <==> tar_fields_ok(b@),
        r matches Some(v) ==> v@.len() == tar_records(b@).len() && forall|k: int|
            0 <= k < v@.len() ==> {
                let e = tar_records(b@)[k];
                (#[trigger] v@[k]) == (e.typeflag, e.mtime, e.uid, e.gid, e.perm, v@[k].5)
                    && v@[k].5@ == e.body
            },
{
    let mut out = Vec::new();
    for ent in tar::Archive::new(Cursor::new(b.as_slice())).entries().ok()? {
        let mut e = ent.ok()?;
        let h = e.header();
        let row = (h.as_ustar()?.typeflag[0], h.mtime().ok()?, h.uid().ok()? as u32);
        let (gid, perm) = (h.gid().ok()? as u32, h.mode().ok()?);
        let mut body = Vec::new();
        e.read_to_end(&mut body).ok()?;
        out.push((row.0, row.1, row.2, gid, perm, body));
    }
    Some(out)
}

/// Decompresses an upstream archive according to its suffix.
///
/// `zst` and `xz` are the suffixes understood; any other is rejected as
/// unknown.  For a known suffix the result is fixed: the decompressed bytes
/// when the stream decodes, `Corrupt` exactly when it does not.
pub fn decompress_archive(bytes: &Vec<u8>, ext: &str) -> (r: Result<Vec<u8>, ArchiveError>)
    ensures
        match r {
            Ok(o) => (ext@ == "zst"@ && zstd_ok(bytes@) && o@ == zstd_plain(bytes@)) || (ext@
                == "xz"@ && xz_ok(bytes@) && o@ == xz_plain(bytes@)),
            Err(ArchiveError::UnknownSuffix) => ext@ != "zst"@ && ext@ != "xz"@,
            Err(ArchiveError::Corrupt) => (ext@ == "zst"@ && !zstd_ok(bytes@)) || (ext@ == "xz"@
                && !xz_ok(bytes@)),
        },
{
    if crate::text::str_eq(ext, "zst") {
        match zstd_decode(bytes) {
            Some(o) => Ok(o),
            None => Err(ArchiveError::Corrupt),
        }
    } else if crate::text::str_eq(ext, "xz") {
        match xz_decode(bytes) {
            Some(o) => Ok(o),
            None => Err(ArchiveError::Corrupt),
        }
    } else {
        Err(ArchiveError::UnknownSuffix)
    }
}

/// The ustar records of a byte stream; `Corrupt` exactly when either pass
/// over the stream fails.
///
/// Joins the two passes over the archive into one record list.
pub fn read_tar_entries(bytes: &Vec<u8>) -> (r: Result<Vec<TarEntry>, ArchiveError>)
    ensures
        match r {
            Ok(v) => tar_paths_ok(bytes@) && tar_fields_ok(bytes@) && entry_views(v@)
                == tar_records(bytes@),
            Err(e) => e == ArchiveError::Corrupt && (!tar_paths_ok(bytes@) || !tar_fields_ok(
                bytes@,
            )),
        },
{
    let paths = match tar_paths(bytes) {
        Some(v) => v,
        None => {
            return Err(ArchiveError::Corrupt);
        },
    };
    let fields = match tar_fields(bytes) {
        Some(v) => v,
        None => {
            return Err(ArchiveError::Corrupt);
        },
    };
    let n = paths.len();
    let mut out: Vec<TarEntry> = Vec::new();
    let mut k: usize = 0;
    while k < n
        invariant
            n == paths@.len(),
            paths@.len() == tar_records(bytes@).len(),
            fields@.len() == tar_records(bytes@).len(),
            forall|j: int|
                0 <= j < paths@.len() ==> (#[trigger] paths@[j]).0@ == tar_records(bytes@)[j].path
                    && paths@[j].1@ == tar_records(bytes@)[j].link,
            forall|j: int|
                0 <= j < fields@.len() ==> {
                    let e = tar_records(bytes@)[j];
                    (#[trigger] fields@[j]) == (e.typeflag, e.mtime, e.uid, e.gid, e.perm, fields@[j].5)
                        && fields@[j].5@ == e.body
                },
            0 <= k <= n,
            out@.len() == k,
            forall|j: int| 0 <= j < k ==> (#[trigger] out@[j])@ == tar_records(bytes@)[j],
        decreases n - k,
    {
        let row = &fields[k];
        let entry = TarEntry {
            path: paths[k].0.clone(),
            typeflag: row.0,
            mtime: row.1,
            uid: row.2,
            gid: row.3,
            perm: row.4,
            link: paths[k].1.clone(),
            body: vstd::slice::slice_to_vec(row.5.as_slice()),
        };
        proof {
            assert(entry@ == tar_records(bytes@)[k as int]);
        }
        out.push(entry);
        k = k + 1;
    }
    proof {
        assert(entry_views(out@) =~= tar_records(bytes@));
    }
    Ok(out)
}

} // verus!
