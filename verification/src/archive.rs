//! Bundling recordings into one ZIP archive: one entry per recording, in
//! the given order, named exactly the recording's name and holding its raw
//! CSV bytes. Bundling aborts on the first failure — a member whose content
//! could not be retrieved, or a failed archive write — and returns no
//! partial archive; on members with retrievable contents, distinct names
//! and sizes within the format's limits it succeeds.

use crate::errors::RecorderError;
use std::io::Write;
use vstd::prelude::*;

verus! {

/// A recording to be bundled: its name, and its content if the provider
/// could retrieve it (`None` where the file vanished between listing and
/// read).
pub struct RecordingFile {
    pub name: String,
    pub content: Option<Vec<u8>>,
}

/// The (name, bytes) view of one recording whose content was retrieved.
pub open spec fn entry_view(f: RecordingFile) -> (Seq<char>, Seq<u8>) {
    match f.content {
        Option::Some(v) => (f.name@, v@),
        Option::None => (f.name@, Seq::empty()),
    }
}

/// The (name, bytes) views of a whole recording sequence.
pub open spec fn entries_view(s: Seq<RecordingFile>) -> Seq<(Seq<char>, Seq<u8>)> {
    s.map_values(|f: RecordingFile| entry_view(f))
}

/// No two recordings share a name.
pub open spec fn distinct_names(s: Seq<RecordingFile>) -> bool {
    forall|i: int, j: int| 0 <= i < j < s.len() ==> s[i].name@ != s[j].name@
}

/// Every member fits the archive format: its name encodes to at most the
/// format's name-length field, and its content stays below the plain
/// (non-zip64) size threshold.
pub open spec fn within_zip_limits(s: Seq<RecordingFile>) -> bool {
    forall|i: int|
        0 <= i < s.len() ==> vstd::utf8::encode_utf8((#[trigger] s[i]).name@).len() <= 65535
            && entry_view(s[i]).1.len() <= 0xFFFF_FFFF
}

/// An opaque holder for the zip crate's archive writer over an in-memory
/// cursor, so that verified code can carry it between calls.
#[verifier::external_body]
pub struct ZipSink {
    inner: zip::ZipWriter<std::io::Cursor<Vec<u8>>>,
}

/// The entries started in the archive so far: for each, its name and the
/// bytes written to it.
pub uninterp spec fn zip_entries(w: ZipSink) -> Seq<(Seq<char>, Seq<u8>)>;

/// Whether the most recently started entry is still open for writing
/// (a `start_file` succeeded and neither another start nor a finish has
/// closed it).
pub uninterp spec fn zip_entry_open(w: ZipSink) -> bool;

/// The finished archive for a sequence of entries. Names what
/// `ZipWriter::finish` returns: in this build the zip crate has no time
/// support, so the default entry options carry the constant 1980-01-01
/// modification stamp and stored compression, and the archive bytes are a
/// function of the entry names and contents alone.
pub uninterp spec fn zip_archive_bytes(entries: Seq<(Seq<char>, Seq<u8>)>) -> Seq<u8>;

/// Relies on zip::ZipWriter::new: a fresh archive holds no entries.
#[verifier::external_body]
fn zip_writer_new() -> (w: ZipSink)
    ensures
        zip_entries(w) == Seq::<(Seq<char>, Seq<u8>)>::empty(),
{
    ZipSink { inner: zip::ZipWriter::new(std::io::Cursor::new(Vec::new())) }
}

/// Relies on zip::ZipWriter::start_file with default options: on success a
/// new, empty entry named exactly `name` stands open after the entries
/// already started. Into an in-memory cursor it fails only for a name
/// already in the archive (names are compared by their UTF-8 bytes, and
/// UTF-8 is injective) or a name whose UTF-8 encoding overflows the
/// format's 16-bit name-length field.
#[verifier::external_body]
fn zip_start_entry(w: &mut ZipSink, name: &str) -> (r: Result<(), RecorderError>)
    ensures
        match r {
            Result::Ok(u) => zip_entries(*final(w)) == zip_entries(*old(w)).push(
                (name@, Seq::<u8>::empty()),
            ) && zip_entry_open(*final(w)),
            Result::Err(e) => e == RecorderError::Archive && !((forall|k: int|
                0 <= k < zip_entries(*old(w)).len() ==> (#[trigger] zip_entries(*old(w))[k]).0
                    != name@) && vstd::utf8::encode_utf8(name@).len() <= 65535),
        },
{
    match w.inner.start_file(name, zip::write::SimpleFileOptions::default()) {
        Ok(()) => Ok(()),
        Err(_) => Err(RecorderError::Archive),
    }
}

/// Relies on the `std::io::Write` impl of zip::ZipWriter: `write_all`
/// appends the bytes to the open entry. Into an in-memory cursor it fails
/// only when the entry's total size would cross the plain (non-zip64)
/// threshold with the large-file option unset.
#[verifier::external_body]
fn zip_write_entry(w: &mut ZipSink, data: &Vec<u8>) -> (r: Result<(), RecorderError>)
    requires
        zip_entry_open(*old(w)),
        zip_entries(*old(w)).len() >= 1,
    ensures
        match r {
            Result::Ok(u) => zip_entries(*final(w)) == zip_entries(*old(w)).update(
                zip_entries(*old(w)).len() - 1,
                (zip_entries(*old(w)).last().0, zip_entries(*old(w)).last().1 + data@),
            ) && zip_entry_open(*final(w)),
            Result::Err(e) => e == RecorderError::Archive && zip_entries(*old(w)).last().1.len()
                + data@.len() > 0xFFFF_FFFF,
        },
{
    match w.inner.write_all(data.as_slice()) {
        Ok(()) => Ok(()),
        Err(_) => Err(RecorderError::Archive),
    }
}

/// Relies on zip::ZipWriter::finish: writes the central directory into the
/// in-memory cursor and hands it back. With stored, unencrypted entries
/// and an in-memory sink every underlying write is infallible, so
/// finishing cannot fail.
#[verifier::external_body]
fn zip_finish(w: ZipSink) -> (r: Vec<u8>)
    ensures
        r@ == zip_archive_bytes(zip_entries(w)),
{
    w.inner.finish().unwrap().into_inner()
}

/// Bundle the named CSV buffers into one ZIP archive: one entry per
/// recording, in the given order, named exactly the recording's name and
/// holding its raw bytes. If any member's content is missing — the
/// provider failed for it — or any archive write fails, the whole bundling
/// aborts with `Archive`: no partial archive is ever returned. When every
/// content was retrieved, the names are distinct and every member is
/// within the format's limits, bundling succeeds.
pub fn bundle_to_zip(files: &Vec<RecordingFile>) -> (r: Result<Vec<u8>, RecorderError>)
    ensures
        (exists|i: int| 0 <= i < files@.len() && files@[i].content is None) ==> r is Err,
        ((forall|i: int| 0 <= i < files@.len() ==> files@[i].content is Some) && distinct_names(
            files@,
        ) && within_zip_limits(files@)) ==> r is Ok,
        match r {
            Result::Ok(bytes) => (forall|i: int|
                0 <= i < files@.len() ==> files@[i].content is Some) && bytes@
                == zip_archive_bytes(entries_view(files@)),
            Result::Err(e) => e == RecorderError::Archive,
        },
{
    let mut i: usize = 0;
    while i < files.len()
        invariant
            0 <= i <= files@.len(),
            forall|k: int| 0 <= k < i ==> files@[k].content is Some,
        decreases files@.len() - i,
    {
        if files[i].content.is_none() {
            return Err(RecorderError::Archive);
        }
        i = i + 1;
    }
    let mut w = zip_writer_new();
    let mut j: usize = 0;
    proof {
        assert(entries_view(files@.take(0)) =~= Seq::<(Seq<char>, Seq<u8>)>::empty());
    }
    while j < files.len()
        invariant
            0 <= j <= files@.len(),
            forall|k: int| 0 <= k < files@.len() ==> files@[k].content is Some,
            zip_entries(w) == entries_view(files@.take(j as int)),
        decreases files@.len() - j,
    {
        let f = &files[j];
        let ghost pre = zip_entries(w);
        proof {
            assert forall|k: int| 0 <= k < pre.len() implies (#[trigger] pre[k]).0
                == files@[k].name@ by {
                assert(pre[k] == entry_view(files@.take(j as int)[k]));
            }
        }
        if zip_start_entry(&mut w, f.name.as_str()).is_err() {
            proof {
                if (forall|i2: int| 0 <= i2 < files@.len() ==> files@[i2].content is Some)
                    && distinct_names(files@) && within_zip_limits(files@) {
                    assert forall|k: int| 0 <= k < pre.len() implies (#[trigger] pre[k]).0
                        != f.name@ by {
                        assert(files@[k].name@ != files@[j as int].name@);
                    }
                    assert(vstd::utf8::encode_utf8(files@[j as int].name@).len() <= 65535);
                    assert(false);
                }
            }
            return Err(RecorderError::Archive);
        }
        let ghost started = zip_entries(w);
        let data = match &f.content {
            Option::Some(d) => d,
            Option::None => {
                proof {
                    assert(files@[j as int].content is Some);
                }
                return Err(RecorderError::Archive);
            },
        };
        proof {
            assert(started == pre.push((f.name@, Seq::<u8>::empty())));
            assert(started.len() >= 1);
            assert(started.last() == (f.name@, Seq::<u8>::empty()));
        }
        if zip_write_entry(&mut w, data).is_err() {
            proof {
                if (forall|i2: int| 0 <= i2 < files@.len() ==> files@[i2].content is Some)
                    && distinct_names(files@) && within_zip_limits(files@) {
                    assert(entry_view(files@[j as int]).1 == data@);
                    assert(started.last().1.len() + data@.len() <= 0xFFFF_FFFF);
                    assert(false);
                }
            }
            return Err(RecorderError::Archive);
        }
        proof {
            let prev = entries_view(files@.take(j as int));
            let nf = files@[j as int];
            assert(Seq::<u8>::empty() + data@ =~= data@);
            assert(zip_entries(w) == started.update(
                started.len() - 1,
                (nf.name@, data@),
            ));
            assert(entry_view(nf) == (nf.name@, data@));
            assert(zip_entries(w) =~= prev.push(entry_view(nf)));
            assert(files@.take(j + 1 as int) =~= files@.take(j as int).push(nf));
            assert(entries_view(files@.take(j + 1 as int)) =~= prev.push(entry_view(nf)));
        }
        j = j + 1;
    }
    proof {
        assert(files@.take(files@.len() as int) =~= files@);
    }
    Ok(zip_finish(w))
}

} // verus!
