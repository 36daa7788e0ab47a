//! Archive reading and writing: entries are read in original order from the
//! packaged document, markup entries are filled, and every entry is written
//! back into a new package under its own name. The zip container work is
//! done by the `zip` crate behind trusted declarations.

use vstd::prelude::*;
use std::io::{Cursor, Read, Write};
use crate::engine::{replace_chars, replace_placeholders_in_xml};
use crate::error::TemplateError;
use crate::find::{is_match_at, match_at};
use crate::plan::binding_views;
use crate::text::str_to_chars;
use vstd::slice::slice_to_vec;
use vstd::utf8::{encode_utf8, decode_utf8, valid_utf8, encode_utf8_decode_utf8};

verus! {

/// One entry of the packaged document: its path-like name and its raw bytes.
#[derive(Debug)]
pub struct ArchiveEntry {
    pub name: String,
    pub content: Vec<u8>,
}

/// The names and contents of a vector of entries.
pub open spec fn entry_views(entries: Seq<ArchiveEntry>) -> Seq<(Seq<char>, Seq<u8>)> {
    entries.map_values(|e: ArchiveEntry| (e.name@, e.content@))
}

#[verifier::external_type_specification]
#[verifier::external_body]
#[verifier::reject_recursive_types(R)]
pub struct ExZipArchive<R>(zip::read::ZipArchive<R>);

/// The archive writer of the `zip` crate over an in-memory buffer. Verus
/// refuses to declare `ZipWriter` itself (its generic parameter carries
/// `Write + Seek` bounds), so the writer is held opaque in this struct.
#[verifier::external_body]
pub struct ArchiveWriter {
    inner: zip::write::ZipWriter<Cursor<Vec<u8>>>,
}

#[verifier::external_type_specification]
#[verifier::external_body]
#[verifier::reject_recursive_types(T)]
pub struct ExCursor<T>(Cursor<T>);

/// What the `zip` crate's reader makes of a byte buffer: `None` when the
/// container structure cannot be parsed, otherwise the entries in archive
/// order, each as its name and contents.
pub uninterp spec fn archive_parse(bytes: Seq<u8>) -> Option<Seq<(Seq<char>, Seq<u8>)>>;

/// The entries an open archive holds, in archive order.
pub uninterp spec fn entries_of(a: zip::read::ZipArchive<Cursor<Vec<u8>>>) -> Seq<
    (Seq<char>, Seq<u8>),
>;

/// The entries written to an archive writer so far, in order.
pub uninterp spec fn written_of(w: ArchiveWriter) -> Seq<(Seq<char>, Seq<u8>)>;

/// The byte buffer an open archive was parsed from.
pub uninterp spec fn source_bytes(a: zip::read::ZipArchive<Cursor<Vec<u8>>>) -> Seq<u8>;

/// Whether reading entry `i` of the archive parsed from `bytes` succeeds:
/// decompression of an in-memory entry is a function of the source bytes and
/// the index alone, so failure on corrupt entry data is the same on every
/// read.
pub uninterp spec fn entry_readable(bytes: Seq<u8>, i: int) -> bool;

/// Whether the writer, holding `prior` entries, accepts one more entry with
/// this name and content. With default options over an in-memory buffer the
/// outcome is a function of these values alone; the crate's source rejects a
/// duplicate name, a name whose encoding exceeds the name-length field, and
/// sizes beyond the plain 32-bit limits.
pub uninterp spec fn writer_accepts(
    prior: Seq<(Seq<char>, Seq<u8>)>,
    name: Seq<char>,
    content: Seq<u8>,
) -> bool;

/// Whether finishing a writer that holds exactly these entries succeeds.
pub uninterp spec fn writer_finishes(entries: Seq<(Seq<char>, Seq<u8>)>) -> bool;

/// The bytes the writer serializes these entries to. With the crate's clock
/// feature off, the default options carry a fixed timestamp, so the
/// serialization is a function of the entries alone.
pub uninterp spec fn zip_bytes_of(entries: Seq<(Seq<char>, Seq<u8>)>) -> Seq<u8>;

/// The writer accepts every entry of the sequence, each after the ones
/// before it.
pub open spec fn writer_accepts_all(entries: Seq<(Seq<char>, Seq<u8>)>) -> bool {
    forall|k: int|
        0 <= k < entries.len() ==> writer_accepts(
            entries.take(k),
            (#[trigger] entries[k]).0,
            entries[k].1,
        )
}

/// Relies on `zip::ZipArchive::new`: it parses the central directory of the
/// buffer and succeeds exactly when the buffer is a readable archive; an
/// `Io` error from the crate is kept apart from a malformed archive.
#[verifier::external_body]
fn zip_open(bytes: Vec<u8>) -> (r: Result<zip::read::ZipArchive<Cursor<Vec<u8>>>, TemplateError>)
    ensures
        (r is Ok) == (archive_parse(bytes@) is Some),
        r matches Ok(a) ==> entries_of(a) == archive_parse(bytes@)->Some_0,
        r matches Ok(a) ==> source_bytes(a) == bytes@,
        r matches Err(e) ==> (e is Format || e is Io),
{
    match zip::read::ZipArchive::new(Cursor::new(bytes)) {
        Ok(a) => Ok(a),
        Err(zip::result::ZipError::Io(_)) => Err(TemplateError::Io),
        Err(_) => Err(TemplateError::Format),
    }
}

/// Relies on `zip::ZipArchive::len`: the number of entries in the archive.
#[verifier::external_body]
fn zip_len(a: &zip::read::ZipArchive<Cursor<Vec<u8>>>) -> (n: usize)
    ensures
        n == entries_of(*a).len(),
{
    a.len()
}

/// Relies on `zip::ZipArchive::by_index`, `ZipFile::name` and
/// `Read::read_to_end`: reading entry `i` yields that entry's name and its
/// decompressed contents, and leaves the archive as it was; reading fails
/// exactly on corrupt entry data, the same way on every read of the same
/// buffer.
#[verifier::external_body]
fn zip_entry(a: &mut zip::read::ZipArchive<Cursor<Vec<u8>>>, i: usize) -> (r: Result<
    (String, Vec<u8>),
    TemplateError,
>)
    requires
        i < entries_of(*old(a)).len(),
    ensures
        entries_of(*final(a)) == entries_of(*old(a)),
        source_bytes(*final(a)) == source_bytes(*old(a)),
        (r is Ok) == entry_readable(source_bytes(*old(a)), i as int),
        r matches Ok(p) ==> p.0@ == entries_of(*old(a))[i as int].0 && p.1@ == entries_of(
            *old(a),
        )[i as int].1,
        r matches Err(e) ==> (e is Format || e is Io),
{
    let mut file = match a.by_index(i) {
        Ok(f) => f,
        Err(zip::result::ZipError::Io(_)) => return Err(TemplateError::Io),
        Err(_) => return Err(TemplateError::Format),
    };
    let name: String = file.name().to_string();
    let mut contents: Vec<u8> = Vec::new();
    match file.read_to_end(&mut contents) {
        Ok(_) => Ok((name, contents)),
        Err(_) => Err(TemplateError::Io),
    }
}

/// Relies on `zip::ZipWriter::new`: a fresh writer over an empty buffer has
/// written nothing.
#[verifier::external_body]
fn zip_writer_new() -> (w: ArchiveWriter)
    ensures
        written_of(w) == Seq::<(Seq<char>, Seq<u8>)>::empty(),
{
    ArchiveWriter { inner: zip::write::ZipWriter::new(Cursor::new(Vec::new())) }
}

/// Relies on `zip::ZipWriter::start_file` and `Write::write_all` with the
/// crate's default options: whether the writer takes the entry depends on
/// what it holds and on the entry alone, and on success exactly one more
/// entry with the given name and contents has been appended.
#[verifier::external_body]
fn zip_writer_add(w: &mut ArchiveWriter, name: &String, content: &Vec<u8>) -> (r: Result<
    (),
    TemplateError,
>)
    ensures
        (r is Ok) == writer_accepts(written_of(*old(w)), name@, content@),
        r is Ok ==> written_of(*final(w)) == written_of(*old(w)).push((name@, content@)),
        r matches Err(e) ==> (e is Format || e is Io),
{
    let options = zip::write::SimpleFileOptions::default();
    match w.inner.start_file(name.as_str(), options) {
        Ok(()) => {},
        Err(zip::result::ZipError::Io(_)) => return Err(TemplateError::Io),
        Err(_) => return Err(TemplateError::Format),
    }
    match w.inner.write_all(content.as_slice()) {
        Ok(()) => Ok(()),
        Err(_) => Err(TemplateError::Io),
    }
}

/// Relies on `zip::ZipWriter::finish`: whether it succeeds depends on the
/// written entries alone; the finished buffer is then their one
/// serialization, a valid archive that parses back to exactly the entries
/// written, in order.
#[verifier::external_body]
fn zip_writer_finish(w: ArchiveWriter) -> (r: Result<Vec<u8>, TemplateError>)
    ensures
        (r is Ok) == writer_finishes(written_of(w)),
        r matches Ok(b) ==> b@ == zip_bytes_of(written_of(w)),
        r matches Ok(b) ==> archive_parse(b@) == Some(written_of(w)),
        r matches Err(e) ==> (e is Format || e is Io),
{
    match w.inner.finish() {
        Ok(cursor) => Ok(cursor.into_inner()),
        Err(zip::result::ZipError::Io(_)) => Err(TemplateError::Io),
        Err(_) => Err(TemplateError::Format),
    }
}

/// Relies on `String::from_utf8`: it succeeds exactly on valid UTF-8 input,
/// and the returned string's characters encode back to the given bytes.
#[verifier::external_body]
fn decode_entry_text(bytes: &Vec<u8>) -> (r: Option<String>)
    ensures
        (r is Some) == valid_utf8(bytes@),
        r matches Some(s) ==> encode_utf8(s@) == bytes@,
{
    match String::from_utf8(bytes.clone()) {
        Ok(s) => Some(s),
        Err(_) => None,
    }
}

/// The suffix of a markup-document part name.
pub open spec fn xml_suffix() -> Seq<char> {
    seq!['.', 'x', 'm', 'l']
}

/// The suffix of a relationships part name.
pub open spec fn rels_suffix() -> Seq<char> {
    seq!['.', 'r', 'e', 'l', 's']
}

/// An entry is subject to substitution exactly when its name ends with the
/// markup-document suffix or the relationships suffix.
pub open spec fn is_markup_name(name: Seq<char>) -> bool {
    ends_with(name, xml_suffix()) || ends_with(name, rels_suffix())
}

/// `s` ends with the characters of `suf`.
pub open spec fn ends_with(s: Seq<char>, suf: Seq<char>) -> bool {
    s.len() >= suf.len() && s.subrange(s.len() - suf.len(), s.len() as int) == suf
}

/// Compares the tail of `v` against `suf`.
fn ends_with_chars(v: &Vec<char>, suf: &Vec<char>) -> (r: bool)
    ensures
        r == ends_with(v@, suf@),
{
    if suf.len() > v.len() {
        return false;
    }
    let at: usize = v.len() - suf.len();
    let r = is_match_at(v, suf, at);
    proof {
        assert(match_at(v@, suf@, at as int) == ends_with(v@, suf@));
    }
    r
}

/// Whether this entry name belongs to a markup or relationships part.
pub fn is_markup_entry_name(name: &String) -> (r: bool)
    ensures
        r == is_markup_name(name@),
{
    let chars = str_to_chars(name.as_str());
    let xml_pat: Vec<char> = vec!['.', 'x', 'm', 'l'];
    let rels_pat: Vec<char> = vec!['.', 'r', 'e', 'l', 's'];
    proof {
        assert(xml_pat@ =~= xml_suffix());
        assert(rels_pat@ =~= rels_suffix());
    }
    ends_with_chars(&chars, &xml_pat) || ends_with_chars(&chars, &rels_pat)
}

/// What filling does to one entry: a non-markup entry passes through
/// byte-identical; a markup entry must decode as UTF-8 and is then rewritten
/// by the substitution engine.
pub open spec fn entry_fills(e: (Seq<char>, Seq<u8>), binds: Seq<(Seq<char>, Seq<char>)>) -> Option<
    Seq<u8>,
> {
    if !is_markup_name(e.0) {
        Some(e.1)
    } else if !valid_utf8(e.1) {
        None
    } else {
        Some(encode_utf8(replace_chars(decode_utf8(e.1), binds)))
    }
}

/// Every markup entry of the sequence decodes as UTF-8.
pub open spec fn all_fill(entries: Seq<(Seq<char>, Seq<u8>)>, binds: Seq<(Seq<char>, Seq<char>)>) -> bool {
    forall|i: int| 0 <= i < entries.len() ==> (#[trigger] entry_fills(entries[i], binds)) is Some
}

/// The filled entries: each keeps its name and place; only markup contents
/// change, and exactly as the substitution engine says.
pub open spec fn fill_all(
    entries: Seq<(Seq<char>, Seq<u8>)>,
    binds: Seq<(Seq<char>, Seq<char>)>,
) -> Seq<(Seq<char>, Seq<u8>)> {
    Seq::new(entries.len(), |i: int| (entries[i].0, entry_fills(entries[i], binds)->Some_0))
}

/// Fills every entry, or reports the first markup entry whose bytes are not
/// valid text.
pub fn fill_entries(mut entries: Vec<ArchiveEntry>, replacements: &Vec<(String, String)>) -> (r:
    Result<Vec<ArchiveEntry>, TemplateError>)
    ensures
        (r is Ok) == all_fill(entry_views(entries@), binding_views(replacements@)),
        r matches Ok(out) ==> entry_views(out@) == fill_all(
            entry_views(entries@),
            binding_views(replacements@),
        ),
        r matches Err(e) ==> e is Encoding,
{
    let ghost orig = entry_views(entries@);
    let ghost binds = binding_views(replacements@);
    let total: usize = entries.len();
    let mut out: Vec<ArchiveEntry> = Vec::new();
    let mut failed = false;
    let mut k: usize = 0;
    while entries.len() > 0 && !failed
        invariant
            total == orig.len(),
            binds == binding_views(replacements@),
            failed ==> !all_fill(orig, binds),
            !failed ==> {
                &&& k + entries@.len() == orig.len()
                &&& entry_views(entries@) == orig.skip(k as int)
                &&& out@.len() == k
                &&& forall|i: int|
                    0 <= i < k ==> {
                        &&& (#[trigger] entry_fills(orig[i], binds)) is Some
                        &&& entry_views(out@)[i] == (
                            orig[i].0,
                            entry_fills(orig[i], binds)->Some_0,
                        )
                    }
            },
        decreases entries@.len() + (if failed { 0int } else { 1int }),
    {
        let ghost before = entries@;
        let e = entries.remove(0);
        proof {
            assert(entry_views(before)[0] == (e.name@, e.content@));
            assert(entry_views(before)[0] == orig.skip(k as int)[0]);
            assert(orig.skip(k as int)[0] == orig[k as int]);
            assert forall|i: int| 0 <= i < entries@.len() implies entry_views(entries@)[i]
                == orig.skip(k + 1)[i] by {
                assert(entries@[i] == before[i + 1]);
                assert(entry_views(before)[i + 1] == orig.skip(k as int)[i + 1]);
            }
            assert(entry_views(entries@) =~= orig.skip(k + 1));
        }
        let ghost prev_out = out@;
        if is_markup_entry_name(&e.name) {
            match decode_entry_text(&e.content) {
                Option::Some(decoded) => {
                    let replaced = replace_placeholders_in_xml(decoded.as_str(), replacements);
                    let new_content = replaced.as_str().as_bytes_vec();
                    proof {
                        encode_utf8_decode_utf8(decoded@);
                        assert(decode_utf8(e.content@) == decoded@);
                        assert(new_content@ == encode_utf8(
                            replace_chars(decode_utf8(e.content@), binds),
                        ));
                    }
                    out.push(ArchiveEntry { name: e.name, content: new_content });
                },
                Option::None => {
                    proof {
                        assert(entry_fills(orig[k as int], binds) is None);
                    }
                    failed = true;
                },
            }
        } else {
            out.push(e);
        }
        if !failed {
            proof {
                assert forall|i: int| 0 <= i < k + 1 implies entry_views(out@)[i] == (
                    orig[i].0,
                    entry_fills(orig[i], binds)->Some_0,
                ) && (#[trigger] entry_fills(orig[i], binds)) is Some by {
                    if i < k {
                        assert(out@[i] == prev_out[i]);
                        assert(entry_views(prev_out)[i] == (
                            orig[i].0,
                            entry_fills(orig[i], binds)->Some_0,
                        ));
                    }
                }
            }
            k = k + 1;
        }
    }
    if failed {
        return Err(TemplateError::Encoding);
    }
    proof {
        assert(entry_views(out@) =~= fill_all(orig, binds));
    }
    Ok(out)
}

/// Fills the placeholders of a packaged document held in memory: the entries
/// are read in order, markup entries are rewritten, and everything is put
/// back into a new archive that holds the same entry names in the same
/// order. Success is owed whenever the source parses, every entry is
/// readable, every markup entry decodes as text, and the writer takes every
/// filled entry; the output is then the writer's one serialization of the
/// filled entries and parses back to exactly them.
pub fn build_docx_bytes(template_bytes: &[u8], replacements: &Vec<(String, String)>) -> (r: Result<
    Vec<u8>,
    TemplateError,
>)
    ensures
        archive_parse(template_bytes@) is None ==> r is Err,
        archive_parse(template_bytes@) matches Some(es) && !all_fill(
            es,
            binding_views(replacements@),
        ) ==> r is Err,
        r matches Ok(out) ==> {
            &&& archive_parse(template_bytes@) is Some
            &&& all_fill(archive_parse(template_bytes@)->Some_0, binding_views(replacements@))
            &&& out@ == zip_bytes_of(
                fill_all(archive_parse(template_bytes@)->Some_0, binding_views(replacements@)),
            )
            &&& archive_parse(out@) == Some(
                fill_all(archive_parse(template_bytes@)->Some_0, binding_views(replacements@)),
            )
        },
        ({
            let es = archive_parse(template_bytes@)->Some_0;
            let filled = fill_all(es, binding_views(replacements@));
            &&& archive_parse(template_bytes@) is Some
            &&& forall|j: int|
                0 <= j < es.len() ==> #[trigger] entry_readable(template_bytes@, j)
            &&& all_fill(es, binding_views(replacements@))
            &&& writer_accepts_all(filled)
            &&& writer_finishes(filled)
        }) ==> r is Ok,
        r matches Err(e) ==> (e is Encoding ==> {
            &&& archive_parse(template_bytes@) is Some
            &&& !all_fill(archive_parse(template_bytes@)->Some_0, binding_views(replacements@))
        }),
{
    let ghost binds = binding_views(replacements@);
    let bytes = slice_to_vec(template_bytes);
    let mut archive = match zip_open(bytes) {
        Result::Ok(a) => a,
        Result::Err(e) => {
            return Err(e);
        },
    };
    let ghost parsed = archive_parse(template_bytes@)->Some_0;
    let n = zip_len(&archive);
    let mut entries: Vec<ArchiveEntry> = Vec::new();
    let mut i: usize = 0;
    while i < n
        invariant
            0 <= i <= n,
            archive_parse(template_bytes@) == Some(parsed),
            entries_of(archive) == parsed,
            source_bytes(archive) == template_bytes@,
            n == parsed.len(),
            entries@.len() == i,
            forall|j: int| 0 <= j < i ==> #[trigger] entry_views(entries@)[j] == parsed[j],
        decreases n - i,
    {
        let ghost prev = entries@;
        match zip_entry(&mut archive, i) {
            Result::Ok(p) => {
                entries.push(ArchiveEntry { name: p.0, content: p.1 });
                proof {
                    assert forall|j: int| 0 <= j < i + 1 implies #[trigger] entry_views(
                        entries@,
                    )[j] == parsed[j] by {
                        if j < i {
                            assert(entries@[j] == prev[j]);
                            assert(entry_views(prev)[j] == parsed[j]);
                        }
                    }
                }
            },
            Result::Err(e) => {
                proof {
                    assert(!entry_readable(template_bytes@, i as int));
                }
                return Err(e);
            },
        }
        i = i + 1;
    }
    proof {
        assert(entry_views(entries@) =~= parsed);
    }
    let filled = match fill_entries(entries, replacements) {
        Result::Ok(f) => f,
        Result::Err(e) => {
            return Err(e);
        },
    };
    let ghost outviews = fill_all(parsed, binds);
    let mut writer = zip_writer_new();
    let m: usize = filled.len();
    let mut k: usize = 0;
    while k < m
        invariant
            0 <= k <= m,
            m == filled@.len(),
            archive_parse(template_bytes@) == Some(parsed),
            binds == binding_views(replacements@),
            outviews == fill_all(parsed, binds),
            entry_views(filled@) == outviews,
            written_of(writer) == outviews.take(k as int),
        decreases m - k,
    {
        let entry = &filled[k];
        proof {
            assert(entry_views(filled@)[k as int] == (entry.name@, entry.content@));
        }
        match zip_writer_add(&mut writer, &entry.name, &entry.content) {
            Result::Ok(()) => {
                proof {
                    assert(outviews.take(k as int).push(outviews[k as int]) =~= outviews.take(
                        k + 1,
                    ));
                }
            },
            Result::Err(e) => {
                proof {
                    assert(!writer_accepts(
                        outviews.take(k as int),
                        outviews[k as int].0,
                        outviews[k as int].1,
                    ));
                    assert(!writer_accepts_all(outviews));
                }
                return Err(e);
            },
        }
        k = k + 1;
    }
    proof {
        assert(outviews.take(m as int) =~= outviews);
    }
    zip_writer_finish(writer)
}

/// An entry whose name is not a markup or relationships part passes through
/// with its bytes identical to the input's.
pub proof fn lemma_non_markup_passthrough(
    e: (Seq<char>, Seq<u8>),
    binds: Seq<(Seq<char>, Seq<char>)>,
)
    requires
        !is_markup_name(e.0),
    ensures
        entry_fills(e, binds) == Some(e.1),
{
}

/// With no bindings at all, an entry that fills fills to its own bytes; a
/// fill fails only on a markup entry whose bytes are not valid text.
pub proof fn lemma_no_bindings_entry_identity(
    e: (Seq<char>, Seq<u8>),
    binds: Seq<(Seq<char>, Seq<char>)>,
)
    requires
        binds.len() == 0,
    ensures
        entry_fills(e, binds) matches Some(c) ==> c == e.1,
        entry_fills(e, binds) is None <==> (is_markup_name(e.0) && !valid_utf8(e.1)),
{
    if is_markup_name(e.0) && valid_utf8(e.1) {
        crate::engine::lemma_no_bindings_is_identity(decode_utf8(e.1), binds);
        vstd::utf8::decode_utf8_encode_utf8(e.1);
    }
}

/// With no bindings at all, the output entries are byte-identical to the
/// input entries.
pub proof fn lemma_no_bindings_archive_identity(
    entries: Seq<(Seq<char>, Seq<u8>)>,
    binds: Seq<(Seq<char>, Seq<char>)>,
)
    requires
        binds.len() == 0,
        all_fill(entries, binds),
    ensures
        fill_all(entries, binds) == entries,
{
    assert forall|i: int| 0 <= i < entries.len() implies fill_all(entries, binds)[i]
        == entries[i] by {
        lemma_no_bindings_entry_identity(entries[i], binds);
    }
    assert(fill_all(entries, binds) =~= entries);
}

/// Filling keeps the archive's shape: the same number of entries, under the
/// same names, in the same order.
pub proof fn lemma_fill_preserves_names(
    entries: Seq<(Seq<char>, Seq<u8>)>,
    binds: Seq<(Seq<char>, Seq<char>)>,
)
    ensures
        fill_all(entries, binds).len() == entries.len(),
        forall|i: int|
            0 <= i < entries.len() ==> (#[trigger] fill_all(entries, binds)[i]).0 == entries[i].0,
{
}

} // verus!
