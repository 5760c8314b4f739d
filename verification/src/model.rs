//! The document model: an archive accessor owning the opened package, the
//! in-memory projection of the mutable parts, text replacement in the main
//! content, and the rewrite that rebuilds the package entry-by-entry.
use vstd::prelude::*;
use std::io::Cursor;

use crate::DocxError;
use crate::text::bytes_eq;
use crate::text::contains_bytes;
use crate::text::contains_sub;
use crate::text::encode;
use crate::text::encode_spec;
use crate::text::has_prefix;
use crate::text::match_at;
use crate::text::replace_bytes;
use crate::text::replace_limited;
use crate::ziparc::archive_len;
use crate::ziparc::check_utf8;
use crate::ziparc::fixed_storage;
use crate::ziparc::utf8_ok;
use crate::ziparc::writer_fixed_storage;
use crate::ziparc::writer_open;
use crate::ziparc::zip_data_ok;
use crate::ziparc::zip_name_ok;
use crate::ziparc::zip_source;
use crate::ziparc::entry_data_at;
use crate::ziparc::entry_name_at;
use crate::ziparc::finish_archive;
use crate::ziparc::names_unique;
use crate::ziparc::open_archive;
use crate::ziparc::start_entry;
use crate::ziparc::append_entry_data;
use crate::ziparc::writer_entries;
use crate::ziparc::writer_new;
use crate::ziparc::zip_entries;
use crate::ziparc::zip_parse;

verus! {

/// The logical name of the main document entry, `"word/document.xml"`.
pub open spec fn doc_name() -> Seq<u8> {
    seq![119u8, 111u8, 114u8, 100u8, 47u8, 100u8, 111u8, 99u8, 117u8, 109u8, 101u8, 110u8, 116u8, 46u8, 120u8, 109u8, 108u8]
}

/// The logical name of the relationship manifest, `"word/_rels/document.xml.rels"`.
pub open spec fn rels_name() -> Seq<u8> {
    seq![119u8, 111u8, 114u8, 100u8, 47u8, 95u8, 114u8, 101u8, 108u8, 115u8, 47u8, 100u8, 111u8, 99u8, 117u8, 109u8, 101u8, 110u8, 116u8, 46u8, 120u8, 109u8, 108u8, 46u8, 114u8, 101u8, 108u8, 115u8]
}

/// The substring that marks a header part, `"header"`.
pub open spec fn header_pat() -> Seq<u8> {
    seq![104u8, 101u8, 97u8, 100u8, 101u8, 114u8]
}

/// The substring that marks a footer part, `"footer"`.
pub open spec fn footer_pat() -> Seq<u8> {
    seq![102u8, 111u8, 111u8, 116u8, 101u8, 114u8]
}

/// The media folder prefix, `"word/media/"`.
pub open spec fn media_prefix() -> Seq<u8> {
    seq![119u8, 111u8, 114u8, 100u8, 47u8, 109u8, 101u8, 100u8, 105u8, 97u8, 47u8]
}

fn lit_doc_name() -> (r: Vec<u8>)
    ensures
        r@ == doc_name(),
{
    let r: Vec<u8> = vec![
        119u8, 111u8, 114u8, 100u8, 47u8, 100u8, 111u8, 99u8, 117u8, 109u8, 101u8, 110u8, 116u8,
        46u8, 120u8, 109u8, 108u8,
    ];
    proof {
        assert(r@ =~= doc_name());
    }
    r
}

fn lit_rels_name() -> (r: Vec<u8>)
    ensures
        r@ == rels_name(),
{
    let r: Vec<u8> = vec![
        119u8, 111u8, 114u8, 100u8, 47u8, 95u8, 114u8, 101u8, 108u8, 115u8, 47u8, 100u8, 111u8,
        99u8, 117u8, 109u8, 101u8, 110u8, 116u8, 46u8, 120u8, 109u8, 108u8, 46u8, 114u8, 101u8,
        108u8, 115u8,
    ];
    proof {
        assert(r@ =~= rels_name());
    }
    r
}

fn lit_header_pat() -> (r: Vec<u8>)
    ensures
        r@ == header_pat(),
{
    let r: Vec<u8> = vec![104u8, 101u8, 97u8, 100u8, 101u8, 114u8];
    proof {
        assert(r@ =~= header_pat());
    }
    r
}

fn lit_footer_pat() -> (r: Vec<u8>)
    ensures
        r@ == footer_pat(),
{
    let r: Vec<u8> = vec![102u8, 111u8, 111u8, 116u8, 101u8, 114u8];
    proof {
        assert(r@ =~= footer_pat());
    }
    r
}

fn lit_media_prefix() -> (r: Vec<u8>)
    ensures
        r@ == media_prefix(),
{
    let r: Vec<u8> = vec![119u8, 111u8, 114u8, 100u8, 47u8, 109u8, 101u8, 100u8, 105u8, 97u8, 47u8];
    proof {
        assert(r@ =~= media_prefix());
    }
    r
}

/// Content of the first entry with the given name, if any.
pub open spec fn lookup(es: Seq<(Seq<u8>, Seq<u8>)>, name: Seq<u8>) -> Option<Seq<u8>>
    decreases es.len(),
{
    if es.len() == 0 {
        None
    } else if es[0].0 == name {
        Some(es[0].1)
    } else {
        lookup(es.skip(1), name)
    }
}

/// Scanning step for `lookup`: the first hit at or after `i` either is `i`
/// itself or lies beyond it.
proof fn lemma_lookup_step(es: Seq<(Seq<u8>, Seq<u8>)>, name: Seq<u8>, i: int)
    requires
        0 <= i < es.len(),
    ensures
        es[i].0 == name ==> lookup(es.skip(i), name) == Some(es[i].1),
        es[i].0 != name ==> lookup(es.skip(i), name) == lookup(es.skip(i + 1), name),
{
    assert(es.skip(i).len() == es.len() - i);
    assert(es.skip(i)[0] == es[i]);
    assert(es.skip(i).skip(1) =~= es.skip(i + 1));
}

/// A named part held in memory.
pub struct Part {
    pub name: Vec<u8>,
    pub text: Vec<u8>,
}

/// The mathematical content of a list of parts.
pub open spec fn parts_view(s: Seq<Part>) -> Seq<(Seq<u8>, Seq<u8>)> {
    s.map_values(|p: Part| (p.name@, p.text@))
}

/// The mathematical content of a list of entry names.
pub open spec fn names_view(s: Seq<Vec<u8>>) -> Seq<Seq<u8>> {
    s.map_values(|n: Vec<u8>| n@)
}

/// The entries whose name contains the given substring, in archive order.
pub open spec fn matching_parts(es: Seq<(Seq<u8>, Seq<u8>)>, pat: Seq<u8>) -> Seq<(Seq<u8>, Seq<u8>)> {
    es.filter(|e: (Seq<u8>, Seq<u8>)| contains_sub(e.0, pat))
}

/// The entry names carrying the media folder prefix, in archive order.
pub open spec fn media_names(es: Seq<(Seq<u8>, Seq<u8>)>) -> Seq<Seq<u8>> {
    es.map_values(|e: (Seq<u8>, Seq<u8>)| e.0).filter(|n: Seq<u8>| match_at(n, media_prefix(), 0))
}

/// Both required parts are present.
pub open spec fn required_parts_present(es: Seq<(Seq<u8>, Seq<u8>)>) -> bool {
    lookup(es, doc_name()) is Some && lookup(es, rels_name()) is Some
}

/// Every entry name of the package can be read.
pub open spec fn names_ok(bytes: Seq<u8>, n: int) -> bool {
    forall|i: int| 0 <= i < n ==> zip_name_ok(bytes, i)
}

/// Whether the load keeps an entry of this name in memory.
pub open spec fn tracked_name(n: Seq<u8>) -> bool {
    n == doc_name() || n == rels_name() || contains_sub(n, header_pat()) || contains_sub(
        n,
        footer_pat(),
    )
}

/// Every entry name can be read, and every entry the model would keep can be
/// read in full and holds UTF-8 text.
pub open spec fn parts_readable(bytes: Seq<u8>, es: Seq<(Seq<u8>, Seq<u8>)>) -> bool {
    &&& names_ok(bytes, es.len() as int)
    &&& forall|i: int|
        0 <= i < es.len() && tracked_name((#[trigger] es[i]).0) ==> zip_data_ok(bytes, i)
            && utf8_ok(es[i].1)
}

/// Exactly when loading the package succeeds: its names are unique, both
/// required parts are present, and the parts the model keeps are readable
/// UTF-8 text.
pub open spec fn load_ok(bytes: Seq<u8>, es: Seq<(Seq<u8>, Seq<u8>)>) -> bool {
    &&& names_unique(es)
    &&& required_parts_present(es)
    &&& parts_readable(bytes, es)
}

/// Every entry of the package these bytes hold, up to index `n`, can be
/// opened, named and fully read back.
pub open spec fn output_readable(bytes: Seq<u8>, n: int) -> bool {
    names_ok(bytes, n) && forall|i: int| 0 <= i < n ==> zip_data_ok(bytes, i)
}

/// A condition under which the rewrite is owed success: every entry's name
/// and content can be read back from the source, no name passes the format's
/// plain 16-bit length field, and no emitted content passes the plain 32-bit
/// size field.
pub open spec fn write_ok(m: ModelView, src: Seq<u8>) -> bool {
    &&& names_ok(src, m.entries.len() as int)
    &&& forall|i: int| 0 <= i < m.entries.len() ==> zip_data_ok(src, i)
    &&& forall|i: int| 0 <= i < m.entries.len() ==> (#[trigger] m.entries[i]).0.len() <= 0xFFFF
    &&& forall|i: int|
        0 <= i < m.entries.len() ==> chosen_content(m, (#[trigger] m.entries[i]).0,
            m.entries[i].1).len() <= 0xFFFF_FFFF
}

/// The archive accessor: owns the opened package and grants sequential access
/// to its entries.
pub struct DocZipData {
    data: zip::read::ZipArchive<Cursor<Vec<u8>>>,
}

impl DocZipData {
    /// The entries of the archive this accessor holds.
    pub closed spec fn entries(self) -> Seq<(Seq<u8>, Seq<u8>)> {
        zip_entries(self.data)
    }

    /// The bytes this accessor's archive was opened from.
    pub closed spec fn source(self) -> Seq<u8> {
        zip_source(self.data)
    }

    /// Open an in-memory package.
    pub fn from_bytes(data: Vec<u8>) -> (r: Result<DocZipData, DocxError>)
        ensures
            match r {
                Ok(d) => zip_parse(data@) == Some(d.entries()) && d.source() == data@,
                Err(e) => e == DocxError::ArchiveFormat && zip_parse(data@) is None,
            },
    {
        match open_archive(data) {
            Ok(a) => Ok(DocZipData { data: a }),
            Err(_) => Err(DocxError::ArchiveFormat),
        }
    }

    /// Borrow the underlying archive. The accessor owns the handle; a caller
    /// holds it only for the duration of the borrow.
    pub fn get_zip_data(&self) -> (r: &zip::read::ZipArchive<Cursor<Vec<u8>>>)
        ensures
            zip_entries(*r) == self.entries(),
    {
        &self.data
    }

    /// Verify the archive invariant that no two entries share a (decoded)
    /// name, reading every entry name once.
    fn check_names_unique(&mut self) -> (r: Result<(), DocxError>)
        ensures
            final(self).entries() == old(self).entries(),
            final(self).source() == old(self).source(),
            r is Ok <==> (names_ok(old(self).source(), old(self).entries().len() as int)
                && names_unique(old(self).entries())),
            r == Err::<(), DocxError>(DocxError::ArchiveFormat) ==> !names_unique(
                old(self).entries(),
            ),
            r matches Err(e) ==> e == DocxError::ArchiveFormat || e == DocxError::Io,
    {
        let ghost es = self.entries();
        let ghost src0 = self.source();
        let n = archive_len(&self.data);
        let mut names: Vec<Vec<u8>> = Vec::new();
        let mut i: usize = 0;
        while i < n
            invariant
                i <= n,
                n == es.len(),
                es == old(self).entries(),
                src0 == old(self).source(),
                zip_entries(self.data) == es,
                self.source() == src0,
                names@.len() == i,
                forall|k: int|
                    0 <= k < i ==> (#[trigger] names@[k])@ == es[k].0 && zip_name_ok(src0, k),
            decreases n - i,
        {
            let nm = match entry_name_at(&mut self.data, i) {
                Ok(nm) => nm,
                Err(_) => {
                    return Err(DocxError::Io);
                },
            };
            names.push(nm);
            i += 1;
        }
        let mut a: usize = 0;
        while a < n
            invariant
                a <= n,
                n == es.len(),
                names@.len() == n,
                es == old(self).entries(),
                src0 == old(self).source(),
                zip_entries(self.data) == es,
                self.source() == src0,
                forall|k: int|
                    0 <= k < n ==> (#[trigger] names@[k])@ == es[k].0 && zip_name_ok(src0, k),
                forall|x: int, y: int| 0 <= x < y < n && x < a ==> es[x].0 != es[y].0,
            decreases n - a,
        {
            let mut b: usize = a + 1;
            while b < n
                invariant
                    a < n,
                    a + 1 <= b <= n,
                    n == es.len(),
                    names@.len() == n,
                    es == old(self).entries(),
                    src0 == old(self).source(),
                    zip_entries(self.data) == es,
                    self.source() == src0,
                    forall|k: int|
                        0 <= k < n ==> (#[trigger] names@[k])@ == es[k].0 && zip_name_ok(src0, k),
                    forall|x: int, y: int| 0 <= x < y < n && x < a ==> es[x].0 != es[y].0,
                    forall|y: int| a < y < b ==> es[a as int].0 != es[y].0,
                decreases n - b,
            {
                if bytes_eq(&names[a], &names[b]) {
                    proof {
                        assert(es[a as int].0 == es[b as int].0);
                        assert(!names_unique(es));
                    }
                    return Err(DocxError::ArchiveFormat);
                }
                b += 1;
            }
            a += 1;
        }
        proof {
            assert forall|k: int| 0 <= k < n implies zip_name_ok(src0, k) by {
                assert(names@[k]@ == es[k].0);
            }
            assert(names_ok(src0, es.len() as int));
            assert(names_unique(es));
        }
        Ok(())
    }

    /// Content of the first entry with the given name, which must be UTF-8
    /// text; `PartMissing` exactly when a full scan shows no such entry.
    fn read_named(&mut self, name: &Vec<u8>) -> (r: Result<Vec<u8>, DocxError>)
        ensures
            final(self).entries() == old(self).entries(),
            final(self).source() == old(self).source(),
            r matches Ok(t) ==> lookup(old(self).entries(), name@) == Some(t@) && utf8_ok(t@)
                && (exists|i: int|
                0 <= i < old(self).entries().len() && (#[trigger] old(self).entries()[i]).0
                    == name@ && zip_data_ok(old(self).source(), i) && utf8_ok(
                    old(self).entries()[i].1,
                )),
            r matches Err(e) ==> e == DocxError::PartMissing || e == DocxError::Io,
            r == Err::<Vec<u8>, DocxError>(DocxError::PartMissing) ==> lookup(
                old(self).entries(),
                name@,
            ) is None,
            (names_ok(old(self).source(), old(self).entries().len() as int) && lookup(
                old(self).entries(),
                name@,
            ) is Some && (forall|i: int|
                0 <= i < old(self).entries().len() && (#[trigger] old(self).entries()[i]).0
                    == name@ ==> zip_data_ok(old(self).source(), i) && utf8_ok(
                    old(self).entries()[i].1,
                ))) ==> r is Ok,
            (names_ok(old(self).source(), old(self).entries().len() as int) && lookup(
                old(self).entries(),
                name@,
            ) is None) ==> r == Err::<Vec<u8>, DocxError>(DocxError::PartMissing),
    {
        let ghost es = self.entries();
        let ghost src0 = self.source();
        let n = archive_len(&self.data);
        let mut i: usize = 0;
        proof {
            assert(es.skip(0) =~= es);
        }
        while i < n
            invariant
                i <= n,
                n == es.len(),
                es == old(self).entries(),
                src0 == old(self).source(),
                zip_entries(self.data) == es,
                self.source() == src0,
                lookup(es, name@) == lookup(es.skip(i as int), name@),
            decreases n - i,
        {
            let nm = match entry_name_at(&mut self.data, i) {
                Ok(nm) => nm,
                Err(_) => {
                    return Err(DocxError::Io);
                },
            };
            if bytes_eq(&nm, name) {
                proof {
                    lemma_lookup_step(es, name@, i as int);
                }
                match entry_data_at(&mut self.data, i) {
                    Ok(d) => {
                        if check_utf8(&d) {
                            return Ok(d);
                        }
                        return Err(DocxError::Io);
                    },
                    Err(_) => {
                        return Err(DocxError::Io);
                    },
                }
            }
            proof {
                lemma_lookup_step(es, name@, i as int);
            }
            i += 1;
        }
        proof {
            assert(es.skip(n as int) =~= Seq::<(Seq<u8>, Seq<u8>)>::empty());
        }
        Err(DocxError::PartMissing)
    }

    /// The main document text.
    pub(crate) fn read_text(&mut self) -> (r: Result<Vec<u8>, DocxError>)
        ensures
            final(self).entries() == old(self).entries(),
            final(self).source() == old(self).source(),
            r matches Ok(t) ==> lookup(old(self).entries(), doc_name()) == Some(t@) && utf8_ok(t@)
                && (exists|i: int|
                0 <= i < old(self).entries().len() && (#[trigger] old(self).entries()[i]).0
                    == doc_name() && zip_data_ok(old(self).source(), i) && utf8_ok(
                    old(self).entries()[i].1,
                )),
            r matches Err(e) ==> e == DocxError::PartMissing || e == DocxError::Io,
            r == Err::<Vec<u8>, DocxError>(DocxError::PartMissing) ==> lookup(
                old(self).entries(),
                doc_name(),
            ) is None,
            (names_ok(old(self).source(), old(self).entries().len() as int) && lookup(
                old(self).entries(),
                doc_name(),
            ) is Some && (forall|i: int|
                0 <= i < old(self).entries().len() && (#[trigger] old(self).entries()[i]).0
                    == doc_name() ==> zip_data_ok(old(self).source(), i) && utf8_ok(
                    old(self).entries()[i].1,
                ))) ==> r is Ok,
            (names_ok(old(self).source(), old(self).entries().len() as int) && lookup(
                old(self).entries(),
                doc_name(),
            ) is None) ==> r == Err::<Vec<u8>, DocxError>(DocxError::PartMissing),
    {
        let name = lit_doc_name();
        self.read_named(&name)
    }

    /// The relationship manifest text.
    pub(crate) fn read_links(&mut self) -> (r: Result<Vec<u8>, DocxError>)
        ensures
            final(self).entries() == old(self).entries(),
            final(self).source() == old(self).source(),
            r matches Ok(t) ==> lookup(old(self).entries(), rels_name()) == Some(t@) && utf8_ok(t@)
                && (exists|i: int|
                0 <= i < old(self).entries().len() && (#[trigger] old(self).entries()[i]).0
                    == rels_name() && zip_data_ok(old(self).source(), i) && utf8_ok(
                    old(self).entries()[i].1,
                )),
            r matches Err(e) ==> e == DocxError::PartMissing || e == DocxError::Io,
            r == Err::<Vec<u8>, DocxError>(DocxError::PartMissing) ==> lookup(
                old(self).entries(),
                rels_name(),
            ) is None,
            (names_ok(old(self).source(), old(self).entries().len() as int) && lookup(
                old(self).entries(),
                rels_name(),
            ) is Some && (forall|i: int|
                0 <= i < old(self).entries().len() && (#[trigger] old(self).entries()[i]).0
                    == rels_name() ==> zip_data_ok(old(self).source(), i) && utf8_ok(
                    old(self).entries()[i].1,
                ))) ==> r is Ok,
            (names_ok(old(self).source(), old(self).entries().len() as int) && lookup(
                old(self).entries(),
                rels_name(),
            ) is None) ==> r == Err::<Vec<u8>, DocxError>(DocxError::PartMissing),
    {
        let name = lit_rels_name();
        self.read_named(&name)
    }

    /// Name and content of every entry whose name contains `pat`; each such
    /// entry must hold UTF-8 text.
    fn read_matching(&mut self, pat: &Vec<u8>) -> (r: Result<Vec<Part>, DocxError>)
        requires
            pat@.len() >= 1,
        ensures
            final(self).entries() == old(self).entries(),
            final(self).source() == old(self).source(),
            r matches Ok(ps) ==> parts_view(ps@) == matching_parts(old(self).entries(), pat@) && (
            forall|i: int|
                0 <= i < old(self).entries().len() && contains_sub(
                    (#[trigger] old(self).entries()[i]).0,
                    pat@,
                ) ==> zip_data_ok(old(self).source(), i) && utf8_ok(old(self).entries()[i].1)),
            r matches Err(e) ==> e == DocxError::Io,
            (names_ok(old(self).source(), old(self).entries().len() as int) && (forall|i: int|
                0 <= i < old(self).entries().len() && contains_sub(
                    (#[trigger] old(self).entries()[i]).0,
                    pat@,
                ) ==> zip_data_ok(old(self).source(), i) && utf8_ok(old(self).entries()[i].1)))
                ==> r is Ok,
    {
        let ghost es = self.entries();
        let ghost src0 = self.source();
        let n = archive_len(&self.data);
        let mut ps: Vec<Part> = Vec::new();
        let mut i: usize = 0;
        proof {
            reveal(Seq::filter);
            assert(es.take(0) =~= Seq::<(Seq<u8>, Seq<u8>)>::empty());
            assert(parts_view(ps@) =~= matching_parts(es.take(0), pat@));
        }
        while i < n
            invariant
                i <= n,
                n == es.len(),
                es == old(self).entries(),
                src0 == old(self).source(),
                pat@.len() >= 1,
                zip_entries(self.data) == es,
                self.source() == src0,
                parts_view(ps@) == matching_parts(es.take(i as int), pat@),
                forall|k: int|
                    0 <= k < i && contains_sub((#[trigger] es[k]).0, pat@) ==> zip_data_ok(src0, k)
                        && utf8_ok(es[k].1),
            decreases n - i,
        {
            let ghost ps0 = ps@;
            let nm = match entry_name_at(&mut self.data, i) {
                Ok(nm) => nm,
                Err(_) => {
                    return Err(DocxError::Io);
                },
            };
            if contains_bytes(&nm, pat) {
                let d = match entry_data_at(&mut self.data, i) {
                    Ok(d) => d,
                    Err(_) => {
                        return Err(DocxError::Io);
                    },
                };
                if !check_utf8(&d) {
                    return Err(DocxError::Io);
                }
                ps.push(Part { name: nm, text: d });
                proof {
                    assert(parts_view(ps@) =~= parts_view(ps0).push((es[i as int].0, es[i as int].1)));
                }
            }
            proof {
                reveal(Seq::filter);
                let pred = |e: (Seq<u8>, Seq<u8>)| contains_sub(e.0, pat@);
                assert(es.take(i + 1).drop_last() =~= es.take(i as int));
                assert(es.take(i + 1).last() == es[i as int]);
                assert(es.take(i + 1).len() == i + 1);
                if pred(es[i as int]) {
                    assert(matching_parts(es.take(i + 1), pat@) == matching_parts(es.take(i as int), pat@).push(es[i as int]));
                    assert((es[i as int].0, es[i as int].1) == es[i as int]);
                } else {
                    assert(matching_parts(es.take(i + 1), pat@) == matching_parts(es.take(i as int), pat@));
                }
            }
            i += 1;
        }
        proof {
            assert(es.take(n as int) =~= es);
        }
        Ok(ps)
    }

    /// The header parts: every entry whose name contains `"header"`.
    pub(crate) fn read_headers(&mut self) -> (r: Result<Vec<Part>, DocxError>)
        ensures
            final(self).entries() == old(self).entries(),
            final(self).source() == old(self).source(),
            r matches Ok(ps) ==> parts_view(ps@) == matching_parts(old(self).entries(), header_pat())
                && (forall|i: int|
                0 <= i < old(self).entries().len() && contains_sub(
                    (#[trigger] old(self).entries()[i]).0,
                    header_pat(),
                ) ==> zip_data_ok(old(self).source(), i) && utf8_ok(old(self).entries()[i].1)),
            r matches Err(e) ==> e == DocxError::Io,
            (names_ok(old(self).source(), old(self).entries().len() as int) && (forall|i: int|
                0 <= i < old(self).entries().len() && contains_sub(
                    (#[trigger] old(self).entries()[i]).0,
                    header_pat(),
                ) ==> zip_data_ok(old(self).source(), i) && utf8_ok(old(self).entries()[i].1)))
                ==> r is Ok,
    {
        let pat = lit_header_pat();
        self.read_matching(&pat)
    }

    /// The footer parts: every entry whose name contains `"footer"`.
    pub(crate) fn read_footers(&mut self) -> (r: Result<Vec<Part>, DocxError>)
        ensures
            final(self).entries() == old(self).entries(),
            final(self).source() == old(self).source(),
            r matches Ok(ps) ==> parts_view(ps@) == matching_parts(old(self).entries(), footer_pat())
                && (forall|i: int|
                0 <= i < old(self).entries().len() && contains_sub(
                    (#[trigger] old(self).entries()[i]).0,
                    footer_pat(),
                ) ==> zip_data_ok(old(self).source(), i) && utf8_ok(old(self).entries()[i].1)),
            r matches Err(e) ==> e == DocxError::Io,
            (names_ok(old(self).source(), old(self).entries().len() as int) && (forall|i: int|
                0 <= i < old(self).entries().len() && contains_sub(
                    (#[trigger] old(self).entries()[i]).0,
                    footer_pat(),
                ) ==> zip_data_ok(old(self).source(), i) && utf8_ok(old(self).entries()[i].1)))
                ==> r is Ok,
    {
        let pat = lit_footer_pat();
        self.read_matching(&pat)
    }

    /// The names of the media assets: every entry name with the media folder
    /// prefix. Content is not retained.
    pub(crate) fn read_images(&mut self) -> (r: Result<Vec<Vec<u8>>, DocxError>)
        ensures
            final(self).entries() == old(self).entries(),
            final(self).source() == old(self).source(),
            r matches Ok(v) ==> names_view(v@) == media_names(old(self).entries()),
            r is Ok <==> names_ok(old(self).source(), old(self).entries().len() as int),
            r matches Err(e) ==> e == DocxError::Io,
    {
        let ghost es = self.entries();
        let ghost src0 = self.source();
        let prefix = lit_media_prefix();
        let n = archive_len(&self.data);
        let mut v: Vec<Vec<u8>> = Vec::new();
        let mut i: usize = 0;
        proof {
            reveal(Seq::filter);
            assert(es.take(0) =~= Seq::<(Seq<u8>, Seq<u8>)>::empty());
            assert(names_view(v@) =~= media_names(es.take(0)));
        }
        while i < n
            invariant
                i <= n,
                n == es.len(),
                es == old(self).entries(),
                src0 == old(self).source(),
                prefix@ == media_prefix(),
                zip_entries(self.data) == es,
                self.source() == src0,
                names_view(v@) == media_names(es.take(i as int)),
                forall|k: int| 0 <= k < i ==> zip_name_ok(src0, k),
            decreases n - i,
        {
            let ghost v0 = v@;
            let nm = match entry_name_at(&mut self.data, i) {
                Ok(nm) => nm,
                Err(_) => {
                    return Err(DocxError::Io);
                },
            };
            let hit = has_prefix(&nm, &prefix);
            if hit {
                v.push(nm);
                proof {
                    assert(names_view(v@) =~= names_view(v0).push(es[i as int].0));
                }
            }
            proof {
                reveal(Seq::filter);
                let pred = |nn: Seq<u8>| match_at(nn, media_prefix(), 0);
                let mapped1 = es.take(i + 1).map_values(|e: (Seq<u8>, Seq<u8>)| e.0);
                let mapped0 = es.take(i as int).map_values(|e: (Seq<u8>, Seq<u8>)| e.0);
                assert(mapped1.drop_last() =~= mapped0);
                assert(mapped1.last() == es[i as int].0);
                assert(mapped1.len() == i + 1);
                if pred(es[i as int].0) {
                    assert(media_names(es.take(i + 1)) == media_names(es.take(i as int)).push(es[i as int].0));
                } else {
                    assert(media_names(es.take(i + 1)) == media_names(es.take(i as int)));
                }
            }
            i += 1;
        }
        proof {
            assert(es.take(n as int) =~= es);
        }
        Ok(v)
    }
}

/// The mathematical content of a loaded document model.
#[verifier::ext_equal]
pub struct ModelView {
    /// The entries of the underlying archive, in order.
    pub entries: Seq<(Seq<u8>, Seq<u8>)>,
    /// The main document text.
    pub contents: Seq<u8>,
    /// The relationship manifest text.
    pub links: Seq<u8>,
    /// The loaded header parts.
    pub headers: Seq<(Seq<u8>, Seq<u8>)>,
    /// The loaded footer parts.
    pub footers: Seq<(Seq<u8>, Seq<u8>)>,
    /// The names of the media assets.
    pub images: Seq<Seq<u8>>,
}

/// The bytes the rewrite emits for the entry `name` whose original content is
/// `orig`: the model's current value for the parts it tracks, the original
/// bytes for everything else.
pub open spec fn chosen_content(m: ModelView, name: Seq<u8>, orig: Seq<u8>) -> Seq<u8> {
    if name == doc_name() {
        m.contents
    } else if name == rels_name() {
        m.links
    } else if contains_sub(name, header_pat()) && lookup(m.headers, name) is Some {
        lookup(m.headers, name).unwrap()
    } else if contains_sub(name, footer_pat()) && lookup(m.footers, name) is Some {
        lookup(m.footers, name).unwrap()
    } else {
        orig
    }
}

/// The entries of the rewritten archive: one per original entry, in original
/// order, under the original name, with `chosen_content` as content.
pub open spec fn output_entries(m: ModelView) -> Seq<(Seq<u8>, Seq<u8>)> {
    m.entries.map_values(|e: (Seq<u8>, Seq<u8>)| (e.0, chosen_content(m, e.0, e.1)))
}

/// The in-memory document model: the archive accessor plus the mutable parts
/// extracted once at load time.
pub struct Docx {
    data: DocZipData,
    contents: Vec<u8>,
    links: Vec<u8>,
    headers: Vec<Part>,
    footers: Vec<Part>,
    images: Vec<Vec<u8>>,
}

impl View for Docx {
    type V = ModelView;

    closed spec fn view(&self) -> ModelView {
        ModelView {
            entries: self.data.entries(),
            contents: self.contents@,
            links: self.links@,
            headers: parts_view(self.headers@),
            footers: parts_view(self.footers@),
            images: names_view(self.images@),
        }
    }
}

/// Content of the first part with the given name, if any.
fn find_part<'a>(parts: &'a Vec<Part>, name: &Vec<u8>) -> (r: Option<&'a Vec<u8>>)
    ensures
        match r {
            Some(t) => lookup(parts_view(parts@), name@) == Some(t@),
            None => lookup(parts_view(parts@), name@) is None,
        },
{
    let ghost pv = parts_view(parts@);
    let n = parts.len();
    let mut i: usize = 0;
    proof {
        assert(pv.skip(0) =~= pv);
    }
    while i < n
        invariant
            i <= n,
            n == parts@.len(),
            pv == parts_view(parts@),
            lookup(pv, name@) == lookup(pv.skip(i as int), name@),
        decreases n - i,
    {
        if bytes_eq(&parts[i].name, name) {
            proof {
                lemma_lookup_step(pv, name@, i as int);
            }
            return Some(&parts[i].text);
        }
        proof {
            lemma_lookup_step(pv, name@, i as int);
        }
        i += 1;
    }
    proof {
        assert(pv.skip(n as int) =~= Seq::<(Seq<u8>, Seq<u8>)>::empty());
    }
    None
}

impl Docx {
    /// The archive behind this model holds no two entries of one name.
    pub open spec fn wf(self) -> bool {
        names_unique(self@.entries)
    }

    /// The bytes the underlying archive was opened from.
    pub closed spec fn source(self) -> Seq<u8> {
        self.data.source()
    }

    /// Load a document model from the bytes of a package. The main document
    /// and the relationship manifest are required; header and footer parts
    /// and media asset names are collected by scanning every entry name.
    pub fn new(data: Vec<u8>) -> (r: Result<Docx, DocxError>)
        ensures
            match r {
                Ok(d) => {
                    &&& zip_parse(data@) == Some(d@.entries)
                    &&& d.source() == data@
                    &&& load_ok(data@, d@.entries)
                    &&& d.wf()
                    &&& lookup(d@.entries, doc_name()) == Some(d@.contents)
                    &&& lookup(d@.entries, rels_name()) == Some(d@.links)
                    &&& d@.headers == matching_parts(d@.entries, header_pat())
                    &&& d@.footers == matching_parts(d@.entries, footer_pat())
                    &&& d@.images == media_names(d@.entries)
                },
                Err(e) => {
                    &&& (zip_parse(data@) is None ==> e == DocxError::ArchiveFormat)
                    &&& (e == DocxError::ArchiveFormat ==> zip_parse(data@) is None || (
                    zip_parse(data@) matches Some(es) && !names_unique(es)))
                    &&& (e == DocxError::PartMissing ==> (zip_parse(data@) matches Some(es)
                        && !required_parts_present(es)))
                    &&& (e == DocxError::ArchiveFormat || e == DocxError::PartMissing
                        || e == DocxError::Io)
                },
            },
            (zip_parse(data@) matches Some(es) && load_ok(data@, es)) ==> r is Ok,
            (zip_parse(data@) matches Some(es) && names_unique(es) && parts_readable(data@, es)
                && !required_parts_present(es)) ==> r == Err::<Docx, DocxError>(
                DocxError::PartMissing,
            ),
    {
        let mut zdata = match DocZipData::from_bytes(data) {
            Ok(z) => z,
            Err(e) => {
                return Err(e);
            },
        };
        let ghost es = zdata.entries();
        match zdata.check_names_unique() {
            Ok(u) => u,
            Err(e) => {
                proof {
                    if names_unique(es) && parts_readable(data@, es) {
                        assert(false);
                    }
                }
                return Err(e);
            },
        };
        let contents = match zdata.read_text() {
            Ok(c) => c,
            Err(e) => {
                proof {
                    if names_unique(es) && parts_readable(data@, es) {
                        assert forall|i: int|
                            0 <= i < es.len() && (#[trigger] es[i]).0 == doc_name() implies
                            zip_data_ok(data@, i) && utf8_ok(es[i].1) by {
                            assert(tracked_name(es[i].0));
                        }
                        if lookup(es, doc_name()) is Some {
                            assert(false);
                        } else {
                            assert(e == DocxError::PartMissing);
                            assert(!required_parts_present(es));
                        }
                    }
                }
                return Err(e);
            },
        };
        let links = match zdata.read_links() {
            Ok(l) => l,
            Err(e) => {
                proof {
                    if names_unique(es) && parts_readable(data@, es) {
                        assert forall|i: int|
                            0 <= i < es.len() && (#[trigger] es[i]).0 == rels_name() implies
                            zip_data_ok(data@, i) && utf8_ok(es[i].1) by {
                            assert(tracked_name(es[i].0));
                        }
                        if lookup(es, rels_name()) is Some {
                            assert(false);
                        } else {
                            assert(e == DocxError::PartMissing);
                            assert(!required_parts_present(es));
                        }
                    }
                }
                return Err(e);
            },
        };
        let headers = match zdata.read_headers() {
            Ok(h) => h,
            Err(e) => {
                proof {
                    if names_unique(es) && parts_readable(data@, es) {
                        assert forall|i: int|
                            0 <= i < es.len() && contains_sub((#[trigger] es[i]).0, header_pat())
                            implies zip_data_ok(data@, i) && utf8_ok(es[i].1) by {
                            assert(tracked_name(es[i].0));
                        }
                        assert(false);
                    }
                }
                return Err(e);
            },
        };
        let footers = match zdata.read_footers() {
            Ok(f) => f,
            Err(e) => {
                proof {
                    if names_unique(es) && parts_readable(data@, es) {
                        assert forall|i: int|
                            0 <= i < es.len() && contains_sub((#[trigger] es[i]).0, footer_pat())
                            implies zip_data_ok(data@, i) && utf8_ok(es[i].1) by {
                            assert(tracked_name(es[i].0));
                        }
                        assert(false);
                    }
                }
                return Err(e);
            },
        };
        let images = match zdata.read_images() {
            Ok(v) => v,
            Err(e) => {
                proof {
                    if names_unique(es) && parts_readable(data@, es) {
                        assert(false);
                    }
                }
                return Err(e);
            },
        };
        proof {
            assert forall|i: int|
                0 <= i < es.len() && tracked_name((#[trigger] es[i]).0) implies zip_data_ok(
                data@,
                i,
            ) && utf8_ok(es[i].1) by {
                if contains_sub(es[i].0, header_pat()) {
                } else if contains_sub(es[i].0, footer_pat()) {
                } else if es[i].0 == doc_name() {
                    let w = choose|w: int|
                        0 <= w < es.len() && (#[trigger] es[w]).0 == doc_name() && zip_data_ok(
                            data@,
                            w,
                        ) && utf8_ok(es[w].1);
                    if w < i {
                        assert(es[w].0 != es[i].0);
                    }
                    if i < w {
                        assert(es[i].0 != es[w].0);
                    }
                } else {
                    let w = choose|w: int|
                        0 <= w < es.len() && (#[trigger] es[w]).0 == rels_name() && zip_data_ok(
                            data@,
                            w,
                        ) && utf8_ok(es[w].1);
                    if w < i {
                        assert(es[w].0 != es[i].0);
                    }
                    if i < w {
                        assert(es[i].0 != es[w].0);
                    }
                }
            }
            assert(load_ok(data@, es));
        }
        Ok(Docx { data: zdata, contents, links, headers, footers, images })
    }

    /// Read-only view of the current main document text.
    pub fn get_content(&self) -> (r: &Vec<u8>)
        ensures
            r@ == self@.contents,
    {
        &self.contents
    }

    /// Encode both arguments, then replace the leftmost occurrences of the
    /// encoded `old_str` by the encoded `new_str` in the main content, at
    /// most `count` of them; a `count` of zero replaces every occurrence.
    /// A search string that does not occur is a no-op, not an error.
    pub fn replace(&mut self, old_str: &Vec<u8>, new_str: &Vec<u8>, count: usize) -> (r: Result<
        (),
        DocxError,
    >)
        ensures
            r is Ok,
            final(self).source() == old(self).source(),
            final(self)@.contents == replace_limited(
                old(self)@.contents,
                encode_spec(old_str@),
                encode_spec(new_str@),
                count as nat,
            ),
            final(self)@.entries == old(self)@.entries,
            final(self)@.links == old(self)@.links,
            final(self)@.headers == old(self)@.headers,
            final(self)@.footers == old(self)@.footers,
            final(self)@.images == old(self)@.images,
    {
        let old_enc = encode(old_str);
        let new_enc = encode(new_str);
        let new_contents = replace_bytes(&self.contents, &old_enc, &new_enc, count);
        self.contents = new_contents;
        Ok(())
    }

    /// Rebuild the package: every entry of the original archive, in original
    /// order, with the model's current value for the parts it tracks and the
    /// original bytes for everything else, all stored uncompressed. On
    /// success the returned bytes parse back to exactly those entries.
    pub fn write(&mut self) -> (r: Result<Vec<u8>, DocxError>)
        ensures
            final(self)@ == old(self)@,
            final(self).source() == old(self).source(),
            r matches Ok(out) ==> zip_parse(out@) == Some(output_entries(old(self)@))
                && fixed_storage(out@) && output_readable(
                out@,
                output_entries(old(self)@).len() as int,
            ),
            r matches Err(e) ==> e == DocxError::Io,
            (old(self).wf() && write_ok(old(self)@, old(self).source())) ==> r is Ok,
    {
        let ghost m = self@;
        let ghost src0 = self.source();
        let doc_nm = lit_doc_name();
        let rels_nm = lit_rels_name();
        let hpat = lit_header_pat();
        let fpat = lit_footer_pat();
        let n = archive_len(&self.data.data);
        let mut w = writer_new();
        let mut i: usize = 0;
        proof {
            assert(writer_entries(w) =~= output_entries(m).take(0));
        }
        while i < n
            invariant
                i <= n,
                n == m.entries.len(),
                m == old(self)@,
                src0 == old(self).source(),
                self@ == m,
                self.source() == src0,
                doc_nm@ == doc_name(),
                rels_nm@ == rels_name(),
                hpat@ == header_pat(),
                fpat@ == footer_pat(),
                writer_entries(w) == output_entries(m).take(i as int),
                writer_fixed_storage(w),
            decreases n - i,
        {
            let ghost e = m.entries[i as int];
            let name = match entry_name_at(&mut self.data.data, i) {
                Ok(x) => x,
                Err(_) => {
                    proof {
                        if old(self).wf() && write_ok(m, src0) {
                            assert(zip_name_ok(src0, i as int));
                            assert(false);
                        }
                    }
                    return Err(DocxError::Io);
                },
            };
            let ghost w0 = writer_entries(w);
            let started = start_entry(&mut w, &name);
            if started.is_err() {
                proof {
                    if old(self).wf() && write_ok(m, src0) {
                        assert(m.entries[i as int].0.len() <= 0xFFFF);
                        assert forall|k: int| 0 <= k < w0.len() implies (#[trigger] w0[k]).0
                            != name@ by {
                            assert(w0[k] == output_entries(m).take(i as int)[k]);
                            assert(w0[k].0 == m.entries[k].0);
                            assert(m.entries[k].0 != m.entries[i as int].0);
                        }
                        assert forall|k: int| 0 <= k < w0.len() implies (#[trigger] w0[k]).1.len()
                            <= 0xFFFF_FFFF by {
                            assert(w0[k] == output_entries(m).take(i as int)[k]);
                            assert(w0[k].1 == chosen_content(m, m.entries[k].0, m.entries[k].1));
                        }
                        assert(started is Ok);
                        assert(false);
                    }
                }
                return Err(DocxError::Io);
            }
            let mut appended: Result<(), zip::result::ZipError> = Ok(());
            let ghost mut chosen: Seq<u8> = Seq::empty();
            if bytes_eq(&name, &doc_nm) {
                appended = append_entry_data(&mut w, &self.contents);
                proof {
                    chosen = m.contents;
                }
            } else if bytes_eq(&name, &rels_nm) {
                appended = append_entry_data(&mut w, &self.links);
                proof {
                    chosen = m.links;
                }
            } else {
                let mut routed = false;
                let mut result: Result<(), zip::result::ZipError> = Ok(());
                let ghost mut routed_content: Seq<u8> = Seq::empty();
                if contains_bytes(&name, &hpat) {
                    match find_part(&self.headers, &name) {
                        Some(t) => {
                            result = append_entry_data(&mut w, t);
                            routed = true;
                            proof {
                                routed_content = t@;
                            }
                        },
                        None => {},
                    }
                }
                if !routed && contains_bytes(&name, &fpat) {
                    match find_part(&self.footers, &name) {
                        Some(t) => {
                            result = append_entry_data(&mut w, t);
                            routed = true;
                            proof {
                                routed_content = t@;
                            }
                        },
                        None => {},
                    }
                }
                if routed {
                    appended = result;
                    proof {
                        chosen = routed_content;
                    }
                } else {
                    let d = match entry_data_at(&mut self.data.data, i) {
                        Ok(d) => d,
                        Err(_) => {
                            proof {
                                if old(self).wf() && write_ok(m, src0) {
                                    assert(zip_data_ok(src0, i as int));
                                    assert(false);
                                }
                            }
                            return Err(DocxError::Io);
                        },
                    };
                    appended = append_entry_data(&mut w, &d);
                    proof {
                        chosen = d@;
                    }
                }
            }
            if appended.is_err() {
                proof {
                    assert(self@ =~= m);
                    assert(chosen == chosen_content(m, e.0, e.1));
                    if old(self).wf() && write_ok(m, src0) {
                        assert(chosen.len() <= 0xFFFF_FFFF);
                        assert(appended is Ok);
                        assert(false);
                    }
                }
                return Err(DocxError::Io);
            }
            proof {
                assert(self@ =~= m);
                assert(chosen == chosen_content(m, e.0, e.1));
                let pushed = w0.push((e.0, Seq::<u8>::empty()));
                assert(writer_entries(w) == pushed.update(
                    pushed.len() - 1,
                    (pushed.last().0, pushed.last().1 + chosen),
                ));
                assert(Seq::<u8>::empty() + chosen =~= chosen);
                assert(writer_entries(w) =~= w0.push((e.0, chosen)));
                assert(output_entries(m)[i as int] == (e.0, chosen_content(m, e.0, e.1)));
                assert(output_entries(m).take(i + 1) =~= output_entries(m).take(i as int).push(
                    output_entries(m)[i as int],
                ));
            }
            i += 1;
        }
        proof {
            assert(output_entries(m).take(n as int) =~= output_entries(m));
        }
        match finish_archive(w) {
            Ok(b) => {
                proof {
                    assert(writer_entries(w).len() == output_entries(m).len());
                    assert forall|i: int| 0 <= i < output_entries(m).len() implies zip_name_ok(
                        b@,
                        i,
                    ) by {
                        assert(zip_data_ok(b@, i) && zip_name_ok(b@, i));
                    }
                    assert forall|i: int| 0 <= i < output_entries(m).len() implies zip_data_ok(
                        b@,
                        i,
                    ) by {
                        assert(zip_data_ok(b@, i) && zip_name_ok(b@, i));
                    }
                    assert(output_readable(b@, output_entries(m).len() as int));
                }
                Ok(b)
            },
            Err(_) => {
                proof {
                    if old(self).wf() && write_ok(m, src0) {
                        assert forall|k: int|
                            0 <= k < writer_entries(w).len() implies (#[trigger] writer_entries(
                            w,
                        )[k]).0.len() <= 0xFFFF && writer_entries(w)[k].1.len() <= 0xFFFF_FFFF by {
                            assert(writer_entries(w)[k] == output_entries(m)[k]);
                            assert(writer_entries(w)[k].0 == m.entries[k].0);
                            assert(m.entries[k].0.len() <= 0xFFFF);
                            assert(writer_entries(w)[k].1 == chosen_content(
                                m,
                                m.entries[k].0,
                                m.entries[k].1,
                            ));
                        }
                        assert(false);
                    }
                }
                Err(DocxError::Io)
            },
        }
    }

    /// The names of the media assets found at load time.
    pub fn media_assets(&self) -> (r: &Vec<Vec<u8>>)
        ensures
            names_view(r@) == self@.images,
    {
        &self.images
    }
}

} // verus!
