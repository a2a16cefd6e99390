//! A table as an OpenDocument spreadsheet.
//!
//! An ODS file is a zip holding a few XML documents. Three are enough for a
//! spreadsheet a reader will open: the mimetype, which has to come first and
//! be stored uncompressed; the manifest; and the content, which is the table.
//! Every cell is written as a string, so `007` stays `007`.

use std::io::Cursor;
use vstd::prelude::*;
use vstd::utf8::encode_utf8;
use zip::ZipWriter;
use super::{Sheet, escaped, put, put_escaped};
use crate::text::{bytes_of, string_of};

verus! {

pub const MIMETYPE: &'static str = "application/vnd.oasis.opendocument.spreadsheet";

pub const MANIFEST: &'static str = r#"<?xml version="1.0" encoding="UTF-8"?>
<manifest:manifest xmlns:manifest="urn:oasis:names:tc:opendocument:xmlns:manifest:1.0" manifest:version="1.3">
 <manifest:file-entry manifest:full-path="/" manifest:media-type="application/vnd.oasis.opendocument.spreadsheet"/>
 <manifest:file-entry manifest:full-path="content.xml" manifest:media-type="text/xml"/>
</manifest:manifest>
"#;

pub const CONTENT_START: &'static str = r#"<?xml version="1.0" encoding="UTF-8"?>
<office:document-content xmlns:office="urn:oasis:names:tc:opendocument:xmlns:office:1.0" xmlns:table="urn:oasis:names:tc:opendocument:xmlns:table:1.0" xmlns:text="urn:oasis:names:tc:opendocument:xmlns:text:1.0" office:version="1.3">
 <office:body>
  <office:spreadsheet>
   <table:table table:name=""#;

pub const NAME_END: &'static str = "\">\n";

pub const CONTENT_END: &'static str = "   </table:table>\n  </office:spreadsheet>\n </office:body>\n</office:document-content>\n";

pub const ROW_START: &'static str = "    <table:table-row>\n";

pub const ROW_END: &'static str = "    </table:table-row>\n";

pub const CELL_START: &'static str = r#"     <table:table-cell office:value-type="string">"#;

pub const CELL_END: &'static str = "</table:table-cell>\n";

/// Escaped text with each line break turned into the end of one paragraph
/// and the start of the next.
pub open spec fn paragraph_text(e: Seq<char>) -> Seq<char>
    decreases e.len(),
{
    if e.len() == 0 {
        Seq::empty()
    } else {
        paragraph_text(e.drop_last()) + if e.last() == '\n' {
            "</text:p><text:p>"@
        } else {
            seq![e.last()]
        }
    }
}

/// One cell: a string, one paragraph per line of the value.
pub open spec fn cell_xml(value: Seq<char>) -> Seq<char> {
    CELL_START@ + "<text:p>"@ + paragraph_text(escaped(value)) + "</text:p>"@ + CELL_END@
}

/// The cells for the first `n` values.
pub open spec fn cells_xml(values: Seq<Seq<char>>, n: int) -> Seq<char>
    decreases n,
{
    if n <= 0 {
        Seq::empty()
    } else {
        cells_xml(values, n - 1) + cell_xml(values[n - 1])
    }
}

/// One row of cells.
pub open spec fn row_xml(values: Seq<Seq<char>>) -> Seq<char> {
    ROW_START@ + cells_xml(values, values.len() as int) + ROW_END@
}

/// The values of one row of the sheet.
pub open spec fn sheet_row(sheet: &Sheet, row: int) -> Seq<Seq<char>> {
    Seq::new(sheet.columns@.len(), |column: int| sheet.cell(row, column))
}

/// The first `n` rows of the sheet.
pub open spec fn rows_xml(sheet: &Sheet, n: int) -> Seq<char>
    decreases n,
{
    if n <= 0 {
        Seq::empty()
    } else {
        rows_xml(sheet, n - 1) + row_xml(sheet_row(sheet, n - 1))
    }
}

/// The content document: the table, headed by the file's own titles when it
/// has them. Column letters stand in for titles a spreadsheet supplies
/// itself, so they are not written in as data.
pub open spec fn content_xml(sheet: &Sheet) -> Seq<char> {
    CONTENT_START@ + escaped(sheet.name@) + NAME_END@ + (if sheet.titled {
        row_xml(sheet.titles())
    } else {
        Seq::empty()
    }) + rows_xml(sheet, sheet.rows@.len() as int) + CONTENT_END@
}

/// The entries of the archive, in order: each one's name, whether it is
/// stored as it is rather than compressed, and what it holds.
pub open spec fn ods_entries(sheet: &Sheet) -> Seq<(Seq<char>, bool, Seq<u8>)> {
    seq![
        ("mimetype"@, true, encode_utf8(MIMETYPE@)),
        ("META-INF/manifest.xml"@, false, encode_utf8(MANIFEST@)),
        ("content.xml"@, false, encode_utf8(content_xml(sheet))),
    ]
}

/// Adds one row of cells to `xml`.
fn write_row(xml: &mut Vec<char>, values: &[&str])
    ensures
        final(xml)@ == old(xml)@ + row_xml(values@.map_values(|v: &str| v@)),
{
    let ghost texts = values@.map_values(|v: &str| v@);
    put(xml, ROW_START);
    let ghost start = xml@;
    let mut k: usize = 0;
    while k < values.len()
        invariant
            k <= values@.len(),
            texts == values@.map_values(|v: &str| v@),
            xml@ == start + cells_xml(texts, k as int),
        decreases values@.len() - k,
    {
        put(xml, CELL_START);
        put(xml, "<text:p>");
        let mut escaped_value: Vec<char> = Vec::new();
        put_escaped(&mut escaped_value, values[k]);
        let ghost before = xml@;
        let mut i: usize = 0;
        assert(escaped_value@.subrange(0, 0) =~= Seq::<char>::empty());
        while i < escaped_value.len()
            invariant
                i <= escaped_value@.len(),
                xml@ == before + paragraph_text(escaped_value@.subrange(0, i as int)),
            decreases escaped_value@.len() - i,
        {
            let c = escaped_value[i];
            if c == '\n' {
                put(xml, "</text:p><text:p>");
            } else {
                xml.push(c);
            }
            assert(escaped_value@.subrange(0, i + 1).drop_last() =~= escaped_value@.subrange(0, i as int));
            i = i + 1;
        }
        assert(escaped_value@.subrange(0, escaped_value@.len() as int) =~= escaped_value@);
        put(xml, "</text:p>");
        put(xml, CELL_END);
        k = k + 1;
    }
    put(xml, ROW_END);
}

/// The content document for the sheet.
pub fn content(sheet: &Sheet) -> (r: String)
    requires
        sheet.valid(),
    ensures
        r@ == content_xml(sheet),
{
    let mut xml: Vec<char> = Vec::new();
    put(&mut xml, CONTENT_START);
    put_escaped(&mut xml, sheet.name);
    put(&mut xml, NAME_END);
    if sheet.titled {
        let mut titles: Vec<&str> = Vec::new();
        let mut c: usize = 0;
        while c < sheet.width()
            invariant
                c <= sheet.columns@.len(),
                titles@.len() == c,
                forall|i: int| 0 <= i < c ==> (#[trigger] titles@[i])@ == sheet.titles()[i],
            decreases sheet.columns@.len() - c,
        {
            titles.push(sheet.columns[c].as_str());
            c = c + 1;
        }
        assert(titles@.map_values(|v: &str| v@) =~= sheet.titles());
        write_row(&mut xml, titles.as_slice());
    }
    let ghost middle = xml@;
    let mut row: usize = 0;
    while row < sheet.height()
        invariant
            sheet.valid(),
            row <= sheet.rows@.len(),
            xml@ == middle + rows_xml(sheet, row as int),
        decreases sheet.rows@.len() - row,
    {
        let mut values: Vec<&str> = Vec::new();
        let mut c: usize = 0;
        while c < sheet.width()
            invariant
                sheet.valid(),
                row < sheet.rows@.len(),
                c <= sheet.columns@.len(),
                values@.len() == c,
                forall|i: int| 0 <= i < c ==> (#[trigger] values@[i])@ == sheet.cell(row as int, i),
            decreases sheet.columns@.len() - c,
        {
            values.push(sheet.value(row, c));
            c = c + 1;
        }
        assert(values@.map_values(|v: &str| v@) =~= sheet_row(sheet, row as int));
        write_row(&mut xml, values.as_slice());
        row = row + 1;
    }
    put(&mut xml, CONTENT_END);
    string_of(xml.as_slice())
}

/// A zip archive being written into memory, by `zip::ZipWriter`. Verus
/// refuses a declaration of `ZipWriter` itself, whose parameter is bound by
/// `std::io::Write` and `std::io::Seek`, so the writer is held here out of
/// its sight.
#[verifier::external_body]
pub struct Archive {
    writer: ZipWriter<Cursor<Vec<u8>>>,
}

/// What an archive being written in memory holds so far: each entry's name,
/// whether it is stored as it is rather than compressed, and its contents.
pub uninterp spec fn entries(archive: Archive) -> Seq<(Seq<char>, bool, Seq<u8>)>;

/// Whether an entry of the archive has been started and is being written to.
pub uninterp spec fn writing(archive: Archive) -> bool;

/// The bytes `ZipWriter::finish` leaves in the buffer of an archive.
pub uninterp spec fn finished(archive: Archive) -> Seq<u8>;

/// The most an entry is given here, in bytes: a zip without its large-file
/// extension holds entries of up to `u32::MAX` bytes, compressed or not, and
/// deflating this many never comes near that.
pub const ENTRY_LIMIT: usize = 0x8000_0000;

/// The longest entry name taken here, in characters: zip writes a name's
/// length in 16 bits, and this many characters take at most 65532 bytes.
pub const NAME_LIMIT: usize = 16383;

/// Every entry is within the limit.
pub open spec fn fits(entries: Seq<(Seq<char>, bool, Seq<u8>)>) -> bool {
    forall|i: int| 0 <= i < entries.len() ==> (#[trigger] entries[i]).2.len() <= ENTRY_LIMIT
}

/// No entry has this name.
pub open spec fn fresh(entries: Seq<(Seq<char>, bool, Seq<u8>)>, name: Seq<char>) -> bool {
    forall|i: int| 0 <= i < entries.len() ==> (#[trigger] entries[i]).0 != name
}

/// `ZipWriter::new` on an empty `Cursor<Vec<u8>>`: an archive holding
/// nothing yet, with no entry started.
#[verifier::external_body]
fn new_archive() -> (r: Archive)
    ensures
        entries(r) == Seq::<(Seq<char>, bool, Seq<u8>)>::empty(),
        !writing(r),
{
    Archive { writer: ZipWriter::new(Cursor::new(Vec::new())) }
}

/// `ZipWriter::start_file`, with default options but for the compression
/// method: `Stored` when `stored`, `Deflated` otherwise. It claims that when
/// the call succeeds the archive holds one entry more, by that name and
/// method and as yet empty, and that entry is the one being written; and that
/// the call succeeds for a name no entry has while every entry is within the
/// limit: zip refuses a name twice, and sizes past 32 bits without the
/// large-file option, and a `Vec<u8>` is written to without failing. A name
/// too long for zip's 16-bit length makes it panic, so `requires` leaves it
/// out. Of a failed call it claims nothing.
#[verifier::external_body]
fn start_entry(archive: &mut Archive, name: &str, stored: bool) -> (r: bool)
    requires
        name@.len() <= NAME_LIMIT,
    ensures
        r ==> entries(*final(archive)) == entries(*old(archive)).push((name@, stored, Seq::empty())),
        r ==> writing(*final(archive)),
        fresh(entries(*old(archive)), name@) && fits(entries(*old(archive))) ==> r,
{
    let method = if stored {
        zip::CompressionMethod::Stored
    } else {
        zip::CompressionMethod::Deflated
    };
    let options = zip::write::SimpleFileOptions::default().compression_method(method);
    archive.writer.start_file(name, options).is_ok()
}

/// `Write::write_all` on the archive, while an entry is being written to. It
/// claims that when the call succeeds the bytes were added to the end of that
/// entry, the last, which is still being written to; and that it succeeds
/// while the entry stays within the limit. Of a failed call it claims
/// nothing.
#[verifier::external_body]
fn write_entry(archive: &mut Archive, data: &[u8]) -> (r: bool)
    requires
        writing(*old(archive)),
        entries(*old(archive)).len() > 0,
    ensures
        r ==> writing(*final(archive)),
        r ==> entries(*final(archive)) == entries(*old(archive)).drop_last().push(
            (
                entries(*old(archive)).last().0,
                entries(*old(archive)).last().1,
                entries(*old(archive)).last().2 + data@,
            ),
        ),
        entries(*old(archive)).last().2.len() + data@.len() <= ENTRY_LIMIT ==> r,
{
    std::io::Write::write_all(&mut archive.writer, data).is_ok()
}

/// `ZipWriter::finish`, then `Cursor::into_inner`: the bytes of the finished
/// archive, or nothing when finishing failed, which it does not while every
/// entry is within the limit.
#[verifier::external_body]
fn finish_archive(archive: Archive) -> (r: Option<Vec<u8>>)
    ensures
        r matches Some(bytes) ==> bytes@ == finished(archive),
        fits(entries(archive)) ==> r is Some,
{
    match archive.writer.finish() {
        Ok(cursor) => Some(cursor.into_inner()),
        Err(_) => None,
    }
}

/// Adds a whole entry to the archive: it succeeds, when it does, with the
/// entry added and none started, and it succeeds for a fresh name and
/// contents within the limit while every entry is.
fn add_entry(archive: &mut Archive, name: &str, stored: bool, data: &[u8]) -> (r: bool)
    requires
        name@.len() <= NAME_LIMIT,
    ensures
        r ==> entries(*final(archive)) == entries(*old(archive)).push((name@, stored, data@)),
        fresh(entries(*old(archive)), name@) && fits(entries(*old(archive))) && data@.len()
            <= ENTRY_LIMIT ==> r,
{
    if !start_entry(archive, name, stored) {
        return false;
    }
    let ghost started = entries(*archive);
    let written = write_entry(archive, data);
    if written {
        assert(entries(*archive) =~= entries(*old(archive)).push((name@, stored, data@)));
    }
    written
}

/// The UTF-8 encoding of a text takes at most four bytes a character.
proof fn lemma_encoded_length(chars: Seq<char>)
    ensures
        encode_utf8(chars).len() <= 4 * chars.len(),
    decreases chars.len(),
{
    if chars.len() > 0 {
        lemma_encoded_length(chars.drop_first());
    }
}

/// The mimetype and the manifest are well within the limit.
proof fn lemma_fixed_entries_fit()
    ensures
        encode_utf8(MIMETYPE@).len() <= ENTRY_LIMIT,
        encode_utf8(MANIFEST@).len() <= ENTRY_LIMIT,
{
    reveal_strlit("application/vnd.oasis.opendocument.spreadsheet");
    reveal_strlit(
        r#"<?xml version="1.0" encoding="UTF-8"?>
<manifest:manifest xmlns:manifest="urn:oasis:names:tc:opendocument:xmlns:manifest:1.0" manifest:version="1.3">
 <manifest:file-entry manifest:full-path="/" manifest:media-type="application/vnd.oasis.opendocument.spreadsheet"/>
 <manifest:file-entry manifest:full-path="content.xml" manifest:media-type="text/xml"/>
</manifest:manifest>
"#,
    );
    lemma_encoded_length(MIMETYPE@);
    lemma_encoded_length(MANIFEST@);
}

/// Writes the sheet as an ODS file: an archive holding the mimetype, the
/// manifest and the content, in that order, with the mimetype stored as it
/// is. The archive is built in memory, and is written whenever the content
/// is within the limit on an entry; past it zip decides.
pub fn write(sheet: &Sheet) -> (r: Option<Vec<u8>>)
    requires
        sheet.valid(),
    ensures
        r matches Some(bytes) ==> exists|archive: Archive|
            entries(archive) == ods_entries(sheet) && bytes@ == finished(archive),
        encode_utf8(content_xml(sheet)).len() <= ENTRY_LIMIT ==> r is Some,
{
    let mut archive = new_archive();
    let mimetype = bytes_of(MIMETYPE.to_owned());
    let manifest = bytes_of(MANIFEST.to_owned());
    let table = bytes_of(content(sheet));
    proof {
        lemma_fixed_entries_fit();
        reveal_strlit("mimetype");
        reveal_strlit("META-INF/manifest.xml");
        reveal_strlit("content.xml");
    }
    let ghost none = entries(archive);
    if !add_entry(&mut archive, "mimetype", true, mimetype.as_slice()) {
        return None;
    }
    let ghost one = entries(archive);
    assert(one == seq![("mimetype"@, true, mimetype@)]);
    if !add_entry(&mut archive, "META-INF/manifest.xml", false, manifest.as_slice()) {
        return None;
    }
    let ghost two = entries(archive);
    assert(two == one.push(("META-INF/manifest.xml"@, false, manifest@)));
    if !add_entry(&mut archive, "content.xml", false, table.as_slice()) {
        return None;
    }
    assert(entries(archive) =~= ods_entries(sheet));
    let ghost whole = archive;
    finish_archive(archive)
}

} // verus!
