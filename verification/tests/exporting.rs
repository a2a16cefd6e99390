// What Comma writes and will not read back.

use std::io::Read;

use comma::document::{Dialect, Document};
use comma::export::{escape, html, ods, Sheet};

const PLAIN: &str = "id,name,city\n1,Ada,London\n2,Grace,Arlington\n";

fn load(text: &str) -> Document {
    Document::from_bytes(text.as_bytes(), Dialect::comma()).expect("valid UTF-8")
}

fn titled(document: &Document) -> (Vec<String>, Vec<usize>) {
    let columns = (0..document.column_count())
        .map(|column| document.value(0, column).to_string())
        .collect();
    let rows = (1..document.row_count()).collect();
    (columns, rows)
}

fn lettered(document: &Document) -> (Vec<String>, Vec<usize>) {
    let columns = (0..document.column_count())
        .map(|column| format!("{}", (b'A' + column as u8) as char))
        .collect();
    let rows = (0..document.row_count()).collect();
    (columns, rows)
}

fn entry(ods: &[u8], name: &str) -> String {
    let mut archive =
        zip::ZipArchive::new(std::io::Cursor::new(ods)).expect("an export has to be a zip file");
    let mut content = String::new();
    archive
        .by_name(name)
        .expect("an export has to hold this entry")
        .read_to_string(&mut content)
        .unwrap();
    content
}

#[test]
fn a_web_page_holds_every_value_the_grid_shows() {
    let document = load(PLAIN);
    let (columns, rows) = titled(&document);
    let page = html::write(&Sheet {
        document: &document,
        columns: &columns,
        titled: true,
        rows: &rows,
        name: "plain.csv",
    });

    assert!(page.starts_with("<!DOCTYPE html>\n<html>\n<head>\n<meta charset=\"utf-8\">\n<title>plain.csv</title>"));
    assert!(page.contains("<tr><th>id</th><th>name</th><th>city</th></tr>"), "{page}");
    assert!(page.contains("<tr><td>1</td><td>Ada</td><td>London</td></tr>\n"), "{page}");
    assert!(page.contains("<td>Arlington</td>"), "{page}");
    assert!(!page.contains("<td>id</td>"));
    assert!(page.contains("white-space: pre-wrap"));
    assert!(page.ends_with("</tbody>\n</table>\n</body>\n</html>\n"));
}

#[test]
fn markup_in_a_value_is_escaped() {
    let mut document = load(PLAIN);
    document.set_value(1, 1, "<b>Ada</b> & \"Grace\"\u{7}");
    let (columns, rows) = lettered(&document);
    let page = html::write(&Sheet {
        document: &document,
        columns: &columns,
        titled: false,
        rows: &rows,
        name: "a<b>.csv",
    });

    assert!(page.contains("&lt;b&gt;Ada&lt;/b&gt; &amp; &quot;Grace&quot;</td>"), "{page}");
    assert!(page.contains("<title>a&lt;b&gt;.csv</title>"));
    assert!(!page.contains("<b>Ada</b>"));
    assert_eq!(escape("tab\there\r\nbell\u{7}"), "tab\there\r\nbell");
}

#[test]
fn a_sheet_is_written_in_the_order_it_is_given() {
    let document = load(PLAIN);
    let columns = vec!["A".to_string(), "B".to_string(), "C".to_string()];
    let sheet = Sheet {
        document: &document,
        columns: &columns,
        titled: false,
        rows: &[2, 1],
        name: "plain.csv",
    };
    assert_eq!(sheet.width(), 3);
    assert_eq!(sheet.height(), 2);
    assert_eq!(sheet.value(0, 1), "Grace");
    assert_eq!(sheet.value(1, 7), "");
    let page = html::write(&sheet);
    let grace = page.find("Grace").expect("the row it was given first");
    let ada = page.find("Ada").expect("the row it was given second");
    assert!(grace < ada);
}

#[test]
fn a_spreadsheet_starts_with_an_uncompressed_mimetype_and_holds_its_table() {
    let mut document = load(PLAIN);
    document.set_value(1, 2, "London\nEngland");
    let (columns, rows) = titled(&document);
    let bytes = ods::write(&Sheet {
        document: &document,
        columns: &columns,
        titled: true,
        rows: &rows,
        name: "plain.csv",
    })
    .expect("an archive in memory is written");

    let head = String::from_utf8_lossy(&bytes[..120]);
    assert!(head.contains("mimetype"), "{head}");
    assert!(head.contains("application/vnd.oasis.opendocument.spreadsheet"), "{head}");

    assert_eq!(entry(&bytes, "mimetype"), "application/vnd.oasis.opendocument.spreadsheet");
    assert!(entry(&bytes, "META-INF/manifest.xml").contains("content.xml"));
    let content = entry(&bytes, "content.xml");
    assert!(content.contains("<table:table table:name=\"plain.csv\">"), "{content}");
    assert!(content.contains("<text:p>London</text:p><text:p>England</text:p>"), "{content}");
    assert_eq!(content.matches("<table:table-row>").count(), 3, "titles and two rows");
    assert_eq!(content.matches("office:value-type=\"string\"").count(), 9);
    assert!(!content.contains("office:value-type=\"float\""));
}

#[test]
fn column_letters_are_not_written_into_a_spreadsheet_as_data() {
    let document = load("007,1234567890123456\n");
    let (columns, rows) = lettered(&document);
    let content = ods::content(&Sheet {
        document: &document,
        columns: &columns,
        titled: false,
        rows: &rows,
        name: "codes",
    });
    assert_eq!(content.matches("<table:table-row>").count(), 1);
    assert!(content.contains("<text:p>007</text:p>"));
    assert!(content.contains("<text:p>1234567890123456</text:p>"));
    assert!(!content.contains("<text:p>A</text:p>"));
}

#[test]
fn exporting_leaves_the_document_exactly_as_it_was() {
    let text = "a,\"b\"x\n\"unclosed\n";
    let document = load(text);
    let (columns, rows) = lettered(&document);
    let sheet = Sheet {
        document: &document,
        columns: &columns,
        titled: false,
        rows: &rows,
        name: "odd.csv",
    };
    html::write(&sheet);
    ods::write(&sheet);
    assert_eq!(document.to_bytes(), text.as_bytes());
    assert!(!document.is_modified());
}
