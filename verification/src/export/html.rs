//! A table as a web page: one file, no links out, no scripts. Cells keep
//! their line breaks, and the stylesheet asks the browser not to collapse
//! them.

use vstd::prelude::*;
use super::{Sheet, escaped, put, put_escaped};
use crate::text::string_of;

verus! {

/// The stylesheet the page carries.
pub const STYLE: &'static str = "body { font-family: sans-serif; margin: 2rem; color: #222; background: #fff; }
h1 { font-size: 1.25rem; font-weight: 600; }
table { border-collapse: collapse; font-size: 0.9rem; }
th, td { border: 1px solid #ccc; padding: 0.25rem 0.5rem; text-align: left;
         vertical-align: top; white-space: pre-wrap; }
th { background: #f2f2f2; font-weight: 600; }
";

pub const PAGE_START: &'static str = "<!DOCTYPE html>\n<html>\n<head>\n<meta charset=\"utf-8\">\n<title>";

pub const TITLE_END: &'static str = "</title>\n<style>\n";

pub const STYLE_END: &'static str = "</style>\n</head>\n<body>\n<h1>";

pub const HEADING_END: &'static str = "</h1>\n<table>\n<thead>\n<tr>";

pub const HEAD_END: &'static str = "</tr>\n</thead>\n<tbody>\n";

pub const PAGE_END: &'static str = "</tbody>\n</table>\n</body>\n</html>\n";

/// The heading cells of the first `n` columns.
pub open spec fn headings(titles: Seq<Seq<char>>, n: int) -> Seq<char>
    decreases n,
{
    if n <= 0 {
        Seq::empty()
    } else {
        headings(titles, n - 1) + "<th>"@ + escaped(titles[n - 1]) + "</th>"@
    }
}

/// The data cells of the first `n` columns of one row of the sheet.
pub open spec fn cells(sheet: &Sheet, row: int, n: int) -> Seq<char>
    decreases n,
{
    if n <= 0 {
        Seq::empty()
    } else {
        cells(sheet, row, n - 1) + "<td>"@ + escaped(sheet.cell(row, n - 1)) + "</td>"@
    }
}

/// The first `n` rows of the sheet.
pub open spec fn body(sheet: &Sheet, n: int) -> Seq<char>
    decreases n,
{
    if n <= 0 {
        Seq::empty()
    } else {
        body(sheet, n - 1) + "<tr>"@ + cells(sheet, n - 1, sheet.columns@.len() as int) + "</tr>\n"@
    }
}

/// The whole page.
pub open spec fn page(sheet: &Sheet) -> Seq<char> {
    PAGE_START@ + escaped(sheet.name@) + TITLE_END@ + STYLE@ + STYLE_END@ + escaped(sheet.name@)
        + HEADING_END@ + headings(sheet.titles(), sheet.columns@.len() as int) + HEAD_END@ + body(
        sheet,
        sheet.rows@.len() as int,
    ) + PAGE_END@
}

/// Writes the sheet as a web page.
pub fn write(sheet: &Sheet) -> (r: String)
    requires
        sheet.valid(),
    ensures
        r@ == page(sheet),
{
    let mut page: Vec<char> = Vec::new();
    put(&mut page, PAGE_START);
    put_escaped(&mut page, sheet.name);
    put(&mut page, TITLE_END);
    put(&mut page, STYLE);
    put(&mut page, STYLE_END);
    put_escaped(&mut page, sheet.name);
    put(&mut page, HEADING_END);
    let ghost start = page@;
    let mut column: usize = 0;
    while column < sheet.width()
        invariant
            column <= sheet.columns@.len(),
            page@ == start + headings(sheet.titles(), column as int),
        decreases sheet.columns@.len() - column,
    {
        put(&mut page, "<th>");
        put_escaped(&mut page, sheet.columns[column].as_str());
        put(&mut page, "</th>");
        column = column + 1;
    }
    put(&mut page, HEAD_END);
    let ghost middle = page@;
    let mut row: usize = 0;
    while row < sheet.height()
        invariant
            sheet.valid(),
            row <= sheet.rows@.len(),
            page@ == middle + body(sheet, row as int),
        decreases sheet.rows@.len() - row,
    {
        put(&mut page, "<tr>");
        let ghost line = page@;
        let mut column: usize = 0;
        while column < sheet.width()
            invariant
                sheet.valid(),
                row < sheet.rows@.len(),
                column <= sheet.columns@.len(),
                page@ == line + cells(sheet, row as int, column as int),
            decreases sheet.columns@.len() - column,
        {
            put(&mut page, "<td>");
            put_escaped(&mut page, sheet.value(row, column));
            put(&mut page, "</td>");
            column = column + 1;
        }
        put(&mut page, "</tr>\n");
        row = row + 1;
    }
    put(&mut page, PAGE_END);
    string_of(page.as_slice())
}

} // verus!
