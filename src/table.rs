//! The three table formats: Markdown, AsciiDoc and Org-mode.
use vstd::prelude::*;
use crate::quantity::{unit_label, Unit};
use crate::report::{Cells, Row};

verus! {

/// A table format.
#[derive(Clone, Copy, Debug, PartialEq, Eq, Structural)]
pub enum Format {
    Markdown,
    Asciidoc,
    Orgmode,
}

pub open spec fn header_text(format: Format, u: Seq<char>) -> Seq<char> {
    match format {
        Format::Markdown => "| Command | Mean ["@ + u + "] | Min ["@ + u + "] | Max ["@ + u
            + "] | Relative |\n|:---|---:|---:|---:|---:|\n"@,
        Format::Asciidoc => "[cols=\"<,>,>,>,>\"]\n|===\n| Command \n| Mean ["@ + u + "] \n| Min ["@
            + u + "] \n| Max ["@ + u + "] \n| Relative \n"@,
        Format::Orgmode => "| Command  |  Mean ["@ + u + "] |  Min ["@ + u + "] |  Max ["@ + u
            + "] |  Relative |\n|--+--+--+--+--|\n"@,
    }
}

pub open spec fn row_text(format: Format, c: Cells) -> Seq<char> {
    match format {
        Format::Markdown => "| `"@ + c.0 + "` | "@ + c.1 + " | "@ + c.2 + " | "@ + c.3 + " | "@
            + c.4 + " |\n"@,
        Format::Asciidoc => "\n| `"@ + c.0 + "` \n| "@ + c.1 + " \n| "@ + c.2 + " \n| "@ + c.3
            + " \n| "@ + c.4 + " \n"@,
        Format::Orgmode => "| ="@ + c.0 + "=  |  "@ + c.1 + " |  "@ + c.2 + " |  "@ + c.3 + " |  "@
            + c.4 + " |\n"@,
    }
}

pub open spec fn footer_text(format: Format) -> Seq<char> {
    match format {
        Format::Asciidoc => "|===\n"@,
        _ => Seq::empty(),
    }
}

pub open spec fn rows_text(format: Format, rows: Seq<Cells>) -> Seq<char>
    decreases rows.len(),
{
    if rows.len() == 0 {
        Seq::empty()
    } else {
        rows_text(format, rows.drop_last()) + row_text(format, rows.last())
    }
}

/// The whole table: header, one line (or block) per row, footer.
pub open spec fn table_text(format: Format, rows: Seq<Cells>, unit: Unit) -> Seq<char> {
    header_text(format, unit_label(unit)) + rows_text(format, rows) + footer_text(format)
}

pub open spec fn cells_of(rows: Seq<Row>) -> Seq<Cells> {
    rows.map_values(|r: Row| r.cells())
}

fn push_header(out: &mut String, format: Format, unit: Unit)
    ensures
        final(out)@ == old(out)@ + header_text(format, unit_label(unit)),
{
    let u = unit.short_name();
    match format {
        Format::Markdown => {
            out.append("| Command | Mean [");
            out.append(u);
            out.append("] | Min [");
            out.append(u);
            out.append("] | Max [");
            out.append(u);
            out.append("] | Relative |\n|:---|---:|---:|---:|---:|\n");
        },
        Format::Asciidoc => {
            out.append("[cols=\"<,>,>,>,>\"]\n|===\n| Command \n| Mean [");
            out.append(u);
            out.append("] \n| Min [");
            out.append(u);
            out.append("] \n| Max [");
            out.append(u);
            out.append("] \n| Relative \n");
        },
        Format::Orgmode => {
            out.append("| Command  |  Mean [");
            out.append(u);
            out.append("] |  Min [");
            out.append(u);
            out.append("] |  Max [");
            out.append(u);
            out.append("] |  Relative |\n|--+--+--+--+--|\n");
        },
    }
    assert(final(out)@ =~= old(out)@ + header_text(format, unit_label(unit)));
}

fn push_row(out: &mut String, format: Format, row: &Row)
    ensures
        final(out)@ == old(out)@ + row_text(format, row.cells()),
{
    let c = row.command.as_str();
    let m = row.mean.as_str();
    let lo = row.min.as_str();
    let hi = row.max.as_str();
    let rel = row.relative.as_str();
    match format {
        Format::Markdown => {
            out.append("| `");
            out.append(c);
            out.append("` | ");
            out.append(m);
            out.append(" | ");
            out.append(lo);
            out.append(" | ");
            out.append(hi);
            out.append(" | ");
            out.append(rel);
            out.append(" |\n");
        },
        Format::Asciidoc => {
            out.append("\n| `");
            out.append(c);
            out.append("` \n| ");
            out.append(m);
            out.append(" \n| ");
            out.append(lo);
            out.append(" \n| ");
            out.append(hi);
            out.append(" \n| ");
            out.append(rel);
            out.append(" \n");
        },
        Format::Orgmode => {
            out.append("| =");
            out.append(c);
            out.append("=  |  ");
            out.append(m);
            out.append(" |  ");
            out.append(lo);
            out.append(" |  ");
            out.append(hi);
            out.append(" |  ");
            out.append(rel);
            out.append(" |\n");
        },
    }
    assert(final(out)@ =~= old(out)@ + row_text(format, row.cells()));
}

/// Renders the rows as a table in the format, with times in the unit.
pub fn render(format: Format, rows: &Vec<Row>, unit: Unit) -> (text: String)
    ensures
        text@ == table_text(format, cells_of(rows@), unit),
{
    let mut out = String::new();
    push_header(&mut out, format, unit);
    let ghost head = out@;
    let mut i: usize = 0;
    while i < rows.len()
        invariant
            i <= rows@.len(),
            out@ == head + rows_text(format, cells_of(rows@).subrange(0, i as int)),
        decreases rows@.len() - i,
    {
        push_row(&mut out, format, &rows[i]);
        proof {
            let cs = cells_of(rows@);
            assert(cs.subrange(0, i + 1).drop_last() =~= cs.subrange(0, i as int));
            assert(out@ =~= head + rows_text(format, cs.subrange(0, i + 1)));
        }
        i = i + 1;
    }
    proof {
        assert(cells_of(rows@).subrange(0, rows@.len() as int) =~= cells_of(rows@));
    }
    match format {
        Format::Asciidoc => {
            out.append("|===\n");
        },
        _ => {},
    }
    assert(out@ =~= table_text(format, cells_of(rows@), unit));
    out
}

} // verus!
