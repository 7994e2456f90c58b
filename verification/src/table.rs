//! The table of envelopes for the terminal.
use crate::envelope;
use crate::text;
use comfy_table::Cell;
use comfy_table::Color;
use comfy_table::ContentArrangement;
use comfy_table::Row;
use comfy_table::Table;
use envelope::Envelope;
use envelope::FlagChars;
use vstd::prelude::*;

verus! {

/// The colors of comfy_table, carried through.
#[verifier::external_type_specification]
#[verifier::external_body]
pub struct ExColor(Color);

/// The ways in which comfy_table arranges content, carried through.
#[verifier::external_type_specification]
#[verifier::external_body]
pub struct ExContentArrangement(ContentArrangement);

/// The cells of comfy_table.
#[verifier::external_type_specification]
#[verifier::external_body]
pub struct ExCell(Cell);

/// The rows of comfy_table.
#[verifier::external_type_specification]
#[verifier::external_body]
pub struct ExRow(Row);

/// The tables of comfy_table.
#[verifier::external_type_specification]
#[verifier::external_body]
pub struct ExTable(Table);

/// A cell: its text, and its foreground color where it has one of its own.
pub type CellModel = (Seq<char>, Option<Color>);

/// A row: its cells, and the number of lines to which they are cut.
#[verifier::ext_equal]
pub struct RowModel {
    pub cells: Seq<CellModel>,
    pub max_height: Option<int>,
}

/// A table: the characters with which its components are drawn, a space for one
/// that is not drawn, the arrangement, the header, the rows, and the width
/// where one is set.
#[verifier::ext_equal]
pub struct TableModel {
    pub style: Seq<char>,
    pub arrangement: ContentArrangement,
    pub header: Option<RowModel>,
    pub rows: Seq<RowModel>,
    pub width: Option<u16>,
}

/// The style of a new table.
pub open spec fn default_style() -> Seq<char> {
    "||--+==+|-+||++++++"@
}

/// `style` with its characters replaced by those of `preset`, as far as either
/// goes.
pub open spec fn restyled(style: Seq<char>, preset: Seq<char>) -> Seq<char> {
    Seq::new(
        style.len(),
        |k: int|
            if k < preset.len() {
                preset[k]
            } else {
                style[k]
            },
    )
}

/// What a cell of comfy_table holds.
pub uninterp spec fn cell_model(cell: Cell) -> CellModel;

/// What a row of comfy_table holds.
pub uninterp spec fn row_model(row: Row) -> RowModel;

/// What a table of comfy_table holds.
pub uninterp spec fn table_model(table: Table) -> TableModel;

/// `Cell::new` of comfy_table: a cell with the text, without a color.
#[verifier::external_body]
fn new_cell(content: &str) -> (cell: Cell)
    ensures
        cell_model(cell) == (content@, None::<Color>),
{
    Cell::new(content)
}

/// `Cell::fg` of comfy_table: gives the cell a foreground color.
#[verifier::external_body]
fn with_fg(cell: Cell, color: Color) -> (colored: Cell)
    ensures
        cell_model(colored) == (cell_model(cell).0, Some(color)),
{
    cell.fg(color)
}

/// `Row::new` of comfy_table: no cells, and no limit on their height.
#[verifier::external_body]
fn new_row() -> (row: Row)
    ensures
        row_model(row) == (RowModel { cells: Seq::empty(), max_height: None }),
{
    Row::new()
}

/// `Row::max_height` of comfy_table: limits the height of the cells.
#[verifier::external_body]
fn set_max_height(row: &mut Row, lines: usize)
    ensures
        row_model(*final(row)) == (RowModel {
            cells: row_model(*old(row)).cells,
            max_height: Some(lines as int),
        }),
{
    row.max_height(lines);
}

/// `Row::add_cell` of comfy_table: the cell becomes the last one.
#[verifier::external_body]
fn add_cell(row: &mut Row, cell: Cell)
    ensures
        row_model(*final(row)) == (RowModel {
            cells: row_model(*old(row)).cells.push(cell_model(cell)),
            max_height: row_model(*old(row)).max_height,
        }),
{
    row.add_cell(cell);
}

/// Adds a cell with a text in a color.
fn add_colored_cell(row: &mut Row, content: &str, color: Color)
    ensures
        row_model(*final(row)) == (RowModel {
            cells: row_model(*old(row)).cells.push((content@, Some(color))),
            max_height: row_model(*old(row)).max_height,
        }),
{
    let cell = with_fg(new_cell(content), color);
    add_cell(row, cell);
}

/// `Table::new` of comfy_table: the default style, neither header nor rows, no
/// width. Its arrangement is left unsaid.
#[verifier::external_body]
fn new_table() -> (table: Table)
    ensures
        table_model(table).style == default_style(),
        table_model(table).header is None,
        table_model(table).rows == Seq::<RowModel>::empty(),
        table_model(table).width is None,
{
    Table::new()
}

/// `Table::load_preset` of comfy_table: the characters of the preset replace
/// those of the style, as far as either goes. Nothing else changes.
#[verifier::external_body]
fn load_preset(table: &mut Table, preset: &str)
    ensures
        table_model(*final(table)) == (TableModel {
            style: restyled(table_model(*old(table)).style, preset@),
            ..table_model(*old(table))
        }),
{
    table.load_preset(preset);
}

/// The `Clone` of comfy_table's `ContentArrangement` gives the same arrangement.
pub assume_specification[ <ContentArrangement as Clone>::clone ](
    arrangement: &ContentArrangement,
) -> (same: ContentArrangement)
    ensures
        same == *arrangement,
;

/// `Table::set_content_arrangement` of comfy_table: sets the arrangement and
/// nothing else.
#[verifier::external_body]
fn set_content_arrangement(table: &mut Table, arrangement: ContentArrangement)
    ensures
        table_model(*final(table)) == (TableModel {
            arrangement,
            ..table_model(*old(table))
        }),
{
    table.set_content_arrangement(arrangement);
}

/// `Table::set_header` of comfy_table: the row becomes the header.
#[verifier::external_body]
fn set_header(table: &mut Table, header: Row)
    ensures
        table_model(*final(table)) == (TableModel {
            header: Some(row_model(header)),
            ..table_model(*old(table))
        }),
{
    table.set_header(header);
}

/// `Table::add_row` of comfy_table: the row becomes the last one.
#[verifier::external_body]
fn add_row(table: &mut Table, row: Row)
    ensures
        table_model(*final(table)) == (TableModel {
            rows: table_model(*old(table)).rows.push(row_model(row)),
            ..table_model(*old(table))
        }),
{
    table.add_row(row);
}

/// `Table::set_width` of comfy_table: sets the width and nothing else.
#[verifier::external_body]
fn set_width(table: &mut Table, width: u16)
    ensures
        table_model(*final(table)) == (TableModel {
            width: Some(width),
            ..table_model(*old(table))
        }),
{
    table.set_width(width);
}

/// Foreground colors of the columns of the table of envelopes. `Color::Reset`
/// stands for that of the terminal.
#[derive(Clone, Copy, Debug)]
pub struct EnvelopeColors {
    pub id: Color,
    pub flags: Color,
    pub att: Color,
    pub subject: Color,
    pub from: Color,
    pub to: Color,
    pub date: Color,
    pub size: Color,
}

/// Table of envelope rows rendered to the terminal.
#[derive(Clone, Debug)]
pub struct Envelopes {
    pub preset: String,
    pub arrangement: ContentArrangement,
    pub max_width: Option<u16>,
    pub datetime_fmt: String,
    pub datetime_local_tz: bool,
    /// Show recipients instead of senders.
    pub recipient: bool,
    /// Show the ATT column.
    pub with_attachment: bool,
    pub chars: FlagChars,
    pub colors: EnvelopeColors,
    pub envelopes: Vec<Envelope>,
}

/// A header cell.
pub open spec fn title(text: Seq<char>) -> CellModel {
    (text, None)
}

/// The header of a table with or without the ATT column, for senders or
/// recipients.
pub open spec fn header_model(with_attachment: bool, recipient: bool) -> RowModel {
    let first = seq![title("ID"@), title("FLAGS"@)];
    let attachment = if with_attachment {
        seq![title("ATT"@)]
    } else {
        Seq::empty()
    };
    let last = seq![
        title("SUBJECT"@),
        title(
            if recipient {
                "TO"@
            } else {
                "FROM"@
            },
        ),
        title("DATE"@),
        title("SIZE"@),
    ];
    RowModel { cells: first + attachment + last, max_height: None }
}

impl Envelopes {
    /// The dates are ones of the calendar.
    pub open spec fn wf(self) -> bool {
        forall|k: int|
            0 <= k < self.envelopes@.len() ==> (#[trigger] self.envelopes@[k].date matches Some(d)
                ==> d.wf())
    }

    /// The format of dates is known, if there is a date.
    pub open spec fn showable(self) -> bool {
        forall|k: int|
            0 <= k < self.envelopes@.len() ==> (#[trigger] self.envelopes@[k].date is Some
                ==> envelope::known_format(self.datetime_fmt@))
    }

    /// The row of an envelope whose date is shown as `date`: one line high,
    /// with the cells of the header's columns, each in the color of its column.
    pub open spec fn envelope_row(self, env: Envelope, date: Seq<char>) -> RowModel {
        let flags = envelope::flag_widget(text::views(env.flags@), self.chars);
        let first = seq![(env.id@, Some(self.colors.id)), (flags, Some(self.colors.flags))];
        let attachment = if self.with_attachment {
            let shown = envelope::attachment_text(env.has_attachment, self.chars.attachment);
            seq![(shown, Some(self.colors.att))]
        } else {
            Seq::empty()
        };
        let people = if self.recipient {
            (envelope::labels(env.to@), Some(self.colors.to))
        } else {
            (envelope::labels(env.from@), Some(self.colors.from))
        };
        let last = seq![
            (env.subject@, Some(self.colors.subject)),
            people,
            (date, Some(self.colors.date)),
            (envelope::binary_size(env.size), Some(self.colors.size)),
        ];
        RowModel { cells: first + attachment + last, max_height: Some(1) }
    }

    /// `row` is the row of an envelope, with its date in the set format.
    pub open spec fn shows(self, env: Envelope, row: RowModel) -> bool {
        exists|date: Seq<char>|
            envelope::shown_as(env.date, self.datetime_fmt@, self.datetime_local_tz, date) && row
                == #[trigger] self.envelope_row(env, date)
    }

    /// The header row.
    fn header(&self) -> (header: Row)
        ensures
            row_model(header) == header_model(self.with_attachment, self.recipient),
    {
        let mut header = new_row();
        add_cell(&mut header, new_cell("ID"));
        add_cell(&mut header, new_cell("FLAGS"));
        if self.with_attachment {
            add_cell(&mut header, new_cell("ATT"));
        }
        add_cell(&mut header, new_cell("SUBJECT"));
        add_cell(
            &mut header,
            new_cell(
                if self.recipient {
                    "TO"
                } else {
                    "FROM"
                },
            ),
        );
        add_cell(&mut header, new_cell("DATE"));
        add_cell(&mut header, new_cell("SIZE"));
        proof {
            assert(row_model(header).cells =~= header_model(
                self.with_attachment,
                self.recipient,
            ).cells);
        }
        header
    }

    /// The row of an envelope whose date is shown as `date`.
    pub fn row(&self, env: &Envelope, date: &str) -> (row: Row)
        ensures
            row_model(row) == self.envelope_row(*env, date@),
    {
        let mut row = new_row();
        set_max_height(&mut row, 1);
        add_colored_cell(&mut row, env.id.as_str(), self.colors.id);
        let flags = envelope::format_flags(env.flags.as_slice(), &self.chars);
        add_colored_cell(&mut row, flags.as_str(), self.colors.flags);
        if self.with_attachment {
            let attachment = envelope::format_attachment(
                env.has_attachment,
                self.chars.attachment,
            );
            add_colored_cell(&mut row, attachment.as_str(), self.colors.att);
        }
        add_colored_cell(&mut row, env.subject.as_str(), self.colors.subject);
        if self.recipient {
            let to = envelope::format_addresses(env.to.as_slice());
            add_colored_cell(&mut row, to.as_str(), self.colors.to);
        } else {
            let from = envelope::format_addresses(env.from.as_slice());
            add_colored_cell(&mut row, from.as_str(), self.colors.from);
        }
        add_colored_cell(&mut row, date, self.colors.date);
        let size = envelope::humansize_binary(env.size);
        add_colored_cell(&mut row, size.as_str(), self.colors.size);
        proof {
            assert(row_model(row).cells =~= self.envelope_row(*env, date@).cells);
        }
        row
    }

    /// The table: the header and a row for each envelope, in their order, with
    /// the set style, arrangement and width.
    pub fn table(&self) -> (table: Table)
        requires
            self.wf(),
            self.showable(),
        ensures
            self.is_table(table_model(table)),
    {
        let mut table = new_table();
        load_preset(&mut table, self.preset.as_str());
        set_content_arrangement(&mut table, self.arrangement.clone());
        set_header(&mut table, self.header());
        let ghost empty = table_model(table);
        let mut k: usize = 0;
        while k < self.envelopes.len()
            invariant
                self.wf(),
                self.showable(),
                k <= self.envelopes@.len(),
                table_model(table) == (TableModel { rows: table_model(table).rows, ..empty }),
                table_model(table).rows.len() == k,
                forall|j: int|
                    0 <= j < k ==> self.shows(
                        self.envelopes@[j],
                        #[trigger] table_model(table).rows[j],
                    ),
            decreases self.envelopes@.len() - k,
        {
            let env = &self.envelopes[k];
            let date = envelope::format_date(
                env.date,
                self.datetime_fmt.as_str(),
                self.datetime_local_tz,
            );
            let row = self.row(env, date.as_str());
            proof {
                assert(self.shows(*env, row_model(row)));
            }
            add_row(&mut table, row);
            k += 1;
        }
        if let Some(width) = self.max_width {
            set_width(&mut table, width);
        }
        table
    }

    /// `table` has the header and a row for each envelope, in their order, and
    /// the set style, arrangement and width.
    pub open spec fn is_table(self, table: TableModel) -> bool {
        &&& table.style == restyled(default_style(), self.preset@)
        &&& table.arrangement == self.arrangement
        &&& table.header == Some(header_model(self.with_attachment, self.recipient))
        &&& table.width == self.max_width
        &&& table.rows.len() == self.envelopes@.len()
        &&& forall|j: int|
            0 <= j < table.rows.len() ==> self.shows(self.envelopes@[j], #[trigger] table.rows[j])
    }

    /// The table, as `table` gives it, where the format of dates is known.
    pub fn checked_table(&self) -> (table: Option<Table>)
        requires
            self.wf(),
        ensures
            match table {
                Some(t) => self.showable() && self.is_table(table_model(t)),
                None => !self.showable(),
            },
    {
        if !envelope::is_known_format(self.datetime_fmt.as_str()) {
            let mut k: usize = 0;
            while k < self.envelopes.len()
                invariant
                    k <= self.envelopes@.len(),
                    !envelope::known_format(self.datetime_fmt@),
                    forall|j: int| 0 <= j < k ==> (#[trigger] self.envelopes@[j].date) is None,
                decreases self.envelopes@.len() - k,
            {
                if self.envelopes[k].date.is_some() {
                    return None;
                }
                k += 1;
            }
        }
        Some(self.table())
    }
}

/// The text of a table between two line ends.
pub fn framed(shown: &str) -> (out: String)
    ensures
        out@ == seq!['\n'] + shown@ + seq!['\n'],
{
    let mut out = String::new();
    out.push('\n');
    out.append(shown);
    out.push('\n');
    proof {
        assert(out@ =~= seq!['\n'] + shown@ + seq!['\n']);
    }
    out
}

/// Every row of a table has as many cells as its header.
pub proof fn law_rows_fit_the_header(envelopes: Envelopes, table: TableModel, k: int)
    requires
        envelopes.is_table(table),
        0 <= k < table.rows.len(),
    ensures
        table.header matches Some(header) && table.rows[k].cells.len() == header.cells.len(),
{
    assert(envelopes.shows(envelopes.envelopes@[k], table.rows[k]));
}

} // verus!
