//! Laws of the table of envelopes and of its cells.
use crate::envelope;
use crate::laws::texts;
use crate::table;
use crate::text;
use comfy_table::Color;
use envelope::Address;
use envelope::Date;
use envelope::Envelope;
use envelope::FlagChars;
use table::Envelopes;
use table::RowModel;
use table::TableModel;
use vstd::prelude::*;

verus! {

/// A flag is written by its name in any case, with or without `\` or `$` in
/// front.
pub open spec fn written_as(raw: Seq<char>, name: Seq<char>) -> bool {
    ||| text::lowered(raw) == name
    ||| text::lowered(raw) == "\\"@ + name
    ||| text::lowered(raw) == "$"@ + name
}

/// One of the flags is written by the name.
pub open spec fn has(flags: Seq<Seq<char>>, name: Seq<char>) -> bool {
    exists|k: int| 0 <= k < flags.len() && written_as(#[trigger] flags[k], name)
}

proof fn lemma_written(raw: Seq<char>, name: Seq<char>)
    requires
        name.len() > 0,
        name[0] != '\\' && name[0] != '$',
    ensures
        written_as(raw, name) <==> envelope::spells(raw, name),
{
    assert("\\"@ =~= seq!['\\']) by {
        reveal_strlit("\\");
    }
    assert("$"@ =~= seq!['$']) by {
        reveal_strlit("$");
    }
    let lower = text::lowered(raw);
    if raw.len() > 0 {
        let rest = text::lowered(raw.skip(1));
        assert(lower =~= seq![text::lowered_char(raw[0])] + rest);
        assert((seq!['\\'] + name)[0] == '\\');
        assert((seq!['$'] + name)[0] == '$');
        assert((seq!['\\'] + name).skip(1) =~= name);
        assert((seq!['$'] + name).skip(1) =~= name);
        assert(lower.skip(1) =~= rest);
        assert(lower[0] == text::lowered_char(raw[0]));
    }
}

proof fn lemma_has(flags: Seq<Seq<char>>, name: Seq<char>)
    requires
        name.len() > 0,
        name[0] != '\\' && name[0] != '$',
    ensures
        has(flags, name) <==> envelope::has_flag(flags, name),
{
    assert forall|k: int| 0 <= k < flags.len() implies written_as(#[trigger] flags[k], name)
        == envelope::spells(flags[k], name) by {
        lemma_written(flags[k], name);
    }
}

/// Each slot of the FLAGS column depends on its own flag alone. The first is
/// the glyph of an unseen message unless a flag says that it is seen. The
/// second and the third are their glyphs exactly if a flag says so.
pub proof fn law_each_slot_has_its_own_flag(flags: Seq<Seq<char>>, chars: FlagChars)
    ensures
        ({
            let shown = envelope::flag_widget(flags, chars);
            &&& shown.len() == 3
            &&& shown[0] == if has(flags, "seen"@) {
                ' '
            } else {
                chars.unseen
            }
            &&& shown[1] == if has(flags, "answered"@) {
                chars.replied
            } else {
                ' '
            }
            &&& shown[2] == if has(flags, "flagged"@) {
                chars.flagged
            } else {
                ' '
            }
        }),
{
    reveal_strlit("seen");
    reveal_strlit("answered");
    reveal_strlit("flagged");
    lemma_has(flags, "seen"@);
    lemma_has(flags, "answered"@);
    lemma_has(flags, "flagged"@);
}

/// Two messages that agree on one flag show the same in its slot, however they
/// differ in the others.
pub proof fn law_slots_are_independent(
    one: Seq<Seq<char>>,
    other: Seq<Seq<char>>,
    chars: FlagChars,
)
    ensures
        has(one, "seen"@) == has(other, "seen"@) ==> envelope::flag_widget(one, chars)[0]
            == envelope::flag_widget(other, chars)[0],
        has(one, "answered"@) == has(other, "answered"@) ==> envelope::flag_widget(one, chars)[1]
            == envelope::flag_widget(other, chars)[1],
        has(one, "flagged"@) == has(other, "flagged"@) ==> envelope::flag_widget(one, chars)[2]
            == envelope::flag_widget(other, chars)[2],
{
    law_each_slot_has_its_own_flag(one, chars);
    law_each_slot_has_its_own_flag(other, chars);
}

/// An attachment shows as the glyph, none as nothing, and what is not known as
/// a question mark.
pub proof fn law_attachments_show(glyph: char)
    ensures
        envelope::attachment_text(Some(true), glyph).len() == 1,
        envelope::attachment_text(Some(true), glyph)[0] == glyph,
        envelope::attachment_text(Some(false), glyph).len() == 0,
        envelope::attachment_text(None, glyph) == "?"@,
{
    reveal_strlit("?");
    assert(envelope::attachment_text(None, glyph) =~= "?"@);
}

/// An address shows as its name, or as its email address where it has none or
/// an empty one.
pub proof fn law_an_address_shows_its_name(address: Address)
    ensures
        ({
            let shown = envelope::labels(seq![address]);
            &&& address.name is None ==> shown == address.email@
            &&& address.name matches Some(name) ==> {
                &&& name@.len() == 0 ==> shown == address.email@
                &&& name@.len() > 0 ==> shown == name@
            }
        }),
{
    let parts = seq![address].map_values(|a: Address| envelope::label(a));
    assert(parts.len() == 1);
    assert(parts[0] == envelope::label(address));
}

/// Addresses stand in their order, with a comma and a space between neighbours.
pub proof fn law_addresses_are_separated_by_commas(one: Seq<Address>, other: Seq<Address>)
    ensures
        envelope::labels(Seq::empty()) == Seq::<char>::empty(),
        one.len() > 0 && other.len() > 0 ==> envelope::labels(one + other) == envelope::labels(one)
            + ", "@ + envelope::labels(other),
{
    let f = |a: Address| envelope::label(a);
    assert(Seq::<Address>::empty().map_values(f) =~= Seq::empty());
    assert((one + other).map_values(f) =~= one.map_values(f) + other.map_values(f));
    if one.len() > 0 && other.len() > 0 {
        texts::law_joining_puts_one_separator_between(
            one.map_values(f),
            other.map_values(f),
            Seq::empty(),
            ", "@,
        );
    }
}

/// No date shows as nothing, at whatever offset.
pub proof fn law_no_date_shows_nothing(format: Seq<char>, local_tz: bool, shown: Seq<char>)
    ensures
        envelope::shown_as(None, format, local_tz, shown) <==> shown.len() == 0,
        forall|o: Option<i32>| #[trigger]
            envelope::shown_at(None, format, o, shown) <==> shown.len() == 0,
{
    if shown.len() == 0 {
        assert(shown =~= Seq::empty());
        assert(envelope::valid_offset(0) && envelope::shown_at(None, format, Some(0i32), shown));
    }
}

/// A date shows as the formatted instant, at its own offset or, in local time,
/// at one of less than a day.
pub proof fn law_a_date_shows_its_instant(d: Date, format: Seq<char>, shown: Seq<char>)
    ensures
        envelope::shown_as(Some(d), format, false, shown) <==> envelope::strftime(
            d.secs,
            d.nanos,
            d.offset,
            format,
        ) == Some(shown),
        envelope::shown_as(Some(d), format, true, shown) <==> exists|o: i32|
            -86400 < o < 86400 && #[trigger] envelope::strftime(d.secs, d.nanos, o, format)
                == Some(shown),
{
    if exists|o: i32|
        -86400 < o < 86400 && #[trigger] envelope::strftime(d.secs, d.nanos, o, format) == Some(
            shown,
        ) {
        let o = choose|o: i32|
            -86400 < o < 86400 && #[trigger] envelope::strftime(d.secs, d.nanos, o, format)
                == Some(shown);
        assert(envelope::valid_offset(o) && envelope::shown_at(Some(d), format, Some(o), shown));
    }
}

/// A date at a given offset shows as the same instant written at that offset.
pub proof fn law_an_offset_moves_a_date(d: Date, offset: i32, format: Seq<char>, shown: Seq<char>)
    ensures
        envelope::shown_at(Some(d), format, Some(offset), shown) <==> envelope::shown_at(
            Some(Date { secs: d.secs, nanos: d.nanos, offset }),
            format,
            None,
            shown,
        ),
{
}

/// All instants of the calendar are valid at all offsets of less than a day.
pub proof fn law_the_calendar_is_valid(d: Date)
    requires
        -8334601228800 <= d.secs <= 8210266876799,
        d.nanos < 1_000_000_000,
        -86400 < d.offset < 86400,
    ensures
        d.wf(),
{
}

/// The titles of the columns, in their order.
pub proof fn law_titles(with_attachment: bool, recipient: bool)
    ensures
        ({
            let header = table::header_model(with_attachment, recipient);
            let titles = header.cells.map_values(|cell: (Seq<char>, Option<Color>)| cell.0);
            let people = if recipient {
                "TO"@
            } else {
                "FROM"@
            };
            &&& with_attachment ==> titles == seq![
                "ID"@,
                "FLAGS"@,
                "ATT"@,
                "SUBJECT"@,
                people,
                "DATE"@,
                "SIZE"@,
            ]
            &&& !with_attachment ==> titles == seq![
                "ID"@,
                "FLAGS"@,
                "SUBJECT"@,
                people,
                "DATE"@,
                "SIZE"@,
            ]
            &&& forall|k: int|
                0 <= k < header.cells.len() ==> (#[trigger] header.cells[k]).1 is None
            &&& header.max_height is None
        }),
{
}

/// Every cell stands under its title, in the color of its column, and rows are
/// one line high.
pub proof fn law_cells_stand_under_their_titles(
    envelopes: Envelopes,
    env: Envelope,
    date: Seq<char>,
    i: int,
)
    requires
        0 <= i < table::header_model(envelopes.with_attachment, envelopes.recipient).cells.len(),
    ensures
        ({
            let title = table::header_model(
                envelopes.with_attachment,
                envelopes.recipient,
            ).cells[i].0;
            let row = envelopes.envelope_row(env, date);
            let cell = row.cells[i];
            let colors = envelopes.colors;
            &&& row.max_height == Some(1int)
            &&& title == "ID"@ ==> cell == (env.id@, Some(colors.id))
            &&& title == "FLAGS"@ ==> cell == (
                envelope::flag_widget(text::views(env.flags@), envelopes.chars),
                Some(colors.flags),
            )
            &&& title == "ATT"@ ==> cell == (
                envelope::attachment_text(env.has_attachment, envelopes.chars.attachment),
                Some(colors.att),
            )
            &&& title == "SUBJECT"@ ==> cell == (env.subject@, Some(colors.subject))
            &&& title == "FROM"@ ==> cell == (envelope::labels(env.from@), Some(colors.from))
            &&& title == "TO"@ ==> cell == (envelope::labels(env.to@), Some(colors.to))
            &&& title == "DATE"@ ==> cell == (date, Some(colors.date))
            &&& title == "SIZE"@ ==> cell == (envelope::binary_size(env.size), Some(colors.size))
        }),
{
    reveal_strlit("ID");
    reveal_strlit("FLAGS");
    reveal_strlit("ATT");
    reveal_strlit("SUBJECT");
    reveal_strlit("FROM");
    reveal_strlit("TO");
    reveal_strlit("DATE");
    reveal_strlit("SIZE");
    assert("FROM"@[0] == 'F' && "DATE"@[0] == 'D' && "SIZE"@[0] == 'S');
    assert("ID"@[0] == 'I' && "TO"@[0] == 'T');
    let header = table::header_model(envelopes.with_attachment, envelopes.recipient).cells;
    let cells = envelopes.envelope_row(env, date).cells;
    let people = if envelopes.recipient {
        "TO"@
    } else {
        "FROM"@
    };
    let shown = if envelopes.recipient {
        (envelope::labels(env.to@), Some(envelopes.colors.to))
    } else {
        (envelope::labels(env.from@), Some(envelopes.colors.from))
    };
    assert(header[0].0 == "ID"@ && header[1].0 == "FLAGS"@);
    let n: int = if envelopes.with_attachment {
        assert(header[2].0 == "ATT"@);
        3
    } else {
        2
    };
    assert(header[n].0 == "SUBJECT"@ && header[n + 1].0 == people && header[n + 2].0 == "DATE"@
        && header[n + 3].0 == "SIZE"@);
    assert(cells[n + 1] == shown);
    assert(header.len() == n + 4);
    assert(i == 0 || i == 1 || (i == 2 && n == 3) || i == n || i == n + 1 || i == n + 2 || i == n
        + 3);
}

/// A table has one row for each envelope, in their order, with its date, and
/// the set arrangement and width.
pub proof fn law_a_table_shows_all_envelopes(envelopes: Envelopes, shown: TableModel)
    requires
        envelopes.is_table(shown),
    ensures
        shown.rows.len() == envelopes.envelopes@.len(),
        shown.width == envelopes.max_width,
        shown.arrangement == envelopes.arrangement,
        shown.header == Some(
            table::header_model(envelopes.with_attachment, envelopes.recipient),
        ),
        forall|j: int|
            0 <= j < shown.rows.len() ==> shows_dated(
                envelopes,
                envelopes.envelopes@[j],
                #[trigger] shown.rows[j],
            ),
{
    assert forall|j: int| 0 <= j < shown.rows.len() implies shows_dated(
        envelopes,
        envelopes.envelopes@[j],
        #[trigger] shown.rows[j],
    ) by {
        assert(envelopes.shows(envelopes.envelopes@[j], shown.rows[j]));
    }
}

/// The row is that of the envelope, with its date in the set format.
pub open spec fn shows_dated(envelopes: Envelopes, env: Envelope, row: RowModel) -> bool {
    exists|date: Seq<char>|
        row == #[trigger] envelopes.envelope_row(env, date) && envelope::shown_as(
            env.date,
            envelopes.datetime_fmt@,
            envelopes.datetime_local_tz,
            date,
        )
}

/// The style of a table is its preset, filled up to 19 characters from the
/// default style.
pub proof fn law_a_preset_sets_the_style(envelopes: Envelopes, shown: TableModel, k: int)
    requires
        envelopes.is_table(shown),
        0 <= k < 19,
    ensures
        shown.style.len() == 19,
        k < envelopes.preset@.len() ==> shown.style[k] == envelopes.preset@[k],
        k >= envelopes.preset@.len() ==> shown.style[k] == "||--+==+|-+||++++++"@[k],
{
    reveal_strlit("||--+==+|-+||++++++");
}

/// A table needs a known format of dates exactly if there is a date in it.
pub proof fn law_dates_need_a_known_format(envelopes: Envelopes, k: int)
    ensures
        envelope::known_format(envelopes.datetime_fmt@) ==> envelopes.showable(),
        (forall|j: int|
            0 <= j < envelopes.envelopes@.len() ==> (#[trigger] envelopes.envelopes@[j]).date
                is None) ==> envelopes.showable(),
        0 <= k < envelopes.envelopes@.len() && envelopes.envelopes@[k].date is Some
            && !envelope::known_format(envelopes.datetime_fmt@) ==> !envelopes.showable(),
{
    if forall|j: int|
        0 <= j < envelopes.envelopes@.len() ==> (#[trigger] envelopes.envelopes@[j]).date is None {
        assert(envelopes.showable());
    }
}

} // verus!
