//! Laws of the command and of the compact listing.
use crate::command;
use crate::envelope;
use crate::mini;
use crate::snippet;
use command::EnvelopeListCommand;
use command::Listing;
use command::TableSettings;
use envelope::Envelope;
use vstd::prelude::*;

verus! {

/// The page and the size of pages are asked for as they are given, and 0 stands
/// for none.
pub proof fn law_zero_asks_for_nothing(command: EnvelopeListCommand, configured: u32)
    ensures
        ({
            let request = command::requested(command, configured);
            &&& request.page is None <==> command.page == 0
            &&& request.page matches Some(page) ==> page == command.page
            &&& request.has_attachment == command.has_attachment
            &&& command.page_size == Some(0u32) ==> request.page_size is None
            &&& command.page_size is None && configured == 0 ==> request.page_size is None
            &&& command.page_size is None && configured > 0 ==> request.page_size == Some(
                configured,
            )
        }),
{
}

/// The size of pages that a command gives is asked for, whatever the account
/// has configured.
pub proof fn law_command_overrides_the_account(
    command: EnvelopeListCommand,
    one: u32,
    other: u32,
)
    requires
        command.page_size is Some,
    ensures
        command::requested(command, one) == command::requested(command, other),
        command.page_size->0 > 0 ==> command::requested(command, one).page_size
            == command.page_size,
{
}

/// The compact listing is printed exactly if it is asked for, and all envelopes
/// are printed in either case.
pub proof fn law_fastplain_decides(
    command: EnvelopeListCommand,
    settings: TableSettings,
    envelopes: Vec<Envelope>,
)
    ensures
        match command::printed(command, settings, envelopes) {
            Listing::Mini(listed) => command.fastplain && listed == envelopes,
            Listing::Table(table) => !command.fastplain && table.envelopes == envelopes,
        },
{
}

/// The table takes its columns and its width from the command, and its looks
/// from the account.
pub proof fn law_table_takes_the_settings(
    command: EnvelopeListCommand,
    settings: TableSettings,
    envelopes: Vec<Envelope>,
)
    ensures
        command::printed(command, settings, envelopes) matches Listing::Table(table) ==> {
            &&& table.with_attachment == command.has_attachment
            &&& table.recipient == command.recipient
            &&& table.max_width == command.max_width
            &&& table.preset == settings.preset
            &&& table.arrangement == settings.arrangement
            &&& table.datetime_fmt == settings.datetime_fmt
            &&& table.datetime_local_tz == settings.datetime_local_tz
            &&& table.chars == settings.chars
            &&& table.colors == settings.colors
        },
{
}

/// The listing is a line of titles, and each row adds a line with its columns
/// and tabs between them.
pub proof fn law_each_row_adds_a_line(rows: Seq<mini::MiniRow>, row: mini::MiniRow)
    ensures
        mini::listing(Seq::empty()) == "ID\tFROM\tCONTENT\n"@,
        mini::listing(rows.push(row)) == mini::listing(rows) + row.0 + "\t"@ + row.1 + "\t"@
            + row.2 + "\n"@,
{
    reveal_strlit("\t");
    reveal_strlit("\n");
    assert(rows.push(row).drop_last() =~= rows);
    assert(rows.push(row).last() == row);
    assert(mini::listing(rows.push(row)) =~= mini::listing(rows) + row.0 + "\t"@ + row.1 + "\t"@
        + row.2 + "\n"@);
}

/// A row shows the identifier and the senders of its envelope, and the preview
/// of its message where that could be read.
pub proof fn law_row_shows_its_envelope(env: Envelope, message: Option<Vec<u8>>)
    ensures
        ({
            let row = mini::mini_row(env, message);
            &&& row.0 == env.id@
            &&& row.1 == envelope::labels(env.from@)
            &&& message is None ==> row.2.len() == 0
            &&& message matches Some(raw) ==> row.2 == snippet::preview(raw@)
        }),
{
}

/// A row shows nothing else of its envelope: recipients, subject, date and
/// flags leave it as it is.
pub proof fn law_row_depends_on_id_and_senders(
    one: Envelope,
    other: Envelope,
    message: Option<Vec<u8>>,
)
    requires
        one.id@ == other.id@,
        one.from@ == other.from@,
    ensures
        mini::mini_row(one, message) == mini::mini_row(other, message),
{
}

/// Messages that could not be read need no preview, and the others need one
/// each.
pub proof fn law_messages_that_were_read_need_a_preview(messages: Seq<Option<Vec<u8>>>)
    ensures
        mini::all_previewable(messages) <==> forall|k: int|
            0 <= k < messages.len() && (#[trigger] messages[k]) is Some ==> snippet::previewable(
                messages[k]->0@,
            ),
{
    if forall|k: int|
        0 <= k < messages.len() && (#[trigger] messages[k]) is Some ==> snippet::previewable(
            messages[k]->0@,
        ) {
        assert forall|k: int| 0 <= k < messages.len() implies mini::message_previewable(
            #[trigger] messages[k],
        ) by {}
    }
    if mini::all_previewable(messages) {
        assert forall|k: int| 0 <= k < messages.len() && (#[trigger] messages[k]) is Some implies
            snippet::previewable(messages[k]->0@) by {
            assert(mini::message_previewable(messages[k]));
        }
    }
}

} // verus!
