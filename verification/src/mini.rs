//! The compact listing: one row per message, with a snippet of its content.
use crate::envelope;
use crate::links;
use crate::snippet;
use envelope::Envelope;
use vstd::prelude::*;
use vstd::utf8::*;

verus! {

/// Compact envelope rows for fast, script-friendly list output.
#[derive(Clone, Debug)]
pub struct MiniEnvelopes(pub Vec<MiniEnvelope>);

/// One row of the compact listing.
#[derive(Clone, Debug)]
pub struct MiniEnvelope {
    pub id: String,
    pub from: String,
    pub content: String,
}

/// A row of the compact listing: identifier, senders and snippet.
pub type MiniRow = (Seq<char>, Seq<char>, Seq<char>);

impl View for MiniEnvelope {
    type V = MiniRow;

    open spec fn view(&self) -> MiniRow {
        (self.id@, self.from@, self.content@)
    }
}

impl View for MiniEnvelopes {
    type V = Seq<MiniRow>;

    open spec fn view(&self) -> Seq<MiniRow> {
        self.0@.map_values(|row: MiniEnvelope| row@)
    }
}

/// The snippet of a message; nothing where the message could not be read.
pub open spec fn message_preview(message: Option<Vec<u8>>) -> Seq<char> {
    match message {
        Some(raw) => snippet::preview(raw@),
        None => Seq::empty(),
    }
}

/// The snippet of a message, if it could be read, can be made.
pub open spec fn message_previewable(message: Option<Vec<u8>>) -> bool {
    message matches Some(raw) ==> snippet::previewable(raw@)
}

/// The row of an envelope and its message.
pub open spec fn mini_row(env: Envelope, message: Option<Vec<u8>>) -> MiniRow {
    (env.id@, envelope::labels(env.from@), message_preview(message))
}

/// The snippets of all messages that could be read can be made.
pub open spec fn all_previewable(messages: Seq<Option<Vec<u8>>>) -> bool {
    forall|k: int| 0 <= k < messages.len() ==> message_previewable(#[trigger] messages[k])
}

/// `content` is the snippet of the message's text, if the part of the message
/// that is looked at is valid UTF-8.
pub open spec fn shows_text(message: Option<Vec<u8>>, content: Seq<char>) -> bool {
    message matches Some(raw) ==> (valid_utf8(snippet::scanned(raw@)) ==> content
        == snippet::snippet(snippet::decoded_body(raw@)))
}

/// The part of the message that is looked at, if it could be read, is valid
/// UTF-8, and the links in its text can be extracted.
pub open spec fn is_plain(message: Option<Vec<u8>>) -> bool {
    message matches Some(raw) ==> {
        &&& valid_utf8(snippet::scanned(raw@))
        &&& links::scannable(snippet::sanitized(snippet::decoded_body(raw@)))
    }
}

/// A line of the compact listing.
pub open spec fn row_line(row: MiniRow) -> Seq<char> {
    row.0 + seq!['\t'] + row.1 + seq!['\t'] + row.2 + seq!['\n']
}

/// The lines of the compact listing, with the titles in front.
pub open spec fn listing(rows: Seq<MiniRow>) -> Seq<char>
    decreases rows.len(),
{
    if rows.len() == 0 {
        "ID\tFROM\tCONTENT\n"@
    } else {
        listing(rows.drop_last()) + row_line(rows.last())
    }
}

impl MiniEnvelopes {
    /// The rows of envelopes and their messages, in their order. A message is
    /// `None` where it could not be read.
    pub fn from_envelopes(envelopes: Vec<Envelope>, messages: &[Option<Vec<u8>>]) -> (mini: Self)
        requires
            envelopes@.len() == messages@.len(),
            all_previewable(messages@),
        ensures
            mini@.len() == envelopes@.len(),
            forall|k: int|
                0 <= k < mini@.len() ==> #[trigger] mini@[k] == mini_row(
                    envelopes@[k],
                    messages@[k],
                ),
            forall|k: int|
                0 <= k < mini@.len() ==> shows_text(messages@[k], (#[trigger] mini@[k]).2),
    {
        let mut rows: Vec<MiniEnvelope> = Vec::new();
        let mut k: usize = 0;
        while k < envelopes.len()
            invariant
                envelopes@.len() == messages@.len(),
                all_previewable(messages@),
                k <= envelopes@.len(),
                rows@.len() == k,
                forall|j: int|
                    0 <= j < k ==> (#[trigger] rows@[j])@ == mini_row(envelopes@[j], messages@[j]),
                forall|j: int| 0 <= j < k ==> shows_text(messages@[j], (#[trigger] rows@[j])@.2),
            decreases envelopes@.len() - k,
        {
            proof {
                assert(message_previewable(messages@[k as int]));
            }
            let content = match &messages[k] {
                Some(raw) => Self::preview_from_raw(raw.as_slice()),
                None => String::new(),
            };
            let env = &envelopes[k];
            rows.push(
                MiniEnvelope {
                    id: env.id.clone(),
                    from: envelope::format_addresses(env.from.as_slice()),
                    content,
                },
            );
            k += 1;
        }
        MiniEnvelopes(rows)
    }

    /// The rows, as `from_envelopes` gives them, where all snippets can be
    /// made.
    pub fn checked_from_envelopes(
        envelopes: Vec<Envelope>,
        messages: &[Option<Vec<u8>>],
    ) -> (mini: Option<Self>)
        requires
            envelopes@.len() == messages@.len(),
        ensures
            match mini {
                Some(m) => {
                    &&& all_previewable(messages@)
                    &&& m@.len() == envelopes@.len()
                    &&& forall|k: int|
                        0 <= k < m@.len() ==> #[trigger] m@[k] == mini_row(
                            envelopes@[k],
                            messages@[k],
                        )
                    &&& forall|k: int|
                        0 <= k < m@.len() ==> shows_text(messages@[k], (#[trigger] m@[k]).2)
                },
                None => !all_previewable(messages@),
            },
            (forall|k: int| 0 <= k < messages@.len() ==> is_plain(#[trigger] messages@[k]))
                ==> mini is Some,
    {
        let mut k: usize = 0;
        while k < messages.len()
            invariant
                k <= messages@.len(),
                forall|j: int| 0 <= j < k ==> message_previewable(#[trigger] messages@[j]),
            decreases messages@.len() - k,
        {
            if let Some(raw) = &messages[k] {
                if Self::checked_preview_from_raw(raw.as_slice()).is_none() {
                    proof {
                        assert(!message_previewable(messages@[k as int]));
                        assert(!is_plain(messages@[k as int]));
                    }
                    return None;
                }
            }
            k += 1;
        }
        Some(Self::from_envelopes(envelopes, messages))
    }

    /// The listing as text: a line of titles and a line for each row, with
    /// tabs between the columns.
    pub fn render(&self) -> (shown: String)
        ensures
            shown@ == listing(self@),
    {
        let mut shown = "ID\tFROM\tCONTENT\n".to_owned();
        let mut k: usize = 0;
        while k < self.0.len()
            invariant
                k <= self.0@.len(),
                shown@ == listing(self@.take(k as int)),
            decreases self.0@.len() - k,
        {
            let row = &self.0[k];
            proof {
                assert(self@.take(k + 1).drop_last() =~= self@.take(k as int));
                assert(self@.take(k + 1).last() == row@);
            }
            shown.append(row.id.as_str());
            shown.push('\t');
            shown.append(row.from.as_str());
            shown.push('\t');
            shown.append(row.content.as_str());
            shown.push('\n');
            proof {
                assert(shown@ =~= listing(self@.take(k + 1)));
            }
            k += 1;
        }
        proof {
            assert(self@.take(k as int) =~= self@);
        }
        shown
    }
}

/// The snippet takes up a column of its own: where the identifier and the
/// senders hold neither a tab nor a line end, the row is one line of three
/// columns.
pub proof fn law_row_is_one_line(env: Envelope, message: Option<Vec<u8>>)
    requires
        !env.id@.contains('\n') && !env.id@.contains('\t'),
        !envelope::labels(env.from@).contains('\n') && !envelope::labels(env.from@).contains('\t'),
    ensures
        ({
            let line = row_line(mini_row(env, message));
            let first = env.id@.len();
            let second = first + 1 + envelope::labels(env.from@).len();
            &&& second < line.len() - 1
            &&& forall|k: int|
                0 <= k < line.len() ==> (#[trigger] line[k] == '\n' <==> k == line.len() - 1)
            &&& forall|k: int|
                0 <= k < line.len() ==> (#[trigger] line[k] == '\t' <==> k == first || k == second)
        }),
{
    let row = mini_row(env, message);
    let line = row_line(row);
    let first = env.id@.len();
    let second = first + 1 + row.1.len();
    if let Some(raw) = message {
        snippet::law_snippet_fits(snippet::body(snippet::utf8_lossy(snippet::scanned(raw@))));
    }
    assert(!row.2.contains('\n') && !row.2.contains('\t'));
    assert forall|k: int| 0 <= k < line.len() implies {
        &&& (#[trigger] line[k] == '\n' <==> k == line.len() - 1)
        &&& (line[k] == '\t' <==> k == first || k == second)
    } by {
        if k < first {
            assert(line[k] == row.0[k]);
            assert(row.0.contains(line[k]));
        } else if first < k < second {
            assert(line[k] == row.1[k - first - 1]);
            assert(row.1.contains(line[k]));
        } else if second < k < line.len() - 1 {
            assert(line[k] == row.2[k - second - 1]);
            assert(row.2.contains(line[k]));
        }
    }
}

} // verus!
