//! The command that lists the envelopes of a mailbox.
use crate::envelope;
use crate::table;
use comfy_table::ContentArrangement;
use envelope::Envelope;
use envelope::FlagChars;
use table::EnvelopeColors;
use table::Envelopes;
use vstd::prelude::*;

verus! {

/// List the envelopes of a mailbox, most recent first.
#[derive(Clone, Copy, Debug)]
pub struct EnvelopeListCommand {
    /// Page number, starting from 1. The most recent envelopes are on page 1.
    pub page: u32,
    /// Maximum number of envelopes per page. When omitted, the configured
    /// value is used.
    pub page_size: Option<u32>,
    /// Maximum width of the rendered table, in terminal columns.
    pub max_width: Option<u16>,
    /// Render recipients instead of senders.
    pub recipient: bool,
    /// Populate the ATT column.
    pub has_attachment: bool,
    /// Show compact plain output.
    pub fastplain: bool,
}

/// Which envelopes of a mailbox are asked for.
#[derive(Clone, Copy, Debug, PartialEq, Eq, Structural)]
pub struct ListRequest {
    /// The page, from 1 on; `None` for no particular one.
    pub page: Option<u32>,
    /// The number of envelopes per page; `None` for no limit.
    pub page_size: Option<u32>,
    /// Whether attachments are looked for.
    pub has_attachment: bool,
}

/// How an account wants its tables.
#[derive(Clone, Debug)]
pub struct TableSettings {
    pub preset: String,
    pub arrangement: ContentArrangement,
    pub datetime_fmt: String,
    pub datetime_local_tz: bool,
    pub chars: FlagChars,
    pub colors: EnvelopeColors,
}

/// What is printed of envelopes.
#[derive(Clone, Debug)]
pub enum Listing {
    /// The compact listing of them, which takes their messages too.
    Mini(Vec<Envelope>),
    /// The table of them.
    Table(Envelopes),
}

/// `n`, unless it is 0.
pub open spec fn positive(n: u32) -> Option<u32> {
    if n > 0 {
        Some(n)
    } else {
        None
    }
}

/// Which envelopes a command asks for, where an account has `configured`
/// envelopes per page.
pub open spec fn requested(command: EnvelopeListCommand, configured: u32) -> ListRequest {
    ListRequest {
        page: positive(command.page),
        page_size: positive(
            match command.page_size {
                Some(size) => size,
                None => configured,
            },
        ),
        has_attachment: command.has_attachment,
    }
}

/// What a command prints of envelopes.
pub open spec fn printed(
    command: EnvelopeListCommand,
    settings: TableSettings,
    envelopes: Vec<Envelope>,
) -> Listing {
    if command.fastplain {
        Listing::Mini(envelopes)
    } else {
        Listing::Table(
            Envelopes {
                preset: settings.preset,
                arrangement: settings.arrangement,
                max_width: command.max_width,
                datetime_fmt: settings.datetime_fmt,
                datetime_local_tz: settings.datetime_local_tz,
                recipient: command.recipient,
                with_attachment: command.has_attachment,
                chars: settings.chars,
                colors: settings.colors,
                envelopes,
            },
        )
    }
}

impl EnvelopeListCommand {
    /// Which envelopes are asked for, where an account has `configured`
    /// envelopes per page. The page size of the command comes before that of
    /// the account. 0 stands for no page and for no limit.
    pub fn request(&self, configured: u32) -> (request: ListRequest)
        ensures
            request.page == positive(self.page),
            request.page_size == positive(
                match self.page_size {
                    Some(size) => size,
                    None => configured,
                },
            ),
            request.has_attachment == self.has_attachment,
            request == requested(*self, configured),
    {
        let size: u32 = match self.page_size {
            Some(size) => size,
            None => configured,
        };
        ListRequest {
            page: if self.page > 0 {
                Some(self.page)
            } else {
                None
            },
            page_size: if size > 0 {
                Some(size)
            } else {
                None
            },
            has_attachment: self.has_attachment,
        }
    }

    /// What is printed of the envelopes that came back: the compact listing if
    /// the command asks for it, else the table in the settings of the account
    /// and of the command.
    pub fn execute(self, settings: TableSettings, envelopes: Vec<Envelope>) -> (listing: Listing)
        ensures
            listing == if self.fastplain {
                Listing::Mini(envelopes)
            } else {
                Listing::Table(
                    (Envelopes {
                        preset: settings.preset,
                        arrangement: settings.arrangement,
                        max_width: self.max_width,
                        datetime_fmt: settings.datetime_fmt,
                        datetime_local_tz: settings.datetime_local_tz,
                        recipient: self.recipient,
                        with_attachment: self.has_attachment,
                        chars: settings.chars,
                        colors: settings.colors,
                        envelopes,
                    }),
                )
            },
            listing == printed(self, settings, envelopes),
    {
        if self.fastplain {
            return Listing::Mini(envelopes);
        }
        Listing::Table(
            Envelopes {
                preset: settings.preset,
                arrangement: settings.arrangement,
                max_width: self.max_width,
                datetime_fmt: settings.datetime_fmt,
                datetime_local_tz: settings.datetime_local_tz,
                recipient: self.recipient,
                with_attachment: self.has_attachment,
                chars: settings.chars,
                colors: settings.colors,
                envelopes,
            },
        )
    }
}

} // verus!
