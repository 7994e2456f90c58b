//! Envelopes and the texts that a listing shows of them.
use crate::text;
use vstd::prelude::*;

verus! {

/// An address of a sender or a recipient.
#[derive(Clone, Debug)]
pub struct Address {
    /// The display name, if any.
    pub name: Option<String>,
    /// The email address.
    pub email: String,
}

/// A point in time, with the offset from UTC at which its author wrote it.
#[derive(Clone, Copy, Debug, PartialEq, Eq, Structural)]
pub struct Date {
    /// Seconds since the start of 1970 in UTC, without leap seconds.
    pub secs: i64,
    /// Nanoseconds within the second; more than a second's worth within a leap
    /// second.
    pub nanos: u32,
    /// Seconds by which local time is ahead of UTC.
    pub offset: i32,
}

/// Summary of a message, as far as a listing shows it.
#[derive(Clone, Debug)]
pub struct Envelope {
    /// Identifier of the message in its mailbox.
    pub id: String,
    /// The flags of the message in their wire spelling, as a set: neither
    /// order nor repetition matters.
    pub flags: Vec<String>,
    pub subject: String,
    /// The senders.
    pub from: Vec<Address>,
    /// The primary recipients.
    pub to: Vec<Address>,
    pub date: Option<Date>,
    /// Size of the message in bytes.
    pub size: u64,
    /// Whether the message has an attachment, where that is known.
    pub has_attachment: Option<bool>,
}

/// Glyphs that the FLAGS and ATT columns substitute in.
#[derive(Clone, Copy, Debug)]
pub struct FlagChars {
    pub unseen: char,
    pub replied: char,
    pub flagged: char,
    pub attachment: char,
}

/// The instants that a calendar of the years -262143 to 262142 holds.
pub open spec fn valid_instant(secs: i64, nanos: u32) -> bool {
    &&& -8334601228800 <= secs <= 8210266876799
    &&& nanos < 1_000_000_000 || (nanos < 2_000_000_000 && secs % 60 == 59)
}

/// Offsets from UTC are smaller than a day.
pub open spec fn valid_offset(offset: i32) -> bool {
    -86400 < offset < 86400
}

impl Date {
    /// The date is one of the calendar, at a possible offset.
    pub open spec fn wf(self) -> bool {
        valid_instant(self.secs, self.nanos) && valid_offset(self.offset)
    }
}

/// A flag without the mark of a system flag or a registered keyword in front.
pub open spec fn unmarked(raw: Seq<char>) -> Seq<char> {
    if raw.len() > 0 && (raw[0] == '\\' || raw[0] == '$') {
        raw.skip(1)
    } else {
        raw
    }
}

/// `raw` spells the flag `name`, whatever its mark and its case.
pub open spec fn spells(raw: Seq<char>, name: Seq<char>) -> bool {
    text::lowered(unmarked(raw)) == name
}

/// One of `flags` spells `name`.
pub open spec fn has_flag(flags: Seq<Seq<char>>, name: Seq<char>) -> bool {
    exists|k: int| 0 <= k < flags.len() && spells(#[trigger] flags[k], name)
}

/// The three slots of the FLAGS column: unseen, replied, flagged.
pub open spec fn flag_widget(flags: Seq<Seq<char>>, chars: FlagChars) -> Seq<char> {
    seq![
        if has_flag(flags, "seen"@) {
            ' '
        } else {
            chars.unseen
        },
        if has_flag(flags, "answered"@) {
            chars.replied
        } else {
            ' '
        },
        if has_flag(flags, "flagged"@) {
            chars.flagged
        } else {
            ' '
        },
    ]
}

/// The text of the ATT column.
pub open spec fn attachment_text(has: Option<bool>, glyph: char) -> Seq<char> {
    match has {
        Some(true) => seq![glyph],
        Some(false) => Seq::empty(),
        None => seq!['?'],
    }
}

/// What is shown of an address: its display name, or the email address where
/// there is none.
pub open spec fn label(address: Address) -> Seq<char> {
    match address.name {
        Some(name) => if name@.len() > 0 {
            name@
        } else {
            address.email@
        },
        None => address.email@,
    }
}

/// The labels of addresses, separated by commas.
pub open spec fn labels(addresses: Seq<Address>) -> Seq<char> {
    text::joined(addresses.map_values(|a: Address| label(a)), ", "@)
}

/// The text that chrono's `DateTime::format` makes of the instant `secs` and
/// `nanos` at the given offset; nothing where it does not know the format.
pub uninterp spec fn strftime(secs: i64, nanos: u32, offset: i32, format: Seq<char>) -> Option<
    Seq<char>,
>;

/// The format is known, whatever the date.
pub open spec fn known_format(format: Seq<char>) -> bool {
    forall|d: Date|
        d.wf() ==> (#[trigger] strftime(d.secs, d.nanos, d.offset, format)) is Some
}

/// `shown` is the text of `date` at the local offset, or at the date's own
/// where none is given.
pub open spec fn shown_at(
    date: Option<Date>,
    format: Seq<char>,
    local_offset: Option<i32>,
    shown: Seq<char>,
) -> bool {
    match date {
        None => shown == Seq::<char>::empty(),
        Some(d) => {
            let offset = match local_offset {
                Some(o) => o,
                None => d.offset,
            };
            strftime(d.secs, d.nanos, offset, format) == Some(shown)
        },
    }
}

/// `shown` is the text of `date`, at some local offset if `local_tz`.
pub open spec fn shown_as(
    date: Option<Date>,
    format: Seq<char>,
    local_tz: bool,
    shown: Seq<char>,
) -> bool {
    if local_tz {
        exists|o: i32| valid_offset(o) && #[trigger] shown_at(date, format, Some(o), shown)
    } else {
        shown_at(date, format, None, shown)
    }
}

/// The text that humansize's `format_size` makes of a size, in its `BINARY`
/// units.
pub uninterp spec fn binary_size(size: u64) -> Seq<char>;

/// `Flag::is_seen` of io_email, on the flag that `Flag::from_raw` makes of the
/// wire spelling: the flag is `seen`, in any case, marked or not.
#[verifier::external_body]
fn is_seen(raw: &str) -> (yes: bool)
    ensures
        yes == spells(raw@, "seen"@),
{
    io_email::flag::types::Flag::from_raw(raw).is_seen()
}

/// `Flag::is_answered` of io_email, on the flag that `Flag::from_raw` makes of
/// the wire spelling: the flag is `answered`, in any case, marked or not.
#[verifier::external_body]
fn is_answered(raw: &str) -> (yes: bool)
    ensures
        yes == spells(raw@, "answered"@),
{
    io_email::flag::types::Flag::from_raw(raw).is_answered()
}

/// `Flag::is_flagged` of io_email, on the flag that `Flag::from_raw` makes of
/// the wire spelling: the flag is `flagged`, in any case, marked or not.
#[verifier::external_body]
fn is_flagged(raw: &str) -> (yes: bool)
    ensures
        yes == spells(raw@, "flagged"@),
{
    io_email::flag::types::Flag::from_raw(raw).is_flagged()
}

/// `DateTime::format` of chrono, at a fixed offset. The text depends on the
/// instant, the offset and the format alone. Whether there is one depends on
/// the format alone.
#[verifier::external_body]
fn chrono_format(secs: i64, nanos: u32, offset: i32, format: &str) -> (shown: Option<String>)
    requires
        valid_instant(secs, nanos),
        valid_offset(offset),
    ensures
        match shown {
            Some(s) => strftime(secs, nanos, offset, format@) == Some(s@),
            None => strftime(secs, nanos, offset, format@) is None,
        },
        shown is Some ==> known_format(format@),
{
    let instant = chrono::DateTime::from_timestamp(secs, nanos)?;
    let zoned = instant.with_timezone(&chrono::FixedOffset::east_opt(offset)?);
    let mut shown = String::new();
    zoned.format(format).write_to(&mut shown).ok()?;
    Some(shown)
}

/// The offset of chrono's `Local` time zone at an instant, by which
/// `DateTime::with_timezone` moves a date there. It rests on the time zone of
/// the machine; nothing is said of it but that it is smaller than a day.
#[verifier::external_body]
fn chrono_local_offset(secs: i64, nanos: u32) -> (offset: Option<i32>)
    requires
        valid_instant(secs, nanos),
    ensures
        offset is Some,
        valid_offset(offset->0),
{
    let instant = chrono::DateTime::from_timestamp(secs, nanos)?;
    Some(instant.with_timezone(&chrono::Local).offset().local_minus_utc())
}

/// `format_size` of humansize with its `BINARY` options, whose result depends
/// on the size alone.
#[verifier::external_body]
pub(crate) fn humansize_binary(size: u64) -> (shown: String)
    ensures
        shown@ == binary_size(size),
{
    humansize::format_size(size, humansize::BINARY)
}

/// Which of the seen, answered and flagged flags are among `flags`.
fn find_flags(flags: &[String]) -> (found: (bool, bool, bool))
    ensures
        found.0 == has_flag(text::views(flags@), "seen"@),
        found.1 == has_flag(text::views(flags@), "answered"@),
        found.2 == has_flag(text::views(flags@), "flagged"@),
{
    let mut seen = false;
    let mut answered = false;
    let mut flagged = false;
    let mut k: usize = 0;
    let ghost raws = text::views(flags@);
    while k < flags.len()
        invariant
            raws == text::views(flags@),
            k <= flags@.len(),
            seen == has_flag(raws.take(k as int), "seen"@),
            answered == has_flag(raws.take(k as int), "answered"@),
            flagged == has_flag(raws.take(k as int), "flagged"@),
        decreases flags@.len() - k,
    {
        let raw = flags[k].as_str();
        proof {
            assert(raws[k as int] == raw@);
            lemma_has_flag_step(raws, k as int, "seen"@);
            lemma_has_flag_step(raws, k as int, "answered"@);
            lemma_has_flag_step(raws, k as int, "flagged"@);
        }
        seen = seen || is_seen(raw);
        answered = answered || is_answered(raw);
        flagged = flagged || is_flagged(raw);
        k += 1;
    }
    proof {
        assert(raws.take(k as int) =~= raws);
    }
    (seen, answered, flagged)
}

proof fn lemma_has_flag_step(flags: Seq<Seq<char>>, k: int, name: Seq<char>)
    requires
        0 <= k < flags.len(),
    ensures
        has_flag(flags.take(k + 1), name) == (has_flag(flags.take(k), name) || spells(
            flags[k],
            name,
        )),
{
    let more = flags.take(k + 1);
    if has_flag(flags.take(k), name) {
        let j = choose|j: int| 0 <= j < k && spells(#[trigger] flags.take(k)[j], name);
        assert(more[j] == flags.take(k)[j]);
    }
    if spells(flags[k], name) {
        assert(more[k] == flags[k]);
    }
    if has_flag(more, name) {
        let j = choose|j: int| 0 <= j < k + 1 && spells(#[trigger] more[j], name);
        if j < k {
            assert(flags.take(k)[j] == more[j]);
        }
    }
}

/// The FLAGS column depends on which flags there are, and neither on their
/// order nor on repetition.
pub proof fn law_flags_are_a_set(a: Seq<Seq<char>>, b: Seq<Seq<char>>, chars: FlagChars)
    requires
        forall|flag: Seq<char>| a.contains(flag) <==> b.contains(flag),
    ensures
        flag_widget(a, chars) == flag_widget(b, chars),
{
    lemma_has_flag_of_set(a, b, "seen"@);
    lemma_has_flag_of_set(b, a, "seen"@);
    lemma_has_flag_of_set(a, b, "answered"@);
    lemma_has_flag_of_set(b, a, "answered"@);
    lemma_has_flag_of_set(a, b, "flagged"@);
    lemma_has_flag_of_set(b, a, "flagged"@);
}

proof fn lemma_has_flag_of_set(a: Seq<Seq<char>>, b: Seq<Seq<char>>, name: Seq<char>)
    requires
        forall|flag: Seq<char>| a.contains(flag) ==> b.contains(flag),
    ensures
        has_flag(a, name) ==> has_flag(b, name),
{
    if has_flag(a, name) {
        let k = choose|k: int| 0 <= k < a.len() && spells(#[trigger] a[k], name);
        assert(a.contains(a[k]));
        let j = choose|j: int| 0 <= j < b.len() && b[j] == a[k];
        assert(spells(b[j], name));
    }
}

/// The FLAGS column: three slots, for unseen, replied and flagged, each with
/// its glyph or a space.
pub fn format_flags(flags: &[String], chars: &FlagChars) -> (shown: String)
    ensures
        shown@ == flag_widget(text::views(flags@), *chars),
        shown@.len() == 3,
        has_flag(text::views(flags@), "seen"@) ==> shown@[0] == ' ',
        !has_flag(text::views(flags@), "seen"@) ==> shown@[0] == chars.unseen,
        has_flag(text::views(flags@), "answered"@) ==> shown@[1] == chars.replied,
        !has_flag(text::views(flags@), "answered"@) ==> shown@[1] == ' ',
        has_flag(text::views(flags@), "flagged"@) ==> shown@[2] == chars.flagged,
        !has_flag(text::views(flags@), "flagged"@) ==> shown@[2] == ' ',
{
    let (seen, answered, flagged) = find_flags(flags);
    let mut shown = String::new();
    shown.push(if seen {
        ' '
    } else {
        chars.unseen
    });
    shown.push(if answered {
        chars.replied
    } else {
        ' '
    });
    shown.push(if flagged {
        chars.flagged
    } else {
        ' '
    });
    proof {
        assert(shown@ =~= flag_widget(text::views(flags@), *chars));
    }
    shown
}

/// The ATT column: the glyph, nothing, or `?` where it is not known.
pub fn format_attachment(has: Option<bool>, glyph: char) -> (shown: String)
    ensures
        shown@ == attachment_text(has, glyph),
{
    let mut shown = String::new();
    match has {
        Some(true) => {
            shown.push(glyph);
        },
        Some(false) => {},
        None => {
            shown.push('?');
        },
    }
    proof {
        assert(shown@ =~= attachment_text(has, glyph));
    }
    shown
}

/// The labels of addresses, separated by commas.
pub fn format_addresses(addresses: &[Address]) -> (shown: String)
    ensures
        shown@ == labels(addresses@),
{
    let ghost parts = addresses@.map_values(|a: Address| label(a));
    let mut shown = String::new();
    let mut k: usize = 0;
    while k < addresses.len()
        invariant
            parts == addresses@.map_values(|a: Address| label(a)),
            k <= addresses@.len(),
            shown@ == text::joined(parts.take(k as int), ", "@),
        decreases addresses@.len() - k,
    {
        proof {
            assert(parts.take(k + 1).drop_last() =~= parts.take(k as int));
            assert(parts.take(k + 1).last() == label(addresses@[k as int]));
        }
        if k > 0 {
            shown.append(", ");
        }
        let address = &addresses[k];
        match &address.name {
            Some(name) => {
                if name.as_str().is_empty() {
                    shown.append(address.email.as_str());
                } else {
                    shown.append(name.as_str());
                }
            },
            None => {
                shown.append(address.email.as_str());
            },
        }
        proof {
            assert(shown@ =~= text::joined(parts.take(k + 1), ", "@));
        }
        k += 1;
    }
    proof {
        assert(parts.take(k as int) =~= parts);
    }
    shown
}

/// The text of `date` at the local offset, or at the date's own where none is
/// given; nothing where there is no date.
pub fn format_date_at(date: Option<Date>, format: &str, local_offset: Option<i32>) -> (shown:
    String)
    requires
        date matches Some(d) ==> d.wf() && known_format(format@),
        local_offset matches Some(o) ==> valid_offset(o),
    ensures
        shown_at(date, format@, local_offset, shown@),
{
    match date {
        None => String::new(),
        Some(d) => {
            let offset: i32 = match local_offset {
                Some(o) => o,
                None => d.offset,
            };
            proof {
                let zoned = Date { secs: d.secs, nanos: d.nanos, offset };
                assert(zoned.wf());
                assert(strftime(zoned.secs, zoned.nanos, zoned.offset, format@) is Some);
            }
            match chrono_format(d.secs, d.nanos, offset, format) {
                Some(shown) => shown,
                None => String::new(),
            }
        },
    }
}

/// The text of `date`, at the offset of the machine's time zone if `local_tz`
/// and else at the date's own; nothing where there is no date.
pub fn format_date(date: Option<Date>, format: &str, local_tz: bool) -> (shown: String)
    requires
        date matches Some(d) ==> d.wf() && known_format(format@),
    ensures
        shown_as(date, format@, local_tz, shown@),
{
    if local_tz {
        let offset: i32 = match date {
            None => 0,
            Some(d) => match chrono_local_offset(d.secs, d.nanos) {
                Some(o) => o,
                None => 0,
            },
        };
        let shown = format_date_at(date, format, Some(offset));
        proof {
            assert(valid_offset(offset) && shown_at(date, format@, Some(offset), shown@));
        }
        shown
    } else {
        format_date_at(date, format, None)
    }
}

/// Whether dates can be shown in a format.
pub fn is_known_format(format: &str) -> (yes: bool)
    ensures
        yes == known_format(format@),
{
    match chrono_format(0, 0, 0, format) {
        Some(_) => true,
        None => {
            proof {
                let epoch = Date { secs: 0, nanos: 0, offset: 0 };
                assert(epoch.wf());
                assert(strftime(epoch.secs, epoch.nanos, epoch.offset, format@) is None);
            }
            false
        },
    }
}

/// The text of `date`, as `format_date` gives it, where the format is known.
pub fn checked_format_date(date: Option<Date>, format: &str, local_tz: bool) -> (shown: Option<
    String,
>)
    requires
        date matches Some(d) ==> d.wf(),
    ensures
        match shown {
            Some(s) => shown_as(date, format@, local_tz, s@),
            None => date is Some && !known_format(format@),
        },
        date is Some ==> (shown is Some <==> known_format(format@)),
{
    if date.is_none() || is_known_format(format) {
        Some(format_date(date, format, local_tz))
    } else {
        None
    }
}

} // verus!
