//! The command, the table and the compact listing.
use chrono::{DateTime, Local};
use comfy_table::{Cell, Color, ContentArrangement, Table};
use envelope_list::command::{EnvelopeListCommand, ListRequest, Listing, TableSettings};
use envelope_list::envelope::{
    checked_format_date, format_addresses, format_attachment, format_date, format_date_at,
    format_flags, is_known_format, Address, Date, Envelope, FlagChars,
};
use envelope_list::mini::MiniEnvelopes;
use envelope_list::table::{framed, EnvelopeColors, Envelopes};

const CHARS: FlagChars = FlagChars {
    unseen: '*',
    replied: 'R',
    flagged: '!',
    attachment: '@',
};

fn strings(items: &[&str]) -> Vec<String> {
    items.iter().map(|item| item.to_string()).collect()
}

fn address(name: Option<&str>, email: &str) -> Address {
    Address {
        name: name.map(|name| name.to_string()),
        email: email.to_string(),
    }
}

fn envelope(id: &str) -> Envelope {
    Envelope {
        id: id.to_string(),
        flags: strings(&["\\Answered"]),
        subject: "First line\nSecond line".to_string(),
        from: vec![address(Some("Alice"), "alice@a.test"), address(None, "b@b.test")],
        to: vec![address(Some(""), "carol@c.test")],
        date: Some(Date {
            secs: 1_700_000_000,
            nanos: 0,
            offset: 3600,
        }),
        size: 1536,
        has_attachment: Some(true),
    }
}

fn settings() -> TableSettings {
    TableSettings {
        preset: "     == |          ".to_string(),
        arrangement: ContentArrangement::Dynamic,
        datetime_fmt: "%Y-%m-%d %H:%M".to_string(),
        datetime_local_tz: false,
        chars: CHARS,
        colors: EnvelopeColors {
            id: Color::Red,
            flags: Color::Green,
            att: Color::Yellow,
            subject: Color::Blue,
            from: Color::Magenta,
            to: Color::Cyan,
            date: Color::White,
            size: Color::Grey,
        },
    }
}

fn command() -> EnvelopeListCommand {
    EnvelopeListCommand {
        page: 1,
        page_size: None,
        max_width: Some(100),
        recipient: false,
        has_attachment: true,
        fastplain: false,
    }
}

fn listed(command: EnvelopeListCommand, settings: TableSettings) -> Envelopes {
    match command.execute(settings, vec![envelope("1"), envelope("2")]) {
        Listing::Table(envelopes) => envelopes,
        Listing::Mini(_) => panic!("no table"),
    }
}

fn texts(row: &comfy_table::Row) -> Vec<String> {
    row.cell_iter().map(|cell| cell.content()).collect()
}

#[test]
fn flags_show_in_three_slots() {
    assert_eq!(format_flags(&[], &CHARS), "*  ");
    assert_eq!(format_flags(&strings(&["\\Seen"]), &CHARS), "   ");
    assert_eq!(
        format_flags(&strings(&["$answered", "FLAGGED", "seen"]), &CHARS),
        " R!"
    );
    assert_eq!(
        format_flags(&strings(&["$Junk", "\\\\Seen", "seen2", ""]), &CHARS),
        "*  "
    );
}

#[test]
fn neither_order_nor_repetition_of_flags_matters() {
    let once = format_flags(&strings(&["\\Seen", "\\Flagged"]), &CHARS);
    assert_eq!(once, "  !");
    assert_eq!(
        format_flags(&strings(&["\\Flagged", "\\Seen", "\\Flagged"]), &CHARS),
        once
    );
}

#[test]
fn attachments_show_as_glyph_or_question_mark() {
    assert_eq!(format_attachment(Some(true), '@'), "@");
    assert_eq!(format_attachment(Some(false), '@'), "");
    assert_eq!(format_attachment(None, '@'), "?");
}

#[test]
fn addresses_show_by_name_where_they_have_one() {
    assert_eq!(format_addresses(&[]), "");
    assert_eq!(
        format_addresses(&[
            address(Some("Alice"), "alice@a.test"),
            address(Some(""), "bob@b.test"),
            address(None, "carol@c.test"),
        ]),
        "Alice, bob@b.test, carol@c.test"
    );
}

#[test]
fn dates_show_at_their_own_offset() {
    let date = Date {
        secs: 0,
        nanos: 0,
        offset: 5400,
    };
    assert_eq!(
        format_date(Some(date), "%Y-%m-%d %H:%M:%S %z", false),
        "1970-01-01 01:30:00 +0130"
    );
    assert_eq!(format_date(None, "%Y", false), "");
}

#[test]
fn dates_show_at_a_given_offset() {
    let date = Date {
        secs: 0,
        nanos: 250_000_000,
        offset: 5400,
    };
    assert_eq!(
        format_date_at(Some(date), "%Y-%m-%d %H:%M:%S%.3f", Some(-7200)),
        "1969-12-31 22:00:00.250"
    );
    assert_eq!(format_date_at(Some(date), "%H:%M", None), "01:30");
}

#[test]
fn leap_seconds_show() {
    let date = Date {
        secs: 1_483_228_799,
        nanos: 1_000_000_000,
        offset: 0,
    };
    assert_eq!(
        format_date(Some(date), "%Y-%m-%d %H:%M:%S", false),
        "2016-12-31 23:59:60"
    );
}

#[test]
fn the_first_and_the_last_instant_show() {
    let first = Date {
        secs: -8_334_601_228_800,
        nanos: 0,
        offset: -86_399,
    };
    assert_eq!(
        format_date(Some(first), "%Y-%m-%d %H:%M:%S", false),
        "-262144-12-31 00:00:01"
    );
    let last = Date {
        secs: 8_210_266_876_799,
        nanos: 999_999_999,
        offset: 86_399,
    };
    assert_eq!(
        format_date(Some(last), "%Y-%m-%d %H:%M:%S", false),
        "+262143-01-01 23:59:58"
    );
}

#[test]
fn dates_show_in_local_time() {
    let date = Date {
        secs: 1_700_000_000,
        nanos: 0,
        offset: 3600,
    };
    let local = DateTime::from_timestamp(1_700_000_000, 0)
        .map(|instant| instant.with_timezone(&Local).format("%Y-%m-%d %H:%M %z").to_string());
    assert_eq!(
        Some(format_date(Some(date), "%Y-%m-%d %H:%M %z", true)),
        local
    );
    assert_eq!(format_date(None, "%Y", true), "");
}

#[test]
fn unknown_formats_are_noticed() {
    let date = Some(Date {
        secs: 0,
        nanos: 0,
        offset: 0,
    });
    assert!(is_known_format("%F %R"));
    assert!(is_known_format("plain"));
    assert!(!is_known_format("%Q"));
    assert!(!is_known_format("%"));
    assert_eq!(checked_format_date(date, "%Q", false), None);
    assert_eq!(checked_format_date(date, "%F", false), Some("1970-01-01".to_string()));
    assert_eq!(checked_format_date(None, "%Q", true), Some(String::new()));
}

#[test]
fn a_request_takes_the_page_size_of_the_command_first() {
    let command = EnvelopeListCommand {
        page: 3,
        page_size: Some(10),
        ..command()
    };
    assert_eq!(
        command.request(25),
        ListRequest {
            page: Some(3),
            page_size: Some(10),
            has_attachment: true,
        }
    );
}

#[test]
fn a_request_falls_back_to_the_configured_page_size() {
    let command = EnvelopeListCommand {
        has_attachment: false,
        ..command()
    };
    assert_eq!(
        command.request(25),
        ListRequest {
            page: Some(1),
            page_size: Some(25),
            has_attachment: false,
        }
    );
}

#[test]
fn zero_stands_for_no_page_and_no_limit() {
    let command = EnvelopeListCommand {
        page: 0,
        page_size: Some(0),
        ..command()
    };
    let request = command.request(25);
    assert_eq!(request.page, None);
    assert_eq!(request.page_size, None);
}

#[test]
fn the_table_takes_the_settings() {
    let envelopes = listed(command(), settings());
    assert_eq!(envelopes.preset, "     == |          ");
    assert_eq!(envelopes.max_width, Some(100));
    assert_eq!(envelopes.datetime_fmt, "%Y-%m-%d %H:%M");
    assert!(!envelopes.datetime_local_tz);
    assert!(!envelopes.recipient);
    assert!(envelopes.with_attachment);
    assert_eq!(envelopes.envelopes.len(), 2);
}

#[test]
fn fastplain_asks_for_the_compact_listing() {
    let command = EnvelopeListCommand {
        fastplain: true,
        ..command()
    };
    match command.execute(settings(), vec![envelope("7")]) {
        Listing::Mini(envelopes) => assert_eq!(envelopes[0].id, "7"),
        Listing::Table(_) => panic!("no compact listing"),
    }
}

#[test]
fn the_table_shows_senders() {
    let mut table = listed(command(), settings()).table();
    let header = table.header().map(texts);
    assert_eq!(
        header,
        Some(strings(&["ID", "FLAGS", "ATT", "SUBJECT", "FROM", "DATE", "SIZE"]))
    );
    assert_eq!(table.row_count(), 2);
    let row = table.row(1).map(texts);
    assert_eq!(
        row,
        Some(strings(&[
            "2",
            "*R ",
            "@",
            "First line\nSecond line",
            "Alice, b@b.test",
            "2023-11-14 23:13",
            "1.50 KiB",
        ]))
    );
    assert_eq!(table.width(), Some(100));
    assert!(matches!(table.content_arrangement(), ContentArrangement::Dynamic));
    assert_eq!(table.current_style_as_preset(), "     == |          ");
}

#[test]
fn the_table_shows_recipients() {
    let command = EnvelopeListCommand {
        recipient: true,
        has_attachment: false,
        ..command()
    };
    let table = listed(command, settings()).table();
    let header = table.header().map(texts);
    assert_eq!(
        header,
        Some(strings(&["ID", "FLAGS", "SUBJECT", "TO", "DATE", "SIZE"]))
    );
    let row = table.row(0).map(texts);
    assert_eq!(
        row,
        Some(strings(&[
            "1",
            "*R ",
            "First line\nSecond line",
            "carol@c.test",
            "2023-11-14 23:13",
            "1.50 KiB",
        ]))
    );
}

#[test]
fn rows_have_as_many_cells_as_the_header() {
    for has_attachment in [false, true] {
        let command = EnvelopeListCommand {
            has_attachment,
            ..command()
        };
        let table = listed(command, settings()).table();
        let columns = table.header().map(|header| header.cell_count());
        assert_eq!(columns, Some(if has_attachment { 7 } else { 6 }));
        for row in table.row_iter() {
            assert_eq!(Some(row.cell_count()), columns);
        }
    }
}

#[test]
fn cells_have_the_color_of_their_column() {
    let envelopes = listed(command(), settings());
    let row = envelopes.row(&envelopes.envelopes[0], "today");
    let cells: Vec<Cell> = row.cell_iter().cloned().collect();
    assert_eq!(
        cells,
        vec![
            Cell::new("1").fg(Color::Red),
            Cell::new("*R ").fg(Color::Green),
            Cell::new("@").fg(Color::Yellow),
            Cell::new("First line\nSecond line").fg(Color::Blue),
            Cell::new("Alice, b@b.test").fg(Color::Magenta),
            Cell::new("today").fg(Color::White),
            Cell::new("1.50 KiB").fg(Color::Grey),
        ]
    );
    let envelopes = Envelopes {
        recipient: true,
        ..envelopes
    };
    let row = envelopes.row(&envelopes.envelopes[0], "today");
    assert_eq!(
        row.cell_iter().nth(4),
        Some(&Cell::new("carol@c.test").fg(Color::Cyan))
    );
}

#[test]
fn rows_are_one_line_high() {
    let envelopes = listed(command(), settings());
    let mut table = Table::new();
    table.add_row(envelopes.row(&envelopes.envelopes[0], "today"));
    table.force_no_tty();
    let shown = table.to_string();
    assert!(shown.contains("First"));
    assert!(!shown.contains("Second"));
}

#[test]
fn a_short_preset_changes_the_first_components_only() {
    let settings = TableSettings {
        preset: "# ".to_string(),
        ..settings()
    };
    let mut table = listed(command(), settings).table();
    assert_eq!(table.current_style_as_preset(), "# --+==+|-+||++++++");
}

#[test]
fn a_table_without_width_has_none() {
    let command = EnvelopeListCommand {
        max_width: None,
        ..command()
    };
    let mut table = listed(command, settings()).table();
    table.force_no_tty();
    assert_eq!(table.width(), None);
}

#[test]
fn sizes_show_in_binary_units() {
    let envelopes = listed(command(), settings());
    for (size, shown) in [
        (0, "0 B"),
        (1023, "1023 B"),
        (2048, "2 KiB"),
        (5_242_880, "5 MiB"),
    ] {
        let env = Envelope {
            size,
            ..envelope("1")
        };
        let row = envelopes.row(&env, "");
        assert_eq!(texts(&row)[6], shown);
    }
}

#[test]
fn a_table_with_dates_needs_a_known_format() {
    let settings = TableSettings {
        datetime_fmt: "%Q".to_string(),
        ..settings()
    };
    let mut envelopes = listed(command(), settings);
    assert!(envelopes.checked_table().is_none());
    for env in envelopes.envelopes.iter_mut() {
        env.date = None;
    }
    let table = envelopes.checked_table();
    let row = table.as_ref().and_then(|table| table.row(0)).map(texts);
    assert_eq!(row.map(|cells| cells[5].clone()), Some(String::new()));
}

#[test]
fn a_table_with_a_known_format_is_given() {
    let table = listed(command(), settings()).checked_table();
    assert_eq!(table.map(|table| table.row_count()), Some(2));
}

#[test]
fn the_compact_listing_has_a_row_for_each_envelope() {
    let messages = vec![Some(b"\n\nYour code: 739521".to_vec()), None];
    let mini = MiniEnvelopes::from_envelopes(vec![envelope("1"), envelope("2")], &messages);
    assert_eq!(
        mini.render(),
        "ID\tFROM\tCONTENT\n1\tAlice, b@b.test\t739521\n2\tAlice, b@b.test\t\n"
    );
}

#[test]
fn an_empty_compact_listing_has_titles() {
    let mini = MiniEnvelopes::from_envelopes(vec![], &[]);
    assert!(mini.0.is_empty());
    assert_eq!(mini.render(), "ID\tFROM\tCONTENT\n");
}

#[test]
fn a_row_of_the_compact_listing_is_one_line() {
    let messages = vec![Some(b"\n\nHello\tthere\r\nyou\n".to_vec())];
    let shown = MiniEnvelopes::from_envelopes(vec![envelope("1")], &messages).render();
    assert_eq!(shown.lines().count(), 2);
    assert_eq!(
        shown.lines().nth(1),
        Some("1\tAlice, b@b.test\tHello there you")
    );
}

#[test]
fn a_compact_listing_needs_all_previews() {
    let envelopes = vec![envelope("1"), envelope("2")];
    let bad = "https://a.test\u{a0}x".as_bytes().to_vec();
    let messages = vec![None, Some(bad)];
    assert!(MiniEnvelopes::checked_from_envelopes(envelopes.clone(), &messages).is_none());
    let messages = vec![None, Some(b"fine".to_vec())];
    let mini = MiniEnvelopes::checked_from_envelopes(envelopes, &messages);
    assert_eq!(mini.map(|mini| mini.0[1].content.clone()), Some("fine".to_string()));
}

#[test]
fn the_text_of_a_table_stands_between_line_ends() {
    assert_eq!(framed(""), "\n\n");
    let mut table = listed(command(), settings()).table();
    table.force_no_tty();
    let shown = table.to_string();
    assert_eq!(framed(&shown), format!("\n{table}\n"));
}
