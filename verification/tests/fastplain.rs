//! The snippet of the compact listing.
use envelope_list::mini::MiniEnvelopes;
use envelope_list::snippet::FASTPLAIN_MAX_SCAN_BYTES;
use envelope_list::snippet::MINI_CONTENT_MAX_CHARS;

#[test]
fn fastplain_prefers_verification_link() {
    let content = r#"Ignore https://example.test/help
            <a href="https://example.test/auth/verify?token=abc123">Verify</a>"#;

    assert_eq!(
        MiniEnvelopes::select_content_snippet(content),
        "https://example.test/auth/verify?token=abc123"
    );
}

#[test]
fn fastplain_ignores_unsubscribe_link_for_code() {
    let content = "Verification code: 814209. Unsubscribe at https://example.test/unsubscribe";

    assert_eq!(MiniEnvelopes::select_content_snippet(content), "814209");
}

#[test]
fn fastplain_decodes_quoted_printable_url() {
    let content = r#"<a href="https://example.test/login?token=3Dabc=3D123">Sign in</a>"#;

    assert_eq!(
        MiniEnvelopes::select_content_snippet(content),
        "https://example.test/login?token=abc=123"
    );
}

#[test]
fn fastplain_compacts_long_content() {
    let content =
        "This is a regular message body with enough words to exceed the mini output limit";

    assert_eq!(
        MiniEnvelopes::select_content_snippet(content),
        "This is a regular message body with enough wo..."
    );
}

#[test]
fn fastplain_handles_non_ascii_context_windows() {
    let content = format!("{} code 739521", "ä".repeat(130));

    assert_eq!(MiniEnvelopes::select_content_snippet(&content), "739521");
}

#[test]
fn a_link_comes_before_a_code() {
    let content = "Your code is 739521, or go to https://example.test/signin now";
    assert_eq!(
        MiniEnvelopes::select_content_snippet(content),
        "https://example.test/signin"
    );
}

#[test]
fn a_long_link_is_cut() {
    let content = format!("https://example.test/verify/{}", "x".repeat(60));
    let shown = MiniEnvelopes::select_content_snippet(&content);
    assert_eq!(
        shown,
        format!("https://example.test/verify/{}...", "x".repeat(17))
    );
    assert_eq!(shown.chars().count(), MINI_CONTENT_MAX_CHARS);
}

#[test]
fn an_empty_body_has_an_empty_snippet() {
    assert_eq!(MiniEnvelopes::select_content_snippet(""), "");
    assert_eq!(MiniEnvelopes::select_content_snippet(" \r\n\t"), "");
}

#[test]
fn a_snippet_is_one_line() {
    let shown = MiniEnvelopes::select_content_snippet("Hello\tthere,\r\n\r\n  how are\u{2003}you?\n");
    assert_eq!(shown, "Hello there, how are you?");
}

#[test]
fn part_markers_become_spaces() {
    assert_eq!(
        MiniEnvelopes::sanitize_content("a<#part type=text/html>b<#/part>"),
        "a b<#/part>"
    );
    assert_eq!(MiniEnvelopes::sanitize_content("<#part <#part>>"), " >");
}

#[test]
fn a_part_marker_without_end_stays() {
    assert_eq!(MiniEnvelopes::sanitize_content("a > b <#part c"), "a > b <#part c");
}

#[test]
fn soft_breaks_and_escaped_equals_are_undone() {
    assert_eq!(
        MiniEnvelopes::sanitize_content("a=\r\nb=\nc=3Dd=3de=41"),
        "abc=d=e=41"
    );
}

#[test]
fn a_soft_break_inside_an_escape_is_undone_first() {
    assert_eq!(MiniEnvelopes::sanitize_content("x=3=\nDy"), "x=y");
}

#[test]
fn plain_text_stays_as_it_is() {
    assert_eq!(MiniEnvelopes::sanitize_content("a < b > c, grün\n"), "a < b > c, grün\n");
}

#[test]
fn spaces_are_normalized() {
    assert_eq!(
        MiniEnvelopes::normalize_spaces("  one\t two\u{a0}three \r\n\u{3000}four\u{85}"),
        "one two three four"
    );
    assert_eq!(MiniEnvelopes::normalize_spaces("one two three"), "one two three");
    assert_eq!(MiniEnvelopes::normalize_spaces("\n"), "");
}

#[test]
fn content_is_compacted_beyond_the_limit_only() {
    let fits = "ä".repeat(48);
    assert_eq!(MiniEnvelopes::compact_content(&fits), fits);
    let long = "ä".repeat(49);
    assert_eq!(
        MiniEnvelopes::compact_content(&long),
        format!("{}...", "ä".repeat(45))
    );
}

#[test]
fn compacting_again_changes_nothing() {
    let once = MiniEnvelopes::compact_content("many   words that do not fit into the width of a snippet");
    assert_eq!(once, "many words that do not fit into the width of ...");
    assert_eq!(MiniEnvelopes::compact_content(&once), once);
}

#[test]
fn the_body_follows_the_first_empty_line() {
    assert_eq!(MiniEnvelopes::raw_body("Subject: s\r\n\r\nbody\r\n\r\nmore"), "body\r\n\r\nmore");
    assert_eq!(MiniEnvelopes::raw_body("Subject: s\n\nbody"), "body");
    assert_eq!(MiniEnvelopes::raw_body("Subject: s\n\n"), "");
}

#[test]
fn an_empty_line_with_carriage_returns_comes_first() {
    assert_eq!(MiniEnvelopes::raw_body("a\n\nb\r\n\r\nc"), "c");
}

#[test]
fn a_message_without_empty_line_is_all_body() {
    assert_eq!(MiniEnvelopes::raw_body("no headers\nhere"), "no headers\nhere");
}

#[test]
fn a_message_is_previewed_without_headers() {
    let raw = b"Subject: code 111222\r\n\r\nHello there";
    assert_eq!(MiniEnvelopes::preview_from_raw(raw), "Hello there");
}

#[test]
fn invalid_bytes_of_a_message_are_replaced() {
    assert_eq!(
        MiniEnvelopes::preview_from_raw(b"\n\ncaf\xe9 cr\xc3\xa8me"),
        "caf\u{fffd} cr\u{e8}me"
    );
}

#[test]
fn only_the_front_of_a_message_is_looked_at() {
    let mut raw = b"\n\nplain".to_vec();
    raw.resize(FASTPLAIN_MAX_SCAN_BYTES, b' ');
    let front = MiniEnvelopes::preview_from_raw(&raw);
    assert_eq!(front, "plain");
    raw.extend_from_slice(b" https://example.test/verify");
    assert_eq!(MiniEnvelopes::preview_from_raw(&raw), front);
}

#[test]
fn a_message_with_a_wide_space_behind_a_link_has_no_preview() {
    let raw = "\n\nsee https://example.test/a\u{a0}there".as_bytes();
    assert_eq!(MiniEnvelopes::checked_preview_from_raw(raw), None);
}

#[test]
fn other_messages_have_a_preview() {
    let raw = "\n\nsee\u{a0}https://example.test/a there".as_bytes();
    assert_eq!(
        MiniEnvelopes::checked_preview_from_raw(raw),
        Some("see https://example.test/a there".to_string())
    );
}

#[test]
fn messages_with_narrow_space_have_a_preview() {
    let raw = "A: b\n\nsee\thttps://example.test/ä\r\nhref=x href='y' www.example.test\n".as_bytes();
    assert_eq!(
        MiniEnvelopes::checked_preview_from_raw(raw),
        Some("see https://example.test/ä href=x href='y' ww...".to_string())
    );
}

#[test]
fn a_message_in_utf8_shows_its_text() {
    let text = "From: a\r\n\r\nGrüße, the code is 739521";
    assert_eq!(
        MiniEnvelopes::preview_from_raw(text.as_bytes()),
        MiniEnvelopes::select_content_snippet(MiniEnvelopes::raw_body(text))
    );
    assert_eq!(
        MiniEnvelopes::checked_preview_from_raw(text.as_bytes()),
        Some("739521".to_string())
    );
}
