//! Links and codes: which are found, how they score, and which is chosen.
use envelope_list::mini::MiniEnvelopes;

#[test]
fn any_of_several_words_is_found() {
    assert!(MiniEnvelopes::contains_any("haystack", &["nothing", "stack"]));
    assert!(MiniEnvelopes::contains_any("haystack", &[""]));
    assert!(!MiniEnvelopes::contains_any("haystack", &["Stack", "haystacks"]));
    assert!(!MiniEnvelopes::contains_any("haystack", &[]));
}

#[test]
fn boundaries_do_not_cut_characters() {
    assert_eq!(MiniEnvelopes::char_boundary_at_or_before("aäb", 0), 0);
    assert_eq!(MiniEnvelopes::char_boundary_at_or_before("aäb", 1), 1);
    assert_eq!(MiniEnvelopes::char_boundary_at_or_before("aäb", 2), 1);
    assert_eq!(MiniEnvelopes::char_boundary_at_or_before("aäb", 3), 3);
    assert_eq!(MiniEnvelopes::char_boundary_at_or_before("aäb", 9), 4);
}

#[test]
fn keywords_are_near_up_to_the_window() {
    let inside = format!("code{}x1", " ".repeat(116));
    let outside = format!("code{}x1", " ".repeat(117));
    assert!(MiniEnvelopes::has_context_keyword_near(&inside, "x1", &["code"]));
    assert!(!MiniEnvelopes::has_context_keyword_near(&outside, "x1", &["code"]));
    let inside = format!("x1{}code", " ".repeat(116));
    let outside = format!("x1{}code", " ".repeat(117));
    assert!(MiniEnvelopes::has_context_keyword_near(&inside, "x1", &["code"]));
    assert!(!MiniEnvelopes::has_context_keyword_near(&outside, "x1", &["code"]));
}

#[test]
fn every_occurrence_is_looked_at() {
    let content = format!("x1{}x1 code", " ".repeat(200));
    assert!(MiniEnvelopes::has_context_keyword_near(&content, "x1", &["otp", "code"]));
}

#[test]
fn nothing_is_near_nothing() {
    assert!(!MiniEnvelopes::has_context_keyword_near("code", "", &["code"]));
}

#[test]
fn nothing_is_near_what_is_not_there() {
    assert!(!MiniEnvelopes::has_context_keyword_near("code", "x1", &["code"]));
    assert!(!MiniEnvelopes::has_context_keyword_near("x1", "x1", &["code"]));
}

#[test]
fn visible_escapes_are_decoded() {
    assert_eq!(MiniEnvelopes::decode_qp_urlish("a=3Db=3dc"), "a=b=c");
    assert_eq!(MiniEnvelopes::decode_qp_urlish("ä=41=20=7e"), "äA ~");
}

#[test]
fn other_escapes_stay() {
    assert_eq!(MiniEnvelopes::decode_qp_urlish("=0A=7F=C3=A4"), "=0A=7F=C3=A4");
    assert_eq!(MiniEnvelopes::decode_qp_urlish("=4"), "=4");
    assert_eq!(MiniEnvelopes::decode_qp_urlish("=G1="), "=G1=");
}

#[test]
fn soft_breaks_are_removed() {
    assert_eq!(MiniEnvelopes::decode_qp_urlish("a=\nb=\r\nc=\rd="), "abc=\rd=");
}

#[test]
fn text_without_escapes_is_not_decoded() {
    assert_eq!(MiniEnvelopes::decode_qp_urlish("https://example.test/ä"), "https://example.test/ä");
}

#[test]
fn links_are_extracted_once_attributes_first() {
    let content = "See (https://a.test/x). <a href=https://b.test/y>y</a> www.c.test";
    assert_eq!(
        MiniEnvelopes::extract_links(content),
        vec!["https://b.test/y", "https://a.test/x", "www.c.test"]
    );
}

#[test]
fn quoted_attributes_end_at_the_next_quotation_mark() {
    assert_eq!(
        MiniEnvelopes::extract_links("<a href='http://a.test/x y'>"),
        vec!["http://a.test/x y", "http://a.test/x"]
    );
    assert_eq!(
        MiniEnvelopes::extract_links("href=\"https://a.test/x"),
        vec!["https://a.test/x"]
    );
}

#[test]
fn links_without_address_are_dropped() {
    assert!(MiniEnvelopes::extract_links("href=").is_empty());
    assert!(MiniEnvelopes::extract_links("<a href=\"/local\">").is_empty());
    assert!(MiniEnvelopes::extract_links("ftp://a.test HTTPS://A.TEST").is_empty());
}

#[test]
fn links_lose_punctuation_at_their_ends_only() {
    assert_eq!(
        MiniEnvelopes::extract_links("[www.a.test/(x)?q=1,2];"),
        vec!["www.a.test/(x)?q=1,2"]
    );
}

#[test]
fn a_wide_space_behind_a_link_is_noticed() {
    assert!(!MiniEnvelopes::can_extract_links("https://a.test\u{a0}x"));
    assert!(!MiniEnvelopes::can_extract_links("href=x\u{2003}"));
    assert!(MiniEnvelopes::can_extract_links("https://a.test x\u{a0}y"));
    assert!(MiniEnvelopes::can_extract_links("href='x\u{a0}y'"));
    assert!(MiniEnvelopes::can_extract_links("https://a.test/ä\tx"));
}

#[test]
fn links_score_by_name_and_surroundings() {
    let score = MiniEnvelopes::score_link;
    assert_eq!(score("https://x.test/login", "https://x.test/login"), 260);
    assert_eq!(score("https://x.test/verify", "https://x.test/Verify"), 440);
    assert_eq!(score("your code: https://x.test/a", "https://x.test/a"), 180);
    assert_eq!(score("your code: https://x.test/a impressum", "https://x.test/a"), 20);
    assert_eq!(score("https://x.test/a", "https://x.test/a"), -120);
    assert_eq!(score("https://x.test/help", "https://x.test/help"), -340);
    assert_eq!(
        score("https://x.test/unsubscribe", "https://x.test/unsubscribe"),
        -500
    );
    assert_eq!(score("code", ""), -120);
}

#[test]
fn the_best_link_is_selected() {
    let content = "https://a.test/help https://a.test/login https://a.test/verify https://a.test/x";
    assert_eq!(
        MiniEnvelopes::select_verification_link(content),
        Some("https://a.test/verify".to_string())
    );
}

#[test]
fn the_last_of_equal_links_is_selected() {
    assert_eq!(
        MiniEnvelopes::select_verification_link("https://a.test/login https://b.test/login"),
        Some("https://b.test/login".to_string())
    );
}

#[test]
fn a_low_score_selects_no_link() {
    assert_eq!(MiniEnvelopes::select_verification_link("https://a.test/x"), None);
    assert_eq!(
        MiniEnvelopes::select_verification_link("https://a.test/login/help"),
        None
    );
    assert_eq!(MiniEnvelopes::select_verification_link("verify"), None);
}

#[test]
fn a_supported_link_without_name_is_selected() {
    assert_eq!(
        MiniEnvelopes::select_verification_link("Anmelden: https://a.test/x"),
        Some("https://a.test/x".to_string())
    );
}

#[test]
fn repeated_digits_are_noticed() {
    assert!(MiniEnvelopes::is_repeated_digits("7777"));
    assert!(MiniEnvelopes::is_repeated_digits("7"));
    assert!(!MiniEnvelopes::is_repeated_digits("7778"));
    assert!(!MiniEnvelopes::is_repeated_digits("aaaa"));
    assert!(!MiniEnvelopes::is_repeated_digits(""));
}

#[test]
fn candidates_have_a_digit_and_a_fitting_length() {
    assert_eq!(
        MiniEnvelopes::extract_code_candidates(
            "123 1234, abcd ab-12 --99-88-- 123456789012 1234567890123 ä5678"
        ),
        vec!["1234", "ab-12", "99-88", "123456789012", "5678"]
    );
    assert!(MiniEnvelopes::extract_code_candidates("----").is_empty());
}

#[test]
fn candidates_are_kept_in_order_and_repeated() {
    assert_eq!(
        MiniEnvelopes::extract_code_candidates("5555 1234 5555"),
        vec!["5555", "1234", "5555"]
    );
}

#[test]
fn codes_score_by_shape_and_surroundings() {
    let score = MiniEnvelopes::score_code;
    assert_eq!(score("code 123456", "123456"), 360);
    assert_eq!(score("code 12345678", "12345678"), 360);
    assert_eq!(score("code 1234", "1234"), 270);
    assert_eq!(score("code 1234567890", "1234567890"), 270);
    assert_eq!(score("code 123456789012", "123456789012"), 180);
    assert_eq!(score("code 111111", "111111"), 120);
    assert_eq!(score("code 2024", "2024"), 120);
    assert_eq!(score("code ab1234", "AB1234"), 260);
    assert_eq!(score("code abc123", "abc123"), 180);
    assert_eq!(score("code 12-34", "12-34"), 180);
    assert_eq!(score("123456", "123456"), -40);
    assert_eq!(score("code", ""), -220);
}

#[test]
fn the_best_code_is_selected() {
    assert_eq!(
        MiniEnvelopes::select_verification_code("On 2024-11-02 your OTP: 4711 or 123456 or 9999"),
        Some("123456".to_string())
    );
}

#[test]
fn the_last_of_equal_codes_is_selected() {
    assert_eq!(
        MiniEnvelopes::select_verification_code("codes 123456 and 654321"),
        Some("654321".to_string())
    );
}

#[test]
fn a_low_score_selects_no_code() {
    assert_eq!(MiniEnvelopes::select_verification_code("call 123456"), None);
    assert_eq!(MiniEnvelopes::select_verification_code("code 2024"), None);
    assert_eq!(MiniEnvelopes::select_verification_code("code 000000"), None);
    assert_eq!(MiniEnvelopes::select_verification_code("code"), None);
}

#[test]
fn keywords_in_german_support_a_code() {
    assert_eq!(
        MiniEnvelopes::select_verification_code("Bestätigungscode 4711-AB"),
        Some("4711-AB".to_string())
    );
}

#[test]
fn decoding_never_lengthens() {
    for text in ["", "=", "=41", "=41=\n=", "plain", "=C3=A4"] {
        assert!(MiniEnvelopes::decode_qp_urlish(text).len() <= text.len());
    }
}
