//! The snippet of a message that the compact listing shows.
use crate::codes;
use crate::links;
use crate::mini::MiniEnvelopes;
use crate::text;
use vstd::prelude::*;
use vstd::slice::slice_subrange;
use vstd::string::*;
use vstd::utf8::*;

verus! {

/// The greatest length of a snippet, in characters.
pub const MINI_CONTENT_MAX_CHARS: usize = 48;

/// How much of a message is looked at, in bytes.
pub const FASTPLAIN_MAX_SCAN_BYTES: usize = 131072;

/// The characters that are no white space.
pub open spec fn visible() -> spec_fn(char) -> bool {
    |c: char| !text::white_space(c)
}

/// `s` with every part marker, from `<#part` to the next `>`, replaced by a
/// space.
pub open spec fn without_parts(s: Seq<char>) -> Seq<char>
    decreases s.len(),
{
    match text::find(s, "<#part"@, 0) {
        None => s,
        Some(start) => match text::find(s, ">"@, start) {
            None => s,
            Some(end) => {
                proof {
                    lemma_part_is_not_empty(s);
                }
                without_parts(s.take(start) + seq![' '] + s.skip(end + 1))
            },
        },
    }
}

/// `s` without part markers and soft line breaks, and with the escaped `=` in
/// its place.
pub open spec fn sanitized(s: Seq<char>) -> Seq<char> {
    let joined = text::replaced(
        text::replaced(without_parts(s), "=\r\n"@, Seq::empty()),
        "=\n"@,
        Seq::empty(),
    );
    text::replaced(text::replaced(joined, "=3D"@, "="@), "=3d"@, "="@)
}

/// The words of `s` with one space between neighbours.
pub open spec fn normalized(s: Seq<char>) -> Seq<char> {
    text::joined(text::runs(s, visible()), seq![' '])
}

/// `s` normalized, and cut to what a snippet can hold.
pub open spec fn compacted(s: Seq<char>) -> Seq<char> {
    if normalized(s).len() <= MINI_CONTENT_MAX_CHARS {
        normalized(s)
    } else {
        normalized(s).take(MINI_CONTENT_MAX_CHARS - 3) + "..."@
    }
}

/// What follows the first empty line of `raw`, of one with CR LF line ends
/// first; `raw` itself where there is no empty line.
pub open spec fn body(raw: Seq<char>) -> Seq<char> {
    match text::find(raw, "\r\n\r\n"@, 0) {
        Some(k) => raw.skip(k + "\r\n\r\n"@.len()),
        None => match text::find(raw, "\n\n"@, 0) {
            Some(k) => raw.skip(k + "\n\n"@.len()),
            None => raw,
        },
    }
}

/// The snippet of a body: the verification link in it, else the verification
/// code in it, else its beginning.
pub open spec fn snippet(content: Seq<char>) -> Seq<char> {
    let s = sanitized(content);
    match links::verification_link(s) {
        Some(link) => compacted(link),
        None => match codes::verification_code(s) {
            Some(code) => compacted(code),
            None => compacted(s),
        },
    }
}

/// The text that `String::from_utf8_lossy` makes of bytes.
pub uninterp spec fn utf8_lossy(bytes: Seq<u8>) -> Seq<char>;

/// The part of a message that is looked at.
pub open spec fn scanned(raw: Seq<u8>) -> Seq<u8> {
    if raw.len() <= FASTPLAIN_MAX_SCAN_BYTES {
        raw
    } else {
        raw.take(FASTPLAIN_MAX_SCAN_BYTES as int)
    }
}

/// The body of a message whose front is valid UTF-8.
pub open spec fn decoded_body(raw: Seq<u8>) -> Seq<char> {
    body(decode_utf8(scanned(raw)))
}

/// The snippet of a message.
pub open spec fn preview(raw: Seq<u8>) -> Seq<char> {
    snippet(body(utf8_lossy(scanned(raw))))
}

/// The links of the message can be extracted.
pub open spec fn previewable(raw: Seq<u8>) -> bool {
    links::scannable(sanitized(body(utf8_lossy(scanned(raw)))))
}

/// `String::from_utf8_lossy`, whose result depends on the bytes alone. It is
/// their text where they are valid UTF-8. How it replaces what is not valid is
/// left unsaid.
#[verifier::external_body]
fn from_utf8_lossy(bytes: &[u8]) -> (s: String)
    ensures
        s@ == utf8_lossy(bytes@),
        valid_utf8(bytes@) ==> s@ == decode_utf8(bytes@),
{
    String::from_utf8_lossy(bytes).into_owned()
}

/// A part marker ends behind its start, inside the text.
pub proof fn lemma_part_is_not_empty(s: Seq<char>)
    ensures
        text::find(s, "<#part"@, 0) matches Some(start) ==> {
            &&& 0 <= start < s.len()
            &&& text::find(s, ">"@, start) matches Some(end) ==> start < end < s.len()
        },
{
    reveal_strlit("<#part");
    reveal_strlit(">");
    text::lemma_find_is_first(s, "<#part"@, 0);
    if let Some(start) = text::find(s, "<#part"@, 0) {
        text::lemma_find_is_first(s, ">"@, start);
        assert(s[start] == s.subrange(start, start + 6)[0]);
        assert(s[start] == '<');
        if let Some(end) = text::find(s, ">"@, start) {
            assert(s[end] == s.subrange(end, end + 1)[0]);
        }
    }
}

fn is_visible(c: char) -> (yes: bool)
    ensures
        yes == visible()(c),
{
    !text::is_white_space(c)
}

fn is_not_visible(c: char) -> (yes: bool)
    ensures
        yes == text::negated(visible())(c),
{
    text::is_white_space(c)
}

/// `s` with every part marker replaced by a space.
fn strip_parts(s: Vec<char>) -> (out: Vec<char>)
    ensures
        out@ == without_parts(s@),
{
    let open = text::chars_of("<#part");
    let close = text::chars_of(">");
    let mut out: Vec<char> = s;
    loop
        invariant
            open@ == "<#part"@,
            close@ == ">"@,
            without_parts(s@) == without_parts(out@),
        decreases out@.len(),
    {
        match text::find_chars(out.as_slice(), open.as_slice(), 0) {
            None => {
                return out;
            },
            Some(start) => {
                proof {
                    lemma_part_is_not_empty(out@);
                }
                match text::find_chars(out.as_slice(), close.as_slice(), start) {
                    None => {
                        return out;
                    },
                    Some(end) => {
                        let total: usize = out.len();
                        let mut next: Vec<char> = Vec::new();
                        text::append_chars(&mut next, slice_subrange(out.as_slice(), 0, start));
                        next.push(' ');
                        text::append_chars(
                            &mut next,
                            slice_subrange(out.as_slice(), end + 1, total),
                        );
                        proof {
                            assert(next@ =~= out@.take(start as int) + seq![' '] + out@.skip(
                                end + 1,
                            ));
                        }
                        out = next;
                    },
                }
            },
        }
    }
}

impl MiniEnvelopes {
    /// `content` without part markers and soft line breaks, and with the
    /// escaped `=` in its place.
    pub fn sanitize_content(content: &str) -> (out: String)
        ensures
            out@ == sanitized(content@),
    {
        proof {
            reveal_strlit("=\r\n");
            reveal_strlit("=\n");
            reveal_strlit("=3D");
            reveal_strlit("=3d");
        }
        let nothing: Vec<char> = Vec::new();
        let equals = text::chars_of("=");
        let stripped = strip_parts(text::chars_of(content));
        let long_break = text::chars_of("=\r\n");
        let joined = text::replace_chars(
            stripped.as_slice(),
            long_break.as_slice(),
            nothing.as_slice(),
        );
        let short_break = text::chars_of("=\n");
        let joined = text::replace_chars(
            joined.as_slice(),
            short_break.as_slice(),
            nothing.as_slice(),
        );
        let upper = text::chars_of("=3D");
        let plain = text::replace_chars(joined.as_slice(), upper.as_slice(), equals.as_slice());
        let lower = text::chars_of("=3d");
        let plain = text::replace_chars(plain.as_slice(), lower.as_slice(), equals.as_slice());
        text::string_of(plain.as_slice())
    }

    /// The words of `content` with one space between neighbours.
    pub fn normalize_spaces(content: &str) -> (out: String)
        ensures
            out@ == normalized(content@),
    {
        let chars = text::chars_of(content);
        let s: &[char] = chars.as_slice();
        let mut out: Vec<char> = Vec::new();
        let ghost mut done: Seq<Seq<char>> = Seq::empty();
        let mut i: usize = 0;
        proof {
            assert(done + text::runs(s@, visible()) =~= text::runs(s@, visible()));
        }
        while i < s.len()
            invariant
                i <= s@.len(),
                text::runs(s@, visible()) == done + text::runs_from(s@, visible(), i as int),
                out@ == text::joined(done, seq![' ']),
                out@.len() == 0 <==> done.len() == 0,
            decreases s@.len() - i,
        {
            if is_visible(s[i]) {
                let end: usize = text::position_from(
                    s,
                    i + 1,
                    is_not_visible,
                    Ghost(text::negated(visible())),
                );
                let word: &[char] = slice_subrange(s, i, end);
                if out.len() > 0 {
                    out.push(' ');
                }
                text::append_chars(&mut out, word);
                let ghost rest = text::runs_from(s@, visible(), end as int);
                proof {
                    assert(done.push(word@).drop_last() =~= done);
                    assert(out@ =~= text::joined(done.push(word@), seq![' ']));
                    assert(done.push(word@) + rest =~= done + (seq![word@] + rest));
                    done = done.push(word@);
                }
                i = end;
            } else {
                i += 1;
            }
        }
        proof {
            assert(done + Seq::<Seq<char>>::empty() =~= done);
        }
        text::string_of(out.as_slice())
    }

    /// `content` normalized, and cut to what a snippet can hold.
    pub fn compact_content(content: &str) -> (out: String)
        ensures
            out@ == compacted(content@),
    {
        let normal = Self::normalize_spaces(content);
        if normal.as_str().unicode_len() <= MINI_CONTENT_MAX_CHARS {
            normal
        } else {
            let cut: usize = MINI_CONTENT_MAX_CHARS - 3;
            let mut out = normal.as_str().substring_char(0, cut).to_owned();
            out.append("...");
            proof {
                assert(normal@.subrange(0, cut as int) =~= normal@.take(cut as int));
            }
            out
        }
    }

    /// What follows the first empty line of `raw`, of one with CR LF line ends
    /// first; `raw` itself where there is no empty line.
    pub fn raw_body(raw: &str) -> (rest: &str)
        ensures
            rest@ == body(raw@),
    {
        let chars = text::chars_of(raw);
        let total: usize = chars.len();
        let long = text::chars_of("\r\n\r\n");
        let short = text::chars_of("\n\n");
        proof {
            text::lemma_find_is_first(raw@, long@, 0);
            text::lemma_find_is_first(raw@, short@, 0);
        }
        if let Some(k) = text::find_chars(chars.as_slice(), long.as_slice(), 0) {
            return raw.substring_char(k + long.len(), total);
        }
        if let Some(k) = text::find_chars(chars.as_slice(), short.as_slice(), 0) {
            return raw.substring_char(k + short.len(), total);
        }
        raw
    }

    /// The snippet of a body: the verification link in it, else the
    /// verification code in it, else its beginning.
    pub fn select_content_snippet(content: &str) -> (out: String)
        requires
            links::scannable(sanitized(content@)),
        ensures
            out@ == snippet(content@),
    {
        let plain = Self::sanitize_content(content);
        if let Some(link) = Self::select_verification_link(plain.as_str()) {
            return Self::compact_content(link.as_str());
        }
        if let Some(code) = Self::select_verification_code(plain.as_str()) {
            return Self::compact_content(code.as_str());
        }
        Self::compact_content(plain.as_str())
    }

    /// The text of the part of a message that is looked at, without headers.
    fn scanned_body(raw: &[u8]) -> (content: String)
        ensures
            content@ == body(utf8_lossy(scanned(raw@))),
            valid_utf8(scanned(raw@)) ==> content@ == decoded_body(raw@),
    {
        let len: usize = if raw.len() <= FASTPLAIN_MAX_SCAN_BYTES {
            raw.len()
        } else {
            FASTPLAIN_MAX_SCAN_BYTES
        };
        let part: &[u8] = slice_subrange(raw, 0, len);
        proof {
            assert(part@ =~= scanned(raw@));
        }
        let decoded = from_utf8_lossy(part);
        Self::raw_body(decoded.as_str()).to_owned()
    }

    /// The snippet of a message. Where the part that is looked at is valid
    /// UTF-8, it is that of its text.
    pub fn preview_from_raw(raw: &[u8]) -> (out: String)
        requires
            previewable(raw@),
        ensures
            out@ == preview(raw@),
            valid_utf8(scanned(raw@)) ==> out@ == snippet(decoded_body(raw@)),
    {
        let content = Self::scanned_body(raw);
        Self::select_content_snippet(content.as_str())
    }

    /// The snippet of a message, where its links can be extracted.
    pub fn checked_preview_from_raw(raw: &[u8]) -> (out: Option<String>)
        ensures
            match out {
                Some(s) => previewable(raw@) && s@ == preview(raw@),
                None => !previewable(raw@),
            },
            valid_utf8(scanned(raw@)) ==> match out {
                Some(s) => {
                    &&& links::scannable(sanitized(decoded_body(raw@)))
                    &&& s@ == snippet(decoded_body(raw@))
                },
                None => !links::scannable(sanitized(decoded_body(raw@))),
            },
    {
        let content = Self::scanned_body(raw);
        let plain = Self::sanitize_content(content.as_str());
        if Self::can_extract_links(plain.as_str()) {
            Some(Self::preview_from_raw(raw))
        } else {
            None
        }
    }
}

/// `s` is words with one space between neighbours.
pub open spec fn tidy(s: Seq<char>) -> bool {
    &&& s.len() > 0 ==> visible()(s[0]) && visible()(s.last())
    &&& forall|k: int| 0 <= k < s.len() ==> visible()(#[trigger] s[k]) || s[k] == ' '
    &&& forall|k: int| 0 < k < s.len() && !visible()(#[trigger] s[k]) ==> visible()(s[k - 1])
}

/// Words with one space between neighbours are tidy.
pub proof fn lemma_joined_words_are_tidy(words: Seq<Seq<char>>)
    requires
        forall|k: int|
            0 <= k < words.len() ==> {
                let word = #[trigger] words[k];
                word.len() > 0 && text::all_keep(word, visible())
            },
    ensures
        tidy(text::joined(words, seq![' '])),
        words.len() > 0 ==> text::joined(words, seq![' ']).len() > 0,
    decreases words.len(),
{
    let s = text::joined(words, seq![' ']);
    if words.len() == 1 {
        assert(text::all_keep(words[0], visible()));
    } else if words.len() > 1 {
        let init = text::joined(words.drop_last(), seq![' ']);
        let word = words.last();
        assert forall|k: int| 0 <= k < words.drop_last().len() implies {
            let w = #[trigger] words.drop_last()[k];
            w.len() > 0 && text::all_keep(w, visible())
        } by {
            assert(words.drop_last()[k] == words[k]);
        }
        lemma_joined_words_are_tidy(words.drop_last());
        assert(word == words[words.len() - 1]);
        assert(text::all_keep(word, visible()));
        assert(s == init + seq![' '] + word);
        assert forall|k: int| 0 <= k < s.len() implies visible()(#[trigger] s[k]) || s[k]
            == ' ' by {
            if k < init.len() {
                assert(s[k] == init[k]);
            } else if k > init.len() {
                assert(s[k] == word[k - init.len() - 1]);
            }
        }
        assert forall|k: int| 0 < k < s.len() && !visible()(#[trigger] s[k]) implies visible()(
            s[k - 1],
        ) by {
            if k < init.len() {
                assert(s[k] == init[k]);
                assert(s[k - 1] == init[k - 1]);
            } else if k == init.len() {
                assert(s[k - 1] == init.last());
            } else {
                assert(s[k] == word[k - init.len() - 1]);
            }
        }
        assert(s[0] == init[0]);
        assert(s.last() == word.last());
    }
}

/// Words that are normalized have one space between neighbours, and no white
/// space elsewhere.
pub proof fn law_normalized_is_tidy(s: Seq<char>)
    ensures
        tidy(normalized(s)),
{
    text::lemma_runs_are_kept(s, visible(), 0);
    lemma_joined_words_are_tidy(text::runs(s, visible()));
}

proof fn lemma_tidy_is_normalized_from(s: Seq<char>, i: int)
    requires
        tidy(s),
        0 <= i < s.len(),
        visible()(s[i]),
    ensures
        text::runs_from(s, visible(), i).len() > 0,
        text::joined(text::runs_from(s, visible(), i), seq![' ']) == s.skip(i),
    decreases s.len() - i,
{
    let end = text::run_end(s, visible(), i + 1);
    text::lemma_first_where_bounds(s, i + 1, text::negated(visible()));
    let word = s.subrange(i, end);
    let rest = text::runs_from(s, visible(), end);
    if end == s.len() {
        assert(seq![word] + rest =~= seq![word]);
        assert(word =~= s.skip(i));
    } else {
        assert(!visible()(s[end]));
        assert(end < s.len() - 1);
        if !visible()(s[end + 1]) {
            assert(visible()(s[end + 1 - 1]));
        }
        assert(rest == text::runs_from(s, visible(), end + 1));
        lemma_tidy_is_normalized_from(s, end + 1);
        text::lemma_joined_cons(word, rest, seq![' ']);
        assert(word + seq![' '] + s.skip(end + 1) =~= s.skip(i));
    }
}

/// Tidy text is normalized already.
pub proof fn law_tidy_text_stays(s: Seq<char>)
    requires
        tidy(s),
    ensures
        normalized(s) == s,
{
    if s.len() > 0 {
        lemma_tidy_is_normalized_from(s, 0);
        assert(s.skip(0) =~= s);
    } else {
        assert(normalized(s) =~= s);
    }
}

/// What is compacted is tidy and fits into a snippet.
pub proof fn law_compacted_fits(s: Seq<char>)
    ensures
        tidy(compacted(s)),
        compacted(s).len() <= MINI_CONTENT_MAX_CHARS,
{
    law_normalized_is_tidy(s);
    let n = normalized(s);
    if n.len() > MINI_CONTENT_MAX_CHARS {
        reveal_strlit("...");
        let c = compacted(s);
        assert(c.len() == 48);
        assert forall|k: int| 0 <= k < c.len() implies visible()(#[trigger] c[k]) || c[k]
            == ' ' by {
            if k < 45 {
                assert(c[k] == n[k]);
            }
        }
        assert forall|k: int| 0 < k < c.len() && !visible()(#[trigger] c[k]) implies visible()(
            c[k - 1],
        ) by {
            assert(k < 45);
            assert(c[k] == n[k]);
            assert(c[k - 1] == n[k - 1]);
        }
        assert(c[0] == n[0]);
        assert(c.last() == '.');
    }
}

/// Compacting twice is compacting once.
pub proof fn law_compacting_again_changes_nothing(s: Seq<char>)
    ensures
        compacted(compacted(s)) == compacted(s),
{
    law_compacted_fits(s);
    law_tidy_text_stays(compacted(s));
}

/// A snippet is words with one space between neighbours, without line ends and
/// tabs, and is never longer than allowed.
pub proof fn law_snippet_fits(content: Seq<char>)
    ensures
        tidy(snippet(content)),
        snippet(content).len() <= MINI_CONTENT_MAX_CHARS,
        !snippet(content).contains('\n'),
        !snippet(content).contains('\t'),
{
    let s = sanitized(content);
    match links::verification_link(s) {
        Some(link) => {
            law_compacted_fits(link);
        },
        None => {
            match codes::verification_code(s) {
                Some(code) => {
                    law_compacted_fits(code);
                },
                None => {
                    law_compacted_fits(s);
                },
            }
        },
    }
}

/// A verification link comes before a verification code, and either before the
/// beginning of the body.
pub proof fn law_snippet_prefers_links(content: Seq<char>)
    ensures
        ({
            let s = sanitized(content);
            &&& links::verification_link(s) matches Some(link) ==> snippet(content) == compacted(
                link,
            )
            &&& links::verification_link(s) is None && codes::verification_code(
                s,
            ) is Some ==> snippet(content) == compacted(codes::verification_code(s)->0)
            &&& links::verification_link(s) is None && codes::verification_code(
                s,
            ) is None ==> snippet(content) == compacted(s)
        }),
{
}

/// No part marker is left.
pub proof fn law_no_part_is_left(s: Seq<char>)
    ensures
        text::find(without_parts(s), "<#part"@, 0) matches Some(start) ==> text::find(
            without_parts(s),
            ">"@,
            start,
        ) is None,
    decreases s.len(),
{
    lemma_part_is_not_empty(s);
    if let Some(start) = text::find(s, "<#part"@, 0) {
        if let Some(end) = text::find(s, ">"@, start) {
            law_no_part_is_left(s.take(start) + seq![' '] + s.skip(end + 1));
        }
    }
}

/// Text without a part marker and without `=` is left as it is.
pub proof fn law_plain_text_is_sane(s: Seq<char>)
    requires
        text::find(s, "<#part"@, 0) is None,
        !s.contains('='),
    ensures
        sanitized(s) == s,
{
    reveal_strlit("=\r\n");
    reveal_strlit("=\n");
    reveal_strlit("=3D");
    reveal_strlit("=3d");
    lemma_nothing_to_replace(s, "=\r\n"@, Seq::empty(), 0);
    lemma_nothing_to_replace(s, "=\n"@, Seq::empty(), 0);
    lemma_nothing_to_replace(s, "=3D"@, "="@, 0);
    lemma_nothing_to_replace(s, "=3d"@, "="@, 0);
    assert(s.skip(0) =~= s);
}

proof fn lemma_nothing_to_replace(s: Seq<char>, pat: Seq<char>, with: Seq<char>, i: int)
    requires
        !s.contains('='),
        pat.len() > 0,
        pat[0] == '=',
        0 <= i <= s.len(),
    ensures
        text::replaced_from(s, pat, with, i) == s.skip(i),
    decreases s.len() - i,
{
    if i < s.len() {
        if text::matches_at(s, pat, i) {
            assert(s.subrange(i, i + pat.len())[0] == s[i]);
            assert(s.contains(s[i]));
        }
        lemma_nothing_to_replace(s, pat, with, i + 1);
        assert(seq![s[i]] + s.skip(i + 1) =~= s.skip(i));
    } else {
        assert(s.skip(i) =~= Seq::empty());
    }
}

/// The body is the end of the message.
pub proof fn law_body_ends_the_message(raw: Seq<char>)
    ensures
        exists|k: int| 0 <= k <= raw.len() && body(raw) == #[trigger] raw.skip(k),
{
    text::lemma_find_is_first(raw, "\r\n\r\n"@, 0);
    text::lemma_find_is_first(raw, "\n\n"@, 0);
    match text::find(raw, "\r\n\r\n"@, 0) {
        Some(k) => {
            assert(body(raw) == raw.skip(k + "\r\n\r\n"@.len()));
        },
        None => {
            match text::find(raw, "\n\n"@, 0) {
                Some(k) => {
                    assert(body(raw) == raw.skip(k + "\n\n"@.len()));
                },
                None => {
                    assert(raw.skip(0) =~= raw);
                },
            }
        },
    }
}

/// Nothing beyond the part that is looked at changes a snippet.
pub proof fn law_preview_scans_the_front(raw: Seq<u8>, more: Seq<u8>)
    requires
        raw.len() >= FASTPLAIN_MAX_SCAN_BYTES,
    ensures
        preview(raw + more) == preview(raw),
        previewable(raw + more) == previewable(raw),
{
    assert(scanned(raw + more) =~= scanned(raw));
}

/// A text has a snippet if all its white space is of a single byte each.
pub proof fn law_narrow_space_has_a_snippet(content: Seq<char>)
    requires
        links::narrow_space(content),
    ensures
        links::scannable(sanitized(content)),
{
    let parts = without_parts(content);
    lemma_narrow_without_parts(content);
    let long = text::replaced(parts, "=\r\n"@, Seq::empty());
    lemma_narrow_replaced(parts, "=\r\n"@, Seq::empty(), 0);
    let short = text::replaced(long, "=\n"@, Seq::empty());
    lemma_narrow_replaced(long, "=\n"@, Seq::empty(), 0);
    reveal_strlit("=");
    let upper = text::replaced(short, "=3D"@, "="@);
    lemma_narrow_replaced(short, "=3D"@, "="@, 0);
    lemma_narrow_replaced(upper, "=3d"@, "="@, 0);
    links::law_narrow_space_is_scannable(sanitized(content));
}

/// A message has a snippet if all white space in its text is of a single byte
/// each.
pub proof fn law_narrow_message_has_a_preview(raw: Seq<u8>)
    requires
        links::narrow_space(utf8_lossy(scanned(raw))),
    ensures
        previewable(raw),
{
    let shown = utf8_lossy(scanned(raw));
    law_body_ends_the_message(shown);
    let k = choose|k: int| 0 <= k <= shown.len() && body(shown) == #[trigger] shown.skip(k);
    assert forall|i: int|
        0 <= i < body(shown).len() && text::white_space(#[trigger] body(shown)[i]) implies body(
        shown,
    )[i] <= '\u{7f}' by {
        assert(body(shown)[i] == shown[k + i]);
    }
    law_narrow_space_has_a_snippet(body(shown));
}

proof fn lemma_narrow_without_parts(s: Seq<char>)
    requires
        links::narrow_space(s),
    ensures
        links::narrow_space(without_parts(s)),
    decreases s.len(),
{
    lemma_part_is_not_empty(s);
    if let Some(start) = text::find(s, "<#part"@, 0) {
        if let Some(end) = text::find(s, ">"@, start) {
            let next = s.take(start) + seq![' '] + s.skip(end + 1);
            assert forall|k: int| 0 <= k < next.len() && text::white_space(#[trigger] next[k])
                implies next[k] <= '\u{7f}' by {
                if k < start {
                    assert(next[k] == s[k]);
                } else if k > start {
                    assert(next[k] == s[end + k - start]);
                }
            }
            lemma_narrow_without_parts(next);
        }
    }
}

proof fn lemma_narrow_replaced(s: Seq<char>, pat: Seq<char>, with: Seq<char>, i: int)
    requires
        links::narrow_space(s),
        links::narrow_space(with),
        0 <= i,
    ensures
        links::narrow_space(text::replaced_from(s, pat, with, i)),
    decreases s.len() - i,
{
    if i < s.len() {
        if pat.len() > 0 && text::matches_at(s, pat, i) {
            lemma_narrow_replaced(s, pat, with, i + pat.len());
        } else {
            lemma_narrow_replaced(s, pat, with, i + 1);
        }
    }
}

} // verus!
