//! Laws of the snippet of a message.
use crate::laws::texts;
use crate::links;
use crate::snippet;
use crate::text;
use vstd::prelude::*;
use vstd::utf8::*;

verus! {

/// A text without white space is one word, and stays.
pub proof fn law_one_word_stays(s: Seq<char>)
    requires
        forall|k: int| 0 <= k < s.len() ==> !text::white_space(#[trigger] s[k]),
    ensures
        snippet::normalized(s) == s,
{
    texts::law_kept_text_is_one_run(s, snippet::visible());
    assert(snippet::normalized(s) =~= s);
}

/// White space between two texts becomes one space, and vanishes where there
/// is no word on one of its sides.
pub proof fn law_white_space_becomes_one_space(a: Seq<char>, c: char, b: Seq<char>)
    requires
        text::white_space(c),
    ensures
        snippet::normalized(a + seq![c] + b) == if snippet::normalized(a).len() == 0 {
            snippet::normalized(b)
        } else if snippet::normalized(b).len() == 0 {
            snippet::normalized(a)
        } else {
            snippet::normalized(a) + seq![' '] + snippet::normalized(b)
        },
{
    let keep = snippet::visible();
    let x = text::runs(a, keep);
    let y = text::runs(b, keep);
    texts::law_runs_are_parted(a, c, b, keep);
    text::lemma_runs_are_kept(a, keep, 0);
    text::lemma_runs_are_kept(b, keep, 0);
    snippet::lemma_joined_words_are_tidy(x);
    snippet::lemma_joined_words_are_tidy(y);
    if x.len() == 0 {
        assert(x + y =~= y);
    } else if y.len() == 0 {
        assert(x + y =~= x);
    } else {
        texts::law_joining_puts_one_separator_between(x, y, Seq::empty(), seq![' ']);
    }
}

/// What is compacted is what its normal form is compacted to: all of it up to
/// 48 characters, and else its first 45 with three dots behind them.
pub proof fn law_compacting_keeps_the_front(s: Seq<char>)
    ensures
        ({
            let n = snippet::normalized(s);
            let c = snippet::compacted(s);
            &&& n.len() <= 48 ==> c == n
            &&& n.len() > 48 ==> {
                &&& c.len() == 48
                &&& c.take(45) == n.take(45)
                &&& c[45] == '.' && c[46] == '.' && c[47] == '.'
            }
        }),
{
    reveal_strlit("...");
    let n = snippet::normalized(s);
    if n.len() > 48 {
        assert(snippet::compacted(s).take(45) =~= n.take(45));
    }
}

/// The body is all that follows the first empty line with CR LF line ends.
pub proof fn law_body_follows_the_first_empty_crlf_line(h: Seq<char>, b: Seq<char>)
    requires
        forall|i: int|
            0 <= i < h.len() ==> !"\r\n\r\n"@.is_prefix_of(
                #[trigger] (h + "\r\n\r\n"@ + b).skip(i),
            ),
    ensures
        snippet::body(h + "\r\n\r\n"@ + b) == b,
{
    texts::law_first_occurrence_is_found(h, "\r\n\r\n"@, b);
    assert((h + "\r\n\r\n"@ + b).skip((h.len() + "\r\n\r\n"@.len()) as int) =~= b);
}

/// Where there is no empty line with CR LF line ends, the body is all that
/// follows the first empty line with LF line ends.
pub proof fn law_body_follows_the_first_empty_line(h: Seq<char>, b: Seq<char>)
    requires
        !exists|x: Seq<char>, y: Seq<char>|
            h + "\n\n"@ + b == #[trigger] (x + "\r\n\r\n"@ + y),
        forall|i: int|
            0 <= i < h.len() ==> !"\n\n"@.is_prefix_of(#[trigger] (h + "\n\n"@ + b).skip(i)),
    ensures
        snippet::body(h + "\n\n"@ + b) == b,
{
    texts::law_nothing_is_found_where_nothing_is(h + "\n\n"@ + b, "\r\n\r\n"@);
    texts::law_first_occurrence_is_found(h, "\n\n"@, b);
    assert((h + "\n\n"@ + b).skip((h.len() + "\n\n"@.len()) as int) =~= b);
}

/// A message without empty line is all body.
pub proof fn law_no_empty_line_no_headers(raw: Seq<char>)
    requires
        !exists|x: Seq<char>, y: Seq<char>| raw == #[trigger] (x + "\r\n\r\n"@ + y),
        !exists|x: Seq<char>, y: Seq<char>| raw == #[trigger] (x + "\n\n"@ + y),
    ensures
        snippet::body(raw) == raw,
{
    texts::law_nothing_is_found_where_nothing_is(raw, "\r\n\r\n"@);
    texts::law_nothing_is_found_where_nothing_is(raw, "\n\n"@);
}

/// The first 128 KiB of a message are looked at, or all of a shorter one.
pub proof fn law_128_kib_are_looked_at(raw: Seq<u8>)
    ensures
        raw.len() <= 128 * 1024 ==> snippet::scanned(raw) == raw,
        raw.len() > 128 * 1024 ==> snippet::scanned(raw) == raw.take(131072),
{
}

/// The preview of a message is the snippet of the body in its first 128 KiB,
/// and can be made exactly if that has one.
pub proof fn law_preview_is_the_snippet_of_the_body(raw: Seq<u8>)
    ensures
        ({
            let front = if raw.len() <= 128 * 1024 {
                raw
            } else {
                raw.take(131072)
            };
            let content = snippet::body(snippet::utf8_lossy(front));
            &&& snippet::preview(raw) == snippet::snippet(content)
            &&& snippet::previewable(raw) == links::scannable(snippet::sanitized(content))
        }),
{
    law_128_kib_are_looked_at(raw);
}

/// Headers do not show: two messages with the same text behind their first
/// empty line have the same preview.
pub proof fn law_headers_do_not_show(
    raw: Seq<u8>,
    other: Seq<u8>,
    h: Seq<char>,
    g: Seq<char>,
    b: Seq<char>,
)
    requires
        raw.len() <= 128 * 1024,
        other.len() <= 128 * 1024,
        snippet::utf8_lossy(raw) == h + "\r\n\r\n"@ + b,
        snippet::utf8_lossy(other) == g + "\r\n\r\n"@ + b,
        forall|i: int|
            0 <= i < h.len() ==> !"\r\n\r\n"@.is_prefix_of(
                #[trigger] (h + "\r\n\r\n"@ + b).skip(i),
            ),
        forall|i: int|
            0 <= i < g.len() ==> !"\r\n\r\n"@.is_prefix_of(
                #[trigger] (g + "\r\n\r\n"@ + b).skip(i),
            ),
    ensures
        snippet::preview(raw) == snippet::preview(other),
        snippet::preview(raw) == snippet::snippet(b),
{
    law_preview_is_the_snippet_of_the_body(raw);
    law_preview_is_the_snippet_of_the_body(other);
    law_body_follows_the_first_empty_crlf_line(h, b);
    law_body_follows_the_first_empty_crlf_line(g, b);
}

/// The body of a message in UTF-8 is that of its text.
pub proof fn law_decoded_body_is_of_the_text(raw: Seq<u8>)
    requires
        raw.len() <= 128 * 1024,
    ensures
        snippet::decoded_body(raw) == snippet::body(decode_utf8(raw)),
{
    law_128_kib_are_looked_at(raw);
}

/// The text holds a part marker with its end.
pub open spec fn has_part(s: Seq<char>) -> bool {
    exists|a: Seq<char>, m: Seq<char>, b: Seq<char>|
        s == #[trigger] (a + "<#part"@ + m + ">"@ + b)
}

proof fn lemma_no_part(s: Seq<char>)
    requires
        !has_part(s),
    ensures
        snippet::without_parts(s) == s,
{
    snippet::lemma_part_is_not_empty(s);
    reveal_strlit("<#part");
    reveal_strlit(">");
    text::lemma_find_is_first(s, "<#part"@, 0);
    if let Some(start) = text::find(s, "<#part"@, 0) {
        text::lemma_find_is_first(s, ">"@, start);
        if let Some(end) = text::find(s, ">"@, start) {
            let a = s.take(start);
            texts::law_match_is_item_by_item(s, "<#part"@, start);
            texts::law_match_is_item_by_item(s, ">"@, end);
            assert(s[end] == ">"@[0]);
            if end < start + 6 {
                let k = end - start;
                assert(s[start + k] == "<#part"@[k]);
            }
            let m = s.subrange(start + 6, end);
            let b = s.skip(end + 1);
            assert(s =~= a + "<#part"@ + m + ">"@ + b);
        }
    }
}

/// The first part marker, up to its end, becomes a space.
pub proof fn law_first_part_becomes_a_space(a: Seq<char>, m: Seq<char>, b: Seq<char>)
    requires
        forall|i: int|
            0 <= i < a.len() ==> !"<#part"@.is_prefix_of(
                #[trigger] (a + "<#part"@ + (m + ">"@ + b)).skip(i),
            ),
        !m.contains('>'),
    ensures
        snippet::sanitized(a + "<#part"@ + (m + ">"@ + b)) == snippet::sanitized(
            a + seq![' '] + b,
        ),
{
    let s = a + "<#part"@ + (m + ">"@ + b);
    let start = a.len() as int;
    let end = start + 6 + m.len();
    texts::law_first_occurrence_is_found(a, "<#part"@, m + ">"@ + b);
    lemma_end_of_part(a, m, b);
    assert(s.take(start) =~= a);
    assert(s.skip(end + 1) =~= b) by {
        reveal_strlit("<#part");
        reveal_strlit(">");
    }
    assert(snippet::without_parts(s) == snippet::without_parts(a + seq![' '] + b));
}

proof fn lemma_end_of_part(a: Seq<char>, m: Seq<char>, b: Seq<char>)
    requires
        !m.contains('>'),
    ensures
        text::find(a + "<#part"@ + (m + ">"@ + b), ">"@, a.len() as int) == Some(
            (a.len() + 6 + m.len()) as int,
        ),
{
    let mark = "<#part"@;
    let close = ">"@;
    assert(mark =~= seq!['<', '#', 'p', 'a', 'r', 't']) by {
        reveal_strlit("<#part");
    }
    assert(close =~= seq!['>']) by {
        reveal_strlit(">");
    }
    let s = a + mark + (m + close + b);
    let start = a.len() as int;
    let end = start + 6 + m.len();
    assert(s[end] == '>');
    assert forall|i: int| start <= i < end implies #[trigger] s[i] != '>' by {
        if i < start + 6 {
            assert(s[i] == mark[i - start]);
        } else {
            assert(s[i] == m[i - start - 6]);
            assert(m.contains(m[i - start - 6]));
        }
    }
    lemma_find_close(s, start, end);
}

proof fn lemma_find_close(s: Seq<char>, start: int, end: int)
    requires
        0 <= start <= end < s.len(),
        s[end] == '>',
        forall|i: int| start <= i < end ==> #[trigger] s[i] != '>',
    ensures
        text::find(s, ">"@, start) == Some(end),
    decreases end - start,
{
    assert(">"@ =~= seq!['>']) by {
        reveal_strlit(">");
    }
    let here = s.subrange(start, start + 1);
    assert(here[0] == s[start]);
    if start < end {
        lemma_find_close(s, start + 1, end);
    } else {
        assert(here =~= ">"@);
    }
}

/// A text without a part marker that ends holds none further on.
proof fn lemma_no_part_behind(a: Seq<char>, b: Seq<char>)
    requires
        !has_part(a + b),
    ensures
        !has_part(b),
{
    if has_part(b) {
        let (x, m, y) = choose|x: Seq<char>, m: Seq<char>, y: Seq<char>|
            b == #[trigger] (x + "<#part"@ + m + ">"@ + y);
        assert(a + b =~= (a + x) + "<#part"@ + m + ">"@ + y);
    }
}

/// Nothing that starts with `=` starts before the rest.
proof fn lemma_replaced_behind(a: Seq<char>, b: Seq<char>, pat: Seq<char>, with: Seq<char>)
    requires
        !a.contains('='),
        pat.len() > 0,
        pat[0] == '=',
    ensures
        text::replaced(a + b, pat, with) == a + text::replaced(b, pat, with),
{
    assert forall|k: int| 0 <= k < a.len() implies !text::matches_at(a + b, pat, k) by {
        texts::law_match_is_item_by_item(a + b, pat, k);
        if text::matches_at(a + b, pat, k) {
            assert((a + b)[k + 0] == pat[0]);
            assert(a[k] == '=');
        }
    }
    texts::lemma_replaced_splits(a, b, pat, with);
}

/// What `=` and one or two more characters stand before is not replaced, where
/// they are no pattern.
proof fn lemma_not_replaced(a: Seq<char>, b: Seq<char>, pat: Seq<char>, with: Seq<char>)
    requires
        a.len() > 0,
        forall|k: int| 0 < k < a.len() ==> #[trigger] a[k] != '=',
        pat.len() > 1,
        pat[0] == '=',
        exists|k: int|
            0 <= k < pat.len() && (k < a.len() + b.len() ==> (a + b)[k] != #[trigger] pat[k]),
    ensures
        text::replaced(a + b, pat, with) == a + text::replaced(b, pat, with),
{
    assert forall|k: int| 0 <= k < a.len() implies !text::matches_at(a + b, pat, k) by {
        texts::law_match_is_item_by_item(a + b, pat, k);
        if text::matches_at(a + b, pat, k) {
            assert((a + b)[k + 0] == pat[0]);
            assert(a[k] == '=');
            let j = choose|j: int|
                0 <= j < pat.len() && (j < a.len() + b.len() ==> (a + b)[j]
                    != #[trigger] pat[j]);
            assert((a + b)[k + j] == pat[j]);
        }
    }
    texts::lemma_replaced_splits(a, b, pat, with);
}

/// Text without part markers loses its soft line breaks first, those with CR
/// LF before those with LF, and then its escaped `=`, those with a capital
/// letter first.
pub proof fn law_sanitizing_goes_in_four_steps(s: Seq<char>)
    requires
        !has_part(s),
    ensures
        ({
            let none = Seq::<char>::empty();
            let long = text::replaced(s, "=\r\n"@, none);
            let short = text::replaced(long, "=\n"@, none);
            let upper = text::replaced(short, "=3D"@, "="@);
            snippet::sanitized(s) == text::replaced(upper, "=3d"@, "="@)
        }),
{
    lemma_no_part(s);
}

proof fn lemma_patterns()
    ensures
        "=\r\n"@ =~= seq!['=', '\r', '\n'],
        "=\n"@ =~= seq!['=', '\n'],
        "=3D"@ =~= seq!['=', '3', 'D'],
        "=3d"@ =~= seq!['=', '3', 'd'],
        "="@ =~= seq!['='],
{
    reveal_strlit("=\r\n");
    reveal_strlit("=\n");
    reveal_strlit("=3D");
    reveal_strlit("=3d");
    reveal_strlit("=");
}

/// Text before the first `=` stays as it is.
pub proof fn law_text_before_an_equals_sign_stays(a: Seq<char>, x: Seq<char>)
    requires
        !a.contains('='),
        !has_part(a + x),
    ensures
        snippet::sanitized(a + x) == a + snippet::sanitized(x),
{
    lemma_patterns();
    lemma_no_part_behind(a, x);
    law_sanitizing_goes_in_four_steps(a + x);
    law_sanitizing_goes_in_four_steps(x);
    let none = Seq::<char>::empty();
    let long = text::replaced(x, "=\r\n"@, none);
    let short = text::replaced(long, "=\n"@, none);
    let upper = text::replaced(short, "=3D"@, "="@);
    lemma_replaced_behind(a, x, "=\r\n"@, none);
    lemma_replaced_behind(a, long, "=\n"@, none);
    lemma_replaced_behind(a, short, "=3D"@, "="@);
    lemma_replaced_behind(a, upper, "=3d"@, "="@);
}

/// A soft line break vanishes.
pub proof fn law_soft_break_vanishes(b: Seq<char>)
    ensures
        !has_part("=\n"@ + b) ==> snippet::sanitized("=\n"@ + b) == snippet::sanitized(b),
        !has_part("=\r\n"@ + b) ==> snippet::sanitized("=\r\n"@ + b) == snippet::sanitized(b),
{
    lemma_patterns();
    let none = Seq::<char>::empty();
    let long = text::replaced(b, "=\r\n"@, none);
    if !has_part("=\n"@ + b) {
        lemma_no_part_behind("=\n"@, b);
        law_sanitizing_goes_in_four_steps("=\n"@ + b);
        law_sanitizing_goes_in_four_steps(b);
        assert(("=\n"@ + b)[1] != "=\r\n"@[1]);
        lemma_not_replaced("=\n"@, b, "=\r\n"@, none);
        texts::lemma_replaced_at_front("=\n"@, long, none);
        assert(none + text::replaced(long, "=\n"@, none) =~= text::replaced(long, "=\n"@, none));
    }
    if !has_part("=\r\n"@ + b) {
        lemma_no_part_behind("=\r\n"@, b);
        law_sanitizing_goes_in_four_steps("=\r\n"@ + b);
        law_sanitizing_goes_in_four_steps(b);
        texts::lemma_replaced_at_front("=\r\n"@, b, none);
        assert(none + long =~= long);
    }
}

/// An escaped `=` with a small letter becomes `=`.
pub proof fn law_escaped_equals_sign_is_undone(b: Seq<char>)
    requires
        !has_part("=3d"@ + b),
    ensures
        snippet::sanitized("=3d"@ + b) == "="@ + snippet::sanitized(b),
{
    lemma_patterns();
    let none = Seq::<char>::empty();
    let e = "=3d"@;
    lemma_no_part_behind(e, b);
    law_sanitizing_goes_in_four_steps(e + b);
    law_sanitizing_goes_in_four_steps(b);
    let long = text::replaced(b, "=\r\n"@, none);
    let short = text::replaced(long, "=\n"@, none);
    let upper = text::replaced(short, "=3D"@, "="@);
    assert((e + b)[1] != "=\r\n"@[1]);
    lemma_not_replaced(e, b, "=\r\n"@, none);
    assert((e + long)[1] != "=\n"@[1]);
    lemma_not_replaced(e, long, "=\n"@, none);
    assert((e + short)[2] != "=3D"@[2]);
    lemma_not_replaced(e, short, "=3D"@, "="@);
    texts::lemma_replaced_at_front(e, upper, "="@);
}

/// What starts with another character than `=` still does so once replaced.
proof fn lemma_first_stays(b: Seq<char>, pat: Seq<char>, with: Seq<char>)
    requires
        b.len() > 0,
        b[0] != '=',
        pat.len() > 0,
        pat[0] == '=',
    ensures
        text::replaced(b, pat, with).len() > 0,
        text::replaced(b, pat, with)[0] == b[0],
{
    let first = seq![b[0]];
    assert(first + b.skip(1) =~= b);
    assert(!first.contains('='));
    lemma_replaced_behind(first, b.skip(1), pat, with);
}

/// An escaped `=` with a capital letter becomes `=`, unless that makes up a new
/// escape with what follows.
pub proof fn law_escaped_equals_sign_with_capital_is_undone(b: Seq<char>)
    requires
        !has_part("=3D"@ + b),
        b.len() > 0 ==> b[0] != '3' && b[0] != '=',
    ensures
        snippet::sanitized("=3D"@ + b) == "="@ + snippet::sanitized(b),
{
    lemma_patterns();
    let none = Seq::<char>::empty();
    let e = "=3D"@;
    lemma_no_part_behind(e, b);
    law_sanitizing_goes_in_four_steps(e + b);
    law_sanitizing_goes_in_four_steps(b);
    let long = text::replaced(b, "=\r\n"@, none);
    let short = text::replaced(long, "=\n"@, none);
    let upper = text::replaced(short, "=3D"@, "="@);
    assert((e + b)[1] != "=\r\n"@[1]);
    lemma_not_replaced(e, b, "=\r\n"@, none);
    assert((e + long)[1] != "=\n"@[1]);
    lemma_not_replaced(e, long, "=\n"@, none);
    texts::lemma_replaced_at_front(e, short, "="@);
    if b.len() > 0 {
        lemma_first_stays(b, "=\r\n"@, none);
        lemma_first_stays(long, "=\n"@, none);
        lemma_first_stays(short, "=3D"@, "="@);
        assert(("="@ + upper)[1] != "=3d"@[1]);
    } else {
        assert(upper.len() == 0);
        assert("=3d"@[2] == 'd');
    }
    lemma_not_replaced("="@, upper, "=3d"@, "="@);
}

/// Any other `=` stays.
pub proof fn law_other_equals_signs_stay(b: Seq<char>)
    requires
        !has_part("="@ + b),
        b.len() > 0 ==> b[0] != '\n' && b[0] != '\r' && b[0] != '3' && b[0] != '=',
    ensures
        snippet::sanitized("="@ + b) == "="@ + snippet::sanitized(b),
{
    lemma_patterns();
    let none = Seq::<char>::empty();
    let e = "="@;
    lemma_no_part_behind(e, b);
    law_sanitizing_goes_in_four_steps(e + b);
    law_sanitizing_goes_in_four_steps(b);
    let long = text::replaced(b, "=\r\n"@, none);
    let short = text::replaced(long, "=\n"@, none);
    let upper = text::replaced(short, "=3D"@, "="@);
    if b.len() > 0 {
        lemma_first_stays(b, "=\r\n"@, none);
        lemma_first_stays(long, "=\n"@, none);
        lemma_first_stays(short, "=3D"@, "="@);
        assert((e + b)[1] != "=\r\n"@[1]);
        assert((e + long)[1] != "=\n"@[1]);
        assert((e + short)[1] != "=3D"@[1]);
        assert((e + upper)[1] != "=3d"@[1]);
    } else {
        assert("=\r\n"@[1] == '\r' && "=\n"@[1] == '\n' && "=3D"@[1] == '3' && "=3d"@[1] == '3');
    }
    lemma_not_replaced(e, b, "=\r\n"@, none);
    lemma_not_replaced(e, long, "=\n"@, none);
    lemma_not_replaced(e, short, "=3D"@, "="@);
    lemma_not_replaced(e, upper, "=3d"@, "="@);
}

} // verus!
