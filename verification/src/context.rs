//! Keywords in the surroundings of a text. Surroundings are measured in bytes
//! of the UTF-8 encoding and never cut a character.
use crate::mini::MiniEnvelopes;
use crate::text;
use vstd::prelude::*;
use vstd::string::*;
use vstd::utf8::*;

verus! {

/// How far the surroundings of a text reach to either side, in bytes.
pub const CONTEXT_WINDOW_BYTES: usize = 120;

/// One of `needles` stands in `s`.
pub open spec fn contains_one_of(s: Seq<char>, needles: Seq<Seq<char>>) -> bool {
    exists|k: int| 0 <= k < needles.len() && text::contains_text(s, #[trigger] needles[k])
}

/// The greatest character boundary of `bytes` that is not beyond `idx`.
pub open spec fn boundary_at_or_before(bytes: Seq<u8>, idx: int) -> int
    decreases idx,
{
    if idx <= 0 {
        0
    } else if is_char_boundary(bytes, idx) {
        idx
    } else {
        boundary_at_or_before(bytes, idx - 1)
    }
}

/// The text around the `len` bytes that stand at `idx`.
pub open spec fn surroundings(bytes: Seq<u8>, idx: int, len: int) -> Seq<char> {
    let first = if idx < CONTEXT_WINDOW_BYTES {
        0
    } else {
        idx - CONTEXT_WINDOW_BYTES
    };
    let last = if idx + len + CONTEXT_WINDOW_BYTES < bytes.len() {
        idx + len + CONTEXT_WINDOW_BYTES
    } else {
        bytes.len() as int
    };
    decode_utf8(
        bytes.subrange(boundary_at_or_before(bytes, first), boundary_at_or_before(bytes, last)),
    )
}

/// One of `keywords` stands in the surroundings of an occurrence of `needle`
/// in `bytes`. Occurrences are taken from `start` on, without overlap.
pub open spec fn keyword_near_from(
    bytes: Seq<u8>,
    needle: Seq<u8>,
    keywords: Seq<Seq<char>>,
    start: int,
) -> bool
    decreases bytes.len() - start,
{
    if needle.len() == 0 || start < 0 || start > bytes.len() {
        false
    } else {
        match text::find(bytes, needle, start) {
            None => false,
            Some(idx) => {
                proof {
                    text::lemma_find_is_first(bytes, needle, start);
                }
                ||| contains_one_of(surroundings(bytes, idx, needle.len() as int), keywords)
                ||| keyword_near_from(bytes, needle, keywords, idx + needle.len())
            },
        }
    }
}

/// One of `keywords` stands near `needle` in `content`.
pub open spec fn keyword_near(
    content: Seq<char>,
    needle: Seq<char>,
    keywords: Seq<Seq<char>>,
) -> bool {
    keyword_near_from(encode_utf8(content), encode_utf8(needle), keywords, 0)
}

/// The boundary found is one, and there is none between it and `idx`.
pub proof fn lemma_boundary_is_greatest(bytes: Seq<u8>, idx: int)
    requires
        valid_utf8(bytes),
        0 <= idx,
    ensures
        0 <= boundary_at_or_before(bytes, idx) <= idx,
        is_char_boundary(bytes, boundary_at_or_before(bytes, idx)),
        forall|k: int|
            boundary_at_or_before(bytes, idx) < k <= idx ==> !is_char_boundary(bytes, k),
    decreases idx,
{
    if idx > 0 && !is_char_boundary(bytes, idx) {
        lemma_boundary_is_greatest(bytes, idx - 1);
    }
}

/// A boundary of `bytes` up to `end` is a boundary of the part before `end`.
proof fn lemma_boundary_in_prefix(bytes: Seq<u8>, start: int, end: int)
    requires
        valid_utf8(bytes),
        0 <= start <= end <= bytes.len(),
        is_char_boundary(bytes, start),
        is_char_boundary(bytes, end),
    ensures
        valid_utf8(bytes.subrange(0, end)),
        is_char_boundary(bytes.subrange(0, end), start),
{
    let prefix = bytes.subrange(0, end);
    valid_utf8_split(bytes, end);
    if start == end {
        is_char_boundary_start_end_of_seq(prefix);
    } else {
        is_char_boundary_iff_not_is_continuation_byte(bytes, start);
        assert(prefix[start] == bytes[start]);
        is_char_boundary_iff_not_is_continuation_byte(prefix, start);
    }
}

/// The part of `s` between two boundaries.
fn between<'a>(s: &'a str, start: usize, end: usize) -> (part: &'a str)
    requires
        start <= end <= s.spec_bytes().len(),
        is_char_boundary(s.spec_bytes(), start as int),
        is_char_boundary(s.spec_bytes(), end as int),
    ensures
        part@ == decode_utf8(s.spec_bytes().subrange(start as int, end as int)),
{
    let ghost bytes = s.spec_bytes();
    proof {
        encode_utf8_valid_utf8(s@);
        lemma_boundary_in_prefix(bytes, start as int, end as int);
    }
    let prefix = s.split_at(end).0;
    let part = prefix.split_at(start).1;
    proof {
        assert(part.spec_bytes() =~= bytes.subrange(start as int, end as int));
        encode_utf8_decode_utf8(part@);
    }
    part
}

impl MiniEnvelopes {
    /// Whether one of `needles` stands in `haystack`.
    pub fn contains_any(haystack: &str, needles: &[&str]) -> (yes: bool)
        ensures
            yes == contains_one_of(haystack@, text::str_views(needles@)),
    {
        let chars = text::chars_of(haystack);
        let mut k: usize = 0;
        while k < needles.len()
            invariant
                chars@ == haystack@,
                k <= needles@.len(),
                forall|j: int| 0 <= j < k ==> !text::contains_text(haystack@, text::str_views(needles@)[j]),
            decreases needles@.len() - k,
        {
            let needle = text::chars_of(needles[k]);
            proof {
                assert(text::str_views(needles@)[k as int] == needles@[k as int]@);
            }
            if text::chars_contain(chars.as_slice(), needle.as_slice()) {
                return true;
            }
            k += 1;
        }
        false
    }

    /// The greatest character boundary of `content` that is not beyond `idx`.
    pub fn char_boundary_at_or_before(content: &str, idx: usize) -> (boundary: usize)
        ensures
            boundary == boundary_at_or_before(content.spec_bytes(), idx as int),
            boundary <= idx,
            is_char_boundary(content.spec_bytes(), boundary as int),
            forall|k: int| boundary < k <= idx ==> !is_char_boundary(content.spec_bytes(), k),
    {
        let mut boundary: usize = idx;
        while boundary > 0 && !content.is_char_boundary(boundary)
            invariant
                boundary <= idx,
                boundary_at_or_before(content.spec_bytes(), idx as int) == boundary_at_or_before(
                    content.spec_bytes(),
                    boundary as int,
                ),
            decreases boundary,
        {
            boundary -= 1;
        }
        proof {
            encode_utf8_valid_utf8(content@);
            lemma_boundary_is_greatest(content.spec_bytes(), idx as int);
        }
        boundary
    }

    /// Whether one of `keywords` stands near `needle_lower` in
    /// `lower_content`. Nothing is near an empty needle.
    pub fn has_context_keyword_near(
        lower_content: &str,
        needle_lower: &str,
        keywords: &[&str],
    ) -> (yes: bool)
        ensures
            yes == keyword_near(lower_content@, needle_lower@, text::str_views(keywords@)),
    {
        let bytes: &[u8] = lower_content.as_bytes();
        let needle: &[u8] = needle_lower.as_bytes();
        if needle.len() == 0 {
            return false;
        }
        let total: usize = bytes.len();
        let mut start: usize = 0;
        loop
            invariant
                total == bytes@.len(),
                bytes@ == encode_utf8(lower_content@),
                needle@ == encode_utf8(needle_lower@),
                needle@.len() > 0,
                start <= bytes@.len(),
                keyword_near(lower_content@, needle_lower@, text::str_views(keywords@))
                    == keyword_near_from(bytes@, needle@, text::str_views(keywords@), start as int),
            decreases bytes@.len() - start,
        {
            match text::find_bytes(bytes, needle, start) {
                None => {
                    return false;
                },
                Some(idx) => {
                    proof {
                        text::lemma_find_is_first(bytes@, needle@, start as int);
                        encode_utf8_valid_utf8(lower_content@);
                    }
                    let after: usize = idx + needle.len();
                    let first: usize = if idx < CONTEXT_WINDOW_BYTES {
                        0
                    } else {
                        idx - CONTEXT_WINDOW_BYTES
                    };
                    let last: usize = if total - after > CONTEXT_WINDOW_BYTES {
                        after + CONTEXT_WINDOW_BYTES
                    } else {
                        total
                    };
                    let ctx_start: usize = Self::char_boundary_at_or_before(lower_content, first);
                    let ctx_end: usize = Self::char_boundary_at_or_before(lower_content, last);
                    if Self::contains_any(between(lower_content, ctx_start, ctx_end), keywords) {
                        return true;
                    }
                    start = after;
                },
            }
        }
    }
}

/// Nothing is near an empty text.
pub proof fn law_nothing_is_near_nothing(content: Seq<char>, keywords: Seq<Seq<char>>)
    ensures
        !keyword_near(content, Seq::empty(), keywords),
{
}

/// Where a keyword is near a text, both stand in the content.
pub proof fn law_what_is_near_is_there(
    content: Seq<char>,
    needle: Seq<char>,
    keywords: Seq<Seq<char>>,
)
    requires
        keyword_near(content, needle, keywords),
    ensures
        text::contains_text(encode_utf8(content), encode_utf8(needle)),
        contains_one_of(content, keywords),
{
    lemma_what_is_near_is_there_from(content, encode_utf8(needle), keywords, 0);
}

proof fn lemma_what_is_near_is_there_from(
    content: Seq<char>,
    needle: Seq<u8>,
    keywords: Seq<Seq<char>>,
    start: int,
)
    requires
        0 <= start,
        keyword_near_from(encode_utf8(content), needle, keywords, start),
    ensures
        text::contains_text(encode_utf8(content), needle),
        contains_one_of(content, keywords),
    decreases encode_utf8(content).len() - start,
{
    let bytes = encode_utf8(content);
    text::lemma_find_is_first(bytes, needle, start);
    let idx = text::find(bytes, needle, start)->0;
    assert(text::matches_at(bytes, needle, idx));
    let around = surroundings(bytes, idx, needle.len() as int);
    if contains_one_of(around, keywords) {
        lemma_surroundings_are_inside(content, idx, needle.len() as int);
        let (before, after) = choose|before: Seq<char>, after: Seq<char>|
            content == #[trigger] (before + around + after);
        let k = choose|k: int|
            0 <= k < keywords.len() && text::contains_text(around, #[trigger] keywords[k]);
        let i = choose|i: int| text::matches_at(around, keywords[k], i);
        let j = before.len() + i;
        assert(content.subrange(j, j + keywords[k].len()) =~= around.subrange(
            i,
            i + keywords[k].len(),
        ));
        assert(text::matches_at(content, keywords[k], j));
    } else {
        lemma_what_is_near_is_there_from(content, needle, keywords, idx + needle.len());
    }
}

/// The surroundings are a part of the content.
proof fn lemma_surroundings_are_inside(content: Seq<char>, idx: int, len: int)
    requires
        0 <= idx,
        0 <= len,
        idx + len <= encode_utf8(content).len(),
    ensures
        exists|before: Seq<char>, after: Seq<char>|
            content == #[trigger] (before + surroundings(encode_utf8(content), idx, len) + after),
{
    let bytes = encode_utf8(content);
    encode_utf8_valid_utf8(content);
    encode_utf8_decode_utf8(content);
    let first = if idx < CONTEXT_WINDOW_BYTES {
        0
    } else {
        idx - CONTEXT_WINDOW_BYTES
    };
    let last = if idx + len + CONTEXT_WINDOW_BYTES < bytes.len() {
        idx + len + CONTEXT_WINDOW_BYTES
    } else {
        bytes.len() as int
    };
    lemma_boundary_is_greatest(bytes, first);
    lemma_boundary_is_greatest(bytes, last);
    let a = boundary_at_or_before(bytes, first);
    let b = boundary_at_or_before(bytes, last);
    lemma_boundary_in_prefix(bytes, a, b);
    let prefix = bytes.subrange(0, b);
    decode_utf8_split(bytes, b);
    decode_utf8_split(prefix, a);
    assert(prefix.subrange(a, b) =~= bytes.subrange(a, b));
    let before = decode_utf8(prefix.subrange(0, a));
    let after = decode_utf8(bytes.subrange(b, bytes.len() as int));
    assert(content == before + surroundings(bytes, idx, len) + after);
}

} // verus!
