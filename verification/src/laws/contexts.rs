//! Laws of keywords in the surroundings of a text.
use crate::context;
use crate::text;
use crate::laws::texts;
use vstd::prelude::*;
use vstd::utf8::*;

verus! {

/// One of several texts stands in `s` exactly if `s` is that text with
/// something before and something after it.
pub proof fn law_one_of_several_has_a_place(s: Seq<char>, needles: Seq<Seq<char>>)
    ensures
        context::contains_one_of(s, needles) <==> exists|k: int, a: Seq<char>, b: Seq<char>|
            0 <= k < needles.len() && s == #[trigger] (a + needles[k] + b),
{
    if context::contains_one_of(s, needles) {
        let k = choose|k: int|
            0 <= k < needles.len() && text::contains_text(s, #[trigger] needles[k]);
        texts::law_contained_text_has_a_place(s, needles[k]);
        let (a, b) = choose|a: Seq<char>, b: Seq<char>| s == #[trigger] (a + needles[k] + b);
        assert(0 <= k < needles.len() && s == a + needles[k] + b);
    }
    if exists|k: int, a: Seq<char>, b: Seq<char>|
        0 <= k < needles.len() && s == #[trigger] (a + needles[k] + b) {
        let (k, a, b) = choose|k: int, a: Seq<char>, b: Seq<char>|
            0 <= k < needles.len() && s == #[trigger] (a + needles[k] + b);
        texts::law_contained_text_has_a_place(s, needles[k]);
    }
}

proof fn lemma_encode_concat(a: Seq<char>, b: Seq<char>)
    ensures
        encode_utf8(a + b) == encode_utf8(a) + encode_utf8(b),
    decreases a.len(),
{
    if a.len() == 0 {
        assert(a + b =~= b);
        assert(encode_utf8(a + b) =~= encode_utf8(a) + encode_utf8(b));
    } else {
        assert((a + b)[0] == a[0]);
        assert((a + b).drop_first() =~= a.drop_first() + b);
        lemma_encode_concat(a.drop_first(), b);
        assert(encode_utf8(a + b) =~= encode_utf8(a) + encode_utf8(b));
    }
}

proof fn lemma_encode_is_no_shorter(a: Seq<char>)
    ensures
        encode_utf8(a).len() >= a.len(),
    decreases a.len(),
{
    if a.len() > 0 {
        lemma_encode_is_no_shorter(a.drop_first());
    }
}

/// Longer fronts of a text have longer encodings.
proof fn lemma_encoded_fronts(s: Seq<char>, i: int, j: int)
    requires
        0 <= i <= s.len(),
        0 <= j <= s.len(),
    ensures
        i < j <==> encode_utf8(s.take(i)).len() < encode_utf8(s.take(j)).len(),
        i == j <==> encode_utf8(s.take(i)).len() == encode_utf8(s.take(j)).len(),
{
    if i < j {
        assert(s.take(j) =~= s.take(i) + s.subrange(i, j));
        lemma_encode_concat(s.take(i), s.subrange(i, j));
        lemma_encode_is_no_shorter(s.subrange(i, j));
    } else if j < i {
        assert(s.take(i) =~= s.take(j) + s.subrange(j, i));
        lemma_encode_concat(s.take(j), s.subrange(j, i));
        lemma_encode_is_no_shorter(s.subrange(j, i));
    }
}

/// The end of a front is a boundary.
proof fn lemma_front_ends_at_boundary(a: Seq<char>, b: Seq<char>)
    ensures
        is_char_boundary(encode_utf8(a + b), encode_utf8(a).len() as int),
{
    let bytes = encode_utf8(a + b);
    let n = encode_utf8(a).len() as int;
    lemma_encode_concat(a, b);
    encode_utf8_valid_utf8(a + b);
    encode_utf8_valid_utf8(b);
    if encode_utf8(b).len() == 0 {
        is_char_boundary_start_end_of_seq(bytes);
    } else {
        is_char_boundary_start_end_of_seq(encode_utf8(b));
        is_char_boundary_iff_not_is_continuation_byte(encode_utf8(b), 0);
        assert(bytes[n] == encode_utf8(b)[0]);
        is_char_boundary_iff_not_is_continuation_byte(bytes, n);
    }
}

/// What is before a boundary is the encoding of a front.
proof fn lemma_boundary_ends_a_front(s: Seq<char>, at: int) -> (n: int)
    requires
        is_char_boundary(encode_utf8(s), at),
        0 <= at <= encode_utf8(s).len(),
    ensures
        0 <= n <= s.len(),
        encode_utf8(s.take(n)) == encode_utf8(s).subrange(0, at),
        encode_utf8(s.take(n)).len() == at,
{
    let bytes = encode_utf8(s);
    encode_utf8_valid_utf8(s);
    encode_utf8_decode_utf8(s);
    valid_utf8_split(bytes, at);
    decode_utf8_split(bytes, at);
    let front = decode_utf8(bytes.subrange(0, at));
    decode_utf8_encode_utf8(bytes.subrange(0, at));
    let n = front.len() as int;
    assert(s.take(n) =~= front);
    n
}

/// Where the encoding of a text stands, the text stands.
proof fn lemma_encoded_text_stands(s: Seq<char>, needle: Seq<char>, at: int) -> (n: int)
    requires
        needle.len() > 0,
        text::matches_at(encode_utf8(s), encode_utf8(needle), at),
    ensures
        0 <= n <= s.len() - needle.len(),
        s == s.take(n) + needle + s.skip(n + needle.len()),
        encode_utf8(s.take(n)).len() == at,
{
    let bytes = encode_utf8(s);
    let wanted = encode_utf8(needle);
    lemma_encode_is_no_shorter(needle);
    encode_utf8_valid_utf8(s);
    encode_utf8_valid_utf8(needle);
    is_char_boundary_start_end_of_seq(wanted);
    is_char_boundary_iff_not_is_continuation_byte(wanted, 0);
    assert(bytes[at] == bytes.subrange(at, at + wanted.len())[0]);
    is_char_boundary_iff_not_is_continuation_byte(bytes, at);
    let n = lemma_boundary_ends_a_front(s, at);
    valid_utf8_split(bytes, at);
    let rest = bytes.subrange(at, bytes.len() as int);
    let m = wanted.len() as int;
    assert(rest.subrange(0, m) =~= wanted);
    let last = rest.subrange(m, rest.len() as int);
    if !valid_utf8(last) {
        partial_valid_partial_invalid_utf8(rest, m);
    }
    let after = decode_utf8(last);
    decode_utf8_encode_utf8(last);
    let whole = s.take(n) + needle + after;
    lemma_encode_concat(s.take(n) + needle, after);
    lemma_encode_concat(s.take(n), needle);
    assert(encode_utf8(whole) =~= bytes);
    encode_utf8_decode_utf8(whole);
    encode_utf8_decode_utf8(s);
    assert(whole == s);
    assert(whole.skip(n + needle.len()) =~= after);
    n
}

/// `u` reaches no further than 120 bytes, but for the rest of a character that
/// the 120th byte cuts.
pub open spec fn reaches_back(u: Seq<char>) -> bool {
    encode_utf8(u).len() <= 120 || (u.len() > 0 && encode_utf8(u.skip(1)).len() < 120)
}

/// No occurrence of `needle` in `s` overlaps the one behind `front`.
pub open spec fn stands_apart(s: Seq<char>, needle: Seq<char>, front: int) -> bool {
    forall|p: Seq<char>, q: Seq<char>|
        s == #[trigger] (p + needle + q) ==> {
            ||| p.len() == front
            ||| p.len() + needle.len() <= front
            ||| front + needle.len() <= p.len()
        }
}

/// Where the surroundings of what stands behind the first `n` characters start.
proof fn lemma_surroundings_start(s: Seq<char>, n: int) -> (i: int)
    requires
        0 <= n <= s.len(),
    ensures
        0 <= i <= n,
        ({
            let idx = encode_utf8(s.take(n)).len() as int;
            encode_utf8(s.take(i)).len() == context::boundary_at_or_before(
                encode_utf8(s),
                if idx < 120 {
                    0
                } else {
                    idx - 120
                },
            )
        }),
        encode_utf8(s.take(i)) == encode_utf8(s).subrange(0, encode_utf8(s.take(i)).len() as int),
        reaches_back(s.subrange(i, n)),
        i > 0 ==> !reaches_back(s.subrange(i - 1, n)),
{
    let bytes = encode_utf8(s);
    let idx = encode_utf8(s.take(n)).len() as int;
    let first = if idx < 120 {
        0
    } else {
        idx - 120
    };
    lemma_take_is_short(s, n);
    encode_utf8_valid_utf8(s);
    context::lemma_boundary_is_greatest(bytes, first);
    let a = context::boundary_at_or_before(bytes, first);
    let i = lemma_boundary_ends_a_front(s, a);
    lemma_encoded_fronts(s, n, i);
    if i < n {
        lemma_cut_front(s, i, n);
        lemma_take_ends_at_boundary(s, i + 1);
        lemma_encoded_fronts(s, i, i + 1);
        if encode_utf8(s.take(i + 1)).len() <= first {
            assert(!is_char_boundary(bytes, encode_utf8(s.take(i + 1)).len() as int));
        }
    } else {
        assert(s.subrange(i, n) =~= Seq::<char>::empty());
        assert(encode_utf8(s.subrange(i, n)).len() == 0);
    }
    if i > 0 {
        lemma_cut_front(s, i - 1, n);
        lemma_encoded_fronts(s, i - 1, i);
    }
    i
}

/// Where the surroundings of what ends with the first `n` characters end.
proof fn lemma_surroundings_end(s: Seq<char>, n: int) -> (j: int)
    requires
        0 <= n <= s.len(),
    ensures
        n <= j <= s.len(),
        ({
            let after = encode_utf8(s.take(n)).len() as int;
            let total = encode_utf8(s).len() as int;
            encode_utf8(s.take(j)).len() == context::boundary_at_or_before(
                encode_utf8(s),
                if after + 120 < total {
                    after + 120
                } else {
                    total
                },
            )
        }),
        encode_utf8(s.take(j)) == encode_utf8(s).subrange(0, encode_utf8(s.take(j)).len() as int),
        encode_utf8(s.subrange(n, j)).len() <= 120,
        j < s.len() ==> encode_utf8(s.subrange(n, j + 1)).len() > 120,
{
    let bytes = encode_utf8(s);
    let after = encode_utf8(s.take(n)).len() as int;
    let last = if after + 120 < bytes.len() {
        after + 120
    } else {
        bytes.len() as int
    };
    lemma_take_is_short(s, n);
    encode_utf8_valid_utf8(s);
    context::lemma_boundary_is_greatest(bytes, last);
    let b = context::boundary_at_or_before(bytes, last);
    let j = lemma_boundary_ends_a_front(s, b);
    lemma_take_ends_at_boundary(s, n);
    assert(b >= after);
    lemma_encoded_fronts(s, j, n);
    assert(s.take(j) =~= s.take(n) + s.subrange(n, j));
    lemma_encode_concat(s.take(n), s.subrange(n, j));
    if j < s.len() {
        lemma_take_ends_at_boundary(s, j + 1);
        lemma_take_is_short(s, j + 1);
        lemma_encoded_fronts(s, j, j + 1);
        if encode_utf8(s.take(j + 1)).len() <= last {
            assert(!is_char_boundary(bytes, encode_utf8(s.take(j + 1)).len() as int));
        }
        assert(s.take(j + 1) =~= s.take(n) + s.subrange(n, j + 1));
        lemma_encode_concat(s.take(n), s.subrange(n, j + 1));
    }
    j
}

proof fn lemma_take_is_short(s: Seq<char>, n: int)
    requires
        0 <= n <= s.len(),
    ensures
        encode_utf8(s.take(n)).len() <= encode_utf8(s).len(),
{
    assert(s =~= s.take(n) + s.skip(n));
    lemma_encode_concat(s.take(n), s.skip(n));
}

proof fn lemma_take_ends_at_boundary(s: Seq<char>, n: int)
    requires
        0 <= n <= s.len(),
    ensures
        is_char_boundary(encode_utf8(s), encode_utf8(s.take(n)).len() as int),
{
    assert(s =~= s.take(n) + s.skip(n));
    lemma_front_ends_at_boundary(s.take(n), s.skip(n));
}

/// What the surroundings of a text at a place are, in characters.
proof fn lemma_surroundings_in_characters(s: Seq<char>, n: int, len: int) -> (span: (int, int))
    requires
        0 <= n <= n + len <= s.len(),
    ensures
        0 <= span.0 <= n <= n + len <= span.1 <= s.len(),
        context::surroundings(
            encode_utf8(s),
            encode_utf8(s.take(n)).len() as int,
            encode_utf8(s.subrange(n, n + len)).len() as int,
        ) == s.subrange(span.0, span.1),
        reaches_back(s.subrange(span.0, n)),
        encode_utf8(s.subrange(n + len, span.1)).len() <= 120,
        span.0 > 0 ==> !reaches_back(s.subrange(span.0 - 1, n)),
        span.1 < s.len() ==> encode_utf8(s.subrange(n + len, span.1 + 1)).len() > 120,
{
    let bytes = encode_utf8(s);
    let mid = s.subrange(n, n + len);
    assert(s.take(n + len) =~= s.take(n) + mid);
    lemma_encode_concat(s.take(n), mid);
    let i = lemma_surroundings_start(s, n);
    let j = lemma_surroundings_end(s, n + len);
    let a = encode_utf8(s.take(i)).len() as int;
    let b = encode_utf8(s.take(j)).len() as int;
    assert(s.take(j) =~= s.take(i) + s.subrange(i, j));
    lemma_encode_concat(s.take(i), s.subrange(i, j));
    lemma_take_is_short(s, j);
    assert(bytes.subrange(a, b) =~= encode_utf8(s.subrange(i, j))) by {
        assert(encode_utf8(s.take(j)).subrange(a, b) =~= encode_utf8(s.subrange(i, j)));
        assert(bytes.subrange(0, b).subrange(a, b) =~= bytes.subrange(a, b));
    }
    encode_utf8_decode_utf8(s.subrange(i, j));
    (i, j)
}

/// The lengths of the encodings of what lies between `i` and `n`, with and
/// without its first character.
proof fn lemma_cut_front(s: Seq<char>, i: int, n: int)
    requires
        0 <= i < n <= s.len(),
    ensures
        encode_utf8(s.subrange(i, n)).len() == encode_utf8(s.take(n)).len() - encode_utf8(
            s.take(i),
        ).len(),
        encode_utf8(s.subrange(i, n).skip(1)).len() == encode_utf8(s.take(n)).len() - encode_utf8(
            s.take(i + 1),
        ).len(),
{
    assert(s.take(n) =~= s.take(i) + s.subrange(i, n));
    lemma_encode_concat(s.take(i), s.subrange(i, n));
    assert(s.take(n) =~= s.take(i + 1) + s.subrange(i + 1, n));
    lemma_encode_concat(s.take(i + 1), s.subrange(i + 1, n));
    assert(s.subrange(i, n).skip(1) =~= s.subrange(i + 1, n));
}

/// A keyword near an occurrence is noticed: if a keyword stands in the text
/// that reaches up to 120 bytes before and 120 bytes after an occurrence that
/// overlaps no other, then it is near.
pub proof fn law_every_keyword_near_is_noticed(
    p: Seq<char>,
    u: Seq<char>,
    needle: Seq<char>,
    v: Seq<char>,
    q: Seq<char>,
    keywords: Seq<Seq<char>>,
)
    requires
        needle.len() > 0,
        reaches_back(u),
        encode_utf8(v).len() <= 120,
        context::contains_one_of(u + needle + v, keywords),
        stands_apart(p + u + needle + v + q, needle, (p.len() + u.len()) as int),
    ensures
        context::keyword_near(p + u + needle + v + q, needle, keywords),
{
    let s = p + u + needle + v + q;
    let n = (p.len() + u.len()) as int;
    let len = needle.len() as int;
    assert(s.subrange(n, n + len) =~= needle);
    let (i, j) = lemma_surroundings_in_characters(s, n, len);
    // The surroundings hold what the law speaks of.
    if i > p.len() {
        assert(s.subrange(i - 1, n).is_suffix_of(u)) by {
            assert(s.subrange(p.len() as int, n) =~= u);
        }
        lemma_reach_of_less(u, s.subrange(i - 1, n));
    }
    let end = n + len + v.len();
    if j < end {
        assert(s.subrange(n + len, end) =~= v);
        assert(v =~= s.subrange(n + len, j + 1) + s.subrange(j + 1, end));
        lemma_encode_concat(s.subrange(n + len, j + 1), s.subrange(j + 1, end));
    }
    let around = s.subrange(i, j);
    let x = s.subrange(i, p.len() as int);
    let y = s.subrange(end, j);
    assert(around =~= x + (u + needle + v) + y);
    law_one_of_several_has_a_place(u + needle + v, keywords);
    let (k, a, b) = choose|k: int, a: Seq<char>, b: Seq<char>|
        0 <= k < keywords.len() && u + needle + v == #[trigger] (a + keywords[k] + b);
    assert(around =~= (x + a) + keywords[k] + (b + y));
    law_one_of_several_has_a_place(around, keywords);
    // The scan reaches the occurrence.
    let bytes = encode_utf8(s);
    let wanted = encode_utf8(needle);
    let idx = encode_utf8(s.take(n)).len() as int;
    lemma_encode_is_no_shorter(needle);
    assert(s =~= s.take(n) + needle + s.skip(n + len));
    lemma_encode_concat(s.take(n) + needle, s.skip(n + len));
    lemma_encode_concat(s.take(n), needle);
    assert(bytes.subrange(idx, idx + wanted.len()) =~= wanted);
    assert forall|at: int| text::matches_at(bytes, wanted, at) implies at == idx || at
        + wanted.len() <= idx || idx + wanted.len() <= at by {
        let m = lemma_encoded_text_stands(s, needle, at);
        assert(s == s.take(m) + needle + s.skip(m + len));
        if m + len <= n {
            assert(s.take(m + len) =~= s.take(m) + needle);
            lemma_encode_concat(s.take(m), needle);
            lemma_encoded_fronts(s, n, m + len);
        } else if n + len <= m {
            assert(s.take(n + len) =~= s.take(n) + needle);
            lemma_encoded_fronts(s, m, n + len);
        }
    }
    lemma_scan_reaches(bytes, wanted, keywords, idx, 0);
}

proof fn lemma_reach_of_less(u: Seq<char>, w: Seq<char>)
    requires
        reaches_back(u),
        w.is_suffix_of(u),
        w.len() > 0,
    ensures
        reaches_back(w),
{
    let d = u.len() - w.len();
    let front = u.take(d);
    assert(u =~= front + w);
    lemma_encode_concat(front, w);
    if d > 0 && encode_utf8(u).len() > 120 {
        assert(u.skip(1) =~= front.skip(1) + w);
        lemma_encode_concat(front.skip(1), w);
    } else if d == 0 {
        assert(u =~= w);
    }
}

proof fn lemma_scan_reaches(
    bytes: Seq<u8>,
    wanted: Seq<u8>,
    keywords: Seq<Seq<char>>,
    idx: int,
    start: int,
)
    requires
        wanted.len() > 0,
        0 <= start <= idx,
        text::matches_at(bytes, wanted, idx),
        forall|at: int|
            text::matches_at(bytes, wanted, at) ==> at == idx || at + wanted.len() <= idx || idx
                + wanted.len() <= at,
        context::contains_one_of(
            context::surroundings(bytes, idx, wanted.len() as int),
            keywords,
        ),
    ensures
        context::keyword_near_from(bytes, wanted, keywords, start),
    decreases idx - start,
{
    text::lemma_find_is_first(bytes, wanted, start);
    let at = text::find(bytes, wanted, start)->0;
    if at < idx {
        lemma_scan_reaches(bytes, wanted, keywords, idx, at + wanted.len());
    }
}

/// What is noticed is near: a keyword that is said to be near stands in the
/// text that reaches up to 120 bytes before and 120 bytes after an occurrence.
pub proof fn law_only_keywords_near_are_noticed(
    content: Seq<char>,
    needle: Seq<char>,
    keywords: Seq<Seq<char>>,
)
    requires
        context::keyword_near(content, needle, keywords),
    ensures
        exists|p: Seq<char>, u: Seq<char>, v: Seq<char>, q: Seq<char>|
            content == #[trigger] (p + u + needle + v + q) && reaches_back(u) && encode_utf8(
                v,
            ).len() <= 120 && context::contains_one_of(u + needle + v, keywords),
{
    let bytes = encode_utf8(content);
    let wanted = encode_utf8(needle);
    let idx = lemma_noticed_somewhere(bytes, wanted, keywords, 0);
    let n = lemma_encoded_text_stands(content, needle, idx);
    let len = needle.len() as int;
    assert(content.subrange(n, n + len) =~= needle);
    let (i, j) = lemma_surroundings_in_characters(content, n, len);
    let p = content.take(i);
    let u = content.subrange(i, n);
    let v = content.subrange(n + len, j);
    let q = content.skip(j);
    assert(content =~= p + u + needle + v + q);
    assert(content.subrange(i, j) =~= u + needle + v);
}

proof fn lemma_noticed_somewhere(
    bytes: Seq<u8>,
    wanted: Seq<u8>,
    keywords: Seq<Seq<char>>,
    start: int,
) -> (idx: int)
    requires
        0 <= start,
        context::keyword_near_from(bytes, wanted, keywords, start),
    ensures
        wanted.len() > 0,
        start <= idx,
        text::matches_at(bytes, wanted, idx),
        context::contains_one_of(
            context::surroundings(bytes, idx, wanted.len() as int),
            keywords,
        ),
    decreases bytes.len() - start,
{
    text::lemma_find_is_first(bytes, wanted, start);
    let at = text::find(bytes, wanted, start)->0;
    if context::contains_one_of(
        context::surroundings(bytes, at, wanted.len() as int),
        keywords,
    ) {
        at
    } else {
        lemma_noticed_somewhere(bytes, wanted, keywords, at + wanted.len())
    }
}

/// Occurrences do not overlap: where no keyword is near the first occurrence,
/// one that is noticed is near an occurrence that starts behind its end.
pub proof fn law_overlapping_occurrences_are_skipped(
    p: Seq<char>,
    needle: Seq<char>,
    q: Seq<char>,
    keywords: Seq<Seq<char>>,
)
    requires
        forall|i: int| 0 <= i < p.len() ==> !needle.is_prefix_of(#[trigger] (p + needle + q).skip(i)),
        forall|u: Seq<char>, v: Seq<char>|
            #![trigger u + needle + v]
            u.is_suffix_of(p) && v.is_prefix_of(q) && reaches_back(u) && encode_utf8(v).len()
                <= 120 ==> !context::contains_one_of(u + needle + v, keywords),
        context::keyword_near(p + needle + q, needle, keywords),
    ensures
        exists|a: Seq<char>, u: Seq<char>, v: Seq<char>, b: Seq<char>|
            p + needle + q == #[trigger] (a + u + needle + v + b) && reaches_back(u)
                && encode_utf8(v).len() <= 120 && context::contains_one_of(
                u + needle + v,
                keywords,
            ) && a.len() + u.len() >= p.len() + needle.len(),
{
    let s = p + needle + q;
    let bytes = encode_utf8(s);
    let wanted = encode_utf8(needle);
    let end = (p.len() + needle.len()) as int;
    lemma_noticed_somewhere(bytes, wanted, keywords, 0);
    lemma_first_in_bytes(p, needle, q);
    lemma_first_is_not_near(p, needle, q, keywords);
    let at = encode_utf8(p).len() as int;
    assert(context::keyword_near_from(bytes, wanted, keywords, at + wanted.len()));
    let found = lemma_noticed_somewhere(bytes, wanted, keywords, at + wanted.len());
    let m = lemma_encoded_text_stands(s, needle, found);
    assert(m >= end) by {
        assert(s.take(end) =~= p + needle);
        lemma_encode_concat(p, needle);
        lemma_encoded_fronts(s, m, end);
    }
    let len = needle.len() as int;
    assert(s.subrange(m, m + len) =~= needle);
    let (x, y) = lemma_surroundings_in_characters(s, m, len);
    let before = s.subrange(x, m);
    let after = s.subrange(m + len, y);
    assert(s =~= s.take(x) + before + needle + after + s.skip(y));
    assert(s.subrange(x, y) =~= before + needle + after);
}

/// The first occurrence of a text is the first of its encoding.
proof fn lemma_first_in_bytes(p: Seq<char>, needle: Seq<char>, q: Seq<char>)
    requires
        needle.len() > 0,
        forall|i: int| 0 <= i < p.len() ==> !needle.is_prefix_of(#[trigger] (p + needle + q).skip(i)),
    ensures
        text::find(encode_utf8(p + needle + q), encode_utf8(needle), 0) == Some(
            encode_utf8(p).len() as int,
        ),
{
    let s = p + needle + q;
    let bytes = encode_utf8(s);
    let wanted = encode_utf8(needle);
    let idx = encode_utf8(p).len() as int;
    lemma_encode_concat(p + needle, q);
    lemma_encode_concat(p, needle);
    assert(bytes.subrange(idx, idx + wanted.len()) =~= wanted);
    assert(text::matches_at(bytes, wanted, idx));
    text::lemma_find_is_first(bytes, wanted, 0);
    let at = text::find(bytes, wanted, 0)->0;
    if at < idx {
        let n = lemma_encoded_text_stands(s, needle, at);
        let first = p.len() as int;
        assert(s.take(first) =~= p);
        lemma_encoded_fronts(s, n, first);
        assert(s.subrange(n, n + needle.len()) =~= needle);
        assert(s.skip(n).subrange(0, needle.len() as int) =~= needle);
        assert(needle.is_prefix_of(s.skip(n)));
    }
}

proof fn lemma_first_is_not_near(
    p: Seq<char>,
    needle: Seq<char>,
    q: Seq<char>,
    keywords: Seq<Seq<char>>,
)
    requires
        forall|u: Seq<char>, v: Seq<char>|
            #![trigger u + needle + v]
            u.is_suffix_of(p) && v.is_prefix_of(q) && reaches_back(u) && encode_utf8(v).len()
                <= 120 ==> !context::contains_one_of(u + needle + v, keywords),
    ensures
        !context::contains_one_of(
            context::surroundings(
                encode_utf8(p + needle + q),
                encode_utf8(p).len() as int,
                encode_utf8(needle).len() as int,
            ),
            keywords,
        ),
{
    let s = p + needle + q;
    let first = p.len() as int;
    let len = needle.len() as int;
    assert(s.take(first) =~= p);
    assert(s.subrange(first, first + len) =~= needle);
    let (i, j) = lemma_surroundings_in_characters(s, first, len);
    let u = s.subrange(i, first);
    let v = s.subrange(first + len, j);
    assert(s.subrange(i, j) =~= u + needle + v);
    assert(p.subrange(i, first) =~= u);
    assert(q.subrange(0, v.len() as int) =~= v);
    assert(u.is_suffix_of(p));
    assert(v.is_prefix_of(q));
}

} // verus!
