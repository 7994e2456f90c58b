//! Texts as sequences of characters: what it means to search, replace, trim
//! and split them, and the functions that do so.
use vstd::prelude::*;
use vstd::slice::slice_subrange;

verus! {

/// `String::push` appends the character to the end of the string.
pub assume_specification[ String::push ](s: &mut String, ch: char)
    ensures
        final(s)@ == old(s)@.push(ch),
;

/// `pat` stands in `s` at position `i`.
pub open spec fn matches_at<T>(s: Seq<T>, pat: Seq<T>, i: int) -> bool {
    &&& 0 <= i
    &&& i + pat.len() <= s.len()
    &&& s.subrange(i, i + pat.len()) == pat
}

/// `pat` stands somewhere in `s`.
pub open spec fn contains_text<T>(s: Seq<T>, pat: Seq<T>) -> bool {
    exists|i: int| matches_at(s, pat, i)
}

/// The first position, from `from` on, at which `pat` stands in `s`.
pub open spec fn find<T>(s: Seq<T>, pat: Seq<T>, from: int) -> Option<int>
    decreases s.len() + 1 - from,
{
    if from < 0 || from > s.len() {
        None
    } else if matches_at(s, pat, from) {
        Some(from)
    } else {
        find(s, pat, from + 1)
    }
}

/// The first position, from `from` on, whose item satisfies `stop`; the length
/// of `s` where there is none.
pub open spec fn first_where<T>(s: Seq<T>, from: int, stop: spec_fn(T) -> bool) -> int
    decreases s.len() - from,
{
    if from < 0 || from >= s.len() {
        s.len() as int
    } else if stop(s[from]) {
        from
    } else {
        first_where(s, from + 1, stop)
    }
}

/// `s` from position `i` on, with every occurrence of `pat`, taken from the
/// left and without overlap, replaced by `with`.
pub open spec fn replaced_from(s: Seq<char>, pat: Seq<char>, with: Seq<char>, i: int) -> Seq<char>
    decreases s.len() - i,
{
    if i < 0 || i >= s.len() {
        Seq::empty()
    } else if pat.len() > 0 && matches_at(s, pat, i) {
        with + replaced_from(s, pat, with, i + pat.len())
    } else {
        seq![s[i]] + replaced_from(s, pat, with, i + 1)
    }
}

/// `s` with every occurrence of `pat` replaced by `with`.
pub open spec fn replaced(s: Seq<char>, pat: Seq<char>, with: Seq<char>) -> Seq<char> {
    replaced_from(s, pat, with, 0)
}

/// `s` without its leading characters that satisfy `cut`.
pub open spec fn trimmed_front(s: Seq<char>, cut: spec_fn(char) -> bool) -> Seq<char>
    decreases s.len(),
{
    if s.len() > 0 && cut(s[0]) {
        trimmed_front(s.skip(1), cut)
    } else {
        s
    }
}

/// `s` without its trailing characters that satisfy `cut`.
pub open spec fn trimmed_back(s: Seq<char>, cut: spec_fn(char) -> bool) -> Seq<char>
    decreases s.len(),
{
    if s.len() > 0 && cut(s.last()) {
        trimmed_back(s.drop_last(), cut)
    } else {
        s
    }
}

/// `s` without its leading and trailing characters that satisfy `cut`.
pub open spec fn trimmed(s: Seq<char>, cut: spec_fn(char) -> bool) -> Seq<char> {
    trimmed_back(trimmed_front(s, cut), cut)
}

/// The longest stretches of characters that satisfy `keep`, from position `i`
/// on, in their order.
pub open spec fn runs_from(s: Seq<char>, keep: spec_fn(char) -> bool, i: int) -> Seq<Seq<char>>
    decreases s.len() - i,
{
    if i < 0 || i >= s.len() {
        Seq::empty()
    } else if !keep(s[i]) {
        runs_from(s, keep, i + 1)
    } else {
        let end = run_end(s, keep, i + 1);
        proof {
            lemma_first_where_bounds(s, i + 1, negated(keep));
        }
        seq![s.subrange(i, end)] + runs_from(s, keep, end)
    }
}

/// Where the stretch of characters that satisfy `keep` ends, from `i` on.
pub open spec fn run_end(s: Seq<char>, keep: spec_fn(char) -> bool, i: int) -> int {
    first_where(s, i, negated(keep))
}

/// Holds of the characters of which `p` does not.
pub open spec fn negated(p: spec_fn(char) -> bool) -> spec_fn(char) -> bool {
    |c: char| !p(c)
}

/// The longest stretches of characters of `s` that satisfy `keep`.
pub open spec fn runs(s: Seq<char>, keep: spec_fn(char) -> bool) -> Seq<Seq<char>> {
    runs_from(s, keep, 0)
}

/// All characters of `s` satisfy `keep`.
pub open spec fn all_keep(s: Seq<char>, keep: spec_fn(char) -> bool) -> bool {
    forall|k: int| 0 <= k < s.len() ==> keep(#[trigger] s[k])
}

/// `parts`, one after the other, with `sep` between neighbours.
pub open spec fn joined(parts: Seq<Seq<char>>, sep: Seq<char>) -> Seq<char>
    decreases parts.len(),
{
    if parts.len() == 0 {
        Seq::empty()
    } else if parts.len() == 1 {
        parts[0]
    } else {
        joined(parts.drop_last(), sep) + sep + parts.last()
    }
}

/// The texts of strings.
pub open spec fn views(strings: Seq<String>) -> Seq<Seq<char>> {
    strings.map_values(|s: String| s@)
}

/// The texts of string slices.
pub open spec fn str_views(strings: Seq<&str>) -> Seq<Seq<char>> {
    strings.map_values(|s: &str| s@)
}

/// The characters with the Unicode property `White_Space`.
pub open spec fn white_space(c: char) -> bool {
    ||| '\u{9}' <= c <= '\u{d}'
    ||| c == '\u{20}'
    ||| c == '\u{85}'
    ||| c == '\u{a0}'
    ||| c == '\u{1680}'
    ||| '\u{2000}' <= c <= '\u{200a}'
    ||| c == '\u{2028}'
    ||| c == '\u{2029}'
    ||| c == '\u{202f}'
    ||| c == '\u{205f}'
    ||| c == '\u{3000}'
}

/// `0` to `9`.
pub open spec fn ascii_digit(c: char) -> bool {
    '0' <= c <= '9'
}

/// `a` to `z` and `A` to `Z`.
pub open spec fn ascii_letter(c: char) -> bool {
    'a' <= c <= 'z' || 'A' <= c <= 'Z'
}

/// `c` with `A` to `Z` lowered, any other character as it is.
pub open spec fn lowered_char(c: char) -> char {
    if 'A' <= c <= 'Z' {
        ((c as u32) + 32) as char
    } else {
        c
    }
}

/// `s` with `A` to `Z` lowered.
pub open spec fn lowered(s: Seq<char>) -> Seq<char> {
    s.map_values(|c: char| lowered_char(c))
}

/// No item before the position found satisfies `stop`, and the item there does,
/// if there is one.
pub proof fn lemma_first_where_bounds<T>(s: Seq<T>, from: int, stop: spec_fn(T) -> bool)
    requires
        0 <= from <= s.len(),
    ensures
        from <= first_where(s, from, stop) <= s.len(),
        first_where(s, from, stop) < s.len() ==> stop(s[first_where(s, from, stop)]),
        forall|k: int| from <= k < first_where(s, from, stop) ==> !stop(#[trigger] s[k]),
    decreases s.len() - from,
{
    if from < s.len() && !stop(s[from]) {
        lemma_first_where_bounds(s, from + 1, stop);
    }
}

/// What `find` gives is the first occurrence, and it gives one wherever there
/// is one.
pub proof fn lemma_find_is_first<T>(s: Seq<T>, pat: Seq<T>, from: int)
    requires
        0 <= from,
    ensures
        match find(s, pat, from) {
            Some(k) => {
                &&& from <= k
                &&& matches_at(s, pat, k)
                &&& forall|i: int| from <= i < k ==> !matches_at(s, pat, i)
            },
            None => forall|i: int| from <= i ==> !matches_at(s, pat, i),
        },
    decreases s.len() + 1 - from,
{
    if from <= s.len() && !matches_at(s, pat, from) {
        lemma_find_is_first(s, pat, from + 1);
    }
}

/// The stretches are not empty, and their characters satisfy `keep`.
pub proof fn lemma_runs_are_kept(s: Seq<char>, keep: spec_fn(char) -> bool, i: int)
    requires
        0 <= i <= s.len(),
    ensures
        forall|k: int|
            0 <= k < runs_from(s, keep, i).len() ==> {
                let run = #[trigger] runs_from(s, keep, i)[k];
                run.len() > 0 && all_keep(run, keep)
            },
    decreases s.len() - i,
{
    if i < s.len() {
        if keep(s[i]) {
            let end = run_end(s, keep, i + 1);
            lemma_first_where_bounds(s, i + 1, negated(keep));
            lemma_runs_are_kept(s, keep, end);
            let run = s.subrange(i, end);
            assert forall|j: int| 0 <= j < run.len() implies keep(#[trigger] run[j]) by {
                assert(run[j] == s[i + j]);
                if j > 0 {
                    assert(!negated(keep)(s[i + j]));
                }
            }
            let rest = runs_from(s, keep, end);
            assert(runs_from(s, keep, i) == seq![run] + rest);
            assert forall|k: int| 0 <= k < runs_from(s, keep, i).len() implies {
                let r = #[trigger] runs_from(s, keep, i)[k];
                r.len() > 0 && all_keep(r, keep)
            } by {
                if k > 0 {
                    assert(runs_from(s, keep, i)[k] == rest[k - 1]);
                }
            }
        } else {
            lemma_runs_are_kept(s, keep, i + 1);
            assert(runs_from(s, keep, i) == runs_from(s, keep, i + 1));
        }
    } else {
        assert(runs_from(s, keep, i).len() == 0);
    }
}

/// What is left of `s` between the ends that are cut.
pub proof fn lemma_trimmed(s: Seq<char>, cut: spec_fn(char) -> bool)
    ensures
        trimmed(s, cut).len() > 0 ==> !cut(trimmed(s, cut)[0]) && !cut(trimmed(s, cut).last()),
        exists|i: int, j: int|
            0 <= i <= j <= s.len() && trimmed(s, cut) == #[trigger] s.subrange(i, j),
{
    let front = trimmed_front(s, cut);
    lemma_trimmed_front(s, cut);
    lemma_trimmed_back(front, cut);
    let i = choose|i: int| 0 <= i <= s.len() && front == #[trigger] s.skip(i);
    let j = choose|j: int| 0 <= j <= front.len() && trimmed(s, cut) == #[trigger] front.take(j);
    assert(trimmed(s, cut) =~= s.subrange(i, i + j));
}

proof fn lemma_trimmed_front(s: Seq<char>, cut: spec_fn(char) -> bool)
    ensures
        trimmed_front(s, cut).len() > 0 ==> !cut(trimmed_front(s, cut)[0]),
        exists|i: int| 0 <= i <= s.len() && trimmed_front(s, cut) == #[trigger] s.skip(i),
    decreases s.len(),
{
    if s.len() > 0 && cut(s[0]) {
        let rest = s.skip(1);
        lemma_trimmed_front(rest, cut);
        let i = choose|i: int|
            0 <= i <= rest.len() && trimmed_front(rest, cut) == #[trigger] rest.skip(i);
        assert(rest.skip(i) =~= s.skip(i + 1));
    } else {
        assert(s.skip(0) =~= s);
    }
}

proof fn lemma_trimmed_back(s: Seq<char>, cut: spec_fn(char) -> bool)
    ensures
        trimmed_back(s, cut).len() > 0 ==> !cut(trimmed_back(s, cut).last()),
        exists|j: int| 0 <= j <= s.len() && trimmed_back(s, cut) == #[trigger] s.take(j),
    decreases s.len(),
{
    if s.len() > 0 && cut(s.last()) {
        let rest = s.drop_last();
        lemma_trimmed_back(rest, cut);
        let j = choose|j: int|
            0 <= j <= rest.len() && trimmed_back(rest, cut) == #[trigger] rest.take(j);
        assert(rest.take(j) =~= s.take(j));
    } else {
        assert(s.take(s.len() as int) =~= s);
    }
}

/// Joining a first part and others joins the first one and the others joined.
pub proof fn lemma_joined_cons(first: Seq<char>, rest: Seq<Seq<char>>, sep: Seq<char>)
    requires
        rest.len() > 0,
    ensures
        joined(seq![first] + rest, sep) == first + sep + joined(rest, sep),
    decreases rest.len(),
{
    let all = seq![first] + rest;
    assert(all.last() == rest.last());
    if rest.len() == 1 {
        assert(all.drop_last() =~= seq![first]);
        assert(joined(all.drop_last(), sep) == first);
        assert(joined(all, sep) == first + sep + rest[0]);
    } else {
        assert(all.drop_last() =~= seq![first] + rest.drop_last());
        lemma_joined_cons(first, rest.drop_last(), sep);
        assert(joined(all, sep) =~= first + sep + joined(rest, sep));
    }
}

/// The characters of `s`.
pub fn chars_of(s: &str) -> (chars: Vec<char>)
    ensures
        chars@ == s@,
{
    let mut chars: Vec<char> = Vec::new();
    for c in it: s.chars()
        invariant
            it.seq() == s@,
            chars@ == s@.take(it.index() as int),
    {
        chars.push(c);
    }
    proof {
        assert(s@.take(s@.len() as int) == s@);
    }
    chars
}

/// The string made of `chars`.
pub fn string_of(chars: &[char]) -> (s: String)
    ensures
        s@ == chars@,
{
    let mut s = String::new();
    let mut i: usize = 0;
    while i < chars.len()
        invariant
            i <= chars@.len(),
            s@ == chars@.take(i as int),
        decreases chars@.len() - i,
    {
        s.push(chars[i]);
        i += 1;
    }
    proof {
        assert(chars@.take(chars@.len() as int) == chars@);
    }
    s
}

/// Appends `more` to `chars`.
pub(crate) fn append_chars(chars: &mut Vec<char>, more: &[char])
    ensures
        final(chars)@ == old(chars)@ + more@,
{
    let mut i: usize = 0;
    while i < more.len()
        invariant
            i <= more@.len(),
            chars@ == old(chars)@ + more@.take(i as int),
        decreases more@.len() - i,
    {
        chars.push(more[i]);
        i += 1;
    }
    proof {
        assert(more@.take(more@.len() as int) == more@);
    }
}

/// Whether `pat` stands in `s` at `i`.
pub(crate) fn chars_match_at(s: &[char], pat: &[char], i: usize) -> (yes: bool)
    requires
        i <= s@.len(),
    ensures
        yes == matches_at(s@, pat@, i as int),
{
    if s.len() - i < pat.len() {
        return false;
    }
    let mut k: usize = 0;
    while k < pat.len()
        invariant
            i + pat@.len() <= s.len(),
            k <= pat@.len(),
            forall|j: int| 0 <= j < k ==> s@[i + j] == pat@[j],
        decreases pat@.len() - k,
    {
        if s[i + k] != pat[k] {
            proof {
                assert(s@.subrange(i as int, i + pat@.len())[k as int] == s@[i + k]);
            }
            return false;
        }
        k += 1;
    }
    proof {
        assert(s@.subrange(i as int, i + pat@.len()) =~= pat@);
    }
    true
}

/// The first position, from `from` on, at which `pat` stands in `s`.
pub(crate) fn find_chars(s: &[char], pat: &[char], from: usize) -> (found: Option<usize>)
    requires
        from <= s@.len(),
    ensures
        match found {
            Some(k) => find(s@, pat@, from as int) == Some(k as int),
            None => find(s@, pat@, from as int) is None,
        },
{
    let mut i: usize = from;
    loop
        invariant
            from <= i <= s@.len(),
            find(s@, pat@, from as int) == find(s@, pat@, i as int),
        decreases s@.len() - i,
    {
        if chars_match_at(s, pat, i) {
            return Some(i);
        }
        if i == s.len() {
            proof {
                reveal_with_fuel(find, 2);
            }
            return None;
        }
        i += 1;
    }
}

/// Whether `pat` stands in `s` at `i`, on bytes.
pub(crate) fn bytes_match_at(s: &[u8], pat: &[u8], i: usize) -> (yes: bool)
    requires
        i <= s@.len(),
    ensures
        yes == matches_at(s@, pat@, i as int),
{
    if s.len() - i < pat.len() {
        return false;
    }
    let mut k: usize = 0;
    while k < pat.len()
        invariant
            i + pat@.len() <= s.len(),
            k <= pat@.len(),
            forall|j: int| 0 <= j < k ==> s@[i + j] == pat@[j],
        decreases pat@.len() - k,
    {
        if s[i + k] != pat[k] {
            proof {
                assert(s@.subrange(i as int, i + pat@.len())[k as int] == s@[i + k]);
            }
            return false;
        }
        k += 1;
    }
    proof {
        assert(s@.subrange(i as int, i + pat@.len()) =~= pat@);
    }
    true
}

/// The first position, from `from` on, at which `pat` stands in `s`, on bytes.
pub(crate) fn find_bytes(s: &[u8], pat: &[u8], from: usize) -> (found: Option<usize>)
    requires
        from <= s@.len(),
    ensures
        match found {
            Some(k) => find(s@, pat@, from as int) == Some(k as int),
            None => find(s@, pat@, from as int) is None,
        },
{
    let mut i: usize = from;
    loop
        invariant
            from <= i <= s@.len(),
            find(s@, pat@, from as int) == find(s@, pat@, i as int),
        decreases s@.len() - i,
    {
        if bytes_match_at(s, pat, i) {
            return Some(i);
        }
        if i == s.len() {
            proof {
                reveal_with_fuel(find, 2);
            }
            return None;
        }
        i += 1;
    }
}

/// Whether `pat` stands somewhere in `s`.
pub(crate) fn chars_contain(s: &[char], pat: &[char]) -> (yes: bool)
    ensures
        yes == contains_text(s@, pat@),
{
    proof {
        lemma_find_is_first(s@, pat@, 0);
    }
    match find_chars(s, pat, 0) {
        Some(_) => true,
        None => false,
    }
}

/// The first position, from `from` on, whose character `stop` accepts; the
/// length of `s` where there is none. `p` is what `stop` decides.
pub(crate) fn position_from<F: Fn(char) -> bool>(
    s: &[char],
    from: usize,
    stop: F,
    Ghost(p): Ghost<spec_fn(char) -> bool>,
) -> (k: usize)
    requires
        from <= s@.len(),
        forall|c: char| call_requires(stop, (c,)),
        forall|c: char, r: bool| call_ensures(stop, (c,), r) ==> r == p(c),
    ensures
        k == first_where(s@, from as int, p),
        from <= k <= s@.len(),
{
    let mut i: usize = from;
    while i < s.len()
        invariant
            from <= i <= s@.len(),
            first_where(s@, from as int, p) == first_where(s@, i as int, p),
            forall|c: char| call_requires(stop, (c,)),
            forall|c: char, r: bool| call_ensures(stop, (c,), r) ==> r == p(c),
        decreases s@.len() - i,
    {
        if stop(s[i]) {
            return i;
        }
        i += 1;
    }
    i
}

/// `s` with every occurrence of `pat` replaced by `with`.
pub(crate) fn replace_chars(s: &[char], pat: &[char], with: &[char]) -> (out: Vec<char>)
    requires
        pat@.len() > 0,
    ensures
        out@ == replaced(s@, pat@, with@),
{
    let mut out: Vec<char> = Vec::new();
    let mut i: usize = 0;
    while i < s.len()
        invariant
            i <= s@.len(),
            pat@.len() > 0,
            replaced(s@, pat@, with@) == out@ + replaced_from(s@, pat@, with@, i as int),
        decreases s@.len() - i,
    {
        if chars_match_at(s, pat, i) {
            append_chars(&mut out, with);
            i += pat.len();
        } else {
            out.push(s[i]);
            i += 1;
        }
    }
    out
}

/// `s` without the leading and trailing characters that `cut` accepts. `p` is
/// what `cut` decides.
pub(crate) fn trim_chars<'a, F: Fn(char) -> bool>(
    s: &'a [char],
    cut: F,
    Ghost(p): Ghost<spec_fn(char) -> bool>,
) -> (out: &'a [char])
    requires
        forall|c: char| call_requires(cut, (c,)),
        forall|c: char, r: bool| call_ensures(cut, (c,), r) ==> r == p(c),
    ensures
        out@ == trimmed(s@, p),
{
    let mut start: usize = 0;
    proof {
        assert(s@.skip(0) == s@);
    }
    while start < s.len() && cut(s[start])
        invariant
            start <= s@.len(),
            trimmed_front(s@, p) == trimmed_front(s@.skip(start as int), p),
            forall|c: char| call_requires(cut, (c,)),
            forall|c: char, r: bool| call_ensures(cut, (c,), r) ==> r == p(c),
        ensures
            start <= s@.len(),
            trimmed_front(s@, p) == trimmed_front(s@.skip(start as int), p),
            start < s@.len() ==> !p(s@[start as int]),
        decreases s@.len() - start,
    {
        proof {
            assert(s@.skip(start as int).skip(1) == s@.skip(start + 1));
        }
        start += 1;
    }
    let ghost front = s@.skip(start as int);
    let mut end: usize = s.len();
    proof {
        assert(front == trimmed_front(s@, p));
        assert(s@.subrange(start as int, end as int) == front);
    }
    while start < end && cut(s[end - 1])
        invariant
            start <= end <= s@.len(),
            trimmed_back(front, p) == trimmed_back(s@.subrange(start as int, end as int), p),
            forall|c: char| call_requires(cut, (c,)),
            forall|c: char, r: bool| call_ensures(cut, (c,), r) ==> r == p(c),
        ensures
            start <= end <= s@.len(),
            trimmed_back(front, p) == trimmed_back(s@.subrange(start as int, end as int), p),
            start < end ==> !p(s@[end - 1]),
        decreases end - start,
    {
        proof {
            assert(s@.subrange(start as int, end as int).drop_last() == s@.subrange(
                start as int,
                end - 1,
            ));
        }
        end -= 1;
    }
    slice_subrange(s, start, end)
}

/// Whether `s` starts with `pat`.
pub(crate) fn chars_start_with(s: &[char], pat: &[char]) -> (yes: bool)
    ensures
        yes == pat@.is_prefix_of(s@),
{
    let yes = chars_match_at(s, pat, 0);
    proof {
        assert(pat@.len() <= s@.len() ==> s@.subrange(0, pat@.len() as int) =~= s@.take(
            pat@.len() as int,
        ));
        if yes {
            assert(pat@.is_prefix_of(s@));
        } else if pat@.is_prefix_of(s@) {
            assert(s@.subrange(0, pat@.len() as int) =~= pat@);
        }
    }
    yes
}

/// Whether `c` has the Unicode property `White_Space`.
pub fn is_white_space(c: char) -> (yes: bool)
    ensures
        yes == white_space(c),
{
    ('\u{9}' <= c && c <= '\u{d}') || c == '\u{20}' || c == '\u{85}' || c == '\u{a0}' || c
        == '\u{1680}' || ('\u{2000}' <= c && c <= '\u{200a}') || c == '\u{2028}' || c == '\u{2029}'
        || c == '\u{202f}' || c == '\u{205f}' || c == '\u{3000}'
}

pub(crate) fn is_ascii_digit(c: char) -> (yes: bool)
    ensures
        yes == ascii_digit(c),
{
    '0' <= c && c <= '9'
}

pub(crate) fn is_ascii_letter(c: char) -> (yes: bool)
    ensures
        yes == ascii_letter(c),
{
    ('a' <= c && c <= 'z') || ('A' <= c && c <= 'Z')
}

/// `s` with `A` to `Z` lowered.
pub(crate) fn lower(s: &str) -> (out: String)
    ensures
        out@ == lowered(s@),
{
    let mut out = String::new();
    for c in it: s.chars()
        invariant
            it.seq() == s@,
            out@ == lowered(s@.take(it.index() as int)),
    {
        let ghost before = s@.take(it.index() as int);
        proof {
            assert(s@.take(it.index() + 1) == before.push(c));
            assert(lowered(before.push(c)) == lowered(before).push(lowered_char(c)));
        }
        if 'A' <= c && c <= 'Z' {
            let code: u8 = c as u8;
            out.push((code + 32) as char);
        } else {
            out.push(c);
        }
    }
    proof {
        assert(s@.take(s@.len() as int) == s@);
    }
    out
}

} // verus!
