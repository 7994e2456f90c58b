//! Laws of searching, replacing, trimming and splitting texts.
use crate::text;
use vstd::prelude::*;

verus! {

/// `pat` stands in `s` at `i` exactly if its items stand there one by one.
pub proof fn law_match_is_item_by_item<T>(s: Seq<T>, pat: Seq<T>, i: int)
    ensures
        text::matches_at(s, pat, i) <==> {
            &&& 0 <= i <= s.len() - pat.len()
            &&& forall|k: int| 0 <= k < pat.len() ==> s[i + k] == #[trigger] pat[k]
        },
{
    if 0 <= i <= s.len() - pat.len() {
        let part = s.subrange(i, i + pat.len());
        if text::matches_at(s, pat, i) {
            assert forall|k: int| 0 <= k < pat.len() implies s[i + k] == #[trigger] pat[k] by {
                assert(part[k] == s[i + k]);
            }
        }
        if forall|k: int| 0 <= k < pat.len() ==> s[i + k] == #[trigger] pat[k] {
            assert(part =~= pat);
        }
    }
}

/// `pat` stands in `s` exactly if `s` is `pat` with something before and
/// something after it.
pub proof fn law_contained_text_has_a_place<T>(s: Seq<T>, pat: Seq<T>)
    ensures
        text::contains_text(s, pat) <==> exists|a: Seq<T>, b: Seq<T>|
            s == #[trigger] (a + pat + b),
{
    if text::contains_text(s, pat) {
        let i = choose|i: int| text::matches_at(s, pat, i);
        law_match_is_item_by_item(s, pat, i);
        let a = s.take(i);
        let b = s.skip(i + pat.len());
        assert(s =~= a + pat + b);
    }
    if exists|a: Seq<T>, b: Seq<T>| s == #[trigger] (a + pat + b) {
        let (a, b) = choose|a: Seq<T>, b: Seq<T>| s == #[trigger] (a + pat + b);
        law_match_is_item_by_item(s, pat, a.len() as int);
        assert(text::matches_at(s, pat, a.len() as int));
    }
}

/// What is found is the first occurrence: `pat` follows what is before it, and
/// starts nowhere earlier.
pub proof fn law_first_occurrence_is_found<T>(a: Seq<T>, pat: Seq<T>, b: Seq<T>)
    requires
        forall|i: int| 0 <= i < a.len() ==> !pat.is_prefix_of(#[trigger] (a + pat + b).skip(i)),
    ensures
        text::find(a + pat + b, pat, 0) == Some(a.len() as int),
{
    let s = a + pat + b;
    text::lemma_find_is_first(s, pat, 0);
    law_match_is_item_by_item(s, pat, a.len() as int);
    assert(text::matches_at(s, pat, a.len() as int));
    let k = text::find(s, pat, 0)->0;
    if k < a.len() {
        lemma_prefix_is_match(s, pat, k);
    }
}

/// Nothing is found where nothing stands.
pub proof fn law_nothing_is_found_where_nothing_is<T>(s: Seq<T>, pat: Seq<T>)
    requires
        !exists|a: Seq<T>, b: Seq<T>| s == #[trigger] (a + pat + b),
    ensures
        text::find(s, pat, 0) is None,
{
    law_contained_text_has_a_place(s, pat);
    text::lemma_find_is_first(s, pat, 0);
}

/// `pat` stands at `i` exactly if what starts there starts with it.
pub proof fn lemma_prefix_is_match<T>(s: Seq<T>, pat: Seq<T>, i: int)
    requires
        0 <= i <= s.len(),
    ensures
        text::matches_at(s, pat, i) <==> pat.is_prefix_of(s.skip(i)),
{
    if i + pat.len() <= s.len() {
        assert(s.skip(i).subrange(0, pat.len() as int) =~= s.subrange(i, i + pat.len()));
    }
}

/// Whether `pat` stands at a place does not depend on what comes before it.
pub proof fn lemma_match_shift<T>(s: Seq<T>, pat: Seq<T>, i: int, j: int)
    requires
        0 <= i <= s.len(),
        0 <= j,
    ensures
        text::matches_at(s, pat, i + j) == text::matches_at(s.skip(i), pat, j),
{
    if i + j + pat.len() <= s.len() {
        assert(s.skip(i).subrange(j, j + pat.len()) =~= s.subrange(i + j, i + j + pat.len()));
    }
}

pub proof fn lemma_find_shift<T>(s: Seq<T>, pat: Seq<T>, i: int, j: int)
    requires
        0 <= i <= s.len(),
        0 <= j,
    ensures
        text::find(s, pat, i + j) == match text::find(s.skip(i), pat, j) {
            Some(k) => Some(i + k),
            None => None,
        },
    decreases s.len() + 1 - i - j,
{
    if i + j <= s.len() {
        lemma_match_shift(s, pat, i, j);
        if !text::matches_at(s, pat, i + j) {
            lemma_find_shift(s, pat, i, j + 1);
        }
    }
}

pub proof fn lemma_first_where_shift<T>(s: Seq<T>, stop: spec_fn(T) -> bool, i: int, j: int)
    requires
        0 <= i <= s.len(),
        0 <= j,
    ensures
        text::first_where(s, i + j, stop) == i + text::first_where(s.skip(i), j, stop),
    decreases s.len() - i - j,
{
    if i + j < s.len() {
        assert(s.skip(i)[j] == s[i + j]);
        if !stop(s[i + j]) {
            lemma_first_where_shift(s, stop, i, j + 1);
        }
    }
}

/// An item before which all others do not stop is the first that stops.
pub proof fn lemma_first_where_is<T>(s: Seq<T>, from: int, stop: spec_fn(T) -> bool, k: int)
    requires
        0 <= from <= k <= s.len(),
        forall|i: int| from <= i < k ==> !stop(#[trigger] s[i]),
        k < s.len() ==> stop(s[k]),
    ensures
        text::first_where(s, from, stop) == k,
{
    text::lemma_first_where_bounds(s, from, stop);
    let found = text::first_where(s, from, stop);
    if found < k {
        assert(!stop(s[found]));
    } else if k < found {
        assert(stop(s[k]));
    }
}

proof fn lemma_replaced_shift(s: Seq<char>, pat: Seq<char>, with: Seq<char>, i: int, j: int)
    requires
        0 <= i <= s.len(),
        0 <= j,
    ensures
        text::replaced_from(s, pat, with, i + j) == text::replaced_from(s.skip(i), pat, with, j),
    decreases s.len() - i - j,
{
    if i + j < s.len() {
        lemma_match_shift(s, pat, i, j);
        assert(s.skip(i)[j] == s[i + j]);
        if pat.len() > 0 && text::matches_at(s, pat, i + j) {
            lemma_replaced_shift(s, pat, with, i, j + pat.len());
        } else {
            lemma_replaced_shift(s, pat, with, i, j + 1);
        }
    }
}

proof fn lemma_replaced_keeps_front(
    s: Seq<char>,
    pat: Seq<char>,
    with: Seq<char>,
    i: int,
    n: int,
)
    requires
        0 <= i <= n <= s.len(),
        forall|k: int| i <= k < n ==> !text::matches_at(s, pat, k),
    ensures
        text::replaced_from(s, pat, with, i) == s.subrange(i, n) + text::replaced_from(
            s,
            pat,
            with,
            n,
        ),
    decreases n - i,
{
    if i < n {
        lemma_replaced_keeps_front(s, pat, with, i + 1, n);
        assert(seq![s[i]] + s.subrange(i + 1, n) =~= s.subrange(i, n));
        assert(text::replaced_from(s, pat, with, i) =~= s.subrange(i, n) + text::replaced_from(
            s,
            pat,
            with,
            n,
        ));
    } else {
        assert(s.subrange(i, n) =~= Seq::empty());
        assert(text::replaced_from(s, pat, with, i) =~= Seq::<char>::empty() + text::replaced_from(
            s,
            pat,
            with,
            n,
        ));
    }
}

/// Replacing takes the first occurrence, and goes on behind it.
pub proof fn law_replacing_goes_on_behind_the_first(
    a: Seq<char>,
    pat: Seq<char>,
    b: Seq<char>,
    with: Seq<char>,
)
    requires
        pat.len() > 0,
        forall|i: int| 0 <= i < a.len() ==> !pat.is_prefix_of(#[trigger] (a + pat + b).skip(i)),
    ensures
        text::replaced(a + pat + b, pat, with) == a + with + text::replaced(b, pat, with),
{
    let s = a + pat + b;
    let n = a.len() as int;
    assert forall|k: int| 0 <= k < n implies !text::matches_at(s, pat, k) by {
        lemma_prefix_is_match(s, pat, k);
        assert(!pat.is_prefix_of(s.skip(k)));
    }
    lemma_replaced_keeps_front(s, pat, with, 0, n);
    law_match_is_item_by_item(s, pat, n);
    assert(text::matches_at(s, pat, n));
    let next = n + pat.len();
    lemma_replaced_shift(s, pat, with, next, 0);
    assert(s.skip(next) =~= b);
    assert(s.subrange(0, n) =~= a);
    assert(text::replaced(s, pat, with) =~= a + with + text::replaced(b, pat, with));
}

/// Where there is nothing to replace, the text stays.
pub proof fn law_nothing_to_replace_stays(s: Seq<char>, pat: Seq<char>, with: Seq<char>)
    requires
        !exists|a: Seq<char>, b: Seq<char>| s == #[trigger] (a + pat + b),
    ensures
        text::replaced(s, pat, with) == s,
{
    law_contained_text_has_a_place(s, pat);
    let n = s.len() as int;
    lemma_replaced_keeps_front(s, pat, with, 0, n);
    assert(s.subrange(0, n) =~= s);
    assert(text::replaced(s, pat, with) =~= s);
}

/// A front in which nothing starts that is replaced stays.
pub proof fn lemma_replaced_splits(a: Seq<char>, b: Seq<char>, pat: Seq<char>, with: Seq<char>)
    requires
        forall|k: int| 0 <= k < a.len() ==> !text::matches_at(a + b, pat, k),
    ensures
        text::replaced(a + b, pat, with) == a + text::replaced(b, pat, with),
{
    let n = a.len() as int;
    lemma_replaced_keeps_front(a + b, pat, with, 0, n);
    lemma_replaced_shift(a + b, pat, with, n, 0);
    assert((a + b).skip(n) =~= b);
    assert((a + b).subrange(0, n) =~= a);
}

/// What is replaced at the front is replaced, and what follows by itself.
pub proof fn lemma_replaced_at_front(pat: Seq<char>, b: Seq<char>, with: Seq<char>)
    requires
        pat.len() > 0,
    ensures
        text::replaced(pat + b, pat, with) == with + text::replaced(b, pat, with),
{
    let none = Seq::<char>::empty();
    assert(none + pat + b =~= pat + b);
    law_replacing_goes_on_behind_the_first(none, pat, b, with);
    assert(none + with + text::replaced(b, pat, with) =~= with + text::replaced(b, pat, with));
}

/// Trimming takes away what is cut at both ends, and nothing else: between
/// ends of cut characters, what neither starts nor ends with one is left.
pub proof fn law_trimming_cuts_both_ends(
    front: Seq<char>,
    s: Seq<char>,
    back: Seq<char>,
    cut: spec_fn(char) -> bool,
)
    requires
        forall|k: int| 0 <= k < front.len() ==> cut(#[trigger] front[k]),
        forall|k: int| 0 <= k < back.len() ==> cut(#[trigger] back[k]),
        s.len() > 0 ==> !cut(s[0]) && !cut(s.last()),
    ensures
        text::trimmed(front + s + back, cut) == s,
{
    lemma_trimmed_front_of(front, s + back, cut);
    assert(front + (s + back) =~= front + s + back);
    if s.len() > 0 {
        assert((s + back)[0] == s[0]);
        assert(text::trimmed_front(s + back, cut) == s + back);
        lemma_trimmed_back_of(s, back, cut);
    } else {
        assert(s + back =~= back);
        let none = Seq::<char>::empty();
        assert(back + none =~= back);
        lemma_trimmed_front_of(back, none, cut);
        assert(text::trimmed_front(none, cut) == none);
        assert(s =~= none);
    }
}

proof fn lemma_trimmed_front_of(front: Seq<char>, s: Seq<char>, cut: spec_fn(char) -> bool)
    requires
        forall|k: int| 0 <= k < front.len() ==> cut(#[trigger] front[k]),
    ensures
        text::trimmed_front(front + s, cut) == text::trimmed_front(s, cut),
    decreases front.len(),
{
    if front.len() > 0 {
        let rest = front.skip(1);
        assert((front + s)[0] == front[0]);
        assert((front + s).skip(1) =~= rest + s);
        assert forall|k: int| 0 <= k < rest.len() implies cut(#[trigger] rest[k]) by {
            assert(rest[k] == front[k + 1]);
        }
        lemma_trimmed_front_of(rest, s, cut);
    } else {
        assert(front + s =~= s);
    }
}

proof fn lemma_trimmed_back_of(s: Seq<char>, back: Seq<char>, cut: spec_fn(char) -> bool)
    requires
        forall|k: int| 0 <= k < back.len() ==> cut(#[trigger] back[k]),
        s.len() > 0,
        !cut(s.last()),
    ensures
        text::trimmed_back(s + back, cut) == s,
    decreases back.len(),
{
    if back.len() > 0 {
        let rest = back.drop_last();
        assert((s + back).last() == back.last());
        assert(back.last() == back[back.len() - 1]);
        assert((s + back).drop_last() =~= s + rest);
        assert forall|k: int| 0 <= k < rest.len() implies cut(#[trigger] rest[k]) by {
            assert(rest[k] == back[k]);
        }
        lemma_trimmed_back_of(s, rest, cut);
    } else {
        assert(s + back =~= s);
    }
}

/// A text has no stretches if it is empty, and is its only one if all its
/// characters are kept.
pub proof fn law_kept_text_is_one_run(s: Seq<char>, keep: spec_fn(char) -> bool)
    requires
        forall|k: int| 0 <= k < s.len() ==> keep(#[trigger] s[k]),
    ensures
        text::runs(s, keep) == if s.len() == 0 {
            Seq::<Seq<char>>::empty()
        } else {
            seq![s]
        },
{
    if s.len() > 0 {
        let n = s.len() as int;
        lemma_first_where_is(s, 1, text::negated(keep), n);
        assert(s.subrange(0, n) =~= s);
        assert(text::runs_from(s, keep, n) =~= Seq::empty());
        assert(text::runs(s, keep) =~= seq![s]);
    }
}

/// A character that is not kept parts the stretches before it from those after
/// it.
pub proof fn law_runs_are_parted(
    a: Seq<char>,
    c: char,
    b: Seq<char>,
    keep: spec_fn(char) -> bool,
)
    requires
        !keep(c),
    ensures
        text::runs(a + seq![c] + b, keep) == text::runs(a, keep) + text::runs(b, keep),
{
    let s = a + seq![c] + b;
    let n = a.len() as int;
    lemma_runs_up_to(a, s, keep, 0);
    assert(s[n] == c);
    assert(text::runs_from(s, keep, n) == text::runs_from(s, keep, n + 1));
    lemma_runs_shift(s, keep, n + 1, 0);
    assert(s.skip(n + 1) =~= b);
}

proof fn lemma_runs_up_to(a: Seq<char>, s: Seq<char>, keep: spec_fn(char) -> bool, i: int)
    requires
        a.is_prefix_of(s),
        a.len() < s.len(),
        !keep(s[a.len() as int]),
        0 <= i <= a.len(),
    ensures
        text::runs_from(s, keep, i) == text::runs_from(a, keep, i) + text::runs_from(
            s,
            keep,
            a.len() as int,
        ),
    decreases a.len() - i,
{
    let n = a.len() as int;
    let rest = text::runs_from(s, keep, n);
    if i == n {
        assert(Seq::<Seq<char>>::empty() + rest =~= rest);
    } else {
        assert(a[i] == s.subrange(0, n)[i]);
        assert(a[i] == s[i]);
        if keep(s[i]) {
            let stop = text::negated(keep);
            let end = text::first_where(a, i + 1, stop);
            text::lemma_first_where_bounds(a, i + 1, stop);
            assert forall|k: int| i + 1 <= k < end implies !stop(#[trigger] s[k]) by {
                assert(s.subrange(0, n)[k] == s[k]);
                assert(!stop(a[k]));
            }
            if end < n {
                assert(s.subrange(0, n)[end] == s[end]);
            }
            lemma_first_where_is(s, i + 1, stop, end);
            lemma_runs_up_to(a, s, keep, end);
            assert(s.subrange(i, end) =~= a.subrange(i, end)) by {
                assert forall|k: int| i <= k < end implies s[k] == #[trigger] a[k] by {
                    assert(s.subrange(0, n)[k] == s[k]);
                }
            }
            let run = a.subrange(i, end);
            let more = text::runs_from(a, keep, end);
            assert(seq![run] + (more + rest) =~= (seq![run] + more) + rest);
        } else {
            lemma_runs_up_to(a, s, keep, i + 1);
        }
    }
}

proof fn lemma_runs_shift(s: Seq<char>, keep: spec_fn(char) -> bool, i: int, j: int)
    requires
        0 <= i <= s.len(),
        0 <= j,
    ensures
        text::runs_from(s, keep, i + j) == text::runs_from(s.skip(i), keep, j),
    decreases s.len() - i - j,
{
    if i + j < s.len() {
        assert(s.skip(i)[j] == s[i + j]);
        if keep(s[i + j]) {
            let stop = text::negated(keep);
            lemma_first_where_shift(s, stop, i, j + 1);
            text::lemma_first_where_bounds(s.skip(i), j + 1, stop);
            let end = text::first_where(s.skip(i), j + 1, stop);
            lemma_runs_shift(s, keep, i, end);
            assert(s.skip(i).subrange(j, end) =~= s.subrange(i + j, i + end));
        } else {
            lemma_runs_shift(s, keep, i, j + 1);
        }
    }
}

/// Joining nothing gives nothing, joining one part gives it, and joining two
/// groups of parts gives both with the separator between them.
pub proof fn law_joining_puts_one_separator_between(
    x: Seq<Seq<char>>,
    y: Seq<Seq<char>>,
    part: Seq<char>,
    sep: Seq<char>,
)
    requires
        x.len() > 0,
        y.len() > 0,
    ensures
        text::joined(Seq::empty(), sep) == Seq::<char>::empty(),
        text::joined(seq![part], sep) == part,
        text::joined(x + y, sep) == text::joined(x, sep) + sep + text::joined(y, sep),
    decreases y.len(),
{
    assert((x + y).last() == y.last());
    if y.len() == 1 {
        assert((x + y).drop_last() =~= x);
    } else {
        assert((x + y).drop_last() =~= x + y.drop_last());
        law_joining_puts_one_separator_between(x, y.drop_last(), part, sep);
        assert(text::joined(x + y, sep) =~= text::joined(x, sep) + sep + text::joined(y, sep));
    }
}

/// The characters that are white space, by their code points.
pub proof fn law_white_space_by_code_point(c: char)
    ensures
        text::white_space(c) <==> {
            let code = c as int;
            ||| seq![9int, 10, 11, 12, 13, 32, 0x85, 0xa0, 0x1680].contains(code)
            ||| 0 <= code - 0x2000 < 11
            ||| seq![0x2028int, 0x2029, 0x202f, 0x205f, 0x3000].contains(code)
        },
{
    let code = c as int;
    let narrow = seq![9int, 10, 11, 12, 13, 32, 0x85, 0xa0, 0x1680];
    let wide = seq![0x2028int, 0x2029, 0x202f, 0x205f, 0x3000];
    if text::white_space(c) && !(0 <= code - 0x2000 < 11) {
        assert(narrow[0] == 9 && narrow[1] == 10 && narrow[2] == 11 && narrow[3] == 12 && narrow[4]
            == 13 && narrow[5] == 32 && narrow[6] == 0x85 && narrow[7] == 0xa0 && narrow[8]
            == 0x1680);
        assert(wide[0] == 0x2028 && wide[1] == 0x2029 && wide[2] == 0x202f && wide[3] == 0x205f
            && wide[4] == 0x3000);
    }
}

/// Lowering keeps the length. It gives each letter from `A` to `Z` the letter
/// of the same place from `a` to `z`, and keeps all other characters.
pub proof fn law_lowering_keeps_the_place_in_the_alphabet(s: Seq<char>, k: int)
    requires
        0 <= k < s.len(),
    ensures
        text::lowered(s).len() == s.len(),
        ({
            let lower = "abcdefghijklmnopqrstuvwxyz"@;
            let upper = "ABCDEFGHIJKLMNOPQRSTUVWXYZ"@;
            &&& forall|n: int|
                0 <= n < 26 && s[k] == #[trigger] upper[n] ==> text::lowered(s)[k] == lower[n]
            &&& (!upper.contains(s[k]) ==> text::lowered(s)[k] == s[k])
        }),
{
    reveal_strlit("abcdefghijklmnopqrstuvwxyz");
    reveal_strlit("ABCDEFGHIJKLMNOPQRSTUVWXYZ");
    let upper = "ABCDEFGHIJKLMNOPQRSTUVWXYZ"@;
    if 'A' <= s[k] <= 'Z' {
        let n = s[k] as int - 'A' as int;
        assert(upper[n] == s[k]);
    }
}

/// Digits and letters of ASCII.
pub proof fn law_ascii_by_name(c: char)
    ensures
        text::ascii_digit(c) <==> "0123456789"@.contains(c),
        text::ascii_letter(c) <==> "abcdefghijklmnopqrstuvwxyz"@.contains(c)
            || "ABCDEFGHIJKLMNOPQRSTUVWXYZ"@.contains(c),
        text::ascii_letter(c) ==> !text::ascii_digit(c),
{
    reveal_strlit("0123456789");
    reveal_strlit("abcdefghijklmnopqrstuvwxyz");
    reveal_strlit("ABCDEFGHIJKLMNOPQRSTUVWXYZ");
    let digits = "0123456789"@;
    let lower = "abcdefghijklmnopqrstuvwxyz"@;
    let upper = "ABCDEFGHIJKLMNOPQRSTUVWXYZ"@;
    if '0' <= c <= '9' {
        assert(digits[c as int - '0' as int] == c);
    }
    if 'a' <= c <= 'z' {
        assert(lower[c as int - 'a' as int] == c);
    }
    if 'A' <= c <= 'Z' {
        assert(upper[c as int - 'A' as int] == c);
    }
}

} // verus!
