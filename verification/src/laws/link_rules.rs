//! Laws of the links in a text: where they start and end, what is left of them
//! once cleaned, in which order they come, and which one is chosen.
use crate::laws::texts;
use crate::links;
use crate::quoted;
use crate::text;
use links::LinkForm;
use vstd::prelude::*;

verus! {

/// White space, `<`, `>` and quotation marks end a link that is not quoted.
pub open spec fn ends_a_link(c: char) -> bool {
    text::white_space(c) || "<>'\""@.contains(c)
}

/// Single and double quotation marks.
pub open spec fn quotes(c: char) -> bool {
    "'\""@.contains(c)
}

/// An address of the web starts `s`.
pub open spec fn starts_with_address(s: Seq<char>) -> bool {
    ||| "http://"@.is_prefix_of(s)
    ||| "https://"@.is_prefix_of(s)
    ||| "www."@.is_prefix_of(s)
}

/// `s` without its first character, if it has one.
pub open spec fn behind_first(s: Seq<char>) -> Seq<char> {
    if s.len() > 0 {
        s.skip(1)
    } else {
        s
    }
}

proof fn lemma_link_characters(c: char)
    ensures
        links::link_end()(c) <==> ends_a_link(c),
        links::quotation_mark()(c) <==> quotes(c),
        quotes(c) ==> ends_a_link(c) && c <= '\u{7f}',
{
    reveal_strlit("<>'\"");
    reveal_strlit("'\"");
    let ends = "<>'\""@;
    let marks = "'\""@;
    assert(ends[0] == '<' && ends[1] == '>' && ends[2] == '\'' && ends[3] == '"');
    assert(marks[0] == '\'' && marks[1] == '"');
}

proof fn lemma_address_at(s: Seq<char>, i: int)
    requires
        0 <= i <= s.len(),
    ensures
        links::address_at(s, i) <==> starts_with_address(s.skip(i)),
{
    texts::lemma_prefix_is_match(s, "https://"@, i);
    texts::lemma_prefix_is_match(s, "http://"@, i);
    texts::lemma_prefix_is_match(s, "www."@, i);
}

proof fn lemma_find_address(s: Seq<char>, from: int)
    requires
        0 <= from <= s.len(),
    ensures
        match links::find_address(s, from) {
            Some(k) => {
                &&& from <= k <= s.len()
                &&& starts_with_address(s.skip(k))
                &&& forall|i: int|
                    from <= i < k ==> !starts_with_address(#[trigger] s.skip(i))
            },
            None => forall|i: int|
                from <= i <= s.len() ==> !starts_with_address(#[trigger] s.skip(i)),
        },
    decreases s.len() - from,
{
    lemma_address_at(s, from);
    if !links::address_at(s, from) {
        if from < s.len() {
            lemma_find_address(s, from + 1);
        } else {
            reveal_with_fuel(links::find_address, 2);
        }
    }
}

proof fn lemma_find_address_shift(s: Seq<char>, i: int, j: int)
    requires
        0 <= i <= s.len(),
        0 <= j,
    ensures
        links::find_address(s, i + j) == match links::find_address(s.skip(i), j) {
            Some(k) => Some(i + k),
            None => None,
        },
    decreases s.len() + 1 - i - j,
{
    if i + j <= s.len() {
        texts::lemma_match_shift(s, "https://"@, i, j);
        texts::lemma_match_shift(s, "http://"@, i, j);
        texts::lemma_match_shift(s, "www."@, i, j);
        if !links::address_at(s, i + j) {
            lemma_find_address_shift(s, i, j + 1);
        }
    }
}

proof fn lemma_next_link_shift(s: Seq<char>, form: LinkForm, i: int, j: int)
    requires
        0 <= i <= s.len(),
        0 <= j,
    ensures
        links::next_link(s, form, i + j) == match links::next_link(s.skip(i), form, j) {
            Some((start, end)) => Some((i + start, i + end)),
            None => None,
        },
{
    let t = s.skip(i);
    match form {
        LinkForm::Href => {
            texts::lemma_find_shift(s, "href="@, i, j);
            text::lemma_find_is_first(t, "href="@, j);
            if let Some(k) = text::find(t, "href="@, j) {
                let start = k + "href="@.len();
                if start < t.len() {
                    assert(t[start] == s[i + start]);
                    texts::lemma_first_where_shift(s, links::quotation_mark(), i, start + 1);
                    texts::lemma_first_where_shift(s, links::link_end(), i, start);
                }
            }
        },
        LinkForm::Bare => {
            lemma_find_address_shift(s, i, j);
            if let Some(k) = links::find_address(t, j) {
                lemma_found_is_behind(t, j);
                texts::lemma_first_where_shift(s, links::link_end(), i, k);
            }
        },
    }
}

proof fn lemma_found_is_behind(s: Seq<char>, from: int)
    requires
        0 <= from,
    ensures
        links::find_address(s, from) matches Some(k) ==> from <= k <= s.len(),
{
    if from <= s.len() {
        lemma_find_address(s, from);
    }
}

/// What is found behind a place does not depend on what is before it.
proof fn lemma_links_shift(s: Seq<char>, form: LinkForm, i: int, j: int)
    requires
        0 <= i <= s.len(),
        0 <= j,
    ensures
        links::links_from(s, form, i + j) == links::links_from(s.skip(i), form, j),
        links::ends_narrow_from(s, form, i + j) == links::ends_narrow_from(s.skip(i), form, j),
    decreases s.len() - i - j,
{
    let t = s.skip(i);
    if i + j < s.len() {
        lemma_next_link_shift(s, form, i, j);
        links::lemma_next_link_bounds(t, form, j);
        if let Some((start, end)) = links::next_link(t, form, j) {
            assert(t.subrange(start, end) =~= s.subrange(i + start, i + end));
            if end < t.len() {
                assert(t[end] == s[i + end]);
            }
            let next = links::after_link(t, end);
            assert(links::after_link(s, i + end) == i + next);
            lemma_links_shift(s, form, i, next);
        }
    }
}

/// The first link is taken, and the search goes on behind the character that
/// ends it.
proof fn lemma_first_link(s: Seq<char>, form: LinkForm, start: int, end: int)
    requires
        s.len() > 0,
        links::next_link(s, form, 0) == Some((start, end)),
        0 <= start <= end <= s.len(),
    ensures
        links::links_from(s, form, 0) == seq![s.subrange(start, end)] + links::links_from(
            behind_first(s.skip(end)),
            form,
            0,
        ),
        links::ends_narrow_from(s, form, 0) <==> {
            &&& end < s.len() ==> s[end] <= '\u{7f}'
            &&& links::ends_narrow_from(behind_first(s.skip(end)), form, 0)
        },
{
    let next = links::after_link(s, end);
    lemma_links_shift(s, form, next, 0);
    if end < s.len() {
        assert(s.skip(end).skip(1) =~= s.skip(next));
    } else {
        assert(s.skip(end) =~= s.skip(next));
    }
}

/// The first address in running text is a link. It goes up to the end of the
/// text or to the first white space, `<`, `>` or quotation mark. The others are
/// found behind that character.
pub proof fn law_bare_link_ends_before_markup(a: Seq<char>, link: Seq<char>, b: Seq<char>)
    requires
        forall|i: int|
            0 <= i < a.len() ==> !starts_with_address(#[trigger] (a + link + b).skip(i)),
        starts_with_address(link),
        forall|k: int| 0 <= k < link.len() ==> !ends_a_link(#[trigger] link[k]),
        b.len() > 0 ==> ends_a_link(b[0]),
    ensures
        links::links_from(a + link + b, LinkForm::Bare, 0) == seq![link] + links::links_from(
            behind_first(b),
            LinkForm::Bare,
            0,
        ),
        links::ends_narrow_from(a + link + b, LinkForm::Bare, 0) <==> {
            &&& b.len() > 0 ==> b[0] <= '\u{7f}'
            &&& links::ends_narrow_from(behind_first(b), LinkForm::Bare, 0)
        },
{
    let s = a + link + b;
    let n = a.len() as int;
    let end = n + link.len();
    lemma_find_address(s, 0);
    lemma_starts_longer(link, b);
    assert(s.skip(n) =~= link + b);
    assert(links::find_address(s, 0) == Some(n));
    assert forall|k: int| n <= k < end implies !links::link_end()(#[trigger] s[k]) by {
        assert(s[k] == link[k - n]);
        lemma_link_characters(s[k]);
    }
    if b.len() > 0 {
        assert(s[end] == b[0]);
        lemma_link_characters(b[0]);
    }
    texts::lemma_first_where_is(s, n, links::link_end(), end);
    lemma_address_is_not_empty(link);
    lemma_first_link(s, LinkForm::Bare, n, end);
    assert(s.subrange(n, end) =~= link);
    assert(s.skip(end) =~= b);
}

proof fn lemma_starts_longer(link: Seq<char>, b: Seq<char>)
    requires
        starts_with_address(link),
    ensures
        starts_with_address(link + b),
{
    let all = link + b;
    let n = "http://"@.len() as int;
    if "http://"@.is_prefix_of(link) {
        assert(all.subrange(0, n) =~= link.subrange(0, n));
    }
    let n = "https://"@.len() as int;
    if "https://"@.is_prefix_of(link) {
        assert(all.subrange(0, n) =~= link.subrange(0, n));
    }
    let n = "www."@.len() as int;
    if "www."@.is_prefix_of(link) {
        assert(all.subrange(0, n) =~= link.subrange(0, n));
    }
}

proof fn lemma_address_is_not_empty(link: Seq<char>)
    requires
        starts_with_address(link),
    ensures
        link.len() >= 4,
{
    reveal_strlit("http://");
    reveal_strlit("https://");
    reveal_strlit("www.");
}

/// Text without an address holds no link.
pub proof fn law_no_address_no_bare_link(s: Seq<char>)
    requires
        forall|i: int| 0 <= i <= s.len() ==> !starts_with_address(#[trigger] s.skip(i)),
    ensures
        links::links_from(s, LinkForm::Bare, 0) == Seq::<Seq<char>>::empty(),
        links::ends_narrow_from(s, LinkForm::Bare, 0),
{
    lemma_find_address(s, 0);
}

/// The value of the first attribute, if quoted, goes up to the next quotation
/// mark or to the end of the text. The others are found behind that mark.
pub proof fn law_quoted_attribute_ends_at_a_mark(
    a: Seq<char>,
    mark: char,
    link: Seq<char>,
    b: Seq<char>,
)
    requires
        forall|i: int|
            0 <= i < a.len() ==> !"href="@.is_prefix_of(
                #[trigger] (a + "href="@ + (seq![mark] + link + b)).skip(i),
            ),
        quotes(mark),
        forall|k: int| 0 <= k < link.len() ==> !quotes(#[trigger] link[k]),
        b.len() > 0 ==> quotes(b[0]),
    ensures
        ({
            let s = a + "href="@ + (seq![mark] + link + b);
            let rest = behind_first(b);
            &&& links::links_from(s, LinkForm::Href, 0) == seq![link] + links::links_from(
                rest,
                LinkForm::Href,
                0,
            )
            &&& links::ends_narrow_from(s, LinkForm::Href, 0) <==> links::ends_narrow_from(
                rest,
                LinkForm::Href,
                0,
            )
        }),
{
    let s = a + "href="@ + (seq![mark] + link + b);
    texts::law_first_occurrence_is_found(a, "href="@, seq![mark] + link + b);
    let start = (a.len() + "href="@.len()) as int;
    let end = start + 1 + link.len();
    assert(s[start] == mark);
    lemma_link_characters(mark);
    assert forall|k: int| start + 1 <= k < end implies !links::quotation_mark()(
        #[trigger] s[k],
    ) by {
        assert(s[k] == link[k - start - 1]);
        lemma_link_characters(s[k]);
    }
    if b.len() > 0 {
        assert(s[end] == b[0]);
        lemma_link_characters(b[0]);
    }
    texts::lemma_first_where_is(s, start + 1, links::quotation_mark(), end);
    lemma_first_link(s, LinkForm::Href, start + 1, end);
    assert(s.subrange(start + 1, end) =~= link);
    assert(s.skip(end) =~= b);
}

/// The value of the first attribute, if not quoted, goes up to the first white
/// space, `<`, `>` or quotation mark or to the end of the text. The others are
/// found behind that character.
pub proof fn law_unquoted_attribute_ends_before_markup(
    a: Seq<char>,
    link: Seq<char>,
    b: Seq<char>,
)
    requires
        forall|i: int|
            0 <= i < a.len() ==> !"href="@.is_prefix_of(
                #[trigger] (a + "href="@ + (link + b)).skip(i),
            ),
        link.len() + b.len() > 0,
        !quotes((link + b)[0]),
        forall|k: int| 0 <= k < link.len() ==> !ends_a_link(#[trigger] link[k]),
        b.len() > 0 ==> ends_a_link(b[0]),
    ensures
        ({
            let s = a + "href="@ + (link + b);
            let rest = behind_first(b);
            &&& links::links_from(s, LinkForm::Href, 0) == seq![link] + links::links_from(
                rest,
                LinkForm::Href,
                0,
            )
            &&& links::ends_narrow_from(s, LinkForm::Href, 0) <==> {
                &&& b.len() > 0 ==> b[0] <= '\u{7f}'
                &&& links::ends_narrow_from(rest, LinkForm::Href, 0)
            }
        }),
{
    let s = a + "href="@ + (link + b);
    texts::law_first_occurrence_is_found(a, "href="@, link + b);
    let start = (a.len() + "href="@.len()) as int;
    let end = start + link.len();
    assert(s[start] == (link + b)[0]);
    lemma_link_characters(s[start]);
    assert forall|k: int| start <= k < end implies !links::link_end()(#[trigger] s[k]) by {
        assert(s[k] == link[k - start]);
        lemma_link_characters(s[k]);
    }
    if b.len() > 0 {
        assert(s[end] == b[0]);
        lemma_link_characters(b[0]);
    }
    texts::lemma_first_where_is(s, start, links::link_end(), end);
    lemma_first_link(s, LinkForm::Href, start, end);
    assert(s.subrange(start, end) =~= link);
    assert(s.skip(end) =~= b);
}

/// Text without an attribute, or with one at its very end, holds no value of
/// one.
pub proof fn law_no_value_no_attribute_link(a: Seq<char>)
    requires
        forall|i: int|
            0 <= i < a.len() ==> !"href="@.is_prefix_of(#[trigger] (a + "href="@).skip(i)),
    ensures
        links::links_from(a, LinkForm::Href, 0) == Seq::<Seq<char>>::empty(),
        links::links_from(a + "href="@, LinkForm::Href, 0) == Seq::<Seq<char>>::empty(),
        links::ends_narrow_from(a, LinkForm::Href, 0),
        links::ends_narrow_from(a + "href="@, LinkForm::Href, 0),
{
    reveal_strlit("href=");
    let none = Seq::<char>::empty();
    let s = a + "href="@;
    assert(a + "href="@ + none =~= s);
    texts::law_first_occurrence_is_found(a, "href="@, none);
    text::lemma_find_is_first(a, "href="@, 0);
    if let Some(k) = text::find(a, "href="@, 0) {
        assert(s.subrange(k, k + 5) =~= a.subrange(k, k + 5));
        texts::lemma_prefix_is_match(s, "href="@, k);
        assert("href="@.is_prefix_of(s.skip(k)));
    }
}

/// `raw` stands in `s` from `start` on. It holds none of the characters that
/// end a link, and goes up to one of them or to the end of the text.
pub open spec fn stands_unquoted(s: Seq<char>, raw: Seq<char>, start: int) -> bool {
    let end = start + raw.len();
    &&& 0 <= start <= end <= s.len()
    &&& s.subrange(start, end) == raw
    &&& forall|k: int| 0 <= k < raw.len() ==> !ends_a_link(#[trigger] raw[k])
    &&& end < s.len() ==> ends_a_link(s[end])
}

/// `raw` stands in `s` from `start` on, behind a quotation mark. It holds
/// none, and goes up to one or to the end of the text.
pub open spec fn stands_quoted(s: Seq<char>, raw: Seq<char>, start: int) -> bool {
    let end = start + raw.len();
    &&& 0 < start <= end <= s.len()
    &&& quotes(s[start - 1])
    &&& s.subrange(start, end) == raw
    &&& forall|k: int| 0 <= k < raw.len() ==> !quotes(#[trigger] raw[k])
    &&& end < s.len() ==> quotes(s[end])
}

/// `raw` stands in `s` from `start` on as a link of the given form: as an
/// address, or right behind `href=`, quoted or not.
pub open spec fn stands_as(s: Seq<char>, form: LinkForm, raw: Seq<char>, start: int) -> bool {
    match form {
        LinkForm::Bare => stands_unquoted(s, raw, start) && starts_with_address(s.skip(start)),
        LinkForm::Href => {
            ||| stands_unquoted(s, raw, start) && "href="@.is_suffix_of(s.take(start))
            ||| stands_quoted(s, raw, start) && "href="@.is_suffix_of(s.take(start - 1))
        },
    }
}

proof fn lemma_next_link_stands(s: Seq<char>, form: LinkForm, i: int)
    requires
        0 <= i < s.len(),
        links::next_link(s, form, i) is Some,
    ensures
        ({
            let (start, end) = links::next_link(s, form, i)->0;
            &&& i <= start <= end <= s.len()
            &&& stands_as(s, form, s.subrange(start, end), start)
        }),
{
    links::lemma_next_link_bounds(s, form, i);
    let (start, end) = links::next_link(s, form, i)->0;
    let raw = s.subrange(start, end);
    text::lemma_first_where_bounds(s, start, links::quotation_mark());
    text::lemma_first_where_bounds(s, start, links::link_end());
    if end < s.len() {
        lemma_link_characters(s[end]);
    }
    let quoted = match form {
        LinkForm::Href => {
            text::lemma_find_is_first(s, "href="@, i);
            let k = text::find(s, "href="@, i)->0;
            let before = k + "href="@.len();
            assert(s.take(before).subrange(k, before) =~= s.subrange(k, before));
            lemma_link_characters(s[before]);
            links::quotation_mark()(s[before])
        },
        LinkForm::Bare => {
            lemma_find_address(s, i);
            false
        },
    };
    assert forall|k: int| 0 <= k < raw.len() implies (quoted ==> !quotes(#[trigger] raw[k])) && (
    !quoted ==> !ends_a_link(raw[k])) by {
        assert(raw[k] == s[start + k]);
        lemma_link_characters(s[start + k]);
    }
    if quoted {
        assert(stands_quoted(s, raw, start));
    } else {
        assert(stands_unquoted(s, raw, start));
    }
}

/// A link, as it stands in running text or in an attribute that is not quoted,
/// holds no white space, no `<`, no `>` and no quotation mark, and goes up to
/// one of these or to the end of the text. In a quoted attribute it stands
/// between quotation marks.
pub proof fn law_links_stand_in_the_text(content: Seq<char>, form: LinkForm, k: int)
    requires
        0 <= k < links::links_from(content, form, 0).len(),
    ensures
        exists|start: int| #[trigger]
            stands_as(content, form, links::links_from(content, form, 0)[k], start),
{
    lemma_links_stand_from(content, form, 0, k);
}

proof fn lemma_links_stand_from(s: Seq<char>, form: LinkForm, i: int, k: int)
    requires
        0 <= i,
        0 <= k < links::links_from(s, form, i).len(),
    ensures
        exists|start: int| #[trigger]
            stands_as(s, form, links::links_from(s, form, i)[k], start),
    decreases s.len() - i,
{
    lemma_next_link_stands(s, form, i);
    let (start, end) = links::next_link(s, form, i)->0;
    let raw = s.subrange(start, end);
    let rest = links::links_from(s, form, links::after_link(s, end));
    assert(links::links_from(s, form, i) == seq![raw] + rest);
    if k == 0 {
        assert(stands_as(s, form, links::links_from(s, form, i)[k], start));
    } else {
        assert(links::links_from(s, form, i)[k] == rest[k - 1]);
        lemma_links_stand_from(s, form, links::after_link(s, end), k - 1);
    }
}

/// Cleaning decodes a link, takes the punctuation away that then stands before
/// and behind it, and nothing else.
pub proof fn law_cleaning_takes_punctuation_away(
    raw: Seq<char>,
    front: Seq<char>,
    link: Seq<char>,
    back: Seq<char>,
)
    requires
        quoted::decoded(raw) == front + link + back,
        forall|k: int|
            0 <= k < front.len() ==> "\"'()[]<>,.;:"@.contains(#[trigger] front[k]),
        forall|k: int| 0 <= k < back.len() ==> "\"'()[]<>,.;:"@.contains(#[trigger] back[k]),
        link.len() > 0 ==> !"\"'()[]<>,.;:"@.contains(link[0]) && !"\"'()[]<>,.;:"@.contains(
            link.last(),
        ),
    ensures
        links::cleaned(raw) == link,
{
    assert forall|k: int| 0 <= k < front.len() implies links::link_punctuation()(
        #[trigger] front[k],
    ) by {
        lemma_punctuation(front[k]);
    }
    assert forall|k: int| 0 <= k < back.len() implies links::link_punctuation()(
        #[trigger] back[k],
    ) by {
        lemma_punctuation(back[k]);
    }
    if link.len() > 0 {
        lemma_punctuation(link[0]);
        lemma_punctuation(link.last());
    }
    texts::law_trimming_cuts_both_ends(front, link, back, links::link_punctuation());
}

proof fn lemma_punctuation(c: char)
    ensures
        links::link_punctuation()(c) <==> "\"'()[]<>,.;:"@.contains(c),
{
    reveal_strlit("\"'()[]<>,.;:");
    let marks = "\"'()[]<>,.;:"@;
    assert(marks[0] == '"' && marks[1] == '\'' && marks[2] == '(' && marks[3] == ')' && marks[4]
        == '[' && marks[5] == ']' && marks[6] == '<' && marks[7] == '>' && marks[8] == ','
        && marks[9] == '.' && marks[10] == ';' && marks[11] == ':');
}

/// Every link that is extracted is the cleaned form of one that stands in the
/// text and is an address, without punctuation at its ends. Every such cleaned
/// form is extracted.
pub proof fn law_links_are_the_cleaned_addresses(content: Seq<char>, link: Seq<char>)
    ensures
        links::extracted(content).contains(link) <==> {
            &&& starts_with_address(link)
            &&& exists|form: LinkForm, k: int|
                0 <= k < links::links_from(content, form, 0).len() && link == links::cleaned(
                    #[trigger] links::links_from(content, form, 0)[k],
                )
        },
        links::extracted(content).no_duplicates(),
{
    let hrefs = links::links_from(content, LinkForm::Href, 0);
    let bare = links::links_from(content, LinkForm::Bare, 0);
    let raws = hrefs + bare;
    links::law_links_are_distinct_addresses(content);
    if links::extracted(content).contains(link) {
        let m = choose|m: int|
            0 <= m < links::extracted(content).len() && links::extracted(content)[m] == link;
        lemma_collected_come_from(raws, m);
        let j = choose|j: int|
            0 <= j < raws.len() && link == links::cleaned(#[trigger] raws[j]);
        if j < hrefs.len() {
            assert(link == links::cleaned(links::links_from(content, LinkForm::Href, 0)[j]));
        } else {
            assert(link == links::cleaned(
                links::links_from(content, LinkForm::Bare, 0)[j - hrefs.len()],
            ));
        }
    }
    if starts_with_address(link) && exists|form: LinkForm, k: int|
        0 <= k < links::links_from(content, form, 0).len() && link == links::cleaned(
            #[trigger] links::links_from(content, form, 0)[k],
        ) {
        let (form, k) = choose|form: LinkForm, k: int|
            0 <= k < links::links_from(content, form, 0).len() && link == links::cleaned(
                #[trigger] links::links_from(content, form, 0)[k],
            );
        links::law_no_link_is_lost(content, form, k);
    }
}

proof fn lemma_collected_come_from(raws: Seq<Seq<char>>, m: int)
    requires
        0 <= m < links::collected(raws).len(),
    ensures
        exists|j: int|
            0 <= j < raws.len() && links::collected(raws)[m] == links::cleaned(#[trigger] raws[j]),
    decreases raws.len(),
{
    let init = raws.drop_last();
    let before = links::collected(init);
    if m < before.len() {
        lemma_collected_come_from(init, m);
        let j = choose|j: int|
            0 <= j < init.len() && before[m] == links::cleaned(#[trigger] init[j]);
        assert(links::collected(raws)[m] == links::cleaned(raws[j]));
    } else {
        assert(links::collected(raws)[m] == links::cleaned(raws[raws.len() - 1]));
    }
}

/// Links come in the order in which they stand in the text, those of
/// attributes first: wherever a link stands, every link that is extracted
/// before it stands earlier.
pub proof fn law_links_keep_their_order(content: Seq<char>, l: int, m: int, j: int)
    requires
        0 <= l < m < links::extracted(content).len(),
        ({
            let raws = links::links_from(content, LinkForm::Href, 0) + links::links_from(
                content,
                LinkForm::Bare,
                0,
            );
            0 <= j < raws.len() && links::cleaned(raws[j]) == links::extracted(content)[m]
        }),
    ensures
        ({
            let raws = links::links_from(content, LinkForm::Href, 0) + links::links_from(
                content,
                LinkForm::Bare,
                0,
            );
            exists|i: int|
                0 <= i < j && links::cleaned(#[trigger] raws[i]) == links::extracted(content)[l]
        }),
{
    let raws = links::links_from(content, LinkForm::Href, 0) + links::links_from(
        content,
        LinkForm::Bare,
        0,
    );
    lemma_collected_order(raws, l, m, j);
}

proof fn lemma_collected_order(raws: Seq<Seq<char>>, l: int, m: int, j: int)
    requires
        0 <= l < m < links::collected(raws).len(),
        0 <= j < raws.len(),
        links::cleaned(raws[j]) == links::collected(raws)[m],
    ensures
        exists|i: int|
            0 <= i < j && links::cleaned(#[trigger] raws[i]) == links::collected(raws)[l],
    decreases raws.len(),
{
    let init = raws.drop_last();
    let before = links::collected(init);
    let all = links::collected(raws);
    assert(all[l] == before[l]);
    if m < before.len() {
        assert(all[m] == before[m]);
        if j < init.len() {
            assert(init[j] == raws[j]);
            lemma_collected_order(init, l, m, j);
            let i = choose|i: int|
                0 <= i < j && links::cleaned(#[trigger] init[i]) == before[l];
            assert(links::cleaned(raws[i]) == all[l]);
        } else {
            lemma_collected_come_from(init, l);
            let i = choose|i: int|
                0 <= i < init.len() && before[l] == links::cleaned(#[trigger] init[i]);
            assert(links::cleaned(raws[i]) == all[l]);
        }
    } else {
        // The link is new with the last raw one, so it stands nowhere earlier.
        if j < init.len() {
            assert(init[j] == raws[j]);
            lemma_all_collected(init, j);
        }
        lemma_collected_come_from(init, l);
        let i = choose|i: int|
            0 <= i < init.len() && before[l] == links::cleaned(#[trigger] init[i]);
        assert(links::cleaned(raws[i]) == all[l]);
    }
}

proof fn lemma_all_collected(raws: Seq<Seq<char>>, j: int)
    requires
        0 <= j < raws.len(),
        links::is_address(links::cleaned(raws[j])),
    ensures
        links::collected(raws).contains(links::cleaned(raws[j])),
    decreases raws.len(),
{
    let init = raws.drop_last();
    let before = links::collected(init);
    let all = links::collected(raws);
    if j < init.len() {
        lemma_all_collected(init, j);
        let k = choose|k: int| 0 <= k < before.len() && before[k] == links::cleaned(raws[j]);
        assert(all[k] == before[k]);
    } else if before.contains(links::cleaned(raws[j])) {
        assert(all == before);
    } else {
        assert(all.last() == links::cleaned(raws[j]));
    }
}

/// The links of a text can be extracted exactly if those of attributes and
/// those in running text can.
pub proof fn law_both_forms_must_be_scannable(s: Seq<char>)
    ensures
        links::scannable(s) <==> forall|form: LinkForm| #[trigger]
            links::ends_narrow_from(s, form, 0),
{
    if links::scannable(s) {
        assert forall|form: LinkForm| #[trigger] links::ends_narrow_from(s, form, 0) by {
            assert(form == LinkForm::Href || form == LinkForm::Bare);
        }
    }
}

} // verus!
