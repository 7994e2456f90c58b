//! Links in a message body: which there are, and which one leads to a
//! verification.
use crate::context;
use crate::keywords;
use crate::mini::MiniEnvelopes;
use crate::quoted;
use crate::rank;
use crate::text;
use vstd::prelude::*;
use vstd::slice::slice_subrange;

verus! {

/// The least score of a link that counts as a verification link.
pub const LINK_MIN_SCORE: i32 = 150;

/// The two ways in which a link stands in a text.
#[derive(Clone, Copy, PartialEq, Eq, Structural, Debug)]
pub enum LinkForm {
    /// As the value of an `href` attribute, quoted or not.
    Href,
    /// As an address of the web in running text.
    Bare,
}

/// A double or a single quotation mark.
pub open spec fn quotation_mark() -> spec_fn(char) -> bool {
    |c: char| c == '"' || c == '\''
}

/// The characters before which a link ends that is not quoted.
pub open spec fn link_end() -> spec_fn(char) -> bool {
    |c: char| text::white_space(c) || c == '<' || c == '>' || c == '\'' || c == '"'
}

/// The punctuation that does not belong to a link at its ends.
pub open spec fn link_punctuation() -> spec_fn(char) -> bool {
    |c: char|
        c == '"' || c == '\'' || c == '(' || c == ')' || c == '[' || c == ']' || c == '<' || c
            == '>' || c == ',' || c == '.' || c == ';' || c == ':'
}

/// An address of the web starts in `s` at `i`.
pub open spec fn address_at(s: Seq<char>, i: int) -> bool {
    ||| text::matches_at(s, "https://"@, i)
    ||| text::matches_at(s, "http://"@, i)
    ||| text::matches_at(s, "www."@, i)
}

/// The first position, from `from` on, at which an address of the web starts.
pub open spec fn find_address(s: Seq<char>, from: int) -> Option<int>
    decreases s.len() + 1 - from,
{
    if from < 0 || from > s.len() {
        None
    } else if address_at(s, from) {
        Some(from)
    } else {
        find_address(s, from + 1)
    }
}

/// Where the next link of the given form, from `i` on, starts and ends.
pub open spec fn next_link(s: Seq<char>, form: LinkForm, i: int) -> Option<(int, int)> {
    match form {
        LinkForm::Href => match text::find(s, "href="@, i) {
            None => None,
            Some(k) => {
                let start = k + "href="@.len();
                if start >= s.len() {
                    None
                } else if quotation_mark()(s[start]) {
                    Some((start + 1, text::first_where(s, start + 1, quotation_mark())))
                } else {
                    Some((start, text::first_where(s, start, link_end())))
                }
            },
        },
        LinkForm::Bare => match find_address(s, i) {
            None => None,
            Some(k) => Some((k, text::first_where(s, k, link_end()))),
        },
    }
}

/// Where the search for a further link goes on after one that ends at `end`:
/// behind the character that ends it.
pub open spec fn after_link(s: Seq<char>, end: int) -> int {
    if end < s.len() {
        end + 1
    } else {
        s.len() as int
    }
}

/// The links of the given form in `s` as they stand there, from `i` on.
pub open spec fn links_from(s: Seq<char>, form: LinkForm, i: int) -> Seq<Seq<char>>
    decreases s.len() - i,
{
    if i < 0 || i >= s.len() {
        Seq::empty()
    } else {
        match next_link(s, form, i) {
            None => Seq::empty(),
            Some((start, end)) => {
                proof {
                    lemma_next_link_bounds(s, form, i);
                }
                seq![s.subrange(start, end)] + links_from(s, form, after_link(s, end))
            },
        }
    }
}

/// Every link of the given form, from `i` on, ends at the end of `s` or before
/// a character of a single byte.
pub open spec fn ends_narrow_from(s: Seq<char>, form: LinkForm, i: int) -> bool
    decreases s.len() - i,
{
    if i < 0 || i >= s.len() {
        true
    } else {
        match next_link(s, form, i) {
            None => true,
            Some((start, end)) => {
                proof {
                    lemma_next_link_bounds(s, form, i);
                }
                &&& end < s.len() ==> s[end] <= '\u{7f}'
                &&& ends_narrow_from(s, form, after_link(s, end))
            },
        }
    }
}

/// No link in `s` ends before a white space of several bytes, such as a
/// no-break space.
pub open spec fn scannable(s: Seq<char>) -> bool {
    ends_narrow_from(s, LinkForm::Href, 0) && ends_narrow_from(s, LinkForm::Bare, 0)
}

/// A link as it stands in a text, decoded and freed of punctuation.
pub open spec fn cleaned(raw: Seq<char>) -> Seq<char> {
    text::trimmed(quoted::decoded(raw), link_punctuation())
}

/// `link` is an address of the web.
pub open spec fn is_address(link: Seq<char>) -> bool {
    ||| "http://"@.is_prefix_of(link)
    ||| "https://"@.is_prefix_of(link)
    ||| "www."@.is_prefix_of(link)
}

/// `links` and the cleaned `raw`, if that is an address of the web and not
/// among them yet.
pub open spec fn with_link(links: Seq<Seq<char>>, raw: Seq<char>) -> Seq<Seq<char>> {
    if is_address(cleaned(raw)) && !links.contains(cleaned(raw)) {
        links.push(cleaned(raw))
    } else {
        links
    }
}

/// The addresses of the web among `raws`, cleaned, each once, in the order of
/// their first occurrence.
pub open spec fn collected(raws: Seq<Seq<char>>) -> Seq<Seq<char>>
    decreases raws.len(),
{
    if raws.len() == 0 {
        Seq::empty()
    } else {
        with_link(collected(raws.drop_last()), raws.last())
    }
}

/// The links in `s`: those of `href` attributes, then those in running text,
/// each once.
pub open spec fn extracted(s: Seq<char>) -> Seq<Seq<char>> {
    collected(links_from(s, LinkForm::Href, 0) + links_from(s, LinkForm::Bare, 0))
}

/// How much speaks for `link` as a verification link in the text whose lowered
/// form is `lower_content`.
pub open spec fn link_score(lower_content: Seq<char>, link: Seq<char>) -> int {
    let lower_link = text::lowered(link);
    let named = context::contains_one_of(lower_link, keywords::link_positive_keywords());
    let near = context::keyword_near(
        lower_content,
        lower_link,
        keywords::link_context_positive_keywords(),
    );
    let for_name = if named {
        260int
    } else {
        0
    };
    let against_name = if context::contains_one_of(
        lower_link,
        keywords::link_negative_keywords(),
    ) {
        220int
    } else {
        0
    };
    let for_context = if near {
        180int
    } else {
        0
    };
    let against_context = if context::keyword_near(
        lower_content,
        lower_link,
        keywords::link_context_negative_keywords(),
    ) {
        160int
    } else {
        0
    };
    let unsupported = if !named && !near {
        120int
    } else {
        0
    };
    for_name - against_name + for_context - against_context - unsupported
}

/// The scores of the links in `content`.
pub open spec fn link_scores(content: Seq<char>) -> Seq<int> {
    extracted(content).map_values(|link: Seq<char>| link_score(text::lowered(content), link))
}

/// The link in `content` that scores best, the last one of several, if its
/// score is high enough.
pub open spec fn verification_link(content: Seq<char>) -> Option<Seq<char>> {
    let scores = link_scores(content);
    let best = rank::last_best(scores);
    if scores.len() > 0 && scores[best] >= LINK_MIN_SCORE {
        Some(extracted(content)[best])
    } else {
        None
    }
}

proof fn lemma_find_address_bounds(s: Seq<char>, from: int)
    requires
        0 <= from,
    ensures
        find_address(s, from) matches Some(k) ==> from <= k <= s.len() && address_at(s, k),
    decreases s.len() + 1 - from,
{
    if from <= s.len() && !address_at(s, from) {
        lemma_find_address_bounds(s, from + 1);
    }
}

/// A link lies behind the position from which it is searched, inside the text.
pub proof fn lemma_next_link_bounds(s: Seq<char>, form: LinkForm, i: int)
    requires
        0 <= i,
    ensures
        next_link(s, form, i) matches Some((start, end)) ==> i <= start <= end <= s.len(),
{
    match form {
        LinkForm::Href => {
            text::lemma_find_is_first(s, "href="@, i);
            if let Some(k) = text::find(s, "href="@, i) {
                let start = k + "href="@.len();
                if start < s.len() {
                    text::lemma_first_where_bounds(s, start + 1, quotation_mark());
                    text::lemma_first_where_bounds(s, start, link_end());
                }
            }
        },
        LinkForm::Bare => {
            lemma_find_address_bounds(s, i);
            if let Some(k) = find_address(s, i) {
                text::lemma_first_where_bounds(s, k, link_end());
            }
        },
    }
}

fn is_quotation_mark(c: char) -> (yes: bool)
    ensures
        yes == quotation_mark()(c),
{
    c == '"' || c == '\''
}

fn is_link_end(c: char) -> (yes: bool)
    ensures
        yes == link_end()(c),
{
    text::is_white_space(c) || c == '<' || c == '>' || c == '\'' || c == '"'
}

fn is_link_punctuation(c: char) -> (yes: bool)
    ensures
        yes == link_punctuation()(c),
{
    c == '"' || c == '\'' || c == '(' || c == ')' || c == '[' || c == ']' || c == '<' || c == '>'
        || c == ',' || c == '.' || c == ';' || c == ':'
}

/// The first position, from `from` on, at which an address of the web starts.
fn find_address_chars(s: &[char], from: usize) -> (found: Option<usize>)
    requires
        from <= s@.len(),
    ensures
        match found {
            Some(k) => find_address(s@, from as int) == Some(k as int) && k <= s@.len(),
            None => find_address(s@, from as int) is None,
        },
{
    let https = text::chars_of("https://");
    let http = text::chars_of("http://");
    let www = text::chars_of("www.");
    let mut i: usize = from;
    loop
        invariant
            https@ == "https://"@,
            http@ == "http://"@,
            www@ == "www."@,
            from <= i <= s@.len(),
            find_address(s@, from as int) == find_address(s@, i as int),
        decreases s@.len() - i,
    {
        if text::chars_match_at(s, https.as_slice(), i) || text::chars_match_at(
            s,
            http.as_slice(),
            i,
        ) || text::chars_match_at(s, www.as_slice(), i) {
            return Some(i);
        }
        if i == s.len() {
            proof {
                reveal_with_fuel(find_address, 2);
            }
            return None;
        }
        i += 1;
    }
}

/// Where the next link of the given form, from `i` on, starts and ends.
fn next_link_chars(s: &[char], form: LinkForm, i: usize) -> (found: Option<(usize, usize)>)
    requires
        i <= s@.len(),
    ensures
        match found {
            Some((start, end)) => {
                &&& next_link(s@, form, i as int) == Some((start as int, end as int))
                &&& i <= start <= end <= s@.len()
            },
            None => next_link(s@, form, i as int) is None,
        },
{
    match form {
        LinkForm::Href => {
            let href = text::chars_of("href=");
            match text::find_chars(s, href.as_slice(), i) {
                None => None,
                Some(k) => {
                    proof {
                        text::lemma_find_is_first(s@, href@, i as int);
                    }
                    if s.len() - k <= href.len() {
                        None
                    } else {
                        let start: usize = k + href.len();
                        if is_quotation_mark(s[start]) {
                            let end: usize = text::position_from(
                                s,
                                start + 1,
                                is_quotation_mark,
                                Ghost(quotation_mark()),
                            );
                            Some((start + 1, end))
                        } else {
                            let end: usize = text::position_from(
                                s,
                                start,
                                is_link_end,
                                Ghost(link_end()),
                            );
                            Some((start, end))
                        }
                    }
                },
            }
        },
        LinkForm::Bare => {
            match find_address_chars(s, i) {
                None => None,
                Some(k) => {
                    proof {
                        lemma_find_address_bounds(s@, i as int);
                    }
                    let end: usize = text::position_from(s, k, is_link_end, Ghost(link_end()));
                    Some((k, end))
                },
            }
        },
    }
}

/// Whether every link of the given form ends at the end of `s` or before a
/// character of a single byte.
fn ends_narrow(s: &[char], form: LinkForm) -> (yes: bool)
    ensures
        yes == ends_narrow_from(s@, form, 0),
{
    let mut i: usize = 0;
    while i < s.len()
        invariant
            i <= s@.len(),
            ends_narrow_from(s@, form, 0) == ends_narrow_from(s@, form, i as int),
        decreases s@.len() - i,
    {
        match next_link_chars(s, form, i) {
            None => {
                return true;
            },
            Some((_, end)) => {
                if end < s.len() {
                    if s[end] > '\u{7f}' {
                        return false;
                    }
                    i = end + 1;
                } else {
                    i = s.len();
                }
            },
        }
    }
    true
}

/// Adds the cleaned `raw` to `links`, if that is an address of the web and not
/// among them yet.
fn push_link(links: &mut Vec<String>, raw: &[char])
    ensures
        text::views(final(links)@) == with_link(text::views(old(links)@), raw@),
{
    let decoded = quoted::decode(raw);
    let link: &[char] = text::trim_chars(
        decoded.as_slice(),
        is_link_punctuation,
        Ghost(link_punctuation()),
    );
    let http = text::chars_of("http://");
    let https = text::chars_of("https://");
    let www = text::chars_of("www.");
    if text::chars_start_with(link, http.as_slice()) || text::chars_start_with(
        link,
        https.as_slice(),
    ) || text::chars_start_with(link, www.as_slice()) {
        let link: String = text::string_of(link);
        let ghost known = text::views(links@);
        let mut k: usize = 0;
        while k < links.len()
            invariant
                known == text::views(links@),
                *links == *old(links),
                known == text::views(old(links)@),
                link@ == cleaned(raw@),
                is_address(link@),
                k <= links@.len(),
                forall|j: int| 0 <= j < k ==> known[j] != link@,
            decreases links@.len() - k,
        {
            proof {
                assert(known[k as int] == links@[k as int]@);
            }
            if links[k] == link {
                proof {
                    assert(known.contains(link@));
                }
                return ;
            }
            k += 1;
        }
        links.push(link);
        proof {
            assert(!known.contains(link@));
            assert(text::views(links@) =~= known.push(link@));
        }
    }
}

/// Adds the links of the given form in `s` to `links`.
fn push_links(links: &mut Vec<String>, s: &[char], form: LinkForm, Ghost(before): Ghost<Seq<Seq<char>>>)
    requires
        text::views(old(links)@) == collected(before),
    ensures
        text::views(final(links)@) == collected(before + links_from(s@, form, 0)),
{
    let ghost mut done: Seq<Seq<char>> = Seq::empty();
    let mut i: usize = 0;
    proof {
        assert(before + done =~= before);
        assert(done + links_from(s@, form, 0) =~= links_from(s@, form, 0));
    }
    while i < s.len()
        invariant
            i <= s@.len(),
            links_from(s@, form, 0) == done + links_from(s@, form, i as int),
            text::views(links@) == collected(before + done),
        ensures
            links_from(s@, form, 0) == done,
            text::views(links@) == collected(before + done),
        decreases s@.len() - i,
    {
        match next_link_chars(s, form, i) {
            None => {
                proof {
                    assert(done + Seq::<Seq<char>>::empty() =~= done);
                }
                break;
            },
            Some((start, end)) => {
                let raw: &[char] = slice_subrange(s, start, end);
                push_link(links, raw);
                let ghost rest = links_from(s@, form, after_link(s@, end as int));
                proof {
                    assert((before + done.push(raw@)).drop_last() =~= before + done);
                    assert(done.push(raw@) + rest =~= done + (seq![raw@] + rest));
                    done = done.push(raw@);
                }
                if end < s.len() {
                    i = end + 1;
                } else {
                    i = s.len();
                }
            },
        }
    }
}

impl MiniEnvelopes {
    /// Whether the links of `content` can be extracted: none of them ends
    /// before a white space of several bytes.
    pub fn can_extract_links(content: &str) -> (yes: bool)
        ensures
            yes == scannable(content@),
    {
        let chars = text::chars_of(content);
        ends_narrow(chars.as_slice(), LinkForm::Href) && ends_narrow(
            chars.as_slice(),
            LinkForm::Bare,
        )
    }

    /// The links in `content`: those of `href` attributes, then those in
    /// running text, each once.
    pub fn extract_links(content: &str) -> (links: Vec<String>)
        requires
            scannable(content@),
        ensures
            text::views(links@) == extracted(content@),
    {
        let chars = text::chars_of(content);
        let mut links: Vec<String> = Vec::new();
        let ghost hrefs = links_from(content@, LinkForm::Href, 0);
        proof {
            assert(text::views(links@) =~= collected(Seq::empty()));
            assert(Seq::<Seq<char>>::empty() + hrefs =~= hrefs);
        }
        push_links(&mut links, chars.as_slice(), LinkForm::Href, Ghost(Seq::empty()));
        push_links(&mut links, chars.as_slice(), LinkForm::Bare, Ghost(hrefs));
        links
    }

    /// How much speaks for `link` as a verification link in the text whose
    /// lowered form is `lower_content`.
    pub fn score_link(lower_content: &str, link: &str) -> (score: i32)
        ensures
            score == link_score(lower_content@, link@),
    {
        let link_lower = text::lower(link);
        let mut score: i32 = 0;
        let positive = keywords::list_link_positive_keywords();
        let has_positive_link_keyword = Self::contains_any(
            link_lower.as_str(),
            positive.as_slice(),
        );

        if has_positive_link_keyword {
            score += 260;
        }
        let negative = keywords::list_link_negative_keywords();
        if Self::contains_any(link_lower.as_str(), negative.as_slice()) {
            score -= 220;
        }
        let context_positive = keywords::list_link_context_positive_keywords();
        let has_positive_ctx = Self::has_context_keyword_near(
            lower_content,
            link_lower.as_str(),
            context_positive.as_slice(),
        );
        if has_positive_ctx {
            score += 180;
        }
        let context_negative = keywords::list_link_context_negative_keywords();
        let has_negative_ctx = Self::has_context_keyword_near(
            lower_content,
            link_lower.as_str(),
            context_negative.as_slice(),
        );
        if has_negative_ctx {
            score -= 160;
        }
        if !has_positive_link_keyword && !has_positive_ctx {
            score -= 120;
        }
        score
    }

    /// The link in `content` that scores best, the last one of several, if its
    /// score is high enough.
    pub fn select_verification_link(content: &str) -> (link: Option<String>)
        requires
            scannable(content@),
        ensures
            match link {
                Some(l) => verification_link(content@) == Some(l@),
                None => verification_link(content@) is None,
            },
    {
        let lower_content = text::lower(content);
        let links = Self::extract_links(content);
        let ghost scores = link_scores(content@);
        if links.len() == 0 {
            return None;
        }
        proof {
            assert(extracted(content@)[0] == links@[0]@);
            assert(scores.take(1)[0] == scores[0]);
        }
        let mut best: usize = 0;
        let mut best_score: i32 = Self::score_link(lower_content.as_str(), links[0].as_str());
        let mut k: usize = 1;
        while k < links.len()
            invariant
                lower_content@ == text::lowered(content@),
                text::views(links@) == extracted(content@),
                scores == link_scores(content@),
                scores.len() == links@.len(),
                0 < k <= links@.len(),
                best < k,
                best == rank::last_best(scores.take(k as int)),
                best_score == scores[best as int],
            decreases links@.len() - k,
        {
            proof {
                assert(extracted(content@)[k as int] == links@[k as int]@);
                rank::lemma_last_best_step(scores, k as int);
            }
            let score: i32 = Self::score_link(lower_content.as_str(), links[k].as_str());
            if score >= best_score {
                best = k;
                best_score = score;
            }
            k += 1;
        }
        proof {
            assert(scores.take(k as int) =~= scores);
            assert(extracted(content@)[best as int] == links@[best as int]@);
        }
        if best_score >= LINK_MIN_SCORE {
            Some(links[best].clone())
        } else {
            None
        }
    }
}

proof fn lemma_collected(raws: Seq<Seq<char>>)
    ensures
        collected(raws).no_duplicates(),
        forall|k: int| 0 <= k < collected(raws).len() ==> is_address(#[trigger] collected(raws)[k]),
        forall|k: int|
            0 <= k < collected(raws).len() ==> exists|j: int|
                0 <= j < raws.len() && #[trigger] collected(raws)[k] == cleaned(#[trigger] raws[j]),
        forall|j: int|
            0 <= j < raws.len() && is_address(cleaned(#[trigger] raws[j])) ==> collected(
                raws,
            ).contains(cleaned(raws[j])),
    decreases raws.len(),
{
    if raws.len() > 0 {
        let init = raws.drop_last();
        let before = collected(init);
        let all = collected(raws);
        lemma_collected(init);
        assert forall|k: int| 0 <= k < all.len() implies exists|j: int|
            0 <= j < raws.len() && #[trigger] all[k] == cleaned(#[trigger] raws[j]) by {
            if k < before.len() {
                assert(all[k] == before[k]);
                let j = choose|j: int|
                    0 <= j < init.len() && before[k] == cleaned(#[trigger] init[j]);
                assert(init[j] == raws[j]);
            } else {
                assert(all[k] == cleaned(raws[raws.len() - 1]));
            }
        }
        assert forall|j: int|
            0 <= j < raws.len() && is_address(cleaned(#[trigger] raws[j])) implies all.contains(
            cleaned(raws[j]),
        ) by {
            if j < init.len() {
                assert(init[j] == raws[j]);
                let k = choose|k: int| 0 <= k < before.len() && before[k] == cleaned(raws[j]);
                assert(all[k] == before[k]);
            } else if before.contains(cleaned(raws[j])) {
                assert(all == before);
            } else {
                assert(all.last() == cleaned(raws[j]));
            }
        }
    }
}

/// The links of a text are addresses of the web without punctuation at their
/// ends, and no link is given twice.
pub proof fn law_links_are_distinct_addresses(content: Seq<char>)
    ensures
        extracted(content).no_duplicates(),
        forall|k: int|
            0 <= k < extracted(content).len() ==> {
                let link = #[trigger] extracted(content)[k];
                &&& is_address(link)
                &&& link.len() > 0
                &&& !link_punctuation()(link[0])
                &&& !link_punctuation()(link.last())
            },
{
    let raws = links_from(content, LinkForm::Href, 0) + links_from(content, LinkForm::Bare, 0);
    lemma_collected(raws);
    assert forall|k: int| 0 <= k < extracted(content).len() implies {
        let link = #[trigger] extracted(content)[k];
        &&& is_address(link)
        &&& link.len() > 0
        &&& !link_punctuation()(link[0])
        &&& !link_punctuation()(link.last())
    } by {
        let link = extracted(content)[k];
        assert(is_address(collected(raws)[k]));
        let j = choose|j: int| 0 <= j < raws.len() && link == cleaned(#[trigger] raws[j]);
        text::lemma_trimmed(quoted::decoded(raws[j]), link_punctuation());
        reveal_strlit("http://");
        reveal_strlit("https://");
        reveal_strlit("www.");
    }
}

/// Every link that stands in a text and is an address once cleaned is among the
/// links of the text.
pub proof fn law_no_link_is_lost(content: Seq<char>, form: LinkForm, k: int)
    requires
        0 <= k < links_from(content, form, 0).len(),
        is_address(cleaned(links_from(content, form, 0)[k])),
    ensures
        extracted(content).contains(cleaned(links_from(content, form, 0)[k])),
{
    let hrefs = links_from(content, LinkForm::Href, 0);
    let raws = hrefs + links_from(content, LinkForm::Bare, 0);
    lemma_collected(raws);
    match form {
        LinkForm::Href => {
            assert(raws[k] == hrefs[k]);
        },
        LinkForm::Bare => {
            assert(raws[hrefs.len() + k] == links_from(content, form, 0)[k]);
        },
    }
}

/// The verification link is a link of the text with a score that is high enough
/// and that no other link exceeds; where there is none, no link scores high
/// enough.
pub proof fn law_verification_link_scores_best(content: Seq<char>)
    ensures
        match verification_link(content) {
            Some(link) => {
                let score = link_score(text::lowered(content), link);
                &&& extracted(content).contains(link)
                &&& score >= LINK_MIN_SCORE
                &&& forall|k: int|
                    0 <= k < extracted(content).len() ==> link_score(
                        text::lowered(content),
                        #[trigger] extracted(content)[k],
                    ) <= score
            },
            None => forall|k: int|
                0 <= k < extracted(content).len() ==> link_score(
                    text::lowered(content),
                    #[trigger] extracted(content)[k],
                ) < LINK_MIN_SCORE,
        },
{
    let scores = link_scores(content);
    let found = extracted(content);
    if scores.len() > 0 {
        rank::lemma_last_best(scores);
        let best = rank::last_best(scores);
        assert(scores[best] == link_score(text::lowered(content), found[best]));
        assert forall|k: int| 0 <= k < found.len() implies link_score(
            text::lowered(content),
            #[trigger] found[k],
        ) <= scores[best] by {
            assert(scores[k] == link_score(text::lowered(content), found[k]));
        }
    }
}

/// A verification link is named like one, or stands near a word that speaks for
/// it while neither its name nor its surroundings speak against it.
pub proof fn law_verification_link_is_supported(content: Seq<char>)
    ensures
        verification_link(content) matches Some(link) ==> {
            let lower_link = text::lowered(link);
            let lower_content = text::lowered(content);
            ||| context::contains_one_of(lower_link, keywords::link_positive_keywords())
            ||| {
                &&& context::keyword_near(
                    lower_content,
                    lower_link,
                    keywords::link_context_positive_keywords(),
                )
                &&& !context::contains_one_of(lower_link, keywords::link_negative_keywords())
                &&& !context::keyword_near(
                    lower_content,
                    lower_link,
                    keywords::link_context_negative_keywords(),
                )
            }
        },
{
    law_verification_link_scores_best(content);
}

/// All white space in `s` is of a single byte each.
pub open spec fn narrow_space(s: Seq<char>) -> bool {
    forall|k: int| 0 <= k < s.len() && text::white_space(#[trigger] s[k]) ==> s[k] <= '\u{7f}'
}

/// The links of a text can be extracted if all its white space is of a single
/// byte each.
pub proof fn law_narrow_space_is_scannable(s: Seq<char>)
    requires
        narrow_space(s),
    ensures
        scannable(s),
{
    lemma_narrow_space_ends_narrow(s, LinkForm::Href, 0);
    lemma_narrow_space_ends_narrow(s, LinkForm::Bare, 0);
}

proof fn lemma_narrow_space_ends_narrow(s: Seq<char>, form: LinkForm, i: int)
    requires
        narrow_space(s),
        0 <= i,
    ensures
        ends_narrow_from(s, form, i),
    decreases s.len() - i,
{
    if i < s.len() {
        lemma_next_link_bounds(s, form, i);
        if let Some((start, end)) = next_link(s, form, i) {
            text::lemma_first_where_bounds(s, start, quotation_mark());
            text::lemma_first_where_bounds(s, start, link_end());
            lemma_narrow_space_ends_narrow(s, form, after_link(s, end));
        }
    }
}

} // verus!
