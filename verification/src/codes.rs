//! Verification codes in a message body.
use crate::context;
use crate::keywords;
use crate::mini::MiniEnvelopes;
use crate::rank;
use crate::text;
use vstd::prelude::*;
use vstd::slice::slice_subrange;

verus! {

/// The least score of a code that counts as a verification code.
pub const CODE_MIN_SCORE: i32 = 200;

/// The characters of which codes are made: ASCII letters and digits and the
/// hyphen.
pub open spec fn code_char() -> spec_fn(char) -> bool {
    |c: char| text::ascii_letter(c) || text::ascii_digit(c) || c == '-'
}

pub open spec fn hyphen() -> spec_fn(char) -> bool {
    |c: char| c == '-'
}

pub open spec fn digit() -> spec_fn(char) -> bool {
    |c: char| text::ascii_digit(c)
}

pub open spec fn letter() -> spec_fn(char) -> bool {
    |c: char| text::ascii_letter(c)
}

/// How many characters of `s` satisfy `p`.
pub open spec fn count_where(s: Seq<char>, p: spec_fn(char) -> bool) -> int
    decreases s.len(),
{
    if s.len() == 0 {
        0
    } else if p(s.last()) {
        count_where(s.drop_last(), p) + 1
    } else {
        count_where(s.drop_last(), p)
    }
}

/// `token` can be a code: it has 4 to 12 characters and a digit among them.
pub open spec fn is_candidate(token: Seq<char>) -> bool {
    &&& 4 <= token.len() <= 12
    &&& exists|k: int| 0 <= k < token.len() && text::ascii_digit(#[trigger] token[k])
}

/// The candidates among `tokens`, freed of the hyphens at their ends.
pub open spec fn candidates_among(tokens: Seq<Seq<char>>) -> Seq<Seq<char>>
    decreases tokens.len(),
{
    if tokens.len() == 0 {
        Seq::empty()
    } else {
        let token = text::trimmed(tokens.last(), hyphen());
        let before = candidates_among(tokens.drop_last());
        if is_candidate(token) {
            before.push(token)
        } else {
            before
        }
    }
}

/// The stretches of code characters in `s` that can be a code.
pub open spec fn code_candidates(s: Seq<char>) -> Seq<Seq<char>> {
    candidates_among(text::runs(s, code_char()))
}

/// `code` is one digit, once or several times.
pub open spec fn repeated_digits(code: Seq<char>) -> bool {
    &&& code.len() > 0
    &&& text::ascii_digit(code[0])
    &&& forall|k: int| 0 <= k < code.len() ==> #[trigger] code[k] == code[0]
}

/// How much speaks for `code` as a verification code in the text whose lowered
/// form is `lower_content`.
pub open spec fn code_score(lower_content: Seq<char>, code: Seq<char>) -> int {
    let digits = count_where(code, digit());
    let for_shape = if digits == code.len() {
        let for_length = if 6 <= code.len() <= 8 {
            180int
        } else if 4 <= code.len() <= 10 {
            90
        } else {
            0
        };
        let against_repetition = if repeated_digits(code) {
            240int
        } else {
            0
        };
        for_length - against_repetition
    } else if digits >= 4 && count_where(code, letter()) > 0 {
        80
    } else {
        0
    };
    let against_year = if code.len() == 4 && "20"@.is_prefix_of(code) {
        150int
    } else {
        0
    };
    let for_context = if context::keyword_near(
        lower_content,
        text::lowered(code),
        keywords::code_context_keywords(),
    ) {
        180int
    } else {
        -220
    };
    for_shape - against_year + for_context
}

/// The scores of the candidates in `content`.
pub open spec fn code_scores(content: Seq<char>) -> Seq<int> {
    code_candidates(content).map_values(
        |code: Seq<char>| code_score(text::lowered(content), code),
    )
}

/// The candidate in `content` that scores best, the last one of several, if
/// its score is high enough.
pub open spec fn verification_code(content: Seq<char>) -> Option<Seq<char>> {
    let scores = code_scores(content);
    let best = rank::last_best(scores);
    if scores.len() > 0 && scores[best] >= CODE_MIN_SCORE {
        Some(code_candidates(content)[best])
    } else {
        None
    }
}

fn is_code_char(c: char) -> (yes: bool)
    ensures
        yes == code_char()(c),
{
    text::is_ascii_letter(c) || text::is_ascii_digit(c) || c == '-'
}

fn is_no_code_char(c: char) -> (yes: bool)
    ensures
        yes == text::negated(code_char())(c),
{
    !is_code_char(c)
}

fn is_hyphen(c: char) -> (yes: bool)
    ensures
        yes == hyphen()(c),
{
    c == '-'
}

/// How many digits and how many letters `s` has.
fn count_digits_and_letters(s: &[char]) -> (counts: (usize, usize))
    ensures
        counts.0 == count_where(s@, digit()),
        counts.1 == count_where(s@, letter()),
{
    let mut digits: usize = 0;
    let mut letters: usize = 0;
    let mut i: usize = 0;
    while i < s.len()
        invariant
            i <= s@.len(),
            digits <= i,
            letters <= i,
            digits == count_where(s@.take(i as int), digit()),
            letters == count_where(s@.take(i as int), letter()),
        decreases s@.len() - i,
    {
        proof {
            assert(s@.take(i + 1).drop_last() =~= s@.take(i as int));
        }
        if text::is_ascii_digit(s[i]) {
            digits += 1;
        }
        if text::is_ascii_letter(s[i]) {
            letters += 1;
        }
        i += 1;
    }
    proof {
        assert(s@.take(i as int) =~= s@);
    }
    (digits, letters)
}

/// Whether `token` can be a code.
fn can_be_code(token: &[char]) -> (yes: bool)
    ensures
        yes == is_candidate(token@),
{
    if token.len() < 4 || token.len() > 12 {
        return false;
    }
    let mut i: usize = 0;
    while i < token.len()
        invariant
            i <= token@.len(),
            4 <= token@.len() <= 12,
            forall|k: int| 0 <= k < i ==> !text::ascii_digit(#[trigger] token@[k]),
        decreases token@.len() - i,
    {
        if text::is_ascii_digit(token[i]) {
            return true;
        }
        i += 1;
    }
    false
}

impl MiniEnvelopes {
    /// Whether `code` is one digit, once or several times.
    pub fn is_repeated_digits(code: &str) -> (yes: bool)
        ensures
            yes == repeated_digits(code@),
    {
        let chars = text::chars_of(code);
        if chars.len() == 0 {
            return false;
        }
        if !text::is_ascii_digit(chars[0]) {
            return false;
        }
        let mut i: usize = 1;
        while i < chars.len()
            invariant
                chars@ == code@,
                1 <= i <= chars@.len(),
                forall|k: int| 0 <= k < i ==> #[trigger] chars@[k] == chars@[0],
            decreases chars@.len() - i,
        {
            if chars[i] != chars[0] {
                return false;
            }
            i += 1;
        }
        true
    }

    /// The stretches of ASCII letters, digits and hyphens in `content` that
    /// can be a code, freed of the hyphens at their ends.
    pub fn extract_code_candidates(content: &str) -> (candidates: Vec<String>)
        ensures
            text::views(candidates@) == code_candidates(content@),
    {
        let chars = text::chars_of(content);
        let s: &[char] = chars.as_slice();
        let mut candidates: Vec<String> = Vec::new();
        let ghost mut done: Seq<Seq<char>> = Seq::empty();
        let mut i: usize = 0;
        proof {
            assert(text::views(candidates@) =~= candidates_among(done));
            assert(done + text::runs(s@, code_char()) =~= text::runs(s@, code_char()));
        }
        while i < s.len()
            invariant
                i <= s@.len(),
                text::runs(s@, code_char()) == done + text::runs_from(s@, code_char(), i as int),
                text::views(candidates@) == candidates_among(done),
            decreases s@.len() - i,
        {
            if is_code_char(s[i]) {
                let end: usize = text::position_from(
                    s,
                    i + 1,
                    is_no_code_char,
                    Ghost(text::negated(code_char())),
                );
                let run: &[char] = slice_subrange(s, i, end);
                let token: &[char] = text::trim_chars(run, is_hyphen, Ghost(hyphen()));
                let ghost known = text::views(candidates@);
                if can_be_code(token) {
                    candidates.push(text::string_of(token));
                    proof {
                        assert(text::views(candidates@) =~= known.push(token@));
                    }
                }
                let ghost rest = text::runs_from(s@, code_char(), end as int);
                proof {
                    assert(done.push(run@).drop_last() =~= done);
                    assert(done.push(run@) + rest =~= done + (seq![run@] + rest));
                    done = done.push(run@);
                }
                i = end;
            } else {
                i += 1;
            }
        }
        proof {
            assert(done + Seq::<Seq<char>>::empty() =~= done);
        }
        candidates
    }

    /// How much speaks for `code` as a verification code in the text whose
    /// lowered form is `lower_content`.
    pub fn score_code(lower_content: &str, code: &str) -> (score: i32)
        ensures
            score == code_score(lower_content@, code@),
    {
        let mut score: i32 = 0;
        let chars = text::chars_of(code);
        let len: usize = chars.len();
        let (digits, letters): (usize, usize) = count_digits_and_letters(chars.as_slice());
        let code_lower = text::lower(code);
        let context_keywords = keywords::list_code_context_keywords();
        let has_code_ctx = Self::has_context_keyword_near(
            lower_content,
            code_lower.as_str(),
            context_keywords.as_slice(),
        );

        if digits == len {
            if 6 <= len && len <= 8 {
                score += 180;
            } else if 4 <= len && len <= 10 {
                score += 90;
            }
            if Self::is_repeated_digits(code) {
                score -= 240;
            }
        } else if digits >= 4 && letters > 0 {
            score += 80;
        }
        let year = text::chars_of("20");
        if len == 4 && text::chars_start_with(chars.as_slice(), year.as_slice()) {
            score -= 150;
        }
        if has_code_ctx {
            score += 180;
        } else {
            score -= 220;
        }
        score
    }

    /// The candidate in `content` that scores best, the last one of several,
    /// if its score is high enough.
    pub fn select_verification_code(content: &str) -> (code: Option<String>)
        ensures
            match code {
                Some(c) => verification_code(content@) == Some(c@),
                None => verification_code(content@) is None,
            },
    {
        let lower_content = text::lower(content);
        let candidates = Self::extract_code_candidates(content);
        let ghost scores = code_scores(content@);
        if candidates.len() == 0 {
            return None;
        }
        proof {
            assert(code_candidates(content@)[0] == candidates@[0]@);
            assert(scores.take(1)[0] == scores[0]);
        }
        let mut best: usize = 0;
        let mut best_score: i32 = Self::score_code(
            lower_content.as_str(),
            candidates[0].as_str(),
        );
        let mut k: usize = 1;
        while k < candidates.len()
            invariant
                lower_content@ == text::lowered(content@),
                text::views(candidates@) == code_candidates(content@),
                scores == code_scores(content@),
                scores.len() == candidates@.len(),
                0 < k <= candidates@.len(),
                best < k,
                best == rank::last_best(scores.take(k as int)),
                best_score == scores[best as int],
            decreases candidates@.len() - k,
        {
            proof {
                assert(code_candidates(content@)[k as int] == candidates@[k as int]@);
                rank::lemma_last_best_step(scores, k as int);
            }
            let score: i32 = Self::score_code(lower_content.as_str(), candidates[k].as_str());
            if score >= best_score {
                best = k;
                best_score = score;
            }
            k += 1;
        }
        proof {
            assert(scores.take(k as int) =~= scores);
            assert(code_candidates(content@)[best as int] == candidates@[best as int]@);
        }
        if best_score >= CODE_MIN_SCORE {
            Some(candidates[best].clone())
        } else {
            None
        }
    }
}

/// `token` is a candidate made of code characters, without hyphens at its ends.
pub open spec fn is_clean_candidate(token: Seq<char>) -> bool {
    &&& is_candidate(token)
    &&& text::all_keep(token, code_char())
    &&& token[0] != '-'
    &&& token.last() != '-'
}

proof fn lemma_candidates_among(tokens: Seq<Seq<char>>)
    requires
        forall|k: int| 0 <= k < tokens.len() ==> text::all_keep(#[trigger] tokens[k], code_char()),
    ensures
        forall|k: int|
            0 <= k < candidates_among(tokens).len() ==> is_clean_candidate(
                #[trigger] candidates_among(tokens)[k],
            ),
    decreases tokens.len(),
{
    if tokens.len() > 0 {
        let init = tokens.drop_last();
        assert forall|k: int| 0 <= k < init.len() implies text::all_keep(
            #[trigger] init[k],
            code_char(),
        ) by {
            assert(init[k] == tokens[k]);
        }
        lemma_candidates_among(init);
        let last = tokens[tokens.len() - 1];
        assert(text::all_keep(last, code_char()));
        let token = text::trimmed(last, hyphen());
        text::lemma_trimmed(last, hyphen());
        let (i, j) = choose|i: int, j: int|
            0 <= i <= j <= last.len() && token == #[trigger] last.subrange(i, j);
        assert forall|k: int| 0 <= k < token.len() implies code_char()(#[trigger] token[k]) by {
            assert(token[k] == last[i + k]);
        }
        if is_candidate(token) {
            assert(is_clean_candidate(token));
        }
        assert forall|k: int| 0 <= k < candidates_among(tokens).len() implies is_clean_candidate(
            #[trigger] candidates_among(tokens)[k],
        ) by {
            if k < candidates_among(init).len() {
                assert(candidates_among(tokens)[k] == candidates_among(init)[k]);
            }
        }
    }
}

/// The candidates of a text have 4 to 12 ASCII letters, digits and hyphens, a
/// digit among them, and no hyphen at their ends.
pub proof fn law_candidates_are_clean(content: Seq<char>)
    ensures
        forall|k: int|
            0 <= k < code_candidates(content).len() ==> is_clean_candidate(
                #[trigger] code_candidates(content)[k],
            ),
{
    let tokens = text::runs(content, code_char());
    text::lemma_runs_are_kept(content, code_char(), 0);
    lemma_candidates_among(tokens);
}

/// The verification code is a candidate of the text with a score that is high
/// enough and that no other candidate exceeds; where there is none, no
/// candidate scores high enough.
pub proof fn law_verification_code_scores_best(content: Seq<char>)
    ensures
        match verification_code(content) {
            Some(code) => {
                let score = code_score(text::lowered(content), code);
                &&& code_candidates(content).contains(code)
                &&& score >= CODE_MIN_SCORE
                &&& forall|k: int|
                    0 <= k < code_candidates(content).len() ==> code_score(
                        text::lowered(content),
                        #[trigger] code_candidates(content)[k],
                    ) <= score
            },
            None => forall|k: int|
                0 <= k < code_candidates(content).len() ==> code_score(
                    text::lowered(content),
                    #[trigger] code_candidates(content)[k],
                ) < CODE_MIN_SCORE,
        },
{
    let scores = code_scores(content);
    let found = code_candidates(content);
    if scores.len() > 0 {
        rank::lemma_last_best(scores);
        let best = rank::last_best(scores);
        assert(scores[best] == code_score(text::lowered(content), found[best]));
        assert forall|k: int| 0 <= k < found.len() implies code_score(
            text::lowered(content),
            #[trigger] found[k],
        ) <= scores[best] by {
            assert(scores[k] == code_score(text::lowered(content), found[k]));
        }
    }
}

/// A verification code stands near a word that speaks for it. It is no single
/// digit repeated and does not look like a year. It has 4 to 10 digits and
/// nothing else, or at least 4 digits and a letter.
pub proof fn law_verification_code_is_supported(content: Seq<char>)
    ensures
        verification_code(content) matches Some(code) ==> {
            let digits = count_where(code, digit());
            &&& context::keyword_near(
                text::lowered(content),
                text::lowered(code),
                keywords::code_context_keywords(),
            )
            &&& !repeated_digits(code)
            &&& !(code.len() == 4 && "20"@.is_prefix_of(code))
            &&& {
                ||| digits == code.len() && 4 <= code.len() <= 10
                ||| digits >= 4 && count_where(code, letter()) > 0
            }
        },
{
    law_verification_code_scores_best(content);
    if let Some(code) = verification_code(content) {
        if repeated_digits(code) {
            lemma_count_of_all(code, digit());
        }
    }
}

proof fn lemma_count_of_all(s: Seq<char>, p: spec_fn(char) -> bool)
    requires
        forall|k: int| 0 <= k < s.len() ==> p(#[trigger] s[k]),
    ensures
        count_where(s, p) == s.len(),
    decreases s.len(),
{
    if s.len() > 0 {
        assert forall|k: int| 0 <= k < s.drop_last().len() implies p(#[trigger] s.drop_last()[k]) by {
            assert(s.drop_last()[k] == s[k]);
        }
        lemma_count_of_all(s.drop_last(), p);
    }
}

} // verus!
