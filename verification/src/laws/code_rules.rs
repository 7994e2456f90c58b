//! Laws of the codes in a text: which candidates there are, what they score,
//! and which one is chosen.
use crate::codes;
use crate::context;
use crate::keywords;
use crate::laws::texts;
use crate::rank;
use crate::text;
use vstd::prelude::*;

verus! {

/// The characters of which codes are made.
pub open spec fn makes_codes(c: char) -> bool {
    text::ascii_letter(c) || text::ascii_digit(c) || c == '-'
}

/// How many digits a text has.
pub open spec fn digits_in(s: Seq<char>) -> nat {
    s.filter(|c: char| text::ascii_digit(c)).len()
}

/// How many letters of ASCII a text has.
pub open spec fn letters_in(s: Seq<char>) -> nat {
    s.filter(|c: char| text::ascii_letter(c)).len()
}

proof fn lemma_count_is_filter(s: Seq<char>, p: spec_fn(char) -> bool)
    ensures
        codes::count_where(s, p) == s.filter(p).len(),
    decreases s.len(),
{
    reveal(Seq::filter);
    if s.len() > 0 {
        lemma_count_is_filter(s.drop_last(), p);
    }
}

proof fn lemma_counts(s: Seq<char>)
    ensures
        codes::count_where(s, codes::digit()) == digits_in(s),
        codes::count_where(s, codes::letter()) == letters_in(s),
        digits_in(s) + letters_in(s) <= s.len(),
    decreases s.len(),
{
    let is_digit = |c: char| text::ascii_digit(c);
    let is_letter = |c: char| text::ascii_letter(c);
    assert(codes::digit() =~= is_digit);
    assert(codes::letter() =~= is_letter);
    lemma_count_is_filter(s, is_digit);
    lemma_count_is_filter(s, is_letter);
    reveal(Seq::filter);
    if s.len() > 0 {
        lemma_counts(s.drop_last());
        texts::law_ascii_by_name(s.last());
    }
}

proof fn lemma_candidates_concat(x: Seq<Seq<char>>, y: Seq<Seq<char>>)
    ensures
        codes::candidates_among(x + y) == codes::candidates_among(x) + codes::candidates_among(y),
    decreases y.len(),
{
    if y.len() == 0 {
        assert(x + y =~= x);
        assert(codes::candidates_among(x + y) =~= codes::candidates_among(x)
            + codes::candidates_among(y));
    } else {
        assert((x + y).drop_last() =~= x + y.drop_last());
        assert((x + y).last() == y.last());
        lemma_candidates_concat(x, y.drop_last());
        assert(codes::candidates_among(x + y) =~= codes::candidates_among(x)
            + codes::candidates_among(y));
    }
}

/// A character of which codes are not made parts the candidates before it from
/// those after it.
pub proof fn law_candidates_are_parted(a: Seq<char>, c: char, b: Seq<char>)
    requires
        !makes_codes(c),
    ensures
        codes::code_candidates(a + seq![c] + b) == codes::code_candidates(a)
            + codes::code_candidates(b),
{
    texts::law_runs_are_parted(a, c, b, codes::code_char());
    lemma_candidates_concat(text::runs(a, codes::code_char()), text::runs(b, codes::code_char()));
}

/// A stretch of letters, digits and hyphens is a candidate without the hyphens
/// at its ends, if it then has 4 to 12 characters and a digit among them.
pub proof fn law_one_stretch_is_one_candidate(
    front: Seq<char>,
    token: Seq<char>,
    back: Seq<char>,
)
    requires
        forall|k: int| 0 <= k < front.len() ==> #[trigger] front[k] == '-',
        forall|k: int| 0 <= k < back.len() ==> #[trigger] back[k] == '-',
        forall|k: int| 0 <= k < token.len() ==> makes_codes(#[trigger] token[k]),
        token.len() > 0 ==> token[0] != '-' && token.last() != '-',
    ensures
        codes::code_candidates(front + token + back) == if 4 <= token.len() <= 12 && digits_in(
            token,
        ) > 0 {
            seq![token]
        } else {
            Seq::empty()
        },
{
    let s = front + token + back;
    let keep = codes::code_char();
    assert forall|k: int| 0 <= k < s.len() implies keep(#[trigger] s[k]) by {
        if k < front.len() {
            assert(s[k] == front[k]);
        } else if k < front.len() + token.len() {
            assert(s[k] == token[k - front.len()]);
        } else {
            assert(s[k] == back[k - front.len() - token.len()]);
        }
    }
    texts::law_kept_text_is_one_run(s, keep);
    texts::law_trimming_cuts_both_ends(front, token, back, codes::hyphen());
    lemma_has_digit(token);
    if s.len() > 0 {
        let runs = text::runs(s, keep);
        assert(runs == seq![s]);
        assert(runs.last() == s);
        assert(runs.drop_last() =~= Seq::empty());
        assert(codes::candidates_among(runs.drop_last()) == Seq::<Seq<char>>::empty());
        assert(codes::code_candidates(s) =~= if codes::is_candidate(token) {
            seq![token]
        } else {
            Seq::empty()
        });
    } else {
        assert(token.len() == 0);
    }
}

proof fn lemma_has_digit(s: Seq<char>)
    ensures
        digits_in(s) > 0 <==> exists|k: int|
            0 <= k < s.len() && text::ascii_digit(#[trigger] s[k]),
    decreases s.len(),
{
    reveal(Seq::filter);
    if s.len() > 0 {
        let init = s.drop_last();
        lemma_has_digit(init);
        if exists|k: int| 0 <= k < init.len() && text::ascii_digit(#[trigger] init[k]) {
            let k = choose|k: int| 0 <= k < init.len() && text::ascii_digit(#[trigger] init[k]);
            assert(text::ascii_digit(s[k]));
        }
        if exists|k: int| 0 <= k < s.len() && text::ascii_digit(#[trigger] s[k]) {
            let k = choose|k: int| 0 <= k < s.len() && text::ascii_digit(#[trigger] s[k]);
            if k < init.len() {
                assert(text::ascii_digit(init[k]));
            }
        }
        if text::ascii_digit(s.last()) {
            assert(text::ascii_digit(s[s.len() - 1]));
        }
    }
}

/// A word that announces a code stands near it.
pub open spec fn announced(lower_content: Seq<char>, code: Seq<char>) -> bool {
    context::keyword_near(
        lower_content,
        text::lowered(code),
        seq![
            "code"@,
            "otp"@,
            "passcode"@,
            "verification"@,
            "verify"@,
            "bestätigungscode"@,
            "bestaetigungscode"@,
            "authentication"@,
            "sudo authentication"@,
        ],
    )
}

/// All characters are digits.
pub open spec fn all_digits(code: Seq<char>) -> bool {
    digits_in(code) == code.len()
}

/// There are two characters that differ.
pub open spec fn varies(code: Seq<char>) -> bool {
    exists|i: int, j: int|
        0 <= i < j < code.len() && #[trigger] code[i] != #[trigger] code[j]
}

/// Four characters of which the first two are `20`.
pub open spec fn looks_like_a_year(code: Seq<char>) -> bool {
    code.len() == 4 && code[0] == '2' && code[1] == '0'
}

proof fn lemma_code_shapes(code: Seq<char>)
    ensures
        all_digits(code) && code.len() > 0 ==> (codes::repeated_digits(code) <==> !varies(code)),
        code.len() == 4 ==> ("20"@.is_prefix_of(code) <==> looks_like_a_year(code)),
{
    reveal_strlit("20");
    if all_digits(code) && code.len() > 0 {
        lemma_all_are_digits(code);
        if !varies(code) {
            assert forall|k: int| 0 <= k < code.len() implies #[trigger] code[k] == code[0] by {
                if k > 0 && code[k] != code[0] {
                    assert(varies(code));
                }
            }
        }
    }
    if code.len() == 4 {
        if looks_like_a_year(code) {
            assert(code.subrange(0, 2) =~= "20"@);
        }
        if "20"@.is_prefix_of(code) {
            assert(code.subrange(0, 2)[0] == '2');
            assert(code.subrange(0, 2)[1] == '0');
        }
    }
}

proof fn lemma_all_are_digits(s: Seq<char>)
    requires
        all_digits(s),
    ensures
        forall|k: int| 0 <= k < s.len() ==> text::ascii_digit(#[trigger] s[k]),
    decreases s.len(),
{
    reveal(Seq::filter);
    if s.len() > 0 {
        let init = s.drop_last();
        lemma_counts(init);
        lemma_all_are_digits(init);
        assert forall|k: int| 0 <= k < s.len() implies text::ascii_digit(#[trigger] s[k]) by {
            if k < init.len() {
                assert(init[k] == s[k]);
            }
        }
    }
}

/// A code is one digit repeated exactly if it is made of digits that do not
/// vary.
pub proof fn law_repeated_digits_do_not_vary(code: Seq<char>)
    ensures
        codes::repeated_digits(code) <==> code.len() > 0 && all_digits(code) && !varies(code),
{
    lemma_code_shapes(code);
    if codes::repeated_digits(code) {
        lemma_digits_alone(code);
    }
}

proof fn lemma_digits_alone(s: Seq<char>)
    requires
        forall|k: int| 0 <= k < s.len() ==> text::ascii_digit(#[trigger] s[k]),
    ensures
        all_digits(s),
    decreases s.len(),
{
    reveal(Seq::filter);
    if s.len() > 0 {
        assert forall|k: int| 0 <= k < s.drop_last().len() implies text::ascii_digit(
            #[trigger] s.drop_last()[k],
        ) by {
            assert(s.drop_last()[k] == s[k]);
        }
        lemma_digits_alone(s.drop_last());
        assert(text::ascii_digit(s[s.len() - 1]));
    }
}

/// What a code scores that is announced, by its shape.
pub proof fn law_announced_code_scores(lower_content: Seq<char>, code: Seq<char>)
    requires
        announced(lower_content, code),
    ensures
        ({
            let score = codes::code_score(lower_content, code);
            let n = code.len();
            &&& all_digits(code) && varies(code) ==> score == if looks_like_a_year(code) {
                120int
            } else if n == 6 || n == 7 || n == 8 {
                360
            } else if n == 4 || n == 5 || n == 9 || n == 10 {
                270
            } else {
                180
            }
            &&& all_digits(code) && !varies(code) && n > 0 ==> score == if n == 6 || n == 7 || n
                == 8 {
                120int
            } else if n == 4 || n == 5 || n == 9 || n == 10 {
                30
            } else {
                -60
            }
            &&& !all_digits(code) ==> score == if digits_in(code) >= 4 && letters_in(code) >= 1 {
                260int
            } else if looks_like_a_year(code) {
                30
            } else {
                180
            }
        }),
{
    lemma_counts(code);
    lemma_code_shapes(code);
    lemma_announced(lower_content, code);
    if looks_like_a_year(code) {
        assert(code[0] != code[1]);
    }
}

/// Not being announced costs a code 400, whatever its shape.
pub proof fn law_announcing_is_worth_400(
    announcing: Seq<char>,
    silent: Seq<char>,
    code: Seq<char>,
)
    requires
        announced(announcing, code),
        !announced(silent, code),
    ensures
        codes::code_score(announcing, code) - codes::code_score(silent, code) == 400,
{
    lemma_announced(announcing, code);
    lemma_announced(silent, code);
}

proof fn lemma_announced(lower_content: Seq<char>, code: Seq<char>)
    ensures
        announced(lower_content, code) == context::keyword_near(
            lower_content,
            text::lowered(code),
            keywords::code_context_keywords(),
        ),
{
    assert(keywords::code_context_keywords() =~= seq![
        "code"@,
        "otp"@,
        "passcode"@,
        "verification"@,
        "verify"@,
        "bestätigungscode"@,
        "bestaetigungscode"@,
        "authentication"@,
        "sudo authentication"@,
    ]);
}

/// A code can be chosen: it is announced, and it is made of 4 to 10 digits that
/// are neither all the same nor look like a year, or has at least 4 digits and
/// a letter.
pub open spec fn deserves_choice(content: Seq<char>, code: Seq<char>) -> bool {
    &&& announced(text::lowered(content), code)
    &&& {
        ||| {
            &&& all_digits(code) && 4 <= code.len() <= 10
            &&& varies(code) && !looks_like_a_year(code)
        }
        ||| digits_in(code) >= 4 && letters_in(code) >= 1
    }
}

proof fn lemma_deserving_scores(content: Seq<char>, code: Seq<char>)
    ensures
        deserves_choice(content, code) <==> codes::code_score(text::lowered(content), code) >= 200,
{
    let lower = text::lowered(content);
    lemma_counts(code);
    lemma_announced(lower, code);
    if announced(lower, code) {
        if code.len() == 0 {
            context::law_nothing_is_near_nothing(lower, keywords::code_context_keywords());
            assert(text::lowered(code) =~= Seq::empty());
        }
        law_announced_code_scores(lower, code);
    } else {
        lemma_code_shapes(code);
    }
}

/// A code is chosen exactly if some candidate of the text deserves it, and the
/// one that is chosen does.
pub proof fn law_a_deserving_code_is_chosen(content: Seq<char>)
    ensures
        codes::verification_code(content) is Some <==> exists|k: int|
            0 <= k < codes::code_candidates(content).len() && deserves_choice(
                content,
                #[trigger] codes::code_candidates(content)[k],
            ),
        codes::verification_code(content) matches Some(code) ==> deserves_choice(content, code),
{
    let found = codes::code_candidates(content);
    codes::law_verification_code_scores_best(content);
    assert forall|k: int| 0 <= k < found.len() implies deserves_choice(
        content,
        #[trigger] found[k],
    ) == (codes::code_score(text::lowered(content), found[k]) >= 200) by {
        lemma_deserving_scores(content, found[k]);
    }
    if let Some(code) = codes::verification_code(content) {
        let k = choose|k: int| 0 <= k < found.len() && found[k] == code;
        assert(deserves_choice(content, found[k]));
    }
}

/// The code that is chosen scores at least as much as every candidate before it
/// and more than every candidate behind it.
pub proof fn law_the_last_of_the_best_codes_is_chosen(content: Seq<char>)
    ensures
        codes::verification_code(content) matches Some(code) ==> exists|best: int|
            0 <= best < codes::code_candidates(content).len() && code
                == #[trigger] codes::code_candidates(content)[best] && (forall|k: int|
                0 <= k < best ==> codes::code_score(
                    text::lowered(content),
                    #[trigger] codes::code_candidates(content)[k],
                ) <= codes::code_score(text::lowered(content), code)) && (forall|k: int|
                best < k < codes::code_candidates(content).len() ==> codes::code_score(
                    text::lowered(content),
                    #[trigger] codes::code_candidates(content)[k],
                ) < codes::code_score(text::lowered(content), code)),
{
    let found = codes::code_candidates(content);
    let scores = codes::code_scores(content);
    let lower = text::lowered(content);
    if let Some(code) = codes::verification_code(content) {
        rank::lemma_last_best(scores);
        let best = rank::last_best(scores);
        assert(code == found[best]);
        assert forall|k: int| 0 <= k < best implies codes::code_score(
            lower,
            #[trigger] found[k],
        ) <= codes::code_score(lower, code) by {
            assert(scores[k] <= scores[best]);
        }
        assert forall|k: int| best < k < found.len() implies codes::code_score(
            lower,
            #[trigger] found[k],
        ) < codes::code_score(lower, code) by {
            assert(scores[k] < scores[best]);
        }
    }
}

} // verus!
