//! Laws of the choice among the links of a text.
use crate::context;
use crate::keywords;
use crate::links;
use crate::rank;
use crate::text;
use vstd::prelude::*;

verus! {

/// A link is named like one that verifies or logs in.
pub open spec fn named(link: Seq<char>) -> bool {
    let l = text::lowered(link);
    ||| text::contains_text(l, "magic-link"@)
    ||| text::contains_text(l, "magiclink"@)
    ||| text::contains_text(l, "verify"@)
    ||| text::contains_text(l, "verification"@)
    ||| text::contains_text(l, "signin"@)
    ||| text::contains_text(l, "sign-in"@)
    ||| text::contains_text(l, "login"@)
    ||| text::contains_text(l, "auth"@)
    ||| text::contains_text(l, "confirm"@)
}

/// A link is named like one that serves something else.
pub open spec fn misnamed(link: Seq<char>) -> bool {
    let l = text::lowered(link);
    ||| text::contains_text(l, "unsubscribe"@)
    ||| text::contains_text(l, "support"@)
    ||| text::contains_text(l, "help"@)
    ||| text::contains_text(l, "preferences"@)
}

/// A word that announces a verification stands near the link.
pub open spec fn announced(lower_content: Seq<char>, link: Seq<char>) -> bool {
    context::keyword_near(
        lower_content,
        text::lowered(link),
        seq![
            "code"@,
            "otp"@,
            "passcode"@,
            "verification"@,
            "verify"@,
            "bestätigungscode"@,
            "bestaetigungscode"@,
            "authentication"@,
            "anmelden"@,
        ],
    )
}

/// A word of the small print stands near the link.
pub open spec fn in_small_print(lower_content: Seq<char>, link: Seq<char>) -> bool {
    context::keyword_near(
        lower_content,
        text::lowered(link),
        seq!["unsubscribe"@, "privacy policy"@, "impressum"@],
    )
}

proof fn lemma_named(link: Seq<char>)
    ensures
        named(link) <==> context::contains_one_of(
            text::lowered(link),
            keywords::link_positive_keywords(),
        ),
{
    let l = text::lowered(link);
    let words = keywords::link_positive_keywords();
    assert(words[0] == "magic-link"@ && words[1] == "magiclink"@ && words[2] == "verify"@
        && words[3] == "verification"@ && words[4] == "signin"@ && words[5] == "sign-in"@
        && words[6] == "login"@ && words[7] == "auth"@ && words[8] == "confirm"@);
    assert(words.len() == 9);
}

proof fn lemma_misnamed(link: Seq<char>)
    ensures
        misnamed(link) <==> context::contains_one_of(
            text::lowered(link),
            keywords::link_negative_keywords(),
        ),
{
    let l = text::lowered(link);
    let words = keywords::link_negative_keywords();
    assert(words[0] == "unsubscribe"@ && words[1] == "support"@ && words[2] == "help"@ && words[3]
        == "preferences"@);
    assert(words.len() == 4);
}

/// What a link scores, by its name and by what stands near it.
pub proof fn law_link_scores(lower_content: Seq<char>, link: Seq<char>)
    ensures
        links::link_score(lower_content, link) == match (
            named(link),
            announced(lower_content, link),
            misnamed(link),
            in_small_print(lower_content, link),
        ) {
            (true, true, false, false) => 440int,
            (true, true, false, true) => 280,
            (true, true, true, false) => 220,
            (true, true, true, true) => 60,
            (true, false, false, false) => 260,
            (true, false, false, true) => 100,
            (true, false, true, false) => 40,
            (true, false, true, true) => -120,
            (false, true, false, false) => 180,
            (false, true, false, true) => 20,
            (false, true, true, false) => -40,
            (false, true, true, true) => -200,
            (false, false, false, false) => -120,
            (false, false, false, true) => -280,
            (false, false, true, false) => -340,
            (false, false, true, true) => -500,
        },
{
    lemma_named(link);
    lemma_misnamed(link);
    assert(keywords::link_context_positive_keywords() =~= seq![
        "code"@,
        "otp"@,
        "passcode"@,
        "verification"@,
        "verify"@,
        "bestätigungscode"@,
        "bestaetigungscode"@,
        "authentication"@,
        "anmelden"@,
    ]);
    assert(keywords::link_context_negative_keywords() =~= seq![
        "unsubscribe"@,
        "privacy policy"@,
        "impressum"@,
    ]);
}

/// A link can be chosen: it is named like a verification link and announced,
/// and not both misnamed and in the small print; or one of the first two holds
/// and neither of the last.
pub open spec fn deserves_choice(content: Seq<char>, link: Seq<char>) -> bool {
    let lower = text::lowered(content);
    ||| {
        &&& named(link) && announced(lower, link)
        &&& !(misnamed(link) && in_small_print(lower, link))
    }
    ||| {
        &&& named(link) || announced(lower, link)
        &&& !misnamed(link) && !in_small_print(lower, link)
    }
}

/// A link is chosen exactly if some link of the text deserves it, and the one
/// that is chosen does.
pub proof fn law_a_deserving_link_is_chosen(content: Seq<char>)
    ensures
        links::verification_link(content) is Some <==> exists|k: int|
            0 <= k < links::extracted(content).len() && deserves_choice(
                content,
                #[trigger] links::extracted(content)[k],
            ),
        links::verification_link(content) matches Some(link) ==> deserves_choice(content, link),
{
    let found = links::extracted(content);
    links::law_verification_link_scores_best(content);
    assert forall|k: int| 0 <= k < found.len() implies deserves_choice(
        content,
        #[trigger] found[k],
    ) == (links::link_score(text::lowered(content), found[k]) >= 150) by {
        law_link_scores(text::lowered(content), found[k]);
    }
    if let Some(link) = links::verification_link(content) {
        law_link_scores(text::lowered(content), link);
        let k = choose|k: int| 0 <= k < found.len() && found[k] == link;
        assert(deserves_choice(content, found[k]));
    }
}

/// The link that is chosen scores at least as much as every link before it and
/// more than every link behind it.
pub proof fn law_the_last_of_the_best_links_is_chosen(content: Seq<char>)
    ensures
        links::verification_link(content) matches Some(link) ==> exists|best: int|
            0 <= best < links::extracted(content).len() && link == #[trigger] links::extracted(
                content,
            )[best] && (forall|k: int|
                0 <= k < best ==> links::link_score(
                    text::lowered(content),
                    #[trigger] links::extracted(content)[k],
                ) <= links::link_score(text::lowered(content), link)) && (forall|k: int|
                best < k < links::extracted(content).len() ==> links::link_score(
                    text::lowered(content),
                    #[trigger] links::extracted(content)[k],
                ) < links::link_score(text::lowered(content), link)),
{
    let found = links::extracted(content);
    let scores = links::link_scores(content);
    let lower = text::lowered(content);
    if let Some(link) = links::verification_link(content) {
        rank::lemma_last_best(scores);
        let best = rank::last_best(scores);
        assert(link == found[best]);
        assert forall|k: int| 0 <= k < best implies links::link_score(
            lower,
            #[trigger] found[k],
        ) <= links::link_score(lower, link) by {
            assert(scores[k] <= scores[best]);
        }
        assert forall|k: int| best < k < found.len() implies links::link_score(
            lower,
            #[trigger] found[k],
        ) < links::link_score(lower, link) by {
            assert(scores[k] < scores[best]);
        }
    }
}

} // verus!
