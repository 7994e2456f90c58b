//! The words by which links and codes are told apart.
use crate::text;
use vstd::prelude::*;

verus! {

/// Words in a link that speak for it.
pub open spec fn link_positive_keywords() -> Seq<Seq<char>> {
    seq![
        "magic-link"@,
        "magiclink"@,
        "verify"@,
        "verification"@,
        "signin"@,
        "sign-in"@,
        "login"@,
        "auth"@,
        "confirm"@,
    ]
}

/// Words in a link that speak against it.
pub open spec fn link_negative_keywords() -> Seq<Seq<char>> {
    seq!["unsubscribe"@, "support"@, "help"@, "preferences"@]
}

/// Words near a link that speak for it.
pub open spec fn link_context_positive_keywords() -> Seq<Seq<char>> {
    seq![
        "code"@,
        "otp"@,
        "passcode"@,
        "verification"@,
        "verify"@,
        "bestätigungscode"@,
        "bestaetigungscode"@,
        "authentication"@,
        "anmelden"@,
    ]
}

/// Words near a link that speak against it.
pub open spec fn link_context_negative_keywords() -> Seq<Seq<char>> {
    seq!["unsubscribe"@, "privacy policy"@, "impressum"@]
}

/// Words near a code that speak for it.
pub open spec fn code_context_keywords() -> Seq<Seq<char>> {
    seq![
        "code"@,
        "otp"@,
        "passcode"@,
        "verification"@,
        "verify"@,
        "bestätigungscode"@,
        "bestaetigungscode"@,
        "authentication"@,
        "sudo authentication"@,
    ]
}

pub(crate) fn list_link_positive_keywords() -> (list: Vec<&'static str>)
    ensures
        text::str_views(list@) == link_positive_keywords(),
{
    let list: Vec<&'static str> =
        vec![
        "magic-link",
        "magiclink",
        "verify",
        "verification",
        "signin",
        "sign-in",
        "login",
        "auth",
        "confirm",
    ];
    proof {
        assert(text::str_views(list@) =~= link_positive_keywords());
    }
    list
}

pub(crate) fn list_link_negative_keywords() -> (list: Vec<&'static str>)
    ensures
        text::str_views(list@) == link_negative_keywords(),
{
    let list: Vec<&'static str> = vec!["unsubscribe", "support", "help", "preferences"];
    proof {
        assert(text::str_views(list@) =~= link_negative_keywords());
    }
    list
}

pub(crate) fn list_link_context_positive_keywords() -> (list: Vec<&'static str>)
    ensures
        text::str_views(list@) == link_context_positive_keywords(),
{
    let list: Vec<&'static str> =
        vec![
        "code",
        "otp",
        "passcode",
        "verification",
        "verify",
        "bestätigungscode",
        "bestaetigungscode",
        "authentication",
        "anmelden",
    ];
    proof {
        assert(text::str_views(list@) =~= link_context_positive_keywords());
    }
    list
}

pub(crate) fn list_link_context_negative_keywords() -> (list: Vec<&'static str>)
    ensures
        text::str_views(list@) == link_context_negative_keywords(),
{
    let list: Vec<&'static str> = vec!["unsubscribe", "privacy policy", "impressum"];
    proof {
        assert(text::str_views(list@) =~= link_context_negative_keywords());
    }
    list
}

pub(crate) fn list_code_context_keywords() -> (list: Vec<&'static str>)
    ensures
        text::str_views(list@) == code_context_keywords(),
{
    let list: Vec<&'static str> =
        vec![
        "code",
        "otp",
        "passcode",
        "verification",
        "verify",
        "bestätigungscode",
        "bestaetigungscode",
        "authentication",
        "sudo authentication",
    ];
    proof {
        assert(text::str_views(list@) =~= code_context_keywords());
    }
    list
}

} // verus!
