//! Quoted-printable escapes, as they occur in addresses of the web.
use crate::mini::MiniEnvelopes;
use crate::text;
use vstd::prelude::*;

verus! {

/// The value of a hexadecimal digit.
pub open spec fn hex_digit(c: char) -> Option<int> {
    if '0' <= c <= '9' {
        Some(c as int - '0' as int)
    } else if 'a' <= c <= 'f' {
        Some(10 + (c as int - 'a' as int))
    } else if 'A' <= c <= 'F' {
        Some(10 + (c as int - 'A' as int))
    } else {
        None
    }
}

/// The character that the escape at `i` stands for: `=` and two hexadecimal
/// digits that give a space or a visible ASCII character.
pub open spec fn escape_at(s: Seq<char>, i: int) -> Option<char> {
    if 0 <= i && i + 2 < s.len() && s[i] == '=' {
        match (hex_digit(s[i + 1]), hex_digit(s[i + 2])) {
            (Some(high), Some(low)) => {
                let code = 16 * high + low;
                if 0x20 <= code <= 0x7e {
                    Some(code as char)
                } else {
                    None
                }
            },
            _ => None,
        }
    } else {
        None
    }
}

/// The length of the soft line break at `i`: `=` before a line end. 0 where
/// there is none.
pub open spec fn soft_break_at(s: Seq<char>, i: int) -> int {
    if 0 <= i && i + 1 < s.len() && s[i] == '=' && s[i + 1] == '\n' {
        2
    } else if 0 <= i && i + 2 < s.len() && s[i] == '=' && s[i + 1] == '\r' && s[i + 2] == '\n' {
        3
    } else {
        0
    }
}

/// `s` from position `i` on with its escapes replaced by what they stand for
/// and its soft line breaks removed.
pub open spec fn decoded_from(s: Seq<char>, i: int) -> Seq<char>
    decreases s.len() - i,
{
    if i < 0 || i >= s.len() {
        Seq::empty()
    } else {
        match escape_at(s, i) {
            Some(c) => seq![c] + decoded_from(s, i + 3),
            None => if soft_break_at(s, i) > 0 {
                decoded_from(s, i + soft_break_at(s, i))
            } else {
                seq![s[i]] + decoded_from(s, i + 1)
            },
        }
    }
}

/// `s` with its escapes replaced by what they stand for and its soft line
/// breaks removed.
pub open spec fn decoded(s: Seq<char>) -> Seq<char> {
    decoded_from(s, 0)
}

/// Text without `=` holds no escape and stays as it is.
pub proof fn law_decoding_keeps_plain_text(s: Seq<char>)
    requires
        !s.contains('='),
    ensures
        decoded(s) == s,
{
    lemma_decoding_keeps_plain_text_from(s, 0);
    assert(s.skip(0) =~= s);
}

proof fn lemma_decoding_keeps_plain_text_from(s: Seq<char>, i: int)
    requires
        !s.contains('='),
        0 <= i <= s.len(),
    ensures
        decoded_from(s, i) == s.skip(i),
    decreases s.len() - i,
{
    if i < s.len() {
        lemma_decoding_keeps_plain_text_from(s, i + 1);
        assert(s[i] != '=');
        assert(seq![s[i]] + s.skip(i + 1) =~= s.skip(i));
    } else {
        assert(s.skip(i) =~= Seq::empty());
    }
}

/// Decoding never makes a text longer.
pub proof fn law_decoding_never_lengthens(s: Seq<char>)
    ensures
        decoded(s).len() <= s.len(),
{
    lemma_decoding_never_lengthens_from(s, 0);
}

proof fn lemma_decoding_never_lengthens_from(s: Seq<char>, i: int)
    requires
        0 <= i,
    ensures
        i <= s.len() ==> decoded_from(s, i).len() <= s.len() - i,
        i > s.len() ==> decoded_from(s, i).len() == 0,
    decreases s.len() - i,
{
    if i < s.len() {
        match escape_at(s, i) {
            Some(_) => {
                lemma_decoding_never_lengthens_from(s, i + 3);
            },
            None => {
                if soft_break_at(s, i) > 0 {
                    lemma_decoding_never_lengthens_from(s, i + soft_break_at(s, i));
                } else {
                    lemma_decoding_never_lengthens_from(s, i + 1);
                }
            },
        }
    }
}

fn hex_value(c: char) -> (value: Option<u8>)
    ensures
        match value {
            Some(v) => hex_digit(c) == Some(v as int) && v < 16,
            None => hex_digit(c) is None,
        },
{
    if '0' <= c && c <= '9' {
        Some(c as u8 - 48)
    } else if 'a' <= c && c <= 'f' {
        Some(10 + (c as u8 - 97))
    } else if 'A' <= c && c <= 'F' {
        Some(10 + (c as u8 - 65))
    } else {
        None
    }
}

/// The character that the escape at `i` stands for.
fn escape(s: &[char], i: usize) -> (decoded: Option<char>)
    requires
        i < s@.len(),
    ensures
        decoded == escape_at(s@, i as int),
{
    if s[i] == '=' && s.len() - i > 2 {
        if let (Some(high), Some(low)) = (hex_value(s[i + 1]), hex_value(s[i + 2])) {
            let code: u8 = 16 * high + low;
            if 0x20 <= code && code <= 0x7e {
                return Some(code as char);
            }
        }
    }
    None
}

/// The length of the soft line break at `i`.
fn soft_break(s: &[char], i: usize) -> (len: usize)
    requires
        i < s@.len(),
    ensures
        len == soft_break_at(s@, i as int),
        i + len <= s@.len(),
{
    if s[i] == '=' && s.len() - i > 1 && s[i + 1] == '\n' {
        2
    } else if s[i] == '=' && s.len() - i > 2 && s[i + 1] == '\r' && s[i + 2] == '\n' {
        3
    } else {
        0
    }
}

/// `s` with its escapes replaced by what they stand for and its soft line
/// breaks removed.
pub(crate) fn decode(s: &[char]) -> (out: Vec<char>)
    ensures
        out@ == decoded(s@),
{
    let mut out: Vec<char> = Vec::new();
    let mut i: usize = 0;
    while i < s.len()
        invariant
            i <= s@.len(),
            decoded(s@) == out@ + decoded_from(s@, i as int),
        decreases s@.len() - i,
    {
        if let Some(c) = escape(s, i) {
            out.push(c);
            i += 3;
        } else {
            let skipped: usize = soft_break(s, i);
            if skipped > 0 {
                i += skipped;
            } else {
                out.push(s[i]);
                i += 1;
            }
        }
    }
    out
}

impl MiniEnvelopes {
    /// `input` with its quoted-printable escapes decoded, as far as they stand
    /// for a space or a visible ASCII character, and its soft line breaks
    /// removed.
    pub fn decode_qp_urlish(input: &str) -> (out: String)
        ensures
            out@ == decoded(input@),
    {
        let chars = text::chars_of(input);
        text::string_of(decode(chars.as_slice()).as_slice())
    }
}

} // verus!
