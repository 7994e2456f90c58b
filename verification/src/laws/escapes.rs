//! Laws of decoding quoted-printable escapes.
use crate::quoted;
use vstd::prelude::*;

verus! {

/// `c` is the hexadecimal digit of the value `n`, in either case.
pub open spec fn writes(c: char, n: int) -> bool {
    &&& 0 <= n < 16
    &&& c == "0123456789abcdef"@[n] || c == "0123456789ABCDEF"@[n]
}

/// `b` goes on with two hexadecimal digits for a space or a visible character
/// of ASCII.
pub open spec fn goes_on_visibly(b: Seq<char>) -> bool {
    b.len() >= 2 && exists|high: int, low: int|
        #[trigger] writes(b[0], high) && #[trigger] writes(b[1], low) && ' ' as int <= 16 * high
            + low <= '~' as int
}

proof fn lemma_writes(c: char, n: int)
    ensures
        writes(c, n) <==> quoted::hex_digit(c) == Some(n),
{
    reveal_strlit("0123456789abcdef");
    reveal_strlit("0123456789ABCDEF");
}

proof fn lemma_decoded_shift(s: Seq<char>, i: int, j: int)
    requires
        0 <= i <= s.len(),
        0 <= j,
    ensures
        quoted::decoded_from(s, i + j) == quoted::decoded_from(s.skip(i), j),
    decreases s.len() - i - j,
{
    if i + j < s.len() {
        let t = s.skip(i);
        assert(t[j] == s[i + j]);
        if j + 1 < t.len() {
            assert(t[j + 1] == s[i + j + 1]);
        }
        if j + 2 < t.len() {
            assert(t[j + 2] == s[i + j + 2]);
        }
        assert(quoted::escape_at(s, i + j) == quoted::escape_at(t, j));
        assert(quoted::soft_break_at(s, i + j) == quoted::soft_break_at(t, j));
        match quoted::escape_at(t, j) {
            Some(_) => {
                lemma_decoded_shift(s, i, j + 3);
            },
            None => {
                if quoted::soft_break_at(t, j) > 0 {
                    lemma_decoded_shift(s, i, j + quoted::soft_break_at(t, j));
                } else {
                    lemma_decoded_shift(s, i, j + 1);
                }
            },
        }
    }
}

/// `=` and two hexadecimal digits for a space or a visible character of ASCII
/// stand for that character, whatever follows.
pub proof fn law_visible_escape_is_decoded(
    high: int,
    low: int,
    first: char,
    second: char,
    c: char,
    b: Seq<char>,
)
    requires
        writes(first, high),
        writes(second, low),
        c as int == 16 * high + low,
        ' ' <= c <= '~',
    ensures
        quoted::decoded(seq!['=', first, second] + b) == seq![c] + quoted::decoded(b),
{
    let s = seq!['=', first, second] + b;
    lemma_writes(first, high);
    lemma_writes(second, low);
    assert(s[0] == '=' && s[1] == first && s[2] == second);
    assert(quoted::escape_at(s, 0) == Some(c));
    lemma_decoded_shift(s, 3, 0);
    assert(s.skip(3) =~= b);
}

/// `=` before a line end joins two lines.
pub proof fn law_soft_break_is_removed(b: Seq<char>)
    ensures
        quoted::decoded("=\n"@ + b) == quoted::decoded(b),
        quoted::decoded("=\r\n"@ + b) == quoted::decoded(b),
{
    reveal_strlit("=\n");
    reveal_strlit("=\r\n");
    let short = "=\n"@ + b;
    assert(short[0] == '=' && short[1] == '\n');
    lemma_decoded_shift(short, 2, 0);
    assert(short.skip(2) =~= b);
    let long = "=\r\n"@ + b;
    assert(long[0] == '=' && long[1] == '\r' && long[2] == '\n');
    lemma_decoded_shift(long, 3, 0);
    assert(long.skip(3) =~= b);
}

/// Any other character stays: all but `=`, and `=` before anything else.
pub proof fn law_other_characters_stay(c: char, b: Seq<char>)
    requires
        c == '=' ==> !goes_on_visibly(b) && !"\n"@.is_prefix_of(b) && !"\r\n"@.is_prefix_of(b),
    ensures
        quoted::decoded(seq![c] + b) == seq![c] + quoted::decoded(b),
{
    reveal_strlit("\n");
    reveal_strlit("\r\n");
    let s = seq![c] + b;
    assert(s[0] == c);
    if c == '=' {
        if b.len() > 0 {
            assert(s[1] == b[0]);
            if b[0] == '\n' {
                assert("\n"@ =~= b.subrange(0, 1));
            }
        }
        if b.len() > 1 {
            assert(s[2] == b[1]);
            if b[0] == '\r' && b[1] == '\n' {
                assert("\r\n"@ =~= b.subrange(0, 2));
            }
            if let (Some(high), Some(low)) = (quoted::hex_digit(b[0]), quoted::hex_digit(b[1])) {
                lemma_writes(b[0], high);
                lemma_writes(b[1], low);
            }
        }
    }
    assert(quoted::escape_at(s, 0) is None);
    assert(quoted::soft_break_at(s, 0) == 0);
    lemma_decoded_shift(s, 1, 0);
    assert(s.skip(1) =~= b);
}

} // verus!
