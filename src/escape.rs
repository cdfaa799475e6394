use vstd::prelude::*;

use crate::parse::TokenParseError;
use crate::text::{char_from_code, string_of};

verus! {

/// A decoded string, or why decoding failed.
pub type Decoded = Result<Seq<char>, TokenParseError>;

pub open spec fn is_hex_digit(c: char) -> bool {
    ('0' <= c && c <= '9') || ('a' <= c && c <= 'f') || ('A' <= c && c <= 'F')
}

/// The value of a hexadecimal digit.
pub open spec fn hex_value(c: char) -> nat {
    if '0' <= c && c <= '9' {
        (c as u32 - '0' as u32) as nat
    } else if 'a' <= c && c <= 'f' {
        (c as u32 - 'a' as u32 + 10) as nat
    } else {
        (c as u32 - 'A' as u32 + 10) as nat
    }
}

/// The number that the first `k` hexadecimal digits from `i` spell; the first
/// position that is missing or holds no hex digit decides the error.
pub open spec fn hex_run(cs: Seq<char>, i: int, k: nat) -> Result<nat, TokenParseError>
    decreases k,
{
    if k == 0 {
        Ok(0)
    } else {
        match hex_run(cs, i, (k - 1) as nat) {
            Err(e) => Err(e),
            Ok(v) => {
                let p = i + k - 1;
                if p < 0 || p >= cs.len() {
                    Err(TokenParseError::UnfinishedEscape)
                } else if !is_hex_digit(cs[p]) {
                    Err(TokenParseError::InvalidHexValue)
                } else {
                    Ok(v * 16 + hex_value(cs[p]))
                }
            },
        }
    }
}

/// Whether `n` is a Unicode scalar value: a code point that is no surrogate.
pub open spec fn is_scalar_value(n: nat) -> bool {
    n < 0xD800 || (0xE000 <= n && n <= 0x10FFFF)
}

/// The character that a one-character escape `\e` stands for; an unknown escaped
/// character stands for itself.
pub open spec fn escaped_char(e: char) -> char {
    if e == 'b' {
        '\u{8}'
    } else if e == 'f' {
        '\u{c}'
    } else if e == 'n' {
        '\n'
    } else if e == 'r' {
        '\r'
    } else if e == 't' {
        '\t'
    } else {
        e
    }
}

/// `c` in front of a decoded string; an error unchanged.
pub open spec fn prefix_char(c: char, r: Decoded) -> Decoded {
    match r {
        Ok(s) => Ok(seq![c] + s),
        Err(e) => Err(e),
    }
}

/// The decoding of `cs` from position `i` on.
pub open spec fn unescape_from(cs: Seq<char>, i: int) -> Decoded
    decreases cs.len() - i,
{
    if i < 0 || i >= cs.len() {
        Ok(Seq::empty())
    } else if cs[i] != '\\' {
        prefix_char(cs[i], unescape_from(cs, i + 1))
    } else if i + 1 >= cs.len() {
        Err(TokenParseError::UnfinishedEscape)
    } else if cs[i + 1] == 'u' {
        match hex_run(cs, i + 2, 4) {
            Err(e) => Err(e),
            Ok(n) => if is_scalar_value(n) {
                prefix_char((n as u32) as char, unescape_from(cs, i + 6))
            } else {
                Err(TokenParseError::InvalidCodePointValue)
            },
        }
    } else {
        prefix_char(escaped_char(cs[i + 1]), unescape_from(cs, i + 2))
    }
}

/// The text that the raw body of a string literal stands for.
pub open spec fn unescape(cs: Seq<char>) -> Decoded {
    unescape_from(cs, 0)
}

proof fn lemma_hex_run_err(cs: Seq<char>, i: int, a: nat, b: nat)
    requires
        a <= b,
        hex_run(cs, i, a) is Err,
    ensures
        hex_run(cs, i, b) == hex_run(cs, i, a),
    decreases b - a,
{
    if a < b {
        lemma_hex_run_err(cs, i, a, (b - 1) as nat);
    }
}

fn hex_digit(c: char) -> (r: Option<u32>)
    ensures
        match r {
            Some(d) => is_hex_digit(c) && d == hex_value(c) && d < 16,
            None => !is_hex_digit(c),
        },
{
    if '0' <= c && c <= '9' {
        Some(c as u32 - '0' as u32)
    } else if 'a' <= c && c <= 'f' {
        Some(c as u32 - 'a' as u32 + 10)
    } else if 'A' <= c && c <= 'F' {
        Some(c as u32 - 'A' as u32 + 10)
    } else {
        None
    }
}

/// Reads the four hexadecimal digits of a `\u` escape from `start` on.
fn read_hex4(cs: &Vec<char>, start: usize) -> (r: Result<u32, TokenParseError>)
    ensures
        match r {
            Ok(n) => hex_run(cs@, start as int, 4) == Result::<nat, TokenParseError>::Ok(
                n as nat,
            ) && n < 0x10000 && start + 4 <= cs.len(),
            Err(e) => hex_run(cs@, start as int, 4) == Result::<nat, TokenParseError>::Err(e),
        },
{
    let mut sum: u32 = 0;
    let mut k: usize = 0;
    while k < 4
        invariant
            k <= 4,
            hex_run(cs@, start as int, k as nat) == Result::<nat, TokenParseError>::Ok(
                sum as nat,
            ),
            k == 0 ==> sum == 0,
            k == 1 ==> sum < 0x10,
            k == 2 ==> sum < 0x100,
            k == 3 ==> sum < 0x1000,
            k == 4 ==> sum < 0x10000,
            k > 0 ==> start + k <= cs.len(),
        decreases 4 - k,
    {
        if start >= cs.len() || k >= cs.len() - start {
            proof {
                lemma_hex_run_err(cs@, start as int, (k + 1) as nat, 4);
            }
            return Err(TokenParseError::UnfinishedEscape);
        }
        match hex_digit(cs[start + k]) {
            Some(d) => {
                sum = sum * 16 + d;
            },
            None => {
                proof {
                    lemma_hex_run_err(cs@, start as int, (k + 1) as nat, 4);
                }
                return Err(TokenParseError::InvalidHexValue);
            },
        }
        k = k + 1;
    }
    Ok(sum)
}

/// `p` in front of a decoded string; an error unchanged.
pub open spec fn prefix(p: Seq<char>, r: Decoded) -> Decoded {
    match r {
        Ok(s) => Ok(p + s),
        Err(e) => Err(e),
    }
}

/// Decodes the escape sequences in the raw body of a string literal.
pub fn unescape_chars(cs: &Vec<char>) -> (r: Result<String, TokenParseError>)
    ensures
        match r {
            Ok(s) => unescape(cs@) == Decoded::Ok(s@),
            Err(e) => unescape(cs@) == Decoded::Err(e),
        },
{
    let n = cs.len();
    let mut out: Vec<char> = Vec::new();
    let mut k: usize = 0;
    while k < n
        invariant
            n == cs.len(),
            k <= n,
            unescape(cs@) == prefix(out@, unescape_from(cs@, k as int)),
        decreases n - k,
    {
        let c = cs[k];
        let ghost before = out@;
        if c != '\\' {
            out.push(c);
            k = k + 1;
            proof {
                assert(before + (seq![c] + unescape_from(cs@, k as int)->Ok_0) =~= out@
                    + unescape_from(cs@, k as int)->Ok_0);
            }
        } else if k + 1 >= n {
            return Err(TokenParseError::UnfinishedEscape);
        } else if cs[k + 1] == 'u' {
            let code = match read_hex4(cs, k + 2) {
                Ok(v) => v,
                Err(e) => return Err(e),
            };
            match char_from_code(code) {
                Some(ch) => {
                    out.push(ch);
                    k = k + 6;
                    proof {
                        assert(before + (seq![ch] + unescape_from(cs@, k as int)->Ok_0) =~= out@
                            + unescape_from(cs@, k as int)->Ok_0);
                    }
                },
                None => return Err(TokenParseError::InvalidCodePointValue),
            }
        } else {
            let e = cs[k + 1];
            let ch = if e == 'b' {
                '\u{8}'
            } else if e == 'f' {
                '\u{c}'
            } else if e == 'n' {
                '\n'
            } else if e == 'r' {
                '\r'
            } else if e == 't' {
                '\t'
            } else {
                e
            };
            out.push(ch);
            k = k + 2;
            proof {
                assert(before + (seq![ch] + unescape_from(cs@, k as int)->Ok_0) =~= out@
                    + unescape_from(cs@, k as int)->Ok_0);
            }
        }
    }
    proof {
        assert(out@ + Seq::empty() =~= out@);
    }
    Ok(string_of(out.as_slice()))
}

} // verus!
