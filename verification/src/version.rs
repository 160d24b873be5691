//! Nurfile format versions: a `major.minor` pair parsed from and rendered to
//! decimal text.

use vstd::prelude::*;
use vstd::string::StrSliceExecFns;
use vstd::string::StringExecFns;

use crate::text::u32_to_string;
use crate::text::udec_seq;

verus! {

#[derive(PartialEq, Eq, PartialOrd, Ord, Debug, Copy, Clone, Structural)]
pub struct Version {
    pub major: u32,
    pub minor: u32,
}

#[derive(PartialEq, Eq, Debug, Copy, Clone, Structural)]
pub enum ParseVersionError {
    /// The text has no `.` separating major from minor.
    MissingDot,
    /// One of the two parts is not a 32-bit number's text: an optional
    /// `+`, then its decimal digits.
    InvalidNumber,
}

/// The newest nurfile format version this library understands.
pub fn current_file_version() -> (v: Version)
    ensures
        v == (Version { major: 0u32, minor: 1u32 }),
{
    Version { major: 0, minor: 1 }
}

pub open spec fn is_dec_digit(c: char) -> bool {
    48 <= c as int <= 57
}

pub open spec fn digit_val(c: char) -> nat {
    (c as int - 48) as nat
}

/// Value of a decimal digit string, most significant digit first.
pub open spec fn dec_val(s: Seq<char>) -> nat
    decreases s.len(),
{
    if s.len() == 0 {
        0
    } else {
        dec_val(s.drop_last()) * 10 + digit_val(s.last())
    }
}

pub open spec fn all_dec_digits(s: Seq<char>) -> bool {
    forall|i: int| 0 <= i < s.len() ==> is_dec_digit(#[trigger] s[i])
}

/// The text of a number a `u32` can hold: non-empty, digits only, in range.
pub open spec fn valid_u32_digits(s: Seq<char>) -> bool {
    s.len() > 0 && all_dec_digits(s) && dec_val(s) <= u32::MAX
}

/// The text with one leading `+` removed, if there is one — `u32` parsing
/// accepts such a sign.
pub open spec fn strip_sign(s: Seq<char>) -> Seq<char> {
    if s.len() > 0 && s[0] == '+' {
        s.drop_first()
    } else {
        s
    }
}

/// The text `u32` parsing accepts: an optional `+`, then the digits of a
/// number a `u32` can hold.
pub open spec fn valid_u32_text(s: Seq<char>) -> bool {
    valid_u32_digits(strip_sign(s))
}

/// Index of the first `.` in `s`, or `s.len()` if there is none.
pub open spec fn first_dot(s: Seq<char>) -> int
    decreases s.len(),
{
    if s.len() == 0 {
        0
    } else if s[0] == '.' {
        0
    } else {
        1 + first_dot(s.drop_first())
    }
}

proof fn lemma_first_dot_at(s: Seq<char>, i: int)
    requires
        0 <= i <= s.len(),
        forall|j: int| 0 <= j < i ==> s[j] != '.',
        i == s.len() || s[i] == '.',
    ensures
        first_dot(s) == i,
    decreases i,
{
    if s.len() == 0 {
    } else if i == 0 {
    } else {
        assert(s[0] != '.');
        let t = s.drop_first();
        assert(forall|j: int| 0 <= j < i - 1 ==> t[j] != '.');
        assert(i - 1 == t.len() || t[i - 1] == '.');
        lemma_first_dot_at(t, i - 1);
    }
}

/// A longer digit string never has a smaller value than its prefix.
proof fn lemma_dec_val_prefix(s: Seq<char>, k: int)
    requires
        0 <= k <= s.len(),
    ensures
        dec_val(s) >= dec_val(s.subrange(0, k)),
    decreases s.len() - k,
{
    if k == s.len() {
        assert(s.subrange(0, k) =~= s);
    } else {
        lemma_dec_val_prefix(s, k + 1);
        let t = s.subrange(0, k + 1);
        assert(t.drop_last() =~= s.subrange(0, k));
        assert(dec_val(t) == dec_val(s.subrange(0, k)) * 10 + digit_val(t.last()));
    }
}

/// Position of the first `.` in `s`, or the length of `s` if there is none.
fn find_dot(s: &str) -> (r: usize)
    ensures
        r as int == first_dot(s@),
        r <= s@.len(),
{
    let n = s.unicode_len();
    let mut i: usize = 0;
    while i < n
        invariant
            0 <= i <= n,
            n == s@.len(),
            forall|j: int| 0 <= j < i ==> s@[j] != '.',
        decreases n - i,
    {
        let c = s.get_char(i);
        if c == '.' {
            proof {
                lemma_first_dot_at(s@, i as int);
            }
            return i;
        }
        i = i + 1;
    }
    proof {
        lemma_first_dot_at(s@, i as int);
    }
    i
}

/// Parses `s[from..to]` as a `u32` — an optional leading `+`, then decimal
/// digits; `None` exactly when the range is not such a number's text.
fn parse_u32_part(s: &str, from: usize, to: usize) -> (r: Option<u32>)
    requires
        from <= to <= s@.len(),
    ensures
        match r {
            Some(v) => valid_u32_text(s@.subrange(from as int, to as int)) && v as nat == dec_val(
                strip_sign(s@.subrange(from as int, to as int)),
            ),
            None => !valid_u32_text(s@.subrange(from as int, to as int)),
        },
{
    let ghost part = s@.subrange(from as int, to as int);
    if from == to {
        proof {
            assert(strip_sign(part) =~= part);
        }
        return None;
    }
    let c0 = s.get_char(from);
    let start = if c0 == '+' {
        from + 1
    } else {
        from
    };
    let ghost whole = s@.subrange(start as int, to as int);
    proof {
        assert(part[0] == c0);
        assert(strip_sign(part) =~= whole);
    }
    if start == to {
        return None;
    }
    let mut val: u64 = 0;
    let mut i: usize = start;
    while i < to
        invariant
            start <= i <= to <= s@.len(),
            part == s@.subrange(from as int, to as int),
            whole == s@.subrange(start as int, to as int),
            strip_sign(part) == whole,
            all_dec_digits(s@.subrange(start as int, i as int)),
            val as nat == dec_val(s@.subrange(start as int, i as int)),
            val <= u32::MAX as u64,
        decreases to - i,
    {
        let c = s.get_char(i);
        let cv = c as u32;
        if cv < 48 || cv > 57 {
            proof {
                assert(whole[i - start] == c);
            }
            return None;
        }
        let d: u64 = (cv - 48) as u64;
        let nv: u64 = val * 10 + d;
        proof {
            let p = s@.subrange(start as int, (i + 1) as int);
            assert(p.drop_last() =~= s@.subrange(start as int, i as int));
            assert(p.last() == c);
        }
        if nv > u32::MAX as u64 {
            proof {
                lemma_dec_val_prefix(whole, i + 1 - start);
                assert(whole.subrange(0, i + 1 - start) =~= s@.subrange(
                    start as int,
                    (i + 1) as int,
                ));
            }
            return None;
        }
        val = nv;
        i = i + 1;
    }
    proof {
        assert(s@.subrange(start as int, i as int) =~= whole);
    }
    Some(val as u32)
}

impl Version {
    /// Parses `major.minor`, splitting at the first `.`.
    pub fn parse(s: &str) -> (r: Result<Version, ParseVersionError>)
        ensures
            ({
                let sv = s@;
                let dot = first_dot(sv);
                let maj = sv.subrange(0, dot);
                let min = sv.subrange(dot + 1, sv.len() as int);
                &&& (r matches Err(e) && e == ParseVersionError::MissingDot <==> dot == sv.len())
                &&& (r matches Ok(v) ==> dot < sv.len() && valid_u32_text(maj)
                    && valid_u32_text(min) && v.major as nat == dec_val(strip_sign(maj))
                    && v.minor as nat == dec_val(strip_sign(min)))
                &&& (dot < sv.len() && valid_u32_text(maj) && valid_u32_text(min) ==> r is Ok)
            }),
    {
        let n = s.unicode_len();
        let i = find_dot(s);
        if i == n {
            return Err(ParseVersionError::MissingDot);
        }
        let major = match parse_u32_part(s, 0, i) {
            Some(v) => v,
            None => {
                return Err(ParseVersionError::InvalidNumber);
            },
        };
        let minor = match parse_u32_part(s, i + 1, n) {
            Some(v) => v,
            None => {
                return Err(ParseVersionError::InvalidNumber);
            },
        };
        Ok(Version { major, minor })
    }

    /// Renders the version as `major.minor`.
    pub fn render(&self) -> (r: String)
        ensures
            r@ == udec_seq(self.major as nat) + seq!['.'] + udec_seq(self.minor as nat),
    {
        let mut s = u32_to_string(self.major);
        s.append(".");
        s.append(u32_to_string(self.minor).as_str());
        proof {
            reveal_strlit(".");
            assert(s@ =~= udec_seq(self.major as nat) + seq!['.'] + udec_seq(self.minor as nat));
        }
        s
    }
}

impl core::str::FromStr for Version {
    type Err = ParseVersionError;

    fn from_str(s: &str) -> Result<Self, Self::Err> {
        Version::parse(s)
    }
}

} // verus!
