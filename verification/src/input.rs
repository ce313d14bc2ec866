//! Control-surface validation: turning the popup's raw text buffers into a
//! mapping, or an error message, before any table or file mutation.
use vstd::prelude::*;
use vstd::string::*;
use crate::app::{Mapping, MappingModel, MappingStatus, TuiState};
use crate::hosts::text::{trim_spec, trim_str};
use crate::proxy::{lower_seq, to_ascii_lower};

verus! {

/// Result of processing a key event.
#[derive(Debug, Clone, Copy, PartialEq, Eq, Structural)]
pub enum InputResult {
    /// Continue running
    Continue,
    /// User wants to quit
    Quit,
}

pub open spec fn is_digit(c: char) -> bool {
    48 <= c as u32 <= 57
}

pub open spec fn digit_val(c: char) -> int {
    c as u32 - 48
}

pub open spec fn all_digits(s: Seq<char>) -> bool {
    forall|i: int| 0 <= i < s.len() ==> is_digit(#[trigger] s[i])
}

/// The number a digit string stands for.
pub open spec fn digits_val(s: Seq<char>) -> int
    decreases s.len(),
{
    if s.len() == 0 {
        0
    } else {
        digits_val(s.drop_last()) * 10 + digit_val(s.last())
    }
}

/// What `u16` parsing accepts: an optional leading plus sign, then at
/// least one decimal digit, with the value in range.
pub open spec fn parse_u16_spec(s: Seq<char>) -> Option<u16> {
    let t = if s.len() > 0 && s[0] == '+' {
        s.drop_first()
    } else {
        s
    };
    if t.len() > 0 && all_digits(t) && digits_val(t) <= 65535 {
        Some(digits_val(t) as u16)
    } else {
        None
    }
}

pub proof fn lemma_digits_val_nonneg(s: Seq<char>)
    requires
        all_digits(s),
    ensures
        digits_val(s) >= 0,
    decreases s.len(),
{
    if s.len() > 0 {
        assert(is_digit(s[s.len() - 1]));
        assert(forall|i: int| 0 <= i < s.drop_last().len() ==> is_digit(#[trigger] s.drop_last()[i]));
        lemma_digits_val_nonneg(s.drop_last());
    }
}

/// More digits never shrink the value.
pub proof fn lemma_digits_val_prefix(s: Seq<char>, k: int)
    requires
        all_digits(s),
        0 <= k <= s.len(),
    ensures
        digits_val(s.take(k)) <= digits_val(s),
    decreases s.len() - k,
{
    if k < s.len() {
        assert(s.take(k + 1).drop_last() =~= s.take(k));
        assert(s.take(k + 1).last() == s[k]);
        assert(forall|i: int| 0 <= i < s.take(k).len() ==> is_digit(#[trigger] s.take(k)[i]));
        lemma_digits_val_nonneg(s.take(k));
        assert(digits_val(s.take(k + 1)) == digits_val(s.take(k)) * 10 + digit_val(s[k]));
        assert(digits_val(s.take(k)) <= digits_val(s.take(k + 1)));
        lemma_digits_val_prefix(s, k + 1);
    } else {
        assert(s.take(k) =~= s);
    }
}

/// Parse a port number exactly as `u16` text parsing would.
pub fn parse_port(s: &str) -> (r: Option<u16>)
    ensures
        r == parse_u16_spec(s@),
{
    let n = s.unicode_len();
    let mut start: usize = 0;
    if n > 0 && s.get_char(0) == '+' {
        start = 1;
    }
    let ghost t = if s@.len() > 0 && s@[0] == '+' {
        s@.drop_first()
    } else {
        s@
    };
    proof {
        assert(t =~= s@.skip(start as int));
    }
    if start == n {
        return None;
    }
    let mut acc: u32 = 0;
    let mut j: usize = start;
    proof {
        assert(t.take(0) =~= Seq::<char>::empty());
    }
    while j < n
        invariant
            n == s@.len(),
            start <= j <= n,
            t == s@.skip(start as int),
            t == (if s@.len() > 0 && s@[0] == '+' {
                s@.drop_first()
            } else {
                s@
            }),
            t.len() == n - start,
            all_digits(t.take(j - start as int)),
            digits_val(t.take(j - start as int)) == acc as int,
            acc <= 65535,
        decreases n - j,
    {
        let c = s.get_char(j);
        let u = c as u32;
        proof {
            assert(t[j - start as int] == s@[j as int]);
        }
        if u < 48 || u > 57 {
            proof {
                assert(!is_digit(t[j - start as int]));
            }
            return None;
        }
        let d = u - 48;
        let acc2 = acc * 10 + d;
        proof {
            assert(t.take(j - start + 1).drop_last() =~= t.take(j - start as int));
            assert(t.take(j - start + 1).last() == t[j - start as int]);
            assert(forall|i: int|
                0 <= i < j - start + 1 ==> is_digit(#[trigger] t.take(j - start + 1)[i]));
            assert(digits_val(t.take(j - start + 1)) == acc2 as int);
        }
        if acc2 > 65535 {
            proof {
                if all_digits(t) && digits_val(t) <= 65535 {
                    lemma_digits_val_prefix(t, j - start + 1);
                    assert(false);
                }
            }
            return None;
        }
        acc = acc2;
        j = j + 1;
    }
    proof {
        assert(t.take(n - start as int) =~= t);
        assert(parse_u16_spec(s@) == Some(acc as u16));
    }
    Some(acc as u16)
}

/// A character a validated domain may contain, after lowercasing.
pub open spec fn is_domain_char(c: char) -> bool {
    is_digit(c) || (65 <= c as u32 <= 90) || (97 <= c as u32 <= 122) || c == '-'
}

pub open spec fn all_domain_chars(s: Seq<char>) -> bool {
    forall|i: int| 0 <= i < s.len() ==> is_domain_char(#[trigger] s[i])
}

/// Validation of the popup buffers: trim and lowercase the domain base,
/// refuse an empty one, a character outside letters, digits and hyphens, or
/// a leading or trailing hyphen; then the port must parse and be non-zero.
/// Success binds `<base>.localhost` to the port with status not yet known.
pub open spec fn validate_spec(d: Seq<char>, p: Seq<char>) -> Result<MappingModel, Seq<char>> {
    let base = lower_seq(trim_spec(d));
    if base.len() == 0 {
        Result::Err("Domain cannot be empty"@)
    } else if !all_domain_chars(base) {
        Result::Err("Domain can only contain letters, numbers, and hyphens"@)
    } else if base[0] == '-' || base[base.len() - 1] == '-' {
        Result::Err("Domain cannot start or end with a hyphen"@)
    } else {
        match parse_u16_spec(trim_spec(p)) {
            None => Result::Err("Port must be a number between 1 and 65535"@),
            Some(port) => {
                if port == 0 {
                    Result::Err("Port must be between 1 and 65535"@)
                } else {
                    Result::Ok(
                        MappingModel {
                            domain: base + ".localhost"@,
                            port,
                            status: MappingStatus::Unknown,
                        },
                    )
                }
            },
        }
    }
}

/// A validated mapping's domain is non-empty and free of whitespace and
/// newlines, so binding it through the hosts manager keeps the managed
/// entries well-formed and round-trippable.
pub proof fn lemma_validated_domain_clean(d: Seq<char>, p: Seq<char>)
    ensures
        validate_spec(d, p) matches Ok(m) ==> m.domain.len() > 0 && forall|i: int|
            0 <= i < m.domain.len() ==> !crate::hosts::text::is_ws(#[trigger] m.domain[i])
                && m.domain[i] != '\n',
{
    if validate_spec(d, p) is Ok {
        let base = lower_seq(trim_spec(d));
        let m = validate_spec(d, p)->Ok_0;
        reveal_strlit(".localhost");
        assert(m.domain == base + ".localhost"@);
        assert forall|i: int| 0 <= i < m.domain.len() implies !crate::hosts::text::is_ws(
            #[trigger] m.domain[i],
        ) && m.domain[i] != '\n' by {
            if i < base.len() {
                assert(m.domain[i] == base[i]);
                assert(is_domain_char(base[i]));
            } else {
                assert(m.domain[i] == ".localhost"@[i - base.len()]);
            }
        }
    }
}

/// Validate and create a mapping from the current popup input.
/// Returns the mapping or the error message to show.
pub fn validate_input(state: &TuiState) -> (r: Result<Mapping, String>)
    ensures
        match r {
            Ok(m) => validate_spec(state.domain_input@, state.port_input@) == Result::<
                MappingModel,
                Seq<char>,
            >::Ok(m@),
            Err(e) => validate_spec(state.domain_input@, state.port_input@) == Result::<
                MappingModel,
                Seq<char>,
            >::Err(e@),
        },
{
    let trimmed = trim_str(state.domain_input.as_str());
    let base = to_ascii_lower(trimmed);
    let blen = base.as_str().unicode_len();
    if blen == 0 {
        return Err("Domain cannot be empty".to_owned());
    }
    let mut i: usize = 0;
    while i < blen
        invariant
            blen == base@.len(),
            blen > 0,
            base@ == lower_seq(trim_spec(state.domain_input@)),
            0 <= i <= blen,
            forall|k: int| 0 <= k < i ==> is_domain_char(#[trigger] base@[k]),
        decreases blen - i,
    {
        let c = base.as_str().get_char(i);
        let u = c as u32;
        let is_ok = (48 <= u && u <= 57) || (65 <= u && u <= 90) || (97 <= u && u <= 122) || c
            == '-';
        if !is_ok {
            proof {
                assert(!is_domain_char(base@[i as int]));
            }
            return Err("Domain can only contain letters, numbers, and hyphens".to_owned());
        }
        i = i + 1;
    }
    if base.as_str().get_char(0) == '-' || base.as_str().get_char(blen - 1) == '-' {
        return Err("Domain cannot start or end with a hyphen".to_owned());
    }
    let ptrim = trim_str(state.port_input.as_str());
    match parse_port(ptrim) {
        None => Err("Port must be a number between 1 and 65535".to_owned()),
        Some(port) => {
            if port == 0 {
                Err("Port must be between 1 and 65535".to_owned())
            } else {
                let mut domain = base;
                domain.append(".localhost");
                Ok(Mapping { domain, port, status: MappingStatus::Unknown })
            }
        },
    }
}

} // verus!
