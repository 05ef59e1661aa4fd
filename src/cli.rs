//! Helpers for the command line: argument values and duration display.
use vstd::prelude::*;
use vstd::string::*;
use crate::text::{chars_of, decimal, i64_of, pad2, parse_i64, push_char, push_decimal, push_pad2};

pub use crate::date::{epoch_now, parse_timespan, Timespan};

verus! {

/// How durations are displayed.
#[derive(Clone, Copy, PartialEq, Eq, Structural, Debug)]
pub enum DurationStyle {
    /// `H:MM:SS`, `M:SS` or `S`.
    HMS,
    /// Plain seconds.
    S,
}

impl DurationStyle {
    /// The style that `s` names: `hms` or `s`.
    pub fn from_str(s: &str) -> (r: Result<DurationStyle, String>)
        ensures
            s@ == "hms"@ ==> r == Ok::<DurationStyle, String>(DurationStyle::HMS),
            s@ == "s"@ ==> r == Ok::<DurationStyle, String>(DurationStyle::S),
            r is Ok ==> s@ == "hms"@ || s@ == "s"@,
    {
        let cs = chars_of(s);
        proof {
            reveal_strlit("hms");
            reveal_strlit("s");
            assert("s"@.len() != "hms"@.len());
        }
        if crate::text::same_chars(&cs, "hms") {
            Ok(DurationStyle::HMS)
        } else if crate::text::same_chars(&cs, "s") {
            Ok(DurationStyle::S)
        } else {
            Err(String::from_str("Valid values are 'hms', 's'."))
        }
    }
}

/// A duration as displayed in `style`; negative durations are unknown (`?`).
pub open spec fn duration_text(style: DurationStyle, secs: int) -> Seq<char> {
    if secs < 0 {
        seq!['?']
    } else {
        match style {
            DurationStyle::HMS => {
                let h = secs / 3600;
                let m = secs % 3600 / 60;
                let s = secs % 60;
                if h > 0 {
                    decimal(h as nat) + seq![':'] + pad2(m as nat) + seq![':'] + pad2(s as nat)
                } else if m > 0 {
                    decimal(m as nat) + seq![':'] + pad2(s as nat)
                } else {
                    decimal(s as nat)
                }
            },
            DurationStyle::S => decimal(secs as nat),
        }
    }
}

/// Display a duration in seconds.
pub fn fmt_duration(style: DurationStyle, secs: i64) -> (r: String)
    ensures
        r@ == duration_text(style, secs as int),
{
    let mut out = String::new();
    if secs < 0 {
        push_char(&mut out, '?');
        return out;
    }
    let n = secs as u64;
    match style {
        DurationStyle::HMS => {
            let h = n / 3600;
            let m = n % 3600 / 60;
            let s = n % 60;
            if h > 0 {
                push_decimal(&mut out, h);
                push_char(&mut out, ':');
                push_pad2(&mut out, m);
                push_char(&mut out, ':');
                push_pad2(&mut out, s);
            } else if m > 0 {
                push_decimal(&mut out, m);
                push_char(&mut out, ':');
                push_pad2(&mut out, s);
            } else {
                push_decimal(&mut out, s);
            }
        },
        DurationStyle::S => {
            push_decimal(&mut out, n);
        },
    }
    assert(out@ =~= duration_text(style, secs as int));
    out
}

/// The value of an unsigned decimal: an optional `+`, then one or more digits.
pub open spec fn u16_of(s: Seq<char>) -> Option<u16> {
    if s.len() > 0 && s[0] == '-' {
        None
    } else {
        match i64_of(s) {
            Some(v) => if 0 <= v <= u16::MAX {
                Some(v as u16)
            } else {
                None
            },
            None => None,
        }
    }
}

/// The number of recent durations to use for predictions.
pub fn parse_limit(s: &str) -> (r: Result<u16, String>)
    ensures
        match u16_of(s@) {
            Some(v) => r == Ok::<u16, String>(v),
            None => r is Err,
        },
{
    let cs = chars_of(s);
    if cs.len() > 0 && cs[0] == '-' {
        return Err(String::from_str("Must be an integer between 0 and 65535"));
    }
    match parse_i64(s) {
        Some(v) => if 0 <= v && v <= 65535 {
            Ok(v as u16)
        } else {
            Err(String::from_str("Must be an integer between 0 and 65535"))
        },
        None => Err(String::from_str("Must be an integer between 0 and 65535")),
    }
}

/// Check that every character of `s` is one of `valid`; the first one that
/// is not is the error.
pub fn find_invalid(valid: &str, s: &str) -> (r: Result<(), String>)
    ensures
        match r {
            Ok(()) => forall|i: int| 0 <= i < s@.len() ==> valid@.contains(#[trigger] s@[i]),
            Err(e) => exists|i: int|
                0 <= i < s@.len() && !valid@.contains(s@[i]) && e@ == seq![s@[i]] && (forall|j: int|
                    0 <= j < i ==> valid@.contains(#[trigger] s@[j])),
        },
{
    let cs = chars_of(s);
    let vs = chars_of(valid);
    let mut i: usize = 0;
    while i < cs.len()
        invariant
            i <= cs@.len(),
            cs@ == s@,
            vs@ == valid@,
            forall|j: int| 0 <= j < i ==> valid@.contains(#[trigger] s@[j]),
        decreases cs@.len() - i,
    {
        let c = cs[i];
        let mut found = false;
        let mut k: usize = 0;
        while k < vs.len()
            invariant
                k <= vs@.len(),
                vs@ == valid@,
                found <==> exists|j: int| 0 <= j < k && vs@[j] == c,
            decreases vs@.len() - k,
        {
            if vs[k] == c {
                found = true;
            }
            k += 1;
        }
        if !found {
            let mut e = String::new();
            push_char(&mut e, c);
            assert(!valid@.contains(c));
            return Err(e);
        }
        i += 1;
    }
    Ok(())
}

} // verus!
