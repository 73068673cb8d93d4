//! Reading the service's settings from the values of its environment
//! variables. The application reads the variables; the values are
//! judged here.

use vstd::prelude::*;
use vstd::string::{StringExecFns, StringSliceAdditionalSpecFns};

use crate::text::{
    eq_ignore_ascii_case, eq_ignore_case_spec, split_commas, split_on_commas, str_eq, trim,
    trim_spec,
};

verus! {

/// The value of a string of decimal digits.
pub open spec fn decimal_value(d: Seq<char>) -> int
    decreases d.len(),
{
    if d.len() == 0 {
        0
    } else {
        decimal_value(d.drop_last()) * 10 + (d.last() as int - '0' as int)
    }
}

/// The digits of an unsigned number as `str::parse::<u64>` reads them: an
/// optional leading `+`, then the rest.
pub open spec fn unsigned_digits(s: Seq<char>) -> Seq<char> {
    if s.len() > 0 && s[0] == '+' {
        s.drop_first()
    } else {
        s
    }
}

/// What `s.parse::<u64>()` gives: the number when `s` is an optional `+`
/// followed by at least one ASCII digit and nothing else, and the number is
/// below 2^64; otherwise nothing (a `-` sign, whitespace, an empty string
/// and an overflow are all errors).
pub open spec fn parse_u64_spec(s: Seq<char>) -> Option<u64> {
    let d = unsigned_digits(s);
    if d.len() > 0 && (forall|i: int| 0 <= i < d.len() ==> '0' <= #[trigger] d[i] <= '9')
        && decimal_value(d) < 0x1_0000_0000_0000_0000 {
        Some(decimal_value(d) as u64)
    } else {
        None
    }
}

/// The number `s` spells, if it spells one.
///
/// Trusted: calls `str::parse::<u64>` and keeps the value when it
/// succeeds; the contract states the documented grammar of unsigned
/// integers in base 10.
#[verifier::external_body]
fn parse_u64(s: &str) -> (r: Option<u64>)
    ensures
        r == parse_u64_spec(s@),
{
    s.parse::<u64>().ok()
}

/// Whether a switch is on: its value is `1` or, in any case, `true`. A
/// missing variable is off.
pub open spec fn flag_spec(v: Option<&str>) -> bool {
    match v {
        Some(s) => s@ == "1"@ || eq_ignore_case_spec(s.spec_bytes(), "true".spec_bytes()),
        None => false,
    }
}

pub fn flag_enabled(v: Option<&str>) -> (r: bool)
    ensures
        r == flag_spec(v),
{
    match v {
        Some(s) => str_eq(s, "1") || eq_ignore_ascii_case(s, "true"),
        None => false,
    }
}

/// The seconds between paper-engine ticks: the value when it is a
/// positive number, else 30.
pub open spec fn tick_secs_spec(v: Option<&str>) -> u64 {
    match v {
        Some(s) => match parse_u64_spec(s@) {
            Some(n) => if n > 0 {
                n
            } else {
                30
            },
            None => 30,
        },
        None => 30,
    }
}

pub fn paper_tick_secs(v: Option<&str>) -> (r: u64)
    ensures
        r == tick_secs_spec(v),
{
    match v {
        Some(s) => match parse_u64(s) {
            Some(n) => if n > 0 {
                n
            } else {
                30
            },
            None => 30,
        },
        None => 30,
    }
}

/// The origins a comma-separated list names: each piece trimmed, blank
/// pieces left out.
pub open spec fn origins_of(pieces: Seq<Seq<char>>) -> Seq<Seq<char>>
    decreases pieces.len(),
{
    if pieces.len() == 0 {
        Seq::empty()
    } else {
        let rest = origins_of(pieces.drop_last());
        let t = trim_spec(pieces.last());
        if t.len() > 0 {
            rest.push(t)
        } else {
            rest
        }
    }
}

/// The allowed cross-origin origins: none when the variable is missing or
/// blank.
pub open spec fn cors_origins_spec(v: Option<&str>) -> Seq<Seq<char>> {
    match v {
        Some(s) => if trim_spec(s@).len() == 0 {
            Seq::empty()
        } else {
            origins_of(split_commas(s@))
        },
        None => Seq::empty(),
    }
}

pub fn cors_origins(v: Option<&str>) -> (r: Vec<String>)
    ensures
        r@.map_values(|o: String| o@) == cors_origins_spec(v),
{
    let mut out: Vec<String> = Vec::new();
    let s = match v {
        Some(s) => s,
        None => {
            proof {
                assert(out@.map_values(|o: String| o@) =~= Seq::<Seq<char>>::empty());
            }
            return out;
        },
    };
    if trim(s).is_empty() {
        proof {
            assert(out@.map_values(|o: String| o@) =~= Seq::<Seq<char>>::empty());
        }
        return out;
    }
    let pieces = split_on_commas(s);
    let ghost ps = split_commas(s@);
    let mut i: usize = 0;
    proof {
        assert(out@.map_values(|o: String| o@) =~= origins_of(ps.subrange(0, 0)));
    }
    while i < pieces.len()
        invariant
            i <= pieces@.len(),
            pieces@.len() == ps.len(),
            forall|k: int| 0 <= k < pieces@.len() ==> #[trigger] pieces@[k]@ == ps[k],
            out@.map_values(|o: String| o@) == origins_of(ps.subrange(0, i as int)),
        decreases pieces@.len() - i,
    {
        let t = trim(pieces[i].as_str());
        let ghost before = out@.map_values(|o: String| o@);
        proof {
            let next = ps.subrange(0, i + 1);
            assert(next.drop_last() =~= ps.subrange(0, i as int));
            assert(next.last() == ps[i as int]);
        }
        if !t.is_empty() {
            out.push(String::from_str(t));
            proof {
                assert(out@.map_values(|o: String| o@) =~= before.push(t@));
            }
        } else {
            proof {
                assert(out@.map_values(|o: String| o@) =~= before);
            }
        }
        i = i + 1;
    }
    proof {
        assert(ps.subrange(0, ps.len() as int) =~= ps);
    }
    out
}

} // verus!
