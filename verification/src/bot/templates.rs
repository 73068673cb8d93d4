//! Picking a bundled template for a free-text strategy request: the
//! prompt is lower-cased and searched for keywords of each template family;
//! without a match, the RSI template is the answer.

use vstd::prelude::*;
use vstd::string::StringSliceAdditionalSpecFns;
use vstd::utf8::encode_utf8;

use crate::text::{contains_str, occurs, str_eq};

verus! {

/// The lower-case form of a string, as `str::to_lowercase` gives it.
pub uninterp spec fn to_lowercase(s: Seq<char>) -> Seq<char>;

/// The lower-case form of `s`.
///
/// Trusted: calls `str::to_lowercase`; the contract names its result.
#[verifier::external_body]
fn lowercase(s: &str) -> (r: String)
    ensures
        r@ == to_lowercase(s@),
{
    s.to_lowercase()
}

/// Whether the (lower-cased) prompt bytes mention `kw`.
pub open spec fn mentions(p: Seq<u8>, kw: &str) -> bool {
    occurs(p, kw.spec_bytes())
}

/// The id of the template a lower-cased prompt asks for.
pub open spec fn preferred_template(p: Seq<u8>) -> Seq<char> {
    if mentions(p, "rsi") || mentions(p, "oversold") || mentions(p, "mean revers") {
        "tpl_rsi_oversold"@
    } else if mentions(p, "ema") || mentions(p, "crossover") || mentions(p, "cross over")
        || mentions(p, "golden cross") {
        "tpl_ema_cross"@
    } else if mentions(p, "breakout") || mentions(p, "donchian") || mentions(
        p,
        "high of the day",
    ) {
        "tpl_breakout_box"@
    } else if mentions(p, "grid") || mentions(p, "range") {
        "tpl_grid"@
    } else if mentions(p, "dca") || mentions(p, "dollar cost") || mentions(p, "accumulate") {
        "tpl_dca_weekly"@
    } else {
        "tpl_rsi_oversold"@
    }
}

/// Whether prompt bytes mention any of the keywords.
pub open spec fn mentions_any(p: Seq<u8>, kws: Seq<Seq<u8>>) -> bool {
    exists|k: int| 0 <= k < kws.len() && occurs(p, #[trigger] kws[k])
}

/// The keyword families, in the order they are tried, each with the
/// template it selects.
pub open spec fn families() -> Seq<(Seq<Seq<u8>>, Seq<char>)> {
    seq![
        (seq!["rsi".spec_bytes(), "oversold".spec_bytes(), "mean revers".spec_bytes()], "tpl_rsi_oversold"@),
        (
            seq![
                "ema".spec_bytes(),
                "crossover".spec_bytes(),
                "cross over".spec_bytes(),
                "golden cross".spec_bytes(),
            ],
            "tpl_ema_cross"@,
        ),
        (
            seq!["breakout".spec_bytes(), "donchian".spec_bytes(), "high of the day".spec_bytes()],
            "tpl_breakout_box"@,
        ),
        (seq!["grid".spec_bytes(), "range".spec_bytes()], "tpl_grid"@),
        (seq!["dca".spec_bytes(), "dollar cost".spec_bytes(), "accumulate".spec_bytes()], "tpl_dca_weekly"@),
    ]
}

/// A prompt selects the template of the first family one of whose keywords
/// it mentions; a prompt that mentions none selects the RSI template.
pub proof fn lemma_first_family_wins(p: Seq<u8>)
    ensures
        forall|f: int|
            0 <= f < families().len() && mentions_any(p, #[trigger] families()[f].0) && (forall|g: int|
                0 <= g < f ==> !mentions_any(p, #[trigger] families()[g].0)) ==> preferred_template(p)
                == families()[f].1,
        (forall|f: int| 0 <= f < families().len() ==> !mentions_any(p, #[trigger] families()[f].0))
            ==> preferred_template(p) == "tpl_rsi_oversold"@,
{
    let fs = families();
    assert forall|f: int|
        0 <= f < fs.len() && mentions_any(p, #[trigger] fs[f].0) && (forall|g: int|
            0 <= g < f ==> !mentions_any(p, #[trigger] fs[g].0)) implies preferred_template(p)
        == fs[f].1 by {
        let kws = fs[f].0;
        let k = choose|k: int| 0 <= k < kws.len() && occurs(p, #[trigger] kws[k]);
        if f > 0 {
            let a = fs[0].0;
            assert(!mentions_any(p, a));
            assert(!occurs(p, a[0]) && !occurs(p, a[1]) && !occurs(p, a[2]));
        }
        if f > 1 {
            let a = fs[1].0;
            assert(!mentions_any(p, a));
            assert(!occurs(p, a[0]) && !occurs(p, a[1]) && !occurs(p, a[2]) && !occurs(p, a[3]));
        }
        if f > 2 {
            let a = fs[2].0;
            assert(!mentions_any(p, a));
            assert(!occurs(p, a[0]) && !occurs(p, a[1]) && !occurs(p, a[2]));
        }
        if f > 3 {
            let a = fs[3].0;
            assert(!mentions_any(p, a));
            assert(!occurs(p, a[0]) && !occurs(p, a[1]));
        }
    }
    if forall|f: int| 0 <= f < fs.len() ==> !mentions_any(p, #[trigger] fs[f].0) {
        let a0 = fs[0].0;
        let a1 = fs[1].0;
        let a2 = fs[2].0;
        let a3 = fs[3].0;
        let a4 = fs[4].0;
        assert(!mentions_any(p, a0) && !mentions_any(p, a1) && !mentions_any(p, a2) && !mentions_any(p, a3)
            && !mentions_any(p, a4));
        assert(!occurs(p, a0[0]) && !occurs(p, a0[1]) && !occurs(p, a0[2]));
        assert(!occurs(p, a1[0]) && !occurs(p, a1[1]) && !occurs(p, a1[2]) && !occurs(p, a1[3]));
        assert(!occurs(p, a2[0]) && !occurs(p, a2[1]) && !occurs(p, a2[2]));
        assert(!occurs(p, a3[0]) && !occurs(p, a3[1]));
        assert(!occurs(p, a4[0]) && !occurs(p, a4[1]) && !occurs(p, a4[2]));
    }
}

fn preferred_id(p: &str) -> (id: &'static str)
    ensures
        id@ == preferred_template(p.spec_bytes()),
{
    if contains_str(p, "rsi") || contains_str(p, "oversold") || contains_str(p, "mean revers") {
        "tpl_rsi_oversold"
    } else if contains_str(p, "ema") || contains_str(p, "crossover") || contains_str(p, "cross over")
        || contains_str(p, "golden cross") {
        "tpl_ema_cross"
    } else if contains_str(p, "breakout") || contains_str(p, "donchian") || contains_str(
        p,
        "high of the day",
    ) {
        "tpl_breakout_box"
    } else if contains_str(p, "grid") || contains_str(p, "range") {
        "tpl_grid"
    } else if contains_str(p, "dca") || contains_str(p, "dollar cost") || contains_str(p, "accumulate") {
        "tpl_dca_weekly"
    } else {
        "tpl_rsi_oversold"
    }
}

/// The template a prompt selects, given the ids of the library in order:
/// the first template with the preferred id, or the first template when
/// none has it.
pub fn match_template(template_ids: &Vec<String>, prompt: &str) -> (i: usize)
    requires
        template_ids@.len() > 0,
    ensures
        i < template_ids@.len(),
        ({
            let want = preferred_template(encode_utf8(to_lowercase(prompt@)));
            if exists|j: int| 0 <= j < template_ids@.len() && #[trigger] template_ids@[j]@ == want {
                &&& template_ids@[i as int]@ == want
                &&& forall|j: int| 0 <= j < i ==> #[trigger] template_ids@[j]@ != want
            } else {
                i == 0
            }
        }),
{
    let p = lowercase(prompt);
    let ps = p.as_str();
    let want = preferred_id(ps);
    proof {
        assert(ps.spec_bytes() == encode_utf8(to_lowercase(prompt@)));
    }
    let mut i: usize = 0;
    while i < template_ids.len()
        invariant
            i <= template_ids@.len(),
            want@ == preferred_template(encode_utf8(to_lowercase(prompt@))),
            forall|j: int| 0 <= j < i ==> #[trigger] template_ids@[j]@ != want@,
        decreases template_ids@.len() - i,
    {
        if str_eq(template_ids[i].as_str(), want) {
            proof {
                assert(template_ids@[i as int]@ == want@);
            }
            return i;
        }
        i = i + 1;
    }
    0
}

} // verus!
