//! The rules the service applies to requests before it stores anything,
//! and the cross-origin policy built from its configuration.

use vstd::prelude::*;
use vstd::string::StringExecFns;

use crate::bot::status::BotStatus;
use crate::text::{str_eq, trim, trim_spec};

verus! {

/// Why a request is refused.
#[derive(Debug, Clone, Copy, PartialEq, Eq, Structural)]
pub enum Rejection {
    /// A bot needs a name that is not blank.
    NameEmpty,
    /// A listing needs a title that is not blank.
    TitleEmpty,
    /// A listing's price cannot be negative.
    NegativePrice,
    /// A subscription must allocate some capital.
    NoCapital,
    /// Only published listings take subscribers.
    NotPublished,
    /// The listing does not exist.
    ListingNotFound,
    /// A creator cannot subscribe to their own listing.
    OwnListing,
    /// Bots cannot be promoted to live trading.
    LivePromotion,
    /// A strategy prompt cannot be blank.
    PromptEmpty,
    /// The status filter names no status.
    UnknownStatus,
}

impl Rejection {
    /// The message sent back with the refusal.
    pub open spec fn text_spec(self) -> Seq<char> {
        match self {
            Rejection::NameEmpty => "name must not be empty"@,
            Rejection::TitleEmpty => "title must not be empty"@,
            Rejection::NegativePrice => "monthly_price_cents must be >= 0"@,
            Rejection::NoCapital => "allocated_capital_cents must be > 0"@,
            Rejection::NotPublished => "listing is not published"@,
            Rejection::ListingNotFound => "not found"@,
            Rejection::OwnListing => "cannot subscribe to your own bot"@,
            Rejection::LivePromotion => "live promotion is not available in v1; use 'paper'"@,
            Rejection::PromptEmpty => "prompt must not be empty"@,
            Rejection::UnknownStatus => "unknown status"@,
        }
    }

    pub fn text(self) -> (s: &'static str)
        ensures
            s@ == self.text_spec(),
    {
        match self {
            Rejection::NameEmpty => "name must not be empty",
            Rejection::TitleEmpty => "title must not be empty",
            Rejection::NegativePrice => "monthly_price_cents must be >= 0",
            Rejection::NoCapital => "allocated_capital_cents must be > 0",
            Rejection::NotPublished => "listing is not published",
            Rejection::ListingNotFound => "not found",
            Rejection::OwnListing => "cannot subscribe to your own bot",
            Rejection::LivePromotion => "live promotion is not available in v1; use 'paper'",
            Rejection::PromptEmpty => "prompt must not be empty",
            Rejection::UnknownStatus => "unknown status",
        }
    }
}

/// Whether a text is blank: nothing is left once whitespace is trimmed.
pub open spec fn blank(s: Seq<char>) -> bool {
    trim_spec(s).len() == 0
}

/// A bot's name, trimmed; a blank one is refused.
pub fn check_name(name: &str) -> (r: Result<&str, Rejection>)
    ensures
        blank(name@) <==> r is Err,
        r matches Ok(n) ==> n@ == trim_spec(name@),
        r matches Err(e) ==> e == Rejection::NameEmpty,
{
    let t = trim(name);
    if t.is_empty() {
        Err(Rejection::NameEmpty)
    } else {
        Ok(t)
    }
}

/// A strategy prompt, trimmed; a blank one is refused.
pub fn check_prompt(prompt: &str) -> (r: Result<&str, Rejection>)
    ensures
        blank(prompt@) <==> r is Err,
        r matches Ok(p) ==> p@ == trim_spec(prompt@),
        r matches Err(e) ==> e == Rejection::PromptEmpty,
{
    let t = trim(prompt);
    if t.is_empty() {
        Err(Rejection::PromptEmpty)
    } else {
        Ok(t)
    }
}

/// What publishing a listing demands: a title that is not blank, then a
/// price that is not negative.
pub open spec fn publish_spec(title: Seq<char>, monthly_price_cents: i64) -> Result<(), Rejection> {
    if blank(title) {
        Err(Rejection::TitleEmpty)
    } else if monthly_price_cents < 0 {
        Err(Rejection::NegativePrice)
    } else {
        Ok(())
    }
}

pub fn check_publish(title: &str, monthly_price_cents: i64) -> (r: Result<(), Rejection>)
    ensures
        r == publish_spec(title@, monthly_price_cents),
{
    if trim(title).is_empty() {
        Err(Rejection::TitleEmpty)
    } else if monthly_price_cents < 0 {
        Err(Rejection::NegativePrice)
    } else {
        Ok(())
    }
}

/// What subscribing demands, in the order it is checked: the listing is
/// not the subscriber's own, some capital is allocated, and the listing
/// exists and is published. `listing_status` is the listing's stored
/// status, if it exists.
pub open spec fn subscribe_spec(
    own_listing: bool,
    allocated_capital_cents: i64,
    listing_status: Option<Seq<char>>,
) -> Result<(), Rejection> {
    if own_listing {
        Err(Rejection::OwnListing)
    } else if allocated_capital_cents <= 0 {
        Err(Rejection::NoCapital)
    } else {
        match listing_status {
            None => Err(Rejection::ListingNotFound),
            Some(s) => if s == "published"@ {
                Ok(())
            } else {
                Err(Rejection::NotPublished)
            },
        }
    }
}

pub fn check_subscribe(
    own_listing: bool,
    allocated_capital_cents: i64,
    listing_status: Option<&str>,
) -> (r: Result<(), Rejection>)
    ensures
        r == subscribe_spec(
            own_listing,
            allocated_capital_cents,
            match listing_status {
                Some(s) => Some(s@),
                None => None,
            },
        ),
{
    if own_listing {
        Err(Rejection::OwnListing)
    } else if allocated_capital_cents <= 0 {
        Err(Rejection::NoCapital)
    } else {
        match listing_status {
            None => Err(Rejection::ListingNotFound),
            Some(s) => if str_eq(s, "published") {
                Ok(())
            } else {
                Err(Rejection::NotPublished)
            },
        }
    }
}

/// Bots move between every status but live.
pub fn check_status_change(status: &BotStatus) -> (r: Result<(), Rejection>)
    ensures
        r == (if *status == BotStatus::Live {
            Err(Rejection::LivePromotion)
        } else {
            Ok(())
        }),
{
    match status {
        BotStatus::Live => Err(Rejection::LivePromotion),
        _ => Ok(()),
    }
}

/// The status a list request filters by: none without a filter, the
/// status the filter names, or a refusal when it names none.
pub fn status_filter(q: Option<&str>) -> (r: Result<Option<BotStatus>, Rejection>)
    ensures
        match q {
            None => r == Ok::<Option<BotStatus>, Rejection>(None),
            Some(s) => match BotStatus::parse_spec(s@) {
                Some(st) => r == Ok::<Option<BotStatus>, Rejection>(Some(st)),
                None => r == Err::<Option<BotStatus>, Rejection>(Rejection::UnknownStatus),
            },
        },
{
    match q {
        None => Ok(None),
        Some(s) => match BotStatus::parse(s) {
            Some(st) => Ok(Some(st)),
            None => Err(Rejection::UnknownStatus),
        },
    }
}

/// Which cross-origin requests the service answers.
pub enum CorsPolicy {
    /// No cross-origin headers at all.
    Disabled,
    /// Any origin, without credentials.
    AnyOrigin,
    /// Exactly these origins.
    AllowList(Vec<String>),
}

/// Whether any origin is the wildcard `*`.
pub open spec fn has_wildcard(origins: Seq<String>) -> bool {
    exists|i: int| 0 <= i < origins.len() && #[trigger] origins[i]@ == "*"@
}

/// The policy for the configured origins: none configured disables it, a
/// `*` among them allows any origin, otherwise exactly those origins.
pub fn cors_policy(origins: &Vec<String>) -> (p: CorsPolicy)
    ensures
        origins@.len() == 0 ==> p is Disabled,
        origins@.len() > 0 && has_wildcard(origins@) ==> p is AnyOrigin,
        origins@.len() > 0 && !has_wildcard(origins@) ==> (p matches CorsPolicy::AllowList(l)
            && l@.len() == origins@.len() && forall|i: int|
            0 <= i < l@.len() ==> #[trigger] l@[i]@ == origins@[i]@),
{
    if origins.len() == 0 {
        return CorsPolicy::Disabled;
    }
    let mut i: usize = 0;
    let mut list: Vec<String> = Vec::new();
    while i < origins.len()
        invariant
            i <= origins@.len(),
            list@.len() == i,
            forall|j: int| 0 <= j < i ==> #[trigger] origins@[j]@ != "*"@,
            forall|j: int| 0 <= j < i ==> #[trigger] list@[j]@ == origins@[j]@,
        decreases origins@.len() - i,
    {
        if str_eq(origins[i].as_str(), "*") {
            return CorsPolicy::AnyOrigin;
        }
        list.push(String::from_str(origins[i].as_str()));
        i = i + 1;
    }
    CorsPolicy::AllowList(list)
}

} // verus!
