//! The states of bots, marketplace listings and subscriptions, as stored
//! and as sent: each is a lower-case word, and parsing one gives back the
//! state it names.

use vstd::prelude::*;
use vstd::string::StringExecFns;

use crate::text::str_eq;

verus! {

/// Where a bot is in its life.
#[derive(Debug, Clone, PartialEq, Eq, Structural)]
pub enum BotStatus {
    Draft,
    Paper,
    Live,
    Paused,
    Stopped,
}

impl BotStatus {
    /// The word that stands for this status.
    pub open spec fn word(self) -> Seq<char> {
        match self {
            BotStatus::Draft => "draft"@,
            BotStatus::Paper => "paper"@,
            BotStatus::Live => "live"@,
            BotStatus::Paused => "paused"@,
            BotStatus::Stopped => "stopped"@,
        }
    }

    /// The status a word names, if any.
    pub open spec fn parse_spec(s: Seq<char>) -> Option<BotStatus> {
        if s == "draft"@ {
            Some(BotStatus::Draft)
        } else if s == "paper"@ {
            Some(BotStatus::Paper)
        } else if s == "live"@ {
            Some(BotStatus::Live)
        } else if s == "paused"@ {
            Some(BotStatus::Paused)
        } else if s == "stopped"@ {
            Some(BotStatus::Stopped)
        } else {
            None
        }
    }

    pub fn as_str(&self) -> (s: &'static str)
        ensures
            s@ == self.word(),
    {
        match self {
            BotStatus::Draft => "draft",
            BotStatus::Paper => "paper",
            BotStatus::Live => "live",
            BotStatus::Paused => "paused",
            BotStatus::Stopped => "stopped",
        }
    }

    pub fn parse(s: &str) -> (r: Option<Self>)
        ensures
            r == Self::parse_spec(s@),
    {
        if str_eq(s, "draft") {
            Some(BotStatus::Draft)
        } else if str_eq(s, "paper") {
            Some(BotStatus::Paper)
        } else if str_eq(s, "live") {
            Some(BotStatus::Live)
        } else if str_eq(s, "paused") {
            Some(BotStatus::Paused)
        } else if str_eq(s, "stopped") {
            Some(BotStatus::Stopped)
        } else {
            None
        }
    }

    /// Parsing the word of a status gives that status back.
    pub proof fn lemma_parse_word(self)
        ensures
            Self::parse_spec(self.word()) == Some(self),
    {
        reveal_strlit("draft");
        reveal_strlit("paper");
        reveal_strlit("live");
        reveal_strlit("paused");
        reveal_strlit("stopped");
        assert("paper"@[0] != "draft"@[0]);
        assert("live"@.len() != "draft"@.len() && "live"@.len() != "paper"@.len());
        assert("paused"@.len() != "draft"@.len() && "paused"@.len() != "paper"@.len());
        assert("stopped"@.len() != "draft"@.len() && "stopped"@.len() != "paper"@.len()
            && "stopped"@.len() != "live"@.len() && "stopped"@.len() != "paused"@.len());
    }
}

/// Whether a listing can be found in the marketplace.
#[derive(Debug, Clone, Copy, PartialEq, Eq, Structural)]
pub enum ListingStatus {
    Published,
    Unpublished,
}

impl ListingStatus {
    pub open spec fn word(self) -> Seq<char> {
        match self {
            ListingStatus::Published => "published"@,
            ListingStatus::Unpublished => "unpublished"@,
        }
    }

    pub open spec fn parse_spec(s: Seq<char>) -> Option<ListingStatus> {
        if s == "published"@ {
            Some(ListingStatus::Published)
        } else if s == "unpublished"@ {
            Some(ListingStatus::Unpublished)
        } else {
            None
        }
    }

    pub fn as_str(self) -> (s: &'static str)
        ensures
            s@ == self.word(),
    {
        match self {
            ListingStatus::Published => "published",
            ListingStatus::Unpublished => "unpublished",
        }
    }

    pub fn parse(s: &str) -> (r: Option<Self>)
        ensures
            r == Self::parse_spec(s@),
    {
        if str_eq(s, "published") {
            Some(ListingStatus::Published)
        } else if str_eq(s, "unpublished") {
            Some(ListingStatus::Unpublished)
        } else {
            None
        }
    }

    /// Parsing the word of a status gives that status back.
    pub proof fn lemma_parse_word(self)
        ensures
            Self::parse_spec(self.word()) == Some(self),
    {
        reveal_strlit("published");
        reveal_strlit("unpublished");
        assert("published"@.len() != "unpublished"@.len());
    }
}

/// Whether a subscription is running.
#[derive(Debug, Clone, Copy, PartialEq, Eq, Structural)]
pub enum SubscriptionStatus {
    Active,
    Cancelled,
}

impl SubscriptionStatus {
    pub open spec fn word(self) -> Seq<char> {
        match self {
            SubscriptionStatus::Active => "active"@,
            SubscriptionStatus::Cancelled => "cancelled"@,
        }
    }

    pub open spec fn parse_spec(s: Seq<char>) -> Option<SubscriptionStatus> {
        if s == "active"@ {
            Some(SubscriptionStatus::Active)
        } else if s == "cancelled"@ {
            Some(SubscriptionStatus::Cancelled)
        } else {
            None
        }
    }

    pub fn as_str(self) -> (s: &'static str)
        ensures
            s@ == self.word(),
    {
        match self {
            SubscriptionStatus::Active => "active",
            SubscriptionStatus::Cancelled => "cancelled",
        }
    }

    pub fn parse(s: &str) -> (r: Option<Self>)
        ensures
            r == Self::parse_spec(s@),
    {
        if str_eq(s, "active") {
            Some(SubscriptionStatus::Active)
        } else if str_eq(s, "cancelled") {
            Some(SubscriptionStatus::Cancelled)
        } else {
            None
        }
    }

    /// Parsing the word of a status gives that status back.
    pub proof fn lemma_parse_word(self)
        ensures
            Self::parse_spec(self.word()) == Some(self),
    {
        reveal_strlit("active");
        reveal_strlit("cancelled");
        assert("active"@.len() != "cancelled"@.len());
    }
}

/// The source recorded for a bot created without one.
pub fn default_source() -> (s: String)
    ensures
        s@ == "manual"@,
{
    String::from_str("manual")
}

/// The number of days a performance window covers unless asked otherwise.
pub fn default_window_days() -> (d: u32)
    ensures
        d == 30,
{
    30
}

} // verus!
