//! Error types for state reconciliation and fuser construction.
//!
//! The merge of two persistent states refuses on any incompatibility rather than
//! silently blending distributions that were never measuring the same thing, and
//! building a fuser refuses an invalid configuration or an incompatible resumed state
//! rather than fusing on top of it.
use crate::text::{decimal, decimal_text};
use vstd::prelude::*;

verus! {

/// A reason two states cannot be merged.
#[derive(Debug, Clone, PartialEq, Eq)]
#[non_exhaustive]
pub enum Mismatch {
    /// The two states use different serialization schema versions.
    FormatVersion {
        /// Format version of the left-hand state.
        left: u32,
        /// Format version of the right-hand state.
        right: u32,
    },
    /// The two states were built with different statistic definitions or baseline modes.
    Fingerprint,
    /// A channel present in more than one state has a different orientation in the
    /// fingerprint.
    DirectionConflict {
        /// The channel key whose orientations disagree across states.
        channel: String,
    },
    /// A channel present in both states has a different model-version tag, the signature
    /// of a model swapped in under a kept name.
    Tag {
        /// The channel key whose tags disagree.
        channel: String,
        /// The tag on the left-hand state.
        left: String,
        /// The tag on the right-hand state.
        right: String,
    },
    /// Merge was called with no input states.
    Empty,
}

/// A reason a fuser cannot be built from the given registrations and configuration.
#[derive(Debug, Clone, PartialEq)]
#[non_exhaustive]
pub enum ConfigError {
    /// A fusion knob holds a value outside its documented range.
    InvalidFuseConfig {
        /// The offending field, as `sub_config.field`.
        field: &'static str,
        /// Why the value is rejected.
        reason: &'static str,
    },
    /// A channel's declared good score does not orient to a usable reference.
    InvalidGoodScore {
        /// The channel key whose declaration is rejected.
        channel: String,
        /// Why the declaration is rejected.
        reason: &'static str,
    },
    /// Two channel registrations share one join-handle key.
    DuplicateChannelKey {
        /// The key that appears more than once.
        key: String,
    },
    /// A channel's declared base weight is non-finite or negative.
    InvalidBaseWeight {
        /// The channel key whose declaration is rejected.
        channel: String,
    },
}

/// A reason a fuser cannot resume from a persisted state.
#[derive(Debug, Clone, PartialEq)]
#[non_exhaustive]
pub enum ResumeError {
    /// The registrations or configuration are invalid on their own.
    Config(ConfigError),
    /// The persisted state is incompatible with the registrations or with this build.
    State(Mismatch),
}

impl Mismatch {
    /// What the refusal says to a reader.
    pub open spec fn says(&self) -> Seq<char> {
        match *self {
            Mismatch::FormatVersion { left, right } => "format version mismatch: "@ + decimal(
                left as int,
            ) + " vs "@ + decimal(right as int),
            Mismatch::Fingerprint => "statistic fingerprint mismatch"@,
            Mismatch::DirectionConflict { channel } => "direction conflict for channel "@
                + channel@,
            Mismatch::Tag { channel, left, right } => "semantic tag mismatch for channel "@
                + channel@ + ": "@ + left@ + " vs "@ + right@,
            Mismatch::Empty => "cannot merge an empty set of states"@,
        }
    }

    /// The refusal as text.
    pub fn to_string(&self) -> (text: String)
        ensures
            text@ == self.says(),
    {
        match self {
            Mismatch::FormatVersion { left, right } => {
                let mut text = "format version mismatch: ".to_owned();
                text.append(decimal_text(*left as u64).as_str());
                text.append(" vs ");
                text.append(decimal_text(*right as u64).as_str());
                text
            },
            Mismatch::Fingerprint => "statistic fingerprint mismatch".to_owned(),
            Mismatch::DirectionConflict { channel } => {
                let mut text = "direction conflict for channel ".to_owned();
                text.append(channel.as_str());
                text
            },
            Mismatch::Tag { channel, left, right } => {
                let mut text = "semantic tag mismatch for channel ".to_owned();
                text.append(channel.as_str());
                text.append(": ");
                text.append(left.as_str());
                text.append(" vs ");
                text.append(right.as_str());
                text
            },
            Mismatch::Empty => "cannot merge an empty set of states".to_owned(),
        }
    }
}

impl ConfigError {
    /// What the refusal says to a reader.
    pub open spec fn says(&self) -> Seq<char> {
        match *self {
            ConfigError::InvalidFuseConfig { field, reason } => "invalid fuse configuration: "@
                + field@ + ": "@ + reason@,
            ConfigError::InvalidGoodScore { channel, reason } => "channel "@ + channel@
                + ": declared good score is unusable: "@ + reason@,
            ConfigError::DuplicateChannelKey { key } => "duplicate channel key "@ + key@
                + " in the registrations"@,
            ConfigError::InvalidBaseWeight { channel } => "channel "@ + channel@
                + ": base weight must be finite and non-negative"@,
        }
    }

    /// The refusal as text.
    pub fn to_string(&self) -> (text: String)
        ensures
            text@ == self.says(),
    {
        match self {
            ConfigError::InvalidFuseConfig { field, reason } => {
                let mut text = "invalid fuse configuration: ".to_owned();
                text.append(field);
                text.append(": ");
                text.append(reason);
                text
            },
            ConfigError::InvalidGoodScore { channel, reason } => {
                let mut text = "channel ".to_owned();
                text.append(channel.as_str());
                text.append(": declared good score is unusable: ");
                text.append(reason);
                text
            },
            ConfigError::DuplicateChannelKey { key } => {
                let mut text = "duplicate channel key ".to_owned();
                text.append(key.as_str());
                text.append(" in the registrations");
                text
            },
            ConfigError::InvalidBaseWeight { channel } => {
                let mut text = "channel ".to_owned();
                text.append(channel.as_str());
                text.append(": base weight must be finite and non-negative");
                text
            },
        }
    }
}

impl ResumeError {
    /// What the refusal says to a reader: what its cause says.
    pub open spec fn says(&self) -> Seq<char> {
        match *self {
            ResumeError::Config(e) => e.says(),
            ResumeError::State(e) => e.says(),
        }
    }

    /// The refusal as text.
    pub fn to_string(&self) -> (text: String)
        ensures
            text@ == self.says(),
    {
        match self {
            ResumeError::Config(e) => e.to_string(),
            ResumeError::State(e) => e.to_string(),
        }
    }
}

impl ResumeError {
    /// Which side of the refusal is at fault, as a word: the configuration, or the resumed
    /// state.
    pub fn kind(&self) -> (word: &'static str)
        ensures
            word@ == if self is Config {
                "config"@
            } else {
                "resume"@
            },
    {
        match self {
            ResumeError::Config(_) => "config",
            ResumeError::State(_) => "resume",
        }
    }
}

impl From<ConfigError> for ResumeError {
    fn from(e: ConfigError) -> (r: ResumeError) {
        ResumeError::Config(e)
    }
}

impl vstd::std_specs::convert::FromSpecImpl<ConfigError> for ResumeError {
    open spec fn obeys_from_spec() -> bool {
        true
    }

    open spec fn from_spec(e: ConfigError) -> ResumeError {
        ResumeError::Config(e)
    }
}

impl From<Mismatch> for ResumeError {
    fn from(e: Mismatch) -> (r: ResumeError) {
        ResumeError::State(e)
    }
}

impl vstd::std_specs::convert::FromSpecImpl<Mismatch> for ResumeError {
    open spec fn obeys_from_spec() -> bool {
        true
    }

    open spec fn from_spec(e: Mismatch) -> ResumeError {
        ResumeError::State(e)
    }
}

} // verus!
