//! Rendering options: the prose wrap policy and the ordered-list
//! numbering policy.

use vstd::prelude::*;
use vstd::string::StringExecFns;
use crate::text::{eq_ignore_case, lower_seq};

verus! {

/// How prose is wrapped when a block is flushed.
#[derive(Clone, Copy, PartialEq, Eq, Structural, Debug)]
pub enum WrapMode {
    /// Reflow prose greedily to the target width.
    Always,
    /// Collapse each block of prose onto one physical line.
    Never,
    /// Keep the source's line-break placement, only normalizing
    /// whitespace inside each kept segment.
    Preserve,
}

impl Default for WrapMode {
    fn default() -> (r: Self)
        ensures
            r == WrapMode::Preserve,
    {
        WrapMode::Preserve
    }
}

/// How ordered-list item markers are numbered.
#[derive(Clone, Copy, PartialEq, Eq, Structural, Debug)]
pub enum OrderedListMode {
    /// Number items upward from the list's declared start.
    Ascending,
    /// Use `1.` for every item.
    One,
}

impl Default for OrderedListMode {
    fn default() -> (r: Self)
        ensures
            r == OrderedListMode::Ascending,
    {
        OrderedListMode::Ascending
    }
}

/// A configuration value that could not be understood.  An explicitly
/// supplied invalid value is reported, never silently replaced by a
/// default; only absent values take defaults.
#[derive(Debug)]
pub enum ConfigError {
    /// The offending wrap-policy value.
    InvalidWrapMode(String),
    /// The offending numbering-policy value.
    InvalidOrderedListMode(String),
}

impl ConfigError {
    /// A human-readable description of the error.
    pub fn message(&self) -> (r: String)
        ensures
            (match self {
                ConfigError::InvalidWrapMode(v) => r@ == "invalid wrap mode: "@ + v@,
                ConfigError::InvalidOrderedListMode(v) => r@ == "invalid ordered list mode: "@
                    + v@,
            }),
    {
        match self {
            ConfigError::InvalidWrapMode(v) => String::from_str("invalid wrap mode: ").concat(
                v.as_str(),
            ),
            ConfigError::InvalidOrderedListMode(v) => String::from_str(
                "invalid ordered list mode: ",
            ).concat(v.as_str()),
        }
    }
}

/// The wrap policy a string names, compared without regard to ASCII
/// case; `None` when it names none.
pub open spec fn wrap_mode_of(s: Seq<char>) -> Option<WrapMode> {
    if lower_seq(s) == "always"@ {
        Some(WrapMode::Always)
    } else if lower_seq(s) == "never"@ {
        Some(WrapMode::Never)
    } else if lower_seq(s) == "preserve"@ {
        Some(WrapMode::Preserve)
    } else {
        None
    }
}

/// The numbering policy a string names; `None` when it names none.
pub open spec fn ordered_list_mode_of(s: Seq<char>) -> Option<OrderedListMode> {
    if lower_seq(s) == "ascending"@ {
        Some(OrderedListMode::Ascending)
    } else if lower_seq(s) == "one"@ {
        Some(OrderedListMode::One)
    } else {
        None
    }
}

impl WrapMode {
    /// Parses a wrap-policy name, ASCII case-insensitively.
    pub fn parse(s: &str) -> (r: Result<WrapMode, ConfigError>)
        ensures
            (match r {
                Ok(m) => wrap_mode_of(s@) == Some(m),
                Err(e) => wrap_mode_of(s@) is None && (match e {
                    ConfigError::InvalidWrapMode(v) => v@ == s@,
                    _ => false,
                }),
            }),
    {
        if eq_ignore_case(s, "always") {
            Ok(WrapMode::Always)
        } else if eq_ignore_case(s, "never") {
            Ok(WrapMode::Never)
        } else if eq_ignore_case(s, "preserve") {
            Ok(WrapMode::Preserve)
        } else {
            Err(ConfigError::InvalidWrapMode(String::from_str(s)))
        }
    }
}

impl OrderedListMode {
    /// Parses a numbering-policy name, ASCII case-insensitively.
    pub fn parse(s: &str) -> (r: Result<OrderedListMode, ConfigError>)
        ensures
            (match r {
                Ok(m) => ordered_list_mode_of(s@) == Some(m),
                Err(e) => ordered_list_mode_of(s@) is None && (match e {
                    ConfigError::InvalidOrderedListMode(v) => v@ == s@,
                    _ => false,
                }),
            }),
    {
        if eq_ignore_case(s, "ascending") {
            Ok(OrderedListMode::Ascending)
        } else if eq_ignore_case(s, "one") {
            Ok(OrderedListMode::One)
        } else {
            Err(ConfigError::InvalidOrderedListMode(String::from_str(s)))
        }
    }
}

/// The wrap policy an optional configuration string selects: the
/// default when absent, otherwise what the string names.
pub open spec fn wrap_opt_of(w: Option<&String>) -> Option<WrapMode> {
    match w {
        None => Some(WrapMode::Preserve),
        Some(s) => wrap_mode_of(s@),
    }
}

/// The numbering policy an optional configuration string selects.
pub open spec fn ordered_list_opt_of(w: Option<&String>) -> Option<OrderedListMode> {
    match w {
        None => Some(OrderedListMode::Ascending),
        Some(s) => ordered_list_mode_of(s@),
    }
}

/// Resolves an optional wrap-policy string: absent means the default;
/// an invalid explicit value is an error.
pub fn parse_wrap_mode(wrap: Option<&String>) -> (r: Result<WrapMode, ConfigError>)
    ensures
        (match r {
            Ok(m) => wrap_opt_of(wrap) == Some(m),
            Err(e) => wrap_opt_of(wrap) is None && (match e {
                ConfigError::InvalidWrapMode(v) => wrap is Some && v@ == wrap.unwrap()@,
                _ => false,
            }),
        }),
{
    match wrap {
        None => Ok(WrapMode::Preserve),
        Some(s) => WrapMode::parse(s.as_str()),
    }
}

/// Resolves an optional numbering-policy string.
pub fn parse_ordered_list_mode(mode: Option<&String>) -> (r: Result<
    OrderedListMode,
    ConfigError,
>)
    ensures
        (match r {
            Ok(m) => ordered_list_opt_of(mode) == Some(m),
            Err(e) => ordered_list_opt_of(mode) is None && (match e {
                ConfigError::InvalidOrderedListMode(v) => mode is Some && v@ == mode.unwrap()@,
                _ => false,
            }),
        }),
{
    match mode {
        None => Ok(OrderedListMode::Ascending),
        Some(s) => OrderedListMode::parse(s.as_str()),
    }
}

} // verus!
