//! Render entry points: format a whole document string, with optional
//! front matter carried through verbatim and configuration supplied as
//! plain option records.

use vstd::prelude::*;
use vstd::string::StrSliceExecFns;
use vstd::string::StringExecFns;
use crate::formatter::{Formatter, init_state, spec_render};
use crate::options::{
    ConfigError, OrderedListMode, WrapMode, ordered_list_mode_of, parse_ordered_list_mode,
    parse_wrap_mode, wrap_mode_of,
};
use crate::parser::{
    body_of, events_of, extract_frontmatter, frontmatter_of, has_frontmatter, parse_markdown,
};

verus! {

/// Options for formatting one document.
pub struct FormatOptions {
    /// Target line width for wrapping; 80 when absent.
    pub width: Option<u32>,
    /// Wrap policy name: "always", "never" or "preserve"; the default
    /// policy when absent.
    pub wrap: Option<String>,
    /// Numbering policy name: "ascending" or "one"; the default when
    /// absent.
    pub ordered_list: Option<String>,
}

/// A formatting result together with whether anything changed.
pub struct FormatResult {
    /// The formatted document.
    pub content: String,
    /// Whether the formatted document differs from the input.
    pub changed: bool,
}

/// Options for formatting files; the formatting fields act as in
/// [`FormatOptions`].
pub struct FileOptions {
    /// Target line width for wrapping; 80 when absent.
    pub width: Option<u32>,
    /// Wrap policy name; the default policy when absent.
    pub wrap: Option<String>,
    /// Numbering policy name; the default when absent.
    pub ordered_list: Option<String>,
    /// Additional directory names to exclude.
    pub exclude: Option<Vec<String>>,
    /// Drop the built-in exclude list.
    pub no_default_excludes: Option<bool>,
}

/// The outcome of processing one file.
pub struct FileResult {
    /// The file's path.
    pub path: String,
    /// Whether the file was, or would be, changed.
    pub changed: bool,
    /// Why the file could not be processed, if it could not.
    pub error: Option<String>,
}

/// The whole pipeline on one document: split off front matter, parse
/// the body into events, render them, and reattach the front matter.
pub open spec fn full_format(
    input: Seq<char>,
    width: nat,
    wrap: WrapMode,
    olm: OrderedListMode,
) -> Seq<char> {
    if has_frontmatter(input) {
        frontmatter_of(input) + spec_render(init_state(width, wrap, olm), events_of(body_of(input)))
    } else {
        spec_render(init_state(width, wrap, olm), events_of(input))
    }
}

/// The width an option record selects.
pub open spec fn width_sel(width: Option<u32>) -> nat {
    match width {
        Some(w) => w as nat,
        None => 80,
    }
}

/// The wrap policy an option record selects, `None` for an invalid one.
pub open spec fn wrap_sel(wrap: Option<String>) -> Option<WrapMode> {
    match wrap {
        None => Some(WrapMode::Preserve),
        Some(s) => wrap_mode_of(s@),
    }
}

/// The numbering policy an option record selects.
pub open spec fn olm_sel(mode: Option<String>) -> Option<OrderedListMode> {
    match mode {
        None => Some(OrderedListMode::Ascending),
        Some(s) => ordered_list_mode_of(s@),
    }
}

/// The width of a whole option record.
pub open spec fn fmt_width(options: Option<FormatOptions>) -> nat {
    match options {
        Some(o) => width_sel(o.width),
        None => 80,
    }
}

/// The wrap policy of a whole option record.
pub open spec fn fmt_wrap(options: Option<FormatOptions>) -> Option<WrapMode> {
    match options {
        Some(o) => wrap_sel(o.wrap),
        None => Some(WrapMode::Preserve),
    }
}

/// The numbering policy of a whole option record.
pub open spec fn fmt_olm(options: Option<FormatOptions>) -> Option<OrderedListMode> {
    match options {
        Some(o) => olm_sel(o.ordered_list),
        None => Some(OrderedListMode::Ascending),
    }
}

/// A well-understood option record: both policies parse.
pub open spec fn fmt_ok(options: Option<FormatOptions>) -> bool {
    fmt_wrap(options) is Some && fmt_olm(options) is Some
}

/// Formats one document under the given options.  Succeeds exactly
/// when the supplied policy names are understood; an invalid name is
/// reported, the wrap policy checked first.
pub fn format_markdown(input: &str, options: Option<FormatOptions>) -> (r: Result<
    String,
    ConfigError,
>)
    ensures
        (match r {
            Ok(out) => fmt_ok(options) && out@ == full_format(
                input@,
                fmt_width(options),
                fmt_wrap(options).unwrap(),
                fmt_olm(options).unwrap(),
            ),
            Err(e) => (match e {
                ConfigError::InvalidWrapMode(v) => fmt_wrap(options) is None && options is Some
                    && options.unwrap().wrap is Some && v@ == options.unwrap().wrap.unwrap()@,
                ConfigError::InvalidOrderedListMode(v) => fmt_wrap(options) is Some && fmt_olm(
                    options,
                ) is None && options is Some && options.unwrap().ordered_list is Some && v@
                    == options.unwrap().ordered_list.unwrap()@,
            }),
        }),
{
    let width: usize = match &options {
        Some(o) => match o.width {
            Some(w) => w as usize,
            None => 80,
        },
        None => 80,
    };
    let wrap_ref: Option<&String> = match &options {
        Some(o) => match &o.wrap {
            Some(s) => Some(s),
            None => None,
        },
        None => None,
    };
    let olm_ref: Option<&String> = match &options {
        Some(o) => match &o.ordered_list {
            Some(s) => Some(s),
            None => None,
        },
        None => None,
    };
    let wrap = match parse_wrap_mode(wrap_ref) {
        Ok(m) => m,
        Err(e) => {
            return Err(e);
        },
    };
    let olm = match parse_ordered_list_mode(olm_ref) {
        Ok(m) => m,
        Err(e) => {
            return Err(e);
        },
    };
    let (fm, body) = extract_frontmatter(input);
    let events = parse_markdown(body.as_str());
    let mut formatter = Formatter::with_options(width, wrap, olm);
    let formatted = formatter.format(events);
    match fm {
        Some(front) => Ok(front.concat(formatted.as_str())),
        None => Ok(formatted),
    }
}

/// Formats one document and reports whether it changed.
pub fn format_markdown_with_result(input: &str, options: Option<FormatOptions>) -> (r: Result<
    FormatResult,
    ConfigError,
>)
    ensures
        (match r {
            Ok(res) => fmt_ok(options) && res.content@ == full_format(
                input@,
                fmt_width(options),
                fmt_wrap(options).unwrap(),
                fmt_olm(options).unwrap(),
            ) && res.changed == (res.content@ != input@),
            Err(_) => !fmt_ok(options),
        }),
{
    match format_markdown(input, options) {
        Ok(content) => {
            let original = input.to_owned();
            let changed = !(content == original);
            Ok(FormatResult { content, changed })
        },
        Err(e) => Err(e),
    }
}

/// Checks that a document is already formatted: true exactly when
/// formatting would return it unchanged.
pub fn check_markdown(input: &str, options: Option<FormatOptions>) -> (r: Result<
    bool,
    ConfigError,
>)
    ensures
        (match r {
            Ok(ok) => fmt_ok(options) && ok == (full_format(
                input@,
                fmt_width(options),
                fmt_wrap(options).unwrap(),
                fmt_olm(options).unwrap(),
            ) == input@),
            Err(_) => !fmt_ok(options),
        }),
{
    match format_markdown(input, options) {
        Ok(content) => {
            let original = input.to_owned();
            Ok(content == original)
        },
        Err(e) => Err(e),
    }
}

/// The width of a file-option record.
pub open spec fn file_width(options: Option<FileOptions>) -> nat {
    match options {
        Some(o) => width_sel(o.width),
        None => 80,
    }
}

/// The wrap policy of a file-option record.
pub open spec fn file_wrap(options: Option<FileOptions>) -> Option<WrapMode> {
    match options {
        Some(o) => wrap_sel(o.wrap),
        None => Some(WrapMode::Preserve),
    }
}

/// The numbering policy of a file-option record.
pub open spec fn file_olm(options: Option<FileOptions>) -> Option<OrderedListMode> {
    match options {
        Some(o) => olm_sel(o.ordered_list),
        None => Some(OrderedListMode::Ascending),
    }
}

/// Formats one file's content under file options.
pub fn format_file_content(content: &str, options: &Option<FileOptions>) -> (r: Result<
    String,
    ConfigError,
>)
    ensures
        (match r {
            Ok(out) => file_wrap(*options) is Some && file_olm(*options) is Some && out@
                == full_format(
                content@,
                file_width(*options),
                file_wrap(*options).unwrap(),
                file_olm(*options).unwrap(),
            ),
            Err(_) => file_wrap(*options) is None || file_olm(*options) is None,
        }),
{
    let width: usize = match options {
        Some(o) => match o.width {
            Some(w) => w as usize,
            None => 80,
        },
        None => 80,
    };
    let wrap_ref: Option<&String> = match options {
        Some(o) => match &o.wrap {
            Some(s) => Some(s),
            None => None,
        },
        None => None,
    };
    let olm_ref: Option<&String> = match options {
        Some(o) => match &o.ordered_list {
            Some(s) => Some(s),
            None => None,
        },
        None => None,
    };
    let wrap = match parse_wrap_mode(wrap_ref) {
        Ok(m) => m,
        Err(e) => {
            return Err(e);
        },
    };
    let olm = match parse_ordered_list_mode(olm_ref) {
        Ok(m) => m,
        Err(e) => {
            return Err(e);
        },
    };
    let (fm, body) = extract_frontmatter(content);
    let events = parse_markdown(body.as_str());
    let mut formatter = Formatter::with_options(width, wrap, olm);
    let formatted = formatter.format(events);
    match fm {
        Some(front) => Ok(front.concat(formatted.as_str())),
        None => Ok(formatted),
    }
}

} // verus!
