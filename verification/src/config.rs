use vstd::prelude::*;

use crate::errors::RlistError;

verus! {

/// What a configuration file may specify; either field may be omitted.
#[derive(Debug)]
pub struct ConfigContent {
    pub db_file: Option<String>,
    pub datetime_format: Option<String>,
}

/// The resolved configuration: where the store lives and how creation times
/// are rendered for display.
#[derive(Debug)]
pub struct Config {
    pub db_file: String,
    pub datetime_format: String,
}

/// The display format used when none, or an invalid one, is configured.
pub open spec fn spec_default_datetime_format() -> Seq<char> {
    "%Y-%m-%d %H:%M:%S"@
}

/// The judgement chrono's format parser passes on a display format string;
/// it depends on the text alone.
pub uninterp spec fn spec_strftime_valid(s: Seq<char>) -> bool;

/// Relies on chrono's `StrftimeItems`: walks the parsed format items and
/// reports whether none of them is an error item.
#[verifier::external_body]
pub(crate) fn strftime_is_valid(s: &str) -> (r: bool)
    ensures
        r == spec_strftime_valid(s@),
{
    !chrono::format::StrftimeItems::new(s).any(
        |item| matches!(item, chrono::format::Item::Error),
    )
}

/// The judgement std's path inspection passes on a path: whether it is
/// relative; it depends on the text alone.
pub uninterp spec fn spec_path_is_relative(s: Seq<char>) -> bool;

/// Relies on std's `Path::is_relative`: whether the path is not absolute.
#[verifier::external_body]
pub(crate) fn path_is_relative(s: &str) -> (r: bool)
    ensures
        r == spec_path_is_relative(s@),
{
    std::path::Path::new(s).is_relative()
}

impl Config {
    /// The configuration used when no configuration file exists: the given
    /// default store location and the default display format.
    pub fn maybe_default(default_db_file: String) -> (r: Config)
        ensures
            r.db_file@ == default_db_file@,
            r.datetime_format@ == spec_default_datetime_format(),
    {
        Config { db_file: default_db_file, datetime_format: "%Y-%m-%d %H:%M:%S".to_owned() }
    }

    /// Resolves a parsed configuration file: an invalid display format
    /// falls back to the default, a missing store location falls back to
    /// the given default, and a relative store location is refused.
    pub fn new_from_content(content: ConfigContent, default_db_file: String) -> (r: Result<
        Config,
        RlistError,
    >)
        ensures
            match r {
                Ok(c) => {
                    &&& c.datetime_format@ == match content.datetime_format.deep_view() {
                        Some(f) => if spec_strftime_valid(f) {
                            f
                        } else {
                            spec_default_datetime_format()
                        },
                        None => spec_default_datetime_format(),
                    }
                    &&& c.db_file@ == match content.db_file.deep_view() {
                        Some(p) => p,
                        None => default_db_file@,
                    }
                    &&& (content.db_file.deep_view() matches Some(p) ==> !spec_path_is_relative(
                        p,
                    ))
                },
                Err(e) => {
                    &&& e == RlistError::InvalidArgument
                    &&& content.db_file.deep_view() matches Some(p) && spec_path_is_relative(p)
                },
            },
    {
        let datetime_format = match content.datetime_format {
            Some(f) => {
                if strftime_is_valid(f.as_str()) {
                    f
                } else {
                    "%Y-%m-%d %H:%M:%S".to_owned()
                }
            },
            None => "%Y-%m-%d %H:%M:%S".to_owned(),
        };
        let db_file = match content.db_file {
            Some(p) => {
                if path_is_relative(p.as_str()) {
                    return Err(RlistError::InvalidArgument);
                }
                p
            },
            None => default_db_file,
        };
        Ok(Config { db_file, datetime_format })
    }
}

} // verus!
