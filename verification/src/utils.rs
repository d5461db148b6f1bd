use vstd::prelude::*;

verus! {

/// Conversion into the text a database cell holds. The store has no null
/// cells: a missing value is stored as the text `NULL`.
pub trait ToSQL {
    fn to_sql(self) -> (r: String);
}

impl<'a> ToSQL for Option<&'a str> {
    /// A present value is stored as itself, a missing one as the text `NULL`.
    fn to_sql(self) -> (r: String)
        ensures
            r@ == spec_to_sql(match self {
                Some(v) => Some(v@),
                None => None,
            }),
    {
        match self {
            Some(v) => v.to_owned(),
            None => "NULL".to_owned(),
        }
    }
}

/// The text a database cell holds for an optional value.
pub open spec fn spec_to_sql(a: Option<Seq<char>>) -> Seq<char> {
    match a {
        Some(v) => v,
        None => "NULL"@,
    }
}

/// Reads an optional value back from the text a database cell holds: the
/// text `NULL` is a missing value, everything else is itself.
pub fn opt_from_sql(repr: String) -> (r: Option<String>)
    ensures
        r.deep_view() == spec_opt_from_sql(repr@),
{
    if crate::strutil::str_eq(repr.as_str(), "NULL") {
        None
    } else {
        Some(repr)
    }
}

/// The optional value a database cell's text denotes.
pub open spec fn spec_opt_from_sql(repr: Seq<char>) -> Option<Seq<char>> {
    if repr == "NULL"@ {
        None
    } else {
        Some(repr)
    }
}

/// Reading a stored optional value back yields the value, unless the value
/// itself was the text `NULL`, which reads back as missing.
pub proof fn lemma_sql_option_round_trip(a: Option<Seq<char>>)
    requires
        a matches Some(v) ==> v != "NULL"@,
    ensures
        spec_opt_from_sql(spec_to_sql(a)) == a,
{
}

/// Relies on chrono's `Local::now` and `DateTime::format`: the current local
/// time rendered with the format `%Y-%m-%d %H:%M:%S`, whose numeric fields
/// are zero-padded (the year to at least four digits), so the text has at
/// least 19 characters. Which instant it names depends on the clock.
#[verifier::external_body]
pub(crate) fn now_string() -> (r: String)
    ensures
        r@.len() >= 19,
{
    chrono::Local::now().format("%Y-%m-%d %H:%M:%S").to_string()
}

} // verus!
