//! Settings that come from several places.
use crate::text::trim;
use crate::text::trim_text;
use vstd::prelude::*;
use vstd::string::StrSliceExecFns;

verus! {

/// The address to listen on where nothing else is said.
pub const DEFAULT_LISTEN: &'static str = "127.0.0.1:5000";

/// What is left of a setting without the blanks around it; a blank one says nothing.
pub open spec fn said(setting: Option<Seq<char>>) -> Option<Seq<char>> {
    match setting {
        Some(text) => if trim(text).len() > 0 {
            Some(trim(text))
        } else {
            None
        },
        None => None,
    }
}

/// The address to listen on: what the environment says, or else what the configuration says, or
/// else the usual one.
pub open spec fn listen_addr(environment: Option<Seq<char>>, configured: Option<Seq<char>>) -> Seq<
    char,
> {
    match said(environment) {
        Some(address) => address,
        None => match said(configured) {
            Some(address) => address,
            None => DEFAULT_LISTEN@,
        },
    }
}

/// The characters of a text, where there is one.
pub open spec fn optional_view(text: Option<&str>) -> Option<Seq<char>> {
    match text {
        Some(text) => Some(text@),
        None => None,
    }
}

/// What is left of a setting without the blanks around it; a blank one says nothing.
pub fn said_text<'a>(setting: Option<&'a str>) -> (text: Option<&'a str>)
    ensures
        optional_view(text) == said(optional_view(setting)),
{
    match setting {
        Some(raw) => {
            let text = trim_text(raw);
            if text.unicode_len() > 0 {
                Some(text)
            } else {
                None
            }
        },
        None => None,
    }
}

/// The address to listen on: what the environment says, or else what the configuration says, or
/// else the usual one. Blanks around an address do not count, and a blank address says nothing.
pub fn resolve_listen_addr(environment: Option<&str>, configured: Option<&str>) -> (address: String)
    ensures
        address@ == listen_addr(optional_view(environment), optional_view(configured)),
{
    match said_text(environment) {
        Some(address) => address.to_owned(),
        None => match said_text(configured) {
            Some(address) => address.to_owned(),
            None => DEFAULT_LISTEN.to_owned(),
        },
    }
}

/// Seconds between two refreshes in the background; 0, which turns them off, where nothing is
/// said.
pub fn resolve_refresh_interval(configured: Option<u64>) -> (seconds: u64)
    ensures
        seconds == (match configured {
            Some(seconds) => seconds,
            None => 0,
        }),
{
    match configured {
        Some(seconds) => seconds,
        None => 0,
    }
}

/// A blank setting is as good as none: the next place decides.
pub proof fn law_blank_says_nothing(blank: Seq<char>, configured: Option<Seq<char>>)
    requires
        trim(blank).len() == 0,
    ensures
        listen_addr(Some(blank), configured) == listen_addr(None, configured),
        listen_addr(None, Some(blank)) == DEFAULT_LISTEN@,
{
}

/// What the environment says wins over what the configuration says.
pub proof fn law_environment_wins(address: Seq<char>, configured: Option<Seq<char>>)
    requires
        trim(address).len() > 0,
    ensures
        listen_addr(Some(address), configured) == trim(address),
{
}

/// Where the environment says nothing, what the configuration says counts, without the blanks
/// around it; where that says nothing either, the usual address does.
pub proof fn law_configuration_counts(environment: Option<Seq<char>>, configured: Seq<char>)
    requires
        environment matches Some(text) ==> trim(text).len() == 0,
    ensures
        trim(configured).len() > 0 ==> listen_addr(environment, Some(configured)) == trim(
            configured,
        ),
        trim(configured).len() == 0 ==> listen_addr(environment, Some(configured))
            == "127.0.0.1:5000"@,
        listen_addr(environment, None) == "127.0.0.1:5000"@,
{
}

/// What contracts speak of in place of a setting leaves nothing out.
pub proof fn law_setting_views_are_complete(text: &str)
    ensures
        optional_view(Some(text)) == Some(text@),
        optional_view(None) is None,
{
}

} // verus!
