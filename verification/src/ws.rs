//! Where a connection goes.

use vstd::prelude::*;

verus! {

/// The parts of a URL: the whole in normal form, the host and the port if it has them,
/// and the path with what follows it.
pub uninterp spec fn url_parts(text: Seq<char>) -> Option<
    (Seq<char>, Option<Seq<char>>, Option<u16>, Seq<char>),
>;

/// The parts of a URL.
#[derive(Clone, Debug)]
pub struct UrlParts {
    /// The whole in normal form.
    pub address: String,
    /// The host.
    pub host: Option<String>,
    /// The port, or the one that the scheme is known for.
    pub port: Option<u16>,
    /// The path with what follows it.
    pub path: String,
}

/// The parts by their characters.
pub open spec fn parts_view(parts: UrlParts) -> (
    Seq<char>,
    Option<Seq<char>>,
    Option<u16>,
    Seq<char>,
) {
    (
        parts.address@,
        match parts.host {
            Some(host) => Some(host@),
            None => None,
        },
        parts.port,
        parts.path@,
    )
}

/// The parts of a URL, `None` if the text is none.
///
/// Calls `url::Url::parse` and reads the result by `as_str`, `host_str`,
/// `port_or_known_default` and the slice from `Position::BeforePath`. They are trusted
/// to depend on the text alone.
#[verifier::external_body]
fn read_url(text: &str) -> (result: Option<UrlParts>)
    ensures
        match result {
            Some(parts) => url_parts(text@) == Some(parts_view(parts)),
            None => url_parts(text@) is None,
        },
{
    match url::Url::parse(text) {
        Ok(url) => Some(UrlParts {
            address: url.as_str().to_owned(),
            host: url.host_str().map(str::to_owned),
            port: url.port_or_known_default(),
            path: url[url::Position::BeforePath..].to_owned(),
        }),
        Err(_) => None,
    }
}

/// What a connection is for.
#[derive(Clone, Copy, Debug, PartialEq, Eq, Structural)]
pub enum Protocol {
    /// A stream.
    Websocket,
    /// One request.
    Https,
}

/// Why a text leads nowhere.
#[derive(Clone, Copy, Debug, PartialEq, Eq, Structural)]
pub enum TargetError {
    /// It is no URL.
    Invalid,
    /// It has no host.
    NoHost,
    /// It has no port.
    NoPort,
}

impl TargetError {
    /// The error in words.
    pub open spec fn words(self, protocol: Protocol) -> Seq<char> {
        match (self, protocol) {
            (TargetError::Invalid, Protocol::Websocket) => "invalid websocket URL"@,
            (TargetError::Invalid, Protocol::Https) => "invalid HTTPS URL"@,
            (TargetError::NoHost, Protocol::Websocket) => "websocket URL has no host"@,
            (TargetError::NoHost, Protocol::Https) => "URL has no host"@,
            (TargetError::NoPort, _) => "URL has no port"@,
        }
    }

    /// The error in words.
    pub fn message(self, protocol: Protocol) -> (message: &'static str)
        ensures
            message@ == self.words(protocol),
    {
        match (self, protocol) {
            (TargetError::Invalid, Protocol::Websocket) => "invalid websocket URL",
            (TargetError::Invalid, Protocol::Https) => "invalid HTTPS URL",
            (TargetError::NoHost, Protocol::Websocket) => "websocket URL has no host",
            (TargetError::NoHost, Protocol::Https) => "URL has no host",
            (TargetError::NoPort, _) => "URL has no port",
        }
    }
}

/// Where a connection goes.
#[derive(Clone, Debug)]
pub struct Target {
    /// The whole URL.
    pub address: String,
    /// The host.
    pub host: String,
    /// The port.
    pub port: u16,
    /// The path with what follows it.
    pub path: String,
}

/// A connection goes where a URL's parts say, if they have a host and a port.
pub open spec fn leads_to(
    parts: Option<(Seq<char>, Option<Seq<char>>, Option<u16>, Seq<char>)>,
    result: Result<Target, TargetError>,
) -> bool {
    match parts {
        None => result == Err::<Target, TargetError>(TargetError::Invalid),
        Some((_, None, _, _)) => result == Err::<Target, TargetError>(TargetError::NoHost),
        Some((_, Some(_), None, _)) => result == Err::<Target, TargetError>(TargetError::NoPort),
        Some((address, Some(host), Some(port), path)) => result matches Ok(target) && target.address@
            == address && target.host@ == host && target.port == port && target.path@ == path,
    }
}

/// Where a connection to a URL with these parts goes.
pub fn target_of(parts: Option<UrlParts>) -> (result: Result<Target, TargetError>)
    ensures
        leads_to(
            match parts {
                Some(parts) => Some(parts_view(parts)),
                None => None,
            },
            result,
        ),
{
    match parts {
        None => Err(TargetError::Invalid),
        Some(parts) => match (parts.host, parts.port) {
            (None, _) => Err(TargetError::NoHost),
            (Some(_), None) => Err(TargetError::NoPort),
            (Some(host), Some(port)) => Ok(
                Target { address: parts.address, host, port, path: parts.path },
            ),
        },
    }
}

/// Where a connection to a URL goes.
pub fn target(url: &str) -> (result: Result<Target, TargetError>)
    ensures
        leads_to(url_parts(url@), result),
{
    target_of(read_url(url))
}

/// A URL with a host and a port leads to them, with its address and path; without a host
/// it lacks one, whatever its port, and without a port alone it lacks that.
pub proof fn urls_lead_to_their_host(
    address: Seq<char>,
    host: Option<Seq<char>>,
    port: Option<u16>,
    path: Seq<char>,
    result: Result<Target, TargetError>,
)
    requires
        leads_to(Some((address, host, port, path)), result),
    ensures
        result is Ok <==> host is Some && port is Some,
        result matches Ok(target) ==> Some(target.host@) == host && Some(target.port) == port
            && target.address@ == address && target.path@ == path,
        host is None ==> result == Err::<Target, TargetError>(TargetError::NoHost),
        host is Some && port is None ==> result == Err::<Target, TargetError>(TargetError::NoPort),
{
}

/// What is no URL leads nowhere.
pub proof fn other_texts_lead_nowhere(result: Result<Target, TargetError>)
    ensures
        leads_to(None, result) <==> result == Err::<Target, TargetError>(TargetError::Invalid),
{
}

/// The words of an error name what is missing, and tell streams from requests but for the
/// port.
pub proof fn errors_name_what_is_missing(error: TargetError, protocol: Protocol, message: &'static str)
    requires
        call_ensures(TargetError::message, (error, protocol), message),
    ensures
        error is NoPort ==> message@ == "URL has no port"@,
        protocol is Websocket ==> {
            &&& error is Invalid ==> message@ == "invalid websocket URL"@
            &&& error is NoHost ==> message@ == "websocket URL has no host"@
        },
        protocol is Https ==> {
            &&& error is Invalid ==> message@ == "invalid HTTPS URL"@
            &&& error is NoHost ==> message@ == "URL has no host"@
        },
{
}

} // verus!
