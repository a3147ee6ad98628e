use vstd::prelude::*;
use vstd::string::StringExecFns;

use crate::external::{debug_quoted, debug_text};

verus! {

/// The decimal digit of a number below ten.
pub open spec fn digit_char(d: nat) -> char {
    if d == 0 {
        '0'
    } else if d == 1 {
        '1'
    } else if d == 2 {
        '2'
    } else if d == 3 {
        '3'
    } else if d == 4 {
        '4'
    } else if d == 5 {
        '5'
    } else if d == 6 {
        '6'
    } else if d == 7 {
        '7'
    } else if d == 8 {
        '8'
    } else {
        '9'
    }
}

/// The decimal text of a number, without leading zeros.
pub open spec fn decimal(n: nat) -> Seq<char>
    decreases n,
{
    if n < 10 {
        seq![digit_char(n)]
    } else {
        decimal(n / 10).push(digit_char(n % 10))
    }
}

fn digit_str(d: usize) -> (r: &'static str)
    requires
        d < 10,
    ensures
        r@ == seq![digit_char(d as nat)],
{
    proof {
        reveal_strlit("0");
        reveal_strlit("1");
        reveal_strlit("2");
        reveal_strlit("3");
        reveal_strlit("4");
        reveal_strlit("5");
        reveal_strlit("6");
        reveal_strlit("7");
        reveal_strlit("8");
        reveal_strlit("9");
    }
    let r = if d == 0 {
        "0"
    } else if d == 1 {
        "1"
    } else if d == 2 {
        "2"
    } else if d == 3 {
        "3"
    } else if d == 4 {
        "4"
    } else if d == 5 {
        "5"
    } else if d == 6 {
        "6"
    } else if d == 7 {
        "7"
    } else if d == 8 {
        "8"
    } else {
        "9"
    };
    assert(r@ =~= seq![digit_char(d as nat)]);
    r
}

/// Appends the decimal text of `n`.
fn push_decimal(out: &mut String, n: usize)
    ensures
        final(out)@ == old(out)@ + decimal(n as nat),
    decreases n,
{
    if n >= 10 {
        push_decimal(out, n / 10);
    }
    out.append(digit_str(n % 10));
    proof {
        if n >= 10 {
            assert(old(out)@ + decimal((n / 10) as nat) + seq![digit_char((n % 10) as nat)]
                =~= old(out)@ + decimal(n as nat));
        } else {
            assert(old(out)@ + seq![digit_char((n % 10) as nat)] =~= old(out)@ + decimal(n as nat));
        }
    }
}

/// The display text of a stream error.
pub open spec fn stream_error_text(e: StreamError) -> Seq<char> {
    match e {
        StreamError::AuthRefused => "authentication refused (check your token and product)"@,
        StreamError::Kicked => "kicked by operator — do not reconnect in a loop"@,
        StreamError::InvalidFilter(m) => "invalid filter: "@ + m@,
        StreamError::Closed => "client closed"@,
    }
}

/// The display text of a filter error.
pub open spec fn filter_error_text(e: FilterError) -> Seq<char> {
    match e {
        FilterError::InvalidKey(k) => "filter key "@ + debug_quoted(k@)
            + " is not a base58-encoded 32-byte public key"@,
        FilterError::TooManyKeys(n, c) => "filter "@ + debug_quoted(n@) + " has "@ + decimal(
            c as nat,
        ) + " keys (max 1000 per filter)"@,
        FilterError::TooManyFilters(n) => decimal(n as nat) + " named filters (max 16)"@,
        FilterError::Empty => "empty filter map delivers nothing — use Filter::all() to receive everything"@,
    }
}

/// The display text of a connection error; a filter error shows as itself.
pub open spec fn connect_error_text(e: ConnectError) -> Seq<char> {
    match e {
        ConnectError::InvalidEndpoint(s) => "invalid endpoint "@ + debug_quoted(s@),
        ConnectError::Filter(f) => filter_error_text(f),
        ConnectError::InvalidToken => "token contains invalid metadata characters"@,
        ConnectError::Transport(s) => "transport: "@ + s@,
    }
}

/// What ends a subscription stream.
#[derive(Debug, PartialEq, Eq)]
#[non_exhaustive]
pub enum StreamError {
    /// The token is missing, invalid, or not valid for this stream.
    AuthRefused,
    /// The server ended the session and denies further access.
    Kicked,
    /// The server rejected the filter map.
    InvalidFilter(String),
    /// The client was closed locally.
    Closed,
}

/// Why a filter or a filter map was refused.
#[derive(Debug, PartialEq, Eq)]
#[non_exhaustive]
pub enum FilterError {
    /// The key is not a base58-encoded 32-byte public key.
    InvalidKey(String),
    /// The named filter holds more keys than one filter may.
    TooManyKeys(String, usize),
    /// The map holds more named filters than allowed.
    TooManyFilters(usize),
    /// The map holds no filter, so it would deliver nothing.
    Empty,
}

impl StreamError {
    /// The error's display text.
    pub fn text(&self) -> (r: String)
        ensures
            r@ == stream_error_text(*self),
    {
        match self {
            StreamError::AuthRefused => String::from_str(
                "authentication refused (check your token and product)",
            ),
            StreamError::Kicked => String::from_str("kicked by operator — do not reconnect in a loop"),
            StreamError::InvalidFilter(m) => {
                let mut t = String::from_str("invalid filter: ");
                t.append(m.as_str());
                t
            },
            StreamError::Closed => String::from_str("client closed"),
        }
    }
}

impl FilterError {
    /// The error's display text.
    pub fn text(&self) -> (r: String)
        ensures
            r@ == filter_error_text(*self),
    {
        match self {
            FilterError::InvalidKey(k) => {
                let mut t = String::from_str("filter key ");
                t.append(debug_text(k.as_str()).as_str());
                t.append(" is not a base58-encoded 32-byte public key");
                t
            },
            FilterError::TooManyKeys(n, c) => {
                let mut t = String::from_str("filter ");
                t.append(debug_text(n.as_str()).as_str());
                t.append(" has ");
                push_decimal(&mut t, *c);
                t.append(" keys (max 1000 per filter)");
                t
            },
            FilterError::TooManyFilters(n) => {
                let mut t = String::new();
                push_decimal(&mut t, *n);
                t.append(" named filters (max 16)");
                t
            },
            FilterError::Empty => String::from_str(
                "empty filter map delivers nothing — use Filter::all() to receive everything",
            ),
        }
    }
}

impl ConnectError {
    /// The error's display text.
    pub fn text(&self) -> (r: String)
        ensures
            r@ == connect_error_text(*self),
    {
        match self {
            ConnectError::InvalidEndpoint(s) => {
                let mut t = String::from_str("invalid endpoint ");
                t.append(debug_text(s.as_str()).as_str());
                t
            },
            ConnectError::Filter(f) => f.text(),
            ConnectError::InvalidToken => String::from_str("token contains invalid metadata characters"),
            ConnectError::Transport(s) => {
                let mut t = String::from_str("transport: ");
                t.append(s.as_str());
                t
            },
        }
    }
}

impl Clone for StreamError {
    fn clone(&self) -> (r: StreamError)
        ensures
            r == *self,
    {
        match self {
            StreamError::AuthRefused => StreamError::AuthRefused,
            StreamError::Kicked => StreamError::Kicked,
            StreamError::InvalidFilter(m) => StreamError::InvalidFilter(m.clone()),
            StreamError::Closed => StreamError::Closed,
        }
    }
}

impl Clone for FilterError {
    fn clone(&self) -> (r: FilterError)
        ensures
            r == *self,
    {
        match self {
            FilterError::InvalidKey(k) => FilterError::InvalidKey(k.clone()),
            FilterError::TooManyKeys(n, c) => FilterError::TooManyKeys(n.clone(), *c),
            FilterError::TooManyFilters(n) => FilterError::TooManyFilters(*n),
            FilterError::Empty => FilterError::Empty,
        }
    }
}

/// Why a connection could not be opened.
#[derive(Debug)]
#[non_exhaustive]
pub enum ConnectError {
    /// The endpoint is not a `host` or `host:port` address.
    InvalidEndpoint(String),
    /// The filter map failed validation.
    Filter(FilterError),
    /// The token cannot be sent as request metadata.
    InvalidToken,
    /// The first connection attempt failed.
    Transport(String),
}

impl From<FilterError> for ConnectError {
    fn from(e: FilterError) -> (r: ConnectError) {
        ConnectError::Filter(e)
    }
}

impl vstd::std_specs::convert::FromSpecImpl<FilterError> for ConnectError {
    open spec fn obeys_from_spec() -> bool {
        true
    }

    open spec fn from_spec(e: FilterError) -> ConnectError {
        ConnectError::Filter(e)
    }
}

} // verus!
