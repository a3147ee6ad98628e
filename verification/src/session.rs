//! The decisions of a streaming subscription session: the endpoint it
//! connects to, the credentials it sends, how a failed stream is classified
//! and what the session does next. The transport performs what these
//! decisions call for and reports back what happened.

use vstd::prelude::*;
use vstd::string::{StrSliceExecFns, StringExecFns};

use std::time::SystemTime;

use crate::error::{filter_error_text, ConnectError, FilterError, StreamError};
use crate::external::{duration_new, system_time_checked_add, unix_epoch};
use crate::filters::{FilterView, Filters, MAX_NAMED_FILTERS};
use crate::stats::{zero_stats, Stats, StatsSnapshot};

verus! {

/// The port used when an endpoint names none.
pub const DEFAULT_PORT: u16 = 9991;

/// The characters of a text, in order.
fn chars_of(s: &str) -> (r: Vec<char>)
    ensures
        r@ == s@,
{
    let mut out: Vec<char> = Vec::new();
    for c in iter: s.chars()
        invariant
            out@ == iter.history(),
    {
        out.push(c);
    }
    out
}

/// The Unicode `White_Space` property, which `str::trim` removes.
pub open spec fn is_white_space(c: char) -> bool {
    let u = c as u32;
    (0x9 <= u <= 0xD) || u == 0x20 || u == 0x85 || u == 0xA0 || u == 0x1680 || (0x2000 <= u
        <= 0x200A) || u == 0x2028 || u == 0x2029 || u == 0x202F || u == 0x205F || u == 0x3000
}

fn white_space(c: char) -> (r: bool)
    ensures
        r == is_white_space(c),
{
    let u = c as u32;
    (0x9 <= u && u <= 0xD) || u == 0x20 || u == 0x85 || u == 0xA0 || u == 0x1680 || (0x2000 <= u
        && u <= 0x200A) || u == 0x2028 || u == 0x2029 || u == 0x202F || u == 0x205F || u == 0x3000
}

/// The text without its leading white space.
pub open spec fn trim_start(s: Seq<char>) -> Seq<char>
    decreases s.len(),
{
    if s.len() > 0 && is_white_space(s[0]) {
        trim_start(s.drop_first())
    } else {
        s
    }
}

/// The text without its trailing white space.
pub open spec fn trim_end(s: Seq<char>) -> Seq<char>
    decreases s.len(),
{
    if s.len() > 0 && is_white_space(s.last()) {
        trim_end(s.drop_last())
    } else {
        s
    }
}

/// The text without leading and trailing white space.
pub open spec fn trim(s: Seq<char>) -> Seq<char> {
    trim_end(trim_start(s))
}

pub open spec fn http_prefix() -> Seq<char> {
    seq!['h', 't', 't', 'p', ':', '/', '/']
}

pub open spec fn https_prefix() -> Seq<char> {
    seq!['h', 't', 't', 'p', 's', ':', '/', '/']
}

/// `:` followed by the default port.
pub open spec fn default_port_suffix() -> Seq<char> {
    seq![':', '9', '9', '9', '1']
}

pub open spec fn starts_with(s: Seq<char>, prefix: Seq<char>) -> bool {
    s.len() >= prefix.len() && s.subrange(0, prefix.len() as int) == prefix
}

/// The text without a leading `http://`.
pub open spec fn strip_http(s: Seq<char>) -> Seq<char> {
    if starts_with(s, http_prefix()) {
        s.subrange(7, s.len() as int)
    } else {
        s
    }
}

/// Where the character last occurs in the text.
pub open spec fn last_index_of(s: Seq<char>, c: char) -> Option<int>
    decreases s.len(),
{
    if s.len() == 0 {
        None
    } else if s.last() == c {
        Some(s.len() - 1)
    } else {
        last_index_of(s.drop_last(), c)
    }
}

proof fn lemma_last_index_of(s: Seq<char>, c: char)
    ensures
        match last_index_of(s, c) {
            Some(i) => 0 <= i < s.len() && s[i] == c && forall|j: int| i < j < s.len() ==> s[j] != c,
            None => !s.contains(c),
        },
    decreases s.len(),
{
    if s.len() > 0 && s.last() != c {
        let t = s.drop_last();
        lemma_last_index_of(t, c);
        assert forall|j: int| 0 <= j < t.len() implies t[j] == s[j] by {}
        if s.contains(c) {
            let k = choose|k: int| 0 <= k < s.len() && s[k] == c;
            assert(t[k] == c);
        }
    }
}

pub open spec fn is_ascii_digit(c: char) -> bool {
    '0' <= c <= '9'
}

/// The address carries a port: after its last `:` come one or more ASCII
/// digits, and that `:` is not inside a bracketed IPv6 literal.
pub open spec fn has_port(e: Seq<char>) -> bool {
    match last_index_of(e, ':') {
        None => false,
        Some(i) => {
            let tail = e.subrange(i + 1, e.len() as int);
            &&& tail.len() > 0
            &&& forall|j: int| 0 <= j < tail.len() ==> is_ascii_digit(#[trigger] tail[j])
            &&& (!e.contains(']') || i > last_index_of(e, ']').unwrap())
        },
    }
}

/// The URL the session connects to: the endpoint, trimmed and without a
/// leading `http://`, must be a non-empty `host` or `host:port` (no `/`);
/// the default port is added when it carries none. `None` when the endpoint
/// is not such an address.
pub open spec fn spec_normalize_endpoint(endpoint: Seq<char>) -> Option<Seq<char>> {
    let e = strip_http(trim(endpoint));
    if e.len() == 0 || e.contains('/') || starts_with(e, https_prefix()) {
        None
    } else if has_port(e) {
        Some(http_prefix() + e)
    } else {
        Some(http_prefix() + e + default_port_suffix())
    }
}

/// Bounds of the text without leading and trailing white space.
fn trim_bounds(s: &Vec<char>) -> (r: (usize, usize))
    ensures
        r.0 <= r.1 <= s@.len(),
        s@.subrange(r.0 as int, r.1 as int) == trim(s@),
{
    let len = s.len();
    let mut start: usize = 0;
    assert(s@.subrange(0, len as int) =~= s@);
    while start < len && white_space(s[start])
        invariant
            start <= len == s@.len(),
            trim_start(s@) == trim_start(s@.subrange(start as int, len as int)),
        decreases len - start,
    {
        assert(s@.subrange(start as int, len as int).drop_first() =~= s@.subrange(
            start + 1,
            len as int,
        ));
        start = start + 1;
    }
    assert(trim_start(s@) == s@.subrange(start as int, len as int));
    let mut end: usize = len;
    while end > start && white_space(s[end - 1])
        invariant
            start <= end <= len == s@.len(),
            trim_start(s@) == s@.subrange(start as int, len as int),
            trim(s@) == trim_end(s@.subrange(start as int, end as int)),
        decreases end,
    {
        assert(s@.subrange(start as int, end as int).drop_last() =~= s@.subrange(
            start as int,
            end - 1,
        ));
        end = end - 1;
    }
    (start, end)
}

/// Whether `c` occurs in `s[from..to]`.
fn contains_char(s: &Vec<char>, from: usize, to: usize, c: char) -> (r: bool)
    requires
        from <= to <= s@.len(),
    ensures
        r == s@.subrange(from as int, to as int).contains(c),
{
    let mut i = from;
    while i < to
        invariant
            from <= i <= to <= s@.len(),
            forall|k: int| from <= k < i ==> s@[k] != c,
        decreases to - i,
    {
        if s[i] == c {
            assert(s@.subrange(from as int, to as int)[i - from] == c);
            return true;
        }
        i = i + 1;
    }
    proof {
        if s@.subrange(from as int, to as int).contains(c) {
            let k = choose|k: int|
                0 <= k < to - from && s@.subrange(from as int, to as int)[k] == c;
            assert(s@[from + k] == c);
        }
    }
    false
}

/// Whether `s[from..to]` starts with the given characters.
fn starts_with_chars(s: &Vec<char>, from: usize, to: usize, prefix: &[char]) -> (r: bool)
    requires
        from <= to <= s@.len(),
    ensures
        r == starts_with(s@.subrange(from as int, to as int), prefix@),
{
    if to - from < prefix.len() {
        return false;
    }
    let mut k: usize = 0;
    while k < prefix.len()
        invariant
            k <= prefix@.len(),
            from + prefix@.len() <= to <= s@.len(),
            forall|j: int| 0 <= j < k ==> s@[from + j] == prefix@[j],
        decreases prefix@.len() - k,
    {
        if s[from + k] != prefix[k] {
            assert(s@.subrange(from as int, to as int).subrange(0, prefix@.len() as int)[k as int]
                != prefix@[k as int]);
            return false;
        }
        k = k + 1;
    }
    assert(s@.subrange(from as int, to as int).subrange(0, prefix@.len() as int) =~= prefix@);
    true
}

/// Where `c` last occurs in `s[from..to]`, counted from `from`.
fn last_index(s: &Vec<char>, from: usize, to: usize, c: char) -> (r: Option<usize>)
    requires
        from <= to <= s@.len(),
    ensures
        match last_index_of(s@.subrange(from as int, to as int), c) {
            None => r is None,
            Some(i) => r matches Some(x) && x == i,
        },
        r matches Some(i) ==> i < to - from,
{
    proof {
        lemma_last_index_of(s@.subrange(from as int, to as int), c);
    }
    let mut end = to;
    while end > from
        invariant
            from <= end <= to <= s@.len(),
            last_index_of(s@.subrange(from as int, to as int), c) == last_index_of(
                s@.subrange(from as int, end as int),
                c,
            ),
        decreases end,
    {
        if s[end - 1] == c {
            return Some(end - 1 - from);
        }
        assert(s@.subrange(from as int, end as int).drop_last() =~= s@.subrange(
            from as int,
            end - 1,
        ));
        end = end - 1;
    }
    None
}

/// Whether `s[from..to]` is made of ASCII digits only.
fn all_digits(s: &Vec<char>, from: usize, to: usize) -> (r: bool)
    requires
        from <= to <= s@.len(),
    ensures
        r == forall|j: int|
            0 <= j < to - from ==> is_ascii_digit(#[trigger] s@.subrange(from as int, to as int)[j]),
{
    let mut i = from;
    while i < to
        invariant
            from <= i <= to <= s@.len(),
            forall|k: int| from <= k < i ==> is_ascii_digit(#[trigger] s@[k]),
        decreases to - i,
    {
        if !('0' <= s[i] && s[i] <= '9') {
            assert(!is_ascii_digit(s@.subrange(from as int, to as int)[i - from]));
            return false;
        }
        i = i + 1;
    }
    assert forall|j: int| 0 <= j < to - from implies is_ascii_digit(
        #[trigger] s@.subrange(from as int, to as int)[j],
    ) by {
        assert(s@.subrange(from as int, to as int)[j] == s@[from + j]);
    }
    true
}

/// The URL the session connects to, or `InvalidEndpoint` with the endpoint
/// as given.
pub fn normalize_endpoint(endpoint: &str) -> (r: Result<String, ConnectError>)
    ensures
        match spec_normalize_endpoint(endpoint@) {
            None => r matches Err(ConnectError::InvalidEndpoint(s)) && s@ == endpoint@,
            Some(url) => r matches Ok(s) && s@ == url,
        },
{
    let chars = chars_of(endpoint);
    let (start, end) = trim_bounds(&chars);
    let ghost t = chars@.subrange(start as int, end as int);
    let http = ['h', 't', 't', 'p', ':', '/', '/'];
    let https = ['h', 't', 't', 'p', 's', ':', '/', '/'];
    assert(http@ =~= http_prefix());
    assert(https@ =~= https_prefix());
    let mut start = start;
    if starts_with_chars(&chars, start, end, http.as_slice()) {
        start = start + 7;
        assert(chars@.subrange(start as int, end as int) =~= t.subrange(7, t.len() as int));
    }
    let ghost e = chars@.subrange(start as int, end as int);
    assert(e == strip_http(trim(endpoint@)));
    if start == end || contains_char(&chars, start, end, '/') || starts_with_chars(
        &chars,
        start,
        end,
        https.as_slice(),
    ) {
        return Err(ConnectError::InvalidEndpoint(String::from_str(endpoint)));
    }
    let port_given = match last_index(&chars, start, end, ':') {
        Some(i) => {
            let ghost tail = e.subrange(i + 1, e.len() as int);
            let digits = all_digits(&chars, start + i + 1, end) && start + i + 1 < end;
            assert(chars@.subrange(start + i + 1, end as int) =~= tail);
            assert(digits == (tail.len() > 0 && forall|j: int|
                0 <= j < tail.len() ==> is_ascii_digit(#[trigger] tail[j])));
            let outside_brackets = if contains_char(&chars, start, end, ']') {
                proof {
                    lemma_last_index_of(e, ']');
                }
                match last_index(&chars, start, end, ']') {
                    Some(b) => i > b,
                    None => true,
                }
            } else {
                true
            };
            assert(outside_brackets == (!e.contains(']') || i > last_index_of(e, ']').unwrap()));
            digits && outside_brackets
        },
        None => false,
    };
    assert(port_given == has_port(e));
    let host = endpoint.substring_char(start, end);
    let mut url = String::from_str("http://");
    url.append(host);
    if !port_given {
        url.append(":9991");
    }
    proof {
        reveal_strlit("http://");
        reveal_strlit(":9991");
        assert("http://"@ =~= http_prefix());
        assert(":9991"@ =~= default_port_suffix());
    }
    Ok(url)
}

/// How the request credentials are sent.
#[derive(Clone, Copy, Debug, PartialEq, Eq, Structural)]
pub enum AuthStyle {
    /// `authorization: Bearer <token>`.
    Bearer,
    /// `x-token: <token>`.
    XToken,
}

impl Default for AuthStyle {
    fn default() -> (r: AuthStyle)
        ensures
            r == AuthStyle::Bearer,
    {
        AuthStyle::Bearer
    }
}

/// The metadata header that carries the token, and its value.
pub fn auth_metadata(style: AuthStyle, token: &str) -> (r: (&'static str, String))
    ensures
        style == AuthStyle::Bearer ==> r.0 == "authorization" && r.1@ == "Bearer "@ + token@,
        style == AuthStyle::XToken ==> r.0 == "x-token" && r.1@ == token@,
{
    match style {
        AuthStyle::Bearer => {
            let mut value = String::from_str("Bearer ");
            value.append(token);
            ("authorization", value)
        },
        AuthStyle::XToken => ("x-token", String::from_str(token)),
    }
}

/// The status code of a failed call, as gRPC numbers them.
#[derive(Clone, Copy, Debug, PartialEq, Eq, Structural)]
pub enum StatusCode {
    /// Not an error (gRPC's `OK`).
    Success,
    Cancelled,
    Unknown,
    InvalidArgument,
    DeadlineExceeded,
    NotFound,
    AlreadyExists,
    PermissionDenied,
    ResourceExhausted,
    FailedPrecondition,
    Aborted,
    OutOfRange,
    Unimplemented,
    Internal,
    Unavailable,
    DataLoss,
    Unauthenticated,
}

/// What a failed stream means for the session.
#[derive(Clone, Debug, PartialEq, Eq)]
pub enum Classified {
    /// The stream ends with this error.
    Terminal(StreamError),
    /// The client consumed too slowly and the server dropped messages.
    DataLoss,
    /// Any other interruption: reconnect.
    Recoverable,
}

/// Classifies a failed stream by its status: refused authentication, a
/// denied session and a rejected filter map end the stream; data loss has
/// its own handling; everything else is recoverable.
pub fn classify(code: StatusCode, message: &str) -> (r: Classified)
    ensures
        code == StatusCode::Unauthenticated ==> r == Classified::Terminal(StreamError::AuthRefused),
        code == StatusCode::PermissionDenied ==> r == Classified::Terminal(StreamError::Kicked),
        code == StatusCode::InvalidArgument ==> (r matches Classified::Terminal(
            StreamError::InvalidFilter(m),
        ) && m@ == message@),
        code == StatusCode::DataLoss ==> r == Classified::DataLoss,
        code != StatusCode::Unauthenticated && code != StatusCode::PermissionDenied && code
            != StatusCode::InvalidArgument && code != StatusCode::DataLoss ==> r
            == Classified::Recoverable,
{
    match code {
        StatusCode::Unauthenticated => Classified::Terminal(StreamError::AuthRefused),
        StatusCode::PermissionDenied => Classified::Terminal(StreamError::Kicked),
        StatusCode::InvalidArgument => Classified::Terminal(
            StreamError::InvalidFilter(String::from_str(message)),
        ),
        StatusCode::DataLoss => Classified::DataLoss,
        _ => Classified::Recoverable,
    }
}

/// The error of a first connection that failed with the given status:
/// refused authentication is reported in plain words, anything else by the
/// status's own text.
pub fn connect_failure(code: StatusCode, message: &str, status_text: String) -> (r: ConnectError)
    ensures
        code == StatusCode::Unauthenticated ==> (r matches ConnectError::Transport(s) && s@
            == "authentication refused (check your token and product)"@),
        code != StatusCode::Unauthenticated ==> (r matches ConnectError::Transport(s) && s@
            == status_text@),
{
    match classify(code, message) {
        Classified::Terminal(StreamError::AuthRefused) => ConnectError::Transport(
            String::from_str("authentication refused (check your token and product)"),
        ),
        _ => ConnectError::Transport(status_text),
    }
}

/// What opening a subscription needs: the session that will carry it, the
/// URL to connect to, and the metadata header that carries the token with
/// its value.
pub struct ConnectPlan {
    pub session: Session,
    pub url: String,
    pub header: &'static str,
    pub value: String,
}

/// The checks and settings that precede the first connection, in order: the
/// filter map is validated, then the endpoint normalized, then the
/// credentials put in their header. Whether the header value is accepted
/// as request metadata is the transport's to decide.
pub fn plan_connection(filters: Filters, endpoint: &str, style: AuthStyle, token: &str) -> (r:
    Result<ConnectPlan, ConnectError>)
    ensures
        filters@.len() == 0 ==> r matches Err(ConnectError::Filter(FilterError::Empty)),
        filters@.len() > MAX_NAMED_FILTERS ==> (r matches Err(
            ConnectError::Filter(FilterError::TooManyFilters(n)),
        ) && n == filters@.len() as usize),
        0 < filters@.len() <= MAX_NAMED_FILTERS && spec_normalize_endpoint(endpoint@) is None ==> (
        r matches Err(ConnectError::InvalidEndpoint(e)) && e@ == endpoint@),
        0 < filters@.len() <= MAX_NAMED_FILTERS ==> (spec_normalize_endpoint(endpoint@) matches Some(
            url,
        ) ==> (r matches Ok(plan) && plan.url@ == url && plan.session@ == (SessionView {
            state: SessionState::Disconnected,
            attempt: 0,
            reconnect_now: false,
            ever_connected: false,
            stats: zero_stats(),
            filters: filters@,
        }) && (style == AuthStyle::Bearer ==> plan.header == "authorization" && plan.value@
            == "Bearer "@ + token@) && (style == AuthStyle::XToken ==> plan.header == "x-token"
            && plan.value@ == token@))),
{
    let session = match Session::new(filters) {
        Ok(s) => s,
        Err(e) => {
            return Err(ConnectError::from(e));
        },
    };
    let url = normalize_endpoint(endpoint)?;
    let (header, value) = auth_metadata(style, token);
    Ok(ConnectPlan { session, url, header, value })
}

/// The offset from the Unix epoch of a transaction's creation time, from
/// the seconds and nanoseconds the server sent: `None` when either is
/// negative, else both as unsigned values.
pub open spec fn spec_creation_offset(seconds: i64, nanos: i32) -> Option<(u64, u32)> {
    if seconds < 0 || nanos < 0 {
        None
    } else {
        Some((seconds as u64, nanos as u32))
    }
}

/// The offset from the Unix epoch of a transaction's creation time.
pub fn creation_offset(seconds: i64, nanos: i32) -> (r: Option<(u64, u32)>)
    ensures
        r == spec_creation_offset(seconds, nanos),
{
    if seconds < 0 || nanos < 0 {
        None
    } else {
        Some((seconds as u64, nanos as u32))
    }
}

/// When the server emitted a transaction: the Unix epoch plus the offset
/// `creation_offset` gives, as one duration of those seconds and
/// nanoseconds; `None` when there is no offset, or when the clock cannot
/// represent that time. Which times the clock can represent is the
/// platform's, and is not stated.
pub fn creation_time(seconds: i64, nanos: i32) -> (r: Option<SystemTime>)
    ensures
        spec_creation_offset(seconds, nanos) is None ==> r is None,
        r is Some ==> spec_creation_offset(seconds, nanos) is Some,
{
    match creation_offset(seconds, nanos) {
        None => None,
        Some((secs, subsec)) => system_time_checked_add(unix_epoch(), duration_new(secs, subsec)),
    }
}

/// The xorshift step of the reconnection jitter.
pub open spec fn xorshift(x: u64) -> u64 {
    let a = x ^ (x << 13u64);
    let b = a ^ (a >> 7u64);
    b ^ (b << 17u64)
}

/// The source of the random factor applied to reconnection delays.
pub struct Jitter(u64);

impl View for Jitter {
    type V = u64;

    closed spec fn view(&self) -> u64 {
        self.0
    }
}

impl Jitter {
    /// Seeds the generator from the clock's nanoseconds since the epoch, or
    /// from a fixed odd constant when the clock gave none; the state is
    /// always odd, so never zero.
    pub fn from_clock(nanos: Option<u64>) -> (r: Jitter)
        ensures
            r@ == (match nanos {
                Some(n) => n,
                None => 0x9E3779B97F4A7C15u64,
            }) | 1u64,
            r@ != 0,
    {
        let seed = match nanos {
            Some(n) => n,
            None => 0x9E3779B97F4A7C15u64,
        };
        assert(seed | 1u64 != 0u64) by (bit_vector);
        Jitter(seed | 1)
    }

    /// Advances the generator and returns its top 53 bits: divided by 2^53
    /// they give a factor in [0, 1).
    pub fn next_bits(&mut self) -> (r: u64)
        ensures
            final(self)@ == xorshift(old(self)@),
            r == xorshift(old(self)@) >> 11u64,
            r < 0x20_0000_0000_0000,
    {
        let mut x = self.0;
        x = x ^ (x << 13u64);
        x = x ^ (x >> 7u64);
        x = x ^ (x << 17u64);
        self.0 = x;
        assert(x >> 11u64 < 0x20_0000_0000_0000u64) by (bit_vector);
        x >> 11
    }
}

/// Where a session stands.
#[derive(Clone, Debug, PartialEq, Eq)]
pub enum SessionState {
    /// No stream: the next step waits and reconnects.
    Disconnected,
    /// A stream is open: the next step receives from it.
    Connected,
    /// The stream ended with this error, not yet reported.
    Terminal(StreamError),
    /// The stream is over: nothing more comes.
    Finished,
}

impl SessionState {
    /// A short name of the state, for debug output.
    pub fn label(&self) -> (r: &'static str)
        ensures
            self is Disconnected ==> r == "disconnected",
            self is Connected ==> r == "connected",
            self is Terminal ==> r == "terminal",
            self is Finished ==> r == "finished",
    {
        match self {
            SessionState::Disconnected => "disconnected",
            SessionState::Connected => "connected",
            SessionState::Terminal(_) => "terminal",
            SessionState::Finished => "finished",
        }
    }
}

/// What the transport is to do next.
#[derive(Clone, Debug, PartialEq, Eq)]
pub enum Step {
    /// Report the end of the stream.
    End,
    /// Report this error; the stream is over.
    Fail(StreamError),
    /// Announce reconnection attempt `attempt`, wait the backoff delay, then
    /// try to connect.
    Backoff { attempt: u32 },
    /// Announce reconnection attempt `attempt` with no delay, then try to
    /// connect at once.
    Reconnect { attempt: u32 },
    /// Wait for the next message of the open stream.
    Receive,
}

/// The state of a subscription session: where it stands, how many
/// reconnection attempts ran since the connection last held, whether the
/// next attempt is to be made at once, whether it ever connected, and its
/// counters.
pub struct Session {
    state: SessionState,
    attempt: u32,
    reconnect_now: bool,
    ever_connected: bool,
    stats: Stats,
    filters: Filters,
}

/// A session as a value.
pub struct SessionView {
    pub state: SessionState,
    pub attempt: u32,
    pub reconnect_now: bool,
    pub ever_connected: bool,
    pub stats: StatsSnapshot,
    pub filters: Map<Seq<char>, FilterView>,
}

impl View for Session {
    type V = SessionView;

    closed spec fn view(&self) -> SessionView {
        SessionView {
            state: self.state,
            attempt: self.attempt,
            reconnect_now: self.reconnect_now,
            ever_connected: self.ever_connected,
            stats: self.stats@,
            filters: self.filters@,
        }
    }
}

/// The next step from a state, and the state after it.
pub open spec fn spec_poll(s: SessionView) -> (SessionView, Step) {
    match s.state {
        SessionState::Finished => (s, Step::End),
        SessionState::Terminal(e) => (SessionView { state: SessionState::Finished, ..s }, Step::Fail(e)),
        SessionState::Disconnected => {
            let attempt = if s.attempt == u32::MAX {
                u32::MAX
            } else {
                (s.attempt + 1) as u32
            };
            let step = if s.reconnect_now {
                Step::Reconnect { attempt }
            } else {
                Step::Backoff { attempt }
            };
            (SessionView { attempt, reconnect_now: false, ..s }, step)
        },
        SessionState::Connected => (s, Step::Receive),
    }
}

/// A connection was established: counted as a reconnection when the
/// session had connected before.
pub open spec fn spec_connected(s: SessionView) -> SessionView {
    SessionView {
        state: SessionState::Connected,
        reconnect_now: false,
        ever_connected: true,
        stats: if s.ever_connected {
            StatsSnapshot { reconnects: s.stats.reconnects.wrapping_add(1), ..s.stats }
        } else {
            s.stats
        },
        ..s
    }
}

/// A message arrived on the open stream. A connection that has held long
/// enough restarts the backoff; a message carrying a non-empty transaction
/// is counted as delivered, any other as undecodable.
pub open spec fn spec_received(s: SessionView, stable: bool, transaction: Option<(u64, Option<usize>)>) -> SessionView {
    let attempt = if stable {
        0u32
    } else {
        s.attempt
    };
    let stats = match transaction {
        Some((slot, Some(len))) => if len > 0 {
            StatsSnapshot {
                messages: s.stats.messages.wrapping_add(1),
                bytes: s.stats.bytes.wrapping_add(len as u64),
                last_slot: slot,
                ..s.stats
            }
        } else {
            StatsSnapshot { decode_errors: s.stats.decode_errors.wrapping_add(1), ..s.stats }
        },
        _ => StatsSnapshot { decode_errors: s.stats.decode_errors.wrapping_add(1), ..s.stats },
    };
    SessionView { attempt, stats, ..s }
}

/// Whether a received message is delivered as an update.
pub open spec fn delivers(transaction: Option<(u64, Option<usize>)>) -> bool {
    transaction matches Some((_, Some(len))) && len > 0
}

/// A failed stream, by what its status was classified as: a terminal
/// status ends the session with its error; data loss disconnects, and the
/// next attempt is made at once unless data was already lost within the
/// last ten seconds; anything else disconnects. The flag says whether the
/// next attempt is made at once.
pub open spec fn spec_failed(s: SessionView, classified: Classified, recent_data_loss: bool) -> (SessionView, bool) {
    match classified {
        Classified::Terminal(e) => (
            SessionView { state: SessionState::Terminal(e), reconnect_now: false, ..s },
            false,
        ),
        Classified::DataLoss => if recent_data_loss {
            (disconnected(s), false)
        } else {
            (SessionView { state: SessionState::Disconnected, reconnect_now: true, ..s }, true)
        },
        Classified::Recoverable => (disconnected(s), false),
    }
}

impl Session {
    /// A session that has not connected yet, subscribing with the given
    /// filter map once it is checked: refused when it holds no filter or
    /// more than 16.
    pub fn new(filters: Filters) -> (r: Result<Session, FilterError>)
        ensures
            filters@.len() == 0 ==> r == Err::<Session, FilterError>(FilterError::Empty),
            filters@.len() > MAX_NAMED_FILTERS ==> r == Err::<Session, FilterError>(
                FilterError::TooManyFilters(filters@.len() as usize),
            ),
            0 < filters@.len() <= MAX_NAMED_FILTERS ==> (r matches Ok(session) && session@
                == (SessionView {
                state: SessionState::Disconnected,
                attempt: 0,
                reconnect_now: false,
                ever_connected: false,
                stats: zero_stats(),
                filters: filters@,
            })),
    {
        filters.validate()?;
        Ok(
            Session {
                state: SessionState::Disconnected,
                attempt: 0,
                reconnect_now: false,
                ever_connected: false,
                stats: Stats::new(),
                filters,
            },
        )
    }

    /// The filter map sent on every (re)connection.
    pub fn filters(&self) -> (r: &Filters)
        ensures
            r@ == self@.filters,
    {
        &self.filters
    }

    /// Replaces the whole filter map once it is checked; a refused map is
    /// reported as an invalid filter carrying the refusal's text, and leaves
    /// the current map in place.
    pub fn update_filters(&mut self, filters: Filters) -> (r: Result<(), StreamError>)
        ensures
            filters@.len() == 0 ==> (r matches Err(StreamError::InvalidFilter(t)) && t@
                == filter_error_text(FilterError::Empty)),
            filters@.len() > MAX_NAMED_FILTERS ==> (r matches Err(StreamError::InvalidFilter(t))
                && t@ == filter_error_text(FilterError::TooManyFilters(filters@.len() as usize))),
            0 < filters@.len() <= MAX_NAMED_FILTERS ==> r is Ok,
            r is Ok ==> final(self)@ == (SessionView { filters: filters@, ..old(self)@ }),
            r is Err ==> final(self)@ == old(self)@,
    {
        match filters.validate() {
            Err(e) => {
                return Err(StreamError::InvalidFilter(e.text()));
            },
            Ok(()) => {},
        }
        self.filters = filters;
        Ok(())
    }

    /// The session's counters.
    pub fn stats(&self) -> (r: StatsSnapshot)
        ensures
            r == self@.stats,
    {
        self.stats.snapshot()
    }

    /// Where the session stands.
    pub fn state(&self) -> (r: &SessionState)
        ensures
            *r == self@.state,
    {
        &self.state
    }

    /// Decides the next step of the stream.
    pub fn poll(&mut self) -> (r: Step)
        ensures
            (final(self)@, r) == spec_poll(old(self)@),
    {
        match &self.state {
            SessionState::Finished => Step::End,
            SessionState::Terminal(e) => {
                let e = e.clone();
                self.state = SessionState::Finished;
                Step::Fail(e)
            },
            SessionState::Disconnected => {
                self.attempt = self.attempt.saturating_add(1);
                if self.reconnect_now {
                    self.reconnect_now = false;
                    Step::Reconnect { attempt: self.attempt }
                } else {
                    Step::Backoff { attempt: self.attempt }
                }
            },
            SessionState::Connected => Step::Receive,
        }
    }

    /// A connection was established; returns whether it restores a stream
    /// that had been connected before.
    pub fn connected(&mut self) -> (r: bool)
        ensures
            final(self)@ == spec_connected(old(self)@),
            r == old(self)@.ever_connected,
    {
        let reconnected = self.ever_connected;
        if reconnected {
            self.stats.reconnects = self.stats.reconnects.wrapping_add(1);
        }
        self.ever_connected = true;
        self.reconnect_now = false;
        self.state = SessionState::Connected;
        reconnected
    }

    /// A reconnection attempt failed: the next step backs off again.
    pub fn reconnect_failed(&mut self)
        ensures
            final(self)@ == disconnected(old(self)@),
    {
        self.state = SessionState::Disconnected;
        self.reconnect_now = false;
    }

    /// A message arrived: `stable` when the connection has been delivering
    /// for the reset period; `transaction` is the slot and the length of
    /// the transaction bytes, when the message carries an update and the
    /// update a transaction. Returns whether it is delivered.
    pub fn received(&mut self, stable: bool, transaction: Option<(u64, Option<usize>)>) -> (r: bool)
        ensures
            final(self)@ == spec_received(old(self)@, stable, transaction),
            r == delivers(transaction),
    {
        if stable {
            self.attempt = 0;
        }
        match transaction {
            Some((slot, Some(len))) => {
                if len > 0 {
                    self.stats.messages = self.stats.messages.wrapping_add(1);
                    self.stats.bytes = self.stats.bytes.wrapping_add(len as u64);
                    self.stats.last_slot = slot;
                    return true;
                }
            },
            _ => {},
        }
        self.stats.decode_errors = self.stats.decode_errors.wrapping_add(1);
        false
    }

    /// The server ended the stream.
    pub fn ended(&mut self)
        ensures
            final(self)@ == disconnected(old(self)@),
    {
        self.state = SessionState::Disconnected;
        self.reconnect_now = false;
    }

    /// The stream failed with a status, classified by `classify`; returns
    /// whether the next reconnection attempt is made at once.
    pub fn failed(&mut self, classified: Classified, recent_data_loss: bool) -> (r: bool)
        ensures
            (final(self)@, r) == spec_failed(old(self)@, classified, recent_data_loss),
    {
        match classified {
            Classified::Terminal(e) => {
                self.state = SessionState::Terminal(e);
                self.reconnect_now = false;
                false
            },
            Classified::DataLoss => {
                self.state = SessionState::Disconnected;
                self.reconnect_now = !recent_data_loss;
                !recent_data_loss
            },
            Classified::Recoverable => {
                self.state = SessionState::Disconnected;
                self.reconnect_now = false;
                false
            },
        }
    }

    /// Ends the stream: the next step reports its end.
    pub fn close(&mut self)
        ensures
            final(self)@ == (SessionView { state: SessionState::Finished, ..old(self)@ }),
    {
        self.state = SessionState::Finished;
    }
}

proof fn lemma_last_index_concat(a: Seq<char>, b: Seq<char>, c: char)
    ensures
        last_index_of(a + b, c) == (match last_index_of(b, c) {
            Some(i) => Some(a.len() + i),
            None => last_index_of(a, c),
        }),
    decreases b.len(),
{
    if b.len() == 0 {
        assert(a + b =~= a);
    } else {
        assert((a + b).drop_last() =~= a + b.drop_last());
        lemma_last_index_concat(a, b.drop_last(), c);
    }
}

proof fn lemma_trim_end_last(s: Seq<char>)
    ensures
        trim_end(s).len() > 0 ==> !is_white_space(trim_end(s).last()),
        trim_end(s).len() <= s.len(),
        trim_end(s) == s.subrange(0, trim_end(s).len() as int),
    decreases s.len(),
{
    if s.len() > 0 && is_white_space(s.last()) {
        lemma_trim_end_last(s.drop_last());
        assert(s.drop_last().subrange(0, trim_end(s).len() as int) =~= s.subrange(
            0,
            trim_end(s).len() as int,
        ));
    } else {
        assert(s.subrange(0, s.len() as int) =~= s);
    }
}

proof fn lemma_trim_start_same(s: Seq<char>)
    requires
        s.len() > 0,
        !is_white_space(s[0]),
    ensures
        trim_start(s) == s,
{
}

proof fn lemma_trim_end_same(s: Seq<char>)
    requires
        s.len() > 0,
        !is_white_space(s.last()),
    ensures
        trim_end(s) == s,
{
}

/// An address with the default port appended carries a port.
proof fn lemma_default_port_added(e: Seq<char>)
    requires
        !has_port(e),
    ensures
        has_port(e + default_port_suffix()),
{
    let d = default_port_suffix();
    let x = e + d;
    lemma_last_index_concat(e, d, ':');
    lemma_last_index_concat(e, d, ']');
    assert(last_index_of(d, ':') == Some(0int)) by {
        reveal_with_fuel(last_index_of, 6);
    }
    assert(last_index_of(d, ']') == None::<int>) by {
        reveal_with_fuel(last_index_of, 6);
    }
    let tail = x.subrange(e.len() + 1int, x.len() as int);
    assert(tail =~= seq!['9', '9', '9', '1']);
    if x.contains(']') {
        let k = choose|k: int| 0 <= k < x.len() && x[k] == ']';
        assert(k < e.len()) by {
            if k >= e.len() {
                assert(x[k] == d[k - e.len()]);
            }
        }
        assert(e[k] == ']');
        lemma_last_index_of(e, ']');
    }
}

/// The address part of a normalized URL: what follows `http://`, with the
/// port it carries or the default one.
spec fn normalized_address(endpoint: Seq<char>) -> Seq<char> {
    let e = strip_http(trim(endpoint));
    if has_port(e) {
        e
    } else {
        e + default_port_suffix()
    }
}

/// What the address part of a normalized URL is like: not empty, ending in
/// no white space, without `/`, not starting with `https://`, and carrying
/// a port.
proof fn lemma_normalized_address(endpoint: Seq<char>)
    requires
        spec_normalize_endpoint(endpoint) is Some,
    ensures
        spec_normalize_endpoint(endpoint) == Some(http_prefix() + normalized_address(endpoint)),
        normalized_address(endpoint).len() > 0,
        !is_white_space(normalized_address(endpoint).last()),
        !normalized_address(endpoint).contains('/'),
        !starts_with(normalized_address(endpoint), https_prefix()),
        has_port(normalized_address(endpoint)),
{
    let t = trim(endpoint);
    let e = strip_http(t);
    let x = normalized_address(endpoint);
    lemma_trim_end_last(trim_start(endpoint));
    assert(e.last() == t.last()) by {
        if starts_with(t, http_prefix()) {
            assert(e == t.subrange(7, t.len() as int));
        }
    }
    assert(!x.contains('/')) by {
        if x.contains('/') {
            let k = choose|k: int| 0 <= k < x.len() && x[k] == '/';
            if k < e.len() {
                assert(e[k] == '/');
            } else {
                assert(x[k] == default_port_suffix()[k - e.len()]);
            }
        }
    }
    assert(!starts_with(x, https_prefix())) by {
        if starts_with(x, https_prefix()) {
            assert(x.subrange(0, 8)[5] == '/');
            assert(x[5] == '/');
        }
    }
    if !has_port(e) {
        lemma_default_port_added(e);
    }
}

/// After the last `:` of `http://` and an address carrying a port come one
/// or more ASCII digits.
proof fn lemma_url_port_digits(x: Seq<char>)
    requires
        has_port(x),
    ensures
        ({
            let url = http_prefix() + x;
            last_index_of(url, ':') matches Some(i) && i + 1 < url.len() && forall|j: int|
                i < j < url.len() ==> is_ascii_digit(#[trigger] url[j])
        }),
{
    let url = http_prefix() + x;
    lemma_last_index_of(x, ':');
    lemma_last_index_concat(http_prefix(), x, ':');
    let xi = last_index_of(x, ':').unwrap();
    assert(url.len() == 7 + x.len());
    assert(last_index_of(url, ':') == Some(7 + xi));
    let tail = x.subrange(xi + 1, x.len() as int);
    assert forall|j: int| 7 + xi < j < url.len() implies is_ascii_digit(#[trigger] url[j]) by {
        assert(url[j] == x[j - 7]);
        assert(x[j - 7] == tail[j - 7 - xi - 1]);
    }
}

/// Normalizing is idempotent: the URL that an endpoint normalizes to
/// normalizes to itself. That URL starts with `http://`, and after its last
/// `:` comes the port: one or more ASCII digits.
pub proof fn law_normalize_idempotent(endpoint: Seq<char>)
    ensures
        spec_normalize_endpoint(endpoint) matches Some(url) ==> spec_normalize_endpoint(url)
            == Some(url),
        spec_normalize_endpoint(endpoint) matches Some(url) ==> starts_with(url, http_prefix()),
        spec_normalize_endpoint(endpoint) matches Some(url) ==> (last_index_of(url, ':') matches Some(
            i,
        ) && i + 1 < url.len() && forall|j: int|
            i < j < url.len() ==> is_ascii_digit(#[trigger] url[j])),
{
    if let Some(url) = spec_normalize_endpoint(endpoint) {
        lemma_normalized_address(endpoint);
        let x = normalized_address(endpoint);
        assert(url == http_prefix() + x);
        assert(url.last() == x.last());
        assert(url[0] == 'h');
        lemma_trim_start_same(url);
        lemma_trim_end_same(url);
        assert(url.subrange(0, 7) =~= http_prefix());
        assert(url.subrange(7, url.len() as int) =~= x);
        assert(strip_http(url) == x);
        lemma_url_port_digits(x);
    }
}

/// The filter map survives every step of the session: whatever is polled,
/// connected, received, ended or failed, the map sent on the next
/// reconnection is the last one set.
pub proof fn law_filters_survive_reconnection(
    s: SessionView,
    stable: bool,
    transaction: Option<(u64, Option<usize>)>,
    classified: Classified,
    recent_data_loss: bool,
)
    ensures
        spec_poll(s).0.filters == s.filters,
        spec_connected(s).filters == s.filters,
        spec_received(s, stable, transaction).filters == s.filters,
        disconnected(s).filters == s.filters,
        spec_failed(s, classified, recent_data_loss).0.filters == s.filters,
{
}

/// The xorshift step never reaches zero from a nonzero state, so the
/// jitter never gets stuck.
pub proof fn law_jitter_never_zero(x: u64)
    requires
        x != 0,
    ensures
        xorshift(x) != 0,
{
    let a = x ^ (x << 13u64);
    let b = a ^ (a >> 7u64);
    assert(x != 0 ==> x ^ (x << 13u64) != 0) by (bit_vector);
    assert(a != 0 ==> a ^ (a >> 7u64) != 0) by (bit_vector);
    assert(b != 0 ==> b ^ (b << 17u64) != 0) by (bit_vector);
}

/// A terminal error is reported exactly once: the step after it reports
/// the end of the stream, and so does every step after that.
pub proof fn law_terminal_reported_once(s: SessionView, e: StreamError)
    requires
        s.state == SessionState::Terminal(e),
    ensures
        spec_poll(s).1 == Step::Fail(e),
        spec_poll(spec_poll(s).0).1 == Step::End,
        spec_poll(spec_poll(s).0).0 == spec_poll(s).0,
{
}

/// A finished stream stays finished and keeps reporting its end.
pub proof fn law_finished_is_final(s: SessionView)
    requires
        s.state == SessionState::Finished,
    ensures
        spec_poll(s) == (s, Step::End),
{
}

/// After `close` the next step reports the end of the stream, not an error.
pub proof fn law_close_ends_stream(s: SessionView)
    ensures
        spec_poll((SessionView { state: SessionState::Finished, ..s })).1 == Step::End,
{
}

/// A message received on a connection that has held for the reset period
/// restarts the backoff: the next reconnection is attempt 1 again.
pub proof fn law_backoff_restarts(s: SessionView, slot: u64, len: Option<usize>)
    ensures
        spec_poll(disconnected(spec_received(s, true, Some((slot, len))))).1 == (Step::Backoff {
            attempt: 1,
        }),
        spec_poll(disconnected(spec_received(s, true, None))).1 == (Step::Backoff { attempt: 1 }),
{
}

/// The session with its stream dropped, the next attempt to be made after
/// the backoff delay.
pub open spec fn disconnected(s: SessionView) -> SessionView {
    SessionView { state: SessionState::Disconnected, reconnect_now: false, ..s }
}

/// Recoverable interruptions never surface as an error: a failure of an
/// open stream that is not classified as terminal never leads to a terminal
/// state, and leaves the counters and the attempt count as they were.
pub proof fn law_recoverable_never_terminal(s: SessionView, classified: Classified, recent_data_loss: bool)
    requires
        s.state == SessionState::Connected,
        !(classified is Terminal),
    ensures
        !(spec_failed(s, classified, recent_data_loss).0.state is Terminal),
        spec_failed(s, classified, recent_data_loss).0.stats == s.stats,
        spec_failed(s, classified, recent_data_loss).0.attempt == s.attempt,
{
}

/// The attempt count after one more attempt.
pub open spec fn next_attempt(attempt: u32) -> u32 {
    if attempt == u32::MAX {
        u32::MAX
    } else {
        (attempt + 1) as u32
    }
}

/// Every reconnection attempt is announced and counted: from a dropped
/// stream the next step is a reconnection, with or without the backoff
/// delay, that carries the attempt's number, one more than the attempts
/// made since the connection last held.
pub proof fn law_every_attempt_announced(s: SessionView)
    requires
        s.state == SessionState::Disconnected,
    ensures
        spec_poll(s).0.attempt == next_attempt(s.attempt),
        spec_poll(s).1 == (if s.reconnect_now {
            Step::Reconnect { attempt: next_attempt(s.attempt) }
        } else {
            Step::Backoff { attempt: next_attempt(s.attempt) }
        }),
{
}

/// A first loss of data reconnects at once, and that reconnection is an
/// announced and counted attempt like any other: the next step announces
/// it with its number, and once it connects a session that had connected
/// before counts one more reconnection.
pub proof fn law_data_loss_reconnects_at_once(s: SessionView)
    requires
        s.state == SessionState::Connected,
        s.ever_connected,
    ensures
        spec_poll(spec_failed(s, Classified::DataLoss, false).0).1 == (Step::Reconnect {
            attempt: next_attempt(s.attempt),
        }),
        spec_connected(spec_poll(spec_failed(s, Classified::DataLoss, false).0).0).stats.reconnects
            == s.stats.reconnects.wrapping_add(1),
        spec_poll(spec_failed(s, Classified::DataLoss, true).0).1 == (Step::Backoff {
            attempt: next_attempt(s.attempt),
        }),
{
}

} // verus!
