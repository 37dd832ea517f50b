//! Reachability checks of the coordination servers, reduced to plain values:
//! validating a WebSocket URL, deriving the HTTP health endpoint from it, and
//! classifying the status code that comes back.  Performing the request is
//! the caller's job.

use vstd::prelude::*;

verus! {

#[derive(Debug)]
pub enum BeaconError {
    ConnectionFailed(String),
    Timeout,
    InvalidUrl(String),
}

#[derive(Clone, Copy, Debug, PartialEq, Eq, Structural)]
pub enum BeaconStatus {
    Connected,
    Disconnected,
    Checking,
}

#[derive(Debug)]
pub enum SignalingError {
    ConnectionFailed(String),
    Timeout,
    InvalidUrl(String),
}

#[derive(Clone, Copy, Debug, PartialEq, Eq, Structural)]
pub enum SignalingStatus {
    Connected,
    Disconnected,
    Checking,
}

pub open spec fn is_space(c: char) -> bool {
    c == ' ' || c == '\t' || c == '\n' || c == '\r'
}

pub open spec fn trim_start_sp(s: Seq<char>) -> Seq<char>
    decreases s.len(),
{
    if s.len() > 0 && is_space(s.first()) {
        trim_start_sp(s.drop_first())
    } else {
        s
    }
}

pub open spec fn trim_end_sp(s: Seq<char>) -> Seq<char>
    decreases s.len(),
{
    if s.len() > 0 && is_space(s.last()) {
        trim_end_sp(s.drop_last())
    } else {
        s
    }
}

/// ASCII-whitespace trim, both ends.
pub open spec fn trim_sp(s: Seq<char>) -> Seq<char> {
    trim_end_sp(trim_start_sp(s))
}

pub open spec fn starts_ws(s: Seq<char>) -> bool {
    s.len() >= 5 && s[0] == 'w' && s[1] == 's' && s[2] == ':' && s[3] == '/' && s[4] == '/'
}

pub open spec fn starts_wss(s: Seq<char>) -> bool {
    s.len() >= 6 && s[0] == 'w' && s[1] == 's' && s[2] == 's' && s[3] == ':' && s[4] == '/'
        && s[5] == '/'
}

/// Trailing slashes removed.
pub open spec fn strip_slash(s: Seq<char>) -> Seq<char>
    decreases s.len(),
{
    if s.len() > 0 && s.last() == '/' {
        strip_slash(s.drop_last())
    } else {
        s
    }
}

/// The HTTP(S) counterpart of a WebSocket URL: the scheme swapped, the rest
/// kept.
pub open spec fn http_equivalent(t: Seq<char>) -> Seq<char> {
    if starts_wss(t) {
        "https://"@ + t.skip(6)
    } else {
        "http://"@ + t.skip(5)
    }
}

/// The health endpoint probed before upgrading: the HTTP counterpart,
/// trailing slashes dropped, with `/health` appended.
pub open spec fn health_url_of(t: Seq<char>) -> Seq<char> {
    strip_slash(http_equivalent(t)) + "/health"@
}

proof fn lemma_trim_start(s: Seq<char>, a: int)
    requires
        0 <= a <= s.len(),
        forall|j: int| 0 <= j < a ==> is_space(s[j]),
        a < s.len() ==> !is_space(s[a]),
    ensures
        trim_start_sp(s) == s.skip(a),
    decreases a,
{
    if a == 0 {
        assert(s.skip(0) =~= s);
    } else {
        assert(is_space(s.first()));
        let s1 = s.drop_first();
        assert forall|j: int| 0 <= j < a - 1 implies is_space(s1[j]) by {
            assert(s1[j] == s[j + 1]);
        }
        lemma_trim_start(s1, a - 1);
        assert(s1.skip(a - 1) =~= s.skip(a));
    }
}

proof fn lemma_trim_end(s: Seq<char>, b: int)
    requires
        0 <= b <= s.len(),
        forall|j: int| b <= j < s.len() ==> is_space(s[j]),
        b > 0 ==> !is_space(s[b - 1]),
    ensures
        trim_end_sp(s) == s.take(b),
    decreases s.len(),
{
    if b == s.len() {
        if s.len() > 0 && is_space(s.last()) {
            assert(false);
        }
        assert(s.take(b) =~= s);
    } else {
        assert(is_space(s.last()));
        lemma_trim_end(s.drop_last(), b);
        assert(s.drop_last().take(b) =~= s.take(b));
    }
}

proof fn lemma_strip_slash(s: Seq<char>, b: int)
    requires
        0 <= b <= s.len(),
        forall|j: int| b <= j < s.len() ==> s[j] == '/',
        b > 0 ==> s[b - 1] != '/',
    ensures
        strip_slash(s) == s.take(b),
    decreases s.len(),
{
    if b == s.len() {
        if s.len() > 0 && s.last() == '/' {
            assert(false);
        }
        assert(s.take(b) =~= s);
    } else {
        lemma_strip_slash(s.drop_last(), b);
        assert(s.drop_last().take(b) =~= s.take(b));
    }
}

fn is_space_exec(c: char) -> (r: bool)
    ensures
        r == is_space(c),
{
    c == ' ' || c == '\t' || c == '\n' || c == '\r'
}

/// ASCII-whitespace trim of both ends, by characters.
pub fn trim_spaces(s: &str) -> (r: &str)
    ensures
        r@ == trim_sp(s@),
{
    let n = s.unicode_len();
    let mut a: usize = 0;
    while a < n && is_space_exec(s.get_char(a))
        invariant
            0 <= a <= n,
            n == s@.len(),
            forall|j: int| 0 <= j < a ==> is_space(s@[j]),
        decreases n - a,
    {
        a = a + 1;
    }
    let mut b: usize = n;
    while b > a && is_space_exec(s.get_char(b - 1))
        invariant
            a <= b <= n,
            n == s@.len(),
            forall|j: int| 0 <= j < a ==> is_space(s@[j]),
            a < s@.len() ==> !is_space(s@[a as int]),
            forall|j: int| b <= j < n ==> is_space(s@[j]),
        decreases b,
    {
        b = b - 1;
    }
    proof {
        lemma_trim_start(s@, a as int);
        let t = s@.skip(a as int);
        assert forall|j: int| b - a <= j < t.len() implies is_space(t[j]) by {
            assert(t[j] == s@[j + a]);
        }
        if b > a {
            assert(t[b - a - 1] == s@[b - 1]);
        }
        lemma_trim_end(t, b - a);
        assert(t.take(b - a) =~= s@.subrange(a as int, b as int));
    }
    s.substring_char(a, b)
}

/// The health endpoint of a WebSocket URL, or nothing when the scheme is
/// neither `ws://` nor `wss://`.
fn ws_health_url(t: &str) -> (r: Option<String>)
    ensures
        r is Some <==> (starts_ws(t@) || starts_wss(t@)),
        r is Some ==> r->0@ == health_url_of(t@),
{
    let n = t.unicode_len();
    let is_wss = n >= 6 && t.get_char(0) == 'w' && t.get_char(1) == 's' && t.get_char(2) == 's'
        && t.get_char(3) == ':' && t.get_char(4) == '/' && t.get_char(5) == '/';
    let is_ws = n >= 5 && t.get_char(0) == 'w' && t.get_char(1) == 's' && t.get_char(2) == ':'
        && t.get_char(3) == '/' && t.get_char(4) == '/';
    if !is_ws && !is_wss {
        assert(!(starts_ws(t@) || starts_wss(t@)));
        return None;
    }
    let conv: String = if is_wss {
        let rest = t.substring_char(6, n);
        String::from_str("https://").concat(rest)
    } else {
        let rest = t.substring_char(5, n);
        String::from_str("http://").concat(rest)
    };
    proof {
        assert(t@.subrange(6, t@.len() as int) =~= t@.skip(6));
        assert(t@.subrange(5, t@.len() as int) =~= t@.skip(5));
        assert(conv@ == http_equivalent(t@));
    }
    let cs = conv.as_str();
    let cn = cs.unicode_len();
    let mut b: usize = cn;
    while b > 0 && cs.get_char(b - 1) == '/'
        invariant
            0 <= b <= cn,
            cn == cs@.len(),
            forall|j: int| b <= j < cn ==> cs@[j] == '/',
        decreases b,
    {
        b = b - 1;
    }
    proof {
        lemma_strip_slash(cs@, b as int);
    }
    let base = cs.substring_char(0, b);
    proof {
        assert(cs@.subrange(0, b as int) =~= cs@.take(b as int));
    }
    Some(base.to_owned().concat("/health"))
}

/// Validate a beacon URL (whitespace tolerated around it) and derive the
/// health endpoint to probe.
pub fn beacon_health_url(url: &str) -> (r: Result<String, BeaconError>)
    ensures
        r is Ok <==> (starts_ws(trim_sp(url@)) || starts_wss(trim_sp(url@))),
        r matches Ok(h) ==> h@ == health_url_of(trim_sp(url@)),
        r matches Err(e) ==> (e matches BeaconError::InvalidUrl(m) && m@
            == "URL must start with ws:// or wss://"@),
{
    let t = trim_spaces(url);
    match ws_health_url(t) {
        Some(h) => Ok(h),
        None => Err(
            BeaconError::InvalidUrl(String::from_str("URL must start with ws:// or wss://")),
        ),
    }
}

/// Validate a signaling-server URL (taken as given) and derive the health
/// endpoint to probe.
pub fn signaling_health_url(url: &str) -> (r: Result<String, SignalingError>)
    ensures
        r is Ok <==> (starts_ws(url@) || starts_wss(url@)),
        r matches Ok(h) ==> h@ == health_url_of(url@),
        r matches Err(e) ==> (e matches SignalingError::InvalidUrl(m) && m@
            == "URL must start with ws:// or wss://"@),
{
    match ws_health_url(url) {
        Some(h) => Ok(h),
        None => Err(
            SignalingError::InvalidUrl(String::from_str("URL must start with ws:// or wss://")),
        ),
    }
}

pub open spec fn dec_digit(d: int) -> char {
    if d == 0 {
        '0'
    } else if d == 1 {
        '1'
    } else if d == 2 {
        '2'
    } else if d == 3 {
        '3'
    } else if d == 4 {
        '4'
    } else if d == 5 {
        '5'
    } else if d == 6 {
        '6'
    } else if d == 7 {
        '7'
    } else if d == 8 {
        '8'
    } else {
        '9'
    }
}

/// Decimal rendering of a non-negative number, most significant digit first.
pub open spec fn dec_str(n: int) -> Seq<char>
    decreases n,
{
    if n < 10 {
        seq![dec_digit(n)]
    } else {
        dec_str(n / 10).push(dec_digit(n % 10))
    }
}

fn digit_str(d: u16) -> (r: &'static str)
    requires
        d < 10,
    ensures
        r@ == seq![dec_digit(d as int)],
{
    proof {
        reveal_strlit("0");
        reveal_strlit("1");
        reveal_strlit("2");
        reveal_strlit("3");
        reveal_strlit("4");
        reveal_strlit("5");
        reveal_strlit("6");
        reveal_strlit("7");
        reveal_strlit("8");
        reveal_strlit("9");
    }
    let r = if d == 0 {
        "0"
    } else if d == 1 {
        "1"
    } else if d == 2 {
        "2"
    } else if d == 3 {
        "3"
    } else if d == 4 {
        "4"
    } else if d == 5 {
        "5"
    } else if d == 6 {
        "6"
    } else if d == 7 {
        "7"
    } else if d == 8 {
        "8"
    } else {
        "9"
    };
    proof {
        assert(r@ =~= seq![dec_digit(d as int)]);
    }
    r
}

/// Decimal rendering of a status code.
pub fn u16_to_dec(n: u16) -> (r: String)
    ensures
        r@ == dec_str(n as int),
    decreases n,
{
    if n < 10 {
        digit_str(n).to_owned()
    } else {
        let mut s = u16_to_dec(n / 10);
        s.append(digit_str(n % 10));
        proof {
            assert(s@ =~= dec_str(n as int));
        }
        s
    }
}

/// What a health probe's HTTP status means: a success status (2xx) shows the
/// server up; anything else is a connection failure naming the status.
pub fn classify_health_status(status: u16) -> (r: Result<bool, BeaconError>)
    ensures
        r is Ok <==> (200 <= status < 300),
        r matches Ok(up) ==> up == true,
        r matches Err(e) ==> (e matches BeaconError::ConnectionFailed(m) && m@ == "HTTP "@
            + dec_str(status as int) + " from health endpoint"@),
{
    if status >= 200 && status < 300 {
        Ok(true)
    } else {
        let mut m = String::from_str("HTTP ");
        let d = u16_to_dec(status);
        m.append(d.as_str());
        m.append(" from health endpoint");
        Err(BeaconError::ConnectionFailed(m))
    }
}

/// The counterpart of `classify_health_status` for the signaling server.
pub fn classify_signaling_health_status(status: u16) -> (r: Result<bool, SignalingError>)
    ensures
        r is Ok <==> (200 <= status < 300),
        r matches Ok(up) ==> up == true,
        r matches Err(e) ==> (e matches SignalingError::ConnectionFailed(m) && m@ == "HTTP "@
            + dec_str(status as int) + " from health endpoint"@),
{
    if status >= 200 && status < 300 {
        Ok(true)
    } else {
        let mut m = String::from_str("HTTP ");
        let d = u16_to_dec(status);
        m.append(d.as_str());
        m.append(" from health endpoint");
        Err(SignalingError::ConnectionFailed(m))
    }
}

impl BeaconError {
    /// The human-readable form of the error.
    pub fn message(&self) -> (r: String)
        ensures
            r@ == (match self {
                BeaconError::ConnectionFailed(m) => "Connection failed: "@ + m@,
                BeaconError::Timeout => "Timeout"@,
                BeaconError::InvalidUrl(m) => "Invalid URL: "@ + m@,
            }),
    {
        match self {
            BeaconError::ConnectionFailed(m) => String::from_str("Connection failed: ").concat(
                m.as_str(),
            ),
            BeaconError::Timeout => String::from_str("Timeout"),
            BeaconError::InvalidUrl(m) => String::from_str("Invalid URL: ").concat(m.as_str()),
        }
    }
}

impl SignalingError {
    /// The human-readable form of the error.
    pub fn message(&self) -> (r: String)
        ensures
            r@ == (match self {
                SignalingError::ConnectionFailed(m) => "Connection failed: "@ + m@,
                SignalingError::Timeout => "Timeout"@,
                SignalingError::InvalidUrl(m) => "Invalid URL: "@ + m@,
            }),
    {
        match self {
            SignalingError::ConnectionFailed(m) => String::from_str("Connection failed: ").concat(
                m.as_str(),
            ),
            SignalingError::Timeout => String::from_str("Timeout"),
            SignalingError::InvalidUrl(m) => String::from_str("Invalid URL: ").concat(m.as_str()),
        }
    }
}

/// The default public beacon URL.
pub fn get_default_beacon_url() -> (r: String)
    ensures
        r@ == "wss://beacon.pkcollection.net"@,
{
    String::from_str("wss://beacon.pkcollection.net")
}

/// The default signaling-server URL.
pub fn get_default_signaling_url() -> (r: String)
    ensures
        r@ == "ws://127.0.0.1:9001"@,
{
    String::from_str("ws://127.0.0.1:9001")
}

} // verus!
