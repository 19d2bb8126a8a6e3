use vstd::prelude::*;

verus! {

/// What a health checker last reported about a service.
#[derive(Debug, Clone, Copy, PartialEq, Eq, Structural)]
pub enum HealthStatus {
    Healthy,
    Unhealthy,
    Unknown,
}

impl HealthStatus {
    /// The status a health probe reports: healthy where the service
    /// answered with a success status, unhealthy where it answered
    /// otherwise or could not be reached.
    pub fn from_probe(reached: bool, success_status: bool) -> (r: HealthStatus)
        ensures
            r == (if reached && success_status { HealthStatus::Healthy } else { HealthStatus::Unhealthy }),
    {
        if reached && success_status {
            HealthStatus::Healthy
        } else {
            HealthStatus::Unhealthy
        }
    }
}

/// The outcome of one health probe; the time is in seconds since the epoch.
#[derive(Debug, Clone)]
pub struct HealthCheck {
    pub status: HealthStatus,
    pub message: Option<String>,
    pub timestamp: i64,
}

impl HealthStatus {
    /// The status that the head of an HTTP reply reports: healthy where the
    /// probe reached the service and the status code, which starts at byte
    /// 9 of `HTTP/x.y NNN`, is a 2xx success.
    pub fn from_status_line(reached: bool, head: &Vec<u8>) -> (r: HealthStatus)
        ensures
            r == HealthStatus::from_probe_spec(reached, head@.len() >= 10 && head@[9] == 50u8),
    {
        let success = head.len() >= 10 && head[9] == 50u8;
        HealthStatus::from_probe(reached, success)
    }

    pub open spec fn from_probe_spec(reached: bool, success_status: bool) -> HealthStatus {
        if reached && success_status {
            HealthStatus::Healthy
        } else {
            HealthStatus::Unhealthy
        }
    }
}

/// The errors of the registry and of its consensus layer.
#[derive(Debug, PartialEq, Eq)]
pub enum Error {
    /// A proposal was made to a node that is not the leader; the hint names
    /// the leader this node last heard from.
    NotLeader(Option<u64>),
    /// A read reached below the first index kept by the log.
    Compacted,
    /// A read or a write reached past the end of the log.
    OutOfRange,
    /// A durable write or read failed.
    StorageFailure(String),
    /// A message came from a term older than the node's own.
    StaleTerm,
    /// A message or a batch of entries broke the protocol's shape.
    ProtocolViolation,
    /// An election was forced on a node that already leads.
    AlreadyLeader,
    /// The settings a node was built with cannot work.
    InvalidConfig,
    /// A service id that the registry does not hold.
    NotFound(String),
    /// A request that cannot be served as given.
    BadRequest(String),
    /// A request without valid credentials.
    Auth(String),
    /// A client that made too many requests in its window.
    RateLimit,
}

impl Error {
    /// The HTTP status with which a request that failed with this error is
    /// answered.
    pub fn status_code(&self) -> (r: u16)
        ensures
            r == match self {
                Error::NotFound(_) => 404u16,
                Error::BadRequest(_) => 400u16,
                Error::Auth(_) => 401u16,
                Error::RateLimit => 429u16,
                Error::NotLeader(_) => 503u16,
                _ => 500u16,
            },
    {
        match self {
            Error::NotFound(_) => 404,
            Error::BadRequest(_) => 400,
            Error::Auth(_) => 401,
            Error::RateLimit => 429,
            Error::NotLeader(_) => 503,
            _ => 500,
        }
    }
}

/// A service record: one instance of a named service.
#[derive(Debug)]
pub struct Service {
    pub id: String,
    pub name: String,
    pub address: String,
    pub port: u16,
    pub health_check_url: String,
    pub tags: Vec<String>,
    pub metadata: Vec<(String, String)>,
}

/// The mathematical value of a service record.
pub struct ServiceView {
    pub id: Seq<char>,
    pub name: Seq<char>,
    pub address: Seq<char>,
    pub port: u16,
    pub health_check_url: Seq<char>,
    pub tags: Seq<Seq<char>>,
    pub metadata: Seq<(Seq<char>, Seq<char>)>,
}

pub open spec fn strings_view(v: Seq<String>) -> Seq<Seq<char>> {
    v.map_values(|s: String| s@)
}

pub open spec fn pairs_view(v: Seq<(String, String)>) -> Seq<(Seq<char>, Seq<char>)> {
    v.map_values(|p: (String, String)| (p.0@, p.1@))
}

impl View for Service {
    type V = ServiceView;

    open spec fn view(&self) -> ServiceView {
        ServiceView {
            id: self.id@,
            name: self.name@,
            address: self.address@,
            port: self.port,
            health_check_url: self.health_check_url@,
            tags: strings_view(self.tags@),
            metadata: pairs_view(self.metadata@),
        }
    }
}

fn copy_strings(v: &Vec<String>) -> (r: Vec<String>)
    ensures
        strings_view(r@) == strings_view(v@),
{
    let mut r: Vec<String> = Vec::new();
    let mut i: usize = 0;
    while i < v.len()
        invariant
            i <= v.len(),
            r@.len() == i,
            forall|j: int| 0 <= j < i ==> #[trigger] r@[j]@ == v@[j]@,
        decreases v.len() - i,
    {
        r.push(v[i].clone());
        i = i + 1;
    }
    assert(strings_view(r@) =~= strings_view(v@));
    r
}

fn copy_pairs(v: &Vec<(String, String)>) -> (r: Vec<(String, String)>)
    ensures
        pairs_view(r@) == pairs_view(v@),
{
    let mut r: Vec<(String, String)> = Vec::new();
    let mut i: usize = 0;
    while i < v.len()
        invariant
            i <= v.len(),
            r@.len() == i,
            forall|j: int| 0 <= j < i ==> #[trigger] r@[j].0@ == v@[j].0@ && r@[j].1@ == v@[j].1@,
        decreases v.len() - i,
    {
        let k = v[i].0.clone();
        let x = v[i].1.clone();
        r.push((k, x));
        i = i + 1;
    }
    assert(pairs_view(r@) =~= pairs_view(v@));
    r
}

/// The decimal digit for `d < 10`.
pub open spec fn digit_char(d: nat) -> char {
    if d == 0 { '0' } else if d == 1 { '1' } else if d == 2 { '2' } else if d == 3 { '3' } else if d == 4 {
        '4'
    } else if d == 5 { '5' } else if d == 6 { '6' } else if d == 7 { '7' } else if d == 8 { '8' } else { '9' }
}

/// `n` written in decimal, without leading zeros.
pub open spec fn decimal(n: nat) -> Seq<char>
    decreases n,
{
    if n < 10 {
        seq![digit_char(n)]
    } else {
        decimal(n / 10) + seq![digit_char(n % 10)]
    }
}

/// The address at which a service at `address:port` answers health checks.
pub open spec fn health_url(address: Seq<char>, port: u16) -> Seq<char> {
    "http://"@ + address + ":"@ + decimal(port as nat) + "/health"@
}

fn digit_str(d: u16) -> (r: &'static str)
    requires
        d < 10,
    ensures
        r@ == seq![digit_char(d as nat)],
{
    proof {
        reveal_strlit("0");
        reveal_strlit("1");
        reveal_strlit("2");
        reveal_strlit("3");
        reveal_strlit("4");
        reveal_strlit("5");
        reveal_strlit("6");
        reveal_strlit("7");
        reveal_strlit("8");
        reveal_strlit("9");
    }
    if d == 0 { "0" } else if d == 1 { "1" } else if d == 2 { "2" } else if d == 3 { "3" } else if d == 4 {
        "4"
    } else if d == 5 { "5" } else if d == 6 { "6" } else if d == 7 { "7" } else if d == 8 { "8" } else { "9" }
}

fn push_decimal(s: &mut String, n: u16)
    ensures
        final(s)@ == old(s)@ + decimal(n as nat),
    decreases n,
{
    if n >= 10 {
        push_decimal(s, n / 10);
    }
    s.append(digit_str(n % 10));
    assert(s@ =~= old(s)@ + decimal(n as nat));
}

pub open spec fn is_lower_hex(c: char) -> bool {
    ('0' <= c && c <= '9') || ('a' <= c && c <= 'f')
}

/// Whether `s` is a random (version 4) UUID in the hyphenated lower-case
/// form: 36 characters, hyphens at 8, 13, 18 and 23, hex digits elsewhere,
/// the version digit 4 at 14 and a variant digit of 8, 9, a or b at 19.
pub open spec fn is_v4_uuid_text(s: Seq<char>) -> bool {
    &&& s.len() == 36
    &&& forall|i: int| 0 <= i < 36 ==> if i == 8 || i == 13 || i == 18 || i == 23 {
        #[trigger] s[i] == '-'
    } else {
        is_lower_hex(s[i])
    }
    &&& s[14] == '4'
    &&& (s[19] == '8' || s[19] == '9' || s[19] == 'a' || s[19] == 'b')
}

/// Relies on uuid's `Uuid::new_v4` and its `Display`, which writes the
/// hyphenated lower-case form: a random version 4 id.
#[verifier::external_body]
fn new_service_id() -> (r: String)
    ensures
        is_v4_uuid_text(r@),
{
    uuid::Uuid::new_v4().to_string()
}

impl Service {
    /// A record for a new instance, with a fresh random id, no tags and no
    /// metadata, checked at `http://address:port/health`.
    pub fn new(name: String, address: String, port: u16) -> (r: Service)
        ensures
            is_v4_uuid_text(r@.id),
            r@.name == name@,
            r@.address == address@,
            r@.port == port,
            r@.health_check_url == health_url(address@, port),
            r@.tags.len() == 0,
            r@.metadata.len() == 0,
    {
        let mut url = String::from_str("http://");
        url.append(address.as_str());
        url.append(":");
        push_decimal(&mut url, port);
        url.append("/health");
        let r = Service {
            id: new_service_id(),
            name,
            address,
            port,
            health_check_url: url,
            tags: Vec::new(),
            metadata: Vec::new(),
        };
        assert(r@.health_check_url =~= health_url(r@.address, port));
        r
    }

    /// A second record with the same contents.
    pub fn duplicate(&self) -> (r: Service)
        ensures
            r@ == self@,
    {
        Service {
            id: self.id.clone(),
            name: self.name.clone(),
            address: self.address.clone(),
            port: self.port,
            health_check_url: self.health_check_url.clone(),
            tags: copy_strings(&self.tags),
            metadata: copy_pairs(&self.metadata),
        }
    }
}

/// What a log entry asks of the registry.
#[derive(Debug)]
pub enum Command {
    /// Written by a new leader in its own term; changes nothing.
    Noop,
    /// Add a record, or replace the one with the same id.
    Register(Service),
    /// Remove the record with this id, if there is one.
    Deregister(String),
}

pub enum CommandView {
    Noop,
    Register(ServiceView),
    Deregister(Seq<char>),
}

impl View for Command {
    type V = CommandView;

    open spec fn view(&self) -> CommandView {
        match self {
            Command::Noop => CommandView::Noop,
            Command::Register(s) => CommandView::Register(s@),
            Command::Deregister(id) => CommandView::Deregister(id@),
        }
    }
}

impl Command {
    pub fn duplicate(&self) -> (r: Command)
        ensures
            r@ == self@,
    {
        match self {
            Command::Noop => Command::Noop,
            Command::Register(s) => Command::Register(s.duplicate()),
            Command::Deregister(id) => Command::Deregister(id.clone()),
        }
    }
}

/// One entry of the replicated log.
#[derive(Debug)]
pub struct LogEntry {
    pub index: u64,
    pub term: u64,
    pub command: Command,
}

pub struct LogEntryView {
    pub index: u64,
    pub term: u64,
    pub command: CommandView,
}

impl View for LogEntry {
    type V = LogEntryView;

    open spec fn view(&self) -> LogEntryView {
        LogEntryView { index: self.index, term: self.term, command: self.command@ }
    }
}

pub open spec fn entries_view(v: Seq<LogEntry>) -> Seq<LogEntryView> {
    v.map_values(|e: LogEntry| e@)
}

impl LogEntry {
    pub fn duplicate(&self) -> (r: LogEntry)
        ensures
            r@ == self@,
    {
        LogEntry { index: self.index, term: self.term, command: self.command.duplicate() }
    }
}

/// Copies `v[low..high]`.
pub fn copy_entries(v: &Vec<LogEntry>, low: usize, high: usize) -> (r: Vec<LogEntry>)
    requires
        low <= high <= v.len(),
    ensures
        entries_view(r@) == entries_view(v@).subrange(low as int, high as int),
{
    let mut r: Vec<LogEntry> = Vec::new();
    let mut i: usize = low;
    while i < high
        invariant
            low <= i <= high <= v.len(),
            entries_view(r@) == entries_view(v@).subrange(low as int, i as int),
        decreases high - i,
    {
        r.push(v[i].duplicate());
        assert(entries_view(v@).subrange(low as int, i + 1) == entries_view(v@).subrange(
            low as int,
            i as int,
        ).push(v@[i as int]@));
        i = i + 1;
    }
    r
}

/// The metadata that must survive a crash: term, vote and commit index.
#[derive(Debug, Clone, Copy, PartialEq, Eq, Structural)]
pub struct HardState {
    pub current_term: u64,
    pub voted_for: Option<u64>,
    pub commit_index: u64,
}

impl HardState {
    pub fn initial() -> (r: HardState)
        ensures
            r == (HardState { current_term: 0, voted_for: None, commit_index: 0 }),
    {
        HardState { current_term: 0, voted_for: None, commit_index: 0 }
    }
}

/// Settings of the consensus layer.
#[derive(Debug)]
pub struct RaftConfig {
    pub node_id: u64,
    pub peers: Vec<u64>,
    pub election_timeout: u64,
    pub heartbeat_interval: u64,
}

/// Settings of the circuit breaker.
#[derive(Debug, Clone, Copy, PartialEq, Eq, Structural)]
pub struct CircuitBreakerConfig {
    pub failure_threshold: usize,
    pub reset_timeout: u64,
}

/// Settings of the request rate limit.
#[derive(Debug, Clone, Copy, PartialEq, Eq, Structural)]
pub struct RateLimitConfig {
    pub requests_per_minute: u32,
    pub burst: u32,
}

/// Settings of authentication and TLS; paths are given as text.
#[derive(Debug)]
pub struct SecurityConfig {
    pub jwt_secret: String,
    pub cert_path: String,
    pub key_path: String,
}

/// A TLS setup that could not be completed.
#[derive(Debug, PartialEq, Eq)]
pub enum TlsConfigurationError {
    PrivateKeyNotFound(String),
}

} // verus!
