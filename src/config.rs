use vstd::prelude::*;
use vstd::string::StringExecFns;

verus! {

/// One destination: its coordinates, its admission limits and its filter.
#[derive(Debug, Clone, PartialEq, Eq)]
pub struct ClientConfig {
    pub name: String,
    pub ssl: Option<bool>,
    pub hostname: String,
    pub port: u16,
    pub password: String,
    pub channel: String,
    pub timelimit: Option<u64>,
    pub checklimit: Option<u64>,
    pub softlimit: Option<u64>,
    pub hardlimit: Option<u64>,
    pub deleteblock: Option<u64>,
    pub filter: Option<String>,
    pub filter_until: Option<String>,
    pub filter_limit: Option<usize>,
    pub filter_replace: Option<String>,
}

/// The whole configuration: the source, the workers, the fan-out discipline,
/// the source filter, the ordering settings and the destinations.
#[derive(Debug, Clone, PartialEq, Eq)]
pub struct Config {
    pub name: String,
    pub ssl: Option<bool>,
    pub hostname: String,
    pub port: u16,
    pub password: String,
    pub channel: String,
    pub children: u16,
    pub mode: String,
    pub pid: Option<String>,
    pub status: Option<String>,
    pub filter: Option<String>,
    pub filter_until: Option<String>,
    pub filter_limit: Option<usize>,
    pub filter_replace: Option<String>,
    pub ordering: Option<String>,
    pub ordering_buffer_time: Option<u64>,
    pub ordering_limit: Option<usize>,
    pub clients: Vec<ClientConfig>,
}

/// Fan-out discipline.
#[derive(Debug, Clone, Copy, PartialEq, Eq, Structural)]
pub enum Mode {
    /// Every item goes to every destination that takes it.
    Replicant,
    /// Every item goes to one destination, tried in round-robin order.
    Spreader,
}

/// What is wrong with a filter's options.
#[derive(Debug, Clone, Copy, PartialEq, Eq, Structural)]
pub enum FilterFault {
    /// `filter_until`, `filter_limit` or `filter_replace` is set without `filter`.
    OptionsWithoutFilter,
    /// `filter` is set to the empty pattern.
    EmptyFilter,
}

/// Why a configuration is refused. Variants about a destination carry its name.
#[derive(Debug, Clone, PartialEq, Eq)]
pub enum ConfigError {
    UnknownMode(String),
    NoChildren,
    EmptySourceName,
    EmptySourceHostname,
    EmptySourceChannel,
    SourceFilter(FilterFault),
    IncompleteOrdering,
    NoClients,
    EmptyClientHostname(String),
    EmptyClientChannel(String),
    ClientSameAsSource(String),
    IncompleteClientLimits(String),
    ClientFilter(String, FilterFault),
}

pub open spec fn mode_of(m: Seq<char>) -> Option<Mode> {
    if m == "replicant"@ {
        Some(Mode::Replicant)
    } else if m == "spreader"@ {
        Some(Mode::Spreader)
    } else {
        None
    }
}

/// The fault of a filter's options, if any: the options need the pattern, and
/// the pattern may not be empty.
pub open spec fn filter_fault(
    filter: Option<String>,
    until: Option<String>,
    limit: Option<usize>,
    replace: Option<String>,
) -> Option<FilterFault> {
    match filter {
        None => if until.is_some() || limit.is_some() || replace.is_some() {
            Some(FilterFault::OptionsWithoutFilter)
        } else {
            None
        },
        Some(f) => if f@.len() == 0 {
            Some(FilterFault::EmptyFilter)
        } else {
            None
        },
    }
}

/// Ordering is either not configured at all, or configured with a non-empty
/// pattern, a positive hold-down time and a positive limit.
pub open spec fn ordering_complete(c: Config) -> bool {
    let any = c.ordering.is_some() || c.ordering_buffer_time.is_some() || c.ordering_limit.is_some();
    !any || (c.ordering.is_some() && c.ordering.unwrap()@.len() > 0
        && c.ordering_buffer_time.is_some() && c.ordering_buffer_time.unwrap() > 0
        && c.ordering_limit.is_some() && c.ordering_limit.unwrap() > 0)
}

pub open spec fn positive(v: Option<u64>) -> bool {
    v.is_some() && v.unwrap() > 0
}

/// The number of the four admission limits that are set to a positive value.
pub open spec fn limits_set(cl: ClientConfig) -> int {
    (if positive(cl.timelimit) { 1int } else { 0int })
        + (if positive(cl.checklimit) { 1int } else { 0int })
        + (if positive(cl.softlimit) { 1int } else { 0int })
        + (if positive(cl.hardlimit) { 1int } else { 0int })
}

/// The first fault of one destination, checked in this order: hostname,
/// channel, coincidence with the source, limits, filter.
pub open spec fn client_error(c: Config, cl: ClientConfig) -> Option<ConfigError> {
    if cl.hostname@.len() == 0 {
        Some(ConfigError::EmptyClientHostname(cl.name))
    } else if cl.channel@.len() == 0 {
        Some(ConfigError::EmptyClientChannel(cl.name))
    } else if c.hostname@ == cl.hostname@ && c.port == cl.port && c.channel@ == cl.channel@ {
        Some(ConfigError::ClientSameAsSource(cl.name))
    } else if 0 < limits_set(cl) < 4 {
        Some(ConfigError::IncompleteClientLimits(cl.name))
    } else {
        match filter_fault(cl.filter, cl.filter_until, cl.filter_limit, cl.filter_replace) {
            Some(f) => Some(ConfigError::ClientFilter(cl.name, f)),
            None => None,
        }
    }
}

/// The first fault among the destinations from index `i` on.
pub open spec fn clients_error_from(c: Config, cls: Seq<ClientConfig>, i: int) -> Option<ConfigError>
    decreases cls.len() - i,
{
    if i < 0 || i >= cls.len() {
        None
    } else {
        match client_error(c, cls[i]) {
            Some(e) => Some(e),
            None => clients_error_from(c, cls, i + 1),
        }
    }
}

/// The first fault of a configuration, `None` when it is valid.
pub open spec fn config_error(c: Config) -> Option<ConfigError> {
    if mode_of(c.mode@).is_none() {
        Some(ConfigError::UnknownMode(c.mode))
    } else if c.children == 0 {
        Some(ConfigError::NoChildren)
    } else if c.name@.len() == 0 {
        Some(ConfigError::EmptySourceName)
    } else if c.hostname@.len() == 0 {
        Some(ConfigError::EmptySourceHostname)
    } else if c.channel@.len() == 0 {
        Some(ConfigError::EmptySourceChannel)
    } else if filter_fault(c.filter, c.filter_until, c.filter_limit, c.filter_replace).is_some() {
        Some(ConfigError::SourceFilter(
            filter_fault(c.filter, c.filter_until, c.filter_limit, c.filter_replace).unwrap(),
        ))
    } else if !ordering_complete(c) {
        Some(ConfigError::IncompleteOrdering)
    } else if c.clients@.len() == 0 {
        Some(ConfigError::NoClients)
    } else {
        clients_error_from(c, c.clients@, 0)
    }
}

/// The discipline that a mode name stands for.
pub fn parse_mode(m: &String) -> (r: Option<Mode>)
    ensures
        r == mode_of(m@),
{
    let replicant = "replicant".to_owned();
    let spreader = "spreader".to_owned();
    if *m == replicant {
        Some(Mode::Replicant)
    } else if *m == spreader {
        Some(Mode::Spreader)
    } else {
        None
    }
}

fn is_empty_string(s: &String) -> (r: bool)
    ensures
        r == (s@.len() == 0),
{
    s.as_str().is_empty()
}

fn check_filter(
    filter: &Option<String>,
    until: &Option<String>,
    limit: &Option<usize>,
    replace: &Option<String>,
) -> (r: Option<FilterFault>)
    ensures
        r == filter_fault(*filter, *until, *limit, *replace),
{
    match filter {
        None => if until.is_some() || limit.is_some() || replace.is_some() {
            Some(FilterFault::OptionsWithoutFilter)
        } else {
            None
        },
        Some(f) => if is_empty_string(f) {
            Some(FilterFault::EmptyFilter)
        } else {
            None
        },
    }
}

fn is_positive(v: Option<u64>) -> (r: bool)
    ensures
        r == positive(v),
{
    match v {
        Some(x) => x > 0,
        None => false,
    }
}

fn check_client(c: &Config, cl: &ClientConfig) -> (r: Option<ConfigError>)
    ensures
        r == client_error(*c, *cl),
{
    if is_empty_string(&cl.hostname) {
        return Some(ConfigError::EmptyClientHostname(cl.name.clone()));
    }
    if is_empty_string(&cl.channel) {
        return Some(ConfigError::EmptyClientChannel(cl.name.clone()));
    }
    if c.hostname == cl.hostname && c.port == cl.port && c.channel == cl.channel {
        return Some(ConfigError::ClientSameAsSource(cl.name.clone()));
    }
    let mut configured: u8 = 0;
    if is_positive(cl.timelimit) {
        configured = configured + 1;
    }
    if is_positive(cl.checklimit) {
        configured = configured + 1;
    }
    if is_positive(cl.softlimit) {
        configured = configured + 1;
    }
    if is_positive(cl.hardlimit) {
        configured = configured + 1;
    }
    assert(configured as int == limits_set(*cl));
    if configured > 0 && configured < 4 {
        return Some(ConfigError::IncompleteClientLimits(cl.name.clone()));
    }
    match check_filter(&cl.filter, &cl.filter_until, &cl.filter_limit, &cl.filter_replace) {
        Some(f) => Some(ConfigError::ClientFilter(cl.name.clone(), f)),
        None => None,
    }
}

fn check_ordering(c: &Config) -> (r: bool)
    ensures
        r == ordering_complete(*c),
{
    let any = c.ordering.is_some() || c.ordering_buffer_time.is_some() || c.ordering_limit.is_some();
    if !any {
        return true;
    }
    let pattern_ok = match &c.ordering {
        Some(o) => !is_empty_string(o),
        None => false,
    };
    let time_ok = match c.ordering_buffer_time {
        Some(t) => t > 0,
        None => false,
    };
    let limit_ok = match c.ordering_limit {
        Some(l) => l > 0,
        None => false,
    };
    pattern_ok && time_ok && limit_ok
}

/// Checks a configuration and hands it back unchanged when it is valid, or the
/// first fault found, in the order of `config_error`.
pub fn verify_config(config: Config) -> (r: Result<Config, ConfigError>)
    ensures
        match config_error(config) {
            None => r == Ok::<Config, ConfigError>(config),
            Some(e) => r == Err::<Config, ConfigError>(e),
        },
{
    if parse_mode(&config.mode).is_none() {
        return Err(ConfigError::UnknownMode(config.mode.clone()));
    }
    if config.children == 0 {
        return Err(ConfigError::NoChildren);
    }
    if is_empty_string(&config.name) {
        return Err(ConfigError::EmptySourceName);
    }
    if is_empty_string(&config.hostname) {
        return Err(ConfigError::EmptySourceHostname);
    }
    if is_empty_string(&config.channel) {
        return Err(ConfigError::EmptySourceChannel);
    }
    match check_filter(&config.filter, &config.filter_until, &config.filter_limit, &config.filter_replace) {
        Some(f) => {
            return Err(ConfigError::SourceFilter(f));
        },
        None => {},
    }
    if !check_ordering(&config) {
        return Err(ConfigError::IncompleteOrdering);
    }
    if config.clients.len() == 0 {
        return Err(ConfigError::NoClients);
    }
    let mut i: usize = 0;
    while i < config.clients.len()
        invariant
            0 <= i <= config.clients@.len(),
            config_error(config) == clients_error_from(config, config.clients@, i as int),
        decreases config.clients@.len() - i,
    {
        match check_client(&config, &config.clients[i]) {
            Some(e) => {
                return Err(e);
            },
            None => {},
        }
        i = i + 1;
    }
    Ok(config)
}

/// The text of one decimal digit.
pub open spec fn digit_text(d: nat) -> Seq<char> {
    seq![(d + 48) as char]
}

/// The decimal text of a number, without leading zeros.
pub open spec fn decimal_text(n: nat) -> Seq<char>
    decreases n,
{
    if n < 10 {
        digit_text(n)
    } else {
        decimal_text(n / 10) + digit_text(n % 10)
    }
}

fn digit_str(d: u16) -> (r: &'static str)
    requires
        d < 10,
    ensures
        r@ == digit_text(d as nat),
{
    proof {
        reveal_strlit("0");
        reveal_strlit("1");
        reveal_strlit("2");
        reveal_strlit("3");
        reveal_strlit("4");
        reveal_strlit("5");
        reveal_strlit("6");
        reveal_strlit("7");
        reveal_strlit("8");
        reveal_strlit("9");
    }
    match d {
        0 => "0",
        1 => "1",
        2 => "2",
        3 => "3",
        4 => "4",
        5 => "5",
        6 => "6",
        7 => "7",
        8 => "8",
        _ => "9",
    }
}

fn append_decimal(s: &mut String, n: u16)
    ensures
        final(s)@ == old(s)@ + decimal_text(n as nat),
    decreases n,
{
    if n >= 10 {
        append_decimal(s, n / 10);
    }
    s.append(digit_str(n % 10));
}

/// The scheme of a Redis connection: `rediss` over TLS, `redis` otherwise.
pub open spec fn scheme_of(ssl: Option<bool>) -> Seq<char> {
    if ssl == Some(true) {
        "rediss"@
    } else {
        "redis"@
    }
}

/// The address of a Redis server: `scheme://:password@hostname:port`.
pub open spec fn url_of(ssl: Option<bool>, password: Seq<char>, hostname: Seq<char>, port: u16) -> Seq<char> {
    scheme_of(ssl) + "://:"@ + password + "@"@ + hostname + ":"@ + decimal_text(port as nat)
}

/// Writes the address of a Redis server.
pub fn connection_url(ssl: Option<bool>, password: &String, hostname: &String, port: u16) -> (r: String)
    ensures
        r@ == url_of(ssl, password@, hostname@, port),
{
    let mut url = if ssl == Some(true) {
        "rediss".to_owned()
    } else {
        "redis".to_owned()
    };
    url.append("://:");
    url.append(password.as_str());
    url.append("@");
    url.append(hostname.as_str());
    url.append(":");
    append_decimal(&mut url, port);
    assert(url@ =~= url_of(ssl, password@, hostname@, port));
    url
}

} // verus!
