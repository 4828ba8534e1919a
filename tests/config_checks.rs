use redismultiplexer::config::{
    connection_url, parse_mode, verify_config, ClientConfig, Config, ConfigError, FilterFault, Mode,
};

fn client(name: &str, host: &str, channel: &str) -> ClientConfig {
    ClientConfig {
        name: name.to_string(),
        ssl: None,
        hostname: host.to_string(),
        port: 6379,
        password: String::new(),
        channel: channel.to_string(),
        timelimit: None,
        checklimit: None,
        softlimit: None,
        hardlimit: None,
        deleteblock: None,
        filter: None,
        filter_until: None,
        filter_limit: None,
        filter_replace: None,
    }
}

fn config() -> Config {
    Config {
        name: "src".to_string(),
        ssl: None,
        hostname: "a.example".to_string(),
        port: 6379,
        password: "pw".to_string(),
        channel: "in".to_string(),
        children: 2,
        mode: "replicant".to_string(),
        pid: None,
        status: None,
        filter: None,
        filter_until: None,
        filter_limit: None,
        filter_replace: None,
        ordering: None,
        ordering_buffer_time: None,
        ordering_limit: None,
        clients: vec![client("b1", "b.example", "out"), client("b2", "c.example", "out")],
    }
}

#[test]
fn valid_config_is_returned_unchanged() {
    let c = config();
    let r = verify_config(c.clone()).unwrap();
    assert_eq!(r.name, "src");
    assert_eq!(r.clients.len(), 2);
    assert_eq!(r.mode, "replicant");
}

#[test]
fn unknown_mode_is_refused() {
    let mut c = config();
    c.mode = "broadcast".to_string();
    assert_eq!(verify_config(c), Err(ConfigError::UnknownMode("broadcast".to_string())));
}

#[test]
fn zero_children_is_refused() {
    let mut c = config();
    c.children = 0;
    assert_eq!(verify_config(c), Err(ConfigError::NoChildren));
}

#[test]
fn empty_source_fields_are_refused() {
    let mut c = config();
    c.name = String::new();
    assert_eq!(verify_config(c), Err(ConfigError::EmptySourceName));
    let mut c = config();
    c.hostname = String::new();
    assert_eq!(verify_config(c), Err(ConfigError::EmptySourceHostname));
    let mut c = config();
    c.channel = String::new();
    assert_eq!(verify_config(c), Err(ConfigError::EmptySourceChannel));
}

#[test]
fn source_filter_options_need_a_filter() {
    let mut c = config();
    c.filter_limit = Some(3);
    assert_eq!(verify_config(c), Err(ConfigError::SourceFilter(FilterFault::OptionsWithoutFilter)));
    let mut c = config();
    c.filter = Some(String::new());
    assert_eq!(verify_config(c), Err(ConfigError::SourceFilter(FilterFault::EmptyFilter)));
    let mut c = config();
    c.filter = Some("foo".to_string());
    c.filter_limit = Some(3);
    c.filter_replace = Some("bar".to_string());
    assert!(verify_config(c).is_ok());
}

#[test]
fn ordering_needs_all_three_settings() {
    let mut c = config();
    c.ordering = Some("ts=(?P<ts>\\d+)".to_string());
    assert_eq!(verify_config(c), Err(ConfigError::IncompleteOrdering));
    let mut c = config();
    c.ordering = Some("ts=(?P<ts>\\d+)".to_string());
    c.ordering_limit = Some(64);
    assert_eq!(verify_config(c), Err(ConfigError::IncompleteOrdering));
    let mut c = config();
    c.ordering = Some("ts=(?P<ts>\\d+)".to_string());
    c.ordering_limit = Some(64);
    c.ordering_buffer_time = Some(0);
    assert_eq!(verify_config(c), Err(ConfigError::IncompleteOrdering));
    let mut c = config();
    c.ordering = Some("ts=(?P<ts>\\d+)".to_string());
    c.ordering_limit = Some(64);
    c.ordering_buffer_time = Some(2);
    assert!(verify_config(c).is_ok());
}

#[test]
fn no_clients_is_refused() {
    let mut c = config();
    c.clients = Vec::new();
    assert_eq!(verify_config(c), Err(ConfigError::NoClients));
}

#[test]
fn client_faults_are_refused_with_the_client_name() {
    let mut c = config();
    c.clients[1].hostname = String::new();
    assert_eq!(verify_config(c), Err(ConfigError::EmptyClientHostname("b2".to_string())));
    let mut c = config();
    c.clients[0].channel = String::new();
    assert_eq!(verify_config(c), Err(ConfigError::EmptyClientChannel("b1".to_string())));
    let mut c = config();
    c.clients[0].hostname = "a.example".to_string();
    c.clients[0].channel = "in".to_string();
    assert_eq!(verify_config(c), Err(ConfigError::ClientSameAsSource("b1".to_string())));
    let mut c = config();
    c.clients[0].hardlimit = Some(10);
    c.clients[0].softlimit = Some(5);
    assert_eq!(verify_config(c), Err(ConfigError::IncompleteClientLimits("b1".to_string())));
    let mut c = config();
    c.clients[0].filter_until = Some("|".to_string());
    assert_eq!(
        verify_config(c),
        Err(ConfigError::ClientFilter("b1".to_string(), FilterFault::OptionsWithoutFilter))
    );
    let mut c = config();
    c.clients[1].filter = Some(String::new());
    assert_eq!(verify_config(c), Err(ConfigError::ClientFilter("b2".to_string(), FilterFault::EmptyFilter)));
}

#[test]
fn client_limits_all_set_or_all_zero_are_accepted() {
    let mut c = config();
    c.clients[0].timelimit = Some(1);
    c.clients[0].checklimit = Some(1);
    c.clients[0].softlimit = Some(5);
    c.clients[0].hardlimit = Some(10);
    c.clients[0].deleteblock = Some(3);
    assert!(verify_config(c).is_ok());
    let mut c = config();
    c.clients[0].timelimit = Some(0);
    c.clients[0].hardlimit = Some(0);
    assert!(verify_config(c).is_ok());
}

#[test]
fn first_fault_wins() {
    let mut c = config();
    c.children = 0;
    c.clients = Vec::new();
    assert_eq!(verify_config(c), Err(ConfigError::NoChildren));
}

#[test]
fn mode_names() {
    assert_eq!(parse_mode(&"replicant".to_string()), Some(Mode::Replicant));
    assert_eq!(parse_mode(&"spreader".to_string()), Some(Mode::Spreader));
    assert_eq!(parse_mode(&"Spreader".to_string()), None);
}

#[test]
fn connection_urls() {
    assert_eq!(
        connection_url(None, &"pw".to_string(), &"a.example".to_string(), 6379),
        "redis://:pw@a.example:6379"
    );
    assert_eq!(
        connection_url(Some(true), &String::new(), &"h".to_string(), 0),
        "rediss://:@h:0"
    );
    assert_eq!(
        connection_url(Some(false), &"x".to_string(), &"h".to_string(), 65535),
        "redis://:x@h:65535"
    );
}
