use redis_starter_rust::config::{
    parse_args, ConfigError, Flag, ReplicationConfig, Role, SystemConfig,
};

fn to_args(args: Vec<&str>) -> Vec<String> {
    args.into_iter().map(|arg| arg.to_owned()).collect()
}

fn check_err<T>(res: Result<T, ConfigError>, err_message: &str) {
    match res {
        Ok(_) => panic!("Expected Err"),
        Err(e) => assert!(
            e.message().contains(err_message),
            "failed with error: {}",
            err_message
        ),
    }
}

#[test]
fn should_err_if_db_dir_has_no_value() {
    let args = vec!["exec", "--dir"];
    let res = parse_args(to_args(args));
    check_err(res, "provide value for --dir");
}

#[test]
fn should_err_if_port_has_no_value() {
    let args = vec!["exec", "--port"];
    let res = parse_args(to_args(args));
    check_err(res, "provide value for --port");
}

#[test]
fn should_err_if_dbfilename_has_no_value() {
    let args = vec!["exec", "--dir", "filedir", "--dbfilename"];
    let res = parse_args(to_args(args));
    check_err(res, "provide value for --dbfilename");
}

#[test]
fn should_err_if_dbfielname_is_not_specified_with_dir() {
    let args = vec!["exec", "--dir", "filedir"];
    let res = parse_args(to_args(args));
    check_err(res, "provide --dbfilename with --dir");
}

#[test]
fn should_return_config_with_given_values() {
    let args = vec![
        "exec",
        "--dir",
        "filedir",
        "--dbfilename",
        "filename",
        "--port",
        "7070",
    ];
    let res = parse_args(to_args(args));
    let expected_config = SystemConfig {
        db_dir: Some("filedir".to_owned()),
        db_file_name: Some("filename".to_owned()),
        port: Some("7070".to_owned()),
        replication_config: ReplicationConfig::default(),
    };
    assert_eq!(res.unwrap(), expected_config);
}

#[test]
fn should_return_slave_config() {
    let args = vec!["exec", "--port", "7070", "--replicaof", "localhost 7171"];
    let res = parse_args(to_args(args));
    let expected_config = SystemConfig {
        db_dir: None,
        db_file_name: None,
        port: Some("7070".to_owned()),
        replication_config: ReplicationConfig {
            role: Role::Slave,
            master_ip: "localhost".to_owned(),
            master_port: "7171".to_owned(),
            ..ReplicationConfig::default()
        },
    };
    assert_eq!(res.unwrap(), expected_config);
}

#[test]
fn replicaof_without_space_is_refused() {
    let res = parse_args(to_args(vec!["exec", "--replicaof", "localhost"]));
    assert_eq!(res, Err(ConfigError::InvalidReplicaOf));
}

#[test]
fn replicaof_value_missing_names_the_flag() {
    let res = parse_args(to_args(vec!["exec", "--replicaof"]));
    assert_eq!(res, Err(ConfigError::MissingValue(Flag::ReplicaOf)));
    check_err(res, "provide value for --replicaof");
}

#[test]
fn replicaof_port_ends_at_next_space() {
    let config = parse_args(to_args(vec!["exec", "--replicaof", "host 1234 extra"])).unwrap();
    assert_eq!(
        config.get_replication_config().get_ip_port(),
        ("host".to_owned(), "1234".to_owned())
    );
    assert!(config.get_replication_config().is_slave());
}

#[test]
fn later_flag_wins_and_unknown_words_are_skipped() {
    let config = parse_args(to_args(vec!["exec", "--port", "1", "stray", "--port", "2"])).unwrap();
    assert_eq!(config.get_port(), "2");
}

#[test]
fn defaults_without_arguments() {
    let config = parse_args(Vec::new()).unwrap();
    assert_eq!(config, SystemConfig::default());
    assert_eq!(config.get_port(), "6379");
    assert_eq!(config.get_rdb_path(), None);
    assert!(!config.get_replication_config().is_slave());
}

#[test]
fn config_getters() {
    let config = parse_args(to_args(vec![
        "exec",
        "--dir",
        "/tmp",
        "--dbfilename",
        "d.rdb",
    ]))
    .unwrap();
    assert_eq!(config.get_config(&"dir".to_owned()), Some("/tmp".to_owned()));
    assert_eq!(config.get_config(&"dbfilename".to_owned()), Some("d.rdb".to_owned()));
    assert_eq!(config.get_config(&"port".to_owned()), None);
    assert_eq!(config.get_rdb_path(), Some("/tmp/d.rdb".to_owned()));
}

#[test]
fn info_text_of_default_master() {
    let info = ReplicationConfig::default().info();
    assert_eq!(
        info,
        "role:master\nmaster_replid:0bc2cc0c5c37aee9000f72bdbb894c472a444051\nmaster_repl_offset:0"
    );
    let slave = ReplicationConfig {
        role: Role::Slave,
        offset: 1234,
        ..ReplicationConfig::default()
    };
    assert!(slave.info().starts_with("role:slave\n"));
    assert!(slave.info().ends_with("master_repl_offset:1234"));
}
