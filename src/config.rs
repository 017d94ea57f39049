use crate::text::{decimal_string, decimal_text, text_eq};
use vstd::prelude::*;

verus! {

/// The replication identifier that every server of this kind reports.
pub const REPLICATION_ID: &'static str = "0bc2cc0c5c37aee9000f72bdbb894c472a444051";

/// The port used when none is given.
pub const DEFAULT_PORT: &'static str = "6379";

#[derive(PartialEq, Eq, Structural, Debug, Clone, Copy)]
pub enum Role {
    Master,
    Slave,
}

impl Role {
    pub open spec fn spec_name(self) -> Seq<char> {
        match self {
            Role::Master => "master"@,
            Role::Slave => "slave"@,
        }
    }

    /// The name of the role, as INFO reports it.
    pub fn name(&self) -> (r: &'static str)
        ensures
            r@ == self.spec_name(),
    {
        match self {
            Role::Master => "master",
            Role::Slave => "slave",
        }
    }
}

#[derive(PartialEq, Eq, Debug, Clone)]
pub struct ReplicationConfig {
    pub role: Role,
    pub id: String,
    pub offset: u32,
    pub master_ip: String,
    pub master_port: String,
}

impl ReplicationConfig {
    pub fn is_slave(&self) -> (r: bool)
        ensures
            r == (self.role == Role::Slave),
    {
        self.role == Role::Slave
    }

    /// The address of the master: host, then port.
    pub fn get_ip_port(&self) -> (r: (String, String))
        ensures
            r.0@ == self.master_ip@,
            r.1@ == self.master_port@,
    {
        (self.master_ip.clone(), self.master_port.clone())
    }

    /// The text that INFO reports: role, replication id and offset, one per line.
    pub open spec fn spec_info(&self) -> Seq<char> {
        "role:"@ + self.role.spec_name() + "\nmaster_replid:"@ + self.id@ + "\nmaster_repl_offset:"@
            + decimal_text(self.offset as nat)
    }

    pub fn info(&self) -> (r: String)
        ensures
            r@ == self.spec_info(),
    {
        let text = "role:".to_owned();
        let text = text.concat(self.role.name());
        let text = text.concat("\nmaster_replid:");
        let text = text.concat(self.id.as_str());
        let text = text.concat("\nmaster_repl_offset:");
        let offset = decimal_string(self.offset as u64);
        text.concat(offset.as_str())
    }

    fn duplicate(&self) -> (r: Self)
        ensures
            r == *self,
    {
        ReplicationConfig {
            role: self.role,
            id: self.id.clone(),
            offset: self.offset,
            master_ip: self.master_ip.clone(),
            master_port: self.master_port.clone(),
        }
    }
}

impl Default for ReplicationConfig {
    fn default() -> (r: Self)
        ensures
            r.role == Role::Master,
            r.id@ == REPLICATION_ID@,
            r.offset == 0,
            r.master_ip@ == Seq::<char>::empty(),
            r.master_port@ == Seq::<char>::empty(),
    {
        ReplicationConfig {
            role: Role::Master,
            id: REPLICATION_ID.to_owned(),
            offset: 0,
            master_ip: String::new(),
            master_port: String::new(),
        }
    }
}

#[derive(Debug, PartialEq, Eq, Clone)]
pub struct SystemConfig {
    pub db_dir: Option<String>,
    pub db_file_name: Option<String>,
    pub port: Option<String>,
    pub replication_config: ReplicationConfig,
}

/// What a configuration holds, as plain values.
pub struct ConfigView {
    pub dir: Option<Seq<char>>,
    pub dbfilename: Option<Seq<char>>,
    pub port: Option<Seq<char>>,
    pub role: Role,
    pub id: Seq<char>,
    pub offset: u32,
    pub master_ip: Seq<char>,
    pub master_port: Seq<char>,
}

pub open spec fn opt_text(o: Option<String>) -> Option<Seq<char>> {
    match o {
        Some(s) => Some(s@),
        None => None,
    }
}

/// The value of a parameter that CONFIG GET can read: `dir` or `dbfilename`.
pub open spec fn spec_config_value(c: ConfigView, key: Seq<char>) -> Option<Seq<char>> {
    if key == "dir"@ {
        c.dir
    } else if key == "dbfilename"@ {
        c.dbfilename
    } else {
        None
    }
}

impl SystemConfig {
    pub open spec fn view(&self) -> ConfigView {
        ConfigView {
            dir: opt_text(self.db_dir),
            dbfilename: opt_text(self.db_file_name),
            port: opt_text(self.port),
            role: self.replication_config.role,
            id: self.replication_config.id@,
            offset: self.replication_config.offset,
            master_ip: self.replication_config.master_ip@,
            master_port: self.replication_config.master_port@,
        }
    }

    /// The value of a configuration parameter that CONFIG GET can read: `dir` or `dbfilename`.
    pub fn get_config(&self, key: &String) -> (r: Option<String>)
        ensures
            opt_text(r) == spec_config_value(self@, key@),
    {
        if text_eq(key.as_str(), "dir") {
            clone_text(&self.db_dir)
        } else if text_eq(key.as_str(), "dbfilename") {
            clone_text(&self.db_file_name)
        } else {
            None
        }
    }

    /// The path of the snapshot file: the directory, a slash, and the file name.
    pub fn get_rdb_path(&self) -> (r: Option<String>)
        ensures
            opt_text(r) == match (self@.dir, self@.dbfilename) {
                (Some(d), Some(f)) => Some(d + "/"@ + f),
                _ => None,
            },
    {
        match (&self.db_dir, &self.db_file_name) {
            (Some(d), Some(f)) => {
                let path = d.clone().concat("/");
                Some(path.concat(f.as_str()))
            },
            _ => None,
        }
    }

    /// The port to listen on.
    pub fn get_port(&self) -> (r: String)
        ensures
            r@ == match self@.port {
                Some(p) => p,
                None => DEFAULT_PORT@,
            },
    {
        match &self.port {
            Some(p) => p.clone(),
            None => DEFAULT_PORT.to_owned(),
        }
    }

    pub fn get_replication_config(&self) -> (r: ReplicationConfig)
        ensures
            r == self.replication_config,
    {
        self.replication_config.duplicate()
    }
}

fn clone_text(o: &Option<String>) -> (r: Option<String>)
    ensures
        r == *o,
{
    match o {
        Some(s) => Some(s.clone()),
        None => None,
    }
}

impl Default for SystemConfig {
    fn default() -> (r: Self)
        ensures
            r@ == default_view(),
    {
        SystemConfig {
            db_dir: None,
            db_file_name: None,
            port: None,
            replication_config: ReplicationConfig::default(),
        }
    }
}

pub open spec fn default_view() -> ConfigView {
    ConfigView {
        dir: None,
        dbfilename: None,
        port: None,
        role: Role::Master,
        id: REPLICATION_ID@,
        offset: 0,
        master_ip: Seq::empty(),
        master_port: Seq::empty(),
    }
}

/// A command-line option that takes a value.
#[derive(PartialEq, Eq, Structural, Debug, Clone, Copy)]
pub enum Flag {
    Dir,
    DbFilename,
    Port,
    ReplicaOf,
}

impl Flag {
    pub open spec fn spec_name(self) -> Seq<char> {
        match self {
            Flag::Dir => "--dir"@,
            Flag::DbFilename => "--dbfilename"@,
            Flag::Port => "--port"@,
            Flag::ReplicaOf => "--replicaof"@,
        }
    }

    pub fn name(&self) -> (r: &'static str)
        ensures
            r@ == self.spec_name(),
    {
        match self {
            Flag::Dir => "--dir",
            Flag::DbFilename => "--dbfilename",
            Flag::Port => "--port",
            Flag::ReplicaOf => "--replicaof",
        }
    }
}

/// Why the command line was refused.
#[derive(PartialEq, Eq, Structural, Debug, Clone, Copy)]
pub enum ConfigError {
    /// The option was the last word, with no value after it.
    MissingValue(Flag),
    /// `--dir` was given without `--dbfilename`.
    DirWithoutDbFilename,
    /// The value of `--replicaof` holds no space between host and port.
    InvalidReplicaOf,
}

impl ConfigError {
    pub open spec fn spec_message(self) -> Seq<char> {
        match self {
            ConfigError::MissingValue(flag) => "should provide value for "@ + flag.spec_name(),
            ConfigError::DirWithoutDbFilename => "should provide --dbfilename with --dir"@,
            ConfigError::InvalidReplicaOf => "--replicaof takes \"<host> <port>\""@,
        }
    }

    /// The text that explains the error.
    pub fn message(&self) -> (r: String)
        ensures
            r@ == self.spec_message(),
    {
        match self {
            ConfigError::MissingValue(flag) => "should provide value for ".to_owned().concat(
                flag.name(),
            ),
            ConfigError::DirWithoutDbFilename => "should provide --dbfilename with --dir".to_owned(),
            ConfigError::InvalidReplicaOf => "--replicaof takes \"<host> <port>\"".to_owned(),
        }
    }
}

/// The position of the first space at or after `from`, or the length when there is none.
pub open spec fn first_space(s: Seq<char>, from: int) -> int
    decreases s.len() - from,
{
    if from >= s.len() {
        s.len() as int
    } else if s[from] == ' ' {
        from
    } else {
        first_space(s, from + 1)
    }
}

/// A `--replicaof` value split into host and port: the host ends at the first space, the port at
/// the next one or at the end.
pub open spec fn spec_split_host_port(s: Seq<char>) -> Option<(Seq<char>, Seq<char>)> {
    let k = first_space(s, 0);
    if k >= s.len() {
        None
    } else {
        Some((s.subrange(0, k), s.subrange(k + 1, first_space(s, k + 1))))
    }
}

fn find_space(s: &str, from: usize, len: usize) -> (r: usize)
    requires
        len == s@.len(),
        from <= len,
    ensures
        r == first_space(s@, from as int),
        from <= r <= len,
{
    let mut j = from;
    while j < len
        invariant
            from <= j <= len,
            len == s@.len(),
            first_space(s@, from as int) == first_space(s@, j as int),
        decreases len - j,
    {
        if s.get_char(j) == ' ' {
            return j;
        }
        j = j + 1;
    }
    j
}

pub fn split_host_port(s: &str) -> (r: Option<(String, String)>)
    ensures
        match r {
            None => spec_split_host_port(s@) is None,
            Some((h, p)) => spec_split_host_port(s@) == Some((h@, p@)),
        },
{
    let len = s.unicode_len();
    let k = find_space(s, 0, len);
    if k >= len {
        return None;
    }
    let j = find_space(s, k + 1, len);
    let host = s.substring_char(0, k).to_owned();
    let port = s.substring_char(k + 1, j).to_owned();
    Some((host, port))
}

/// The configuration that the words from position `i` on turn `c` into.
pub open spec fn spec_parse_from(args: Seq<Seq<char>>, i: int, c: ConfigView) -> Result<
    ConfigView,
    ConfigError,
>
    decreases args.len() - i,
{
    if i >= args.len() {
        if c.dir is Some && c.dbfilename is None {
            Err(ConfigError::DirWithoutDbFilename)
        } else {
            Ok(c)
        }
    } else if args[i] == "--dir"@ {
        if i + 1 >= args.len() {
            Err(ConfigError::MissingValue(Flag::Dir))
        } else {
            spec_parse_from(args, i + 2, ConfigView { dir: Some(args[i + 1]), ..c })
        }
    } else if args[i] == "--dbfilename"@ {
        if i + 1 >= args.len() {
            Err(ConfigError::MissingValue(Flag::DbFilename))
        } else {
            spec_parse_from(args, i + 2, ConfigView { dbfilename: Some(args[i + 1]), ..c })
        }
    } else if args[i] == "--port"@ {
        if i + 1 >= args.len() {
            Err(ConfigError::MissingValue(Flag::Port))
        } else {
            spec_parse_from(args, i + 2, ConfigView { port: Some(args[i + 1]), ..c })
        }
    } else if args[i] == "--replicaof"@ {
        if i + 1 >= args.len() {
            Err(ConfigError::MissingValue(Flag::ReplicaOf))
        } else {
            match spec_split_host_port(args[i + 1]) {
                None => Err(ConfigError::InvalidReplicaOf),
                Some((h, p)) => spec_parse_from(
                    args,
                    i + 2,
                    ConfigView { role: Role::Slave, master_ip: h, master_port: p, ..c },
                ),
            }
        }
    } else {
        spec_parse_from(args, i + 1, c)
    }
}

pub open spec fn texts_of(args: Seq<String>) -> Seq<Seq<char>> {
    args.map_values(|a: String| a@)
}

/// The configuration that a command line describes; its first word, the program, is skipped.
pub open spec fn spec_parse_args(args: Seq<Seq<char>>) -> Result<ConfigView, ConfigError> {
    spec_parse_from(args, 1, default_view())
}

/// Reads the configuration from the command line; its first word, the program, is skipped.
pub fn parse_args(args: Vec<String>) -> (r: Result<SystemConfig, ConfigError>)
    ensures
        match r {
            Ok(c) => spec_parse_args(texts_of(args@)) == Ok::<ConfigView, ConfigError>(c@),
            Err(e) => spec_parse_args(texts_of(args@)) == Err::<ConfigView, ConfigError>(e),
        },
{
    let ghost words = texts_of(args@);
    let mut config = SystemConfig::default();
    let mut i: usize = if args.len() > 0 {
        1
    } else {
        0
    };
    while i < args.len()
        invariant
            i <= args.len(),
            words == texts_of(args@),
            spec_parse_args(words) == spec_parse_from(words, i as int, config@),
        decreases args.len() - i,
    {
        let word = args[i].as_str();
        assert(words[i as int] == args@[i as int]@);
        if text_eq(word, "--dir") {
            if i + 1 >= args.len() {
                return Err(ConfigError::MissingValue(Flag::Dir));
            }
            config.db_dir = Some(args[i + 1].clone());
            i = i + 2;
        } else if text_eq(word, "--dbfilename") {
            if i + 1 >= args.len() {
                return Err(ConfigError::MissingValue(Flag::DbFilename));
            }
            config.db_file_name = Some(args[i + 1].clone());
            i = i + 2;
        } else if text_eq(word, "--port") {
            if i + 1 >= args.len() {
                return Err(ConfigError::MissingValue(Flag::Port));
            }
            config.port = Some(args[i + 1].clone());
            i = i + 2;
        } else if text_eq(word, "--replicaof") {
            if i + 1 >= args.len() {
                return Err(ConfigError::MissingValue(Flag::ReplicaOf));
            }
            match split_host_port(args[i + 1].as_str()) {
                None => {
                    return Err(ConfigError::InvalidReplicaOf);
                },
                Some((host, port)) => {
                    config.replication_config.role = Role::Slave;
                    config.replication_config.master_ip = host;
                    config.replication_config.master_port = port;
                },
            }
            i = i + 2;
        } else {
            i = i + 1;
        }
    }
    if config.db_dir.is_some() && config.db_file_name.is_none() {
        return Err(ConfigError::DirWithoutDbFilename);
    }
    Ok(config)
}

} // verus!
