//! Program settings and the command line options that change them.

use vstd::prelude::*;
use vstd::utf8::*;
use vstd::string::*;
use crate::numbers::{decimal, is_digit, lemma_decimal_are_digits, lemma_parse_decimal, parse_int, parse_int_spec};
use crate::text::{all_ascii, ascii_text, lemma_ascii_utf8, str_eq};

verus! {

/// The settings of a run.
#[derive(Clone, Debug)]
pub struct SpeedTestConfig {
    /// Minutes between tests.
    pub test_interval: u64,
    /// File the results are added to.
    pub store_filename: String,
    pub listen_port: u16,
    pub listen_address: String,
    /// Speed test server `host:port`; chosen automatically when absent.
    pub server_host: Option<String>,
    /// Seconds of download test; 0 leaves it out.
    pub download_duration: u32,
    pub download_connections: u32,
    /// Seconds of upload test; 0 leaves it out.
    pub upload_duration: u32,
    pub upload_connections: u32,
}

pub ghost struct ConfigView {
    pub test_interval: u64,
    pub store_filename: Seq<char>,
    pub listen_port: u16,
    pub listen_address: Seq<char>,
    pub server_host: Option<Seq<char>>,
    pub download_duration: u32,
    pub download_connections: u32,
    pub upload_duration: u32,
    pub upload_connections: u32,
}

impl View for SpeedTestConfig {
    type V = ConfigView;

    open spec fn view(&self) -> ConfigView {
        ConfigView {
            test_interval: self.test_interval,
            store_filename: self.store_filename@,
            listen_port: self.listen_port,
            listen_address: self.listen_address@,
            server_host: match self.server_host {
                Some(h) => Some(h@),
                None => None,
            },
            download_duration: self.download_duration,
            download_connections: self.download_connections,
            upload_duration: self.upload_duration,
            upload_connections: self.upload_connections,
        }
    }
}

pub open spec fn default_config_view() -> ConfigView {
    ConfigView {
        test_interval: 10,
        store_filename: "speedketchup-results.csv"@,
        listen_port: 8080,
        listen_address: "127.0.0.1"@,
        server_host: None,
        download_duration: 10,
        download_connections: 8,
        upload_duration: 10,
        upload_connections: 8,
    }
}

impl SpeedTestConfig {
    /// The settings without options: a test every 10 minutes, results in
    /// `speedketchup-results.csv`, listening on 127.0.0.1:8080, automatic
    /// server choice, 10 seconds and 8 connections each way.
    pub fn default_config() -> (r: SpeedTestConfig)
        ensures
            r@ == default_config_view(),
    {
        SpeedTestConfig {
            test_interval: 10,
            store_filename: String::from_str("speedketchup-results.csv"),
            listen_port: 8080,
            listen_address: String::from_str("127.0.0.1"),
            server_host: None,
            download_duration: 10,
            download_connections: 8,
            upload_duration: 10,
            upload_connections: 8,
        }
    }
}

/// Why reading the options stopped.
#[derive(Debug, Clone, PartialEq, Eq)]
pub enum OptionStop {
    /// Help was asked for.
    Help,
    /// The version was asked for.
    Version,
    NoInterval,
    BadInterval,
    NoFilename,
    NoAddress,
    NoPort,
    BadPort,
    NoServer,
    NoDuration,
    BadDuration,
    NoNumber,
    BadNumber,
    /// An option that does not exist.
    UnknownArg(String),
}

pub ghost enum StopView {
    Help,
    Version,
    NoInterval,
    BadInterval,
    NoFilename,
    NoAddress,
    NoPort,
    BadPort,
    NoServer,
    NoDuration,
    BadDuration,
    NoNumber,
    BadNumber,
    UnknownArg(Seq<char>),
}

impl View for OptionStop {
    type V = StopView;

    open spec fn view(&self) -> StopView {
        match self {
            OptionStop::Help => StopView::Help,
            OptionStop::Version => StopView::Version,
            OptionStop::NoInterval => StopView::NoInterval,
            OptionStop::BadInterval => StopView::BadInterval,
            OptionStop::NoFilename => StopView::NoFilename,
            OptionStop::NoAddress => StopView::NoAddress,
            OptionStop::NoPort => StopView::NoPort,
            OptionStop::BadPort => StopView::BadPort,
            OptionStop::NoServer => StopView::NoServer,
            OptionStop::NoDuration => StopView::NoDuration,
            OptionStop::BadDuration => StopView::BadDuration,
            OptionStop::NoNumber => StopView::NoNumber,
            OptionStop::BadNumber => StopView::BadNumber,
            OptionStop::UnknownArg(a) => StopView::UnknownArg(a@),
        }
    }
}

/// The value of decimal text `t` when it is an unsigned number up to `max`.
pub open spec fn number_arg(t: Seq<char>, max: int) -> Option<int> {
    match parse_int_spec(encode_utf8(t), 10, false, 0, max) {
        Ok(v) => Some(v),
        Err(_) => None,
    }
}

pub open spec fn is_opt(a: Seq<char>, short: Seq<char>, long: Seq<char>) -> bool {
    a == short || a == long
}

/// A server given without a port gets port 8080.
pub open spec fn server_arg(t: Seq<char>) -> Seq<char> {
    if t.contains(':') { t } else { t + ":8080"@ }
}

/// The settings after the options `args`, read from the front; each option
/// that takes a value takes the next argument.
pub open spec fn apply_options(cfg: ConfigView, args: Seq<Seq<char>>) -> Result<ConfigView, StopView>
    decreases args.len(),
{
    if args.len() == 0 {
        Ok(cfg)
    } else {
        let a = args[0];
        let has_value = args.len() >= 2;
        let v = args[1];
        let rest = args.skip(2);
        if is_opt(a, "-h"@, "--help"@) {
            Err(StopView::Help)
        } else if is_opt(a, "-v"@, "--version"@) {
            Err(StopView::Version)
        } else if is_opt(a, "-i"@, "--interval"@) {
            if !has_value { Err(StopView::NoInterval) } else {
                match number_arg(v, u64::MAX as int) {
                    None => Err(StopView::BadInterval),
                    Some(n) => apply_options(ConfigView { test_interval: n as u64, ..cfg }, rest),
                }
            }
        } else if is_opt(a, "-f"@, "--file"@) {
            if !has_value { Err(StopView::NoFilename) } else {
                apply_options(ConfigView { store_filename: v, ..cfg }, rest)
            }
        } else if is_opt(a, "-a"@, "--address"@) {
            if !has_value { Err(StopView::NoAddress) } else {
                apply_options(ConfigView { listen_address: v, ..cfg }, rest)
            }
        } else if is_opt(a, "-p"@, "--port"@) {
            if !has_value { Err(StopView::NoPort) } else {
                match number_arg(v, u16::MAX as int) {
                    None => Err(StopView::BadPort),
                    Some(n) => apply_options(ConfigView { listen_port: n as u16, ..cfg }, rest),
                }
            }
        } else if is_opt(a, "-s"@, "--server"@) {
            if !has_value { Err(StopView::NoServer) } else {
                apply_options(ConfigView { server_host: Some(server_arg(v)), ..cfg }, rest)
            }
        } else if is_opt(a, "-dd"@, "--download-duration"@) {
            if !has_value { Err(StopView::NoDuration) } else {
                match number_arg(v, u32::MAX as int) {
                    None => Err(StopView::BadDuration),
                    Some(n) => apply_options(ConfigView { download_duration: n as u32, ..cfg }, rest),
                }
            }
        } else if is_opt(a, "-dc"@, "--download-connections"@) {
            if !has_value { Err(StopView::NoNumber) } else {
                match number_arg(v, u32::MAX as int) {
                    None => Err(StopView::BadNumber),
                    Some(n) => apply_options(ConfigView { download_connections: n as u32, ..cfg }, rest),
                }
            }
        } else if is_opt(a, "-ud"@, "--upload-duration"@) {
            if !has_value { Err(StopView::NoDuration) } else {
                match number_arg(v, u32::MAX as int) {
                    None => Err(StopView::BadDuration),
                    Some(n) => apply_options(ConfigView { upload_duration: n as u32, ..cfg }, rest),
                }
            }
        } else if is_opt(a, "-uc"@, "--upload-connections"@) {
            if !has_value { Err(StopView::NoNumber) } else {
                match number_arg(v, u32::MAX as int) {
                    None => Err(StopView::BadNumber),
                    Some(n) => apply_options(ConfigView { upload_connections: n as u32, ..cfg }, rest),
                }
            }
        } else {
            Err(StopView::UnknownArg(a))
        }
    }
}

pub open spec fn options_outcome(r: Result<SpeedTestConfig, OptionStop>) -> Result<ConfigView, StopView> {
    match r {
        Ok(c) => Ok(c@),
        Err(e) => Err(e@),
    }
}

pub open spec fn arg_views(args: Seq<String>) -> Seq<Seq<char>> {
    args.map_values(|a: String| a@)
}

fn number_exec(t: &str, max: u64) -> (r: Option<u64>)
    ensures
        r matches Some(n) ==> number_arg(t@, max as int) == Some(n as int) && n <= max,
        r is None ==> number_arg(t@, max as int) is None,
{
    match parse_int(t.as_bytes(), 10, false, 0, max as i128) {
        Ok(n) => Some(n as u64),
        Err(_) => None,
    }
}

fn has_colon(t: &str) -> (r: bool)
    ensures
        r == t@.contains(':'),
{
    let n = t.unicode_len();
    let mut i: usize = 0;
    while i < n
        invariant
            n == t@.len(),
            i <= n,
            forall|j: int| 0 <= j < i ==> t@[j] != ':',
        decreases n - i,
    {
        if t.get_char(i) == ':' {
            return true;
        }
        i = i + 1;
    }
    false
}

fn opt_is(a: &str, short: &str, long: &str) -> (r: bool)
    ensures
        r == is_opt(a@, short@, long@),
{
    str_eq(a, short) || str_eq(a, long)
}

/// Reads the command line options (the program name left out) into the
/// settings `base`; an option overrides what `base` holds.
pub fn parse_options(base: SpeedTestConfig, args: &Vec<String>) -> (r: Result<SpeedTestConfig, OptionStop>)
    ensures
        options_outcome(r) == apply_options(base@, arg_views(args@)),
{
    let ghost base_view = base@;
    let mut cfg = base;
    let n = args.len();
    let ghost av = arg_views(args@);
    let mut i: usize = 0;
    assert(av.skip(0) =~= av);
    while i < n
        invariant
            n == args@.len(),
            av == arg_views(args@),
            i <= n,
            base_view == base@,
            apply_options(base_view, av) == apply_options(cfg@, av.skip(i as int)),
        decreases n - i,
    {
        let ghost rest = av.skip(i as int);
        assert(rest[0] == args@[i as int]@);
        assert(rest.len() >= 2 ==> rest[1] == args@[i + 1]@);
        assert(rest.len() >= 2 ==> rest.skip(2) =~= av.skip(i + 2));
        let a = args[i].as_str();
        let has_value = i + 1 < n;
        if opt_is(a, "-h", "--help") {
            return Err(OptionStop::Help);
        } else if opt_is(a, "-v", "--version") {
            return Err(OptionStop::Version);
        } else if opt_is(a, "-i", "--interval") {
            if !has_value {
                return Err(OptionStop::NoInterval);
            }
            match number_exec(args[i + 1].as_str(), u64::MAX) {
                None => return Err(OptionStop::BadInterval),
                Some(v) => cfg.test_interval = v,
            }
        } else if opt_is(a, "-f", "--file") {
            if !has_value {
                return Err(OptionStop::NoFilename);
            }
            cfg.store_filename = args[i + 1].clone();
        } else if opt_is(a, "-a", "--address") {
            if !has_value {
                return Err(OptionStop::NoAddress);
            }
            cfg.listen_address = args[i + 1].clone();
        } else if opt_is(a, "-p", "--port") {
            if !has_value {
                return Err(OptionStop::NoPort);
            }
            match number_exec(args[i + 1].as_str(), 65535) {
                None => return Err(OptionStop::BadPort),
                Some(v) => cfg.listen_port = v as u16,
            }
        } else if opt_is(a, "-s", "--server") {
            if !has_value {
                return Err(OptionStop::NoServer);
            }
            let v = args[i + 1].as_str();
            if has_colon(v) {
                cfg.server_host = Some(String::from_str(v));
            } else {
                let mut h = String::from_str(v);
                h.append(":8080");
                cfg.server_host = Some(h);
            }
        } else if opt_is(a, "-dd", "--download-duration") {
            if !has_value {
                return Err(OptionStop::NoDuration);
            }
            match number_exec(args[i + 1].as_str(), 0xffff_ffff) {
                None => return Err(OptionStop::BadDuration),
                Some(v) => cfg.download_duration = v as u32,
            }
        } else if opt_is(a, "-dc", "--download-connections") {
            if !has_value {
                return Err(OptionStop::NoNumber);
            }
            match number_exec(args[i + 1].as_str(), 0xffff_ffff) {
                None => return Err(OptionStop::BadNumber),
                Some(v) => cfg.download_connections = v as u32,
            }
        } else if opt_is(a, "-ud", "--upload-duration") {
            if !has_value {
                return Err(OptionStop::NoDuration);
            }
            match number_exec(args[i + 1].as_str(), 0xffff_ffff) {
                None => return Err(OptionStop::BadDuration),
                Some(v) => cfg.upload_duration = v as u32,
            }
        } else if opt_is(a, "-uc", "--upload-connections") {
            if !has_value {
                return Err(OptionStop::NoNumber);
            }
            match number_exec(args[i + 1].as_str(), 0xffff_ffff) {
                None => return Err(OptionStop::BadNumber),
                Some(v) => cfg.upload_connections = v as u32,
            }
        } else {
            return Err(OptionStop::UnknownArg(String::from_str(a)));
        }
        i = i + 2;
    }
    assert(av.skip(i as int).len() == 0);
    Ok(cfg)
}

/// A setting's value in the environment `vars`: the `SPEEDKETCHUP_` name
/// when it is set, else the plain name.
pub open spec fn env_value(vars: Seq<(Seq<char>, Seq<char>)>, plain: Seq<char>, prefixed: Seq<char>) -> Option<Seq<char>> {
    match lookup(vars, prefixed) {
        Some(v) => Some(v),
        None => lookup(vars, plain),
    }
}

/// The value of the first variable named `name`.
pub open spec fn lookup(vars: Seq<(Seq<char>, Seq<char>)>, name: Seq<char>) -> Option<Seq<char>>
    decreases vars.len(),
{
    if vars.len() == 0 {
        None
    } else if vars[0].0 == name {
        Some(vars[0].1)
    } else {
        lookup(vars.drop_first(), name)
    }
}

/// The settings after the environment: each variable that is set gives its
/// setting, read as the matching command line option reads its value; an
/// empty server selects automatically.
pub open spec fn apply_env(cfg: ConfigView, vars: Seq<(Seq<char>, Seq<char>)>) -> Result<ConfigView, StopView> {
    let c0 = cfg;
    let r1 = match env_value(vars, "test_interval"@, "SPEEDKETCHUP_INTERVAL"@) {
        None => Ok(c0),
        Some(v) => match number_arg(v, u64::MAX as int) {
            None => Err(StopView::BadInterval),
            Some(n) => Ok(ConfigView { test_interval: n as u64, ..c0 }),
        },
    };
    match r1 {
        Err(e) => Err(e),
        Ok(c1) => {
            let c2 = match env_value(vars, "store_filename"@, "SPEEDKETCHUP_FILE"@) {
                None => c1,
                Some(v) => ConfigView { store_filename: v, ..c1 },
            };
            let c3 = match env_value(vars, "listen_address"@, "SPEEDKETCHUP_ADDRESS"@) {
                None => c2,
                Some(v) => ConfigView { listen_address: v, ..c2 },
            };
            let r4 = match env_value(vars, "listen_port"@, "SPEEDKETCHUP_PORT"@) {
                None => Ok(c3),
                Some(v) => match number_arg(v, u16::MAX as int) {
                    None => Err(StopView::BadPort),
                    Some(n) => Ok(ConfigView { listen_port: n as u16, ..c3 }),
                },
            };
            match r4 {
                Err(e) => Err(e),
                Ok(c4) => {
                    let c5 = match env_value(vars, "server_host"@, "SPEEDKETCHUP_SERVER"@) {
                        None => c4,
                        Some(v) => ConfigView { server_host: if v.len() == 0 { None } else { Some(server_arg(v)) }, ..c4 },
                    };
                    apply_env_counts(c5, vars)
                },
            }
        },
    }
}

pub open spec fn env_u32(c: Result<ConfigView, StopView>, v: Option<Seq<char>>, bad: StopView, set: spec_fn(ConfigView, u32) -> ConfigView) -> Result<ConfigView, StopView> {
    match c {
        Err(e) => Err(e),
        Ok(cfg) => match v {
            None => Ok(cfg),
            Some(t) => match number_arg(t, u32::MAX as int) {
                None => Err(bad),
                Some(n) => Ok(set(cfg, n as u32)),
            },
        },
    }
}

/// The test durations and connection counts from the environment.
pub open spec fn apply_env_counts(cfg: ConfigView, vars: Seq<(Seq<char>, Seq<char>)>) -> Result<ConfigView, StopView> {
    let r6 = env_u32(Ok(cfg), env_value(vars, "download_duration"@, "SPEEDKETCHUP_DOWNLOAD_DURATION"@), StopView::BadDuration,
        |c: ConfigView, n: u32| ConfigView { download_duration: n, ..c });
    let r7 = env_u32(r6, env_value(vars, "upload_duration"@, "SPEEDKETCHUP_UPLOAD_DURATION"@), StopView::BadDuration,
        |c: ConfigView, n: u32| ConfigView { upload_duration: n, ..c });
    let r8 = env_u32(r7, env_value(vars, "download_connections"@, "SPEEDKETCHUP_DOWNLOAD_CONNECTIONS"@), StopView::BadNumber,
        |c: ConfigView, n: u32| ConfigView { download_connections: n, ..c });
    env_u32(r8, env_value(vars, "upload_connections"@, "SPEEDKETCHUP_UPLOAD_CONNECTIONS"@), StopView::BadNumber,
        |c: ConfigView, n: u32| ConfigView { upload_connections: n, ..c })
}

/// An environment variable: name and value.
#[derive(Debug, Clone)]
pub struct EnvVar {
    pub name: String,
    pub value: String,
}

pub open spec fn env_views(vars: Seq<EnvVar>) -> Seq<(Seq<char>, Seq<char>)> {
    vars.map_values(|v: EnvVar| (v.name@, v.value@))
}

fn lookup_exec<'a>(vars: &'a Vec<EnvVar>, name: &str) -> (r: Option<&'a str>)
    ensures
        r matches Some(v) ==> lookup(env_views(vars@), name@) == Some(v@),
        r is None ==> lookup(env_views(vars@), name@) is None,
{
    let n = vars.len();
    let ghost ev = env_views(vars@);
    let mut i: usize = 0;
    assert(ev.skip(0) =~= ev);
    while i < n
        invariant
            n == vars@.len(),
            ev == env_views(vars@),
            i <= n,
            lookup(ev, name@) == lookup(ev.skip(i as int), name@),
        decreases n - i,
    {
        assert(ev.skip(i as int)[0] == (vars@[i as int].name@, vars@[i as int].value@));
        assert(ev.skip(i as int).drop_first() =~= ev.skip(i + 1));
        if str_eq(vars[i].name.as_str(), name) {
            return Some(vars[i].value.as_str());
        }
        i = i + 1;
    }
    None
}

fn env_value_exec<'a>(vars: &'a Vec<EnvVar>, plain: &str, prefixed: &str) -> (r: Option<&'a str>)
    ensures
        r matches Some(v) ==> env_value(env_views(vars@), plain@, prefixed@) == Some(v@),
        r is None ==> env_value(env_views(vars@), plain@, prefixed@) is None,
{
    match lookup_exec(vars, prefixed) {
        Some(v) => Some(v),
        None => lookup_exec(vars, plain),
    }
}

fn env_u32_exec(vars: &Vec<EnvVar>, plain: &str, prefixed: &str, bad: OptionStop) -> (r: Result<Option<u32>, OptionStop>)
    ensures
        r matches Ok(None) ==> env_value(env_views(vars@), plain@, prefixed@) is None,
        r matches Ok(Some(n)) ==> (env_value(env_views(vars@), plain@, prefixed@) matches Some(t)
            && number_arg(t, u32::MAX as int) == Some(n as int)),
        r matches Err(e) ==> e == bad && (env_value(env_views(vars@), plain@, prefixed@) matches Some(t)
            && number_arg(t, u32::MAX as int) is None),
{
    match env_value_exec(vars, plain, prefixed) {
        None => Ok(None),
        Some(t) => match number_exec(t, 0xffff_ffff) {
            None => Err(bad),
            Some(n) => Ok(Some(n as u32)),
        },
    }
}

/// Applies the settings the environment `vars` holds to `base`.
pub fn apply_environment(base: SpeedTestConfig, vars: &Vec<EnvVar>) -> (r: Result<SpeedTestConfig, OptionStop>)
    ensures
        options_outcome(r) == apply_env(base@, env_views(vars@)),
{
    let ghost ev = env_views(vars@);
    let mut cfg = base;
    if let Some(v) = env_value_exec(vars, "test_interval", "SPEEDKETCHUP_INTERVAL") {
        match number_exec(v, u64::MAX) {
            None => return Err(OptionStop::BadInterval),
            Some(n) => cfg.test_interval = n,
        }
    }
    if let Some(v) = env_value_exec(vars, "store_filename", "SPEEDKETCHUP_FILE") {
        cfg.store_filename = String::from_str(v);
    }
    if let Some(v) = env_value_exec(vars, "listen_address", "SPEEDKETCHUP_ADDRESS") {
        cfg.listen_address = String::from_str(v);
    }
    if let Some(v) = env_value_exec(vars, "listen_port", "SPEEDKETCHUP_PORT") {
        match number_exec(v, 65535) {
            None => return Err(OptionStop::BadPort),
            Some(n) => cfg.listen_port = n as u16,
        }
    }
    if let Some(v) = env_value_exec(vars, "server_host", "SPEEDKETCHUP_SERVER") {
        if v.unicode_len() == 0 {
            cfg.server_host = None;
        } else if has_colon(v) {
            cfg.server_host = Some(String::from_str(v));
        } else {
            let mut h = String::from_str(v);
            h.append(":8080");
            cfg.server_host = Some(h);
        }
    }
    let ghost c5 = cfg@;
    match env_u32_exec(vars, "download_duration", "SPEEDKETCHUP_DOWNLOAD_DURATION", OptionStop::BadDuration) {
        Err(e) => return Err(e),
        Ok(Some(n)) => cfg.download_duration = n,
        Ok(None) => {},
    }
    match env_u32_exec(vars, "upload_duration", "SPEEDKETCHUP_UPLOAD_DURATION", OptionStop::BadDuration) {
        Err(e) => return Err(e),
        Ok(Some(n)) => cfg.upload_duration = n,
        Ok(None) => {},
    }
    match env_u32_exec(vars, "download_connections", "SPEEDKETCHUP_DOWNLOAD_CONNECTIONS", OptionStop::BadNumber) {
        Err(e) => return Err(e),
        Ok(Some(n)) => cfg.download_connections = n,
        Ok(None) => {},
    }
    match env_u32_exec(vars, "upload_connections", "SPEEDKETCHUP_UPLOAD_CONNECTIONS", OptionStop::BadNumber) {
        Err(e) => return Err(e),
        Ok(Some(n)) => cfg.upload_connections = n,
        Ok(None) => {},
    }
    Ok(cfg)
}

/// Field by field, the two results agree, or each keeps its base's value.
pub open spec fn agree_or_keep(r1: ConfigView, r2: ConfigView, b1: ConfigView, b2: ConfigView) -> bool {
    &&& (r1.test_interval == r2.test_interval || (r1.test_interval == b1.test_interval && r2.test_interval == b2.test_interval))
    &&& (r1.store_filename == r2.store_filename || (r1.store_filename == b1.store_filename && r2.store_filename == b2.store_filename))
    &&& (r1.listen_port == r2.listen_port || (r1.listen_port == b1.listen_port && r2.listen_port == b2.listen_port))
    &&& (r1.listen_address == r2.listen_address || (r1.listen_address == b1.listen_address && r2.listen_address == b2.listen_address))
    &&& (r1.server_host == r2.server_host || (r1.server_host == b1.server_host && r2.server_host == b2.server_host))
    &&& (r1.download_duration == r2.download_duration || (r1.download_duration == b1.download_duration && r2.download_duration == b2.download_duration))
    &&& (r1.download_connections == r2.download_connections || (r1.download_connections == b1.download_connections && r2.download_connections == b2.download_connections))
    &&& (r1.upload_duration == r2.upload_duration || (r1.upload_duration == b1.upload_duration && r2.upload_duration == b2.upload_duration))
    &&& (r1.upload_connections == r2.upload_connections || (r1.upload_connections == b1.upload_connections && r2.upload_connections == b2.upload_connections))
}

/// The command line overrides what it is applied to: whether it is
/// accepted, and any setting it gives, do not depend on the settings it
/// starts from (the environment's); every other setting stays as it was.
pub proof fn lemma_options_override(b1: ConfigView, b2: ConfigView, args: Seq<Seq<char>>)
    ensures
        apply_options(b1, args) matches Err(e) ==> apply_options(b2, args) == Err::<ConfigView, StopView>(e),
        apply_options(b1, args) is Ok ==> apply_options(b2, args) is Ok,
        apply_options(b1, args) matches Ok(r1) ==> (apply_options(b2, args) matches Ok(r2) && agree_or_keep(r1, r2, b1, b2)),
    decreases args.len(),
{
    if args.len() >= 2 {
        let a = args[0];
        let v = args[1];
        let rest = args.skip(2);
        if is_opt(a, "-h"@, "--help"@) || is_opt(a, "-v"@, "--version"@) {
        } else if is_opt(a, "-i"@, "--interval"@) {
            if let Some(n) = number_arg(v, u64::MAX as int) {
                lemma_options_override(ConfigView { test_interval: n as u64, ..b1 }, ConfigView { test_interval: n as u64, ..b2 }, rest);
            }
        } else if is_opt(a, "-f"@, "--file"@) {
            lemma_options_override(ConfigView { store_filename: v, ..b1 }, ConfigView { store_filename: v, ..b2 }, rest);
        } else if is_opt(a, "-a"@, "--address"@) {
            lemma_options_override(ConfigView { listen_address: v, ..b1 }, ConfigView { listen_address: v, ..b2 }, rest);
        } else if is_opt(a, "-p"@, "--port"@) {
            if let Some(n) = number_arg(v, u16::MAX as int) {
                lemma_options_override(ConfigView { listen_port: n as u16, ..b1 }, ConfigView { listen_port: n as u16, ..b2 }, rest);
            }
        } else if is_opt(a, "-s"@, "--server"@) {
            lemma_options_override(ConfigView { server_host: Some(server_arg(v)), ..b1 }, ConfigView { server_host: Some(server_arg(v)), ..b2 }, rest);
        } else if is_opt(a, "-dd"@, "--download-duration"@) {
            if let Some(n) = number_arg(v, u32::MAX as int) {
                lemma_options_override(ConfigView { download_duration: n as u32, ..b1 }, ConfigView { download_duration: n as u32, ..b2 }, rest);
            }
        } else if is_opt(a, "-dc"@, "--download-connections"@) {
            if let Some(n) = number_arg(v, u32::MAX as int) {
                lemma_options_override(ConfigView { download_connections: n as u32, ..b1 }, ConfigView { download_connections: n as u32, ..b2 }, rest);
            }
        } else if is_opt(a, "-ud"@, "--upload-duration"@) {
            if let Some(n) = number_arg(v, u32::MAX as int) {
                lemma_options_override(ConfigView { upload_duration: n as u32, ..b1 }, ConfigView { upload_duration: n as u32, ..b2 }, rest);
            }
        } else if is_opt(a, "-uc"@, "--upload-connections"@) {
            if let Some(n) = number_arg(v, u32::MAX as int) {
                lemma_options_override(ConfigView { upload_connections: n as u32, ..b1 }, ConfigView { upload_connections: n as u32, ..b2 }, rest);
            }
        }
    }
}

/// The decimal text of `n`.
pub open spec fn number_text(n: nat) -> Seq<char> {
    decimal(n).map_values(|c: u8| c as char)
}

proof fn lemma_number_text(n: nat, max: int)
    requires
        n <= max,
    ensures
        number_arg(number_text(n), max) == Some(n as int),
{
    lemma_decimal_are_digits(n);
    let d = decimal(n);
    assert(all_ascii(d)) by {
        assert forall|i: int| 0 <= i < d.len() implies #[trigger] d[i] < 128 by {
            assert(is_digit(d[i]));
        }
    }
    lemma_ascii_utf8(d);
    assert(number_text(n) =~= ascii_text(d));
    lemma_parse_decimal(n, 0, max);
    assert(is_digit(d[0]));
}

proof fn lemma_opt_i(b: ConfigView, n: nat)
    requires
        n <= u64::MAX,
    ensures
        apply_options(b, seq!["-i"@, number_text(n)]) == Ok::<ConfigView, StopView>(ConfigView { test_interval: n as u64, ..b }),
{
    reveal_strlit("-h");
    reveal_strlit("--help");
    reveal_strlit("-v");
    reveal_strlit("--version");
    reveal_strlit("-i");
    reveal_strlit("--interval");
    reveal_strlit("-f");
    reveal_strlit("--file");
    reveal_strlit("-a");
    reveal_strlit("--address");
    reveal_strlit("-p");
    reveal_strlit("--port");
    reveal_strlit("-s");
    reveal_strlit("--server");
    reveal_strlit("-dd");
    reveal_strlit("--download-duration");
    reveal_strlit("-dc");
    reveal_strlit("--download-connections");
    reveal_strlit("-ud");
    reveal_strlit("--upload-duration");
    reveal_strlit("-uc");
    reveal_strlit("--upload-connections");
    assert("-i"@[1] != "-h"@[1]);
    assert("-i"@.len() != "--help"@.len());
    assert("-i"@[1] != "-v"@[1]);
    assert("-i"@.len() != "--version"@.len());
    assert("-i"@.len() != "--interval"@.len());
    assert("-i"@[1] != "-f"@[1]);
    assert("-i"@.len() != "--file"@.len());
    assert("-i"@[1] != "-a"@[1]);
    assert("-i"@.len() != "--address"@.len());
    assert("-i"@[1] != "-p"@[1]);
    assert("-i"@.len() != "--port"@.len());
    assert("-i"@[1] != "-s"@[1]);
    assert("-i"@.len() != "--server"@.len());
    assert("-i"@.len() != "-dd"@.len());
    assert("-i"@.len() != "--download-duration"@.len());
    assert("-i"@.len() != "-dc"@.len());
    assert("-i"@.len() != "--download-connections"@.len());
    assert("-i"@.len() != "-ud"@.len());
    assert("-i"@.len() != "--upload-duration"@.len());
    assert("-i"@.len() != "-uc"@.len());
    assert("-i"@.len() != "--upload-connections"@.len());
    lemma_number_text(n, u64::MAX as int);
    reveal_with_fuel(apply_options, 2);
    assert(seq!["-i"@, number_text(n)].skip(2) =~= Seq::<Seq<char>>::empty());
}

proof fn lemma_opt_interval(b: ConfigView, n: nat)
    requires
        n <= u64::MAX,
    ensures
        apply_options(b, seq!["--interval"@, number_text(n)]) == Ok::<ConfigView, StopView>(ConfigView { test_interval: n as u64, ..b }),
{
    reveal_strlit("-h");
    reveal_strlit("--help");
    reveal_strlit("-v");
    reveal_strlit("--version");
    reveal_strlit("-i");
    reveal_strlit("--interval");
    reveal_strlit("-f");
    reveal_strlit("--file");
    reveal_strlit("-a");
    reveal_strlit("--address");
    reveal_strlit("-p");
    reveal_strlit("--port");
    reveal_strlit("-s");
    reveal_strlit("--server");
    reveal_strlit("-dd");
    reveal_strlit("--download-duration");
    reveal_strlit("-dc");
    reveal_strlit("--download-connections");
    reveal_strlit("-ud");
    reveal_strlit("--upload-duration");
    reveal_strlit("-uc");
    reveal_strlit("--upload-connections");
    assert("--interval"@.len() != "-h"@.len());
    assert("--interval"@.len() != "--help"@.len());
    assert("--interval"@.len() != "-v"@.len());
    assert("--interval"@.len() != "--version"@.len());
    assert("--interval"@.len() != "-i"@.len());
    assert("--interval"@.len() != "-f"@.len());
    assert("--interval"@.len() != "--file"@.len());
    assert("--interval"@.len() != "-a"@.len());
    assert("--interval"@.len() != "--address"@.len());
    assert("--interval"@.len() != "-p"@.len());
    assert("--interval"@.len() != "--port"@.len());
    assert("--interval"@.len() != "-s"@.len());
    assert("--interval"@.len() != "--server"@.len());
    assert("--interval"@.len() != "-dd"@.len());
    assert("--interval"@.len() != "--download-duration"@.len());
    assert("--interval"@.len() != "-dc"@.len());
    assert("--interval"@.len() != "--download-connections"@.len());
    assert("--interval"@.len() != "-ud"@.len());
    assert("--interval"@.len() != "--upload-duration"@.len());
    assert("--interval"@.len() != "-uc"@.len());
    assert("--interval"@.len() != "--upload-connections"@.len());

    lemma_number_text(n, u64::MAX as int);
    reveal_with_fuel(apply_options, 2);
    assert(seq!["--interval"@, number_text(n)].skip(2) =~= Seq::<Seq<char>>::empty());
}

proof fn lemma_opt_p(b: ConfigView, n: nat)
    requires
        n <= u16::MAX,
    ensures
        apply_options(b, seq!["-p"@, number_text(n)]) == Ok::<ConfigView, StopView>(ConfigView { listen_port: n as u16, ..b }),
{
    reveal_strlit("-h");
    reveal_strlit("--help");
    reveal_strlit("-v");
    reveal_strlit("--version");
    reveal_strlit("-i");
    reveal_strlit("--interval");
    reveal_strlit("-f");
    reveal_strlit("--file");
    reveal_strlit("-a");
    reveal_strlit("--address");
    reveal_strlit("-p");
    reveal_strlit("--port");
    reveal_strlit("-s");
    reveal_strlit("--server");
    reveal_strlit("-dd");
    reveal_strlit("--download-duration");
    reveal_strlit("-dc");
    reveal_strlit("--download-connections");
    reveal_strlit("-ud");
    reveal_strlit("--upload-duration");
    reveal_strlit("-uc");
    reveal_strlit("--upload-connections");
    assert("-p"@[1] != "-h"@[1]);
    assert("-p"@.len() != "--help"@.len());
    assert("-p"@[1] != "-v"@[1]);
    assert("-p"@.len() != "--version"@.len());
    assert("-p"@[1] != "-i"@[1]);
    assert("-p"@.len() != "--interval"@.len());
    assert("-p"@[1] != "-f"@[1]);
    assert("-p"@.len() != "--file"@.len());
    assert("-p"@[1] != "-a"@[1]);
    assert("-p"@.len() != "--address"@.len());
    assert("-p"@.len() != "--port"@.len());
    assert("-p"@[1] != "-s"@[1]);
    assert("-p"@.len() != "--server"@.len());
    assert("-p"@.len() != "-dd"@.len());
    assert("-p"@.len() != "--download-duration"@.len());
    assert("-p"@.len() != "-dc"@.len());
    assert("-p"@.len() != "--download-connections"@.len());
    assert("-p"@.len() != "-ud"@.len());
    assert("-p"@.len() != "--upload-duration"@.len());
    assert("-p"@.len() != "-uc"@.len());
    assert("-p"@.len() != "--upload-connections"@.len());
    lemma_number_text(n, u16::MAX as int);
    reveal_with_fuel(apply_options, 2);
    assert(seq!["-p"@, number_text(n)].skip(2) =~= Seq::<Seq<char>>::empty());
}

proof fn lemma_opt_port(b: ConfigView, n: nat)
    requires
        n <= u16::MAX,
    ensures
        apply_options(b, seq!["--port"@, number_text(n)]) == Ok::<ConfigView, StopView>(ConfigView { listen_port: n as u16, ..b }),
{
    reveal_strlit("-h");
    reveal_strlit("--help");
    reveal_strlit("-v");
    reveal_strlit("--version");
    reveal_strlit("-i");
    reveal_strlit("--interval");
    reveal_strlit("-f");
    reveal_strlit("--file");
    reveal_strlit("-a");
    reveal_strlit("--address");
    reveal_strlit("-p");
    reveal_strlit("--port");
    reveal_strlit("-s");
    reveal_strlit("--server");
    reveal_strlit("-dd");
    reveal_strlit("--download-duration");
    reveal_strlit("-dc");
    reveal_strlit("--download-connections");
    reveal_strlit("-ud");
    reveal_strlit("--upload-duration");
    reveal_strlit("-uc");
    reveal_strlit("--upload-connections");
    assert("--port"@.len() != "-h"@.len());
    assert("--port"@[2] != "--help"@[2]);
    assert("--port"@.len() != "-v"@.len());
    assert("--port"@.len() != "--version"@.len());
    assert("--port"@.len() != "-i"@.len());
    assert("--port"@.len() != "--interval"@.len());
    assert("--port"@.len() != "-f"@.len());
    assert("--port"@[2] != "--file"@[2]);
    assert("--port"@.len() != "-a"@.len());
    assert("--port"@.len() != "--address"@.len());
    assert("--port"@.len() != "-p"@.len());
    assert("--port"@.len() != "-s"@.len());
    assert("--port"@.len() != "--server"@.len());
    assert("--port"@.len() != "-dd"@.len());
    assert("--port"@.len() != "--download-duration"@.len());
    assert("--port"@.len() != "-dc"@.len());
    assert("--port"@.len() != "--download-connections"@.len());
    assert("--port"@.len() != "-ud"@.len());
    assert("--port"@.len() != "--upload-duration"@.len());
    assert("--port"@.len() != "-uc"@.len());
    assert("--port"@.len() != "--upload-connections"@.len());
    lemma_number_text(n, u16::MAX as int);
    reveal_with_fuel(apply_options, 2);
    assert(seq!["--port"@, number_text(n)].skip(2) =~= Seq::<Seq<char>>::empty());
}

proof fn lemma_opt_dd(b: ConfigView, n: nat)
    requires
        n <= u32::MAX,
    ensures
        apply_options(b, seq!["-dd"@, number_text(n)]) == Ok::<ConfigView, StopView>(ConfigView { download_duration: n as u32, ..b }),
{
    reveal_strlit("-h");
    reveal_strlit("--help");
    reveal_strlit("-v");
    reveal_strlit("--version");
    reveal_strlit("-i");
    reveal_strlit("--interval");
    reveal_strlit("-f");
    reveal_strlit("--file");
    reveal_strlit("-a");
    reveal_strlit("--address");
    reveal_strlit("-p");
    reveal_strlit("--port");
    reveal_strlit("-s");
    reveal_strlit("--server");
    reveal_strlit("-dd");
    reveal_strlit("--download-duration");
    reveal_strlit("-dc");
    reveal_strlit("--download-connections");
    reveal_strlit("-ud");
    reveal_strlit("--upload-duration");
    reveal_strlit("-uc");
    reveal_strlit("--upload-connections");
    assert("-dd"@.len() != "-h"@.len());
    assert("-dd"@.len() != "--help"@.len());
    assert("-dd"@.len() != "-v"@.len());
    assert("-dd"@.len() != "--version"@.len());
    assert("-dd"@.len() != "-i"@.len());
    assert("-dd"@.len() != "--interval"@.len());
    assert("-dd"@.len() != "-f"@.len());
    assert("-dd"@.len() != "--file"@.len());
    assert("-dd"@.len() != "-a"@.len());
    assert("-dd"@.len() != "--address"@.len());
    assert("-dd"@.len() != "-p"@.len());
    assert("-dd"@.len() != "--port"@.len());
    assert("-dd"@.len() != "-s"@.len());
    assert("-dd"@.len() != "--server"@.len());
    assert("-dd"@.len() != "--download-duration"@.len());
    assert("-dd"@[2] != "-dc"@[2]);
    assert("-dd"@.len() != "--download-connections"@.len());
    assert("-dd"@[1] != "-ud"@[1]);
    assert("-dd"@.len() != "--upload-duration"@.len());
    assert("-dd"@[1] != "-uc"@[1]);
    assert("-dd"@.len() != "--upload-connections"@.len());
    lemma_number_text(n, u32::MAX as int);
    reveal_with_fuel(apply_options, 2);
    assert(seq!["-dd"@, number_text(n)].skip(2) =~= Seq::<Seq<char>>::empty());
}

proof fn lemma_opt_download_duration(b: ConfigView, n: nat)
    requires
        n <= u32::MAX,
    ensures
        apply_options(b, seq!["--download-duration"@, number_text(n)]) == Ok::<ConfigView, StopView>(ConfigView { download_duration: n as u32, ..b }),
{
    reveal_strlit("-h");
    reveal_strlit("--help");
    reveal_strlit("-v");
    reveal_strlit("--version");
    reveal_strlit("-i");
    reveal_strlit("--interval");
    reveal_strlit("-f");
    reveal_strlit("--file");
    reveal_strlit("-a");
    reveal_strlit("--address");
    reveal_strlit("-p");
    reveal_strlit("--port");
    reveal_strlit("-s");
    reveal_strlit("--server");
    reveal_strlit("-dd");
    reveal_strlit("--download-duration");
    reveal_strlit("-dc");
    reveal_strlit("--download-connections");
    reveal_strlit("-ud");
    reveal_strlit("--upload-duration");
    reveal_strlit("-uc");
    reveal_strlit("--upload-connections");
    assert("--download-duration"@.len() != "-h"@.len());
    assert("--download-duration"@.len() != "--help"@.len());
    assert("--download-duration"@.len() != "-v"@.len());
    assert("--download-duration"@.len() != "--version"@.len());
    assert("--download-duration"@.len() != "-i"@.len());
    assert("--download-duration"@.len() != "--interval"@.len());
    assert("--download-duration"@.len() != "-f"@.len());
    assert("--download-duration"@.len() != "--file"@.len());
    assert("--download-duration"@.len() != "-a"@.len());
    assert("--download-duration"@.len() != "--address"@.len());
    assert("--download-duration"@.len() != "-p"@.len());
    assert("--download-duration"@.len() != "--port"@.len());
    assert("--download-duration"@.len() != "-s"@.len());
    assert("--download-duration"@.len() != "--server"@.len());
    assert("--download-duration"@.len() != "-dd"@.len());
    assert("--download-duration"@.len() != "-dc"@.len());
    assert("--download-duration"@.len() != "--download-connections"@.len());
    assert("--download-duration"@.len() != "-ud"@.len());
    assert("--download-duration"@.len() != "--upload-duration"@.len());
    assert("--download-duration"@.len() != "-uc"@.len());
    assert("--download-duration"@.len() != "--upload-connections"@.len());

    lemma_number_text(n, u32::MAX as int);
    reveal_with_fuel(apply_options, 2);
    assert(seq!["--download-duration"@, number_text(n)].skip(2) =~= Seq::<Seq<char>>::empty());
}

proof fn lemma_opt_dc(b: ConfigView, n: nat)
    requires
        n <= u32::MAX,
    ensures
        apply_options(b, seq!["-dc"@, number_text(n)]) == Ok::<ConfigView, StopView>(ConfigView { download_connections: n as u32, ..b }),
{
    reveal_strlit("-h");
    reveal_strlit("--help");
    reveal_strlit("-v");
    reveal_strlit("--version");
    reveal_strlit("-i");
    reveal_strlit("--interval");
    reveal_strlit("-f");
    reveal_strlit("--file");
    reveal_strlit("-a");
    reveal_strlit("--address");
    reveal_strlit("-p");
    reveal_strlit("--port");
    reveal_strlit("-s");
    reveal_strlit("--server");
    reveal_strlit("-dd");
    reveal_strlit("--download-duration");
    reveal_strlit("-dc");
    reveal_strlit("--download-connections");
    reveal_strlit("-ud");
    reveal_strlit("--upload-duration");
    reveal_strlit("-uc");
    reveal_strlit("--upload-connections");
    assert("-dc"@.len() != "-h"@.len());
    assert("-dc"@.len() != "--help"@.len());
    assert("-dc"@.len() != "-v"@.len());
    assert("-dc"@.len() != "--version"@.len());
    assert("-dc"@.len() != "-i"@.len());
    assert("-dc"@.len() != "--interval"@.len());
    assert("-dc"@.len() != "-f"@.len());
    assert("-dc"@.len() != "--file"@.len());
    assert("-dc"@.len() != "-a"@.len());
    assert("-dc"@.len() != "--address"@.len());
    assert("-dc"@.len() != "-p"@.len());
    assert("-dc"@.len() != "--port"@.len());
    assert("-dc"@.len() != "-s"@.len());
    assert("-dc"@.len() != "--server"@.len());
    assert("-dc"@[2] != "-dd"@[2]);
    assert("-dc"@.len() != "--download-duration"@.len());
    assert("-dc"@.len() != "--download-connections"@.len());
    assert("-dc"@[1] != "-ud"@[1]);
    assert("-dc"@.len() != "--upload-duration"@.len());
    assert("-dc"@[1] != "-uc"@[1]);
    assert("-dc"@.len() != "--upload-connections"@.len());
    lemma_number_text(n, u32::MAX as int);
    reveal_with_fuel(apply_options, 2);
    assert(seq!["-dc"@, number_text(n)].skip(2) =~= Seq::<Seq<char>>::empty());
}

proof fn lemma_opt_download_connections(b: ConfigView, n: nat)
    requires
        n <= u32::MAX,
    ensures
        apply_options(b, seq!["--download-connections"@, number_text(n)]) == Ok::<ConfigView, StopView>(ConfigView { download_connections: n as u32, ..b }),
{
    reveal_strlit("-h");
    reveal_strlit("--help");
    reveal_strlit("-v");
    reveal_strlit("--version");
    reveal_strlit("-i");
    reveal_strlit("--interval");
    reveal_strlit("-f");
    reveal_strlit("--file");
    reveal_strlit("-a");
    reveal_strlit("--address");
    reveal_strlit("-p");
    reveal_strlit("--port");
    reveal_strlit("-s");
    reveal_strlit("--server");
    reveal_strlit("-dd");
    reveal_strlit("--download-duration");
    reveal_strlit("-dc");
    reveal_strlit("--download-connections");
    reveal_strlit("-ud");
    reveal_strlit("--upload-duration");
    reveal_strlit("-uc");
    reveal_strlit("--upload-connections");
    assert("--download-connections"@.len() != "-h"@.len());
    assert("--download-connections"@.len() != "--help"@.len());
    assert("--download-connections"@.len() != "-v"@.len());
    assert("--download-connections"@.len() != "--version"@.len());
    assert("--download-connections"@.len() != "-i"@.len());
    assert("--download-connections"@.len() != "--interval"@.len());
    assert("--download-connections"@.len() != "-f"@.len());
    assert("--download-connections"@.len() != "--file"@.len());
    assert("--download-connections"@.len() != "-a"@.len());
    assert("--download-connections"@.len() != "--address"@.len());
    assert("--download-connections"@.len() != "-p"@.len());
    assert("--download-connections"@.len() != "--port"@.len());
    assert("--download-connections"@.len() != "-s"@.len());
    assert("--download-connections"@.len() != "--server"@.len());
    assert("--download-connections"@.len() != "-dd"@.len());
    assert("--download-connections"@.len() != "--download-duration"@.len());
    assert("--download-connections"@.len() != "-dc"@.len());
    assert("--download-connections"@.len() != "-ud"@.len());
    assert("--download-connections"@.len() != "--upload-duration"@.len());
    assert("--download-connections"@.len() != "-uc"@.len());
    assert("--download-connections"@.len() != "--upload-connections"@.len());

    lemma_number_text(n, u32::MAX as int);
    reveal_with_fuel(apply_options, 2);
    assert(seq!["--download-connections"@, number_text(n)].skip(2) =~= Seq::<Seq<char>>::empty());
}

proof fn lemma_opt_ud(b: ConfigView, n: nat)
    requires
        n <= u32::MAX,
    ensures
        apply_options(b, seq!["-ud"@, number_text(n)]) == Ok::<ConfigView, StopView>(ConfigView { upload_duration: n as u32, ..b }),
{
    reveal_strlit("-h");
    reveal_strlit("--help");
    reveal_strlit("-v");
    reveal_strlit("--version");
    reveal_strlit("-i");
    reveal_strlit("--interval");
    reveal_strlit("-f");
    reveal_strlit("--file");
    reveal_strlit("-a");
    reveal_strlit("--address");
    reveal_strlit("-p");
    reveal_strlit("--port");
    reveal_strlit("-s");
    reveal_strlit("--server");
    reveal_strlit("-dd");
    reveal_strlit("--download-duration");
    reveal_strlit("-dc");
    reveal_strlit("--download-connections");
    reveal_strlit("-ud");
    reveal_strlit("--upload-duration");
    reveal_strlit("-uc");
    reveal_strlit("--upload-connections");
    assert("-ud"@.len() != "-h"@.len());
    assert("-ud"@.len() != "--help"@.len());
    assert("-ud"@.len() != "-v"@.len());
    assert("-ud"@.len() != "--version"@.len());
    assert("-ud"@.len() != "-i"@.len());
    assert("-ud"@.len() != "--interval"@.len());
    assert("-ud"@.len() != "-f"@.len());
    assert("-ud"@.len() != "--file"@.len());
    assert("-ud"@.len() != "-a"@.len());
    assert("-ud"@.len() != "--address"@.len());
    assert("-ud"@.len() != "-p"@.len());
    assert("-ud"@.len() != "--port"@.len());
    assert("-ud"@.len() != "-s"@.len());
    assert("-ud"@.len() != "--server"@.len());
    assert("-ud"@[1] != "-dd"@[1]);
    assert("-ud"@.len() != "--download-duration"@.len());
    assert("-ud"@[1] != "-dc"@[1]);
    assert("-ud"@.len() != "--download-connections"@.len());
    assert("-ud"@.len() != "--upload-duration"@.len());
    assert("-ud"@[2] != "-uc"@[2]);
    assert("-ud"@.len() != "--upload-connections"@.len());
    lemma_number_text(n, u32::MAX as int);
    reveal_with_fuel(apply_options, 2);
    assert(seq!["-ud"@, number_text(n)].skip(2) =~= Seq::<Seq<char>>::empty());
}

proof fn lemma_opt_upload_duration(b: ConfigView, n: nat)
    requires
        n <= u32::MAX,
    ensures
        apply_options(b, seq!["--upload-duration"@, number_text(n)]) == Ok::<ConfigView, StopView>(ConfigView { upload_duration: n as u32, ..b }),
{
    reveal_strlit("-h");
    reveal_strlit("--help");
    reveal_strlit("-v");
    reveal_strlit("--version");
    reveal_strlit("-i");
    reveal_strlit("--interval");
    reveal_strlit("-f");
    reveal_strlit("--file");
    reveal_strlit("-a");
    reveal_strlit("--address");
    reveal_strlit("-p");
    reveal_strlit("--port");
    reveal_strlit("-s");
    reveal_strlit("--server");
    reveal_strlit("-dd");
    reveal_strlit("--download-duration");
    reveal_strlit("-dc");
    reveal_strlit("--download-connections");
    reveal_strlit("-ud");
    reveal_strlit("--upload-duration");
    reveal_strlit("-uc");
    reveal_strlit("--upload-connections");
    assert("--upload-duration"@.len() != "-h"@.len());
    assert("--upload-duration"@.len() != "--help"@.len());
    assert("--upload-duration"@.len() != "-v"@.len());
    assert("--upload-duration"@.len() != "--version"@.len());
    assert("--upload-duration"@.len() != "-i"@.len());
    assert("--upload-duration"@.len() != "--interval"@.len());
    assert("--upload-duration"@.len() != "-f"@.len());
    assert("--upload-duration"@.len() != "--file"@.len());
    assert("--upload-duration"@.len() != "-a"@.len());
    assert("--upload-duration"@.len() != "--address"@.len());
    assert("--upload-duration"@.len() != "-p"@.len());
    assert("--upload-duration"@.len() != "--port"@.len());
    assert("--upload-duration"@.len() != "-s"@.len());
    assert("--upload-duration"@.len() != "--server"@.len());
    assert("--upload-duration"@.len() != "-dd"@.len());
    assert("--upload-duration"@.len() != "--download-duration"@.len());
    assert("--upload-duration"@.len() != "-dc"@.len());
    assert("--upload-duration"@.len() != "--download-connections"@.len());
    assert("--upload-duration"@.len() != "-ud"@.len());
    assert("--upload-duration"@.len() != "-uc"@.len());
    assert("--upload-duration"@.len() != "--upload-connections"@.len());

    lemma_number_text(n, u32::MAX as int);
    reveal_with_fuel(apply_options, 2);
    assert(seq!["--upload-duration"@, number_text(n)].skip(2) =~= Seq::<Seq<char>>::empty());
}

proof fn lemma_opt_uc(b: ConfigView, n: nat)
    requires
        n <= u32::MAX,
    ensures
        apply_options(b, seq!["-uc"@, number_text(n)]) == Ok::<ConfigView, StopView>(ConfigView { upload_connections: n as u32, ..b }),
{
    reveal_strlit("-h");
    reveal_strlit("--help");
    reveal_strlit("-v");
    reveal_strlit("--version");
    reveal_strlit("-i");
    reveal_strlit("--interval");
    reveal_strlit("-f");
    reveal_strlit("--file");
    reveal_strlit("-a");
    reveal_strlit("--address");
    reveal_strlit("-p");
    reveal_strlit("--port");
    reveal_strlit("-s");
    reveal_strlit("--server");
    reveal_strlit("-dd");
    reveal_strlit("--download-duration");
    reveal_strlit("-dc");
    reveal_strlit("--download-connections");
    reveal_strlit("-ud");
    reveal_strlit("--upload-duration");
    reveal_strlit("-uc");
    reveal_strlit("--upload-connections");
    assert("-uc"@.len() != "-h"@.len());
    assert("-uc"@.len() != "--help"@.len());
    assert("-uc"@.len() != "-v"@.len());
    assert("-uc"@.len() != "--version"@.len());
    assert("-uc"@.len() != "-i"@.len());
    assert("-uc"@.len() != "--interval"@.len());
    assert("-uc"@.len() != "-f"@.len());
    assert("-uc"@.len() != "--file"@.len());
    assert("-uc"@.len() != "-a"@.len());
    assert("-uc"@.len() != "--address"@.len());
    assert("-uc"@.len() != "-p"@.len());
    assert("-uc"@.len() != "--port"@.len());
    assert("-uc"@.len() != "-s"@.len());
    assert("-uc"@.len() != "--server"@.len());
    assert("-uc"@[1] != "-dd"@[1]);
    assert("-uc"@.len() != "--download-duration"@.len());
    assert("-uc"@[1] != "-dc"@[1]);
    assert("-uc"@.len() != "--download-connections"@.len());
    assert("-uc"@[2] != "-ud"@[2]);
    assert("-uc"@.len() != "--upload-duration"@.len());
    assert("-uc"@.len() != "--upload-connections"@.len());
    lemma_number_text(n, u32::MAX as int);
    reveal_with_fuel(apply_options, 2);
    assert(seq!["-uc"@, number_text(n)].skip(2) =~= Seq::<Seq<char>>::empty());
}

proof fn lemma_opt_upload_connections(b: ConfigView, n: nat)
    requires
        n <= u32::MAX,
    ensures
        apply_options(b, seq!["--upload-connections"@, number_text(n)]) == Ok::<ConfigView, StopView>(ConfigView { upload_connections: n as u32, ..b }),
{
    reveal_strlit("-h");
    reveal_strlit("--help");
    reveal_strlit("-v");
    reveal_strlit("--version");
    reveal_strlit("-i");
    reveal_strlit("--interval");
    reveal_strlit("-f");
    reveal_strlit("--file");
    reveal_strlit("-a");
    reveal_strlit("--address");
    reveal_strlit("-p");
    reveal_strlit("--port");
    reveal_strlit("-s");
    reveal_strlit("--server");
    reveal_strlit("-dd");
    reveal_strlit("--download-duration");
    reveal_strlit("-dc");
    reveal_strlit("--download-connections");
    reveal_strlit("-ud");
    reveal_strlit("--upload-duration");
    reveal_strlit("-uc");
    reveal_strlit("--upload-connections");
    assert("--upload-connections"@.len() != "-h"@.len());
    assert("--upload-connections"@.len() != "--help"@.len());
    assert("--upload-connections"@.len() != "-v"@.len());
    assert("--upload-connections"@.len() != "--version"@.len());
    assert("--upload-connections"@.len() != "-i"@.len());
    assert("--upload-connections"@.len() != "--interval"@.len());
    assert("--upload-connections"@.len() != "-f"@.len());
    assert("--upload-connections"@.len() != "--file"@.len());
    assert("--upload-connections"@.len() != "-a"@.len());
    assert("--upload-connections"@.len() != "--address"@.len());
    assert("--upload-connections"@.len() != "-p"@.len());
    assert("--upload-connections"@.len() != "--port"@.len());
    assert("--upload-connections"@.len() != "-s"@.len());
    assert("--upload-connections"@.len() != "--server"@.len());
    assert("--upload-connections"@.len() != "-dd"@.len());
    assert("--upload-connections"@.len() != "--download-duration"@.len());
    assert("--upload-connections"@.len() != "-dc"@.len());
    assert("--upload-connections"@.len() != "--download-connections"@.len());
    assert("--upload-connections"@.len() != "-ud"@.len());
    assert("--upload-connections"@.len() != "--upload-duration"@.len());
    assert("--upload-connections"@.len() != "-uc"@.len());

    lemma_number_text(n, u32::MAX as int);
    reveal_with_fuel(apply_options, 2);
    assert(seq!["--upload-connections"@, number_text(n)].skip(2) =~= Seq::<Seq<char>>::empty());
}

proof fn lemma_opt_f(b: ConfigView, v: Seq<char>)
    ensures
        apply_options(b, seq!["-f"@, v]) == Ok::<ConfigView, StopView>(ConfigView { store_filename: v, ..b }),
{
    reveal_strlit("-h");
    reveal_strlit("--help");
    reveal_strlit("-v");
    reveal_strlit("--version");
    reveal_strlit("-i");
    reveal_strlit("--interval");
    reveal_strlit("-f");
    reveal_strlit("--file");
    reveal_strlit("-a");
    reveal_strlit("--address");
    reveal_strlit("-p");
    reveal_strlit("--port");
    reveal_strlit("-s");
    reveal_strlit("--server");
    reveal_strlit("-dd");
    reveal_strlit("--download-duration");
    reveal_strlit("-dc");
    reveal_strlit("--download-connections");
    reveal_strlit("-ud");
    reveal_strlit("--upload-duration");
    reveal_strlit("-uc");
    reveal_strlit("--upload-connections");
    assert("-f"@[1] != "-h"@[1]);
    assert("-f"@.len() != "--help"@.len());
    assert("-f"@[1] != "-v"@[1]);
    assert("-f"@.len() != "--version"@.len());
    assert("-f"@[1] != "-i"@[1]);
    assert("-f"@.len() != "--interval"@.len());
    assert("-f"@.len() != "--file"@.len());
    assert("-f"@[1] != "-a"@[1]);
    assert("-f"@.len() != "--address"@.len());
    assert("-f"@[1] != "-p"@[1]);
    assert("-f"@.len() != "--port"@.len());
    assert("-f"@[1] != "-s"@[1]);
    assert("-f"@.len() != "--server"@.len());
    assert("-f"@.len() != "-dd"@.len());
    assert("-f"@.len() != "--download-duration"@.len());
    assert("-f"@.len() != "-dc"@.len());
    assert("-f"@.len() != "--download-connections"@.len());
    assert("-f"@.len() != "-ud"@.len());
    assert("-f"@.len() != "--upload-duration"@.len());
    assert("-f"@.len() != "-uc"@.len());
    assert("-f"@.len() != "--upload-connections"@.len());
    reveal_with_fuel(apply_options, 2);
    assert(seq!["-f"@, v].skip(2) =~= Seq::<Seq<char>>::empty());
}

proof fn lemma_opt_file(b: ConfigView, v: Seq<char>)
    ensures
        apply_options(b, seq!["--file"@, v]) == Ok::<ConfigView, StopView>(ConfigView { store_filename: v, ..b }),
{
    reveal_strlit("-h");
    reveal_strlit("--help");
    reveal_strlit("-v");
    reveal_strlit("--version");
    reveal_strlit("-i");
    reveal_strlit("--interval");
    reveal_strlit("-f");
    reveal_strlit("--file");
    reveal_strlit("-a");
    reveal_strlit("--address");
    reveal_strlit("-p");
    reveal_strlit("--port");
    reveal_strlit("-s");
    reveal_strlit("--server");
    reveal_strlit("-dd");
    reveal_strlit("--download-duration");
    reveal_strlit("-dc");
    reveal_strlit("--download-connections");
    reveal_strlit("-ud");
    reveal_strlit("--upload-duration");
    reveal_strlit("-uc");
    reveal_strlit("--upload-connections");
    assert("--file"@.len() != "-h"@.len());
    assert("--file"@[2] != "--help"@[2]);
    assert("--file"@.len() != "-v"@.len());
    assert("--file"@.len() != "--version"@.len());
    assert("--file"@.len() != "-i"@.len());
    assert("--file"@.len() != "--interval"@.len());
    assert("--file"@.len() != "-f"@.len());
    assert("--file"@.len() != "-a"@.len());
    assert("--file"@.len() != "--address"@.len());
    assert("--file"@.len() != "-p"@.len());
    assert("--file"@[2] != "--port"@[2]);
    assert("--file"@.len() != "-s"@.len());
    assert("--file"@.len() != "--server"@.len());
    assert("--file"@.len() != "-dd"@.len());
    assert("--file"@.len() != "--download-duration"@.len());
    assert("--file"@.len() != "-dc"@.len());
    assert("--file"@.len() != "--download-connections"@.len());
    assert("--file"@.len() != "-ud"@.len());
    assert("--file"@.len() != "--upload-duration"@.len());
    assert("--file"@.len() != "-uc"@.len());
    assert("--file"@.len() != "--upload-connections"@.len());
    reveal_with_fuel(apply_options, 2);
    assert(seq!["--file"@, v].skip(2) =~= Seq::<Seq<char>>::empty());
}

proof fn lemma_opt_a(b: ConfigView, v: Seq<char>)
    ensures
        apply_options(b, seq!["-a"@, v]) == Ok::<ConfigView, StopView>(ConfigView { listen_address: v, ..b }),
{
    reveal_strlit("-h");
    reveal_strlit("--help");
    reveal_strlit("-v");
    reveal_strlit("--version");
    reveal_strlit("-i");
    reveal_strlit("--interval");
    reveal_strlit("-f");
    reveal_strlit("--file");
    reveal_strlit("-a");
    reveal_strlit("--address");
    reveal_strlit("-p");
    reveal_strlit("--port");
    reveal_strlit("-s");
    reveal_strlit("--server");
    reveal_strlit("-dd");
    reveal_strlit("--download-duration");
    reveal_strlit("-dc");
    reveal_strlit("--download-connections");
    reveal_strlit("-ud");
    reveal_strlit("--upload-duration");
    reveal_strlit("-uc");
    reveal_strlit("--upload-connections");
    assert("-a"@[1] != "-h"@[1]);
    assert("-a"@.len() != "--help"@.len());
    assert("-a"@[1] != "-v"@[1]);
    assert("-a"@.len() != "--version"@.len());
    assert("-a"@[1] != "-i"@[1]);
    assert("-a"@.len() != "--interval"@.len());
    assert("-a"@[1] != "-f"@[1]);
    assert("-a"@.len() != "--file"@.len());
    assert("-a"@.len() != "--address"@.len());
    assert("-a"@[1] != "-p"@[1]);
    assert("-a"@.len() != "--port"@.len());
    assert("-a"@[1] != "-s"@[1]);
    assert("-a"@.len() != "--server"@.len());
    assert("-a"@.len() != "-dd"@.len());
    assert("-a"@.len() != "--download-duration"@.len());
    assert("-a"@.len() != "-dc"@.len());
    assert("-a"@.len() != "--download-connections"@.len());
    assert("-a"@.len() != "-ud"@.len());
    assert("-a"@.len() != "--upload-duration"@.len());
    assert("-a"@.len() != "-uc"@.len());
    assert("-a"@.len() != "--upload-connections"@.len());
    reveal_with_fuel(apply_options, 2);
    assert(seq!["-a"@, v].skip(2) =~= Seq::<Seq<char>>::empty());
}

proof fn lemma_opt_address(b: ConfigView, v: Seq<char>)
    ensures
        apply_options(b, seq!["--address"@, v]) == Ok::<ConfigView, StopView>(ConfigView { listen_address: v, ..b }),
{
    reveal_strlit("-h");
    reveal_strlit("--help");
    reveal_strlit("-v");
    reveal_strlit("--version");
    reveal_strlit("-i");
    reveal_strlit("--interval");
    reveal_strlit("-f");
    reveal_strlit("--file");
    reveal_strlit("-a");
    reveal_strlit("--address");
    reveal_strlit("-p");
    reveal_strlit("--port");
    reveal_strlit("-s");
    reveal_strlit("--server");
    reveal_strlit("-dd");
    reveal_strlit("--download-duration");
    reveal_strlit("-dc");
    reveal_strlit("--download-connections");
    reveal_strlit("-ud");
    reveal_strlit("--upload-duration");
    reveal_strlit("-uc");
    reveal_strlit("--upload-connections");
    assert("--address"@.len() != "-h"@.len());
    assert("--address"@.len() != "--help"@.len());
    assert("--address"@.len() != "-v"@.len());
    assert("--address"@[2] != "--version"@[2]);
    assert("--address"@.len() != "-i"@.len());
    assert("--address"@.len() != "--interval"@.len());
    assert("--address"@.len() != "-f"@.len());
    assert("--address"@.len() != "--file"@.len());
    assert("--address"@.len() != "-a"@.len());
    assert("--address"@.len() != "-p"@.len());
    assert("--address"@.len() != "--port"@.len());
    assert("--address"@.len() != "-s"@.len());
    assert("--address"@.len() != "--server"@.len());
    assert("--address"@.len() != "-dd"@.len());
    assert("--address"@.len() != "--download-duration"@.len());
    assert("--address"@.len() != "-dc"@.len());
    assert("--address"@.len() != "--download-connections"@.len());
    assert("--address"@.len() != "-ud"@.len());
    assert("--address"@.len() != "--upload-duration"@.len());
    assert("--address"@.len() != "-uc"@.len());
    assert("--address"@.len() != "--upload-connections"@.len());
    reveal_with_fuel(apply_options, 2);
    assert(seq!["--address"@, v].skip(2) =~= Seq::<Seq<char>>::empty());
}

proof fn lemma_opt_s(b: ConfigView, v: Seq<char>)
    ensures
        apply_options(b, seq!["-s"@, v]) == Ok::<ConfigView, StopView>(ConfigView { server_host: Some(server_arg(v)), ..b }),
{
    reveal_strlit("-h");
    reveal_strlit("--help");
    reveal_strlit("-v");
    reveal_strlit("--version");
    reveal_strlit("-i");
    reveal_strlit("--interval");
    reveal_strlit("-f");
    reveal_strlit("--file");
    reveal_strlit("-a");
    reveal_strlit("--address");
    reveal_strlit("-p");
    reveal_strlit("--port");
    reveal_strlit("-s");
    reveal_strlit("--server");
    reveal_strlit("-dd");
    reveal_strlit("--download-duration");
    reveal_strlit("-dc");
    reveal_strlit("--download-connections");
    reveal_strlit("-ud");
    reveal_strlit("--upload-duration");
    reveal_strlit("-uc");
    reveal_strlit("--upload-connections");
    assert("-s"@[1] != "-h"@[1]);
    assert("-s"@.len() != "--help"@.len());
    assert("-s"@[1] != "-v"@[1]);
    assert("-s"@.len() != "--version"@.len());
    assert("-s"@[1] != "-i"@[1]);
    assert("-s"@.len() != "--interval"@.len());
    assert("-s"@[1] != "-f"@[1]);
    assert("-s"@.len() != "--file"@.len());
    assert("-s"@[1] != "-a"@[1]);
    assert("-s"@.len() != "--address"@.len());
    assert("-s"@[1] != "-p"@[1]);
    assert("-s"@.len() != "--port"@.len());
    assert("-s"@.len() != "--server"@.len());
    assert("-s"@.len() != "-dd"@.len());
    assert("-s"@.len() != "--download-duration"@.len());
    assert("-s"@.len() != "-dc"@.len());
    assert("-s"@.len() != "--download-connections"@.len());
    assert("-s"@.len() != "-ud"@.len());
    assert("-s"@.len() != "--upload-duration"@.len());
    assert("-s"@.len() != "-uc"@.len());
    assert("-s"@.len() != "--upload-connections"@.len());
    reveal_with_fuel(apply_options, 2);
    assert(seq!["-s"@, v].skip(2) =~= Seq::<Seq<char>>::empty());
}

proof fn lemma_opt_server(b: ConfigView, v: Seq<char>)
    ensures
        apply_options(b, seq!["--server"@, v]) == Ok::<ConfigView, StopView>(ConfigView { server_host: Some(server_arg(v)), ..b }),
{
    reveal_strlit("-h");
    reveal_strlit("--help");
    reveal_strlit("-v");
    reveal_strlit("--version");
    reveal_strlit("-i");
    reveal_strlit("--interval");
    reveal_strlit("-f");
    reveal_strlit("--file");
    reveal_strlit("-a");
    reveal_strlit("--address");
    reveal_strlit("-p");
    reveal_strlit("--port");
    reveal_strlit("-s");
    reveal_strlit("--server");
    reveal_strlit("-dd");
    reveal_strlit("--download-duration");
    reveal_strlit("-dc");
    reveal_strlit("--download-connections");
    reveal_strlit("-ud");
    reveal_strlit("--upload-duration");
    reveal_strlit("-uc");
    reveal_strlit("--upload-connections");
    assert("--server"@.len() != "-h"@.len());
    assert("--server"@.len() != "--help"@.len());
    assert("--server"@.len() != "-v"@.len());
    assert("--server"@.len() != "--version"@.len());
    assert("--server"@.len() != "-i"@.len());
    assert("--server"@.len() != "--interval"@.len());
    assert("--server"@.len() != "-f"@.len());
    assert("--server"@.len() != "--file"@.len());
    assert("--server"@.len() != "-a"@.len());
    assert("--server"@.len() != "--address"@.len());
    assert("--server"@.len() != "-p"@.len());
    assert("--server"@.len() != "--port"@.len());
    assert("--server"@.len() != "-s"@.len());
    assert("--server"@.len() != "-dd"@.len());
    assert("--server"@.len() != "--download-duration"@.len());
    assert("--server"@.len() != "-dc"@.len());
    assert("--server"@.len() != "--download-connections"@.len());
    assert("--server"@.len() != "-ud"@.len());
    assert("--server"@.len() != "--upload-duration"@.len());
    assert("--server"@.len() != "-uc"@.len());
    assert("--server"@.len() != "--upload-connections"@.len());

    reveal_with_fuel(apply_options, 2);
    assert(seq!["--server"@, v].skip(2) =~= Seq::<Seq<char>>::empty());
}

proof fn lemma_opt_h(b: ConfigView)
    ensures
        apply_options(b, seq!["-h"@]) == Err::<ConfigView, StopView>(StopView::Help),
{
    reveal_strlit("-h");
    reveal_strlit("--help");
    reveal_strlit("-v");
    reveal_strlit("--version");
    reveal_strlit("-i");
    reveal_strlit("--interval");
    reveal_strlit("-f");
    reveal_strlit("--file");
    reveal_strlit("-a");
    reveal_strlit("--address");
    reveal_strlit("-p");
    reveal_strlit("--port");
    reveal_strlit("-s");
    reveal_strlit("--server");
    reveal_strlit("-dd");
    reveal_strlit("--download-duration");
    reveal_strlit("-dc");
    reveal_strlit("--download-connections");
    reveal_strlit("-ud");
    reveal_strlit("--upload-duration");
    reveal_strlit("-uc");
    reveal_strlit("--upload-connections");
    assert("-h"@.len() != "--help"@.len());
    assert("-h"@[1] != "-v"@[1]);
    assert("-h"@.len() != "--version"@.len());
    assert("-h"@[1] != "-i"@[1]);
    assert("-h"@.len() != "--interval"@.len());
    assert("-h"@[1] != "-f"@[1]);
    assert("-h"@.len() != "--file"@.len());
    assert("-h"@[1] != "-a"@[1]);
    assert("-h"@.len() != "--address"@.len());
    assert("-h"@[1] != "-p"@[1]);
    assert("-h"@.len() != "--port"@.len());
    assert("-h"@[1] != "-s"@[1]);
    assert("-h"@.len() != "--server"@.len());
    assert("-h"@.len() != "-dd"@.len());
    assert("-h"@.len() != "--download-duration"@.len());
    assert("-h"@.len() != "-dc"@.len());
    assert("-h"@.len() != "--download-connections"@.len());
    assert("-h"@.len() != "-ud"@.len());
    assert("-h"@.len() != "--upload-duration"@.len());
    assert("-h"@.len() != "-uc"@.len());
    assert("-h"@.len() != "--upload-connections"@.len());
}

proof fn lemma_opt_help(b: ConfigView)
    ensures
        apply_options(b, seq!["--help"@]) == Err::<ConfigView, StopView>(StopView::Help),
{
    reveal_strlit("-h");
    reveal_strlit("--help");
    reveal_strlit("-v");
    reveal_strlit("--version");
    reveal_strlit("-i");
    reveal_strlit("--interval");
    reveal_strlit("-f");
    reveal_strlit("--file");
    reveal_strlit("-a");
    reveal_strlit("--address");
    reveal_strlit("-p");
    reveal_strlit("--port");
    reveal_strlit("-s");
    reveal_strlit("--server");
    reveal_strlit("-dd");
    reveal_strlit("--download-duration");
    reveal_strlit("-dc");
    reveal_strlit("--download-connections");
    reveal_strlit("-ud");
    reveal_strlit("--upload-duration");
    reveal_strlit("-uc");
    reveal_strlit("--upload-connections");
    assert("--help"@.len() != "-h"@.len());
    assert("--help"@.len() != "-v"@.len());
    assert("--help"@.len() != "--version"@.len());
    assert("--help"@.len() != "-i"@.len());
    assert("--help"@.len() != "--interval"@.len());
    assert("--help"@.len() != "-f"@.len());
    assert("--help"@[2] != "--file"@[2]);
    assert("--help"@.len() != "-a"@.len());
    assert("--help"@.len() != "--address"@.len());
    assert("--help"@.len() != "-p"@.len());
    assert("--help"@[2] != "--port"@[2]);
    assert("--help"@.len() != "-s"@.len());
    assert("--help"@.len() != "--server"@.len());
    assert("--help"@.len() != "-dd"@.len());
    assert("--help"@.len() != "--download-duration"@.len());
    assert("--help"@.len() != "-dc"@.len());
    assert("--help"@.len() != "--download-connections"@.len());
    assert("--help"@.len() != "-ud"@.len());
    assert("--help"@.len() != "--upload-duration"@.len());
    assert("--help"@.len() != "-uc"@.len());
    assert("--help"@.len() != "--upload-connections"@.len());
}

proof fn lemma_opt_v(b: ConfigView)
    ensures
        apply_options(b, seq!["-v"@]) == Err::<ConfigView, StopView>(StopView::Version),
{
    reveal_strlit("-h");
    reveal_strlit("--help");
    reveal_strlit("-v");
    reveal_strlit("--version");
    reveal_strlit("-i");
    reveal_strlit("--interval");
    reveal_strlit("-f");
    reveal_strlit("--file");
    reveal_strlit("-a");
    reveal_strlit("--address");
    reveal_strlit("-p");
    reveal_strlit("--port");
    reveal_strlit("-s");
    reveal_strlit("--server");
    reveal_strlit("-dd");
    reveal_strlit("--download-duration");
    reveal_strlit("-dc");
    reveal_strlit("--download-connections");
    reveal_strlit("-ud");
    reveal_strlit("--upload-duration");
    reveal_strlit("-uc");
    reveal_strlit("--upload-connections");
    assert("-v"@[1] != "-h"@[1]);
    assert("-v"@.len() != "--help"@.len());
    assert("-v"@.len() != "--version"@.len());
    assert("-v"@[1] != "-i"@[1]);
    assert("-v"@.len() != "--interval"@.len());
    assert("-v"@[1] != "-f"@[1]);
    assert("-v"@.len() != "--file"@.len());
    assert("-v"@[1] != "-a"@[1]);
    assert("-v"@.len() != "--address"@.len());
    assert("-v"@[1] != "-p"@[1]);
    assert("-v"@.len() != "--port"@.len());
    assert("-v"@[1] != "-s"@[1]);
    assert("-v"@.len() != "--server"@.len());
    assert("-v"@.len() != "-dd"@.len());
    assert("-v"@.len() != "--download-duration"@.len());
    assert("-v"@.len() != "-dc"@.len());
    assert("-v"@.len() != "--download-connections"@.len());
    assert("-v"@.len() != "-ud"@.len());
    assert("-v"@.len() != "--upload-duration"@.len());
    assert("-v"@.len() != "-uc"@.len());
    assert("-v"@.len() != "--upload-connections"@.len());
}

proof fn lemma_opt_version(b: ConfigView)
    ensures
        apply_options(b, seq!["--version"@]) == Err::<ConfigView, StopView>(StopView::Version),
{
    reveal_strlit("-h");
    reveal_strlit("--help");
    reveal_strlit("-v");
    reveal_strlit("--version");
    reveal_strlit("-i");
    reveal_strlit("--interval");
    reveal_strlit("-f");
    reveal_strlit("--file");
    reveal_strlit("-a");
    reveal_strlit("--address");
    reveal_strlit("-p");
    reveal_strlit("--port");
    reveal_strlit("-s");
    reveal_strlit("--server");
    reveal_strlit("-dd");
    reveal_strlit("--download-duration");
    reveal_strlit("-dc");
    reveal_strlit("--download-connections");
    reveal_strlit("-ud");
    reveal_strlit("--upload-duration");
    reveal_strlit("-uc");
    reveal_strlit("--upload-connections");
    assert("--version"@.len() != "-h"@.len());
    assert("--version"@.len() != "--help"@.len());
    assert("--version"@.len() != "-v"@.len());
    assert("--version"@.len() != "-i"@.len());
    assert("--version"@.len() != "--interval"@.len());
    assert("--version"@.len() != "-f"@.len());
    assert("--version"@.len() != "--file"@.len());
    assert("--version"@.len() != "-a"@.len());
    assert("--version"@[2] != "--address"@[2]);
    assert("--version"@.len() != "-p"@.len());
    assert("--version"@.len() != "--port"@.len());
    assert("--version"@.len() != "-s"@.len());
    assert("--version"@.len() != "--server"@.len());
    assert("--version"@.len() != "-dd"@.len());
    assert("--version"@.len() != "--download-duration"@.len());
    assert("--version"@.len() != "-dc"@.len());
    assert("--version"@.len() != "--download-connections"@.len());
    assert("--version"@.len() != "-ud"@.len());
    assert("--version"@.len() != "--upload-duration"@.len());
    assert("--version"@.len() != "-uc"@.len());
    assert("--version"@.len() != "--upload-connections"@.len());
}

/// Each option sets its own setting, to the value given after it, and
/// leaves every other setting as it was; `-h` asks for help and `-v` for
/// the version.  Short and long forms act alike.
pub proof fn lemma_each_option(b: ConfigView, n: nat, v: Seq<char>)
    ensures
        n <= u64::MAX ==> apply_options(b, seq!["-i"@, number_text(n)]) == Ok::<ConfigView, StopView>(ConfigView { test_interval: n as u64, ..b }),
        n <= u64::MAX ==> apply_options(b, seq!["--interval"@, number_text(n)]) == Ok::<ConfigView, StopView>(ConfigView { test_interval: n as u64, ..b }),
        n <= u16::MAX ==> apply_options(b, seq!["-p"@, number_text(n)]) == Ok::<ConfigView, StopView>(ConfigView { listen_port: n as u16, ..b }),
        n <= u16::MAX ==> apply_options(b, seq!["--port"@, number_text(n)]) == Ok::<ConfigView, StopView>(ConfigView { listen_port: n as u16, ..b }),
        n <= u32::MAX ==> apply_options(b, seq!["-dd"@, number_text(n)]) == Ok::<ConfigView, StopView>(ConfigView { download_duration: n as u32, ..b }),
        n <= u32::MAX ==> apply_options(b, seq!["--download-duration"@, number_text(n)]) == Ok::<ConfigView, StopView>(ConfigView { download_duration: n as u32, ..b }),
        n <= u32::MAX ==> apply_options(b, seq!["-dc"@, number_text(n)]) == Ok::<ConfigView, StopView>(ConfigView { download_connections: n as u32, ..b }),
        n <= u32::MAX ==> apply_options(b, seq!["--download-connections"@, number_text(n)]) == Ok::<ConfigView, StopView>(ConfigView { download_connections: n as u32, ..b }),
        n <= u32::MAX ==> apply_options(b, seq!["-ud"@, number_text(n)]) == Ok::<ConfigView, StopView>(ConfigView { upload_duration: n as u32, ..b }),
        n <= u32::MAX ==> apply_options(b, seq!["--upload-duration"@, number_text(n)]) == Ok::<ConfigView, StopView>(ConfigView { upload_duration: n as u32, ..b }),
        n <= u32::MAX ==> apply_options(b, seq!["-uc"@, number_text(n)]) == Ok::<ConfigView, StopView>(ConfigView { upload_connections: n as u32, ..b }),
        n <= u32::MAX ==> apply_options(b, seq!["--upload-connections"@, number_text(n)]) == Ok::<ConfigView, StopView>(ConfigView { upload_connections: n as u32, ..b }),
        apply_options(b, seq!["-f"@, v]) == Ok::<ConfigView, StopView>(ConfigView { store_filename: v, ..b }),
        apply_options(b, seq!["--file"@, v]) == Ok::<ConfigView, StopView>(ConfigView { store_filename: v, ..b }),
        apply_options(b, seq!["-a"@, v]) == Ok::<ConfigView, StopView>(ConfigView { listen_address: v, ..b }),
        apply_options(b, seq!["--address"@, v]) == Ok::<ConfigView, StopView>(ConfigView { listen_address: v, ..b }),
        apply_options(b, seq!["-s"@, v]) == Ok::<ConfigView, StopView>(ConfigView { server_host: Some(server_arg(v)), ..b }),
        apply_options(b, seq!["--server"@, v]) == Ok::<ConfigView, StopView>(ConfigView { server_host: Some(server_arg(v)), ..b }),
        apply_options(b, seq!["-h"@]) == Err::<ConfigView, StopView>(StopView::Help),
        apply_options(b, seq!["--help"@]) == Err::<ConfigView, StopView>(StopView::Help),
        apply_options(b, seq!["-v"@]) == Err::<ConfigView, StopView>(StopView::Version),
        apply_options(b, seq!["--version"@]) == Err::<ConfigView, StopView>(StopView::Version),
{
    if n <= u64::MAX { lemma_opt_i(b, n); }
    if n <= u64::MAX { lemma_opt_interval(b, n); }
    if n <= u16::MAX { lemma_opt_p(b, n); }
    if n <= u16::MAX { lemma_opt_port(b, n); }
    if n <= u32::MAX { lemma_opt_dd(b, n); }
    if n <= u32::MAX { lemma_opt_download_duration(b, n); }
    if n <= u32::MAX { lemma_opt_dc(b, n); }
    if n <= u32::MAX { lemma_opt_download_connections(b, n); }
    if n <= u32::MAX { lemma_opt_ud(b, n); }
    if n <= u32::MAX { lemma_opt_upload_duration(b, n); }
    if n <= u32::MAX { lemma_opt_uc(b, n); }
    if n <= u32::MAX { lemma_opt_upload_connections(b, n); }
    lemma_opt_f(b, v);
    lemma_opt_file(b, v);
    lemma_opt_a(b, v);
    lemma_opt_address(b, v);
    lemma_opt_s(b, v);
    lemma_opt_server(b, v);
    lemma_opt_h(b);
    lemma_opt_help(b);
    lemma_opt_v(b);
    lemma_opt_version(b);
}

proof fn lemma_lookup_one(vars: Seq<(Seq<char>, Seq<char>)>)
    requires
        vars.len() == 1,
    ensures
        forall|y: Seq<char>| #[trigger] lookup(vars, y) == if vars[0].0 == y { Some(vars[0].1) } else { None::<Seq<char>> },
{
    assert forall|y: Seq<char>| #[trigger] lookup(vars, y) == if vars[0].0 == y { Some(vars[0].1) } else { None::<Seq<char>> } by {
        assert(vars.drop_first().len() == 0);
        reveal_with_fuel(lookup, 2);
    }
}

proof fn lemma_lookup_two(vars: Seq<(Seq<char>, Seq<char>)>)
    requires
        vars.len() == 2,
    ensures
        forall|y: Seq<char>| #[trigger] lookup(vars, y)
            == if vars[0].0 == y { Some(vars[0].1) } else if vars[1].0 == y { Some(vars[1].1) } else { None::<Seq<char>> },
{
    let rest = vars.drop_first();
    lemma_lookup_one(rest);
    assert(rest[0] == vars[1]);
    assert forall|y: Seq<char>| #[trigger] lookup(vars, y)
        == if vars[0].0 == y { Some(vars[0].1) } else if vars[1].0 == y { Some(vars[1].1) } else { None::<Seq<char>> } by {
        assert(lookup(rest, y) == if rest[0].0 == y { Some(rest[0].1) } else { None::<Seq<char>> });
    }
}

/// The names of the environment variables differ in length, first letter
/// or fourteenth letter.
proof fn lemma_env_names()
    ensures
        "test_interval"@.len() == 13 && "test_interval"@[0] == 't',
        "SPEEDKETCHUP_INTERVAL"@.len() == 21 && "SPEEDKETCHUP_INTERVAL"@[0] == 'S',
        "store_filename"@.len() == 14 && "store_filename"@[0] == 's',
        "SPEEDKETCHUP_FILE"@.len() == 17 && "SPEEDKETCHUP_FILE"@[0] == 'S',
        "listen_address"@.len() == 14 && "listen_address"@[0] == 'l',
        "SPEEDKETCHUP_ADDRESS"@.len() == 20 && "SPEEDKETCHUP_ADDRESS"@[0] == 'S',
        "listen_port"@.len() == 11 && "listen_port"@[0] == 'l',
        "SPEEDKETCHUP_PORT"@.len() == 17 && "SPEEDKETCHUP_PORT"@[0] == 'S',
        "server_host"@.len() == 11 && "server_host"@[0] == 's',
        "SPEEDKETCHUP_SERVER"@.len() == 19 && "SPEEDKETCHUP_SERVER"@[0] == 'S',
        "download_duration"@.len() == 17 && "download_duration"@[0] == 'd',
        "SPEEDKETCHUP_DOWNLOAD_DURATION"@.len() == 30 && "SPEEDKETCHUP_DOWNLOAD_DURATION"@[0] == 'S',
        "upload_duration"@.len() == 15 && "upload_duration"@[0] == 'u',
        "SPEEDKETCHUP_UPLOAD_DURATION"@.len() == 28 && "SPEEDKETCHUP_UPLOAD_DURATION"@[0] == 'S',
        "download_connections"@.len() == 20 && "download_connections"@[0] == 'd',
        "SPEEDKETCHUP_DOWNLOAD_CONNECTIONS"@.len() == 33 && "SPEEDKETCHUP_DOWNLOAD_CONNECTIONS"@[0] == 'S',
        "upload_connections"@.len() == 18 && "upload_connections"@[0] == 'u',
        "SPEEDKETCHUP_UPLOAD_CONNECTIONS"@.len() == 31 && "SPEEDKETCHUP_UPLOAD_CONNECTIONS"@[0] == 'S',
        "SPEEDKETCHUP_FILE"@[13] == 'F' && "SPEEDKETCHUP_PORT"@[13] == 'P',
{
    reveal_strlit("test_interval");
    reveal_strlit("SPEEDKETCHUP_INTERVAL");
    reveal_strlit("store_filename");
    reveal_strlit("SPEEDKETCHUP_FILE");
    reveal_strlit("listen_address");
    reveal_strlit("SPEEDKETCHUP_ADDRESS");
    reveal_strlit("listen_port");
    reveal_strlit("SPEEDKETCHUP_PORT");
    reveal_strlit("server_host");
    reveal_strlit("SPEEDKETCHUP_SERVER");
    reveal_strlit("download_duration");
    reveal_strlit("SPEEDKETCHUP_DOWNLOAD_DURATION");
    reveal_strlit("upload_duration");
    reveal_strlit("SPEEDKETCHUP_UPLOAD_DURATION");
    reveal_strlit("download_connections");
    reveal_strlit("SPEEDKETCHUP_DOWNLOAD_CONNECTIONS");
    reveal_strlit("upload_connections");
    reveal_strlit("SPEEDKETCHUP_UPLOAD_CONNECTIONS");
}

proof fn lemma_env_interval(b: ConfigView, n: nat, w: Seq<char>)
    requires
        n <= u64::MAX,
    ensures
        apply_env(b, seq![("SPEEDKETCHUP_INTERVAL"@, number_text(n))]) == Ok::<ConfigView, StopView>(ConfigView { test_interval: n as u64, ..b }),
        apply_env(b, seq![("test_interval"@, number_text(n))]) == Ok::<ConfigView, StopView>(ConfigView { test_interval: n as u64, ..b }),
        apply_env(b, seq![("test_interval"@, w), ("SPEEDKETCHUP_INTERVAL"@, number_text(n))]) == Ok::<ConfigView, StopView>(ConfigView { test_interval: n as u64, ..b }),
{
    lemma_env_names();
    lemma_lookup_one(seq![("SPEEDKETCHUP_INTERVAL"@, number_text(n))]);
    lemma_lookup_one(seq![("test_interval"@, number_text(n))]);
    lemma_lookup_two(seq![("test_interval"@, w), ("SPEEDKETCHUP_INTERVAL"@, number_text(n))]);
    lemma_number_text(n, u64::MAX as int);
}

proof fn lemma_env_file(b: ConfigView, v: Seq<char>, w: Seq<char>)
    ensures
        apply_env(b, seq![("SPEEDKETCHUP_FILE"@, v)]) == Ok::<ConfigView, StopView>(ConfigView { store_filename: v, ..b }),
        apply_env(b, seq![("store_filename"@, v)]) == Ok::<ConfigView, StopView>(ConfigView { store_filename: v, ..b }),
        apply_env(b, seq![("store_filename"@, w), ("SPEEDKETCHUP_FILE"@, v)]) == Ok::<ConfigView, StopView>(ConfigView { store_filename: v, ..b }),
{
    lemma_env_names();
    lemma_lookup_one(seq![("SPEEDKETCHUP_FILE"@, v)]);
    lemma_lookup_one(seq![("store_filename"@, v)]);
    lemma_lookup_two(seq![("store_filename"@, w), ("SPEEDKETCHUP_FILE"@, v)]);
}

proof fn lemma_env_address(b: ConfigView, v: Seq<char>, w: Seq<char>)
    ensures
        apply_env(b, seq![("SPEEDKETCHUP_ADDRESS"@, v)]) == Ok::<ConfigView, StopView>(ConfigView { listen_address: v, ..b }),
        apply_env(b, seq![("listen_address"@, v)]) == Ok::<ConfigView, StopView>(ConfigView { listen_address: v, ..b }),
        apply_env(b, seq![("listen_address"@, w), ("SPEEDKETCHUP_ADDRESS"@, v)]) == Ok::<ConfigView, StopView>(ConfigView { listen_address: v, ..b }),
{
    lemma_env_names();
    lemma_lookup_one(seq![("SPEEDKETCHUP_ADDRESS"@, v)]);
    lemma_lookup_one(seq![("listen_address"@, v)]);
    lemma_lookup_two(seq![("listen_address"@, w), ("SPEEDKETCHUP_ADDRESS"@, v)]);
}

proof fn lemma_env_port(b: ConfigView, n: nat, w: Seq<char>)
    requires
        n <= u16::MAX,
    ensures
        apply_env(b, seq![("SPEEDKETCHUP_PORT"@, number_text(n))]) == Ok::<ConfigView, StopView>(ConfigView { listen_port: n as u16, ..b }),
        apply_env(b, seq![("listen_port"@, number_text(n))]) == Ok::<ConfigView, StopView>(ConfigView { listen_port: n as u16, ..b }),
        apply_env(b, seq![("listen_port"@, w), ("SPEEDKETCHUP_PORT"@, number_text(n))]) == Ok::<ConfigView, StopView>(ConfigView { listen_port: n as u16, ..b }),
{
    lemma_env_names();
    lemma_lookup_one(seq![("SPEEDKETCHUP_PORT"@, number_text(n))]);
    lemma_lookup_one(seq![("listen_port"@, number_text(n))]);
    lemma_lookup_two(seq![("listen_port"@, w), ("SPEEDKETCHUP_PORT"@, number_text(n))]);
    lemma_number_text(n, u16::MAX as int);
}

proof fn lemma_env_server(b: ConfigView, v: Seq<char>, w: Seq<char>)
    ensures
        apply_env(b, seq![("SPEEDKETCHUP_SERVER"@, v)]) == Ok::<ConfigView, StopView>(ConfigView { server_host: if v.len() == 0 { None } else { Some(server_arg(v)) }, ..b }),
        apply_env(b, seq![("server_host"@, v)]) == Ok::<ConfigView, StopView>(ConfigView { server_host: if v.len() == 0 { None } else { Some(server_arg(v)) }, ..b }),
        apply_env(b, seq![("server_host"@, w), ("SPEEDKETCHUP_SERVER"@, v)]) == Ok::<ConfigView, StopView>(ConfigView { server_host: if v.len() == 0 { None } else { Some(server_arg(v)) }, ..b }),
{
    lemma_env_names();
    lemma_lookup_one(seq![("SPEEDKETCHUP_SERVER"@, v)]);
    lemma_lookup_one(seq![("server_host"@, v)]);
    lemma_lookup_two(seq![("server_host"@, w), ("SPEEDKETCHUP_SERVER"@, v)]);
}

proof fn lemma_env_download_duration(b: ConfigView, n: nat, w: Seq<char>)
    requires
        n <= u32::MAX,
    ensures
        apply_env(b, seq![("SPEEDKETCHUP_DOWNLOAD_DURATION"@, number_text(n))]) == Ok::<ConfigView, StopView>(ConfigView { download_duration: n as u32, ..b }),
        apply_env(b, seq![("download_duration"@, number_text(n))]) == Ok::<ConfigView, StopView>(ConfigView { download_duration: n as u32, ..b }),
        apply_env(b, seq![("download_duration"@, w), ("SPEEDKETCHUP_DOWNLOAD_DURATION"@, number_text(n))]) == Ok::<ConfigView, StopView>(ConfigView { download_duration: n as u32, ..b }),
{
    lemma_env_names();
    lemma_lookup_one(seq![("SPEEDKETCHUP_DOWNLOAD_DURATION"@, number_text(n))]);
    lemma_lookup_one(seq![("download_duration"@, number_text(n))]);
    lemma_lookup_two(seq![("download_duration"@, w), ("SPEEDKETCHUP_DOWNLOAD_DURATION"@, number_text(n))]);
    lemma_number_text(n, u32::MAX as int);
}

proof fn lemma_env_upload_duration(b: ConfigView, n: nat, w: Seq<char>)
    requires
        n <= u32::MAX,
    ensures
        apply_env(b, seq![("SPEEDKETCHUP_UPLOAD_DURATION"@, number_text(n))]) == Ok::<ConfigView, StopView>(ConfigView { upload_duration: n as u32, ..b }),
        apply_env(b, seq![("upload_duration"@, number_text(n))]) == Ok::<ConfigView, StopView>(ConfigView { upload_duration: n as u32, ..b }),
        apply_env(b, seq![("upload_duration"@, w), ("SPEEDKETCHUP_UPLOAD_DURATION"@, number_text(n))]) == Ok::<ConfigView, StopView>(ConfigView { upload_duration: n as u32, ..b }),
{
    lemma_env_names();
    lemma_lookup_one(seq![("SPEEDKETCHUP_UPLOAD_DURATION"@, number_text(n))]);
    lemma_lookup_one(seq![("upload_duration"@, number_text(n))]);
    lemma_lookup_two(seq![("upload_duration"@, w), ("SPEEDKETCHUP_UPLOAD_DURATION"@, number_text(n))]);
    lemma_number_text(n, u32::MAX as int);
}

proof fn lemma_env_download_connections(b: ConfigView, n: nat, w: Seq<char>)
    requires
        n <= u32::MAX,
    ensures
        apply_env(b, seq![("SPEEDKETCHUP_DOWNLOAD_CONNECTIONS"@, number_text(n))]) == Ok::<ConfigView, StopView>(ConfigView { download_connections: n as u32, ..b }),
        apply_env(b, seq![("download_connections"@, number_text(n))]) == Ok::<ConfigView, StopView>(ConfigView { download_connections: n as u32, ..b }),
        apply_env(b, seq![("download_connections"@, w), ("SPEEDKETCHUP_DOWNLOAD_CONNECTIONS"@, number_text(n))]) == Ok::<ConfigView, StopView>(ConfigView { download_connections: n as u32, ..b }),
{
    lemma_env_names();
    lemma_lookup_one(seq![("SPEEDKETCHUP_DOWNLOAD_CONNECTIONS"@, number_text(n))]);
    lemma_lookup_one(seq![("download_connections"@, number_text(n))]);
    lemma_lookup_two(seq![("download_connections"@, w), ("SPEEDKETCHUP_DOWNLOAD_CONNECTIONS"@, number_text(n))]);
    lemma_number_text(n, u32::MAX as int);
}

proof fn lemma_env_upload_connections(b: ConfigView, n: nat, w: Seq<char>)
    requires
        n <= u32::MAX,
    ensures
        apply_env(b, seq![("SPEEDKETCHUP_UPLOAD_CONNECTIONS"@, number_text(n))]) == Ok::<ConfigView, StopView>(ConfigView { upload_connections: n as u32, ..b }),
        apply_env(b, seq![("upload_connections"@, number_text(n))]) == Ok::<ConfigView, StopView>(ConfigView { upload_connections: n as u32, ..b }),
        apply_env(b, seq![("upload_connections"@, w), ("SPEEDKETCHUP_UPLOAD_CONNECTIONS"@, number_text(n))]) == Ok::<ConfigView, StopView>(ConfigView { upload_connections: n as u32, ..b }),
{
    lemma_env_names();
    lemma_lookup_one(seq![("SPEEDKETCHUP_UPLOAD_CONNECTIONS"@, number_text(n))]);
    lemma_lookup_one(seq![("upload_connections"@, number_text(n))]);
    lemma_lookup_two(seq![("upload_connections"@, w), ("SPEEDKETCHUP_UPLOAD_CONNECTIONS"@, number_text(n))]);
    lemma_number_text(n, u32::MAX as int);
}

/// Each environment variable, under its plain name or its `SPEEDKETCHUP_`
/// name, sets its own setting to its value, read as the matching command
/// line option reads it, and leaves every other setting as it was; where
/// both names are set, the `SPEEDKETCHUP_` one counts.  An empty server
/// selects the server automatically.
pub proof fn lemma_each_variable(b: ConfigView, n: nat, v: Seq<char>, w: Seq<char>)
    ensures
        n <= u64::MAX ==> apply_env(b, seq![("SPEEDKETCHUP_INTERVAL"@, number_text(n))]) == Ok::<ConfigView, StopView>(ConfigView { test_interval: n as u64, ..b }),
        n <= u64::MAX ==> apply_env(b, seq![("test_interval"@, number_text(n))]) == Ok::<ConfigView, StopView>(ConfigView { test_interval: n as u64, ..b }),
        n <= u64::MAX ==> apply_env(b, seq![("test_interval"@, w), ("SPEEDKETCHUP_INTERVAL"@, number_text(n))]) == Ok::<ConfigView, StopView>(ConfigView { test_interval: n as u64, ..b }),
        apply_env(b, seq![("SPEEDKETCHUP_FILE"@, v)]) == Ok::<ConfigView, StopView>(ConfigView { store_filename: v, ..b }),
        apply_env(b, seq![("store_filename"@, v)]) == Ok::<ConfigView, StopView>(ConfigView { store_filename: v, ..b }),
        apply_env(b, seq![("store_filename"@, w), ("SPEEDKETCHUP_FILE"@, v)]) == Ok::<ConfigView, StopView>(ConfigView { store_filename: v, ..b }),
        apply_env(b, seq![("SPEEDKETCHUP_ADDRESS"@, v)]) == Ok::<ConfigView, StopView>(ConfigView { listen_address: v, ..b }),
        apply_env(b, seq![("listen_address"@, v)]) == Ok::<ConfigView, StopView>(ConfigView { listen_address: v, ..b }),
        apply_env(b, seq![("listen_address"@, w), ("SPEEDKETCHUP_ADDRESS"@, v)]) == Ok::<ConfigView, StopView>(ConfigView { listen_address: v, ..b }),
        n <= u16::MAX ==> apply_env(b, seq![("SPEEDKETCHUP_PORT"@, number_text(n))]) == Ok::<ConfigView, StopView>(ConfigView { listen_port: n as u16, ..b }),
        n <= u16::MAX ==> apply_env(b, seq![("listen_port"@, number_text(n))]) == Ok::<ConfigView, StopView>(ConfigView { listen_port: n as u16, ..b }),
        n <= u16::MAX ==> apply_env(b, seq![("listen_port"@, w), ("SPEEDKETCHUP_PORT"@, number_text(n))]) == Ok::<ConfigView, StopView>(ConfigView { listen_port: n as u16, ..b }),
        apply_env(b, seq![("SPEEDKETCHUP_SERVER"@, v)]) == Ok::<ConfigView, StopView>(ConfigView { server_host: if v.len() == 0 { None } else { Some(server_arg(v)) }, ..b }),
        apply_env(b, seq![("server_host"@, v)]) == Ok::<ConfigView, StopView>(ConfigView { server_host: if v.len() == 0 { None } else { Some(server_arg(v)) }, ..b }),
        apply_env(b, seq![("server_host"@, w), ("SPEEDKETCHUP_SERVER"@, v)]) == Ok::<ConfigView, StopView>(ConfigView { server_host: if v.len() == 0 { None } else { Some(server_arg(v)) }, ..b }),
        n <= u32::MAX ==> apply_env(b, seq![("SPEEDKETCHUP_DOWNLOAD_DURATION"@, number_text(n))]) == Ok::<ConfigView, StopView>(ConfigView { download_duration: n as u32, ..b }),
        n <= u32::MAX ==> apply_env(b, seq![("download_duration"@, number_text(n))]) == Ok::<ConfigView, StopView>(ConfigView { download_duration: n as u32, ..b }),
        n <= u32::MAX ==> apply_env(b, seq![("download_duration"@, w), ("SPEEDKETCHUP_DOWNLOAD_DURATION"@, number_text(n))]) == Ok::<ConfigView, StopView>(ConfigView { download_duration: n as u32, ..b }),
        n <= u32::MAX ==> apply_env(b, seq![("SPEEDKETCHUP_UPLOAD_DURATION"@, number_text(n))]) == Ok::<ConfigView, StopView>(ConfigView { upload_duration: n as u32, ..b }),
        n <= u32::MAX ==> apply_env(b, seq![("upload_duration"@, number_text(n))]) == Ok::<ConfigView, StopView>(ConfigView { upload_duration: n as u32, ..b }),
        n <= u32::MAX ==> apply_env(b, seq![("upload_duration"@, w), ("SPEEDKETCHUP_UPLOAD_DURATION"@, number_text(n))]) == Ok::<ConfigView, StopView>(ConfigView { upload_duration: n as u32, ..b }),
        n <= u32::MAX ==> apply_env(b, seq![("SPEEDKETCHUP_DOWNLOAD_CONNECTIONS"@, number_text(n))]) == Ok::<ConfigView, StopView>(ConfigView { download_connections: n as u32, ..b }),
        n <= u32::MAX ==> apply_env(b, seq![("download_connections"@, number_text(n))]) == Ok::<ConfigView, StopView>(ConfigView { download_connections: n as u32, ..b }),
        n <= u32::MAX ==> apply_env(b, seq![("download_connections"@, w), ("SPEEDKETCHUP_DOWNLOAD_CONNECTIONS"@, number_text(n))]) == Ok::<ConfigView, StopView>(ConfigView { download_connections: n as u32, ..b }),
        n <= u32::MAX ==> apply_env(b, seq![("SPEEDKETCHUP_UPLOAD_CONNECTIONS"@, number_text(n))]) == Ok::<ConfigView, StopView>(ConfigView { upload_connections: n as u32, ..b }),
        n <= u32::MAX ==> apply_env(b, seq![("upload_connections"@, number_text(n))]) == Ok::<ConfigView, StopView>(ConfigView { upload_connections: n as u32, ..b }),
        n <= u32::MAX ==> apply_env(b, seq![("upload_connections"@, w), ("SPEEDKETCHUP_UPLOAD_CONNECTIONS"@, number_text(n))]) == Ok::<ConfigView, StopView>(ConfigView { upload_connections: n as u32, ..b }),
{
    if n <= u64::MAX { lemma_env_interval(b, n, w); }
    lemma_env_file(b, v, w);
    lemma_env_address(b, v, w);
    if n <= u16::MAX { lemma_env_port(b, n, w); }
    lemma_env_server(b, v, w);
    if n <= u32::MAX { lemma_env_download_duration(b, n, w); }
    if n <= u32::MAX { lemma_env_upload_duration(b, n, w); }
    if n <= u32::MAX { lemma_env_download_connections(b, n, w); }
    if n <= u32::MAX { lemma_env_upload_connections(b, n, w); }
}

} // verus!
