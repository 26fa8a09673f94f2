use speedketchup::numbers::IntErrorKind;
use speedketchup::options::{apply_environment, parse_options, EnvVar, OptionStop, SpeedTestConfig};
use speedketchup::provider::{
    download_sizes, read_provider_config, server_candidates, upload_ratio_is_zero, upload_sizes, ConfigError,
};
use speedketchup::ranking::{latency_order, mean_latency};
use speedketchup::winsock::{FD_SET, TIMEVAL};

const CONFIG: &str = r#"<?xml version="1.0" encoding="UTF-8"?>
<settings>
<client ip="1.2.3.4" lat="56.95" lon="24.1" isp="Provider" />
<server-config threadcount="4" ignoreids="1,,22, " notonmap="" />
<download testlength="10" />
<upload testlength="10" ratio="5" />
</settings>"#;

#[test]
fn provider_config_is_read() {
    let info = read_provider_config(CONFIG.replace(", \"", "\"").as_bytes()).unwrap();
    assert_eq!(info.ignore_servers, vec![1, 22]);
    assert_eq!(info.client_lat.as_deref(), Some("56.95"));
    assert_eq!(info.client_lon.as_deref(), Some("24.1"));
    assert_eq!(info.client_ip.as_deref(), Some("1.2.3.4"));
    assert_eq!(info.client_isp.as_deref(), Some("Provider"));
    assert_eq!(info.upload_ratio.as_deref(), Some("5"));
}

#[test]
fn provider_config_errors() {
    assert!(matches!(read_provider_config(CONFIG.as_bytes()), Err(ConfigError::BadNumber(IntErrorKind::InvalidDigit))));
    assert!(matches!(read_provider_config(b"\xff"), Err(ConfigError::NotUtf8(_))));
    assert!(matches!(read_provider_config(b"<a>"), Err(ConfigError::BadXml(_))));
    assert!(matches!(read_provider_config(b"<a/>"), Err(ConfigError::NoServerConfig)));
    assert!(matches!(read_provider_config(b"<a><server-config/></a>"), Err(ConfigError::NoUploadConfig)));
    assert!(matches!(read_provider_config(b"<a><server-config/><upload/></a>"), Err(ConfigError::NoClientInfo)));
    assert!(matches!(read_provider_config(b"<a><server-config/><upload/><client/></a>"), Err(ConfigError::NoIgnoreIds)));
}

#[test]
fn upload_sizes_from_ratio() {
    assert_eq!(upload_sizes(Some("1")).unwrap(), vec![32768, 65536, 131072, 262144, 524288, 1048576, 7340032]);
    assert_eq!(upload_sizes(Some("5")).unwrap(), vec![524288, 1048576, 7340032]);
    assert_eq!(upload_sizes(Some("8")).unwrap(), Vec::<u32>::new());
    assert!(matches!(upload_sizes(Some("9")), Err(ConfigError::BadUploadSize)));
    assert!(matches!(upload_sizes(None), Err(ConfigError::NoRatio)));
    assert!(matches!(upload_sizes(Some("x")), Err(ConfigError::BadNumber(IntErrorKind::InvalidDigit))));
    assert!(upload_ratio_is_zero(Some("0")));
    assert!(!upload_ratio_is_zero(Some("2")));
    assert_eq!(download_sizes(), vec![350, 500, 750, 1000, 1500, 2000, 2500, 3000, 3500, 4000]);
}

#[test]
fn server_list_is_read() {
    let xml = r#"<settings><servers>
<server url="http://a/upload.php" lat="1.5" lon="2.5" name="Riga" country="Latvia" sponsor="Sp" id="10" host="a.example:8080" />
<server lat="1" lon="2" name="N" country="C" sponsor="S" id="22" host="b:8080" />
<server lat="1" lon="2" name="N" country="C" sponsor="S" id="x" host="c:8080" />
<server lat="1" lon="2" name="N" country="C" id="30" host="d:8080" />
<other lat="1" lon="2" name="N" country="C" sponsor="S" id="31" host="e:8080" />
</servers></settings>"#;
    let list = server_candidates(xml.as_bytes(), &[22]).unwrap();
    assert_eq!(list.len(), 1);
    assert_eq!(list[0].descr, "Sp/Riga/Latvia");
    assert_eq!(list[0].host, "a.example:8080");
    assert_eq!(list[0].id, 10);
    assert_eq!(list[0].lat, "1.5");
    assert_eq!(list[0].lon, "2.5");
    assert_eq!(server_candidates(xml.as_bytes(), &[]).unwrap().len(), 2);
    assert!(matches!(server_candidates(b"<x", &[]), Err(ConfigError::BadXml(_))));
}

fn strings(v: &[&str]) -> Vec<String> {
    v.iter().map(|s| s.to_string()).collect()
}

#[test]
fn options_change_settings() {
    let cfg = parse_options(SpeedTestConfig::default_config(), &strings(&["-i", "5", "--file", "r.csv", "-s", "srv", "-p", "81", "-dd", "0", "-uc", "2"])).unwrap();
    assert_eq!(cfg.test_interval, 5);
    assert_eq!(cfg.store_filename, "r.csv");
    assert_eq!(cfg.server_host.as_deref(), Some("srv:8080"));
    assert_eq!(cfg.listen_port, 81);
    assert_eq!(cfg.listen_address, "127.0.0.1");
    assert_eq!(cfg.download_duration, 0);
    assert_eq!(cfg.upload_connections, 2);
    assert_eq!(cfg.download_connections, 8);
    let cfg = parse_options(SpeedTestConfig::default_config(), &strings(&["-s", "[::1]:9000", "-a", "0.0.0.0"])).unwrap();
    assert_eq!(cfg.server_host.as_deref(), Some("[::1]:9000"));
    assert_eq!(cfg.listen_address, "0.0.0.0");
}

#[test]
fn options_stop() {
    let d = || SpeedTestConfig::default_config();
    assert_eq!(parse_options(d(), &strings(&["-h"])).unwrap_err(), OptionStop::Help);
    assert_eq!(parse_options(d(), &strings(&["--version"])).unwrap_err(), OptionStop::Version);
    assert_eq!(parse_options(d(), &strings(&["-i"])).unwrap_err(), OptionStop::NoInterval);
    assert_eq!(parse_options(d(), &strings(&["-i", "x"])).unwrap_err(), OptionStop::BadInterval);
    assert_eq!(parse_options(d(), &strings(&["-p", "65536"])).unwrap_err(), OptionStop::BadPort);
    assert_eq!(parse_options(d(), &strings(&["-f"])).unwrap_err(), OptionStop::NoFilename);
    assert_eq!(parse_options(d(), &strings(&["-a"])).unwrap_err(), OptionStop::NoAddress);
    assert_eq!(parse_options(d(), &strings(&["-p"])).unwrap_err(), OptionStop::NoPort);
    assert_eq!(parse_options(d(), &strings(&["-s"])).unwrap_err(), OptionStop::NoServer);
    assert_eq!(parse_options(d(), &strings(&["-ud"])).unwrap_err(), OptionStop::NoDuration);
    assert_eq!(parse_options(d(), &strings(&["-dd", "-1"])).unwrap_err(), OptionStop::BadDuration);
    assert_eq!(parse_options(d(), &strings(&["-dc"])).unwrap_err(), OptionStop::NoNumber);
    assert_eq!(parse_options(d(), &strings(&["-dc", "many"])).unwrap_err(), OptionStop::BadNumber);
    assert_eq!(parse_options(d(), &strings(&["-x"])).unwrap_err(), OptionStop::UnknownArg("-x".to_string()));
}

fn env(pairs: &[(&str, &str)]) -> Vec<EnvVar> {
    pairs.iter().map(|(n, v)| EnvVar { name: n.to_string(), value: v.to_string() }).collect()
}

#[test]
fn environment_sets_and_command_line_overrides() {
    let vars = env(&[("test_interval", "30"), ("SPEEDKETCHUP_FILE", "/data/r.csv"), ("store_filename", "x.csv"), ("SPEEDKETCHUP_SERVER", "")]);
    let cfg = apply_environment(SpeedTestConfig::default_config(), &vars).unwrap();
    assert_eq!(cfg.test_interval, 30);
    assert_eq!(cfg.store_filename, "/data/r.csv");
    assert_eq!(cfg.server_host, None);
    let cfg = parse_options(cfg, &strings(&["-i", "2"])).unwrap();
    assert_eq!(cfg.test_interval, 2);
    assert_eq!(cfg.store_filename, "/data/r.csv");
    let cfg = apply_environment(SpeedTestConfig::default_config(), &env(&[("server_host", "s")])).unwrap();
    assert_eq!(cfg.server_host.as_deref(), Some("s:8080"));
    assert_eq!(apply_environment(SpeedTestConfig::default_config(), &env(&[("listen_port", "x")])).unwrap_err(), OptionStop::BadPort);
    assert_eq!(apply_environment(SpeedTestConfig::default_config(), &env(&[("SPEEDKETCHUP_UPLOAD_CONNECTIONS", "")])).unwrap_err(), OptionStop::BadNumber);
}

#[test]
fn servers_ranked_by_latency() {
    assert_eq!(latency_order(&[Some(30), None, Some(10), Some(30), None]), vec![1, 4, 2, 0, 3]);
    assert_eq!(latency_order(&[]), Vec::<usize>::new());
    assert_eq!(mean_latency(&[10, 20, 31]), Some(20));
    assert_eq!(mean_latency(&[]), None);
    assert_eq!(mean_latency(&[u64::MAX, u64::MAX]), Some(u64::MAX));
}

#[test]
fn socket_wait_structures() {
    let fds = FD_SET::single(42);
    assert_eq!(fds.fd_count, 1);
    assert_eq!(fds.fd_array[0], 42);
    assert!(fds.fd_array[1..].iter().all(|x| *x == 0));
    let t = TIMEVAL::from_timeout(3, 250000);
    assert_eq!((t.tv_sec, t.tv_usec), (3, 250000));
    assert_eq!(TIMEVAL::from_timeout(0x8000_0000, 0).tv_sec, i32::MIN);
}
