use rosbridge_server_rs::settings::{merge, overlay, Explicit, FileSettings, Settings, 
    active_stem, check_limits, is_archive, json_strings_text, ros_arguments_with, Log, Rotation, Timezone,
};

#[test]
fn log_defaults() {
    let l = Log::default();
    assert_eq!(l.level, "info");
    assert!(l.directory.is_none());
    assert_eq!(l.rotation, "20min");
    assert_eq!(l.max_files, 7);
    assert!(l.console);
    assert_eq!(l.timezone, Timezone::Local);
    assert!(!l.ansi);
    assert_eq!(Timezone::default(), Timezone::Local);
    assert_eq!(l.check().ok(), Some(Rotation::TwentyMinutes));
}

#[test]
fn rotation_names() {
    assert_eq!(Rotation::parse("20min").ok(), Some(Rotation::TwentyMinutes));
    assert_eq!(Rotation::parse("daily").ok(), Some(Rotation::Daily));
    assert_eq!(Rotation::parse("hourly").ok(), Some(Rotation::Hourly));
    assert_eq!(Rotation::parse("never").ok(), Some(Rotation::Never));
    assert_eq!(
        Rotation::parse("weekly").err().map(|e| e.text()),
        Some("log.rotation must be 20min, daily, hourly or never".to_string())
    );
}

#[test]
fn log_settings_are_checked_in_startup_order() {
    let mut l = Log { console: false, rotation: "weekly".to_string(), max_files: 0, ..Log::default() };
    assert_eq!(l.check().err().map(|e| e.text()), Some("enable console logging or set log.directory".to_string()));
    l.directory = Some(std::path::PathBuf::from("/tmp/logs"));
    assert_eq!(l.check().err().map(|e| e.text()), Some("log.rotation must be 20min, daily, hourly or never".to_string()));
    l.rotation = "hourly".to_string();
    assert_eq!(l.check().err().map(|e| e.text()), Some("log.max_files must be positive".to_string()));
    l.max_files = 3;
    assert_eq!(l.check().ok(), Some(Rotation::Hourly));
}

#[test]
fn archive_names() {
    assert!(is_archive("202609060240.log"));
    assert!(is_archive("202609060300-1.log"));
    assert!(is_archive("202609060300-12.log"));
    assert!(!is_archive("unrelated.log"));
    assert!(!is_archive("202609060301.logging"));
    assert!(!is_archive("202609060300-.log"));
    assert!(!is_archive("202609060300-1a.log"));
    assert!(!is_archive("20260906030.log"));
    assert!(!is_archive("2026090603001.log"));
    assert!(!is_archive(".log"));
    assert!(!is_archive("202609060300"));
}

#[test]
fn active_file_names_count_up_from_the_stamp() {
    assert_eq!(active_stem("202609060300", 0), "202609060300");
    assert_eq!(active_stem("202609060300", 1), "202609060300-1");
    assert_eq!(active_stem("202609060300", 42), "202609060300-42");
    for index in [0u64, 1, 9, 10, 12345] {
        let name = format!("{}.log", active_stem("202609060240", index));
        assert!(is_archive(&name), "{name}");
    }
}

#[test]
fn server_limits() {
    assert!(check_limits(256, 64, 1024, "/").is_ok());
    assert_eq!(check_limits(0, 64, 1024, "/").err().map(|e| e.text()), Some("queue sizes must be positive".to_string()));
    assert_eq!(check_limits(1, 1, 0, "/").err().map(|e| e.text()), Some("max_message_size must be positive".to_string()));
    for path in ["relative", "", "/a?b", "/a#b"] {
        assert_eq!(
            check_limits(1, 1, 1, path).err().map(|e| e.text()),
            Some("url_path must be an absolute URL path".to_string()),
            "{path}"
        );
    }
}

#[test]
fn file_settings_come_before_explicit_ros_arguments() {
    assert_eq!(json_strings_text(&vec!["/a/*".to_string(), "q\"x".to_string()]), r#"["/a/*","q\"x"]"#);
    assert_eq!(json_strings_text(&vec![]), "[]");
    let explicit: Vec<String> = ["--ros-args", "-p", "params_timeout:=3.0"].iter().map(|s| s.to_string()).collect();
    assert_eq!(ros_arguments_with(&vec![], &None, &explicit), explicit);
    let lists = vec![("topics_glob".to_string(), vec!["/shared/*".to_string()])];
    let args = ros_arguments_with(&lists, &Some("2".to_string()), &explicit);
    let expected: Vec<String> = [
        "--ros-args",
        "-p",
        r#"topics_glob:=["/shared/*"]"#,
        "-p",
        "params_timeout:=2",
        "-p",
        "params_timeout:=3.0",
    ]
    .iter()
    .map(|s| s.to_string())
    .collect();
    assert_eq!(args, expected);
    assert_eq!(args.last().unwrap(), "params_timeout:=3.0");
}

#[test]
fn twenty_minute_periods_start_at_00_20_and_40() {
    let r = Rotation::TwentyMinutes;
    assert_eq!(r.period_minute(0), Some(0));
    assert_eq!(r.period_minute(19), Some(0));
    assert_eq!(r.period_minute(20), Some(20));
    assert_eq!(r.period_minute(39), Some(20));
    assert_eq!(r.period_minute(40), Some(40));
    assert_eq!(r.period_minute(59), Some(40));
    assert_eq!(Rotation::Hourly.period_minute(30), None);
}

fn flag_settings() -> Settings {
    Settings {
        port: 9090,
        node_name: "rosbridge".to_string(),
        namespace: String::new(),
        use_sim_time: false,
        no_rosapi: false,
        max_message_size: 16777216,
        url_path: "/".to_string(),
        incoming_queue_size: 256,
        write_queue_size: 64,
    }
}

fn file_settings() -> FileSettings {
    FileSettings {
        port: Some(9191),
        node_name: Some("from_file".to_string()),
        namespace: None,
        use_sim_time: Some(true),
        no_rosapi: None,
        max_message_size: Some(1024),
        url_path: Some("/ws".to_string()),
        incoming_queue_size: None,
        write_queue_size: Some(8),
    }
}

#[test]
fn explicit_flags_beat_the_file_which_beats_defaults() {
    let none = Explicit {
        bind: false,
        node_name: false,
        namespace: false,
        use_sim_time: false,
        no_rosapi: false,
        max_message_size: false,
        url_path: false,
        incoming_queue_size: false,
        write_queue_size: false,
    };
    let r = merge(flag_settings(), file_settings(), &none);
    assert_eq!(r.port, 9191);
    assert_eq!(r.node_name, "from_file");
    assert_eq!(r.namespace, "");
    assert!(r.use_sim_time);
    assert!(!r.no_rosapi);
    assert_eq!(r.max_message_size, 1024);
    assert_eq!(r.url_path, "/ws");
    assert_eq!(r.incoming_queue_size, 256);
    assert_eq!(r.write_queue_size, 8);
    let some = Explicit { bind: true, node_name: true, url_path: true, ..none };
    let r = merge(flag_settings(), file_settings(), &some);
    assert_eq!(r.port, 9090);
    assert_eq!(r.node_name, "rosbridge");
    assert_eq!(r.url_path, "/");
    assert_eq!(r.max_message_size, 1024);
    assert_eq!(overlay(false, Some(2.5), 30.0), 2.5);
    assert_eq!(overlay(true, Some(2.5), 30.0), 30.0);
    assert_eq!(overlay(false, None, 30.0), 30.0);
}
