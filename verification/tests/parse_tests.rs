use autorct::parse::{find_string, param_is_empty, parse_event, Cmd, Config, Properties};

#[test]
fn default_properties() {
    let p = Properties::default();
    assert!(p.build.is_none());
    assert!(p.run.is_none());
    assert!(p.clean.is_none());
    assert!(p.path.is_none());
    assert!(p.cond.is_none());
    assert_eq!(p.monitor_dir, ".");
    assert_eq!(p.events, u8::MAX);
}

#[test]
fn new_command_is_empty() {
    let c = Cmd::new();
    assert_eq!(c.path, "");
    assert_eq!(c.cmd, "");
    assert!(c.cond_cmd.is_none());
}

#[test]
fn new_config_is_empty() {
    let c = Config::new();
    assert!(c.exec_props.is_empty());
    assert!(c.ignore_files.is_empty());
}

#[test]
fn insert_prop_replaces_by_key() {
    let mut c = Config::new();
    let mut p = Properties::default();
    p.build = Some("echo \"Building\"".to_string());
    c.insert_prop(".rs".to_string(), "~/src".to_string(), p);
    let mut q = Properties::default();
    q.run = Some("run".to_string());
    c.insert_prop(".rs".to_string(), "~/other".to_string(), q);
    assert_eq!(c.exec_props.len(), 2);
    let mut r = Properties::default();
    r.events = 3;
    c.insert_prop(".rs".to_string(), "~/src".to_string(), r);
    assert_eq!(c.exec_props.len(), 2);
    assert_eq!(c.exec_props[0].0, (".rs".to_string(), "~/src".to_string()));
    assert_eq!(c.exec_props[0].1.events, 3);
    assert!(c.exec_props[0].1.build.is_none());
    assert_eq!(c.exec_props[1].1.run.as_deref(), Some("run"));
}

#[test]
fn insert_ignore_keeps_each_once() {
    let mut c = Config::new();
    c.insert_ignore("a.txt".to_string());
    c.insert_ignore("b.txt".to_string());
    c.insert_ignore("a.txt".to_string());
    assert_eq!(c.ignore_files, vec!["a.txt".to_string(), "b.txt".to_string()]);
    assert_eq!(find_string(&c.ignore_files, &"b.txt".to_string()), Some(1));
    assert_eq!(find_string(&c.ignore_files, &"c.txt".to_string()), None);
}

#[test]
fn empty_parameters() {
    assert!(param_is_empty(""));
    assert!(param_is_empty("\"\""));
    assert!(param_is_empty("''"));
    assert!(!param_is_empty("\"'"));
    assert!(!param_is_empty("\""));
    assert!(!param_is_empty("src"));
}

#[test]
fn event_letters_to_bits() {
    assert_eq!(parse_event(""), 0);
    assert_eq!(parse_event("r"), 1);
    assert_eq!(parse_event("rw"), 3);
    assert_eq!(parse_event("WR"), 3);
    assert_eq!(parse_event("tn"), 96);
    assert_eq!(parse_event("RWOCDNT"), 127);
    assert_eq!(parse_event("rrrr"), 1);
    assert_eq!(parse_event("xyz"), 0);
    assert_eq!(parse_event("c d"), 24);
}
