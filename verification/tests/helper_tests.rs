use autorct::helper::CLI;

fn args(v: &[&str]) -> Vec<String> {
    v.iter().map(|s| s.to_string()).collect()
}

#[test]
fn new_has_no_debug() {
    let c = CLI::new("/cwd".to_string());
    assert!(!c.dbg);
    assert_eq!(c.root, "/cwd");
}

#[test]
fn debug_and_root() {
    let mut c = CLI::new("/cwd".to_string());
    assert!(!c.Parse_Args(&args(&["-d", "--root=/a=b"])));
    assert!(c.dbg);
    assert_eq!(c.root, "/a=b");
}

#[test]
fn every_debug_spelling() {
    for a in ["-d", "--debug", " --DEBUG", "-D"] {
        let mut c = CLI::new("/".to_string());
        assert!(!c.Parse_Args(&args(&[a])));
        assert!(c.dbg);
    }
    let mut c = CLI::new("/".to_string());
    assert!(c.Parse_Args(&args(&["--DEBUG"])));
    assert!(!c.dbg);
}

#[test]
fn help_flags_and_unknown_arguments_ask_for_help() {
    for a in ["-h", "--help", " --HELP", "-H", "bogus", "--root"] {
        let mut c = CLI::new("/".to_string());
        assert!(c.Parse_Args(&args(&[a])));
    }
}

#[test]
fn reading_stops_at_help() {
    let mut c = CLI::new("/cwd".to_string());
    assert!(c.Parse_Args(&args(&["--root=/x", "bogus", "-d"])));
    assert_eq!(c.root, "/x");
    assert!(!c.dbg);
}

#[test]
fn last_root_wins() {
    let mut c = CLI::new("/cwd".to_string());
    assert!(!c.Parse_Args(&args(&["--root=/x", "--root=", "--root=/y"])));
    assert_eq!(c.root, "/y");
    let mut c = CLI::new("/cwd".to_string());
    assert!(!c.Parse_Args(&args(&[])));
    assert_eq!(c.root, "/cwd");
}
