use autorct::daemon::{EventPlan, EventRoute, InotifyMonitor, MonitorEvent, PathKind};
use autorct::parse::{Config, Properties};
use inotify::{EventMask, WatchMask};

fn monitor() -> InotifyMonitor {
    let mut conf = Config::new();
    conf.insert_prop(".rs".to_string(), "~/src".to_string(), Properties::default());
    conf.insert_ignore("/tmp/ign".to_string());
    conf.insert_ignore("/tmp/f.txt".to_string());
    conf.insert_ignore("/nope".to_string());
    InotifyMonitor::new(conf, &vec![PathKind::Dir, PathKind::File, PathKind::Missing])
}

#[test]
fn masks_are_inotify_bits() {
    assert_eq!(MonitorEvent::Create.mask(), WatchMask::CREATE.bits());
    assert_eq!(MonitorEvent::Delete.mask(), WatchMask::DELETE.bits());
    assert_eq!(MonitorEvent::Modify.mask(), WatchMask::MODIFY.bits());
    assert_eq!(MonitorEvent::Move.mask(), (WatchMask::MOVED_FROM | WatchMask::MOVED_TO).bits());
    assert_eq!(MonitorEvent::Open.mask(), WatchMask::OPEN.bits());
    assert_eq!(MonitorEvent::CloseWrite.mask(), WatchMask::CLOSE_WRITE.bits());
    assert_eq!(MonitorEvent::Access.mask(), WatchMask::ACCESS.bits());
    assert_eq!(MonitorEvent::Attribute.mask(), WatchMask::ATTRIB.bits());
    assert_eq!(MonitorEvent::All.mask(), WatchMask::ALL_EVENTS.bits());
    assert_eq!(MonitorEvent::Move.mask(), 0xc0);
    assert_eq!(MonitorEvent::All.mask(), 0xfff);
}

#[test]
fn ignored_paths_from_the_configuration() {
    let m = monitor();
    assert!(m.is_ignored_dir("/tmp/ign"));
    assert!(m.is_ignored_dir("/tmp/ign/"));
    assert!(m.is_ignored_dir("/tmp/ign/sub/x.rs"));
    assert!(!m.is_ignored_dir("/tmp/ignore"));
    assert!(!m.is_ignored_dir("/tmp"));
    assert!(m.is_ignored_file("/tmp/f.txt"));
    assert!(m.is_ignored_file("/tmp//f.txt/"));
    assert!(!m.is_ignored_file("/tmp/f.txt/x"));
    assert!(!m.is_ignored_file("/nope"));
    assert!(!m.is_ignored_dir("/nope/x"));
    assert!(!m.is_ignored_dir("/tmp/f.txt"));
}

#[test]
fn ignoring_later() {
    let mut m = monitor();
    m.ignore_file("a/b.txt");
    m.ignore_file("a/b.txt");
    m.ignore_dir("./build");
    assert!(m.is_ignored_file("a/./b.txt"));
    assert!(!m.is_ignored_file("./a/b.txt"));
    assert!(m.is_ignored_dir("./build/out"));
    assert!(!m.is_ignored_dir("build/out"));
}

#[test]
fn watches_are_recorded() {
    let mut m = monitor();
    assert_eq!(m.watched_dir(1), None);
    assert!(m.watch_dir("/w", 1));
    assert_eq!(m.watched_dir(1), Some("/w".to_string()));
    assert!(m.watch_dir("/v", 1));
    assert_eq!(m.watched_dir(1), Some("/v".to_string()));
    assert!(!m.watch_dir("/tmp/ign/a", 2));
    assert_eq!(m.watched_dir(2), None);
}

#[test]
fn plans_for_events() {
    let m = monitor();
    let dir_created = EventMask::CREATE.bits() | EventMask::ISDIR.bits();
    assert_eq!(
        m.handle_event("/w/new", dir_created),
        EventPlan { created: true, watch: Some(0x3c2) }
    );
    assert_eq!(
        m.handle_event("/w/new", dir_created).watch,
        Some(
            (WatchMask::CREATE
                | WatchMask::DELETE
                | WatchMask::MODIFY
                | WatchMask::MOVED_FROM
                | WatchMask::MOVED_TO)
                .bits()
        )
    );
    assert_eq!(
        m.handle_event("/w/file", EventMask::CREATE.bits()),
        EventPlan { created: true, watch: None }
    );
    assert_eq!(
        m.handle_event("/w/x", EventMask::MODIFY.bits()),
        EventPlan { created: false, watch: None }
    );
    assert_eq!(
        m.handle_event("/tmp/ign/d", dir_created),
        EventPlan { created: true, watch: None }
    );
}

#[test]
fn routing_events() {
    let mut m = monitor();
    assert!(m.watch_dir("/w", 1));
    assert!(m.watch_dir("/tmp", 2));
    assert_eq!(m.route_event(9, None, 0), EventRoute::Unknown);
    assert_eq!(
        m.route_event(1, Some("new".to_string()), 0x4000_0100),
        EventRoute::Handled(
            "/w".to_string(),
            "/w/new".to_string(),
            EventPlan { created: true, watch: Some(0x3c2) }
        )
    );
    assert_eq!(
        m.route_event(1, None, 0x2),
        EventRoute::Handled("/w".to_string(), "/w".to_string(), EventPlan { created: false, watch: None })
    );
    assert_eq!(
        m.route_event(2, Some("f.txt".to_string()), 0x100),
        EventRoute::Ignored("/tmp".to_string(), "/tmp/f.txt".to_string())
    );
    assert_eq!(
        m.route_event(2, Some("ign".to_string()), 0x4000_0100),
        EventRoute::Ignored("/tmp".to_string(), "/tmp/ign".to_string())
    );
    m.ignore_file("/w/skip");
    assert_eq!(
        m.route_event(1, Some("skip".to_string()), 0x100),
        EventRoute::Ignored("/w".to_string(), "/w/skip".to_string())
    );
}

#[test]
fn below_an_ignored_directory_nothing_is_watched() {
    let mut m = monitor();
    m.ignore_dir("/data");
    for p in ["/data", "/data/a", "/data/a/b/c", "//data/./a/"] {
        assert!(m.is_ignored_dir(p));
        assert_eq!(m.handle_event(p, 0x4000_0100).watch, None);
        assert!(!m.watch_dir(p, 7));
    }
    assert_eq!(m.watched_dir(7), None);
}
