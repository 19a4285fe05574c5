//! The decisions of the watch daemon: which events a directory is watched
//! for, which paths are ignored, and what is done with each event. The
//! inotify instance itself, and the reading of events, belong to the
//! program that runs the daemon; it hands each event here.
use vstd::prelude::*;
use crate::fpath::{extends, push_path, push_path_exec, raw_components, raw_path_components, tail_is_prefix, views};
use crate::parse::{Config, Properties};

verus! {

// ---------------------------------------------------------------------
// The bits of inotify's masks
// ---------------------------------------------------------------------

/// `inotify::WatchMask::ACCESS` as bits: `inotify_sys::IN_ACCESS`, 0x1.
#[verifier::external_body]
fn watch_access() -> (r: u32)
    ensures
        r == 0x1u32,
{
    inotify::WatchMask::ACCESS.bits()
}

/// `inotify::WatchMask::MODIFY` as bits: `inotify_sys::IN_MODIFY`, 0x2.
#[verifier::external_body]
fn watch_modify() -> (r: u32)
    ensures
        r == 0x2u32,
{
    inotify::WatchMask::MODIFY.bits()
}

/// `inotify::WatchMask::ATTRIB` as bits: `inotify_sys::IN_ATTRIB`, 0x4.
#[verifier::external_body]
fn watch_attrib() -> (r: u32)
    ensures
        r == 0x4u32,
{
    inotify::WatchMask::ATTRIB.bits()
}

/// `inotify::WatchMask::CLOSE_WRITE` as bits: `inotify_sys::IN_CLOSE_WRITE`, 0x8.
#[verifier::external_body]
fn watch_close_write() -> (r: u32)
    ensures
        r == 0x8u32,
{
    inotify::WatchMask::CLOSE_WRITE.bits()
}

/// `inotify::WatchMask::OPEN` as bits: `inotify_sys::IN_OPEN`, 0x20.
#[verifier::external_body]
fn watch_open() -> (r: u32)
    ensures
        r == 0x20u32,
{
    inotify::WatchMask::OPEN.bits()
}

/// `inotify::WatchMask::MOVED_FROM` as bits: `inotify_sys::IN_MOVED_FROM`, 0x40.
#[verifier::external_body]
fn watch_moved_from() -> (r: u32)
    ensures
        r == 0x40u32,
{
    inotify::WatchMask::MOVED_FROM.bits()
}

/// `inotify::WatchMask::MOVED_TO` as bits: `inotify_sys::IN_MOVED_TO`, 0x80.
#[verifier::external_body]
fn watch_moved_to() -> (r: u32)
    ensures
        r == 0x80u32,
{
    inotify::WatchMask::MOVED_TO.bits()
}

/// `inotify::WatchMask::CREATE` as bits: `inotify_sys::IN_CREATE`, 0x100.
#[verifier::external_body]
fn watch_create() -> (r: u32)
    ensures
        r == 0x100u32,
{
    inotify::WatchMask::CREATE.bits()
}

/// `inotify::WatchMask::DELETE` as bits: `inotify_sys::IN_DELETE`, 0x200.
#[verifier::external_body]
fn watch_delete() -> (r: u32)
    ensures
        r == 0x200u32,
{
    inotify::WatchMask::DELETE.bits()
}

/// `inotify::WatchMask::ALL_EVENTS` as bits: `inotify_sys::IN_ALL_EVENTS`,
/// the twelve event bits from 0x1 to 0x800 together, 0xfff.
#[verifier::external_body]
fn watch_all_events() -> (r: u32)
    ensures
        r == 0xfffu32,
{
    inotify::WatchMask::ALL_EVENTS.bits()
}

/// `inotify::EventMask::CREATE` as bits: `inotify_sys::IN_CREATE`, 0x100.
#[verifier::external_body]
fn event_create() -> (r: u32)
    ensures
        r == 0x100u32,
{
    inotify::EventMask::CREATE.bits()
}

/// `inotify::EventMask::ISDIR` as bits: `inotify_sys::IN_ISDIR`, 0x40000000.
#[verifier::external_body]
fn event_isdir() -> (r: u32)
    ensures
        r == 0x4000_0000u32,
{
    inotify::EventMask::ISDIR.bits()
}

// ---------------------------------------------------------------------
// What a directory is watched for
// ---------------------------------------------------------------------

/// A kind of event that a directory can be watched for.
#[derive(Debug, Clone, Copy, PartialEq, Eq, Structural)]
pub enum MonitorEvent {
    Create,
    Delete,
    Modify,
    Move,
    Open,
    CloseWrite,
    Access,
    Attribute,
    All,
}

/// The watch mask of each kind of event, as inotify's bits: a move is
/// both halves of it, `All` every event bit.
pub open spec fn event_bits(e: MonitorEvent) -> u32 {
    match e {
        MonitorEvent::Create => 0x100u32,
        MonitorEvent::Delete => 0x200u32,
        MonitorEvent::Modify => 0x2u32,
        MonitorEvent::Move => 0xc0u32,
        MonitorEvent::Open => 0x20u32,
        MonitorEvent::CloseWrite => 0x8u32,
        MonitorEvent::Access => 0x1u32,
        MonitorEvent::Attribute => 0x4u32,
        MonitorEvent::All => 0xfffu32,
    }
}

impl MonitorEvent {
    /// The watch mask for this kind of event, as its bits.
    pub fn mask(self) -> (r: u32)
        ensures
            r == event_bits(self),
    {
        match self {
            MonitorEvent::Create => watch_create(),
            MonitorEvent::Delete => watch_delete(),
            MonitorEvent::Modify => watch_modify(),
            MonitorEvent::Move => {
                let a = watch_moved_from();
                let b = watch_moved_to();
                assert(0x40u32 | 0x80u32 == 0xc0u32) by (bit_vector);
                a | b
            },
            MonitorEvent::Open => watch_open(),
            MonitorEvent::CloseWrite => watch_close_write(),
            MonitorEvent::Access => watch_access(),
            MonitorEvent::Attribute => watch_attrib(),
            MonitorEvent::All => watch_all_events(),
        }
    }
}

// ---------------------------------------------------------------------
// The daemon's state
// ---------------------------------------------------------------------

/// What an ignored path was found to be when the daemon started.
#[derive(Debug, Clone, Copy, PartialEq, Eq, Structural)]
pub enum PathKind {
    /// Nothing is there: the path is not ignored at all.
    Missing,
    /// A directory: it and everything below it are ignored.
    Dir,
    /// Anything else: that path alone is ignored.
    File,
}

/// The map from watch descriptor to watched directory that `ws` holds,
/// a later pair for the same descriptor winning.
pub open spec fn watch_map(ws: Seq<(i32, String)>) -> Map<i32, Seq<char>>
    decreases ws.len(),
{
    if ws.len() == 0 {
        Map::empty()
    } else {
        watch_map(ws.drop_last()).insert(ws.last().0, ws.last().1@)
    }
}

/// No watch descriptor occurs twice in `ws`.
pub open spec fn ids_distinct(ws: Seq<(i32, String)>) -> bool {
    forall|i: int, j: int| 0 <= i < j < ws.len() ==> (#[trigger] ws[i]).0 != (#[trigger] ws[j]).0
}

/// The component sequences of the paths in `v`.
pub open spec fn component_set(v: Seq<String>) -> Set<Seq<Seq<char>>> {
    Set::new(|c: Seq<Seq<char>>| exists|i: int| 0 <= i < v.len() && raw_components(v[i]@) == c)
}

/// The daemon's state: the watched directories by descriptor, the ignored
/// files and directories, and the build rules it was started with.
pub struct InotifyMonitor {
    watches: Vec<(i32, String)>,
    ignored_files: Vec<String>,
    ignored_dirs: Vec<String>,
    conf: Vec<((String, String), Properties)>,
}

impl InotifyMonitor {
    /// The state keeps its invariant: each descriptor is watched once.
    pub closed spec fn wf(self) -> bool {
        ids_distinct(self.watches@)
    }

    /// The watched directory of each descriptor.
    pub closed spec fn watched(self) -> Map<i32, Seq<char>> {
        watch_map(self.watches@)
    }

    /// The ignored files, each as its path's components; a path is an
    /// ignored file when its components are one of these.
    pub closed spec fn ignored_file_set(self) -> Set<Seq<Seq<char>>> {
        component_set(self.ignored_files@)
    }

    /// The ignored directories, each as its path's components; a path is
    /// ignored when one of these begins its components.
    pub closed spec fn ignored_dir_set(self) -> Set<Seq<Seq<char>>> {
        component_set(self.ignored_dirs@)
    }

    /// The build rules the daemon was started with.
    pub closed spec fn rules(self) -> Seq<((String, String), Properties)> {
        self.conf@
    }
}

/// `views(a)` and `views(b)` are the same sequence.
fn same_components(a: &Vec<String>, b: &Vec<String>) -> (r: bool)
    ensures
        r == (views(a@) == views(b@)),
{
    if a.len() != b.len() {
        proof {
            assert(views(a@).len() != views(b@).len());
        }
        return false;
    }
    let r = tail_is_prefix(a, b, 0);
    proof {
        assert(views(a@).skip(0) =~= views(a@));
        assert(views(b@).skip(0) =~= views(b@));
        if r {
            assert(views(b@).take(views(a@).len() as int) =~= views(b@));
        }
    }
    r
}

/// Some path of `v` has the components `cs`.
fn any_equal(v: &Vec<String>, cs: &Vec<String>) -> (r: bool)
    ensures
        r == component_set(v@).contains(views(cs@)),
{
    let mut i: usize = 0;
    while i < v.len()
        invariant
            0 <= i <= v@.len(),
            forall|j: int| 0 <= j < i ==> raw_components((#[trigger] v@[j])@) != views(cs@),
        decreases v@.len() - i,
    {
        let vc = raw_path_components(v[i].as_str());
        if same_components(&vc, cs) {
            assert(raw_components(v@[i as int]@) == views(cs@));
            return true;
        }
        i = i + 1;
    }
    false
}

/// Some path of `v` has components that begin those of `cs`.
fn any_prefix(v: &Vec<String>, cs: &Vec<String>) -> (r: bool)
    ensures
        r == (exists|c: Seq<Seq<char>>| component_set(v@).contains(c) && extends(views(cs@), c)),
{
    let mut i: usize = 0;
    while i < v.len()
        invariant
            0 <= i <= v@.len(),
            forall|j: int| 0 <= j < i ==> !extends(views(cs@), raw_components((#[trigger] v@[j])@)),
        decreases v@.len() - i,
    {
        let vc = raw_path_components(v[i].as_str());
        if vc.len() <= cs.len() && tail_is_prefix(&vc, cs, 0) {
            proof {
                assert(views(vc@).skip(0) =~= views(vc@));
                assert(views(cs@).skip(0) =~= views(cs@));
                assert(component_set(v@).contains(raw_components(v@[i as int]@)));
            }
            return true;
        }
        proof {
            assert(views(vc@).skip(0) =~= views(vc@));
            assert(views(cs@).skip(0) =~= views(cs@));
        }
        i = i + 1;
    }
    proof {
        assert forall|c: Seq<Seq<char>>| component_set(v@).contains(c) implies !extends(views(cs@), c) by {
            let j = choose|j: int| 0 <= j < v@.len() && raw_components(v@[j]@) == c;
            assert(!extends(views(cs@), raw_components(v@[j]@)));
        }
    }
    false
}

impl InotifyMonitor {
    /// `p` lies in an ignored directory: the components of one of them
    /// begin those of `p` (`Path::starts_with`, which `p` being that
    /// directory itself meets too).
    pub open spec fn in_ignored_dir(self, p: Seq<char>) -> bool {
        exists|c: Seq<Seq<char>>| self.ignored_dir_set().contains(c) && extends(raw_components(p), c)
    }

    /// `p` is an ignored file: its components are those of one of them.
    pub open spec fn is_ignored_file_path(self, p: Seq<char>) -> bool {
        self.ignored_file_set().contains(raw_components(p))
    }

    /// Whether `path` lies in an ignored directory.
    pub fn is_ignored_dir(&self, path: &str) -> (r: bool)
        ensures
            r == self.in_ignored_dir(path@),
    {
        let cs = raw_path_components(path);
        any_prefix(&self.ignored_dirs, &cs)
    }

    /// Whether `path` is an ignored file.
    pub fn is_ignored_file(&self, path: &str) -> (r: bool)
        ensures
            r == self.is_ignored_file_path(path@),
    {
        let cs = raw_path_components(path);
        any_equal(&self.ignored_files, &cs)
    }
}

/// Adding a path to `v` adds its components to `component_set(v)`.
proof fn lemma_component_set_push(v: Seq<String>, x: String)
    ensures
        component_set(v.push(x)) == component_set(v).insert(raw_components(x@)),
{
    let w = v.push(x);
    assert forall|c: Seq<Seq<char>>| component_set(w).contains(c) implies component_set(v).insert(
        raw_components(x@),
    ).contains(c) by {
        let j = choose|j: int| 0 <= j < w.len() && raw_components(w[j]@) == c;
        if j < v.len() {
            assert(v[j] == w[j]);
        }
    }
    assert forall|c: Seq<Seq<char>>| component_set(v).insert(raw_components(x@)).contains(c) implies component_set(
        w,
    ).contains(c) by {
        if c == raw_components(x@) {
            assert(w[v.len() as int] == x);
        } else {
            let j = choose|j: int| 0 <= j < v.len() && raw_components(v[j]@) == c;
            assert(w[j] == v[j]);
        }
    }
    assert(component_set(w) =~= component_set(v).insert(raw_components(x@)));
}

impl InotifyMonitor {
    /// Ignores the file at `path` from now on.
    pub fn ignore_file(&mut self, path: &str)
        requires
            old(self).wf(),
        ensures
            final(self).wf(),
            final(self).ignored_file_set() == old(self).ignored_file_set().insert(raw_components(path@)),
            final(self).ignored_dir_set() == old(self).ignored_dir_set(),
            final(self).watched() == old(self).watched(),
            final(self).rules() == old(self).rules(),
    {
        let cs = raw_path_components(path);
        if any_equal(&self.ignored_files, &cs) {
            proof {
                assert(old(self).ignored_file_set().insert(raw_components(path@)) =~= old(
                    self,
                ).ignored_file_set());
            }
            return;
        }
        let ghost v = self.ignored_files@;
        let s = path.to_string();
        proof {
            lemma_component_set_push(v, s);
        }
        self.ignored_files.push(s);
    }

    /// Ignores the directory at `path`, and everything below it, from now on.
    pub fn ignore_dir(&mut self, path: &str)
        requires
            old(self).wf(),
        ensures
            final(self).wf(),
            final(self).ignored_dir_set() == old(self).ignored_dir_set().insert(raw_components(path@)),
            final(self).ignored_file_set() == old(self).ignored_file_set(),
            final(self).watched() == old(self).watched(),
            final(self).rules() == old(self).rules(),
    {
        let cs = raw_path_components(path);
        if any_equal(&self.ignored_dirs, &cs) {
            proof {
                assert(old(self).ignored_dir_set().insert(raw_components(path@)) =~= old(
                    self,
                ).ignored_dir_set());
            }
            return;
        }
        let ghost v = self.ignored_dirs@;
        let s = path.to_string();
        proof {
            lemma_component_set_push(v, s);
        }
        self.ignored_dirs.push(s);
    }
}

/// The components of the first `n` of `paths` whose kind is `k`.
pub open spec fn kind_set(paths: Seq<String>, kinds: Seq<PathKind>, k: PathKind, n: int) -> Set<
    Seq<Seq<char>>,
> {
    Set::new(
        |c: Seq<Seq<char>>|
            exists|j: int| 0 <= j < n && kinds[j] == k && raw_components(paths[j]@) == c,
    )
}

/// One more path: its components join `kind_set` when its kind is `k`.
proof fn lemma_kind_set_step(paths: Seq<String>, kinds: Seq<PathKind>, k: PathKind, n: int)
    requires
        0 <= n,
    ensures
        kinds[n] == k ==> kind_set(paths, kinds, k, n + 1) == kind_set(paths, kinds, k, n).insert(
            raw_components(paths[n]@),
        ),
        kinds[n] != k ==> kind_set(paths, kinds, k, n + 1) == kind_set(paths, kinds, k, n),
{
    let a = kind_set(paths, kinds, k, n);
    let b = kind_set(paths, kinds, k, n + 1);
    if kinds[n] == k {
        assert forall|c: Seq<Seq<char>>| b.contains(c) implies a.insert(raw_components(paths[n]@)).contains(c) by {
            let j = choose|j: int| 0 <= j < n + 1 && kinds[j] == k && raw_components(paths[j]@) == c;
            if j < n {
                assert(a.contains(c));
            }
        }
        assert forall|c: Seq<Seq<char>>| a.insert(raw_components(paths[n]@)).contains(c) implies b.contains(c) by {
            if c != raw_components(paths[n]@) {
                let j = choose|j: int| 0 <= j < n && kinds[j] == k && raw_components(paths[j]@) == c;
                assert(0 <= j < n + 1);
            }
        }
        assert(b =~= a.insert(raw_components(paths[n]@)));
    } else {
        assert forall|c: Seq<Seq<char>>| b.contains(c) implies a.contains(c) by {
            let j = choose|j: int| 0 <= j < n + 1 && kinds[j] == k && raw_components(paths[j]@) == c;
            assert(j != n);
        }
        assert forall|c: Seq<Seq<char>>| a.contains(c) implies b.contains(c) by {
            let j = choose|j: int| 0 <= j < n && kinds[j] == k && raw_components(paths[j]@) == c;
            assert(0 <= j < n + 1);
        }
        assert(b =~= a);
    }
}

impl InotifyMonitor {
    /// A daemon with the rules of `conf` and nothing watched yet. Each of
    /// `conf`'s ignored files is looked at on disk by the caller, which
    /// hands its kind in `kinds`, in the same order: a directory is
    /// ignored as a directory, anything else that exists as a file, and
    /// what does not exist not at all.
    pub fn new(conf: Config, kinds: &Vec<PathKind>) -> (r: Self)
        requires
            kinds@.len() == conf.ignore_files@.len(),
        ensures
            r.wf(),
            r.watched() == Map::<i32, Seq<char>>::empty(),
            r.rules() == conf.exec_props@,
            r.ignored_dir_set() == kind_set(conf.ignore_files@, kinds@, PathKind::Dir, kinds@.len() as int),
            r.ignored_file_set() == kind_set(conf.ignore_files@, kinds@, PathKind::File, kinds@.len() as int),
    {
        let Config { exec_props, ignore_files } = conf;
        let mut ret = InotifyMonitor {
            watches: Vec::new(),
            ignored_files: Vec::new(),
            ignored_dirs: Vec::new(),
            conf: exec_props,
        };
        proof {
            assert(ret.watched() =~= Map::<i32, Seq<char>>::empty());
            assert(ret.ignored_dir_set() =~= kind_set(ignore_files@, kinds@, PathKind::Dir, 0));
            assert(ret.ignored_file_set() =~= kind_set(ignore_files@, kinds@, PathKind::File, 0));
        }
        let n = ignore_files.len();
        for i in 0..n
            invariant
                n == ignore_files@.len(),
                kinds@.len() == n,
                ret.wf(),
                ret.watched() == Map::<i32, Seq<char>>::empty(),
                ret.rules() == conf.exec_props@,
                ret.ignored_dir_set() == kind_set(ignore_files@, kinds@, PathKind::Dir, i as int),
                ret.ignored_file_set() == kind_set(ignore_files@, kinds@, PathKind::File, i as int),
        {
            proof {
                lemma_kind_set_step(ignore_files@, kinds@, PathKind::Dir, i as int);
                lemma_kind_set_step(ignore_files@, kinds@, PathKind::File, i as int);
            }
            match kinds[i] {
                PathKind::Dir => ret.ignore_dir(ignore_files[i].as_str()),
                PathKind::File => ret.ignore_file(ignore_files[i].as_str()),
                PathKind::Missing => {},
            }
        }
        ret
    }
}

/// With distinct descriptors, each pair of `ws` is in `watch_map(ws)`.
proof fn lemma_watch_map_index(ws: Seq<(i32, String)>, i: int)
    requires
        ids_distinct(ws),
        0 <= i < ws.len(),
    ensures
        watch_map(ws).contains_key(ws[i].0),
        watch_map(ws)[ws[i].0] == ws[i].1@,
    decreases ws.len(),
{
    if i < ws.len() - 1 {
        let d = ws.drop_last();
        assert(d[i] == ws[i]);
        assert forall|a: int, b: int| 0 <= a < b < d.len() implies (#[trigger] d[a]).0 != (#[trigger] d[b]).0 by {
            assert(d[a] == ws[a] && d[b] == ws[b]);
        }
        lemma_watch_map_index(d, i);
        assert(ws[i].0 != ws[ws.len() - 1].0);
    }
}

/// A descriptor that no pair of `ws` has is not in `watch_map(ws)`.
proof fn lemma_watch_map_absent(ws: Seq<(i32, String)>, k: i32)
    requires
        forall|i: int| 0 <= i < ws.len() ==> (#[trigger] ws[i]).0 != k,
    ensures
        !watch_map(ws).contains_key(k),
    decreases ws.len(),
{
    if ws.len() > 0 {
        let d = ws.drop_last();
        assert forall|i: int| 0 <= i < d.len() implies (#[trigger] d[i]).0 != k by {
            assert(d[i] == ws[i]);
        }
        lemma_watch_map_absent(d, k);
        assert(ws[ws.len() - 1].0 != k);
    }
}

/// Replacing the pair of a descriptor replaces its directory in the map.
proof fn lemma_watch_map_update(ws: Seq<(i32, String)>, i: int, p: (i32, String))
    requires
        ids_distinct(ws),
        0 <= i < ws.len(),
        ws[i].0 == p.0,
    ensures
        watch_map(ws.update(i, p)) == watch_map(ws).insert(p.0, p.1@),
    decreases ws.len(),
{
    let u = ws.update(i, p);
    let d = ws.drop_last();
    if i == ws.len() - 1 {
        assert(u.drop_last() =~= d);
        assert(watch_map(u) =~= watch_map(ws).insert(p.0, p.1@));
    } else {
        assert(u.drop_last() =~= d.update(i, p));
        assert forall|a: int, b: int| 0 <= a < b < d.len() implies (#[trigger] d[a]).0 != (#[trigger] d[b]).0 by {
            assert(d[a] == ws[a] && d[b] == ws[b]);
        }
        assert(d[i] == ws[i]);
        lemma_watch_map_update(d, i, p);
        assert(ws[i].0 != ws[ws.len() - 1].0);
        assert(u.last() == ws.last());
        assert(watch_map(u) =~= watch_map(ws).insert(p.0, p.1@));
    }
}

/// The position in `ws` of descriptor `wd`, if it is there.
fn watch_index(ws: &Vec<(i32, String)>, wd: i32) -> (r: Option<usize>)
    ensures
        match r {
            Some(i) => i < ws@.len() && ws@[i as int].0 == wd,
            None => forall|j: int| 0 <= j < ws@.len() ==> (#[trigger] ws@[j]).0 != wd,
        },
{
    let mut i: usize = 0;
    while i < ws.len()
        invariant
            0 <= i <= ws@.len(),
            forall|j: int| 0 <= j < i ==> (#[trigger] ws@[j]).0 != wd,
        decreases ws@.len() - i,
    {
        if ws[i].0 == wd {
            return Some(i);
        }
        i = i + 1;
    }
    None
}

impl InotifyMonitor {
    /// The directory watched under `wd`, if any.
    pub fn watched_dir(&self, wd: i32) -> (r: Option<String>)
        requires
            self.wf(),
        ensures
            r is Some <==> self.watched().contains_key(wd),
            r is Some ==> r->0@ == self.watched()[wd],
    {
        match watch_index(&self.watches, wd) {
            Some(i) => {
                proof {
                    lemma_watch_map_index(self.watches@, i as int);
                }
                Some(self.watches[i].1.clone())
            },
            None => {
                proof {
                    lemma_watch_map_absent(self.watches@, wd);
                }
                None
            },
        }
    }

    /// Records that `dir` is watched under `wd`, unless `dir` lies in an
    /// ignored directory; says whether it did. The caller adds the watch
    /// to inotify only where `is_ignored_dir` says no, and hands the
    /// descriptor it got here.
    pub fn watch_dir(&mut self, dir: &str, wd: i32) -> (r: bool)
        requires
            old(self).wf(),
        ensures
            final(self).wf(),
            r == !old(self).in_ignored_dir(dir@),
            r ==> final(self).watched() == old(self).watched().insert(wd, dir@),
            !r ==> final(self).watched() == old(self).watched(),
            final(self).ignored_dir_set() == old(self).ignored_dir_set(),
            final(self).ignored_file_set() == old(self).ignored_file_set(),
            final(self).rules() == old(self).rules(),
    {
        if self.is_ignored_dir(dir) {
            return false;
        }
        let ghost ws = self.watches@;
        let d = dir.to_string();
        match watch_index(&self.watches, wd) {
            Some(i) => {
                proof {
                    lemma_watch_map_update(ws, i as int, (wd, d));
                }
                self.watches.set(i, (wd, d));
                proof {
                    assert forall|a: int, b: int| 0 <= a < b < self.watches@.len() implies (
                    #[trigger] self.watches@[a]).0 != (#[trigger] self.watches@[b]).0 by {
                        assert(ws[a].0 != ws[b].0);
                    }
                }
            },
            None => {
                self.watches.push((wd, d));
                proof {
                    assert(self.watches@.drop_last() =~= ws);
                    assert forall|a: int, b: int| 0 <= a < b < self.watches@.len() implies (
                    #[trigger] self.watches@[a]).0 != (#[trigger] self.watches@[b]).0 by {
                        if b < ws.len() {
                            assert(ws[a].0 != ws[b].0);
                        } else {
                            assert(ws[a].0 != wd);
                        }
                    }
                }
            },
        }
        true
    }
}

// ---------------------------------------------------------------------
// Events
// ---------------------------------------------------------------------

/// `m` has every bit of `b` (`contains` of inotify's bit flags).
pub open spec fn has_bits(m: u32, b: u32) -> bool {
    m & b == b
}

/// The mask a directory created below a watched one is watched with:
/// creation, deletion, modification and both halves of a move.
pub open spec fn new_dir_mask() -> u32 {
    0x3c2u32
}

/// The path an event names: the watched directory, joined with the name
/// of the entry the event is about where it names one.
pub open spec fn event_target(base: Seq<char>, name: Option<Seq<char>>) -> Seq<char> {
    match name {
        Some(n) => push_path(base, n),
        None => base,
    }
}

/// What the daemon does with an event on a path that is not ignored.
#[derive(Debug, Clone, Copy, PartialEq, Eq)]
pub struct EventPlan {
    /// The event is a creation, which is reported.
    pub created: bool,
    /// The mask to watch the path with, where a directory was created
    /// outside every ignored one.
    pub watch: Option<u32>,
}

/// Where an event goes.
#[derive(Debug, Clone, PartialEq, Eq)]
pub enum EventRoute {
    /// Its descriptor is not watched: it is passed over.
    Unknown,
    /// The watched directory and the event's path, which is ignored.
    Ignored(String, String),
    /// The watched directory, the event's path, and what to do.
    Handled(String, String, EventPlan),
}

impl InotifyMonitor {
    /// The plan for an event with bits `mask` on `path`.
    pub open spec fn plan_of(self, path: Seq<char>, mask: u32) -> EventPlan {
        let created = has_bits(mask, 0x100u32);
        EventPlan {
            created,
            watch: if created && has_bits(mask, 0x4000_0000u32) && !self.in_ignored_dir(path) {
                Some(new_dir_mask())
            } else {
                None
            },
        }
    }

    /// What to do with an event with bits `mask` on `path`: report a
    /// creation, and watch a directory created outside every ignored one.
    pub fn handle_event(&self, path: &str, mask: u32) -> (r: EventPlan)
        ensures
            r == self.plan_of(path@, mask),
    {
        let create = event_create();
        let isdir = event_isdir();
        let created = mask & create == create;
        let watch = if created && mask & isdir == isdir && !self.is_ignored_dir(path) {
            let m = watch_create() | watch_delete() | watch_modify() | watch_moved_from() | watch_moved_to();
            assert(0x100u32 | 0x200u32 | 0x2u32 | 0x40u32 | 0x80u32 == 0x3c2u32) by (bit_vector);
            Some(m)
        } else {
            None
        };
        EventPlan { created, watch }
    }

    /// Where an event of descriptor `wd`, about the entry `name` (if it
    /// names one), with bits `mask`, goes: nowhere if `wd` is not watched;
    /// else to its path, which is passed over where it is an ignored file
    /// or lies in an ignored directory, and handled otherwise.
    pub fn route_event(&self, wd: i32, name: Option<String>, mask: u32) -> (r: EventRoute)
        requires
            self.wf(),
        ensures
            !self.watched().contains_key(wd) ==> r == EventRoute::Unknown,
            self.watched().contains_key(wd) ==> {
                let base = self.watched()[wd];
                let path = event_target(base, match name { Some(n) => Some(n@), None => None });
                match r {
                    EventRoute::Unknown => false,
                    EventRoute::Ignored(b, p) => b@ == base && p@ == path && (self.is_ignored_file_path(
                        path,
                    ) || self.in_ignored_dir(path)),
                    EventRoute::Handled(b, p, plan) => b@ == base && p@ == path
                        && !self.is_ignored_file_path(path) && !self.in_ignored_dir(path) && plan
                        == self.plan_of(path, mask),
                }
            },
    {
        let base = match self.watched_dir(wd) {
            Some(b) => b,
            None => return EventRoute::Unknown,
        };
        let path = match &name {
            Some(n) => push_path_exec(base.clone(), n),
            None => base.clone(),
        };
        if self.is_ignored_file(path.as_str()) || self.is_ignored_dir(path.as_str()) {
            return EventRoute::Ignored(base, path);
        }
        let plan = self.handle_event(path.as_str(), mask);
        EventRoute::Handled(base, path, plan)
    }
}

/// Ignoring a directory covers everything below it: once `d` is an
/// ignored directory, every path whose components begin with those of
/// `d` is ignored, and no event on such a path has it watched.
pub proof fn law_ignored_below(m: InotifyMonitor, d: Seq<char>, p: Seq<char>, mask: u32)
    requires
        m.ignored_dir_set().contains(raw_components(d)),
        extends(raw_components(p), raw_components(d)),
    ensures
        m.in_ignored_dir(p),
        m.plan_of(p, mask).watch is None,
{
}

/// A directory that `watch_dir` recorded is found again under its
/// descriptor, and events under that descriptor name paths below it.
pub proof fn law_watch_then_route(m: InotifyMonitor, m2: InotifyMonitor, dir: Seq<char>, wd: i32)
    requires
        m2.watched() == m.watched().insert(wd, dir),
    ensures
        m2.watched().contains_key(wd),
        m2.watched()[wd] == dir,
        forall|n: Seq<char>| #[trigger] event_target(m2.watched()[wd], Some(n)) == push_path(dir, n),
{
}

/// Only a creation is reported, and only a creation can lead to a watch:
/// an event is reported as created exactly when its mask holds the CREATE
/// bit (0x100); a watch is planned exactly when it also holds the ISDIR
/// bit (0x40000000) and the path lies in no ignored directory, and then
/// with the mask of creation, deletion, modification and both halves of a
/// move.
pub proof fn law_only_creation_watched(m: InotifyMonitor, p: Seq<char>, mask: u32)
    ensures
        m.plan_of(p, mask).created <==> mask & 0x100u32 != 0,
        m.plan_of(p, mask).watch is Some <==> (mask & 0x100u32 != 0 && mask & 0x4000_0000u32 != 0
            && !m.in_ignored_dir(p)),
        m.plan_of(p, mask).watch is Some ==> m.plan_of(p, mask).watch == Some(
            0x100u32 | 0x200u32 | 0x2u32 | 0x40u32 | 0x80u32,
        ),
{
    assert((mask & 0x100u32 == 0x100u32) <==> (mask & 0x100u32 != 0)) by (bit_vector);
    assert((mask & 0x4000_0000u32 == 0x4000_0000u32) <==> (mask & 0x4000_0000u32 != 0)) by (bit_vector);
    assert(0x100u32 | 0x200u32 | 0x2u32 | 0x40u32 | 0x80u32 == 0x3c2u32) by (bit_vector);
}

} // verus!
