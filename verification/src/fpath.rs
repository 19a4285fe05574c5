//! An in-memory tree of file-system paths.
use vstd::prelude::*;
use crate::text::{chars_of, push_char, split_chars, split_on, string_of};

verus! {

// ---------------------------------------------------------------------
// Paths as sequences of components (Unix rules of `std::path`)
// ---------------------------------------------------------------------

/// The views of a sequence of strings.
pub open spec fn views(v: Seq<String>) -> Seq<Seq<char>> {
    v.map_values(|x: String| x@)
}

/// A piece of a path that names an entry: neither empty nor `.`.
pub open spec fn is_name(seg: Seq<char>) -> bool {
    seg.len() > 0 && seg != seq!['.']
}

/// The naming pieces among `segs`, in order.
pub open spec fn names_of(segs: Seq<Seq<char>>) -> Seq<Seq<char>>
    decreases segs.len(),
{
    if segs.len() == 0 {
        Seq::empty()
    } else {
        let r = names_of(segs.drop_last());
        if is_name(segs.last()) {
            r.push(segs.last())
        } else {
            r
        }
    }
}

/// `s` is an absolute path: it begins with `/`.
pub open spec fn is_absolute(s: Seq<char>) -> bool {
    s.len() > 0 && s[0] == '/'
}

/// `s` begins with a `.` component: it is `.` or begins with `./`.
pub open spec fn starts_with_cur_dir(s: Seq<char>) -> bool {
    s == seq!['.'] || (s.len() >= 2 && s[0] == '.' && s[1] == '/')
}

/// The components that `Path::components` yields for `s` on Unix, each
/// as its text: `/` for the root, `.` for a leading current directory,
/// then every piece between separators that is neither empty nor `.`.
pub open spec fn raw_components(s: Seq<char>) -> Seq<Seq<char>> {
    let names = names_of(split_on(s, '/'));
    if is_absolute(s) {
        seq![seq!['/']] + names
    } else if starts_with_cur_dir(s) {
        seq![seq!['.']] + names
    } else {
        names
    }
}

/// The components by which the tree keys its entries: those of
/// `raw_components`, less a leading `.`.
pub open spec fn path_components(s: Seq<char>) -> Seq<Seq<char>> {
    let names = names_of(split_on(s, '/'));
    if is_absolute(s) {
        seq![seq!['/']] + names
    } else {
        names
    }
}

/// `buf` after `PathBuf::push(p)` on Unix: an absolute `p` replaces
/// `buf`; otherwise a separator is put between them unless `buf` is
/// empty or already ends with one.
pub open spec fn push_path(buf: Seq<char>, p: Seq<char>) -> Seq<char> {
    if is_absolute(p) {
        p
    } else if buf.len() > 0 && buf.last() != '/' {
        buf + seq!['/'] + p
    } else {
        buf + p
    }
}

/// The path built by pushing each of `cs`, in order, onto an empty path.
pub open spec fn render(cs: Seq<Seq<char>>) -> Seq<char>
    decreases cs.len(),
{
    if cs.len() == 0 {
        Seq::empty()
    } else {
        push_path(render(cs.drop_last()), cs.last())
    }
}

fn is_name_exec(seg: &Vec<char>) -> (r: bool)
    ensures
        r == is_name(seg@),
{
    if seg.len() == 0 {
        false
    } else if seg.len() == 1 && seg[0] == '.' {
        assert(seg@ =~= seq!['.']);
        false
    } else {
        assert(seg@.len() != 1 ==> seg@ != seq!['.']);
        assert(seg@.len() == 1 ==> seg@[0] != '.' ==> seg@ != seq!['.']);
        true
    }
}

fn one_char_string(c: char) -> (r: String)
    ensures
        r@ == seq![c],
{
    let mut r = String::new();
    push_char(&mut r, c);
    assert(Seq::<char>::empty().push(c) =~= seq![c]);
    r
}

/// The naming pieces of `s`, as `names_of(split_on(s, '/'))` says.
fn name_components(s: &Vec<char>) -> (r: Vec<String>)
    ensures
        views(r@) == names_of(split_on(s@, '/')),
{
    let pieces = split_chars(s, '/');
    let ghost segs = split_on(s@, '/');
    let mut r: Vec<String> = Vec::new();
    for i in 0..pieces.len()
        invariant
            pieces@.len() == segs.len(),
            forall|k: int| 0 <= k < pieces@.len() ==> #[trigger] pieces@[k]@ == segs[k],
            views(r@) == names_of(segs.take(i as int)),
    {
        assert(segs.take(i + 1).drop_last() =~= segs.take(i as int));
        assert(segs.take(i + 1).last() == segs[i as int]);
        if is_name_exec(&pieces[i]) {
            let ghost before = r@;
            r.push(string_of(&pieces[i]));
            assert(views(r@) =~= views(before).push(segs[i as int]));
        }
    }
    assert(segs.take(segs.len() as int) =~= segs);
    r
}

/// The components of `path` by which the tree keys entries.
pub fn components(path: &str) -> (r: Vec<String>)
    ensures
        views(r@) == path_components(path@),
{
    let cs = chars_of(path);
    let names = name_components(&cs);
    let mut r: Vec<String> = Vec::new();
    if cs.len() > 0 && cs[0] == '/' {
        r.push(one_char_string('/'));
    }
    let ghost start = views(r@);
    for i in 0..names.len()
        invariant
            views(r@) == start + views(names@).take(i as int),
            start == (if is_absolute(path@) { seq![seq!['/']] } else { Seq::<Seq<char>>::empty() }),
    {
        let ghost before = r@;
        r.push(names[i].clone());
        assert(views(r@) =~= views(before).push(names@[i as int]@));
        assert(views(names@).take(i + 1) =~= views(names@).take(i as int).push(names@[i as int]@));
    }
    assert(views(names@).take(names@.len() as int) =~= views(names@));
    r
}

/// The components that `Path::components` yields for `path`, each as text.
pub fn raw_path_components(path: &str) -> (r: Vec<String>)
    ensures
        views(r@) == raw_components(path@),
{
    let cs = chars_of(path);
    let names = name_components(&cs);
    let mut r: Vec<String> = Vec::new();
    if cs.len() > 0 && cs[0] == '/' {
        r.push(one_char_string('/'));
    } else if (cs.len() == 1 && cs[0] == '.') || (cs.len() >= 2 && cs[0] == '.' && cs[1] == '/') {
        assert(cs@.len() == 1 ==> cs@ =~= seq!['.']);
        r.push(one_char_string('.'));
    } else {
        assert(cs@.len() == 1 ==> cs@[0] != '.' ==> cs@ != seq!['.']);
    }
    let ghost start = views(r@);
    for i in 0..names.len()
        invariant
            views(r@) == start + views(names@).take(i as int),
            start == (if is_absolute(path@) { seq![seq!['/']] } else if starts_with_cur_dir(path@) {
                seq![seq!['.']]
            } else { Seq::<Seq<char>>::empty() }),
    {
        let ghost before = r@;
        r.push(names[i].clone());
        assert(views(r@) =~= views(before).push(names@[i as int]@));
        assert(views(names@).take(i + 1) =~= views(names@).take(i as int).push(names@[i as int]@));
    }
    assert(views(names@).take(names@.len() as int) =~= views(names@));
    r
}

/// `buf` after pushing `p` onto it, as `push_path` says.
pub(crate) fn push_path_exec(buf: String, p: &String) -> (r: String)
    ensures
        r@ == push_path(buf@, p@),
{
    let pc = chars_of(p.as_str());
    if pc.len() > 0 && pc[0] == '/' {
        p.clone()
    } else {
        let bc = chars_of(buf.as_str());
        let mut out = buf;
        if bc.len() > 0 && bc[bc.len() - 1] != '/' {
            push_char(&mut out, '/');
        }
        let ghost mid = out@;
        for i in 0..pc.len()
            invariant
                out@ == mid + pc@.take(i as int),
        {
            push_char(&mut out, pc[i]);
            assert(pc@.take(i + 1) =~= pc@.take(i as int).push(pc@[i as int]));
        }
        assert(pc@.take(pc@.len() as int) =~= pc@);
        assert(out@ =~= push_path(buf@, p@));
        out
    }
}

/// The path made by pushing the first `n` of `cs` onto an empty path.
fn render_exec(cs: &Vec<String>, n: usize) -> (r: String)
    requires
        n <= cs@.len(),
    ensures
        r@ == render(views(cs@).take(n as int)),
{
    let mut out = String::new();
    for i in 0..n
        invariant
            n <= cs@.len(),
            out@ == render(views(cs@).take(i as int)),
    {
        assert(views(cs@).take(i + 1).drop_last() =~= views(cs@).take(i as int));
        out = push_path_exec(out, &cs[i]);
    }
    out
}

} // verus!

verus! {

// ---------------------------------------------------------------------
// Nodes
// ---------------------------------------------------------------------

/// What an entry of the tree is.
#[derive(Debug, Clone, Copy, PartialEq, Eq, Structural)]
pub enum NodeType {
    File,
    Directory,
}

/// An entry of the tree: its name, what it is, and the entries below it.
#[derive(Debug)]
pub struct NNode {
    pub name: String,
    pub node_type: NodeType,
    pub children: Vec<NNode>,
}

/// The child of `cs` called `nm`, if there is one.
pub open spec fn child_named(cs: Seq<NNode>, nm: Seq<char>) -> Option<NNode> {
    if exists|i: int| 0 <= i < cs.len() && #[trigger] cs[i].name@ == nm {
        Some(cs[choose|i: int| 0 <= i < cs.len() && #[trigger] cs[i].name@ == nm])
    } else {
        None
    }
}

/// The node reached from `n` by following the names of `p`, one level
/// per name.
pub open spec fn reach(n: NNode, p: Seq<Seq<char>>) -> Option<NNode>
    decreases p.len(),
{
    if p.len() == 0 {
        Some(n)
    } else {
        match child_named(n.children@, p[0]) {
            Some(c) => reach(c, p.drop_first()),
            None => None,
        }
    }
}

/// No two of `cs` have the same name.
pub open spec fn names_distinct(cs: Seq<NNode>) -> bool {
    forall|i: int, j: int|
        0 <= i < cs.len() && 0 <= j < cs.len() && i != j ==> #[trigger] cs[i].name@
            != #[trigger] cs[j].name@
}

/// One node's own invariant: distinct child names, and no children
/// under a file.
pub open spec fn local_wf(n: NNode) -> bool {
    &&& names_distinct(n.children@)
    &&& n.node_type == NodeType::File ==> n.children@.len() == 0
}

/// `p` is a prefix of `q`.
pub open spec fn extends(q: Seq<Seq<char>>, p: Seq<Seq<char>>) -> bool {
    p.len() <= q.len() && q.take(p.len() as int) == p
}

impl NNode {
    /// Every node below this one (and this one) keeps its own invariant.
    pub open spec fn wf(self) -> bool {
        forall|p: Seq<Seq<char>>| #[trigger] reach(self, p) is Some ==> local_wf(reach(self, p).unwrap())
    }

    /// What lies below this node: each path of names, relative to it,
    /// mapped to the type of the node it reaches (the empty path is the
    /// node itself).
    pub open spec fn entries(self) -> Map<Seq<Seq<char>>, NodeType> {
        Map::new(
            |p: Seq<Seq<char>>| reach(self, p) is Some,
            |p: Seq<Seq<char>>| reach(self, p).unwrap().node_type,
        )
    }

    /// A node with no children.
    pub fn new(name: String, node_type: NodeType) -> (r: NNode)
        ensures
            r.name@ == name@,
            r.node_type == node_type,
            r.children@.len() == 0,
            r.wf(),
    {
        let r = NNode { name, node_type, children: Vec::new() };
        proof {
            assert forall|p: Seq<Seq<char>>| #[trigger] reach(r, p) is Some implies local_wf(reach(r, p).unwrap()) by {
                if p.len() > 0 {
                    assert(child_named(r.children@, p[0]) is None);
                }
            }
        }
        r
    }

    pub fn is_dir(&self) -> (r: bool)
        ensures
            r == (self.node_type == NodeType::Directory),
    {
        self.node_type == NodeType::Directory
    }

    pub fn is_file(&self) -> (r: bool)
        ensures
            r == (self.node_type == NodeType::File),
    {
        self.node_type == NodeType::File
    }
}

// ---------------------------------------------------------------------
// Facts about nodes
// ---------------------------------------------------------------------

pub proof fn lemma_child_named_at(cs: Seq<NNode>, i: int)
    requires
        names_distinct(cs),
        0 <= i < cs.len(),
    ensures
        child_named(cs, cs[i].name@) == Some(cs[i]),
{
    let nm = cs[i].name@;
    assert(cs[i].name@ == nm);
    let j = choose|j: int| 0 <= j < cs.len() && #[trigger] cs[j].name@ == nm;
    assert(j == i);
}

pub proof fn lemma_child_named_none(cs: Seq<NNode>, nm: Seq<char>)
    requires
        forall|i: int| 0 <= i < cs.len() ==> #[trigger] cs[i].name@ != nm,
    ensures
        child_named(cs, nm) is None,
{
}

/// Following `[nm] + p` from `n` is following `p` from the child `nm`.
pub proof fn lemma_reach_cons(n: NNode, nm: Seq<char>, p: Seq<Seq<char>>)
    ensures
        reach(n, seq![nm] + p) == match child_named(n.children@, nm) {
            Some(c) => reach(c, p),
            None => None,
        },
{
    let q = seq![nm] + p;
    assert(q[0] == nm);
    assert(q.drop_first() =~= p);
}

/// A child of a well-formed node is well formed.
pub proof fn lemma_child_wf(n: NNode, nm: Seq<char>)
    requires
        n.wf(),
        child_named(n.children@, nm) is Some,
    ensures
        child_named(n.children@, nm).unwrap().wf(),
{
    let c = child_named(n.children@, nm).unwrap();
    assert forall|p: Seq<Seq<char>>| #[trigger] reach(c, p) is Some implies local_wf(reach(c, p).unwrap()) by {
        lemma_reach_cons(n, nm, p);
        assert(reach(n, seq![nm] + p) == reach(c, p));
    }
}

/// A well-formed node's own invariant holds.
pub proof fn lemma_wf_local(n: NNode)
    requires
        n.wf(),
    ensures
        local_wf(n),
{
    assert(reach(n, Seq::empty()) == Some(n));
}

/// Where the first `k` names of `p` lead, if `p` leads somewhere.
pub proof fn lemma_reach_prefix(n: NNode, p: Seq<Seq<char>>, k: int)
    requires
        0 <= k <= p.len(),
        reach(n, p) is Some,
    ensures
        reach(n, p.take(k)) is Some,
    decreases p.len(),
{
    if k > 0 {
        let c = child_named(n.children@, p[0]).unwrap();
        lemma_reach_prefix(c, p.drop_first(), k - 1);
        assert(p.take(k)[0] == p[0]);
        assert(p.take(k).drop_first() =~= p.drop_first().take(k - 1));
    }
}

/// The index of the child of `cs` called `nm`, if there is one.
fn child_index(cs: &Vec<NNode>, nm: &String) -> (r: Option<usize>)
    ensures
        r matches Some(k) ==> k < cs@.len() && cs@[k as int].name@ == nm@,
        r is None ==> forall|i: int| 0 <= i < cs@.len() ==> #[trigger] cs@[i].name@ != nm@,
{
    for k in 0..cs.len()
        invariant
            forall|i: int| 0 <= i < k ==> #[trigger] cs@[i].name@ != nm@,
    {
        if cs[k].name == *nm {
            return Some(k);
        }
    }
    None
}

/// The node reached from `n` by the names `p[i..]`.
fn node_find<'a>(n: &'a NNode, p: &Vec<String>, i: usize) -> (r: Option<&'a NNode>)
    requires
        n.wf(),
        i <= p@.len(),
    ensures
        r is Some <==> reach(*n, views(p@).skip(i as int)) is Some,
        r matches Some(x) ==> reach(*n, views(p@).skip(i as int)) == Some(*x),
    decreases p@.len() - i,
{
    let ghost rest = views(p@).skip(i as int);
    if i == p.len() {
        assert(rest.len() == 0);
        return Some(n);
    }
    assert(rest[0] == p@[i as int]@);
    assert(rest.drop_first() =~= views(p@).skip(i + 1));
    proof { lemma_wf_local(*n); }
    if !n.is_dir() {
        assert(child_named(n.children@, rest[0]) is None);
        return None;
    }
    match child_index(&n.children, &p[i]) {
        None => {
            proof { lemma_child_named_none(n.children@, rest[0]); }
            None
        },
        Some(k) => {
            proof {
                lemma_child_named_at(n.children@, k as int);
                lemma_child_wf(*n, rest[0]);
            }
            node_find(&n.children[k], p, i + 1)
        },
    }
}

} // verus!

verus! {

// ---------------------------------------------------------------------
// How changing one child changes what a node reaches
// ---------------------------------------------------------------------

/// `n2` is `n` with its `k`-th child replaced by `c2` of the same name.
pub open spec fn child_replaced(n: NNode, n2: NNode, k: int, c2: NNode) -> bool {
    &&& 0 <= k < n.children@.len()
    &&& n2.children@ == n.children@.update(k, c2)
    &&& c2.name@ == n.children@[k].name@
    &&& n2.node_type == n.node_type
}

pub proof fn lemma_reach_replaced(n: NNode, n2: NNode, k: int, c2: NNode, q: Seq<Seq<char>>)
    requires
        names_distinct(n.children@),
        child_replaced(n, n2, k, c2),
    ensures
        names_distinct(n2.children@),
        q.len() > 0 && q[0] == c2.name@ ==> reach(n2, q) == reach(c2, q.drop_first()),
        q.len() > 0 && q[0] != c2.name@ ==> reach(n2, q) == reach(n, q),
{
    let cs = n.children@;
    let cs2 = n2.children@;
    assert forall|i: int, j: int|
        0 <= i < cs2.len() && 0 <= j < cs2.len() && i != j implies #[trigger] cs2[i].name@
        != #[trigger] cs2[j].name@ by {
        assert(cs[i].name@ != cs[j].name@);
    }
    if q.len() > 0 {
        if q[0] == c2.name@ {
            lemma_child_named_at(cs2, k);
        } else {
            if exists|i: int| 0 <= i < cs.len() && #[trigger] cs[i].name@ == q[0] {
                let i = choose|i: int| 0 <= i < cs.len() && #[trigger] cs[i].name@ == q[0];
                lemma_child_named_at(cs, i);
                lemma_child_named_at(cs2, i);
            } else {
                assert forall|i: int| 0 <= i < cs2.len() implies #[trigger] cs2[i].name@ != q[0] by {
                    if i != k {
                        assert(cs2[i] == cs[i]);
                    }
                }
            }
        }
    }
}

/// `n2` is `n` with `c` added after its children.
pub open spec fn child_pushed(n: NNode, n2: NNode, c: NNode) -> bool {
    &&& n2.children@ == n.children@.push(c)
    &&& n2.node_type == n.node_type
    &&& forall|i: int| 0 <= i < n.children@.len() ==> #[trigger] n.children@[i].name@ != c.name@
}

pub proof fn lemma_reach_pushed(n: NNode, n2: NNode, c: NNode, q: Seq<Seq<char>>)
    requires
        names_distinct(n.children@),
        child_pushed(n, n2, c),
    ensures
        names_distinct(n2.children@),
        q.len() > 0 && q[0] == c.name@ ==> reach(n2, q) == reach(c, q.drop_first()),
        q.len() > 0 && q[0] != c.name@ ==> reach(n2, q) == reach(n, q),
{
    let cs = n.children@;
    let cs2 = n2.children@;
    let last = cs.len() as int;
    assert(cs2[last] == c);
    assert forall|i: int, j: int|
        0 <= i < cs2.len() && 0 <= j < cs2.len() && i != j implies #[trigger] cs2[i].name@
        != #[trigger] cs2[j].name@ by {
        if i < last && j < last {
            assert(cs[i].name@ != cs[j].name@);
        } else if i < last {
            assert(cs2[i] == cs[i]);
        } else {
            assert(cs2[j] == cs[j]);
        }
    }
    if q.len() > 0 {
        if q[0] == c.name@ {
            lemma_child_named_at(cs2, last);
        } else {
            if exists|i: int| 0 <= i < cs.len() && #[trigger] cs[i].name@ == q[0] {
                let i = choose|i: int| 0 <= i < cs.len() && #[trigger] cs[i].name@ == q[0];
                lemma_child_named_at(cs, i);
                assert(cs2[i] == cs[i]);
                lemma_child_named_at(cs2, i);
            } else {
                assert forall|i: int| 0 <= i < cs2.len() implies #[trigger] cs2[i].name@ != q[0] by {
                    if i < last {
                        assert(cs2[i] == cs[i]);
                    }
                }
            }
        }
    }
}

/// `n2` is `n` without its `k`-th child.
pub open spec fn child_removed(n: NNode, n2: NNode, k: int) -> bool {
    &&& 0 <= k < n.children@.len()
    &&& n2.children@ == n.children@.remove(k)
    &&& n2.node_type == n.node_type
}

pub proof fn lemma_reach_removed(n: NNode, n2: NNode, k: int, q: Seq<Seq<char>>)
    requires
        names_distinct(n.children@),
        child_removed(n, n2, k),
    ensures
        names_distinct(n2.children@),
        q.len() > 0 && q[0] == n.children@[k].name@ ==> reach(n2, q) is None,
        q.len() > 0 && q[0] != n.children@[k].name@ ==> reach(n2, q) == reach(n, q),
{
    let cs = n.children@;
    let cs2 = n2.children@;
    let nm = cs[k].name@;
    assert forall|i: int| 0 <= i < cs2.len() implies #[trigger] cs2[i] == (if i < k { cs[i] } else { cs[i + 1] }) by {}
    assert forall|i: int, j: int|
        0 <= i < cs2.len() && 0 <= j < cs2.len() && i != j implies #[trigger] cs2[i].name@
        != #[trigger] cs2[j].name@ by {
        let i1 = if i < k { i } else { i + 1 };
        let j1 = if j < k { j } else { j + 1 };
        assert(cs2[i] == cs[i1]);
        assert(cs2[j] == cs[j1]);
        assert(cs[i1].name@ != cs[j1].name@);
    }
    if q.len() > 0 {
        if q[0] == nm {
            assert forall|i: int| 0 <= i < cs2.len() implies #[trigger] cs2[i].name@ != q[0] by {
                let i1 = if i < k { i } else { i + 1 };
                assert(cs2[i] == cs[i1]);
                assert(cs[i1].name@ != cs[k].name@);
            }
        } else {
            if exists|i: int| 0 <= i < cs.len() && #[trigger] cs[i].name@ == q[0] {
                let i = choose|i: int| 0 <= i < cs.len() && #[trigger] cs[i].name@ == q[0];
                lemma_child_named_at(cs, i);
                let i2 = if i < k { i } else { i - 1 };
                assert(cs2[i2] == cs[i]);
                lemma_child_named_at(cs2, i2);
            } else {
                assert forall|i: int| 0 <= i < cs2.len() implies #[trigger] cs2[i].name@ != q[0] by {
                    let i1 = if i < k { i } else { i + 1 };
                    assert(cs2[i] == cs[i1]);
                }
            }
        }
    }
}

/// A node whose own invariant holds and whose children are well formed
/// is well formed.
pub proof fn lemma_wf_from_children(n: NNode)
    requires
        local_wf(n),
        forall|i: int| 0 <= i < n.children@.len() ==> (#[trigger] n.children@[i]).wf(),
    ensures
        n.wf(),
{
    assert forall|p: Seq<Seq<char>>| #[trigger] reach(n, p) is Some implies local_wf(reach(n, p).unwrap()) by {
        if p.len() > 0 {
            let cs = n.children@;
            let i = choose|i: int| 0 <= i < cs.len() && #[trigger] cs[i].name@ == p[0];
            assert(cs[i].wf());
            assert(reach(cs[i], p.drop_first()) is Some);
        }
    }
}

} // verus!

verus! {

// ---------------------------------------------------------------------
// What adding a path does to the entries below a node
// ---------------------------------------------------------------------

/// Paths of names, relative to a node, mapped to what they reach.
pub type Entries = Map<Seq<Seq<char>>, NodeType>;

/// The number of names of `rest`, from the `k`-th on, whose prefixes are
/// all already in `m`, plus `k`.
pub open spec fn depth_from(m: Entries, rest: Seq<Seq<char>>, k: nat) -> nat
    decreases rest.len() - k,
{
    if k < rest.len() && m.contains_key(rest.take(k + 1 as int)) {
        depth_from(m, rest, k + 1)
    } else {
        k
    }
}

/// The length of the longest prefix of `rest` that `m` already holds.
pub open spec fn present_depth(m: Entries, rest: Seq<Seq<char>>) -> nat {
    depth_from(m, rest, 0)
}

/// `m` after adding the path `rest` whose last entry has type `ft`:
/// below the deepest prefix of `rest` already present, if that is a
/// directory, each missing prefix becomes a directory and `rest` itself
/// becomes `ft`; if that prefix is a file, or `rest` is all present,
/// nothing changes. Entries already present keep their type.
pub open spec fn add_entries(m: Entries, rest: Seq<Seq<char>>, ft: NodeType) -> Entries {
    let d = present_depth(m, rest);
    if d < rest.len() && m[rest.take(d as int)] == NodeType::Directory {
        Map::new(
            |q: Seq<Seq<char>>| m.contains_key(q) || (extends(rest, q) && q.len() > d),
            |q: Seq<Seq<char>>|
                if m.contains_key(q) {
                    m[q]
                } else if q.len() == rest.len() {
                    ft
                } else {
                    NodeType::Directory
                },
        )
    } else {
        m
    }
}

/// `c` is what `m` holds below the name `nm`.
pub open spec fn below(m: Entries, nm: Seq<char>, c: Entries) -> bool {
    &&& forall|q: Seq<Seq<char>>|
        #![trigger c.contains_key(q)]
        #![trigger m.contains_key(seq![nm] + q)]
        m.contains_key(seq![nm] + q) <==> c.contains_key(q)
    &&& forall|q: Seq<Seq<char>>| #[trigger] c.contains_key(q) ==> m[seq![nm] + q] == c[q]
}

/// `m` and `m2` hold the same entries.
pub open spec fn same_entry(m: Entries, q: Seq<Seq<char>>, m2: Entries, q2: Seq<Seq<char>>) -> bool {
    &&& m.contains_key(q) == m2.contains_key(q2)
    &&& m.contains_key(q) ==> m[q] == m2[q2]
}

proof fn lemma_depth_below(m: Entries, c: Entries, rest: Seq<Seq<char>>, k: nat)
    requires
        rest.len() > 0,
        below(m, rest[0], c),
        k + 1 <= rest.len(),
    ensures
        depth_from(m, rest, k + 1) == depth_from(c, rest.drop_first(), k) + 1,
    decreases rest.len() - k,
{
    let nm = rest[0];
    let r1 = rest.drop_first();
    if k + 1 < rest.len() {
        assert(rest.take(k + 2 as int) =~= seq![nm] + r1.take(k + 1 as int));
        if c.contains_key(r1.take(k + 1 as int)) {
            lemma_depth_below(m, c, rest, k + 1);
        }
    }
}

pub(crate) proof fn lemma_depth_bound(m: Entries, rest: Seq<Seq<char>>, k: nat)
    requires
        k <= rest.len(),
    ensures
        k <= depth_from(m, rest, k) <= rest.len(),
    decreases rest.len() - k,
{
    if k < rest.len() && m.contains_key(rest.take(k + 1 as int)) {
        lemma_depth_bound(m, rest, k + 1);
    }
}

pub(crate) proof fn lemma_depth_contains(m: Entries, rest: Seq<Seq<char>>, k: nat)
    requires
        k <= rest.len(),
        m.contains_key(rest.take(k as int)),
    ensures
        m.contains_key(rest.take(depth_from(m, rest, k) as int)),
    decreases rest.len() - k,
{
    if k < rest.len() && m.contains_key(rest.take(k + 1 as int)) {
        lemma_depth_contains(m, rest, k + 1);
    }
}

/// Adding `rest` below a node, seen from its child `rest[0]`, is adding
/// the rest of `rest` below that child.
proof fn lemma_add_below(m: Entries, c: Entries, rest: Seq<Seq<char>>, ft: NodeType, q: Seq<Seq<char>>)
    requires
        rest.len() > 0,
        below(m, rest[0], c),
        c.contains_key(Seq::empty()),
    ensures
        same_entry(add_entries(m, rest, ft), seq![rest[0]] + q, add_entries(c, rest.drop_first(), ft), q),
{
    let nm = rest[0];
    let r1 = rest.drop_first();
    let q1 = seq![nm] + q;
    assert(rest.take(1) =~= seq![nm] + Seq::<Seq<char>>::empty());
    assert(depth_from(m, rest, 0) == depth_from(m, rest, 1));
    lemma_depth_below(m, c, rest, 0);
    let dm = present_depth(m, rest);
    let dc = present_depth(c, r1);
    lemma_depth_bound(c, r1, 0);
    assert(dm == dc + 1);
    assert(rest.take(dm as int) =~= seq![nm] + r1.take(dc as int));
    assert(q1.drop_first() =~= q);
    assert(r1.take(0) =~= Seq::<Seq<char>>::empty());
    lemma_depth_contains(c, r1, 0);
    assert(extends(rest, q1) == extends(r1, q)) by {
        if extends(rest, q1) {
            assert(r1.take(q.len() as int) =~= rest.take(q1.len() as int).drop_first());
        }
        if extends(r1, q) {
            assert(rest.take(q1.len() as int) =~= seq![nm] + r1.take(q.len() as int));
        }
    }
    assert(c.contains_key(q) ==> m[q1] == c[q]);
    assert(c.contains_key(r1.take(dc as int)) ==> m[rest.take(dm as int)] == c[r1.take(dc as int)]);
}

/// Adding `rest` leaves alone the entries that do not begin with `rest[0]`.
proof fn lemma_add_elsewhere(m: Entries, rest: Seq<Seq<char>>, ft: NodeType, q: Seq<Seq<char>>)
    requires
        rest.len() > 0,
        q.len() == 0 || q[0] != rest[0],
    ensures
        same_entry(add_entries(m, rest, ft), q, m, q),
{
    if q.len() > 0 && extends(rest, q) {
        assert(rest.take(q.len() as int)[0] == rest[0]);
    }
}

/// Adding `rest` where its first name is missing is adding it after
/// that first name is put in with the type it will get.
proof fn lemma_add_fresh(m: Entries, rest: Seq<Seq<char>>, ft: NodeType)
    requires
        rest.len() > 0,
        m.contains_key(Seq::empty()),
        m[Seq::empty()] == NodeType::Directory,
        forall|q: Seq<Seq<char>>| !(#[trigger] m.contains_key(seq![rest[0]] + q)),
    ensures
        add_entries(m, rest, ft) == add_entries(
            m.insert(seq![rest[0]], if rest.len() == 1 { ft } else { NodeType::Directory }),
            rest,
            ft,
        ),
{
    let nm = rest[0];
    let t0 = if rest.len() == 1 { ft } else { NodeType::Directory };
    let m2 = m.insert(seq![nm], t0);
    assert(rest.take(1) =~= seq![nm] + Seq::<Seq<char>>::empty());
    assert(rest.take(0) =~= Seq::<Seq<char>>::empty());
    assert(!m.contains_key(rest.take(1)));
    assert(present_depth(m, rest) == 0);
    assert(depth_from(m2, rest, 0) == depth_from(m2, rest, 1));
    if rest.len() > 1 {
        assert(rest.take(2) =~= seq![nm] + rest.drop_first().take(1));
        assert(!m2.contains_key(rest.take(2)));
    }
    assert(present_depth(m2, rest) == 1);
    assert forall|q: Seq<Seq<char>>| #![auto]
        same_entry(add_entries(m, rest, ft), q, add_entries(m2, rest, ft), q) by {
        if q.len() > 0 && q[0] == nm {
            assert(q =~= seq![nm] + q.drop_first());
            assert(!m.contains_key(q));
            if q.len() == 1 {
                assert(q =~= seq![nm]);
                assert(extends(rest, q));
            }
        }
    }
    assert(add_entries(m, rest, ft) =~= add_entries(m2, rest, ft));
}

} // verus!

verus! {

/// What a well-formed node holds below the name of its child `c` is
/// what `c` holds.
proof fn lemma_below_child(n: NNode, c: NNode)
    requires
        child_named(n.children@, c.name@) == Some(c),
    ensures
        below(n.entries(), c.name@, c.entries()),
{
    assert forall|q: Seq<Seq<char>>| #![auto] reach(n, seq![c.name@] + q) == reach(c, q) by {
        lemma_reach_cons(n, c.name@, q);
    }
}

/// The entries of a node with no children: just the node itself.
proof fn lemma_entries_leaf(c: NNode, q: Seq<Seq<char>>)
    requires
        c.children@.len() == 0,
    ensures
        c.entries().contains_key(q) <==> q.len() == 0,
        c.entries().contains_key(Seq::empty()),
        c.entries()[Seq::empty()] == c.node_type,
{
    if q.len() > 0 {
        assert(child_named(c.children@, q[0]) is None);
    }
    assert(reach(c, Seq::empty()) == Some(c));
}

proof fn lemma_entries_after_replace(
    n0: NNode,
    n1: NNode,
    k: int,
    c1: NNode,
    rest: Seq<Seq<char>>,
    ft: NodeType,
)
    requires
        n0.wf(),
        child_replaced(n0, n1, k, c1),
        rest.len() > 0,
        n0.children@[k].name@ == rest[0],
        c1.entries() == add_entries(n0.children@[k].entries(), rest.drop_first(), ft),
    ensures
        n1.entries() == add_entries(n0.entries(), rest, ft),
{
    let c0 = n0.children@[k];
    let nm = rest[0];
    let m0 = n0.entries();
    lemma_wf_local(n0);
    lemma_child_named_at(n0.children@, k);
    lemma_below_child(n0, c0);
    assert(reach(c0, Seq::empty()) is Some);
    assert(reach(n0, Seq::empty()) == Some(n0));
    assert(reach(n1, Seq::empty()) == Some(n1));
    assert forall|q: Seq<Seq<char>>|
        #![trigger n1.entries().contains_key(q)]
        #![trigger add_entries(m0, rest, ft).contains_key(q)]
        same_entry(n1.entries(), q, add_entries(m0, rest, ft), q) by {
        lemma_reach_replaced(n0, n1, k, c1, q);
        if q.len() > 0 && q[0] == nm {
            let q1 = q.drop_first();
            assert(q =~= seq![nm] + q1);
            lemma_add_below(m0, c0.entries(), rest, ft, q1);
        } else {
            lemma_add_elsewhere(m0, rest, ft, q);
        }
    }
    assert(n1.entries() =~= add_entries(m0, rest, ft));
}

proof fn lemma_entries_after_push(
    n0: NNode,
    n1: NNode,
    c0: NNode,
    c1: NNode,
    rest: Seq<Seq<char>>,
    ft: NodeType,
)
    requires
        n0.wf(),
        n0.node_type == NodeType::Directory,
        child_pushed(n0, n1, c1),
        rest.len() > 0,
        c1.name@ == rest[0],
        c0.children@.len() == 0,
        c0.node_type == (if rest.len() == 1 { ft } else { NodeType::Directory }),
        c1.entries() == add_entries(c0.entries(), rest.drop_first(), ft),
    ensures
        n1.entries() == add_entries(n0.entries(), rest, ft),
{
    let nm = rest[0];
    let t0 = c0.node_type;
    let m0 = n0.entries();
    let m2 = m0.insert(seq![nm], t0);
    let e0 = c0.entries();
    lemma_wf_local(n0);
    assert(reach(n0, Seq::empty()) == Some(n0));
    assert(reach(n1, Seq::empty()) == Some(n1));
    assert(child_named(n0.children@, nm) is None);
    assert forall|q: Seq<Seq<char>>| !(#[trigger] m0.contains_key(seq![nm] + q)) by {
        lemma_reach_cons(n0, nm, q);
    }
    assert(seq![nm] =~= seq![nm] + Seq::<Seq<char>>::empty());
    assert(below(m2, nm, e0)) by {
        assert forall|q: Seq<Seq<char>>| #![auto] m2.contains_key(seq![nm] + q) <==> e0.contains_key(q) by {
            lemma_entries_leaf(c0, q);
            if q.len() > 0 {
                assert((seq![nm] + q).len() > 1);
            } else {
                assert(seq![nm] + q =~= seq![nm]);
            }
        }
        assert forall|q: Seq<Seq<char>>| #[trigger] e0.contains_key(q) implies m2[seq![nm] + q] == e0[q] by {
            lemma_entries_leaf(c0, q);
            assert(q =~= Seq::<Seq<char>>::empty());
        }
    }
    lemma_entries_leaf(c0, Seq::empty());
    lemma_add_fresh(m0, rest, ft);
    assert forall|q: Seq<Seq<char>>|
        #![trigger n1.entries().contains_key(q)]
        #![trigger add_entries(m0, rest, ft).contains_key(q)]
        same_entry(n1.entries(), q, add_entries(m0, rest, ft), q) by {
        lemma_reach_pushed(n0, n1, c1, q);
        if q.len() > 0 && q[0] == nm {
            let q1 = q.drop_first();
            assert(q =~= seq![nm] + q1);
            lemma_add_below(m2, e0, rest, ft, q1);
        } else {
            lemma_add_elsewhere(m0, rest, ft, q);
        }
    }
    assert(n1.entries() =~= add_entries(m0, rest, ft));
}

/// The children of a well-formed node are well formed.
proof fn lemma_children_wf(n: NNode)
    requires
        n.wf(),
    ensures
        forall|i: int| 0 <= i < n.children@.len() ==> (#[trigger] n.children@[i]).wf(),
{
    lemma_wf_local(n);
    assert forall|i: int| 0 <= i < n.children@.len() implies (#[trigger] n.children@[i]).wf() by {
        lemma_child_named_at(n.children@, i);
        lemma_child_wf(n, n.children@[i].name@);
    }
}

/// Adds the names `p[i..]` below `n`, as `add_entries` says: walking down,
/// missing entries are created as directories, the last one as `ft`; the
/// walk stops at a file.
fn node_add(n: &mut NNode, p: &Vec<String>, i: usize, ft: NodeType)
    requires
        old(n).wf(),
        i <= p@.len(),
    ensures
        final(n).wf(),
        final(n).name == old(n).name,
        final(n).node_type == old(n).node_type,
        final(n).entries() == add_entries(old(n).entries(), views(p@).skip(i as int), ft),
    decreases p@.len() - i,
{
    let ghost rest = views(p@).skip(i as int);
    let ghost n0 = *n;
    proof {
        lemma_wf_local(n0);
        assert(rest.take(0) =~= Seq::<Seq<char>>::empty());
        assert(reach(n0, Seq::empty()) == Some(n0));
    }
    if i == p.len() {
        return;
    }
    if !n.is_dir() {
        proof {
            assert(child_named(n0.children@, rest[0]) is None);
            lemma_reach_cons(n0, rest[0], Seq::empty());
            assert(rest.take(1) =~= seq![rest[0]] + Seq::<Seq<char>>::empty());
        }
        return;
    }
    assert(rest[0] == p@[i as int]@);
    assert(rest.drop_first() =~= views(p@).skip(i + 1));
    match child_index(&n.children, &p[i]) {
        Some(k) => {
            proof {
                lemma_children_wf(n0);
            }
            node_add(&mut n.children[k], p, i + 1, ft);
            proof {
                let c1 = n.children@[k as int];
                assert(child_replaced(n0, *n, k as int, c1));
                lemma_entries_after_replace(n0, *n, k as int, c1, rest, ft);
                lemma_children_wf(n0);
                assert forall|j: int| 0 <= j < n.children@.len() implies (#[trigger] n.children@[j]).wf() by {
                    if j != k {
                        assert(n.children@[j] == n0.children@[j]);
                    }
                }
                lemma_reach_replaced(n0, *n, k as int, c1, Seq::empty());
                lemma_wf_from_children(*n);
            }
        },
        None => {
            let ty = if i + 1 == p.len() { ft } else { NodeType::Directory };
            let mut c = NNode::new(p[i].clone(), ty);
            let ghost c0 = c;
            node_add(&mut c, p, i + 1, ft);
            let ghost c1 = c;
            n.children.push(c);
            proof {
                assert(child_pushed(n0, *n, c1));
                lemma_entries_after_push(n0, *n, c0, c1, rest, ft);
                lemma_children_wf(n0);
                assert forall|j: int| 0 <= j < n.children@.len() implies (#[trigger] n.children@[j]).wf() by {
                    if j < n0.children@.len() {
                        assert(n.children@[j] == n0.children@[j]);
                    }
                }
                lemma_reach_pushed(n0, *n, c1, Seq::empty());
                lemma_wf_from_children(*n);
            }
        },
    }
}

} // verus!

verus! {

// ---------------------------------------------------------------------
// Taking a subtree out, and putting one in
// ---------------------------------------------------------------------

/// `m` without `p` and everything below it.
pub open spec fn remove_entries(m: Entries, p: Seq<Seq<char>>) -> Entries {
    Map::new(|q: Seq<Seq<char>>| m.contains_key(q) && !extends(q, p), |q: Seq<Seq<char>>| m[q])
}

/// `m` with whatever was at `p` and below replaced by the entries `c`,
/// placed at `p`.
pub open spec fn put_entries(m: Entries, p: Seq<Seq<char>>, c: Entries) -> Entries {
    Map::new(
        |q: Seq<Seq<char>>|
            if extends(q, p) {
                c.contains_key(q.skip(p.len() as int))
            } else {
                m.contains_key(q)
            },
        |q: Seq<Seq<char>>|
            if extends(q, p) {
                c[q.skip(p.len() as int)]
            } else {
                m[q]
            },
    )
}

proof fn lemma_extends_cons(q: Seq<Seq<char>>, p: Seq<Seq<char>>, nm: Seq<char>)
    ensures
        extends(seq![nm] + q, seq![nm] + p) == extends(q, p),
        extends(q, p) ==> (seq![nm] + q).skip(p.len() + 1 as int) == q.skip(p.len() as int),
{
    let q1 = seq![nm] + q;
    let p1 = seq![nm] + p;
    if extends(q1, p1) {
        assert(q.take(p.len() as int) =~= q1.take(p1.len() as int).drop_first());
        assert(p =~= p1.drop_first());
    }
    if extends(q, p) {
        assert(q1.take(p1.len() as int) =~= seq![nm] + q.take(p.len() as int));
        assert(q1.skip(p.len() + 1 as int) =~= q.skip(p.len() as int));
    }
}

proof fn lemma_extends_other(q: Seq<Seq<char>>, p: Seq<Seq<char>>)
    requires
        p.len() > 0,
        q.len() == 0 || q[0] != p[0],
    ensures
        !extends(q, p),
{
    if q.len() > 0 && extends(q, p) {
        assert(q.take(p.len() as int)[0] == q[0]);
    }
}

/// A node holds nothing below a path it does not reach.
proof fn lemma_unreached_below(n: NNode, p: Seq<Seq<char>>, q: Seq<Seq<char>>)
    requires
        reach(n, p) is None,
        extends(q, p),
    ensures
        reach(n, q) is None,
{
    if reach(n, q) is Some {
        lemma_reach_prefix(n, q, p.len() as int);
    }
}

/// Takes out the node at the names `p[i..]` below `n`, with all below it.
fn node_take(n: &mut NNode, p: &Vec<String>, i: usize) -> (r: Option<NNode>)
    requires
        old(n).wf(),
        i < p@.len(),
    ensures
        final(n).wf(),
        final(n).name == old(n).name,
        final(n).node_type == old(n).node_type,
        r == reach(*old(n), views(p@).skip(i as int)),
        r matches Some(x) ==> x.wf(),
        final(n).entries() == remove_entries(old(n).entries(), views(p@).skip(i as int)),
    decreases p@.len() - i,
{
    let ghost rest = views(p@).skip(i as int);
    let ghost n0 = *n;
    let ghost nm = rest[0];
    let len = p.len();
    proof {
        lemma_wf_local(n0);
        lemma_children_wf(n0);
        assert(rest[0] == p@[i as int]@);
        assert(rest.drop_first() =~= views(p@).skip(i + 1));
        assert(reach(n0, Seq::empty()) == Some(n0));
    }
    match child_index(&n.children, &p[i]) {
        None => {
            proof {
                lemma_child_named_none(n0.children@, nm);
                assert forall|q: Seq<Seq<char>>|
                    #![trigger n0.entries().contains_key(q)]
                    n0.entries().contains_key(q) implies !extends(q, rest) by {
                    if extends(q, rest) {
                        lemma_unreached_below(n0, rest, q);
                    }
                }
                assert(n.entries() =~= remove_entries(n0.entries(), rest));
            }
            None
        },
        Some(k) => {
            proof {
                lemma_child_named_at(n0.children@, k as int);
            }
            if i + 1 == len {
                let c = n.children.remove(k);
                proof {
                    assert(child_removed(n0, *n, k as int));
                    assert(rest.drop_first().len() == 0);
                    assert forall|q: Seq<Seq<char>>|
                        #![trigger n.entries().contains_key(q)]
                        #![trigger n0.entries().contains_key(q)]
                        same_entry(n.entries(), q, remove_entries(n0.entries(), rest), q) by {
                        lemma_reach_removed(n0, *n, k as int, q);
                        if q.len() > 0 && q[0] == nm {
                            assert(q.take(1) =~= rest);
                        } else {
                            lemma_extends_other(q, rest);
                        }
                    }
                    assert(n.entries() =~= remove_entries(n0.entries(), rest));
                    assert forall|j: int| 0 <= j < n.children@.len() implies (#[trigger] n.children@[j]).wf() by {
                        let j1 = if j < k { j } else { j + 1 };
                        assert(n.children@[j] == n0.children@[j1]);
                    }
                    lemma_reach_removed(n0, *n, k as int, Seq::empty());
                    lemma_wf_from_children(*n);
                }
                Some(c)
            } else {
                let ghost c0 = n0.children@[k as int];
                let r = node_take(&mut n.children[k], p, i + 1);
                proof {
                    let c1 = n.children@[k as int];
                    assert(child_replaced(n0, *n, k as int, c1));
                    lemma_reach_cons(n0, nm, rest.drop_first());
                    assert(rest =~= seq![nm] + rest.drop_first());
                    assert forall|q: Seq<Seq<char>>|
                        #![trigger n.entries().contains_key(q)]
                        #![trigger n0.entries().contains_key(q)]
                        same_entry(n.entries(), q, remove_entries(n0.entries(), rest), q) by {
                        lemma_reach_replaced(n0, *n, k as int, c1, q);
                        if q.len() > 0 && q[0] == nm {
                            let q1 = q.drop_first();
                            assert(q =~= seq![nm] + q1);
                            lemma_extends_cons(q1, rest.drop_first(), nm);
                            lemma_reach_cons(n0, nm, q1);
                            assert(reach(*n, q) == reach(c1, q1));
                            assert(reach(n0, q) == reach(c0, q1));
                            assert(extends(q, rest) == extends(q1, rest.drop_first()));
                            assert(c1.entries().contains_key(q1) == (c0.entries().contains_key(q1)
                                && !extends(q1, rest.drop_first())));
                            if n.entries().contains_key(q) {
                                assert(n.entries()[q] == c1.entries()[q1]);
                                assert(c1.entries()[q1] == c0.entries()[q1]);
                                assert(c0.entries()[q1] == n0.entries()[q]);
                            }
                        } else {
                            lemma_extends_other(q, rest);
                        }
                    }
                    assert(n.entries() =~= remove_entries(n0.entries(), rest));
                    assert forall|j: int| 0 <= j < n.children@.len() implies (#[trigger] n.children@[j]).wf() by {
                        if j != k {
                            assert(n.children@[j] == n0.children@[j]);
                        }
                    }
                    lemma_reach_replaced(n0, *n, k as int, c1, Seq::empty());
                    lemma_wf_from_children(*n);
                }
                r
            }
        },
    }
}

/// Puts `c` at the names `p[i..]` below `n`, in place of whatever was
/// there; the node that is to hold it is a directory.
fn node_put(n: &mut NNode, p: &Vec<String>, i: usize, c: NNode)
    requires
        old(n).wf(),
        c.wf(),
        i < p@.len(),
        c.name@ == p@[p@.len() - 1]@,
        reach(*old(n), views(p@).skip(i as int).drop_last()) is Some,
        reach(*old(n), views(p@).skip(i as int).drop_last()).unwrap().node_type == NodeType::Directory,
    ensures
        final(n).wf(),
        final(n).name == old(n).name,
        final(n).node_type == old(n).node_type,
        final(n).entries() == put_entries(old(n).entries(), views(p@).skip(i as int), c.entries()),
    decreases p@.len() - i,
{
    let ghost rest = views(p@).skip(i as int);
    let ghost n0 = *n;
    let ghost nm = rest[0];
    let len = p.len();
    proof {
        lemma_wf_local(n0);
        lemma_children_wf(n0);
        assert(rest[0] == p@[i as int]@);
        assert(rest.drop_first() =~= views(p@).skip(i + 1));
        assert(reach(n0, Seq::empty()) == Some(n0));
        assert(reach(c, Seq::empty()) == Some(c));
    }
    if i + 1 == len {
        assert(rest.drop_last() =~= Seq::<Seq<char>>::empty());
        assert(nm == c.name@);
        let ghost c1 = c;
        match child_index(&n.children, &p[i]) {
            Some(k) => {
                n.children[k] = c;
                proof {
                    assert(child_replaced(n0, *n, k as int, c1));
                    assert forall|j: int| 0 <= j < n.children@.len() implies (#[trigger] n.children@[j]).wf() by {
                        if j != k {
                            assert(n.children@[j] == n0.children@[j]);
                        }
                    }
                    lemma_reach_replaced(n0, *n, k as int, c1, Seq::empty());
                    lemma_wf_from_children(*n);
                    assert forall|q: Seq<Seq<char>>|
                        #![trigger n.entries().contains_key(q)]
                        #![trigger n0.entries().contains_key(q)]
                        same_entry(n.entries(), q, put_entries(n0.entries(), rest, c1.entries()), q) by {
                        lemma_reach_replaced(n0, *n, k as int, c1, q);
                        if q.len() > 0 && q[0] == nm {
                            assert(q.take(1) =~= rest);
                            assert(q.skip(1) =~= q.drop_first());
                        } else {
                            lemma_extends_other(q, rest);
                        }
                    }
                    assert(n.entries() =~= put_entries(n0.entries(), rest, c1.entries()));
                }
            },
            None => {
                n.children.push(c);
                proof {
                    assert(child_pushed(n0, *n, c1));
                    assert forall|j: int| 0 <= j < n.children@.len() implies (#[trigger] n.children@[j]).wf() by {
                        if j < n0.children@.len() {
                            assert(n.children@[j] == n0.children@[j]);
                        }
                    }
                    lemma_reach_pushed(n0, *n, c1, Seq::empty());
                    lemma_wf_from_children(*n);
                    assert forall|q: Seq<Seq<char>>|
                        #![trigger n.entries().contains_key(q)]
                        #![trigger n0.entries().contains_key(q)]
                        same_entry(n.entries(), q, put_entries(n0.entries(), rest, c1.entries()), q) by {
                        lemma_reach_pushed(n0, *n, c1, q);
                        if q.len() > 0 && q[0] == nm {
                            assert(q.take(1) =~= rest);
                            assert(q.skip(1) =~= q.drop_first());
                        } else {
                            lemma_extends_other(q, rest);
                        }
                    }
                    assert(n.entries() =~= put_entries(n0.entries(), rest, c1.entries()));
                }
            },
        }
    } else {
        proof {
            assert(rest.drop_last() =~= seq![nm] + rest.drop_first().drop_last());
            lemma_reach_cons(n0, nm, rest.drop_first().drop_last());
        }
        let k = match child_index(&n.children, &p[i]) {
            Some(k) => k,
            None => {
                proof {
                    lemma_child_named_none(n0.children@, nm);
                }
                return;
            },
        };
        proof {
            lemma_child_named_at(n0.children@, k as int);
            assert(p@[p@.len() - 1]@ == views(p@)[p@.len() - 1]);
        }
        node_put(&mut n.children[k], p, i + 1, c);
        proof {
            let c1 = n.children@[k as int];
            assert(child_replaced(n0, *n, k as int, c1));
            assert forall|j: int| 0 <= j < n.children@.len() implies (#[trigger] n.children@[j]).wf() by {
                if j != k {
                    assert(n.children@[j] == n0.children@[j]);
                }
            }
            lemma_reach_replaced(n0, *n, k as int, c1, Seq::empty());
            lemma_wf_from_children(*n);
            assert(rest =~= seq![nm] + rest.drop_first());
            assert forall|q: Seq<Seq<char>>|
                #![trigger n.entries().contains_key(q)]
                #![trigger n0.entries().contains_key(q)]
                same_entry(n.entries(), q, put_entries(n0.entries(), rest, c.entries()), q) by {
                lemma_reach_replaced(n0, *n, k as int, c1, q);
                if q.len() > 0 && q[0] == nm {
                    let q1 = q.drop_first();
                    assert(q =~= seq![nm] + q1);
                    lemma_extends_cons(q1, rest.drop_first(), nm);
                    lemma_reach_cons(n0, nm, q1);
                    let c0 = n0.children@[k as int];
                    assert(reach(*n, q) == reach(c1, q1));
                    assert(reach(n0, q) == reach(c0, q1));
                    assert(extends(q, rest) == extends(q1, rest.drop_first()));
                    if extends(q, rest) {
                        assert(q.skip(rest.len() as int) == q1.skip(rest.drop_first().len() as int));
                        assert(c1.entries().contains_key(q1) == c.entries().contains_key(
                            q1.skip(rest.drop_first().len() as int),
                        ));
                    } else {
                        assert(c1.entries().contains_key(q1) == c0.entries().contains_key(q1));
                    }
                    if n.entries().contains_key(q) {
                        assert(n.entries()[q] == c1.entries()[q1]);
                        if !extends(q, rest) {
                            assert(c1.entries().contains_key(q1) == c0.entries().contains_key(q1));
                            assert(c1.entries()[q1] == c0.entries()[q1]);
                            assert(c0.entries()[q1] == n0.entries()[q]);
                        } else {
                            assert(q.skip(rest.len() as int) == q1.skip(rest.drop_first().len() as int));
                        }
                    }
                    assert(n.entries().contains_key(q) == put_entries(n0.entries(), rest, c.entries()).contains_key(q));
                    assert(same_entry(n.entries(), q, put_entries(n0.entries(), rest, c.entries()), q));
                } else {
                    lemma_extends_other(q, rest);
                    assert(n.entries().contains_key(q) == put_entries(n0.entries(), rest, c.entries()).contains_key(q));
                    assert(same_entry(n.entries(), q, put_entries(n0.entries(), rest, c.entries()), q));
                }
            }
            assert(n.entries() =~= put_entries(n0.entries(), rest, c.entries()));
        }
    }
}

} // verus!

verus! {

// ---------------------------------------------------------------------
// Facts used by the tree's operations
// ---------------------------------------------------------------------

/// Following `o + s` is following `o`, then `s` from where `o` leads.
pub proof fn lemma_reach_append(n: NNode, o: Seq<Seq<char>>, s: Seq<Seq<char>>)
    ensures
        reach(n, o + s) == match reach(n, o) {
            Some(x) => reach(x, s),
            None => None,
        },
    decreases o.len(),
{
    if o.len() > 0 {
        assert((o + s)[0] == o[0]);
        assert((o + s).drop_first() =~= o.drop_first() + s);
        match child_named(n.children@, o[0]) {
            Some(c) => lemma_reach_append(c, o.drop_first(), s),
            None => {},
        }
    } else {
        assert(o + s =~= s);
    }
}

/// Removing what a node does not hold changes nothing.
proof fn lemma_remove_absent(n: NNode, o: Seq<Seq<char>>)
    requires
        reach(n, o) is None,
    ensures
        remove_entries(n.entries(), o) == n.entries(),
{
    assert forall|q: Seq<Seq<char>>|
        #![trigger n.entries().contains_key(q)]
        n.entries().contains_key(q) implies !extends(q, o) by {
        if extends(q, o) {
            lemma_unreached_below(n, o, q);
        }
    }
    assert(remove_entries(n.entries(), o) =~= n.entries());
}

/// What `m` holds below `o`, relative to `o`.
pub open spec fn sub_entries(m: Entries, o: Seq<Seq<char>>) -> Entries {
    Map::new(|s: Seq<Seq<char>>| m.contains_key(o + s), |s: Seq<Seq<char>>| m[o + s])
}

proof fn lemma_sub_entries(n: NNode, o: Seq<Seq<char>>)
    requires
        reach(n, o) is Some,
    ensures
        reach(n, o).unwrap().entries() == sub_entries(n.entries(), o),
{
    let x = reach(n, o).unwrap();
    assert forall|s: Seq<Seq<char>>|
        #![trigger x.entries().contains_key(s)]
        #![trigger sub_entries(n.entries(), o).contains_key(s)]
        same_entry(x.entries(), s, sub_entries(n.entries(), o), s) by {
        lemma_reach_append(n, o, s);
    }
    assert(x.entries() =~= sub_entries(n.entries(), o));
}

/// A node's name is not part of what lies below it.
proof fn lemma_renamed(n: NNode, n2: NNode)
    requires
        n.wf(),
        n2.children == n.children,
        n2.node_type == n.node_type,
    ensures
        n2.wf(),
        n2.entries() == n.entries(),
{
    assert forall|p: Seq<Seq<char>>|
        #![trigger reach(n2, p)]
        p.len() > 0 ==> reach(n2, p) == reach(n, p) by {}
    assert(reach(n, Seq::empty()) == Some(n));
    assert(reach(n2, Seq::empty()) == Some(n2));
    assert forall|p: Seq<Seq<char>>| #[trigger] reach(n2, p) is Some implies local_wf(reach(n2, p).unwrap()) by {
        assert(reach(n, p) is Some);
    }
    assert forall|p: Seq<Seq<char>>|
        #![trigger n2.entries().contains_key(p)]
        #![trigger n.entries().contains_key(p)]
        same_entry(n2.entries(), p, n.entries(), p) by {}
    assert(n2.entries() =~= n.entries());
}

/// The first `n` of `v`, copied.
fn prefix_of(v: &Vec<String>, n: usize) -> (r: Vec<String>)
    requires
        n <= v@.len(),
    ensures
        views(r@) == views(v@).take(n as int),
{
    let mut r: Vec<String> = Vec::new();
    for i in 0..n
        invariant
            n <= v@.len(),
            views(r@) == views(v@).take(i as int),
    {
        let ghost before = r@;
        r.push(v[i].clone());
        assert(views(r@) =~= views(before).push(v@[i as int]@));
        assert(views(v@).take(i + 1) =~= views(v@).take(i as int).push(v@[i as int]@));
    }
    r
}

/// `a[from..]` is a prefix of `b[from..]`.
pub(crate) fn tail_is_prefix(a: &Vec<String>, b: &Vec<String>, from: usize) -> (r: bool)
    requires
        from <= a@.len(),
        from <= b@.len(),
    ensures
        r == extends(views(b@).skip(from as int), views(a@).skip(from as int)),
{
    let ghost sa = views(a@).skip(from as int);
    let ghost sb = views(b@).skip(from as int);
    if a.len() > b.len() {
        return false;
    }
    let mut i = from;
    while i < a.len()
        invariant
            from <= i <= a@.len() <= b@.len(),
            sa == views(a@).skip(from as int),
            sb == views(b@).skip(from as int),
            forall|j: int| 0 <= j < i - from ==> #[trigger] sa[j] == sb[j],
        decreases a@.len() - i,
    {
        if a[i] != b[i] {
            assert(sa[i - from] != sb[i - from]);
            assert(sb.take(sa.len() as int)[i - from] != sa[i - from]);
            return false;
        }
        i = i + 1;
    }
    assert(sb.take(sa.len() as int) =~= sa);
    true
}

// ---------------------------------------------------------------------
// The tree
// ---------------------------------------------------------------------

/// A tree of paths. Its root is the first component of the first path
/// added; each later component is a child of the one before.
#[derive(Debug)]
pub struct NTree {
    pub prefix: String,
    pub root: Option<NNode>,
}

/// What a tree holds: nothing, or the name of its root and the entries
/// below the root.
pub type TreeView = Option<(Seq<char>, Entries)>;

impl View for NTree {
    type V = TreeView;

    open spec fn view(&self) -> TreeView {
        match self.root {
            None => None,
            Some(r) => Some((r.name@, r.entries())),
        }
    }
}

/// The type of the entry at the components `cs`: the first component
/// stands for the root, whatever its name; the others lead down from it.
pub open spec fn lookup(v: TreeView, cs: Seq<Seq<char>>) -> Option<NodeType> {
    if cs.len() == 0 {
        None
    } else {
        match v {
            None => None,
            Some((_, m)) => if m.contains_key(cs.drop_first()) {
                Some(m[cs.drop_first()])
            } else {
                None
            },
        }
    }
}

/// The tree after adding the components `cs`, the last of type `ft`: an
/// empty tree first gets a root named `cs[0]` (of type `ft` if that is
/// all of `cs`, else a directory); then the rest is added below the root.
pub open spec fn added(v: TreeView, cs: Seq<Seq<char>>, ft: NodeType) -> TreeView {
    if cs.len() == 0 {
        v
    } else {
        let (nm, m) = match v {
            None => (
                cs[0],
                Map::<Seq<Seq<char>>, NodeType>::empty().insert(
                    Seq::empty(),
                    if cs.len() == 1 { ft } else { NodeType::Directory },
                ),
            ),
            Some(x) => x,
        };
        Some((nm, add_entries(m, cs.drop_first(), ft)))
    }
}

/// The tree after deleting the components `cs`, and whether something
/// was deleted: one component or none clears the whole tree; more remove
/// the entry they reach, with everything below it.
pub open spec fn deleted(v: TreeView, cs: Seq<Seq<char>>) -> (TreeView, bool) {
    if cs.len() <= 1 {
        (None, v is Some)
    } else {
        match v {
            None => (None, false),
            Some((nm, m)) => (Some((nm, remove_entries(m, cs.drop_first()))), m.contains_key(cs.drop_first())),
        }
    }
}

/// The tree after moving the entry at `oc` to `nc`, and the answer:
/// both must have a parent in the tree and `oc` must be present, else
/// nothing changes and the answer is `false`. Then the entry is taken
/// out; if the new parent is a file it is lost and the answer is
/// `false`; if the new parent lay inside what was taken out, it is lost
/// and the answer is `true`; otherwise it replaces whatever was at `nc`.
pub open spec fn moved(v: TreeView, oc: Seq<Seq<char>>, nc: Seq<Seq<char>>) -> (TreeView, bool) {
    if oc.len() <= 1 || nc.len() <= 1 {
        (v, false)
    } else {
        match v {
            None => (v, false),
            Some((nm, m)) => {
                let o = oc.drop_first();
                let t = nc.drop_first();
                let np = t.drop_last();
                if !m.contains_key(o.drop_last()) || !m.contains_key(np) || !m.contains_key(o) {
                    (v, false)
                } else {
                    let m1 = remove_entries(m, o);
                    if m[np] != NodeType::Directory {
                        (Some((nm, m1)), false)
                    } else if extends(np, o) {
                        (Some((nm, m1)), true)
                    } else {
                        (Some((nm, put_entries(m1, t, sub_entries(m, o)))), true)
                    }
                }
            },
        }
    }
}

impl NTree {
    /// The root, when there is one, is well formed.
    pub open spec fn wf(self) -> bool {
        self.root matches Some(r) ==> r.wf()
    }

    /// An empty tree for paths under `prefix`.
    pub fn new(prefix: String) -> (r: NTree)
        ensures
            r.wf(),
            r.prefix@ == prefix@,
            r@ is None,
    {
        NTree { prefix, root: None }
    }

    /// Adds the path `canonical`, whose last component has type
    /// `final_type`, as `added` says.
    pub fn add_path(&mut self, canonical: &str, final_type: NodeType)
        requires
            old(self).wf(),
        ensures
            final(self).wf(),
            final(self).prefix == old(self).prefix,
            final(self)@ == added(old(self)@, path_components(canonical@), final_type),
    {
        let comps = components(canonical);
        if comps.len() == 0 {
            return;
        }
        let mut root = match self.root.take() {
            Some(r) => r,
            None => {
                let ty = if comps.len() == 1 { final_type } else { NodeType::Directory };
                let r = NNode::new(comps[0].clone(), ty);
                proof {
                    lemma_entries_leaf(r, Seq::empty());
                    assert forall|q: Seq<Seq<char>>|
                        #![trigger r.entries().contains_key(q)]
                        same_entry(r.entries(), q, Map::<Seq<Seq<char>>, NodeType>::empty().insert(Seq::empty(), ty), q) by {
                        lemma_entries_leaf(r, q);
                        if q.len() == 0 {
                            assert(q =~= Seq::<Seq<char>>::empty());
                        }
                    }
                    assert(r.entries() =~= Map::<Seq<Seq<char>>, NodeType>::empty().insert(Seq::empty(), ty));
                }
                r
            },
        };
        assert(views(comps@).skip(1) =~= path_components(canonical@).drop_first());
        node_add(&mut root, &comps, 1, final_type);
        self.root = Some(root);
    }

    /// The node at `path`, if the tree holds one there.
    pub fn find(&self, path: &str) -> (r: Option<&NNode>)
        requires
            self.wf(),
        ensures
            r is Some <==> lookup(self@, path_components(path@)) is Some,
            r matches Some(x) ==> Some(*x) == reach(self.root.unwrap(), path_components(path@).drop_first()),
            r matches Some(x) ==> lookup(self@, path_components(path@)) == Some(x.node_type),
    {
        let comps = components(path);
        if comps.len() == 0 {
            return None;
        }
        assert(views(comps@).skip(1) =~= path_components(path@).drop_first());
        match &self.root {
            None => None,
            Some(root) => node_find(root, &comps, 1),
        }
    }

    /// Whether the tree holds an entry at `path`.
    pub fn path_exists(&self, path: &str) -> (r: bool)
        requires
            self.wf(),
        ensures
            r == lookup(self@, path_components(path@)) is Some,
    {
        self.find(path).is_some()
    }

    /// Whether the tree holds a directory at `path`.
    pub fn is_dir(&self, path: &str) -> (r: bool)
        requires
            self.wf(),
        ensures
            r == (lookup(self@, path_components(path@)) == Some(NodeType::Directory)),
    {
        match self.find(path) {
            Some(node) => node.is_dir(),
            None => false,
        }
    }

    /// Whether the tree holds a file at `path`.
    pub fn is_file(&self, path: &str) -> (r: bool)
        requires
            self.wf(),
        ensures
            r == (lookup(self@, path_components(path@)) == Some(NodeType::File)),
    {
        match self.find(path) {
            Some(node) => node.is_file(),
            None => false,
        }
    }

    /// Deletes the entry at `path` with everything below it, as `deleted`
    /// says; a path of one component or none clears the tree.
    pub fn delete_path(&mut self, path: &str) -> (r: bool)
        requires
            old(self).wf(),
        ensures
            final(self).wf(),
            final(self).prefix == old(self).prefix,
            (final(self)@, r) == deleted(old(self)@, path_components(path@)),
    {
        let comps = components(path);
        if comps.len() <= 1 {
            let had = self.root.is_some();
            self.root = None;
            return had;
        }
        let mut root = match self.root.take() {
            Some(r) => r,
            None => return false,
        };
        assert(views(comps@).skip(1) =~= path_components(path@).drop_first());
        let taken = node_take(&mut root, &comps, 1);
        self.root = Some(root);
        taken.is_some()
    }

    /// Moves the entry at `old_path` to `new_path`, as `moved` says.
    pub fn update_path(&mut self, old_path: &str, new_path: &str) -> (r: bool)
        requires
            old(self).wf(),
        ensures
            final(self).wf(),
            final(self).prefix == old(self).prefix,
            (final(self)@, r) == moved(old(self)@, path_components(old_path@), path_components(new_path@)),
    {
        let oc = components(old_path);
        let nc = components(new_path);
        if oc.len() == 0 || nc.len() == 0 {
            return false;
        }
        if oc.len() == 1 {
            return false;
        }
        if nc.len() == 1 {
            // The new parent would be named by no component at all.
            return false;
        }
        let ghost o = views(oc@).drop_first();
        let ghost t = views(nc@).drop_first();
        let ghost np = t.drop_last();
        let old_parent = prefix_of(&oc, oc.len() - 1);
        let new_parent = prefix_of(&nc, nc.len() - 1);
        assert(views(old_parent@).skip(1) =~= o.drop_last());
        assert(views(new_parent@).skip(1) =~= np);
        assert(views(oc@).skip(1) =~= o);
        assert(views(nc@).skip(1) =~= t);
        let mut root = match self.root.take() {
            Some(r) => r,
            None => return false,
        };
        let ghost r0 = root;
        let parent_found = node_find(&root, &old_parent, 1).is_some();
        let new_parent_type = match node_find(&root, &new_parent, 1) {
            Some(x) => Some(x.node_type),
            None => None,
        };
        if !parent_found || new_parent_type.is_none() {
            self.root = Some(root);
            return false;
        }
        let taken = node_take(&mut root, &oc, 1);
        let mut node = match taken {
            Some(x) => x,
            None => {
                proof {
                    lemma_remove_absent(r0, o);
                }
                self.root = Some(root);
                return false;
            },
        };
        let ghost x0 = node;
        node.name = nc[nc.len() - 1].clone();
        proof {
            lemma_renamed(x0, node);
            lemma_sub_entries(r0, o);
        }
        let moved_into_itself = tail_is_prefix(&oc, &new_parent, 1);
        if new_parent_type != Some(NodeType::Directory) {
            self.root = Some(root);
            return false;
        }
        if moved_into_itself {
            self.root = Some(root);
            return true;
        }
        proof {
            assert(r0.entries().contains_key(np));
            assert(r0.entries()[np] == NodeType::Directory);
            assert(root.entries().contains_key(np));
            assert(root.entries()[np] == NodeType::Directory);
            assert(reach(root, np) is Some);
            assert(views(nc@).skip(1).drop_last() == np);
            assert(nc@[nc@.len() - 1]@ == views(nc@)[nc@.len() - 1]);
        }
        node_put(&mut root, &nc, 1, node);
        self.root = Some(root);
        true
    }

    /// The names of the entries directly below `path` (none if the tree
    /// holds nothing there), each once.
    pub fn children(&self, path: &str) -> (r: Vec<String>)
        requires
            self.wf(),
        ensures
            views(r@).no_duplicates(),
            lookup(self@, path_components(path@)) is None ==> r@.len() == 0,
            lookup(self@, path_components(path@)) is Some ==> forall|nm: Seq<char>|
                views(r@).contains(nm) <==> lookup(self@, path_components(path@).push(nm)) is Some,
    {
        let ghost pc = path_components(path@);
        let node = match self.find(path) {
            Some(node) => node,
            None => {
                return Vec::new();
            },
        };
        let mut r: Vec<String> = Vec::new();
        for i in 0..node.children.len()
            invariant
                views(r@) == node.children@.take(i as int).map_values(|c: NNode| c.name@),
        {
            let ghost before = r@;
            r.push(node.children[i].name.clone());
            assert(views(r@) =~= views(before).push(node.children@[i as int].name@));
            assert(node.children@.take(i + 1).map_values(|c: NNode| c.name@) =~= node.children@.take(
                i as int,
            ).map_values(|c: NNode| c.name@).push(node.children@[i as int].name@));
        }
        proof {
            let root = self.root.unwrap();
            let x = *node;
            let cs = x.children@;
            assert(cs.take(cs.len() as int) =~= cs);
            lemma_reach_prefix(root, pc.drop_first(), 0);
            assert(root.wf());
            assert(local_wf(x));
            assert(views(r@) == cs.map_values(|c: NNode| c.name@));
            assert forall|a: int, b: int|
                0 <= a < views(r@).len() && 0 <= b < views(r@).len() && a != b implies views(r@)[a]
                != views(r@)[b] by {
                assert(cs[a].name@ != cs[b].name@);
            }
            assert forall|nm: Seq<char>|
                views(r@).contains(nm) <==> lookup(self@, pc.push(nm)) is Some by {
                lemma_reach_append(root, pc.drop_first(), seq![nm]);
                assert(pc.push(nm).drop_first() =~= pc.drop_first() + seq![nm]);
                lemma_reach_cons(x, nm, Seq::empty());
                assert(seq![nm] =~= seq![nm] + Seq::<Seq<char>>::empty());
                if views(r@).contains(nm) {
                    let a = choose|a: int| 0 <= a < views(r@).len() && views(r@)[a] == nm;
                    lemma_child_named_at(cs, a);
                }
                if child_named(cs, nm) is Some {
                    let a = choose|a: int| 0 <= a < cs.len() && #[trigger] cs[a].name@ == nm;
                    assert(views(r@)[a] == nm);
                }
            }
        }
        r
    }

    /// Empties the tree.
    pub fn clear(&mut self)
        ensures
            final(self)@ is None,
            final(self).wf(),
            final(self).prefix == old(self).prefix,
    {
        self.root = None;
    }

    /// `suffix` joined onto `base`, as `PathBuf::push` joins them.
    pub fn append_path(&self, base: &str, suffix: &str) -> (r: String)
        ensures
            r@ == push_path(base@, suffix@),
    {
        push_path_exec(base.to_owned(), &suffix.to_owned())
    }

    /// `path` without its last `count` components (the empty path when
    /// it has no more than `count`).
    pub fn trim_last_n(&self, path: &str, count: usize) -> (r: String)
        ensures
            count >= raw_components(path@).len() ==> r@ == Seq::<char>::empty(),
            count < raw_components(path@).len() ==> r@ == render(
                raw_components(path@).take(raw_components(path@).len() - count),
            ),
    {
        let comps = raw_path_components(path);
        if count >= comps.len() {
            return String::new();
        }
        render_exec(&comps, comps.len() - count)
    }
}

} // verus!
