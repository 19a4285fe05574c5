//! What the tree's operations promise together.
use vstd::prelude::*;
use crate::fpath::{
    add_entries, added, child_named, deleted, depth_from, extends, lemma_depth_bound,
    lemma_depth_contains, lemma_reach_append, lemma_reach_prefix, local_wf, lookup, moved,
    present_depth, put_entries, reach, remove_entries, same_entry, sub_entries, Entries, NNode,
    NTree, NodeType, is_absolute, is_name, names_of, path_components, push_path, raw_components,
    render, starts_with_cur_dir,
};
use crate::text::{lemma_split_on_nonempty, lemma_split_single, split_on};

verus! {

proof fn lemma_depth_prefixes(m: Entries, rest: Seq<Seq<char>>, j: nat, k: int)
    requires
        j <= rest.len(),
        j < k <= depth_from(m, rest, j),
    ensures
        m.contains_key(rest.take(k)),
    decreases rest.len() - j,
{
    if j < rest.len() && m.contains_key(rest.take(j + 1 as int)) {
        if k > j + 1 {
            lemma_depth_prefixes(m, rest, j + 1, k);
        }
    }
}

proof fn lemma_depth_stop(m: Entries, rest: Seq<Seq<char>>, j: nat)
    requires
        j <= rest.len(),
        depth_from(m, rest, j) < rest.len(),
    ensures
        !m.contains_key(rest.take(depth_from(m, rest, j) + 1 as int)),
    decreases rest.len() - j,
{
    if j < rest.len() && m.contains_key(rest.take(j + 1 as int)) {
        lemma_depth_stop(m, rest, j + 1);
    }
}

proof fn lemma_depth_full(m: Entries, rest: Seq<Seq<char>>, j: nat)
    requires
        j <= rest.len(),
        forall|k: int| j < k <= rest.len() ==> m.contains_key(#[trigger] rest.take(k)),
    ensures
        depth_from(m, rest, j) == rest.len(),
    decreases rest.len() - j,
{
    if j < rest.len() {
        assert(m.contains_key(rest.take(j + 1 as int)));
        lemma_depth_full(m, rest, j + 1);
    }
}

/// The entries below a well-formed node are closed under prefixes.
proof fn lemma_entries_prefix(n: NNode, q: Seq<Seq<char>>, k: int)
    requires
        0 <= k <= q.len(),
        n.entries().contains_key(q),
    ensures
        n.entries().contains_key(q.take(k)),
{
    lemma_reach_prefix(n, q, k);
}

/// Adding a path never removes an entry nor changes its type.
pub proof fn law_add_keeps_entries(t: NTree, cs: Seq<Seq<char>>, ft: NodeType, q: Seq<Seq<char>>)
    requires
        t.wf(),
        lookup(t@, q) is Some,
    ensures
        lookup(added(t@, cs, ft), q) == lookup(t@, q),
{
}

/// After adding a path, the tree holds it: with its old type if it was
/// there, else with the type given; unless a file stands above it.
pub proof fn law_add_then_present(t: NTree, cs: Seq<Seq<char>>, ft: NodeType)
    requires
        t.wf(),
        cs.len() > 0,
        forall|k: int| 1 <= k < cs.len() ==> lookup(t@, #[trigger] cs.take(k)) != Some(NodeType::File),
    ensures
        lookup(added(t@, cs, ft), cs) == if lookup(t@, cs) is Some {
            lookup(t@, cs)
        } else {
            Some(ft)
        },
{
    let rest = cs.drop_first();
    assert(rest.take(0) =~= Seq::<Seq<char>>::empty());
    assert(rest.take(rest.len() as int) =~= rest);
    assert(extends(rest, rest));
    match t@ {
        None => {
            let t0 = if cs.len() == 1 { ft } else { NodeType::Directory };
            let m0 = Map::<Seq<Seq<char>>, NodeType>::empty().insert(Seq::empty(), t0);
            if rest.len() > 0 {
                assert(rest.take(1).len() == 1);
                assert(!m0.contains_key(rest.take(1)));
                assert(present_depth(m0, rest) == 0);
                assert(rest.take(rest.len() as int) =~= rest);
            }
        },
        Some((nm, m)) => {
            let r = t.root.unwrap();
            assert(reach(r, Seq::empty()) == Some(r));
            lemma_depth_bound(m, rest, 0);
            lemma_depth_contains(m, rest, 0);
            let d = present_depth(m, rest);
            assert(rest.take(rest.len() as int) =~= rest);
            if d < rest.len() {
                lemma_depth_stop(m, rest, 0);
                if m.contains_key(rest) {
                    lemma_entries_prefix(r, rest, d + 1 as int);
                }
                assert(cs.take(d + 1 as int).drop_first() =~= rest.take(d as int));
                assert(lookup(t@, cs.take(d + 1 as int)) != Some(NodeType::File));
                assert(extends(rest, rest));
            }
        },
    }
}

/// Adding the same path twice is adding it once.
pub proof fn law_add_idempotent(t: NTree, cs: Seq<Seq<char>>, ft: NodeType)
    requires
        t.wf(),
    ensures
        added(added(t@, cs, ft), cs, ft) == added(t@, cs, ft),
{
    if cs.len() > 0 {
        let rest = cs.drop_first();
        let (nm, m) = match t@ {
            None => (
                cs[0],
                Map::<Seq<Seq<char>>, NodeType>::empty().insert(
                    Seq::empty(),
                    if cs.len() == 1 { ft } else { NodeType::Directory },
                ),
            ),
            Some(x) => x,
        };
        if t@ is Some {
            let r = t.root.unwrap();
            assert(reach(r, Seq::empty()) == Some(r));
        }
        assert(m.contains_key(Seq::empty()));
        let m1 = add_entries(m, rest, ft);
        let d = present_depth(m, rest);
        lemma_depth_bound(m, rest, 0);
        if d < rest.len() && m[rest.take(d as int)] == NodeType::Directory {
            assert forall|k: int| 0 < k <= rest.len() implies m1.contains_key(#[trigger] rest.take(k)) by {
                if k <= d {
                    lemma_depth_prefixes(m, rest, 0, k);
                } else {
                    assert(rest.take(k).len() == k);
                    assert(rest.take(rest.len() as int).take(k) =~= rest.take(k));
                    assert(extends(rest, rest.take(k)));
                }
            }
            lemma_depth_full(m1, rest, 0);
        }
        assert(added(t@, cs, ft) == Some((nm, m1)));
    }
}

/// Deleting a path answers whether the tree held it, removes it with all
/// below it, and keeps everything else.
pub proof fn law_delete(t: NTree, cs: Seq<Seq<char>>, q: Seq<Seq<char>>)
    requires
        t.wf(),
        cs.len() > 0,
    ensures
        deleted(t@, cs).1 == (lookup(t@, cs) is Some),
        q.len() > 0 && extends(q.drop_first(), cs.drop_first()) ==> lookup(deleted(t@, cs).0, q) is None,
        cs.len() >= 2 && !extends(q.drop_first(), cs.drop_first()) ==> lookup(deleted(t@, cs).0, q)
            == lookup(t@, q),
{
    if t@ is Some {
        let r = t.root.unwrap();
        assert(reach(r, Seq::empty()) == Some(r));
    }
}

/// Deleting a path that was just added where nothing stood, under a
/// directory already present, restores the tree and answers `true`.
pub proof fn law_add_then_delete(t: NTree, cs: Seq<Seq<char>>, ft: NodeType)
    requires
        t.wf(),
        cs.len() >= 2,
        lookup(t@, cs.drop_last()) == Some(NodeType::Directory),
        lookup(t@, cs) is None,
    ensures
        deleted(added(t@, cs, ft), cs) == (t@, true),
{
    let r = t.root.unwrap();
    let m = r.entries();
    let nm = r.name@;
    let rest = cs.drop_first();
    let par = rest.drop_last();
    assert(cs.drop_last().drop_first() =~= par);
    assert(rest.take(rest.len() - 1) =~= par);
    assert(rest.take(rest.len() as int) =~= rest);
    assert forall|k: int| 0 < k <= rest.len() - 1 implies m.contains_key(#[trigger] rest.take(k)) by {
        lemma_entries_prefix(r, par, k);
        assert(par.take(k) =~= rest.take(k));
    }
    assert(depth_from(m, rest, 0) == rest.len() - 1) by {
        lemma_depth_bound(m, rest, 0);
        if depth_from(m, rest, 0) < rest.len() - 1 {
            lemma_depth_stop(m, rest, 0);
            let d = depth_from(m, rest, 0);
            assert(m.contains_key(rest.take(d + 1 as int)));
        } else if depth_from(m, rest, 0) == rest.len() {
            lemma_depth_contains(m, rest, 0);
            assert(rest.take(0) =~= Seq::<Seq<char>>::empty());
            assert(reach(r, Seq::empty()) == Some(r));
        }
    }
    let m1 = add_entries(m, rest, ft);
    assert forall|q: Seq<Seq<char>>| #[trigger] m.contains_key(q) implies !extends(q, rest) by {
        if extends(q, rest) {
            lemma_entries_prefix(r, q, rest.len() as int);
        }
    }
    assert forall|q: Seq<Seq<char>>|
        #![trigger m.contains_key(q)]
        #![trigger remove_entries(m1, rest).contains_key(q)]
        same_entry(remove_entries(m1, rest), q, m, q) by {
        if extends(rest, q) && q.len() > rest.len() - 1 && !m.contains_key(q) {
            assert(q =~= rest);
        }
    }
    assert(remove_entries(m1, rest) =~= m);
    assert(extends(rest, rest));
}

/// A successful move to a place outside what is moved puts, below the new
/// path, exactly what was below the old one; and the old path is gone
/// unless the new one lies at or above it.
pub proof fn law_move(t: NTree, oc: Seq<Seq<char>>, nc: Seq<Seq<char>>, s: Seq<Seq<char>>)
    requires
        t.wf(),
        moved(t@, oc, nc).1,
        !extends(nc.drop_first().drop_last(), oc.drop_first()),
    ensures
        lookup(moved(t@, oc, nc).0, nc + s) == lookup(t@, oc + s),
        !extends(oc.drop_first(), nc.drop_first()) ==> lookup(moved(t@, oc, nc).0, oc) is None,
{
    let o = oc.drop_first();
    let tt = nc.drop_first();
    assert((nc + s).drop_first() =~= tt + s);
    assert((oc + s).drop_first() =~= o + s);
    assert(extends(tt + s, tt)) by {
        assert((tt + s).take(tt.len() as int) =~= tt);
    }
    assert((tt + s).skip(tt.len() as int) =~= s);
    assert(o.take(o.len() as int) =~= o);
    assert(extends(o, o));
}

/// Below a well-formed node, the parent of every entry is a directory.
proof fn lemma_parent_dir(n: NNode, q: Seq<Seq<char>>)
    requires
        n.wf(),
        n.entries().contains_key(q),
        q.len() > 0,
    ensures
        n.entries().contains_key(q.drop_last()),
        n.entries()[q.drop_last()] == NodeType::Directory,
{
    let p = q.drop_last();
    let x = q.last();
    assert(q =~= p + seq![x]);
    lemma_reach_append(n, p, seq![x]);
    let y = reach(n, p).unwrap();
    assert(reach(y, seq![x]) is Some);
    assert(child_named(y.children@, x) is Some);
    assert(local_wf(y));
    assert(y.children@.len() > 0);
}

/// In a well-formed tree, the parent of every entry below the root is a
/// directory.
pub proof fn law_parent_is_dir(t: NTree, cs: Seq<Seq<char>>)
    requires
        t.wf(),
        cs.len() >= 2,
        lookup(t@, cs) is Some,
    ensures
        lookup(t@, cs.drop_last()) == Some(NodeType::Directory),
{
    let root = t.root.unwrap();
    let q = cs.drop_first();
    lemma_parent_dir(root, q);
    assert(cs.drop_last().drop_first() =~= q.drop_last());
}

/// A move to a new place, where nothing stood and which is neither above
/// nor below the old one, is undone by the move back: the tree is as it
/// was, and the move back answers `true`.
pub proof fn law_move_back(t: NTree, oc: Seq<Seq<char>>, nc: Seq<Seq<char>>)
    requires
        t.wf(),
        moved(t@, oc, nc).1,
        lookup(t@, nc) is None,
        !extends(oc.drop_first(), nc.drop_first()),
        !extends(nc.drop_first(), oc.drop_first()),
    ensures
        moved(moved(t@, oc, nc).0, nc, oc) == (t@, true),
{
    let root = t.root.unwrap();
    let nm = root.name@;
    let m = root.entries();
    let o = oc.drop_first();
    let tt = nc.drop_first();
    let np = tt.drop_last();
    let op = o.drop_last();
    // The first move takes what is at `o` and puts it at `tt`.
    assert(!extends(np, o)) by {
        if extends(np, o) {
            assert(tt.take(o.len() as int) =~= np.take(o.len() as int));
        }
    }
    let m1 = remove_entries(m, o);
    let m2 = put_entries(m1, tt, sub_entries(m, o));
    assert(moved(t@, oc, nc).0 == Some((nm, m2)));
    assert(!m.contains_key(tt));
    // The conditions of the move back hold.
    assert(!extends(np, tt));
    assert(!extends(op, tt)) by {
        if extends(op, tt) {
            assert(o.take(tt.len() as int) =~= op.take(tt.len() as int));
        }
    }
    assert(!extends(op, o));
    assert(m2.contains_key(np));
    assert(m2.contains_key(op));
    lemma_parent_dir(root, o);
    assert(m2[op] == NodeType::Directory);
    assert(extends(tt, tt)) by {
        assert(tt.take(tt.len() as int) =~= tt);
    }
    assert(tt.skip(tt.len() as int) =~= Seq::<Seq<char>>::empty());
    assert(o + Seq::<Seq<char>>::empty() =~= o);
    assert(m2.contains_key(tt));
    assert(nc.len() > 1 && oc.len() > 1);
    // What the move back gives is `m` again.
    let m3 = put_entries(remove_entries(m2, tt), o, sub_entries(m2, tt));
    assert(moved(Some((nm, m2)), nc, oc) == (Some((nm, m3)), true));
    assert forall|q: Seq<Seq<char>>| #[trigger] m3.contains_key(q) == m.contains_key(q) && (m.contains_key(q)
        ==> m3[q] == m[q]) by {
        if extends(q, o) {
            let s2 = q.skip(o.len() as int);
            assert(q =~= o + s2);
            assert(extends(tt + s2, tt)) by {
                assert((tt + s2).take(tt.len() as int) =~= tt);
            }
            assert((tt + s2).skip(tt.len() as int) =~= s2);
        } else {
            if m.contains_key(q) && extends(q, tt) {
                lemma_entries_prefix(root, q, tt.len() as int);
                assert(q.take(tt.len() as int) == tt);
            }
        }
    }
    assert(m3 =~= m);
}

// ---------------------------------------------------------------------
// Components of a rendered path
// ---------------------------------------------------------------------

/// A component that names an entry and holds no separator.
pub open spec fn plain(c: Seq<char>) -> bool {
    is_name(c) && forall|j: int| 0 <= j < c.len() ==> #[trigger] c[j] != '/'
}

/// The components of a path as `Path::components` gives them: a root, a
/// `.` or a plain name first, plain names after it.
pub open spec fn well_split(cs: Seq<Seq<char>>) -> bool {
    &&& cs.len() >= 1
    &&& cs[0] == seq!['/'] || cs[0] == seq!['.'] || plain(cs[0])
    &&& forall|i: int| 1 <= i < cs.len() ==> plain(#[trigger] cs[i])
}

/// No piece of `split_on(s, sep)` holds `sep`.
proof fn lemma_split_no_sep(s: Seq<char>, sep: char)
    ensures
        forall|i: int, j: int|
            0 <= i < split_on(s, sep).len() && 0 <= j < split_on(s, sep)[i].len() ==> #[trigger] split_on(
                s,
                sep,
            )[i][j] != sep,
    decreases s.len(),
{
    if s.len() > 0 {
        let rest = split_on(s.drop_last(), sep);
        lemma_split_no_sep(s.drop_last(), sep);
        lemma_split_on_nonempty(s.drop_last(), sep);
        let r = split_on(s, sep);
        assert forall|i: int, j: int| 0 <= i < r.len() && 0 <= j < r[i].len() implies #[trigger] r[i][j] != sep by {
            if s.last() != sep && i == rest.len() - 1 {
                let w = rest.last().push(s.last());
                assert(r[i] == w);
                if j < rest.last().len() {
                    assert(w[j] == rest[i][j]);
                }
            } else if i < rest.len() {
                assert(r[i] == rest[i]);
            }
        }
    }
}

/// Splitting at a separator between two texts splits each of them.
proof fn lemma_split_join(x: Seq<char>, y: Seq<char>, sep: char)
    ensures
        split_on(x + seq![sep] + y, sep) == split_on(x, sep) + split_on(y, sep),
    decreases y.len(),
{
    let s = x + seq![sep] + y;
    if y.len() == 0 {
        assert(s.drop_last() =~= x);
        assert(split_on(y, sep) =~= seq![Seq::<char>::empty()]);
        assert(split_on(s, sep) =~= split_on(x, sep) + split_on(y, sep));
    } else {
        assert(s.drop_last() =~= x + seq![sep] + y.drop_last());
        lemma_split_join(x, y.drop_last(), sep);
        lemma_split_on_nonempty(y.drop_last(), sep);
        let a = split_on(x, sep);
        let b = split_on(y.drop_last(), sep);
        if y.last() == sep {
            assert(split_on(s, sep) =~= a + b.push(Seq::<char>::empty()));
        } else {
            assert((a + b).update((a + b).len() - 1, (a + b).last().push(y.last())) =~= a + b.update(
                b.len() - 1,
                b.last().push(y.last()),
            ));
        }
    }
}

/// The names of two sequences of pieces, one after the other.
proof fn lemma_names_concat(a: Seq<Seq<char>>, b: Seq<Seq<char>>)
    ensures
        names_of(a + b) == names_of(a) + names_of(b),
    decreases b.len(),
{
    if b.len() == 0 {
        assert(a + b =~= a);
        assert(names_of(a) + names_of(b) =~= names_of(a));
    } else {
        assert((a + b).drop_last() =~= a + b.drop_last());
        lemma_names_concat(a, b.drop_last());
        if is_name(b.last()) {
            assert(names_of(a) + names_of(b.drop_last()).push(b.last()) =~= (names_of(a) + names_of(
                b.drop_last(),
            )).push(b.last()));
        }
    }
}

/// The names of one piece.
proof fn lemma_names_one(x: Seq<char>)
    ensures
        names_of(seq![x]) == if is_name(x) { seq![x] } else { Seq::<Seq<char>>::empty() },
{
    assert(seq![x].drop_last() =~= Seq::<Seq<char>>::empty());
    assert(seq![x].last() == x);
    assert(names_of(Seq::<Seq<char>>::empty()) == Seq::<Seq<char>>::empty());
    if is_name(x) {
        assert(Seq::<Seq<char>>::empty().push(x) =~= seq![x]);
    }
}

/// The names among pieces without separators are plain.
proof fn lemma_names_plain(segs: Seq<Seq<char>>)
    requires
        forall|i: int, j: int|
            0 <= i < segs.len() && 0 <= j < segs[i].len() ==> #[trigger] segs[i][j] != '/',
    ensures
        forall|i: int| 0 <= i < names_of(segs).len() ==> plain(#[trigger] names_of(segs)[i]),
    decreases segs.len(),
{
    if segs.len() > 0 {
        let d = segs.drop_last();
        assert forall|i: int, j: int| 0 <= i < d.len() && 0 <= j < d[i].len() implies #[trigger] d[i][j] != '/' by {
            assert(d[i] == segs[i]);
        }
        lemma_names_plain(d);
        let l = segs.last();
        assert forall|j: int| 0 <= j < l.len() implies #[trigger] l[j] != '/' by {
            assert(segs[segs.len() - 1][j] == l[j]);
        }
        let nd = names_of(d);
        assert forall|i: int| 0 <= i < names_of(segs).len() implies plain(#[trigger] names_of(segs)[i]) by {
            if i < nd.len() {
                assert(names_of(segs)[i] == nd[i]);
            } else {
                assert(names_of(segs)[i] == l);
            }
        }
    }
}

/// `Path::components` of any path are well split.
proof fn lemma_raw_well_split(p: Seq<char>)
    requires
        raw_components(p).len() >= 1,
    ensures
        well_split(raw_components(p)),
        !is_absolute(p) && !starts_with_cur_dir(p) ==> plain(raw_components(p)[0]),
{
    let segs = split_on(p, '/');
    lemma_split_no_sep(p, '/');
    lemma_names_plain(segs);
    let ns = names_of(segs);
    let cs = raw_components(p);
    if is_absolute(p) || starts_with_cur_dir(p) {
        assert forall|i: int| 1 <= i < cs.len() implies plain(#[trigger] cs[i]) by {
            assert(cs[i] == ns[i - 1]);
        }
    } else {
        assert(cs == ns);
        assert(plain(ns[0]));
    }
}

/// A path rendered from well-split components gives them back.
proof fn lemma_render(cs: Seq<Seq<char>>)
    requires
        well_split(cs),
    ensures
        render(cs).len() > 0,
        (render(cs).last() == '/') == (cs.len() == 1 && cs[0] == seq!['/']),
        is_absolute(render(cs)) == (cs[0] == seq!['/']),
        starts_with_cur_dir(render(cs)) == (cs[0] == seq!['.']),
        raw_components(render(cs)) == cs,
    decreases cs.len(),
{
    let s = render(cs);
    let c = cs.last();
    if cs.len() == 1 {
        assert(cs.drop_last() =~= Seq::<Seq<char>>::empty());
        assert(s =~= c);
        if c == seq!['/'] {
            lemma_split_join(Seq::<char>::empty(), Seq::<char>::empty(), '/');
            assert(Seq::<char>::empty() + seq!['/'] + Seq::<char>::empty() =~= c);
            lemma_split_single(Seq::<char>::empty(), '/');
            lemma_names_one(Seq::<char>::empty());
            lemma_names_concat(seq![Seq::<char>::empty()], seq![Seq::<char>::empty()]);
            assert(raw_components(s) =~= cs);
        } else if c == seq!['.'] {
            lemma_split_single(c, '/');
            lemma_names_one(c);
            assert(raw_components(s) =~= cs);
        } else {
            assert(c[0] != '/');
            lemma_split_single(c, '/');
            lemma_names_one(c);
            assert(c.len() >= 2 ==> c[1] != '/');
            assert(c.len() == 1 ==> c != seq!['.'] && c =~= seq![c[0]]);
            assert(!starts_with_cur_dir(s));
            assert(raw_components(s) =~= cs);
        }
    } else {
        let d = cs.drop_last();
        assert forall|i: int| 1 <= i < d.len() implies plain(#[trigger] d[i]) by {
            assert(d[i] == cs[i]);
        }
        assert(d[0] == cs[0]);
        lemma_render(d);
        let b = render(d);
        assert(plain(cs[cs.len() - 1]));
        assert(c[0] != '/');
        lemma_split_single(c, '/');
        lemma_names_one(c);
        let nd = if d[0] == seq!['/'] || d[0] == seq!['.'] { d.drop_first() } else { d };
        assert(names_of(split_on(b, '/')) == nd);
        if b.last() == '/' {
            assert(d.len() == 1 && d[0] == seq!['/']);
            assert(b =~= seq!['/']);
            assert(s =~= Seq::<char>::empty() + seq!['/'] + c);
            lemma_split_join(Seq::<char>::empty(), c, '/');
            lemma_split_single(Seq::<char>::empty(), '/');
            lemma_names_concat(seq![Seq::<char>::empty()], seq![c]);
            lemma_names_one(Seq::<char>::empty());
            assert(s[1] == c[0]);
            assert(raw_components(s) =~= cs);
        } else {
            assert(s =~= b + seq!['/'] + c);
            lemma_split_join(b, c, '/');
            lemma_names_concat(split_on(b, '/'), seq![c]);
            assert(s[0] == b[0]);
            if b.len() >= 2 {
                assert(s[1] == b[1]);
            } else {
                assert(s[1] == '/');
                assert(b =~= seq![b[0]]);
            }
            assert(!is_absolute(s) ==> !is_absolute(b));
            assert(starts_with_cur_dir(s) == starts_with_cur_dir(b));
            if cs[0] == seq!['/'] || cs[0] == seq!['.'] {
                assert(raw_components(s) =~= cs);
            } else {
                assert(raw_components(s) =~= cs);
            }
        }
        assert(s.last() == c.last());
    }
}

/// In a well-formed tree, the path that `trim_last_n(path, 1)` gives for
/// an entry two components or more below the root's name is a directory
/// of the tree: it names the entry's parent.
pub proof fn law_parent_path_is_dir(t: NTree, p: Seq<char>)
    requires
        t.wf(),
        path_components(p).len() >= 2,
        lookup(t@, path_components(p)) is Some,
    ensures
        1 < raw_components(p).len(),
        path_components(render(raw_components(p).take(raw_components(p).len() - 1)))
            == path_components(p).drop_last(),
        lookup(t@, path_components(render(raw_components(p).take(raw_components(p).len() - 1))))
            == Some(NodeType::Directory),
{
    let cs = raw_components(p);
    let k = cs.len() - 1;
    let pre = cs.take(k);
    lemma_raw_well_split(p);
    assert forall|i: int| 1 <= i < pre.len() implies plain(#[trigger] pre[i]) by {
        assert(pre[i] == cs[i]);
    }
    assert(pre[0] == cs[0]);
    lemma_render(pre);
    let q = render(pre);
    assert(raw_components(q) == pre);
    let qn = names_of(split_on(q, '/'));
    if is_absolute(p) {
        assert(is_absolute(q));
        assert(raw_components(q) == seq![seq!['/']] + qn);
        assert(qn =~= pre.drop_first());
        assert(path_components(q) =~= pre);
        assert(path_components(p).drop_last() =~= pre);
    } else if starts_with_cur_dir(p) {
        assert(!is_absolute(q) && starts_with_cur_dir(q));
        assert(raw_components(q) == seq![seq!['.']] + qn);
        assert(qn =~= pre.drop_first());
        assert(path_components(q) =~= pre.drop_first());
        assert(path_components(p).drop_last() =~= pre.drop_first());
    } else {
        assert(plain(pre[0]));
        assert(pre[0][0] != '/');
        assert(pre[0] != seq!['/'] && pre[0] != seq!['.']);
        assert(!is_absolute(q) && !starts_with_cur_dir(q));
        assert(raw_components(q) == qn);
        assert(path_components(q) =~= pre);
        assert(path_components(p).drop_last() =~= pre);
    }
    law_parent_is_dir(t, path_components(p));
}

} // verus!
