//! Running the body of a configuration function: its assignments go into
//! a new scope on the stack.
use vstd::prelude::*;
use crate::text::{
    begins_with, begins_with_chars, chars_of, find_chars, has, lines_chars, lines_of, replace_all,
    replace_chars, split_once, split_once_chars, string_of, trim, trim_chars, first_index, is_space,
    lead_spaces, lemma_first_index, lemma_lead_char, lemma_split_single, lemma_trim_around,
    lemma_trim_back, lemma_trim_front, occurs_at, trail_spaces,
};

verus! {

/// A binding: a variable's value (no parameters), or a function's body
/// and its parameter list.
pub type Binding = (String, Option<String>);

/// One scope: names bound in it, each once, in the order first bound.
pub type Scope = Vec<(String, Binding)>;

/// The view of a binding.
pub open spec fn binding_view(b: Binding) -> (Seq<char>, Option<Seq<char>>) {
    (b.0@, match b.1 {
        Some(p) => Some(p@),
        None => None,
    })
}

/// The view of a scope.
pub open spec fn scope_view(s: Seq<(String, Binding)>) -> Seq<(Seq<char>, (Seq<char>, Option<Seq<char>>))> {
    s.map_values(|e: (String, Binding)| (e.0@, binding_view(e.1)))
}

/// The view of a stack of scopes.
pub open spec fn stack_view(st: Seq<Scope>) -> Seq<Seq<(Seq<char>, (Seq<char>, Option<Seq<char>>))>> {
    st.map_values(|s: Scope| scope_view(s@))
}

/// The assignments `k := v` of a body, one per line that holds `:=`,
/// each side trimmed, in order.
pub open spec fn assignments(lines: Seq<Seq<char>>) -> Seq<(Seq<char>, Seq<char>)>
    decreases lines.len(),
{
    if lines.len() == 0 {
        Seq::empty()
    } else {
        let r = assignments(lines.drop_last());
        match split_once(trim(lines.last()), seq![':', '=']) {
            Some((k, v)) => r.push((trim(k), trim(v))),
            None => r,
        }
    }
}

/// The assignments of `body`.
pub open spec fn body_assignments(body: Seq<char>) -> Seq<(Seq<char>, Seq<char>)> {
    assignments(lines_of(body))
}

/// Some assignment takes its value from a function call (`k := @...`).
pub open spec fn calls_function(body: Seq<char>) -> bool {
    exists|i: int|
        0 <= i < body_assignments(body).len() && begins_with(#[trigger] body_assignments(body)[i].1, seq!['@'])
}

/// The index of the first entry of `sc` named `k`, or -1.
pub open spec fn name_pos(sc: Seq<(Seq<char>, (Seq<char>, Option<Seq<char>>))>, k: Seq<char>) -> int
    decreases sc.len(),
{
    if sc.len() == 0 {
        -1
    } else if name_pos(sc.drop_last(), k) >= 0 {
        name_pos(sc.drop_last(), k)
    } else if sc.last().0 == k {
        sc.len() - 1
    } else {
        -1
    }
}

/// The scope the assignments make, in turn: a later assignment to a
/// name replaces the value of an earlier one.
pub open spec fn scope_of(asg: Seq<(Seq<char>, Seq<char>)>) -> Seq<(Seq<char>, (Seq<char>, Option<Seq<char>>))>
    decreases asg.len(),
{
    if asg.len() == 0 {
        Seq::empty()
    } else {
        let sc = scope_of(asg.drop_last());
        let (k, v) = asg.last();
        let i = name_pos(sc, k);
        if i >= 0 {
            sc.update(i, (k, (v, None)))
        } else {
            sc.push((k, (v, None)))
        }
    }
}

/// All entries of a stack, bottom scope first.
pub open spec fn all_entries(st: Seq<Seq<(Seq<char>, (Seq<char>, Option<Seq<char>>))>>) -> Seq<(Seq<char>, (Seq<char>, Option<Seq<char>>))>
    decreases st.len(),
{
    if st.len() == 0 {
        Seq::empty()
    } else {
        all_entries(st.drop_last()) + st.last()
    }
}

/// The body with each variable `@k` replaced by its value, entry by
/// entry; `None` when a function's `@name` occurs in the body when its
/// entry is reached (its call would be run again on the same body).
pub open spec fn substituted_body(b: Seq<char>, es: Seq<(Seq<char>, (Seq<char>, Option<Seq<char>>))>) -> Option<Seq<char>>
    decreases es.len(),
{
    if es.len() == 0 {
        Some(b)
    } else {
        let (k, (v, p)) = es[0];
        match p {
            None => substituted_body(replace_all(b, seq!['@'] + k, v), es.drop_first()),
            Some(_) => if has(b, seq!['@'] + k) {
                None
            } else {
                substituted_body(b, es.drop_first())
            },
        }
    }
}

/// The body runs to its end: no value comes from a call, and no
/// function is called once the variables are put in.
pub open spec fn fxn_runs(body: Seq<char>, st: Seq<Seq<(Seq<char>, (Seq<char>, Option<Seq<char>>))>>) -> bool {
    &&& !calls_function(body)
    &&& substituted_body(body, all_entries(st.push(scope_of(body_assignments(body))))) is Some
}

} // verus!

verus! {

/// What testing a body needs of an entry: its name, its value, and
/// whether it is a function.
pub open spec fn entry_key(e: (Seq<char>, (Seq<char>, Option<Seq<char>>))) -> (Seq<char>, Seq<char>, bool) {
    (e.0, e.1.0, e.1.1 is Some)
}

/// The entries of `stack`, bottom scope first, as name, value, and
/// whether it is a function.
fn flat_entries(stack: &Vec<Scope>) -> (r: Vec<(Vec<char>, Vec<char>, bool)>)
    ensures
        r@.len() == all_entries(stack_view(stack@)).len(),
        forall|i: int|
            0 <= i < r@.len() ==> (#[trigger] r@[i].0@, r@[i].1@, r@[i].2) == entry_key(
                all_entries(stack_view(stack@))[i],
            ),
{
    let ghost sv = stack_view(stack@);
    let mut r: Vec<(Vec<char>, Vec<char>, bool)> = Vec::new();
    for i in 0..stack.len()
        invariant
            sv == stack_view(stack@),
            r@.len() == all_entries(sv.take(i as int)).len(),
            forall|m: int|
                0 <= m < r@.len() ==> (#[trigger] r@[m].0@, r@[m].1@, r@[m].2) == entry_key(
                    all_entries(sv.take(i as int))[m],
                ),
    {
        assert(sv.take(i + 1).drop_last() =~= sv.take(i as int));
        assert(sv.take(i + 1).last() == scope_view(stack@[i as int]@));
        let layer = &stack[i];
        let ghost r0 = r@;
        let ghost lv = scope_view(layer@);
        for j in 0..layer.len()
            invariant
                lv == scope_view(layer@),
                r@.len() == r0.len() + j,
                forall|m: int| 0 <= m < r0.len() ==> #[trigger] r@[m] == r0[m],
                forall|m: int|
                    0 <= m < j ==> (#[trigger] r@[r0.len() + m].0@, r@[r0.len() + m].1@, r@[r0.len()
                        + m].2) == entry_key(lv[m]),
        {
            let k = chars_of(layer[j].0.as_str());
            let v = chars_of(layer[j].1.0.as_str());
            let f = layer[j].1.1.is_some();
            r.push((k, v, f));
            assert(r@[r0.len() + j as int] == (k, v, f));
        }
        proof {
            let a = all_entries(sv.take(i as int));
            assert(all_entries(sv.take(i + 1)) == a + lv);
            assert forall|m: int|
                0 <= m < r@.len() implies (#[trigger] r@[m].0@, r@[m].1@, r@[m].2) == entry_key(
                (a + lv)[m],
            ) by {
                if m >= r0.len() {
                    assert(r@[r0.len() + (m - r0.len())] == r@[m]);
                }
            }
        }
    }
    assert(sv.take(sv.len() as int) =~= sv);
    r
}

/// The assignments of the lines, as `assignments` says.
fn assignments_exec(ls: &Vec<Vec<char>>) -> (r: Vec<(Vec<char>, Vec<char>)>)
    ensures
        r@.map_values(|p: (Vec<char>, Vec<char>)| (p.0@, p.1@)) == assignments(
            ls@.map_values(|l: Vec<char>| l@),
        ),
{
    let ghost lv = ls@.map_values(|l: Vec<char>| l@);
    let assign = vec![':', '='];
    let mut r: Vec<(Vec<char>, Vec<char>)> = Vec::new();
    for i in 0..ls.len()
        invariant
            lv == ls@.map_values(|l: Vec<char>| l@),
            assign@ == seq![':', '='],
            r@.map_values(|p: (Vec<char>, Vec<char>)| (p.0@, p.1@)) == assignments(lv.take(i as int)),
    {
        assert(lv.take(i + 1).drop_last() =~= lv.take(i as int));
        assert(lv.take(i + 1).last() == ls@[i as int]@);
        let line = trim_chars(&ls[i]);
        match split_once_chars(&line, &assign) {
            Some((k, v)) => {
                let ghost r0 = r@;
                let kt = trim_chars(&k);
                let vt = trim_chars(&v);
                r.push((kt, vt));
                assert(r@.map_values(|p: (Vec<char>, Vec<char>)| (p.0@, p.1@)) =~= r0.map_values(
                    |p: (Vec<char>, Vec<char>)| (p.0@, p.1@),
                ).push((kt@, vt@)));
            },
            None => {},
        }
    }
    assert(lv.take(lv.len() as int) =~= lv);
    r
}

proof fn lemma_name_pos(sc: Seq<(Seq<char>, (Seq<char>, Option<Seq<char>>))>, k: Seq<char>)
    ensures
        -1 <= name_pos(sc, k) < sc.len(),
        name_pos(sc, k) >= 0 ==> sc[name_pos(sc, k)].0 == k,
        name_pos(sc, k) == -1 ==> forall|i: int| 0 <= i < sc.len() ==> (#[trigger] sc[i]).0 != k,
        name_pos(sc, k) >= 0 ==> forall|i: int| 0 <= i < name_pos(sc, k) ==> (#[trigger] sc[i]).0 != k,
    decreases sc.len(),
{
    if sc.len() > 0 {
        lemma_name_pos(sc.drop_last(), k);
        assert forall|i: int| 0 <= i < sc.len() - 1 implies #[trigger] sc[i] == sc.drop_last()[i] by {}
    }
}

/// The scope that the assignments make, as `scope_of` says.
fn scope_exec(asg: &Vec<(Vec<char>, Vec<char>)>) -> (r: Scope)
    ensures
        scope_view(r@) == scope_of(asg@.map_values(|p: (Vec<char>, Vec<char>)| (p.0@, p.1@))),
{
    let ghost av = asg@.map_values(|p: (Vec<char>, Vec<char>)| (p.0@, p.1@));
    let mut sc: Scope = Vec::new();
    for i in 0..asg.len()
        invariant
            av == asg@.map_values(|p: (Vec<char>, Vec<char>)| (p.0@, p.1@)),
            scope_view(sc@) == scope_of(av.take(i as int)),
    {
        assert(av.take(i + 1).drop_last() =~= av.take(i as int));
        assert(av.take(i + 1).last() == (asg@[i as int].0@, asg@[i as int].1@));
        let k = string_of(&asg[i].0);
        let v = string_of(&asg[i].1);
        let ghost s0 = scope_view(sc@);
        proof {
            lemma_name_pos(s0, k@);
        }
        let mut found = false;
        let n = sc.len();
        for j in 0..n
            invariant
                i < asg@.len(),
                av == asg@.map_values(|p: (Vec<char>, Vec<char>)| (p.0@, p.1@)),
                k@ == asg@[i as int].0@,
                v@ == asg@[i as int].1@,
                n == sc@.len(),
                !found ==> scope_view(sc@) == s0,
                !found ==> forall|m: int| 0 <= m < j ==> (#[trigger] s0[m]).0 != k@,
                found ==> scope_view(sc@) == scope_of(av.take(i + 1)),
                s0 == scope_of(av.take(i as int)),
                av.take(i + 1).drop_last() == av.take(i as int),
                av.take(i + 1).last() == (k@, v@),
        {
            if !found && sc[j].0 == k {
                proof {
                    lemma_name_pos(s0, k@);
                    assert(s0[j as int].0 == k@);
                }
                let val = string_of(&asg[i].1);
                sc.set(j, (string_of(&asg[i].0), (val, None)));
                found = true;
                assert(scope_view(sc@) =~= s0.update(j as int, (k@, (v@, None))));
                assert(name_pos(s0, k@) == j as int);
                assert(scope_of(av.take(i + 1)) == s0.update(j as int, (k@, (v@, None))));
            }
        }
        if !found {
            proof {
                lemma_name_pos(s0, k@);
            }
            sc.push((k, (v, None)));
            assert(scope_view(sc@) =~= s0.push((k@, (v@, None))));
        }
    }
    assert(av.take(av.len() as int) =~= av);
    sc
}

} // verus!

verus! {

/// The entries of one scope as name, value, and whether it is a function.
fn scope_entries(layer: &Scope) -> (r: Vec<(Vec<char>, Vec<char>, bool)>)
    ensures
        r@.len() == layer@.len(),
        forall|m: int|
            0 <= m < r@.len() ==> (#[trigger] r@[m].0@, r@[m].1@, r@[m].2) == entry_key(scope_view(layer@)[m]),
{
    let mut r: Vec<(Vec<char>, Vec<char>, bool)> = Vec::new();
    for j in 0..layer.len()
        invariant
            r@.len() == j,
            forall|m: int|
                0 <= m < j ==> (#[trigger] r@[m].0@, r@[m].1@, r@[m].2) == entry_key(scope_view(layer@)[m]),
    {
        let k = chars_of(layer[j].0.as_str());
        let v = chars_of(layer[j].1.0.as_str());
        let f = layer[j].1.1.is_some();
        r.push((k, v, f));
    }
    r
}

/// Whether putting the variables of `es` into `body` reaches no function
/// call, as `substituted_body` says.
fn substitution_ok(body: &Vec<char>, es: &Vec<(Vec<char>, Vec<char>, bool)>, ghost_es: Ghost<
    Seq<(Seq<char>, (Seq<char>, Option<Seq<char>>))>,
>) -> (r: bool)
    requires
        es@.len() == ghost_es@.len(),
        forall|m: int|
            0 <= m < es@.len() ==> (#[trigger] es@[m].0@, es@[m].1@, es@[m].2) == entry_key(ghost_es@[m]),
    ensures
        r == substituted_body(body@, ghost_es@) is Some,
{
    let ghost gs = ghost_es@;
    let mut cur = sub_all(body);
    assert(gs.skip(0) =~= gs);
    for m in 0..es.len()
        invariant
            gs == ghost_es@,
            es@.len() == gs.len(),
            forall|i: int|
                0 <= i < es@.len() ==> (#[trigger] es@[i].0@, es@[i].1@, es@[i].2) == entry_key(gs[i]),
            substituted_body(body@, gs) == substituted_body(cur@, gs.skip(m as int)),
    {
        let mut pat: Vec<char> = vec!['@'];
        let key = &es[m].0;
        for j in 0..key.len()
            invariant
                pat@ == seq!['@'] + key@.take(j as int),
        {
            pat.push(key[j]);
            assert(key@.take(j + 1) =~= key@.take(j as int).push(key@[j as int]));
        }
        assert(key@.take(key@.len() as int) =~= key@);
        assert(gs.skip(m as int)[0] == gs[m as int]);
        assert(gs.skip(m as int).drop_first() =~= gs.skip(m + 1));
        if es[m].2 {
            if find_chars(&cur, &pat).is_some() {
                assert(pat@ == seq!['@'] + gs[m as int].0);
                assert(gs[m as int].1.1 is Some);
                assert(has(cur@, seq!['@'] + gs[m as int].0));
                assert(substituted_body(cur@, gs.skip(m as int)) is None);
                return false;
            }
        } else {
            cur = replace_chars(&cur, &pat, &es[m].1);
        }
    }
    assert(gs.skip(gs.len() as int) =~= Seq::<(Seq<char>, (Seq<char>, Option<Seq<char>>))>::empty());
    true
}

fn sub_all(v: &Vec<char>) -> (r: Vec<char>)
    ensures
        r@ == v@,
{
    let mut r: Vec<char> = Vec::new();
    for i in 0..v.len()
        invariant
            r@ == v@.take(i as int),
    {
        r.push(v[i]);
        assert(v@.take(i + 1) =~= v@.take(i as int).push(v@[i as int]));
    }
    assert(v@.take(v@.len() as int) =~= v@);
    r
}

/// The assignments of `body` and whether one of them takes its value from
/// a call.
fn body_parts(body: &str) -> (r: (Vec<(Vec<char>, Vec<char>)>, bool))
    ensures
        r.0@.map_values(|p: (Vec<char>, Vec<char>)| (p.0@, p.1@)) == body_assignments(body@),
        r.1 == calls_function(body@),
{
    let cs = chars_of(body);
    let ls = lines_chars(&cs);
    assert(ls@.map_values(|l: Vec<char>| l@) =~= lines_of(body@));
    let asg = assignments_exec(&ls);
    let ghost av = asg@.map_values(|p: (Vec<char>, Vec<char>)| (p.0@, p.1@));
    let at = vec!['@'];
    assert(at@ =~= seq!['@']);
    for i in 0..asg.len()
        invariant
            av == asg@.map_values(|p: (Vec<char>, Vec<char>)| (p.0@, p.1@)),
            av == body_assignments(body@),
            at@ == seq!['@'],
            forall|m: int| 0 <= m < i ==> !begins_with(#[trigger] av[m].1, seq!['@']),
    {
        if begins_with_chars(&asg[i].1, &at) {
            assert(begins_with(av[i as int].1, seq!['@']));
            return (asg, true);
        }
    }
    (asg, false)
}

/// Whether `body` runs to its end on `stack`, as `fxn_runs` says: else the
/// run would fail (a call to an undefined function, a malformed call) or
/// never end (a call runs the same body again).
pub fn fxn_would_run(body: &str, stack: &Vec<Scope>) -> (r: bool)
    ensures
        r == fxn_runs(body@, stack_view(stack@)),
{
    let (asg, calls) = body_parts(body);
    if calls {
        return false;
    }
    let sc = scope_exec(&asg);
    let mut es = flat_entries(stack);
    let more = scope_entries(&sc);
    let ghost st = stack_view(stack@);
    let ghost all = all_entries(st.push(scope_view(sc@)));
    proof {
        assert(st.push(scope_view(sc@)).drop_last() =~= st);
        assert(all == all_entries(st) + scope_view(sc@));
    }
    let ghost e0 = es@;
    for k in 0..more.len()
        invariant
            es@.len() == e0.len() + k,
            forall|m: int| 0 <= m < e0.len() ==> #[trigger] es@[m] == e0[m],
            forall|m: int|
                0 <= m < k ==> (#[trigger] es@[e0.len() + m].0@, es@[e0.len() + m].1@, es@[e0.len()
                    + m].2) == (more@[m].0@, more@[m].1@, more@[m].2),
    {
        let (a, b, c) = (sub_all(&more[k].0), sub_all(&more[k].1), more[k].2);
        es.push((a, b, c));
        assert(es@[e0.len() + k as int] == (a, b, c));
    }
    proof {
        assert forall|m: int|
            0 <= m < es@.len() implies (#[trigger] es@[m].0@, es@[m].1@, es@[m].2) == entry_key(all[m]) by {
            if m >= e0.len() {
                assert(es@[e0.len() + (m - e0.len())] == es@[m]);
            }
        }
    }
    let cs = chars_of(body);
    substitution_ok(&cs, &es, Ghost(all))
}

/// Runs a function body on `stack`: a new scope is pushed, holding the
/// body's assignments (a later one to a name replaces an earlier); the
/// parameters are not read. Nothing else changes: variables are put into
/// the body only to be thrown away.
pub fn exec_fxn(params: &Vec<(String, String)>, body: &str, stack: &mut Vec<Scope>)
    requires
        fxn_runs(body@, stack_view(old(stack)@)),
    ensures
        stack_view(final(stack)@) == stack_view(old(stack)@).push(scope_of(body_assignments(body@))),
{
    let (asg, _) = body_parts(body);
    let sc = scope_exec(&asg);
    let ghost s0 = stack_view(stack@);
    stack.push(sc);
    assert(stack_view(stack@) =~= s0.push(scope_of(body_assignments(body@))));
}

} // verus!

verus! {

// ---------------------------------------------------------------------
// Laws of assignments
// ---------------------------------------------------------------------

/// A one-line body `k := v`, where `k` holds no `:=` and neither side a
/// new line, binds the trimmed `k` to the whole trimmed text after `:=`,
/// spaces inside it included.
pub proof fn law_assignment_binds_whole_value(k: Seq<char>, v: Seq<char>)
    requires
        first_index(k, seq![':', '=']) == -1,
        forall|j: int| 0 <= j < k.len() ==> #[trigger] k[j] != '\n',
        forall|j: int| 0 <= j < v.len() ==> #[trigger] v[j] != '\n',
    ensures
        body_assignments(k + seq![':', '='] + v) == seq![(trim(k), trim(v))],
        scope_of(body_assignments(k + seq![':', '='] + v)) == seq![(trim(k), (trim(v), None::<Seq<char>>))],
{
    let o = seq![':', '='];
    let s = k + o + v;
    lemma_first_index(k, o);
    // The body is one line.
    assert forall|j: int| 0 <= j < s.len() implies #[trigger] s[j] != '\n' by {
        if j < k.len() {
            assert(s[j] == k[j]);
        } else if j >= k.len() + 2 {
            assert(s[j] == v[j - k.len() - 2]);
        }
    }
    lemma_split_single(s, '\n');
    let ls = lines_of(s);
    assert(ls =~= seq![s]);
    // The line splits at the `:=` put there.
    assert(!is_space(o[0]) && !is_space(o.last()));
    lemma_trim_around(k, o, v);
    lemma_lead_char(k);
    let k2 = k.skip(lead_spaces(k) as int);
    let v2 = v.take(v.len() - trail_spaces(v));
    let t = k2 + o + v2;
    let n = k2.len() as int;
    assert forall|j: int| 0 <= j < n implies !(#[trigger] occurs_at(t, o, j)) by {
        if occurs_at(t, o, j) {
            assert(t.subrange(j, j + 2)[0] == t[j]);
            assert(t.subrange(j, j + 2)[1] == t[j + 1]);
            if j + 1 < n {
                let i = j + lead_spaces(k);
                assert(k.subrange(i, i + 2) =~= t.subrange(j, j + 2));
                assert(occurs_at(k, o, i));
            } else {
                assert(t[j + 1] == ':');
            }
        }
    }
    assert(t.subrange(n, n + 2) =~= o);
    assert(occurs_at(t, o, n));
    lemma_first_index(t, o);
    if first_index(t, o) < n {
        assert(!occurs_at(t, o, first_index(t, o)));
    }
    assert(first_index(t, o) == n);
    assert(t.take(n) =~= k2);
    assert(t.skip(n + 2) =~= v2);
    assert(split_once(trim(s), o) == Some((k2, v2)));
    lemma_trim_front(k);
    lemma_trim_back(v);
    assert(ls.drop_last() =~= Seq::<Seq<char>>::empty());
    assert(ls.last() == s);
    assert(assignments(ls.drop_last()) == Seq::<(Seq<char>, Seq<char>)>::empty());
    assert(trim(k2) == trim(k) && trim(v2) == trim(v));
    assert(assignments(ls) =~= seq![(trim(k), trim(v))]);
    let asg = seq![(trim(k), trim(v))];
    assert(asg.drop_last() =~= Seq::<(Seq<char>, Seq<char>)>::empty());
    assert(scope_of(asg.drop_last()) == Seq::<(Seq<char>, (Seq<char>, Option<Seq<char>>))>::empty());
    assert(scope_of(asg) =~= seq![(trim(k), (trim(v), None::<Seq<char>>))]);
}

/// Every name that `asg` assigns is bound in `scope_of(asg)`.
proof fn lemma_assigned_names_bound(asg: Seq<(Seq<char>, Seq<char>)>)
    ensures
        forall|i: int|
            0 <= i < asg.len() ==> exists|p: int|
                0 <= p < scope_of(asg).len() && (#[trigger] scope_of(asg)[p]).0 == (#[trigger] asg[i]).0,
    decreases asg.len(),
{
    if asg.len() > 0 {
        let d = asg.drop_last();
        lemma_assigned_names_bound(d);
        let sc0 = scope_of(d);
        let sc = scope_of(asg);
        let (k, v) = asg.last();
        let n = asg.len() - 1;
        lemma_name_pos(sc0, k);
        let ip = name_pos(sc0, k);
        if ip >= 0 {
            assert(sc == sc0.update(ip, (k, (v, None::<Seq<char>>))));
        } else {
            assert(sc == sc0.push((k, (v, None::<Seq<char>>))));
        }
        assert forall|i: int| 0 <= i < asg.len() implies exists|p: int|
            0 <= p < sc.len() && (#[trigger] sc[p]).0 == (#[trigger] asg[i]).0 by {
            if i == n || asg[i].0 == k {
                if ip >= 0 {
                    assert(sc[ip].0 == asg[i].0);
                } else {
                    assert(sc[sc0.len() as int].0 == asg[i].0);
                }
            } else {
                assert(d[i] == asg[i]);
                let p = choose|p: int| 0 <= p < sc0.len() && (#[trigger] sc0[p]).0 == (#[trigger] d[i]).0;
                assert(p != ip);
                assert(sc[p] == sc0[p]);
            }
        }
    }
}

/// No name is bound twice in `scope_of(asg)`.
proof fn lemma_scope_distinct(asg: Seq<(Seq<char>, Seq<char>)>)
    ensures
        forall|a: int, b: int|
            0 <= a < b < scope_of(asg).len() ==> (#[trigger] scope_of(asg)[a]).0 != (#[trigger] scope_of(
                asg,
            )[b]).0,
    decreases asg.len(),
{
    if asg.len() > 0 {
        let d = asg.drop_last();
        lemma_scope_distinct(d);
        let sc0 = scope_of(d);
        let sc = scope_of(asg);
        let (k, v) = asg.last();
        lemma_name_pos(sc0, k);
        let ip = name_pos(sc0, k);
        if ip >= 0 {
            assert(sc == sc0.update(ip, (k, (v, None::<Seq<char>>))));
        } else {
            assert(sc == sc0.push((k, (v, None::<Seq<char>>))));
        }
        assert forall|a: int, b: int| 0 <= a < b < sc.len() implies (#[trigger] sc[a]).0 != (#[trigger] sc[b]).0 by {
            if ip >= 0 {
                assert(sc0[a].0 != sc0[b].0);
            } else if b < sc0.len() {
                assert(sc0[a].0 != sc0[b].0);
            } else {
                assert(sc0[a].0 != k);
            }
        }
    }
}

/// Each entry of `scope_of(asg)` is a variable holding the value of the
/// last assignment to its name.
proof fn lemma_scope_values(asg: Seq<(Seq<char>, Seq<char>)>)
    ensures
        forall|p: int|
            0 <= p < scope_of(asg).len() ==> (#[trigger] scope_of(asg)[p]).1.1 is None && exists|i: int|
                0 <= i < asg.len() && asg[i].0 == scope_of(asg)[p].0 && asg[i].1 == scope_of(asg)[p].1.0
                    && forall|j: int| i < j < asg.len() ==> (#[trigger] asg[j]).0 != asg[i].0,
    decreases asg.len(),
{
    if asg.len() > 0 {
        let d = asg.drop_last();
        lemma_scope_values(d);
        lemma_scope_distinct(d);
        let sc0 = scope_of(d);
        let sc = scope_of(asg);
        let (k, v) = asg.last();
        let n = asg.len() - 1;
        lemma_name_pos(sc0, k);
        let ip = name_pos(sc0, k);
        if ip >= 0 {
            assert(sc == sc0.update(ip, (k, (v, None::<Seq<char>>))));
        } else {
            assert(sc == sc0.push((k, (v, None::<Seq<char>>))));
        }
        assert forall|p: int| 0 <= p < sc.len() implies (#[trigger] sc[p]).1.1 is None && exists|i: int|
            0 <= i < asg.len() && asg[i].0 == sc[p].0 && asg[i].1 == sc[p].1.0 && forall|j: int|
                i < j < asg.len() ==> (#[trigger] asg[j]).0 != asg[i].0 by {
            if p == ip || p == sc0.len() {
                assert(asg[n].0 == sc[p].0 && asg[n].1 == sc[p].1.0);
            } else {
                assert(sc[p] == sc0[p]);
                let i = choose|i: int|
                    0 <= i < d.len() && d[i].0 == sc0[p].0 && d[i].1 == sc0[p].1.0 && forall|j: int|
                        i < j < d.len() ==> (#[trigger] d[j]).0 != d[i].0;
                if ip >= 0 {
                    if p < ip {
                        assert(sc0[p].0 != sc0[ip].0);
                    } else {
                        assert(sc0[ip].0 != sc0[p].0);
                    }
                }
                assert(sc0[p].0 != k);
                assert forall|j: int| i < j < asg.len() implies (#[trigger] asg[j]).0 != asg[i].0 by {
                    if j < d.len() {
                        assert(d[j] == asg[j]);
                        assert(d[j].0 != d[i].0);
                    }
                }
                assert(asg[i] == d[i]);
            }
        }
    }
}

/// The scope a body's assignments make binds each assigned name once, to
/// the value of the last assignment to it, as a variable; and binds no
/// other name.
pub proof fn law_last_assignment_wins(asg: Seq<(Seq<char>, Seq<char>)>)
    ensures
        forall|a: int, b: int|
            0 <= a < b < scope_of(asg).len() ==> (#[trigger] scope_of(asg)[a]).0 != (#[trigger] scope_of(
                asg,
            )[b]).0,
        forall|p: int|
            0 <= p < scope_of(asg).len() ==> (#[trigger] scope_of(asg)[p]).1.1 is None && exists|i: int|
                0 <= i < asg.len() && asg[i].0 == scope_of(asg)[p].0 && asg[i].1 == scope_of(asg)[p].1.0
                    && forall|j: int| i < j < asg.len() ==> (#[trigger] asg[j]).0 != asg[i].0,
        forall|i: int|
            0 <= i < asg.len() ==> exists|p: int|
                0 <= p < scope_of(asg).len() && (#[trigger] scope_of(asg)[p]).0 == (#[trigger] asg[i]).0,
{
    lemma_scope_distinct(asg);
    lemma_scope_values(asg);
    lemma_assigned_names_bound(asg);
}

} // verus!
