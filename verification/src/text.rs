//! Character-level string helpers shared by the parsers.
use vstd::prelude::*;

verus! {

/// Appends one character to a string: `String::push` of std.
/// Trusted: the new contents are the old contents followed by `c`.
#[verifier::external_body]
pub(crate) fn push_char(s: &mut String, c: char)
    ensures
        final(s)@ == old(s)@.push(c),
{
    s.push(c);
}

/// The characters of `s`, in order.
pub fn chars_of(s: &str) -> (r: Vec<char>)
    ensures
        r@ == s@,
{
    let mut r: Vec<char> = Vec::new();
    for c in it: s.chars()
        invariant
            r@ == it.seq().take(it.index() as int),
            it.seq() == s@,
    {
        r.push(c);
    }
    r
}

/// The string made of the characters of `cs`, in order.
pub fn string_of(cs: &Vec<char>) -> (r: String)
    ensures
        r@ == cs@,
{
    let mut r = String::new();
    for i in 0..cs.len()
        invariant
            r@ == cs@.take(i as int),
    {
        push_char(&mut r, cs[i]);
        assert(cs@.take(i as int).push(cs@[i as int]) =~= cs@.take(i + 1));
    }
    assert(cs@.take(cs@.len() as int) =~= cs@);
    r
}

/// The pieces of `s` between occurrences of `sep`: `n` separators give
/// `n + 1` pieces, some of which may be empty.
pub open spec fn split_on(s: Seq<char>, sep: char) -> Seq<Seq<char>>
    decreases s.len(),
{
    if s.len() == 0 {
        seq![Seq::<char>::empty()]
    } else {
        let rest = split_on(s.drop_last(), sep);
        if s.last() == sep {
            rest.push(Seq::<char>::empty())
        } else {
            rest.update(rest.len() - 1, rest.last().push(s.last()))
        }
    }
}

pub proof fn lemma_split_on_nonempty(s: Seq<char>, sep: char)
    ensures
        split_on(s, sep).len() >= 1,
    decreases s.len(),
{
    if s.len() > 0 {
        lemma_split_on_nonempty(s.drop_last(), sep);
    }
}

/// A piece without `sep` is split into itself.
pub proof fn lemma_split_single(n: Seq<char>, sep: char)
    requires
        forall|j: int| 0 <= j < n.len() ==> #[trigger] n[j] != sep,
    ensures
        split_on(n, sep) == seq![n],
    decreases n.len(),
{
    if n.len() > 0 {
        lemma_split_single(n.drop_last(), sep);
        assert(n.drop_last().push(n.last()) =~= n);
        assert(split_on(n, sep) =~= seq![n]);
    } else {
        assert(n =~= Seq::<char>::empty());
    }
}

/// Splits `s` at every `sep`, as `split_on` says.
pub fn split_chars(s: &Vec<char>, sep: char) -> (r: Vec<Vec<char>>)
    ensures
        r@.len() == split_on(s@, sep).len(),
        forall|k: int| 0 <= k < r@.len() ==> #[trigger] r@[k]@ == split_on(s@, sep)[k],
{
    let mut done: Vec<Vec<char>> = Vec::new();
    let mut cur: Vec<char> = Vec::new();
    for i in 0..s.len()
        invariant
            done@.len() + 1 == split_on(s@.take(i as int), sep).len(),
            forall|k: int| 0 <= k < done@.len() ==> #[trigger] done@[k]@ == split_on(s@.take(i as int), sep)[k],
            cur@ == split_on(s@.take(i as int), sep).last(),
    {
        let ghost pre = s@.take(i as int);
        assert(s@.take(i + 1).drop_last() =~= pre);
        assert(s@.take(i + 1).last() == s@[i as int]);
        proof { lemma_split_on_nonempty(pre, sep); }
        if s[i] == sep {
            let piece = cur;
            done.push(piece);
            cur = Vec::new();
        } else {
            cur.push(s[i]);
        }
    }
    assert(s@.take(s@.len() as int) =~= s@);
    done.push(cur);
    done
}

} // verus!

verus! {

/// `c` has the Unicode `White_Space` property, which `char::is_whitespace`
/// tests and `str::trim` strips.
pub open spec fn is_space(c: char) -> bool {
    let u = c as u32;
    (0x09 <= u && u <= 0x0D) || u == 0x20 || u == 0x85 || u == 0xA0 || u == 0x1680 || (0x2000 <= u
        && u <= 0x200A) || u == 0x2028 || u == 0x2029 || u == 0x202F || u == 0x205F || u == 0x3000
}

pub fn is_space_exec(c: char) -> (r: bool)
    ensures
        r == is_space(c),
{
    let u = c as u32;
    (0x09 <= u && u <= 0x0D) || u == 0x20 || u == 0x85 || u == 0xA0 || u == 0x1680 || (0x2000 <= u
        && u <= 0x200A) || u == 0x2028 || u == 0x2029 || u == 0x202F || u == 0x205F || u == 0x3000
}

/// The number of white-space characters at the start of `s`.
pub open spec fn lead_spaces(s: Seq<char>) -> nat
    decreases s.len(),
{
    if s.len() > 0 && is_space(s[0]) {
        1 + lead_spaces(s.drop_first())
    } else {
        0
    }
}

/// The number of white-space characters at the end of `s`.
pub open spec fn trail_spaces(s: Seq<char>) -> nat
    decreases s.len(),
{
    if s.len() > 0 && is_space(s.last()) {
        1 + trail_spaces(s.drop_last())
    } else {
        0
    }
}

/// `s` without leading and trailing white space (`str::trim`).
pub open spec fn trim(s: Seq<char>) -> Seq<char> {
    let a = s.skip(lead_spaces(s) as int);
    a.take(a.len() - trail_spaces(a))
}

proof fn lemma_lead_spaces(s: Seq<char>, i: int)
    requires
        0 <= i <= s.len(),
        forall|j: int| 0 <= j < i ==> is_space(#[trigger] s[j]),
        i == s.len() || !is_space(s[i]),
    ensures
        lead_spaces(s) == i,
    decreases s.len(),
{
    if i > 0 {
        lemma_lead_spaces(s.drop_first(), i - 1);
    }
}

proof fn lemma_trail_spaces(s: Seq<char>, i: int)
    requires
        0 <= i <= s.len(),
        forall|j: int| s.len() - i <= j < s.len() ==> is_space(#[trigger] s[j]),
        i == s.len() || !is_space(s[s.len() - 1 - i]),
    ensures
        trail_spaces(s) == i,
    decreases s.len(),
{
    if i > 0 {
        lemma_trail_spaces(s.drop_last(), i - 1);
    }
}

/// The white space that `lead_spaces` counts: all of it is white space,
/// and the character after it is not.
pub proof fn lemma_lead_char(s: Seq<char>)
    ensures
        lead_spaces(s) <= s.len(),
        forall|j: int| 0 <= j < lead_spaces(s) ==> is_space(#[trigger] s[j]),
        lead_spaces(s) < s.len() ==> !is_space(s[lead_spaces(s) as int]),
    decreases s.len(),
{
    if s.len() > 0 && is_space(s[0]) {
        let d = s.drop_first();
        lemma_lead_char(d);
        assert forall|j: int| 0 <= j < lead_spaces(s) implies is_space(#[trigger] s[j]) by {
            if j > 0 {
                assert(s[j] == d[j - 1]);
            }
        }
        if lead_spaces(s) < s.len() {
            assert(s[lead_spaces(s) as int] == d[lead_spaces(d) as int]);
        }
    }
}

/// The white space that `trail_spaces` counts: all of it is white space,
/// and the character before it is not.
pub proof fn lemma_trail_char(s: Seq<char>)
    ensures
        trail_spaces(s) <= s.len(),
        forall|j: int| s.len() - trail_spaces(s) <= j < s.len() ==> is_space(#[trigger] s[j]),
        trail_spaces(s) < s.len() ==> !is_space(s[s.len() - 1 - trail_spaces(s)]),
    decreases s.len(),
{
    if s.len() > 0 && is_space(s.last()) {
        let d = s.drop_last();
        lemma_trail_char(d);
        assert forall|j: int| s.len() - trail_spaces(s) <= j < s.len() implies is_space(#[trigger] s[j]) by {
            if j < s.len() - 1 {
                assert(s[j] == d[j]);
            }
        }
        if trail_spaces(s) < s.len() {
            assert(s[s.len() - 1 - trail_spaces(s)] == d[d.len() - 1 - trail_spaces(d)]);
        }
    }
}

/// Trimming text that stands around a piece which begins and ends with
/// other than white space trims only the outer ends.
pub proof fn lemma_trim_around(l: Seq<char>, op: Seq<char>, r: Seq<char>)
    requires
        op.len() > 0,
        !is_space(op[0]),
        !is_space(op.last()),
    ensures
        trim(l + op + r) == l.skip(lead_spaces(l) as int) + op + r.take(r.len() - trail_spaces(r)),
{
    let s = l + op + r;
    lemma_lead_char(l);
    lemma_trail_char(r);
    let i = lead_spaces(l) as int;
    assert forall|j: int| 0 <= j < i implies is_space(#[trigger] s[j]) by {
        assert(s[j] == l[j]);
    }
    if i < l.len() {
        assert(s[i] == l[i]);
    } else {
        assert(s[i] == op[0]);
    }
    lemma_lead_spaces(s, i);
    let a = s.skip(i);
    assert(a =~= l.skip(i) + op + r);
    let k = trail_spaces(r) as int;
    assert forall|j: int| a.len() - k <= j < a.len() implies is_space(#[trigger] a[j]) by {
        assert(a[j] == r[j - (a.len() - r.len())]);
    }
    if k < r.len() {
        assert(a[a.len() - 1 - k] == r[r.len() - 1 - k]);
    } else {
        assert(a[a.len() - 1 - k] == op.last());
    }
    lemma_trail_spaces(a, k);
    assert(a.take(a.len() - k) =~= l.skip(i) + op + r.take(r.len() - k));
}

/// Trimming what has lost its leading white space is trimming the whole.
pub proof fn lemma_trim_front(l: Seq<char>)
    ensures
        trim(l.skip(lead_spaces(l) as int)) == trim(l),
{
    lemma_lead_char(l);
    let a = l.skip(lead_spaces(l) as int);
    if a.len() > 0 {
        assert(a[0] == l[lead_spaces(l) as int]);
    }
    lemma_lead_spaces(a, 0);
    assert(a.skip(0) =~= a);
}

/// Trimming what has lost its trailing white space is trimming the whole.
pub proof fn lemma_trim_back(r: Seq<char>)
    ensures
        trim(r.take(r.len() - trail_spaces(r))) == trim(r),
{
    lemma_lead_char(r);
    lemma_trail_char(r);
    let i = lead_spaces(r) as int;
    let k = trail_spaces(r) as int;
    let b = r.take(r.len() - k);
    if i == r.len() {
        // All white space: both trims are empty.
        if r.len() > 0 {
            assert(is_space(r[r.len() - 1]));
        }
        lemma_trail_spaces(r, r.len() as int);
        assert(b.len() == 0);
        lemma_lead_spaces(b, 0);
        assert(trim(b) =~= Seq::<char>::empty());
        assert(trim(r) =~= Seq::<char>::empty());
    } else {
        // The first non-space character comes before the last one.
        assert(!is_space(r[i]));
        assert(i < r.len() - k);
        assert forall|j: int| 0 <= j < i implies is_space(#[trigger] b[j]) by {
            assert(b[j] == r[j]);
        }
        assert(b[i] == r[i]);
        lemma_lead_spaces(b, i);
        let a2 = b.skip(i);
        assert(a2[a2.len() - 1] == r[r.len() - 1 - k]);
        lemma_trail_spaces(a2, 0);
        let a = r.skip(i);
        assert forall|j: int| a.len() - k <= j < a.len() implies is_space(#[trigger] a[j]) by {
            assert(a[j] == r[j + i]);
        }
        assert(a[a.len() - 1 - k] == r[r.len() - 1 - k]);
        lemma_trail_spaces(a, k);
        assert(a.take(a.len() - k) =~= a2.take(a2.len() - 0));
    }
}

/// The characters `v[a..b]`.
pub fn sub_chars(v: &Vec<char>, a: usize, b: usize) -> (r: Vec<char>)
    requires
        a <= b <= v@.len(),
    ensures
        r@ == v@.subrange(a as int, b as int),
{
    let mut r: Vec<char> = Vec::new();
    let mut i = a;
    while i < b
        invariant
            a <= i <= b <= v@.len(),
            r@ == v@.subrange(a as int, i as int),
        decreases b - i,
    {
        r.push(v[i]);
        assert(v@.subrange(a as int, i + 1) =~= v@.subrange(a as int, i as int).push(v@[i as int]));
        i = i + 1;
    }
    r
}

/// `v` trimmed of white space at both ends.
pub fn trim_chars(v: &Vec<char>) -> (r: Vec<char>)
    ensures
        r@ == trim(v@),
{
    let mut a: usize = 0;
    while a < v.len() && is_space_exec(v[a])
        invariant
            a <= v@.len(),
            forall|j: int| 0 <= j < a ==> is_space(#[trigger] v@[j]),
        decreases v@.len() - a,
    {
        a = a + 1;
    }
    proof {
        lemma_lead_spaces(v@, a as int);
    }
    let ghost s1 = v@.skip(a as int);
    let mut b: usize = v.len();
    while b > a && is_space_exec(v[b - 1])
        invariant
            a <= b <= v@.len(),
            s1 == v@.skip(a as int),
            forall|j: int| b <= j < v@.len() ==> is_space(#[trigger] v@[j]),
        decreases b,
    {
        b = b - 1;
    }
    proof {
        assert forall|j: int| s1.len() - (v@.len() - b) <= j < s1.len() implies is_space(#[trigger] s1[j]) by {
            assert(s1[j] == v@[j + a]);
        }
        if v@.len() - b != s1.len() {
            assert(s1[s1.len() - 1 - (v@.len() - b)] == v@[b - 1]);
        }
        lemma_trail_spaces(s1, v@.len() - b);
        assert(s1.take(s1.len() - (v@.len() - b)) =~= v@.subrange(a as int, b as int));
    }
    sub_chars(v, a, b)
}

/// `n` occurs in `h` at position `i`.
pub open spec fn occurs_at(h: Seq<char>, n: Seq<char>, i: int) -> bool {
    0 <= i && i + n.len() <= h.len() && h.subrange(i, i + n.len()) == n
}

/// The first position at or after `i` where `n` occurs in `h`, or -1.
pub open spec fn first_from(h: Seq<char>, n: Seq<char>, i: int) -> int
    decreases h.len() + 1 - i,
{
    if i < 0 || i + n.len() > h.len() {
        -1
    } else if occurs_at(h, n, i) {
        i
    } else {
        first_from(h, n, i + 1)
    }
}

/// The first position where `n` occurs in `h` (`str::find`), or -1.
pub open spec fn first_index(h: Seq<char>, n: Seq<char>) -> int {
    first_from(h, n, 0)
}

/// `n` occurs somewhere in `h` (`str::contains`).
pub open spec fn has(h: Seq<char>, n: Seq<char>) -> bool {
    first_index(h, n) >= 0
}

pub proof fn lemma_first_from(h: Seq<char>, n: Seq<char>, i: int)
    requires
        0 <= i,
    ensures
        first_from(h, n, i) == -1 || (i <= first_from(h, n, i) && occurs_at(h, n, first_from(h, n, i))),
        first_from(h, n, i) == -1 ==> forall|j: int| i <= j ==> !(#[trigger] occurs_at(h, n, j)),
        first_from(h, n, i) >= 0 ==> forall|j: int| i <= j < first_from(h, n, i) ==> !(#[trigger] occurs_at(h, n, j)),
    decreases h.len() + 1 - i,
{
    if i + n.len() > h.len() {
    } else if occurs_at(h, n, i) {
    } else {
        lemma_first_from(h, n, i + 1);
    }
}

pub proof fn lemma_first_index(h: Seq<char>, n: Seq<char>)
    ensures
        first_index(h, n) == -1 || (0 <= first_index(h, n) && first_index(h, n) + n.len() <= h.len()
            && h.subrange(first_index(h, n), first_index(h, n) + n.len()) == n),
        first_index(h, n) == -1 ==> forall|j: int| !(#[trigger] occurs_at(h, n, j)),
        first_index(h, n) >= 0 ==> forall|j: int| 0 <= j < first_index(h, n) ==> !(#[trigger] occurs_at(h, n, j)),
{
    lemma_first_from(h, n, 0);
}

/// `n` occurs at `i` in `h`, checked one character at a time.
fn occurs_at_exec(h: &Vec<char>, n: &Vec<char>, i: usize) -> (r: bool)
    requires
        i + n@.len() <= h@.len(),
    ensures
        r == occurs_at(h@, n@, i as int),
{
    let hl = h.len();
    let mut k: usize = 0;
    while k < n.len()
        invariant
            hl == h@.len(),
            i + n@.len() <= h@.len(),
            k <= n@.len(),
            forall|j: int| 0 <= j < k ==> h@[i + j] == #[trigger] n@[j],
        decreases n@.len() - k,
    {
        if h[i + k] != n[k] {
            assert(h@.subrange(i as int, i + n@.len())[k as int] != n@[k as int]);
            return false;
        }
        k = k + 1;
    }
    assert(h@.subrange(i as int, i + n@.len()) =~= n@);
    true
}

/// The first position where `n` occurs in `h`, as `first_index` says.
pub fn find_chars(h: &Vec<char>, n: &Vec<char>) -> (r: Option<usize>)
    ensures
        r is None <==> first_index(h@, n@) == -1,
        r matches Some(i) ==> i == first_index(h@, n@),
{
    if n.len() > h.len() {
        return None;
    }
    if n.len() == 0 {
        assert(h@.subrange(0, 0) =~= n@);
        return Some(0);
    }
    let hl = h.len();
    let last = h.len() - n.len();
    let mut i: usize = 0;
    while i <= last
        invariant
            hl == h@.len(),
            n@.len() > 0,
            last + n@.len() == h@.len(),
            first_index(h@, n@) == first_from(h@, n@, i as int),
        decreases last + 1 - i,
    {
        if occurs_at_exec(h, n, i) {
            return Some(i);
        }
        i = i + 1;
    }
    None
}

/// `h` with its first occurrence of `n` and all after it cut away,
/// split into what came before and after (`str::split_once`).
pub open spec fn split_once(h: Seq<char>, n: Seq<char>) -> Option<(Seq<char>, Seq<char>)> {
    let i = first_index(h, n);
    if i < 0 {
        None
    } else {
        Some((h.take(i), h.skip(i + n.len())))
    }
}

/// `str::split_once`.
pub fn split_once_chars(h: &Vec<char>, n: &Vec<char>) -> (r: Option<(Vec<char>, Vec<char>)>)
    ensures
        r is None <==> split_once(h@, n@) is None,
        r matches Some((a, b)) ==> split_once(h@, n@) == Some((a@, b@)),
{
    proof {
        lemma_first_index(h@, n@);
    }
    let hl = h.len();
    match find_chars(h, n) {
        None => None,
        Some(i) => {
            let a = sub_chars(h, 0, i);
            let b = sub_chars(h, i + n.len(), h.len());
            assert(a@ =~= h@.take(i as int));
            assert(b@ =~= h@.skip(i + n@.len()));
            Some((a, b))
        },
    }
}

/// `h` begins with `n`.
pub open spec fn begins_with(h: Seq<char>, n: Seq<char>) -> bool {
    n.len() <= h.len() && h.take(n.len() as int) == n
}

/// `h` ends with `n`.
pub open spec fn finishes_with(h: Seq<char>, n: Seq<char>) -> bool {
    n.len() <= h.len() && h.skip(h.len() - n.len()) == n
}

pub fn begins_with_chars(h: &Vec<char>, n: &Vec<char>) -> (r: bool)
    ensures
        r == begins_with(h@, n@),
{
    if n.len() > h.len() {
        return false;
    }
    let r = occurs_at_exec(h, n, 0);
    assert(h@.subrange(0, n@.len() as int) =~= h@.take(n@.len() as int));
    r
}

pub fn finishes_with_chars(h: &Vec<char>, n: &Vec<char>) -> (r: bool)
    ensures
        r == finishes_with(h@, n@),
{
    if n.len() > h.len() {
        return false;
    }
    let r = occurs_at_exec(h, n, h.len() - n.len());
    assert(h@.subrange(h@.len() - n@.len(), h@.len() as int) =~= h@.skip(h@.len() - n@.len()));
    r
}

/// `h` with every occurrence of `f` replaced by `t`, left to right and
/// not overlapping (`str::replace` with a non-empty pattern).
pub open spec fn replace_all(h: Seq<char>, f: Seq<char>, t: Seq<char>) -> Seq<char>
    decreases h.len(),
{
    if f.len() == 0 || h.len() < f.len() {
        h
    } else if h.take(f.len() as int) == f {
        t + replace_all(h.skip(f.len() as int), f, t)
    } else {
        seq![h[0]] + replace_all(h.drop_first(), f, t)
    }
}

proof fn lemma_replace_step(h: Seq<char>, f: Seq<char>, t: Seq<char>, i: int)
    requires
        f.len() > 0,
        0 <= i,
        i + f.len() <= h.len(),
    ensures
        occurs_at(h, f, i) ==> replace_all(h.skip(i), f, t) == t + replace_all(h.skip(i + f.len()), f, t),
        !occurs_at(h, f, i) ==> replace_all(h.skip(i), f, t) == seq![h[i]] + replace_all(h.skip(i + 1), f, t),
{
    let s = h.skip(i);
    assert(s.take(f.len() as int) =~= h.subrange(i, i + f.len()));
    assert(s.skip(f.len() as int) =~= h.skip(i + f.len()));
    assert(s.drop_first() =~= h.skip(i + 1));
}

/// Where `f` does not occur, replacing it changes nothing.
pub proof fn lemma_replace_absent(h: Seq<char>, f: Seq<char>, t: Seq<char>)
    requires
        f.len() > 0,
        forall|j: int| !#[trigger] occurs_at(h, f, j),
    ensures
        replace_all(h, f, t) == h,
    decreases h.len(),
{
    if h.len() >= f.len() {
        assert(h.subrange(0, f.len() as int) =~= h.take(f.len() as int));
        assert(!occurs_at(h, f, 0));
        let d = h.drop_first();
        assert forall|j: int| !#[trigger] occurs_at(d, f, j) by {
            if occurs_at(d, f, j) {
                assert(h.subrange(j + 1, j + 1 + f.len()) =~= d.subrange(j, j + f.len()));
                assert(occurs_at(h, f, j + 1));
            }
        }
        lemma_replace_absent(d, f, t);
        assert(seq![h[0]] + d =~= h);
    }
}

/// Text before the first `f` that holds no `f[0]` is kept; the `f` after
/// it is replaced, and the rest is replaced in turn.
pub proof fn lemma_replace_at_first(x: Seq<char>, f: Seq<char>, y: Seq<char>, t: Seq<char>)
    requires
        f.len() > 0,
        forall|j: int| 0 <= j < x.len() ==> #[trigger] x[j] != f[0],
    ensures
        replace_all(x + f + y, f, t) == x + t + replace_all(y, f, t),
    decreases x.len(),
{
    let h = x + f + y;
    if x.len() == 0 {
        assert(h.take(f.len() as int) =~= f);
        assert(h.skip(f.len() as int) =~= y);
        assert(x + t =~= t);
    } else {
        assert(h[0] == x[0]);
        assert(h.take(f.len() as int)[0] != f[0]);
        let d = x.drop_first();
        assert(h.drop_first() =~= d + f + y);
        lemma_replace_at_first(d, f, y, t);
        assert(seq![x[0]] + (d + t + replace_all(y, f, t)) =~= x + t + replace_all(y, f, t));
    }
}

/// `str::replace` with a non-empty pattern.
pub fn replace_chars(h: &Vec<char>, f: &Vec<char>, t: &Vec<char>) -> (r: Vec<char>)
    requires
        f@.len() > 0,
    ensures
        r@ == replace_all(h@, f@, t@),
{
    let mut out: Vec<char> = Vec::new();
    let mut i: usize = 0;
    assert(h@.skip(0) =~= h@);
    assert(out@ + replace_all(h@, f@, t@) =~= replace_all(h@, f@, t@));
    while i < h.len()
        invariant
            f@.len() > 0,
            i <= h@.len(),
            out@ + replace_all(h@.skip(i as int), f@, t@) == replace_all(h@, f@, t@),
        decreases h@.len() - i,
    {
        if f.len() <= h.len() - i && occurs_at_exec(h, f, i) {
            proof {
                lemma_replace_step(h@, f@, t@, i as int);
            }
            let ghost before = out@;
            for k in 0..t.len()
                invariant
                    out@ == before + t@.take(k as int),
            {
                out.push(t[k]);
                assert(t@.take(k + 1) =~= t@.take(k as int).push(t@[k as int]));
            }
            assert(t@.take(t@.len() as int) =~= t@);
            assert(before + (t@ + replace_all(h@.skip(i + f@.len()), f@, t@)) =~= out@ + replace_all(
                h@.skip(i + f@.len()),
                f@,
                t@,
            ));
            i = i + f.len();
        } else {
            proof {
                if i + f@.len() <= h@.len() {
                    lemma_replace_step(h@, f@, t@, i as int);
                } else {
                    assert(h@.skip(i as int).drop_first() =~= h@.skip(i + 1));
                }
            }
            let ghost before = out@;
            out.push(h[i]);
            assert(before + (seq![h@[i as int]] + replace_all(h@.skip(i + 1), f@, t@)) =~= out@
                + replace_all(h@.skip(i + 1), f@, t@));
            i = i + 1;
        }
    }
    assert(h@.skip(h@.len() as int) =~= Seq::<char>::empty());
    assert(out@ + Seq::<char>::empty() =~= out@);
    out
}

/// The lines of `s` (`str::lines`): the pieces between `\n`, without a
/// last empty piece, each that ended at a `\n` losing one `\r` before it.
pub open spec fn lines_of(s: Seq<char>) -> Seq<Seq<char>> {
    let p = split_on(s, '\n');
    let kept = if p.last().len() == 0 { p.drop_last() } else { p };
    kept.map(
        |k: int, x: Seq<char>|
            if k < p.len() - 1 && x.len() > 0 && x.last() == '\r' {
                x.drop_last()
            } else {
                x
            },
    )
}

/// `str::lines`.
pub fn lines_chars(s: &Vec<char>) -> (r: Vec<Vec<char>>)
    ensures
        r@.len() == lines_of(s@).len(),
        forall|k: int| 0 <= k < r@.len() ==> #[trigger] r@[k]@ == lines_of(s@)[k],
{
    let pieces = split_chars(s, '\n');
    let ghost p = split_on(s@, '\n');
    proof {
        lemma_split_on_nonempty(s@, '\n');
    }
    let n = if pieces[pieces.len() - 1].len() == 0 { pieces.len() - 1 } else { pieces.len() };
    let mut r: Vec<Vec<char>> = Vec::new();
    for k in 0..n
        invariant
            p == split_on(s@, '\n'),
            p.len() >= 1,
            n <= pieces@.len(),
            pieces@.len() == p.len(),
            forall|j: int| 0 <= j < pieces@.len() ==> #[trigger] pieces@[j]@ == p[j],
            n == lines_of(s@).len(),
            r@.len() == k,
            forall|j: int| 0 <= j < k ==> #[trigger] r@[j]@ == lines_of(s@)[j],
    {
        let piece = &pieces[k];
        proof {
            let kept = if p.last().len() == 0 { p.drop_last() } else { p };
            assert(kept[k as int] == p[k as int]);
        }
        if k + 1 < pieces.len() && piece.len() > 0 && piece[piece.len() - 1] == '\r' {
            let line = sub_chars(piece, 0, piece.len() - 1);
            assert(line@ =~= piece@.drop_last());
            r.push(line);
        } else {
            let line = sub_chars(piece, 0, piece.len());
            assert(line@ =~= piece@);
            r.push(line);
        }
    }
    r
}

/// The pieces joined with `sep` between them (`[&str]::join`).
pub open spec fn join_with(pieces: Seq<Seq<char>>, sep: Seq<char>) -> Seq<char>
    decreases pieces.len(),
{
    if pieces.len() == 0 {
        Seq::empty()
    } else if pieces.len() == 1 {
        pieces[0]
    } else {
        join_with(pieces.drop_last(), sep) + sep + pieces.last()
    }
}

/// The characters of the string literal given as a list.
pub fn chars_lit(s: &str) -> (r: Vec<char>)
    ensures
        r@ == s@,
{
    chars_of(s)
}

} // verus!

verus! {

/// The pieces of `s` between occurrences of `a` or `b`.
pub open spec fn split_on2(s: Seq<char>, a: char, b: char) -> Seq<Seq<char>>
    decreases s.len(),
{
    if s.len() == 0 {
        seq![Seq::<char>::empty()]
    } else {
        let rest = split_on2(s.drop_last(), a, b);
        if s.last() == a || s.last() == b {
            rest.push(Seq::<char>::empty())
        } else {
            rest.update(rest.len() - 1, rest.last().push(s.last()))
        }
    }
}

pub proof fn lemma_split_on2_nonempty(s: Seq<char>, a: char, b: char)
    ensures
        split_on2(s, a, b).len() >= 1,
    decreases s.len(),
{
    if s.len() > 0 {
        lemma_split_on2_nonempty(s.drop_last(), a, b);
    }
}

/// Splits `s` at every `a` and every `b`, as `split_on2` says.
pub fn split_chars2(s: &Vec<char>, a: char, b: char) -> (r: Vec<Vec<char>>)
    ensures
        r@.len() == split_on2(s@, a, b).len(),
        forall|k: int| 0 <= k < r@.len() ==> #[trigger] r@[k]@ == split_on2(s@, a, b)[k],
{
    let mut done: Vec<Vec<char>> = Vec::new();
    let mut cur: Vec<char> = Vec::new();
    for i in 0..s.len()
        invariant
            done@.len() + 1 == split_on2(s@.take(i as int), a, b).len(),
            forall|k: int| 0 <= k < done@.len() ==> #[trigger] done@[k]@ == split_on2(s@.take(i as int), a, b)[k],
            cur@ == split_on2(s@.take(i as int), a, b).last(),
    {
        let ghost pre = s@.take(i as int);
        assert(s@.take(i + 1).drop_last() =~= pre);
        assert(s@.take(i + 1).last() == s@[i as int]);
        proof { lemma_split_on2_nonempty(pre, a, b); }
        if s[i] == a || s[i] == b {
            let piece = cur;
            done.push(piece);
            cur = Vec::new();
        } else {
            cur.push(s[i]);
        }
    }
    assert(s@.take(s@.len() as int) =~= s@);
    done.push(cur);
    done
}

/// The pieces that are not empty once trimmed, trimmed.
pub open spec fn trimmed_nonblank(pieces: Seq<Seq<char>>) -> Seq<Seq<char>>
    decreases pieces.len(),
{
    if pieces.len() == 0 {
        Seq::empty()
    } else {
        let r = trimmed_nonblank(pieces.drop_last());
        let t = trim(pieces.last());
        if t.len() > 0 {
            r.push(t)
        } else {
            r
        }
    }
}

/// The pieces that are not empty once trimmed, trimmed, in order.
pub fn trimmed_nonblank_exec(pieces: &Vec<Vec<char>>) -> (r: Vec<Vec<char>>)
    ensures
        r@.len() == trimmed_nonblank(pieces@.map_values(|p: Vec<char>| p@)).len(),
        forall|k: int| 0 <= k < r@.len() ==> #[trigger] r@[k]@ == trimmed_nonblank(
            pieces@.map_values(|p: Vec<char>| p@),
        )[k],
{
    let ghost ps = pieces@.map_values(|p: Vec<char>| p@);
    let mut r: Vec<Vec<char>> = Vec::new();
    for i in 0..pieces.len()
        invariant
            ps == pieces@.map_values(|p: Vec<char>| p@),
            r@.len() == trimmed_nonblank(ps.take(i as int)).len(),
            forall|k: int| 0 <= k < r@.len() ==> #[trigger] r@[k]@ == trimmed_nonblank(ps.take(i as int))[k],
    {
        assert(ps.take(i + 1).drop_last() =~= ps.take(i as int));
        assert(ps.take(i + 1).last() == pieces@[i as int]@);
        let t = trim_chars(&pieces[i]);
        if t.len() > 0 {
            r.push(t);
        }
    }
    assert(ps.take(ps.len() as int) =~= ps);
    r
}

/// The pieces joined by `sep`, as `join_with` says.
pub fn join_chars(pieces: &Vec<Vec<char>>, sep: char) -> (r: Vec<char>)
    ensures
        r@ == join_with(pieces@.map_values(|p: Vec<char>| p@), seq![sep]),
{
    let ghost ps = pieces@.map_values(|p: Vec<char>| p@);
    let mut r: Vec<char> = Vec::new();
    for i in 0..pieces.len()
        invariant
            ps == pieces@.map_values(|p: Vec<char>| p@),
            r@ == join_with(ps.take(i as int), seq![sep]),
    {
        assert(ps.take(i + 1).drop_last() =~= ps.take(i as int));
        assert(ps.take(i + 1).last() == pieces@[i as int]@);
        let ghost before = r@;
        if i > 0 {
            r.push(sep);
        }
        let p = &pieces[i];
        for k in 0..p.len()
            invariant
                r@ == (if i > 0 { before + seq![sep] } else { before }) + p@.take(k as int),
        {
            r.push(p[k]);
            assert(p@.take(k + 1) =~= p@.take(k as int).push(p@[k as int]));
        }
        assert(p@.take(p@.len() as int) =~= p@);
        proof {
            if i == 0 {
                assert(ps.take(1) =~= seq![p@]);
                assert(before =~= Seq::<char>::empty());
                assert(r@ =~= p@);
            } else {
                assert(r@ =~= before + seq![sep] + p@);
            }
        }
    }
    assert(ps.take(ps.len() as int) =~= ps);
    r
}

} // verus!
