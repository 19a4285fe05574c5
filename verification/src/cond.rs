//! Conditions: comparisons of numbers, booleans and words, all read as
//! truth values.
use vstd::prelude::*;
use crate::text::{
    chars_of, first_index, lemma_first_index, split_once, split_once_chars, string_of, trim,
    trim_chars, lead_spaces, trail_spaces, is_space, occurs_at, lemma_trim_around, lemma_trim_front,
    lemma_trim_back, lemma_lead_char, lemma_trail_char,
};

verus! {

/// The text of operator `op`, in the order in which they are tried.
pub open spec fn op_text(op: int) -> Seq<char> {
    if op == 0 {
        seq!['=', '=']
    } else if op == 1 {
        seq!['!', '=']
    } else if op == 2 {
        seq!['>']
    } else if op == 3 {
        seq!['<']
    } else if op == 4 {
        seq!['<', '=']
    } else {
        seq!['>', '=']
    }
}

/// The first operator, from `op` on, that occurs in `t`, with what
/// stands before and after its first occurrence.
pub open spec fn op_split_from(t: Seq<char>, op: int) -> Option<(int, Seq<char>, Seq<char>)>
    decreases 6 - op,
{
    if op < 0 || op >= 6 {
        None
    } else {
        match split_once(t, op_text(op)) {
            Some((l, r)) => Some((op, l, r)),
            None => op_split_from(t, op + 1),
        }
    }
}

/// The operator a condition is split at: `==`, `!=`, `>`, `<`, `<=`,
/// `>=`, the first of these that occurs, at its first occurrence.
pub open spec fn op_split(t: Seq<char>) -> Option<(int, Seq<char>, Seq<char>)> {
    op_split_from(t, 0)
}

/// Comparing two truth values (`false < true`).
pub open spec fn apply_op(op: int, a: bool, b: bool) -> bool {
    if op == 0 {
        a == b
    } else if op == 1 {
        a != b
    } else if op == 2 {
        a && !b
    } else if op == 3 {
        !a && b
    } else if op == 4 {
        !a || b
    } else {
        a || !b
    }
}

pub open spec fn is_digit(c: char) -> bool {
    '0' <= c && c <= '9'
}

/// The number of `.` in `t`.
pub open spec fn count_dots(t: Seq<char>) -> nat
    decreases t.len(),
{
    if t.len() == 0 {
        0
    } else {
        count_dots(t.drop_last()) + if t.last() == '.' { 1nat } else { 0 }
    }
}

/// `t` is made of digits and at most one `.`.
pub open spec fn numeric(t: Seq<char>) -> bool {
    (forall|i: int| 0 <= i < t.len() ==> is_digit(#[trigger] t[i]) || t[i] == '.') && count_dots(t) <= 1
}

/// The value of the decimal digits `t`.
pub open spec fn digits_value(t: Seq<char>) -> nat
    decreases t.len(),
{
    if t.len() == 0 {
        0
    } else {
        digits_value(t.drop_last()) * 10 + (t.last() as nat - '0' as nat) as nat
    }
}

/// A leaf read as a decimal fraction: digits with one `.`.
pub open spec fn is_float_leaf(t: Seq<char>) -> bool {
    numeric(t) && count_dots(t) == 1
}

/// The leaves read as decimal fractions, in the order they are read.
pub open spec fn float_texts(s: Seq<char>) -> Seq<Seq<char>>
    decreases s.len(),
{
    let t = trim(s);
    proof {
        lemma_trim_len(s);
        lemma_op_split(t);
    }
    match op_split(t) {
        Some((_, l, r)) => float_texts(l) + float_texts(r),
        None => if is_float_leaf(t) {
            seq![t]
        } else {
            Seq::empty()
        },
    }
}

/// The truth value of a leaf, with `vals[0]` the value of a fraction
/// (whether it is positive); `None` where the leaf cannot be read: an
/// empty leaf, a lone `.`, or a whole number beyond `isize::MAX`.
pub open spec fn leaf_outcome(t: Seq<char>, vals: Seq<bool>) -> Option<bool> {
    if numeric(t) {
        if count_dots(t) == 1 {
            if t.len() == 1 || vals.len() == 0 {
                None
            } else {
                Some(vals[0])
            }
        } else if t.len() == 0 || digits_value(t) > isize::MAX {
            None
        } else {
            Some(digits_value(t) > 0)
        }
    } else if t == seq!['t', 'r', 'u', 'e'] {
        Some(true)
    } else if t == seq!['f', 'a', 'l', 's', 'e'] {
        Some(false)
    } else if t == seq!['"', '"'] || t == seq!['\'', '\''] {
        Some(false)
    } else {
        Some(true)
    }
}

/// The truth value of the condition `s`, given in `vals` whether each of
/// its fractions (`float_texts(s)`, in order) is positive; `None` where a
/// leaf cannot be read. A condition with an operator is split at it and
/// both sides compared; otherwise it is a leaf: a whole number is true
/// when positive, `true` and `false` are themselves, an empty quoted
/// word is false, and any other word is true.
pub open spec fn cond_outcome(s: Seq<char>, vals: Seq<bool>) -> Option<bool>
    decreases s.len(),
{
    let t = trim(s);
    proof {
        lemma_trim_len(s);
        lemma_op_split(t);
    }
    match op_split(t) {
        Some((op, l, r)) => {
            let n = float_texts(l).len() as int;
            match (cond_outcome(l, vals.take(n)), cond_outcome(r, vals.skip(n))) {
                (Some(a), Some(b)) => Some(apply_op(op, a, b)),
                _ => None,
            }
        },
        None => leaf_outcome(t, vals),
    }
}

pub proof fn lemma_trim_len(s: Seq<char>)
    ensures
        trim(s).len() <= s.len(),
{
    lemma_lead_le(s);
    let a = s.skip(lead_spaces(s) as int);
    lemma_trail_le(a);
}

proof fn lemma_lead_le(s: Seq<char>)
    ensures
        lead_spaces(s) <= s.len(),
    decreases s.len(),
{
    if s.len() > 0 {
        lemma_lead_le(s.drop_first());
    }
}

proof fn lemma_trail_le(s: Seq<char>)
    ensures
        trail_spaces(s) <= s.len(),
    decreases s.len(),
{
    if s.len() > 0 {
        lemma_trail_le(s.drop_last());
    }
}

proof fn lemma_op_split_from(t: Seq<char>, op: int)
    ensures
        op_split_from(t, op) matches Some((o, l, r)) ==> 0 <= o < 6 && l.len() < t.len() && r.len()
            < t.len() && split_once(t, op_text(o)) == Some((l, r)),
    decreases 6 - op,
{
    if 0 <= op < 6 {
        lemma_first_index(t, op_text(op));
        if split_once(t, op_text(op)) is None {
            lemma_op_split_from(t, op + 1);
        }
    }
}

pub proof fn lemma_op_split(t: Seq<char>)
    ensures
        op_split(t) matches Some((o, l, r)) ==> 0 <= o < 6 && l.len() < t.len() && r.len() < t.len(),
{
    lemma_op_split_from(t, 0);
}

} // verus!

verus! {

fn op_chars(op: usize) -> (r: Vec<char>)
    requires
        op < 6,
    ensures
        r@ == op_text(op as int),
{
    if op == 0 {
        vec!['=', '=']
    } else if op == 1 {
        vec!['!', '=']
    } else if op == 2 {
        vec!['>']
    } else if op == 3 {
        vec!['<']
    } else if op == 4 {
        vec!['<', '=']
    } else {
        vec!['>', '=']
    }
}

/// Splits `t` at its operator, as `op_split` says.
fn op_split_exec(t: &Vec<char>) -> (r: Option<(usize, Vec<char>, Vec<char>)>)
    ensures
        r is None <==> op_split(t@) is None,
        r matches Some((o, a, b)) ==> op_split(t@) == Some((o as int, a@, b@)),
{
    let mut op: usize = 0;
    while op < 6
        invariant
            op <= 6,
            op_split(t@) == op_split_from(t@, op as int),
        decreases 6 - op,
    {
        let pat = op_chars(op);
        match split_once_chars(t, &pat) {
            Some((a, b)) => {
                return Some((op, a, b));
            },
            None => {},
        }
        op = op + 1;
    }
    None
}

/// Whether `t` is made of digits and at most one `.`, and how many dots
/// it has (the count is exact when the answer is yes).
fn numeric_exec(t: &Vec<char>) -> (r: (bool, usize))
    ensures
        r.0 == numeric(t@),
        r.0 ==> r.1 == count_dots(t@),
{
    let mut c: usize = 0;
    for k in 0..t.len()
        invariant
            forall|i: int| 0 <= i < k ==> is_digit(#[trigger] t@[i]) || t@[i] == '.',
            c == count_dots(t@.take(k as int)),
            c <= 1,
    {
        assert(t@.take(k + 1).drop_last() =~= t@.take(k as int));
        let ch = t[k];
        if '0' <= ch && ch <= '9' {
        } else if ch == '.' && c == 0 {
            c = c + 1;
        } else {
            proof {
                if ch == '.' {
                    lemma_dots_prefix(t@, k + 1);
                }
            }
            assert(!is_digit(t@[k as int]) ==> !numeric(t@) || t@[k as int] == '.');
            return (false, c);
        }
    }
    assert(t@.take(t@.len() as int) =~= t@);
    (true, c)
}

/// The dots of a prefix are no more than those of the whole.
proof fn lemma_dots_prefix(t: Seq<char>, k: int)
    requires
        0 <= k <= t.len(),
    ensures
        count_dots(t.take(k)) <= count_dots(t),
    decreases t.len() - k,
{
    if k < t.len() {
        lemma_dots_prefix(t, k + 1);
        assert(t.take(k + 1).drop_last() =~= t.take(k));
    } else {
        assert(t.take(k) =~= t);
    }
}

/// The value of a prefix of digits is no more than that of the whole.
proof fn lemma_digits_prefix(t: Seq<char>, k: int)
    requires
        0 <= k <= t.len(),
    ensures
        digits_value(t.take(k)) <= digits_value(t),
    decreases t.len() - k,
{
    if k < t.len() {
        lemma_digits_prefix(t, k + 1);
        assert(t.take(k + 1).drop_last() =~= t.take(k));
    } else {
        assert(t.take(k) =~= t);
    }
}

/// The truth value of a whole number, if it fits in `isize`.
fn int_leaf(t: &Vec<char>) -> (r: Option<bool>)
    requires
        numeric(t@),
        count_dots(t@) == 0,
    ensures
        r == (if t@.len() == 0 || digits_value(t@) > isize::MAX {
            None::<bool>
        } else {
            Some(digits_value(t@) > 0)
        }),
{
    if t.len() == 0 {
        return None;
    }
    let max: u64 = isize::MAX as u64;
    let mut acc: u64 = 0;
    for k in 0..t.len()
        invariant
            numeric(t@),
            count_dots(t@) == 0,
            max == isize::MAX,
            acc == digits_value(t@.take(k as int)),
            acc <= max,
    {
        assert(t@.take(k + 1).drop_last() =~= t@.take(k as int));
        proof {
            lemma_dots_prefix(t@, k + 1);
            if t@[k as int] == '.' {
                assert(count_dots(t@.take(k + 1)) >= 1);
            }
        }
        let ch = t[k];
        let d: u64 = ((ch as u32) - ('0' as u32)) as u64;
        assert(d == (t@.take(k + 1).last() as nat - '0' as nat));
        if acc > (max - d) / 10 {
            proof {
                assert(acc * 10 + d > max) by (nonlinear_arith)
                    requires
                        acc > (max - d) / 10,
                        d <= max,
                ;
                lemma_digits_prefix(t@, k + 1);
            }
            return None;
        }
        assert(acc * 10 + d <= max) by (nonlinear_arith)
            requires
                acc <= (max - d) / 10,
                d <= max,
        ;
        acc = acc * 10 + d;
    }
    assert(t@.take(t@.len() as int) =~= t@);
    Some(acc > 0)
}

fn same_chars(a: &Vec<char>, b: &Vec<char>) -> (r: bool)
    ensures
        r == (a@ == b@),
{
    if a.len() != b.len() {
        return false;
    }
    for k in 0..a.len()
        invariant
            a@.len() == b@.len(),
            forall|i: int| 0 <= i < k ==> a@[i] == b@[i],
    {
        if a[k] != b[k] {
            return false;
        }
    }
    assert(a@ =~= b@);
    true
}

/// Appends the fractions among the leaves of `s`, as `float_texts` says.
#[verifier::spinoff_prover]
#[verifier::rlimit(40)]
fn float_texts_exec(s: &Vec<char>, out: &mut Vec<Vec<char>>)
    ensures
        final(out)@.len() == old(out)@.len() + float_texts(s@).len(),
        forall|i: int| 0 <= i < old(out)@.len() ==> #[trigger] final(out)@[i] == old(out)@[i],
        forall|i: int|
            0 <= i < float_texts(s@).len() ==> #[trigger] final(out)@[old(out)@.len() + i]@
                == float_texts(s@)[i],
    decreases s@.len(),
{
    let t = trim_chars(s);
    proof {
        lemma_trim_len(s@);
        lemma_op_split(t@);
    }
    let ghost o0 = out@;
    match op_split_exec(&t) {
        Some((_, a, b)) => {
            float_texts_exec(&a, out);
            let ghost o1 = out@;
            float_texts_exec(&b, out);
            proof {
                let fa = float_texts(a@);
                let fb = float_texts(b@);
                assert(float_texts(s@) == fa + fb);
                assert forall|i: int|
                    0 <= i < float_texts(s@).len() implies #[trigger] out@[o0.len() + i]@
                    == float_texts(s@)[i] by {
                    if i < fa.len() {
                        assert(out@[o0.len() + i] == o1[o0.len() + i]);
                    } else {
                        assert(out@[o1.len() + (i - fa.len())]@ == fb[i - fa.len()]);
                    }
                }
            }
        },
        None => {
            let (is_num, dots) = numeric_exec(&t);
            if is_num && dots == 1 {
                out.push(t);
            }
        },
    }
}

/// Evaluates `s` reading the values of its fractions from `vals[start..]`;
/// gives also how many fractions it has.
fn eval_rec(s: &Vec<char>, vals: &Vec<bool>, start: usize) -> (r: (Option<bool>, usize))
    requires
        start + float_texts(s@).len() <= vals@.len(),
    ensures
        r.1 == float_texts(s@).len(),
        r.0 == cond_outcome(s@, vals@.subrange(start as int, start + r.1)),
    decreases s@.len(),
{
    let vl = vals.len();
    let t = trim_chars(s);
    proof {
        lemma_trim_len(s@);
        lemma_op_split(t@);
    }
    match op_split_exec(&t) {
        Some((op, a, b)) => {
            assert(float_texts(s@) == float_texts(a@) + float_texts(b@));
            let (ra, na) = eval_rec(&a, vals, start);
            let (rb, nb) = eval_rec(&b, vals, start + na);
            let ghost v = vals@.subrange(start as int, start + na + nb);
            assert(v.take(na as int) =~= vals@.subrange(start as int, start + na));
            assert(v.skip(na as int) =~= vals@.subrange(start + na, start + na + nb));
            let r = match (ra, rb) {
                (Some(x), Some(y)) => Some(
                    if op == 0 {
                        x == y
                    } else if op == 1 {
                        x != y
                    } else if op == 2 {
                        x && !y
                    } else if op == 3 {
                        !x && y
                    } else if op == 4 {
                        !x || y
                    } else {
                        x || !y
                    },
                ),
                _ => None,
            };
            (r, na + nb)
        },
        None => {
            let (is_num, dots) = numeric_exec(&t);
            if is_num {
                if dots == 1 {
                    let ghost v = vals@.subrange(start as int, start + 1);
                    if t.len() == 1 {
                        (None, 1)
                    } else {
                        assert(v[0] == vals@[start as int]);
                        (Some(vals[start]), 1)
                    }
                } else {
                    (int_leaf(&t), 0)
                }
            } else {
                let r = if same_chars(&t, &vec!['t', 'r', 'u', 'e']) {
                    true
                } else if same_chars(&t, &vec!['f', 'a', 'l', 's', 'e']) {
                    false
                } else if same_chars(&t, &vec!['"', '"']) || same_chars(&t, &vec!['\'', '\'']) {
                    false
                } else {
                    true
                };
                (Some(r), 0)
            }
        },
    }
}

/// The leaves of `cond` that read as fractions, in the order they are
/// read; whether each is positive is what `eval_cond` needs to know.
pub fn cond_float_leaves(cond: &str) -> (r: Vec<String>)
    ensures
        r@.len() == float_texts(cond@).len(),
        forall|i: int| 0 <= i < r@.len() ==> #[trigger] r@[i]@ == float_texts(cond@)[i],
{
    let s = chars_of(cond);
    let mut leaves: Vec<Vec<char>> = Vec::new();
    float_texts_exec(&s, &mut leaves);
    assert forall|j: int| 0 <= j < leaves@.len() implies #[trigger] leaves@[j]@ == float_texts(cond@)[j] by {
        assert(leaves@[0 + j] == leaves@[j]);
    }
    let mut r: Vec<String> = Vec::new();
    for i in 0..leaves.len()
        invariant
            leaves@.len() == float_texts(cond@).len(),
            forall|j: int| 0 <= j < leaves@.len() ==> #[trigger] leaves@[j]@ == float_texts(cond@)[j],
            r@.len() == i,
            forall|j: int| 0 <= j < i ==> #[trigger] r@[j]@ == float_texts(cond@)[j],
    {
        r.push(string_of(&leaves[i]));
    }
    r
}

/// The truth value of `cond`, with `float_positive[i]` telling whether
/// its `i`-th fraction is positive; `None` where a leaf cannot be read.
pub fn try_eval_cond(cond: &str, float_positive: &Vec<bool>) -> (r: Option<bool>)
    requires
        float_positive@.len() == float_texts(cond@).len(),
    ensures
        r == cond_outcome(cond@, float_positive@),
{
    let s = chars_of(cond);
    let (r, n) = eval_rec(&s, float_positive, 0);
    assert(float_positive@.subrange(0, n as int) =~= float_positive@);
    r
}

/// The truth value of `cond`, which can be read, with `float_positive[i]`
/// telling whether its `i`-th fraction is positive.
pub fn eval_cond(cond: &str, float_positive: &Vec<bool>) -> (r: bool)
    requires
        float_positive@.len() == float_texts(cond@).len(),
        cond_outcome(cond@, float_positive@) is Some,
    ensures
        Some(r) == cond_outcome(cond@, float_positive@),
{
    match try_eval_cond(cond, float_positive) {
        Some(b) => b,
        None => false,
    }
}

} // verus!

verus! {

// ---------------------------------------------------------------------
// Laws of `==` and `!=`
// ---------------------------------------------------------------------

/// `s` holds none of the characters of the operators: `=`, `!`, `<`, `>`.
pub open spec fn op_free(s: Seq<char>) -> bool {
    forall|i: int|
        0 <= i < s.len() ==> #[trigger] s[i] != '=' && s[i] != '!' && s[i] != '<' && s[i] != '>'
}

/// Comparing the outcomes of two sides with operator `op`.
pub open spec fn joined(op: int, a: Option<bool>, b: Option<bool>) -> Option<bool> {
    match (a, b) {
        (Some(x), Some(y)) => Some(apply_op(op, x, y)),
        _ => None,
    }
}

/// `l == r` (`op` 0) or `l != r` (`op` 1), for operator-free sides, is
/// split at that operator, between the sides less their outer white space.
proof fn lemma_split_at_op(l: Seq<char>, r: Seq<char>, op: int)
    requires
        op_free(l),
        op_free(r),
        op == 0 || op == 1,
    ensures
        op_split(trim(l + op_text(op) + r)) == Some(
            (op, l.skip(lead_spaces(l) as int), r.take(r.len() - trail_spaces(r))),
        ),
{
    let o = op_text(op);
    assert(!is_space(o[0]) && !is_space(o.last()));
    lemma_trim_around(l, o, r);
    lemma_lead_char(l);
    lemma_trail_char(r);
    let l2 = l.skip(lead_spaces(l) as int);
    let r2 = r.take(r.len() - trail_spaces(r));
    let t = l2 + o + r2;
    assert(trim(l + o + r) == t);
    let n = l2.len() as int;
    assert forall|j: int| 0 <= j < n implies #[trigger] t[j] == l[j + lead_spaces(l)] by {}
    assert forall|j: int| n + o.len() <= j < t.len() implies #[trigger] t[j] == r[j - n - o.len()] by {}
    assert(t.subrange(n, n + o.len()) =~= o);
    let eq = seq!['=', '='];
    if op == 0 {
        assert forall|j: int| 0 <= j < n implies !(#[trigger] occurs_at(t, eq, j)) by {
            assert(t.subrange(j, j + 2)[0] == t[j]);
        }
        lemma_first_index(t, eq);
        assert(occurs_at(t, eq, n));
        assert(t.take(n) =~= l2);
        assert(t.skip(n + 2) =~= r2);
    } else if op == 1 {
        assert forall|j: int| 0 <= j implies !(#[trigger] occurs_at(t, eq, j)) by {
            if occurs_at(t, eq, j) {
                assert(t.subrange(j, j + 2)[0] == t[j]);
                assert(t.subrange(j, j + 2)[1] == t[j + 1]);
                assert(t[n] == '!');
                assert(t[n + 1] == '=');
            }
        }
        lemma_first_index(t, eq);
        assert(op_split(t) == op_split_from(t, 1));
        let ne = seq!['!', '='];
        assert forall|j: int| 0 <= j < n implies !(#[trigger] occurs_at(t, ne, j)) by {
            assert(t.subrange(j, j + 2)[0] == t[j]);
        }
        lemma_first_index(t, ne);
        assert(occurs_at(t, ne, n));
        assert(t.take(n) =~= l2);
        assert(t.skip(n + 2) =~= r2);
    }
}

/// `l > r` (`op` 2) or `l < r` (`op` 3), for operator-free sides, is split
/// at that operator, between the sides less their outer white space.
#[verifier::rlimit(30)]
proof fn lemma_split_at_order(l: Seq<char>, r: Seq<char>, op: int)
    requires
        op_free(l),
        op_free(r),
        op == 2 || op == 3,
    ensures
        op_split(trim(l + op_text(op) + r)) == Some(
            (op, l.skip(lead_spaces(l) as int), r.take(r.len() - trail_spaces(r))),
        ),
{
    let o = op_text(op);
    assert(!is_space(o[0]) && !is_space(o.last()));
    lemma_trim_around(l, o, r);
    lemma_lead_char(l);
    lemma_trail_char(r);
    let l2 = l.skip(lead_spaces(l) as int);
    let r2 = r.take(r.len() - trail_spaces(r));
    let t = l2 + o + r2;
    assert(trim(l + o + r) == t);
    let n = l2.len() as int;
    assert forall|j: int| 0 <= j < n implies #[trigger] t[j] == l[j + lead_spaces(l)] by {}
    assert forall|j: int| n + o.len() <= j < t.len() implies #[trigger] t[j] == r[j - n - o.len()] by {}
    let eq = seq!['=', '='];
    assert(op_text(0) == eq);
    assert(op_text(1) == seq!['!', '=']);
    assert(op_text(2) == seq!['>']);
    // `>` or `<`: one character, and no `=` anywhere.
    assert(o.len() == 1);
    assert forall|j: int| 0 <= j < t.len() implies #[trigger] t[j] != '=' && (op == 3 ==> t[j] != '>') by {
        if j == n {
            assert(t[j] == o[0]);
        }
    }
    let ne = seq!['!', '='];
    assert forall|j: int| 0 <= j implies !(#[trigger] occurs_at(t, eq, j)) by {
        if occurs_at(t, eq, j) {
            assert(t.subrange(j, j + 2)[1] == t[j + 1]);
        }
    }
    assert forall|j: int| 0 <= j implies !(#[trigger] occurs_at(t, ne, j)) by {
        if occurs_at(t, ne, j) {
            assert(t.subrange(j, j + 2)[1] == t[j + 1]);
        }
    }
    assert(t.subrange(n, n + 1) =~= o);
    lemma_first_index(t, eq);
    lemma_first_index(t, ne);
    if first_index(t, eq) >= 0 {
        assert(!occurs_at(t, eq, first_index(t, eq)));
    }
    if first_index(t, ne) >= 0 {
        assert(!occurs_at(t, ne, first_index(t, ne)));
    }
    assert(split_once(t, op_text(0)) is None);
    assert(split_once(t, op_text(1)) is None);
    assert(op_split_from(t, 0) == op_split_from(t, 1));
    assert(op_split_from(t, 1) == op_split_from(t, 2));
    assert(op_split(t) == op_split_from(t, 2));
    let gt = seq!['>'];
    if op == 3 {
        assert forall|j: int| 0 <= j implies !(#[trigger] occurs_at(t, gt, j)) by {
            if occurs_at(t, gt, j) {
                assert(t.subrange(j, j + 1)[0] == t[j]);
            }
        }
        lemma_first_index(t, gt);
        if first_index(t, gt) >= 0 {
            assert(!occurs_at(t, gt, first_index(t, gt)));
        }
        assert(split_once(t, op_text(2)) is None);
        assert(op_split_from(t, 2) == op_split_from(t, 3));
        assert(op_split(t) == op_split_from(t, 3));
    }
    assert forall|j: int| 0 <= j < n implies !(#[trigger] occurs_at(t, o, j)) by {
        assert(t.subrange(j, j + 1)[0] == t[j]);
    }
    lemma_first_index(t, o);
    assert(occurs_at(t, o, n));
    assert(t.take(n) =~= l2);
    assert(t.skip(n + 1) =~= r2);
}

/// `l == r` and `l != r`, for operator-free sides, compare the outcomes of
/// the two sides; their fractions are those of `l`, then those of `r`.
proof fn lemma_compare(l: Seq<char>, r: Seq<char>, op: int, vals: Seq<bool>)
    requires
        op_free(l),
        op_free(r),
        0 <= op <= 3,
    ensures
        float_texts(l + op_text(op) + r) == float_texts(l) + float_texts(r),
        cond_outcome(l + op_text(op) + r, vals) == joined(
            op,
            cond_outcome(l, vals.take(float_texts(l).len() as int)),
            cond_outcome(r, vals.skip(float_texts(l).len() as int)),
        ),
{
    if op <= 1 {
        lemma_split_at_op(l, r, op);
    } else {
        lemma_split_at_order(l, r, op);
    }
    let l2 = l.skip(lead_spaces(l) as int);
    let r2 = r.take(r.len() - trail_spaces(r));
    lemma_trim_front(l);
    lemma_trim_back(r);
    assert(float_texts(l2) == float_texts(l));
    assert(float_texts(r2) == float_texts(r));
    let n = float_texts(l).len() as int;
    assert(cond_outcome(l2, vals.take(n)) == cond_outcome(l, vals.take(n)));
    assert(cond_outcome(r2, vals.skip(n)) == cond_outcome(r, vals.skip(n)));
    let s = l + op_text(op) + r;
    assert(cond_outcome(s, vals) == joined(op, cond_outcome(l2, vals.take(n)), cond_outcome(r2, vals.skip(n))));
}

/// `l != r` is the negation of `l == r`, for operator-free sides: the same
/// fractions are read, and where one is read the other is too.
pub proof fn law_ne_negates_eq(l: Seq<char>, r: Seq<char>, vals: Seq<bool>)
    requires
        op_free(l),
        op_free(r),
    ensures
        float_texts(l + seq!['!', '='] + r) == float_texts(l + seq!['=', '='] + r),
        cond_outcome(l + seq!['!', '='] + r, vals) == match cond_outcome(l + seq!['=', '='] + r, vals) {
            Some(b) => Some(!b),
            None => None,
        },
{
    lemma_compare(l, r, 0, vals);
    lemma_compare(l, r, 1, vals);
    assert(op_text(0) == seq!['=', '=']);
    assert(op_text(1) == seq!['!', '=']);
}

/// `==` and `!=` are symmetric, for operator-free sides: swapping the
/// sides (and so the order of their fractions) keeps the outcome.
pub proof fn law_eq_ne_symmetric(l: Seq<char>, r: Seq<char>, vl: Seq<bool>, vr: Seq<bool>)
    requires
        op_free(l),
        op_free(r),
        vl.len() == float_texts(l).len(),
        vr.len() == float_texts(r).len(),
    ensures
        cond_outcome(l + seq!['=', '='] + r, vl + vr) == cond_outcome(r + seq!['=', '='] + l, vr + vl),
        cond_outcome(l + seq!['!', '='] + r, vl + vr) == cond_outcome(r + seq!['!', '='] + l, vr + vl),
{
    assert(op_text(0) == seq!['=', '=']);
    assert(op_text(1) == seq!['!', '=']);
    assert((vl + vr).take(vl.len() as int) =~= vl);
    assert((vl + vr).skip(vl.len() as int) =~= vr);
    assert((vr + vl).take(vr.len() as int) =~= vr);
    assert((vr + vl).skip(vr.len() as int) =~= vl);
    lemma_compare(l, r, 0, vl + vr);
    lemma_compare(r, l, 0, vr + vl);
    lemma_compare(l, r, 1, vl + vr);
    lemma_compare(r, l, 1, vr + vl);
}

/// The comparisons read truth values, ordered `false < true`, for
/// operator-free sides `l` and `r`: where both sides can be read, with
/// outcomes `a` and `b`, `l == r` is `a == b`, `l != r` is `a != b`,
/// `l > r` is `a && !b` and `l < r` is `!a && b`; where a side cannot be
/// read, neither can the comparison.
pub proof fn law_comparisons(l: Seq<char>, r: Seq<char>, vals: Seq<bool>)
    requires
        op_free(l),
        op_free(r),
    ensures
        ({
            let n = float_texts(l).len() as int;
            let a = cond_outcome(l, vals.take(n));
            let b = cond_outcome(r, vals.skip(n));
            &&& cond_outcome(l + seq!['=', '='] + r, vals) == (if a is Some && b is Some {
                Some(a->0 == b->0)
            } else {
                None
            })
            &&& cond_outcome(l + seq!['!', '='] + r, vals) == (if a is Some && b is Some {
                Some(a->0 != b->0)
            } else {
                None
            })
            &&& cond_outcome(l + seq!['>'] + r, vals) == (if a is Some && b is Some {
                Some(a->0 && !b->0)
            } else {
                None
            })
            &&& cond_outcome(l + seq!['<'] + r, vals) == (if a is Some && b is Some {
                Some(!a->0 && b->0)
            } else {
                None
            })
        }),
{
    assert(op_text(0) == seq!['=', '=']);
    assert(op_text(1) == seq!['!', '=']);
    assert(op_text(2) == seq!['>']);
    assert(op_text(3) == seq!['<']);
    lemma_compare(l, r, 0, vals);
    lemma_compare(l, r, 1, vals);
    lemma_compare(l, r, 2, vals);
    lemma_compare(l, r, 3, vals);
}

/// `l > r` is `r < l`, for operator-free sides (swapping the sides swaps
/// the order of their fractions).
pub proof fn law_gt_is_reversed_lt(l: Seq<char>, r: Seq<char>, vl: Seq<bool>, vr: Seq<bool>)
    requires
        op_free(l),
        op_free(r),
        vl.len() == float_texts(l).len(),
        vr.len() == float_texts(r).len(),
    ensures
        cond_outcome(l + seq!['>'] + r, vl + vr) == cond_outcome(r + seq!['<'] + l, vr + vl),
{
    assert(op_text(2) == seq!['>']);
    assert(op_text(3) == seq!['<']);
    assert((vl + vr).take(vl.len() as int) =~= vl);
    assert((vl + vr).skip(vl.len() as int) =~= vr);
    assert((vr + vl).take(vr.len() as int) =~= vr);
    assert((vr + vl).skip(vr.len() as int) =~= vl);
    lemma_compare(l, r, 2, vl + vr);
    lemma_compare(r, l, 3, vr + vl);
}

/// Text without the operators' characters has no operator to split at.
proof fn lemma_no_op(t: Seq<char>)
    requires
        op_free(t),
    ensures
        op_split(t) is None,
{
    assert forall|o: int| 0 <= o < 6 implies split_once(t, #[trigger] op_text(o)) is None by {
        let pat = op_text(o);
        assert forall|j: int| !(#[trigger] occurs_at(t, pat, j)) by {
            if occurs_at(t, pat, j) {
                assert(t.subrange(j, j + pat.len())[0] == t[j]);
            }
        }
        lemma_first_index(t, pat);
        if first_index(t, pat) >= 0 {
            assert(!occurs_at(t, pat, first_index(t, pat)));
        }
    }
    assert(op_split_from(t, 5) == op_split_from(t, 6));
    assert(op_split_from(t, 4) == op_split_from(t, 5));
    assert(op_split_from(t, 3) == op_split_from(t, 4));
    assert(op_split_from(t, 2) == op_split_from(t, 3));
    assert(op_split_from(t, 1) == op_split_from(t, 2));
    assert(op_split_from(t, 0) == op_split_from(t, 1));
}

/// Text whose ends are not white space is its own trim.
proof fn lemma_trim_self(t: Seq<char>)
    requires
        t.len() > 0,
        !is_space(t[0]),
        !is_space(t.last()),
    ensures
        trim(t) == t,
{
    lemma_lead_char(t);
    lemma_trail_char(t);
    assert(t.skip(0) =~= t);
    assert(t.take(t.len() as int) =~= t);
}

/// Digits without a dot have no dot to count.
proof fn lemma_no_dots(t: Seq<char>)
    requires
        forall|i: int| 0 <= i < t.len() ==> is_digit(#[trigger] t[i]),
    ensures
        count_dots(t) == 0,
    decreases t.len(),
{
    if t.len() > 0 {
        assert forall|i: int| 0 <= i < t.len() - 1 implies is_digit(#[trigger] t.drop_last()[i]) by {
            assert(t.drop_last()[i] == t[i]);
        }
        lemma_no_dots(t.drop_last());
    }
}

/// Decimal digits have a positive value exactly when one of them is not 0.
proof fn lemma_digits_positive(t: Seq<char>)
    requires
        forall|i: int| 0 <= i < t.len() ==> is_digit(#[trigger] t[i]),
    ensures
        (digits_value(t) > 0) == (exists|i: int| 0 <= i < t.len() && t[i] != '0'),
    decreases t.len(),
{
    if t.len() > 0 {
        let d = t.drop_last();
        assert forall|i: int| 0 <= i < d.len() implies is_digit(#[trigger] d[i]) by {
            assert(d[i] == t[i]);
        }
        lemma_digits_positive(d);
        if exists|i: int| 0 <= i < d.len() && d[i] != '0' {
            let i = choose|i: int| 0 <= i < d.len() && d[i] != '0';
            assert(t[i] != '0');
        }
        if exists|i: int| 0 <= i < t.len() && t[i] != '0' {
            let i = choose|i: int| 0 <= i < t.len() && t[i] != '0';
            if i < d.len() {
                assert(d[i] != '0');
            }
        }
    }
}

/// A whole number, written in decimal digits (not beyond `isize::MAX`),
/// is true exactly when one of its digits is not 0.
pub proof fn law_whole_number_leaf(t: Seq<char>, vals: Seq<bool>)
    requires
        t.len() > 0,
        forall|i: int| 0 <= i < t.len() ==> '0' <= #[trigger] t[i] <= '9',
        digits_value(t) <= isize::MAX,
    ensures
        cond_outcome(t, vals) == Some(exists|i: int| 0 <= i < t.len() && t[i] != '0'),
{
    assert forall|i: int| 0 <= i < t.len() implies is_digit(#[trigger] t[i]) && !is_space(t[i])
        && t[i] != '=' && t[i] != '!' && t[i] != '<' && t[i] != '>' by {}
    assert(!is_space(t[0]) && !is_space(t.last()));
    lemma_trim_self(t);
    lemma_trim_len(t);
    lemma_no_op(t);
    lemma_no_dots(t);
    lemma_digits_positive(t);
    assert(numeric(t));
}

/// A word (a leaf with some character that is neither a digit nor `.`)
/// is true, except `false` and the empty quotes `""` and `''`.
pub proof fn law_word_leaf(t: Seq<char>, vals: Seq<bool>)
    requires
        op_free(t),
        t.len() > 0,
        !is_space(t[0]),
        !is_space(t.last()),
        exists|i: int| 0 <= i < t.len() && !('0' <= #[trigger] t[i] <= '9') && t[i] != '.',
    ensures
        cond_outcome(t, vals) == Some(
            t != seq!['f', 'a', 'l', 's', 'e'] && t != seq!['"', '"'] && t != seq!['\'', '\''],
        ),
{
    lemma_trim_self(t);
    lemma_trim_len(t);
    lemma_no_op(t);
    let i = choose|i: int| 0 <= i < t.len() && !('0' <= #[trigger] t[i] <= '9') && t[i] != '.';
    assert(!numeric(t)) by {
        assert(!(is_digit(t[i]) || t[i] == '.'));
    }
}

} // verus!
