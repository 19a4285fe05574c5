//! Reading a configuration file: its global definitions, its ignore
//! block and its block of mappings.
use vstd::prelude::*;
use crate::text::{
    chars_of, string_of, split_chars, lines_chars, find_chars, sub_chars, trim_chars,
    split_once_chars, replace_chars, split_chars2, trimmed_nonblank_exec, join_chars,
    finishes_with_chars, begins_with_chars, lemma_first_index, lemma_split_on_nonempty, is_space,
    lead_spaces, trail_spaces, occurs_at,
    begins_with, finishes_with, first_index, has, join_with, lines_of, replace_all, split_on,
    split_on2, split_once, trim, trimmed_nonblank, lemma_replace_absent, lemma_replace_at_first,
};
use crate::parse::{
    param_empty, Config, Properties, param_is_empty, parse_event, prop_keys, prop_index, key_view,
    lemma_prop_index, lemma_string_index, string_index,
};

verus! {

/// Why a configuration cannot be read.
#[derive(Debug, Clone, Copy, PartialEq, Eq, Structural)]
pub enum ConfError {
    /// The text has no `@FMAP` block.
    NoFmap,
    /// The function definitions cannot be read.
    BadFunctions,
    /// `@IGNORE` is not followed by `{`.
    IgnoreUnopened,
    /// The `@IGNORE` block has no `}`.
    IgnoreUnclosed,
    /// `@FMAP` is not followed by `{`.
    FmapUnopened,
    /// The `@FMAP` block has no `}`.
    FmapUnclosed,
    /// A mapping line has no `->`.
    NoArrow,
    /// A mapping's extension is not quoted as `'"..."'`.
    BadExtension,
    /// A mapping's fields are not in `[...]`.
    BadFields,
    /// A mapping does not have six fields.
    FieldCount,
    /// A mapping's first field, the directory, is empty.
    NoRoute,
    /// A mapping has no seventh field, the directory to watch.
    NoMonitorDir,
}

// ---------------------------------------------------------------------
// The steps, as specifications
// ---------------------------------------------------------------------

/// The text with every line trimmed and the blank ones dropped.
pub open spec fn clean_text(file: Seq<char>) -> Seq<char> {
    join_with(trimmed_nonblank(split_on(file, '\n')), seq!['\n'])
}

/// The nesting depth after a line: one deeper if it holds `{`, then one
/// shallower (never below zero) if it holds `}`.
pub open spec fn scope_step(sc: nat, l: Seq<char>) -> nat {
    let a = if has(l, seq!['{']) { sc + 1 } else { sc };
    if has(l, seq!['}']) {
        if a > 0 { (a - 1) as nat } else { 0 }
    } else {
        a
    }
}

/// The depth after `ls`, and the definitions `k := v` found outside
/// every block (on lines that do not end with `}`), each trimmed.
pub open spec fn defs_scan(ls: Seq<Seq<char>>) -> (nat, Seq<(Seq<char>, Seq<char>)>)
    decreases ls.len(),
{
    if ls.len() == 0 {
        (0, Seq::empty())
    } else {
        let (sc, ds) = defs_scan(ls.drop_last());
        let l = ls.last();
        let sc2 = scope_step(sc, l);
        if sc2 > 0 || finishes_with(l, seq!['}']) {
            (sc2, ds)
        } else {
            match split_once(l, seq![':', '=']) {
                Some((k, v)) => (sc2, ds.push((trim(k), trim(v)))),
                None => (sc2, ds),
            }
        }
    }
}

/// The global definitions of a text, in order.
pub open spec fn global_defs(text: Seq<char>) -> Seq<(Seq<char>, Seq<char>)> {
    defs_scan(lines_of(text)).1
}

/// For a value that begins with `CMD`, the command it names: what
/// follows its fourth character, or `None` when there is no fourth
/// character or it is not ASCII (the command cannot be cut out there).
pub open spec fn command_of(v: Seq<char>) -> Option<Option<Seq<char>>> {
    if !begins_with(v, seq!['C', 'M', 'D']) {
        None
    } else if v.len() >= 4 && (v[3] as u32) < 0x80 {
        Some(Some(v.skip(4)))
    } else {
        Some(None)
    }
}

/// The index of the first pair in `sc` with key `k`, or -1.
pub open spec fn key_pos(sc: Seq<(Seq<char>, Seq<char>)>, k: Seq<char>) -> int
    decreases sc.len(),
{
    if sc.len() == 0 {
        -1
    } else if key_pos(sc.drop_last(), k) >= 0 {
        key_pos(sc.drop_last(), k)
    } else if sc.last().0 == k {
        sc.len() - 1
    } else {
        -1
    }
}

/// `sc` with `k` bound to `v`: in place of its old value, or added last.
pub open spec fn bound(sc: Seq<(Seq<char>, Seq<char>)>, k: Seq<char>, v: Seq<char>) -> Seq<(Seq<char>, Seq<char>)> {
    let i = key_pos(sc, k);
    if i >= 0 {
        sc.update(i, (k, v))
    } else {
        sc.push((k, v))
    }
}

/// The bindings made by `defs` in turn: a later definition of a name
/// replaces the value of an earlier one.
pub open spec fn bind_all(defs: Seq<(Seq<char>, Seq<char>)>) -> Seq<(Seq<char>, Seq<char>)>
    decreases defs.len(),
{
    if defs.len() == 0 {
        Seq::empty()
    } else {
        bound(bind_all(defs.drop_last()), defs.last().0, defs.last().1)
    }
}

/// `text` with `@k` replaced by `v` for each binding, in order.
pub open spec fn substituted(text: Seq<char>, sc: Seq<(Seq<char>, Seq<char>)>) -> Seq<char>
    decreases sc.len(),
{
    if sc.len() == 0 {
        text
    } else {
        substituted(replace_all(text, seq!['@'] + sc[0].0, sc[0].1), sc.drop_first())
    }
}

/// `s` without its repeats (the first of each kept).
pub open spec fn dedup(s: Seq<Seq<char>>) -> Seq<Seq<char>>
    decreases s.len(),
{
    if s.len() == 0 {
        Seq::empty()
    } else {
        let r = dedup(s.drop_last());
        if r.contains(s.last()) {
            r
        } else {
            r.push(s.last())
        }
    }
}

/// The block after `tag` in `text`: where `tag` is, where its `{` is
/// after it, and how far the `}` is after that (each -1 when missing).
pub open spec fn block_at(text: Seq<char>, tag: Seq<char>) -> (int, int, int) {
    let sec = first_index(text, tag);
    let st = first_index(text.skip(sec), seq!['{']);
    let ed = first_index(text.skip(sec + st), seq!['}']);
    (sec, st, ed)
}

/// Reads the `@IGNORE` block: the names in it (split at `,` and at new
/// lines, trimmed, the blank ones dropped, each once), and the text with
/// the block cut out up to its `}`; a text without the block is kept.
pub open spec fn ignore_outcome(text: Seq<char>) -> Result<(Seq<Seq<char>>, Seq<char>), ConfError> {
    let tag = seq!['@', 'I', 'G', 'N', 'O', 'R', 'E'];
    let (sec, st, ed) = block_at(text, tag);
    if sec < 0 {
        Ok((Seq::empty(), text))
    } else if st < 0 {
        Err(ConfError::IgnoreUnopened)
    } else if ed < 0 {
        Err(ConfError::IgnoreUnclosed)
    } else {
        let block = text.subrange(sec + st, sec + st + ed);
        Ok((dedup(trimmed_nonblank(split_on2(block, ',', '\n'))), text.take(sec) + text.skip(sec + st + ed)))
    }
}

/// The lines of the `@FMAP` block, from its `{` up to its `}`.
pub open spec fn fmap_lines(text: Seq<char>) -> Result<Seq<Seq<char>>, ConfError> {
    let tag = seq!['@', 'F', 'M', 'A', 'P'];
    let (sec, st, ed) = block_at(text, tag);
    if sec < 0 {
        Err(ConfError::NoFmap)
    } else if st < 0 {
        Err(ConfError::FmapUnopened)
    } else if ed < 0 {
        Err(ConfError::FmapUnclosed)
    } else {
        Ok(lines_of(text.subrange(sec + st, sec + st + ed)))
    }
}

/// An extension written `'"ext"'`, without its quotes.
pub open spec fn unquote(e: Seq<char>) -> Option<Seq<char>> {
    if e.len() >= 4 && e.last() == '\'' && e[0] == '\'' && e[e.len() - 2] == '"' && e[1] == '"' {
        Some(e.subrange(2, e.len() - 2))
    } else {
        None
    }
}

/// A mapping line `'"ext"' -> [dir,cond,build,run,clean,events]`: its
/// key (extension, directory), or why it cannot be read.
pub open spec fn fmap_line_outcome(line: Seq<char>) -> Result<(Seq<char>, Seq<char>), ConfError> {
    match split_once(line, seq!['-', '>']) {
        None => Err(ConfError::NoArrow),
        Some((e, p)) => match unquote(trim(e)) {
            None => Err(ConfError::BadExtension),
            Some(ext) => {
                let p = trim(p);
                if !(p.len() >= 2 && p[0] == '[' && p.last() == ']') {
                    Err(ConfError::BadFields)
                } else {
                    let v = split_on(p.subrange(1, p.len() - 1), ',');
                    if v.len() != 6 {
                        Err(ConfError::FieldCount)
                    } else if param_empty(v[0]) {
                        Err(ConfError::NoRoute)
                    } else if v.len() <= 6 {
                        Err(ConfError::NoMonitorDir)
                    } else {
                        Ok((ext, v[0]))
                    }
                }
            },
        },
    }
}

/// The keys of the mapping lines, each once, or the first line's error.
pub open spec fn fmap_outcome(ls: Seq<Seq<char>>) -> Result<Seq<(Seq<char>, Seq<char>)>, ConfError>
    decreases ls.len(),
{
    if ls.len() == 0 {
        Ok(Seq::empty())
    } else {
        match fmap_outcome(ls.drop_last()) {
            Err(e) => Err(e),
            Ok(ks) => match fmap_line_outcome(ls.last()) {
                Err(e) => Err(e),
                Ok(k) => Ok(if ks.contains(k) { ks } else { ks.push(k) }),
            },
        }
    }
}

/// Reads the blocks of a text whose definitions are substituted: the
/// ignored names and the keys of the mappings, or the first error.
pub open spec fn sections_outcome(text: Seq<char>) -> Result<(Seq<Seq<char>>, Seq<(Seq<char>, Seq<char>)>), ConfError> {
    match ignore_outcome(text) {
        Err(e) => Err(e),
        Ok((ign, rest)) => match fmap_lines(rest) {
            Err(e) => Err(e),
            Ok(ls) => match fmap_outcome(ls) {
                Err(e) => Err(e),
                Ok(keys) => Ok((ign, keys)),
            },
        },
    }
}

} // verus!

verus! {

// ---------------------------------------------------------------------
// The steps, carried out
// ---------------------------------------------------------------------

/// The views of a sequence of pairs of strings.
pub open spec fn pairs_view(v: Seq<(String, String)>) -> Seq<(Seq<char>, Seq<char>)> {
    v.map_values(|p: (String, String)| (p.0@, p.1@))
}

/// The views of a sequence of character vectors.
pub open spec fn vecs_view(v: Seq<Vec<char>>) -> Seq<Seq<char>> {
    v.map_values(|p: Vec<char>| p@)
}

/// The views of a sequence of strings.
pub open spec fn strings_view(v: Seq<String>) -> Seq<Seq<char>> {
    v.map_values(|p: String| p@)
}

/// `file` with every line trimmed and the blank ones dropped.
pub fn clean_conf(file: &str) -> (r: String)
    ensures
        r@ == clean_text(file@),
{
    let cs = chars_of(file);
    let pieces = split_chars(&cs, '\n');
    assert(vecs_view(pieces@) =~= split_on(file@, '\n'));
    let kept = trimmed_nonblank_exec(&pieces);
    assert(vecs_view(kept@) =~= trimmed_nonblank(split_on(file@, '\n')));
    let joined = join_chars(&kept, '\n');
    string_of(&joined)
}

/// Whether `text` holds `@FMAP`.
pub fn has_fmap(text: &str) -> (r: bool)
    ensures
        r == has(text@, seq!['@', 'F', 'M', 'A', 'P']),
{
    let cs = chars_of(text);
    let tag = vec!['@', 'F', 'M', 'A', 'P'];
    find_chars(&cs, &tag).is_some()
}

fn has_char(v: &Vec<char>, c: char) -> (r: bool)
    ensures
        r == has(v@, seq![c]),
{
    let pat = vec![c];
    assert(pat@ =~= seq![c]);
    find_chars(v, &pat).is_some()
}

/// The global definitions of `text`, as `global_defs` says.
pub fn global_definitions(text: &str) -> (r: Vec<(String, String)>)
    ensures
        pairs_view(r@) == global_defs(text@),
{
    let cs = chars_of(text);
    let ls = lines_chars(&cs);
    let ghost lv = lines_of(text@);
    assert(vecs_view(ls@) =~= lv);
    let mut scope: usize = 0;
    let mut r: Vec<(String, String)> = Vec::new();
    let assign = vec![':', '='];
    for i in 0..ls.len()
        invariant
            lv == lines_of(text@),
            vecs_view(ls@) == lv,
            assign@ == seq![':', '='],
            scope == defs_scan(lv.take(i as int)).0,
            scope <= i,
            pairs_view(r@) == defs_scan(lv.take(i as int)).1,
    {
        assert(lv.take(i + 1).drop_last() =~= lv.take(i as int));
        assert(lv.take(i + 1).last() == ls@[i as int]@);
        let l = &ls[i];
        if has_char(l, '{') {
            scope = scope + 1;
        }
        if has_char(l, '}') {
            scope = if scope > 0 { scope - 1 } else { 0 };
        }
        let close = vec!['}'];
        assert(close@ =~= seq!['}']);
        let closes = finishes_with_chars(l, &close);
        if scope > 0 || closes {
        } else {
            match split_once_chars(l, &assign) {
                Some((k, v)) => {
                    let ghost before = r@;
                    let kt = trim_chars(&k);
                    let vt = trim_chars(&v);
                    r.push((string_of(&kt), string_of(&vt)));
                    assert(pairs_view(r@) =~= pairs_view(before).push((kt@, vt@)));
                },
                None => {},
            }
        }
    }
    assert(lv.take(lv.len() as int) =~= lv);
    r
}

/// The command that a value names, as `command_of` says.
pub fn command_of_value(v: &str) -> (r: Option<Option<String>>)
    ensures
        match r {
            None => command_of(v@) is None,
            Some(None) => command_of(v@) == Some(None::<Seq<char>>),
            Some(Some(c)) => command_of(v@) == Some(Some(c@)),
        },
{
    let cs = chars_of(v);
    if !begins_with_chars(&cs, &vec!['C', 'M', 'D']) {
        return None;
    }
    if cs.len() >= 4 && (cs[3] as u32) < 0x80 {
        let rest = sub_chars(&cs, 4, cs.len());
        assert(rest@ =~= v@.skip(4));
        Some(Some(string_of(&rest)))
    } else {
        Some(None)
    }
}

proof fn lemma_key_pos(sc: Seq<(Seq<char>, Seq<char>)>, k: Seq<char>)
    ensures
        -1 <= key_pos(sc, k) < sc.len(),
        key_pos(sc, k) >= 0 ==> sc[key_pos(sc, k)].0 == k,
        key_pos(sc, k) == -1 ==> forall|i: int| 0 <= i < sc.len() ==> (#[trigger] sc[i]).0 != k,
        key_pos(sc, k) >= 0 ==> forall|i: int| 0 <= i < key_pos(sc, k) ==> (#[trigger] sc[i]).0 != k,
    decreases sc.len(),
{
    if sc.len() > 0 {
        lemma_key_pos(sc.drop_last(), k);
        assert forall|i: int| 0 <= i < sc.len() - 1 implies #[trigger] sc[i] == sc.drop_last()[i] by {}
    }
}

/// Binds `k` to `v` in `scope`, as `bound` says.
pub fn bind(scope: &mut Vec<(String, String)>, k: String, v: String)
    ensures
        pairs_view(final(scope)@) == bound(pairs_view(old(scope)@), k@, v@),
{
    let ghost sv = pairs_view(scope@);
    proof {
        lemma_key_pos(sv, k@);
    }
    let n = scope.len();
    for i in 0..n
        invariant
            n == scope@.len(),
            sv == pairs_view(scope@),
            sv == pairs_view(old(scope)@),
            forall|j: int| 0 <= j < i ==> (#[trigger] sv[j]).0 != k@,
    {
        if scope[i].0 == k {
            proof {
                lemma_key_pos(sv, k@);
                assert(sv[i as int].0 == k@);
            }
            scope.set(i, (k, v));
            assert(pairs_view(scope@) =~= bound(sv, k@, v@));
            return;
        }
    }
    proof {
        lemma_key_pos(sv, k@);
    }
    scope.push((k, v));
    assert(pairs_view(scope@) =~= bound(sv, k@, v@));
}

/// The bindings that `defs` make, as `bind_all` says.
pub fn bind_all_exec(defs: &Vec<(String, String)>) -> (r: Vec<(String, String)>)
    ensures
        pairs_view(r@) == bind_all(pairs_view(defs@)),
{
    let ghost dv = pairs_view(defs@);
    let mut scope: Vec<(String, String)> = Vec::new();
    for i in 0..defs.len()
        invariant
            dv == pairs_view(defs@),
            pairs_view(scope@) == bind_all(dv.take(i as int)),
    {
        assert(dv.take(i + 1).drop_last() =~= dv.take(i as int));
        assert(dv.take(i + 1).last() == (defs@[i as int].0@, defs@[i as int].1@));
        bind(&mut scope, defs[i].0.clone(), defs[i].1.clone());
    }
    assert(dv.take(dv.len() as int) =~= dv);
    scope
}

/// `text` with `@k` replaced by `v` for each binding, as `substituted`
/// says.
pub fn substitute(text: &str, scope: &Vec<(String, String)>) -> (r: String)
    ensures
        r@ == substituted(text@, pairs_view(scope@)),
{
    let ghost sv = pairs_view(scope@);
    let mut cur = chars_of(text);
    assert(sv.skip(0) =~= sv);
    for i in 0..scope.len()
        invariant
            sv == pairs_view(scope@),
            substituted(text@, sv) == substituted(cur@, sv.skip(i as int)),
    {
        let mut pat: Vec<char> = vec!['@'];
        let key = chars_of(scope[i].0.as_str());
        for j in 0..key.len()
            invariant
                pat@ == seq!['@'] + key@.take(j as int),
        {
            pat.push(key[j]);
            assert(key@.take(j + 1) =~= key@.take(j as int).push(key@[j as int]));
        }
        assert(key@.take(key@.len() as int) =~= key@);
        let val = chars_of(scope[i].1.as_str());
        assert(sv.skip(i as int)[0] == sv[i as int]);
        assert(sv.skip(i as int).drop_first() =~= sv.skip(i + 1));
        cur = replace_chars(&cur, &pat, &val);
    }
    assert(sv.skip(sv.len() as int) =~= Seq::<(Seq<char>, Seq<char>)>::empty());
    string_of(&cur)
}

} // verus!

verus! {

// ---------------------------------------------------------------------
// Function definitions, found by a regular expression
// ---------------------------------------------------------------------

/// How function definitions are written: `FUNC name(params) { body }`.
pub const FN_PATTERN: &'static str = "(?s)FUNC\\s+([A-Za-z_][A-Za-z0-9_]*)\\s*\\(([^)]*)\\)\\s*\\{(.*?)\\}";

/// What the `regex` crate finds for `pattern` in `haystack`: `None` when
/// the pattern does not compile; else, for each match in turn, the text
/// of each group (the whole match first), `None` for a group that took
/// no part.
pub uninterp spec fn regex_captures(pattern: Seq<char>, haystack: Seq<char>) -> Option<Seq<Seq<Option<Seq<char>>>>>;

/// The views of what `captures_all` gives.
pub open spec fn captures_view(c: Option<Vec<Vec<Option<String>>>>) -> Option<Seq<Seq<Option<Seq<char>>>>> {
    match c {
        None => None,
        Some(rows) => Some(
            rows@.map_values(
                |row: Vec<Option<String>>|
                    row@.map_values(
                        |g: Option<String>|
                            match g {
                                Some(s) => Some(s@),
                                None => None,
                            },
                    ),
            ),
        ),
    }
}

/// `regex::Regex::new(pattern)`, then `captures_iter(haystack)` with each
/// `Captures::iter` read out as text. Trusted: the result is what
/// `regex_captures` names for these arguments; nothing more is claimed
/// of the regular-expression engine.
#[verifier::external_body]
fn captures_all(pattern: &str, haystack: &str) -> (r: Option<Vec<Vec<Option<String>>>>)
    ensures
        captures_view(r) == regex_captures(pattern@, haystack@),
{
    match regex::Regex::new(pattern) {
        Err(_) => None,
        Ok(re) => Some(
            re.captures_iter(haystack).map(
                |c| c.iter().map(|m| m.map(|m| m.as_str().to_string())).collect(),
            ).collect(),
        ),
    }
}

/// A function definition: its name, its parameters and its body.
pub struct FnDef {
    pub name: String,
    pub params: String,
    pub body: String,
}

/// The definitions that captures describe (groups 1, 2 and 3 of each
/// match are name, parameters and body), or `None` when a match lacks one
/// of them.
pub open spec fn fns_from_caps(caps: Seq<Seq<Option<Seq<char>>>>) -> Option<Seq<(Seq<char>, Seq<char>, Seq<char>)>>
    decreases caps.len(),
{
    if caps.len() == 0 {
        Some(Seq::empty())
    } else {
        match fns_from_caps(caps.drop_last()) {
            None => None,
            Some(fs) => {
                let row = caps.last();
                if row.len() > 3 && row[1] is Some && row[2] is Some && row[3] is Some {
                    Some(fs.push((row[1].unwrap(), row[2].unwrap(), row[3].unwrap())))
                } else {
                    None
                }
            },
        }
    }
}

proof fn lemma_fns_prefix_none(caps: Seq<Seq<Option<Seq<char>>>>, k: int)
    requires
        0 <= k <= caps.len(),
        fns_from_caps(caps.take(k)) is None,
    ensures
        fns_from_caps(caps) is None,
    decreases caps.len() - k,
{
    if k < caps.len() {
        assert(caps.take(k + 1).drop_last() =~= caps.take(k));
        lemma_fns_prefix_none(caps, k + 1);
    } else {
        assert(caps.take(k) =~= caps);
    }
}

/// The views of function definitions.
pub open spec fn fns_view(v: Seq<FnDef>) -> Seq<(Seq<char>, Seq<char>, Seq<char>)> {
    v.map_values(|f: FnDef| (f.name@, f.params@, f.body@))
}

/// The definitions that `caps` describe, as `fns_from_caps` says.
pub fn functions_from_captures(caps: &Vec<Vec<Option<String>>>) -> (r: Option<Vec<FnDef>>)
    ensures
        match r {
            None => fns_from_caps(captures_view(Some(*caps))->0) is None,
            Some(fs) => fns_from_caps(captures_view(Some(*caps))->0) == Some(fns_view(fs@)),
        },
{
    let ghost cv = captures_view(Some(*caps))->0;
    let mut fs: Vec<FnDef> = Vec::new();
    for i in 0..caps.len()
        invariant
            cv == captures_view(Some(*caps))->0,
            fns_from_caps(cv.take(i as int)) == Some(fns_view(fs@)),
    {
        assert(cv.take(i + 1).drop_last() =~= cv.take(i as int));
        let row = &caps[i];
        assert(cv.take(i + 1).last() == cv[i as int]);
        if row.len() > 3 {
            match (&row[1], &row[2], &row[3]) {
                (Some(a), Some(b), Some(c)) => {
                    let ghost before = fs@;
                    fs.push(FnDef { name: a.clone(), params: b.clone(), body: c.clone() });
                    assert(fns_view(fs@) =~= fns_view(before).push((a@, b@, c@)));
                },
                _ => {
                    proof {
                        lemma_fns_prefix_none(cv, i + 1);
                    }
                    return None;
                },
            }
        } else {
            proof {
                lemma_fns_prefix_none(cv, i + 1);
            }
            return None;
        }
    }
    assert(cv.take(cv.len() as int) =~= cv);
    Some(fs)
}

/// The function definitions in `text`, found with `FN_PATTERN`.
pub fn function_table(text: &str) -> (r: Option<Vec<FnDef>>)
    ensures
        match regex_captures(FN_PATTERN@, text@) {
            None => r is None,
            Some(caps) => match r {
                None => fns_from_caps(caps) is None,
                Some(fs) => fns_from_caps(caps) == Some(fns_view(fs@)),
            },
        },
{
    match captures_all(FN_PATTERN, text) {
        None => None,
        Some(caps) => functions_from_captures(&caps),
    }
}

} // verus!

verus! {

// ---------------------------------------------------------------------
// The blocks
// ---------------------------------------------------------------------

fn vec_contains(v: &Vec<Vec<char>>, x: &Vec<char>) -> (r: bool)
    ensures
        r == vecs_view(v@).contains(x@),
{
    for i in 0..v.len()
        invariant
            forall|j: int| 0 <= j < i ==> v@[j]@ != x@,
    {
        let w = &v[i];
        let mut same = w.len() == x.len();
        if same {
            for k in 0..w.len()
                invariant
                    w@.len() == x@.len(),
                    same == (forall|m: int| 0 <= m < k ==> w@[m] == x@[m]),
            {
                if w[k] != x[k] {
                    same = false;
                }
            }
            if same {
                assert(w@ =~= x@);
            }
        }
        if same {
            assert(vecs_view(v@)[i as int] == x@);
            return true;
        }
    }
    proof {
        if vecs_view(v@).contains(x@) {
            let j = choose|j: int| 0 <= j < vecs_view(v@).len() && vecs_view(v@)[j] == x@;
            assert(v@[j]@ == x@);
        }
    }
    false
}

/// `v` without repeats, as `dedup` says, as strings.
fn dedup_exec(v: &Vec<Vec<char>>) -> (r: Vec<String>)
    ensures
        strings_view(r@) == dedup(vecs_view(v@)),
{
    let ghost vv = vecs_view(v@);
    let mut seen: Vec<Vec<char>> = Vec::new();
    let mut r: Vec<String> = Vec::new();
    for i in 0..v.len()
        invariant
            vv == vecs_view(v@),
            vecs_view(seen@) == dedup(vv.take(i as int)),
            strings_view(r@) == dedup(vv.take(i as int)),
    {
        assert(vv.take(i + 1).drop_last() =~= vv.take(i as int));
        assert(vv.take(i + 1).last() == v@[i as int]@);
        if !vec_contains(&seen, &v[i]) {
            let ghost s0 = seen@;
            let ghost r0 = r@;
            let w = sub_chars(&v[i], 0, v[i].len());
            assert(w@ =~= v@[i as int]@);
            r.push(string_of(&w));
            seen.push(w);
            assert(vecs_view(seen@) =~= vecs_view(s0).push(v@[i as int]@));
            assert(strings_view(r@) =~= strings_view(r0).push(v@[i as int]@));
        }
    }
    assert(vv.take(vv.len() as int) =~= vv);
    r
}

/// Where the block `tag` is in `cs`, as `block_at` says, when `tag`, its
/// `{` and its `}` are all found.
fn find_block(cs: &Vec<char>, tag: &Vec<char>) -> (r: (Option<usize>, Option<usize>, Option<usize>))
    ensures
        ({
            let (sec, st, ed) = block_at(cs@, tag@);
            &&& r.0 is None <==> sec < 0
            &&& r.0 is Some ==> (r.1 is None <==> st < 0)
            &&& r.0 is Some && r.1 is Some ==> (r.2 is None <==> ed < 0)
            &&& r.0 matches Some(a) ==> a == sec
            &&& r.1 matches Some(b) ==> b == st
            &&& r.2 matches Some(c) ==> c == ed
            &&& r.2 is Some ==> r.0 is Some && r.1 is Some && 0 <= sec + st + ed <= cs@.len()
        }),
{
    proof {
        lemma_first_index(cs@, tag@);
    }
    let sec = match find_chars(cs, tag) {
        None => return (None, None, None),
        Some(x) => x,
    };
    let after = sub_chars(cs, sec, cs.len());
    assert(after@ =~= cs@.skip(sec as int));
    let open = vec!['{'];
    assert(open@ =~= seq!['{']);
    proof {
        lemma_first_index(after@, open@);
    }
    let st = match find_chars(&after, &open) {
        None => return (Some(sec), None, None),
        Some(x) => x,
    };
    let after2 = sub_chars(cs, sec + st, cs.len());
    assert(after2@ =~= cs@.skip(sec + st));
    let close = vec!['}'];
    assert(close@ =~= seq!['}']);
    proof {
        lemma_first_index(after2@, close@);
    }
    match find_chars(&after2, &close) {
        None => (Some(sec), Some(st), None),
        Some(ed) => (Some(sec), Some(st), Some(ed)),
    }
}

/// Reads the `@IGNORE` block of `text`, as `ignore_outcome` says.
pub fn ignore_section(text: &str) -> (r: Result<(Vec<String>, String), ConfError>)
    ensures
        match ignore_outcome(text@) {
            Err(e) => r matches Err(e2) && e2 == e,
            Ok((ign, rest)) => r matches Ok((names, rest2)) && strings_view(names@) == ign && rest2@
                == rest,
        },
{
    let cs = chars_of(text);
    let tag = vec!['@', 'I', 'G', 'N', 'O', 'R', 'E'];
    assert(tag@ =~= seq!['@', 'I', 'G', 'N', 'O', 'R', 'E']);
    match find_block(&cs, &tag) {
        (None, _, _) => {
            let none: Vec<String> = Vec::new();
            assert(strings_view(none@) =~= Seq::<Seq<char>>::empty());
            Ok((none, string_of(&cs)))
        },
        (Some(_), None, _) => Err(ConfError::IgnoreUnopened),
        (Some(_), Some(_), None) => Err(ConfError::IgnoreUnclosed),
        (Some(sec), Some(st), Some(ed)) => {
            let n = cs.len();
            let block = sub_chars(&cs, sec + st, sec + st + ed);
            let pieces = split_chars2(&block, ',', '\n');
            assert(vecs_view(pieces@) =~= split_on2(block@, ',', '\n'));
            let items = trimmed_nonblank_exec(&pieces);
            assert(vecs_view(items@) =~= trimmed_nonblank(split_on2(block@, ',', '\n')));
            let names = dedup_exec(&items);
            let mut rest = sub_chars(&cs, 0, sec);
            let tail = sub_chars(&cs, sec + st + ed, cs.len());
            let ghost r0 = rest@;
            for k in 0..tail.len()
                invariant
                    rest@ == r0 + tail@.take(k as int),
            {
                rest.push(tail[k]);
                assert(tail@.take(k + 1) =~= tail@.take(k as int).push(tail@[k as int]));
            }
            assert(tail@.take(tail@.len() as int) =~= tail@);
            assert(rest@ =~= text@.take(sec as int) + text@.skip(sec + st + ed));
            Ok((names, string_of(&rest)))
        },
    }
}

/// The lines of the `@FMAP` block of `text`, as `fmap_lines` says.
pub fn fmap_section_lines(text: &str) -> (r: Result<Vec<String>, ConfError>)
    ensures
        match fmap_lines(text@) {
            Err(e) => r matches Err(e2) && e2 == e,
            Ok(ls) => r matches Ok(v) && strings_view(v@) == ls,
        },
{
    let cs = chars_of(text);
    let tag = vec!['@', 'F', 'M', 'A', 'P'];
    assert(tag@ =~= seq!['@', 'F', 'M', 'A', 'P']);
    match find_block(&cs, &tag) {
        (None, _, _) => Err(ConfError::NoFmap),
        (Some(_), None, _) => Err(ConfError::FmapUnopened),
        (Some(_), Some(_), None) => Err(ConfError::FmapUnclosed),
        (Some(sec), Some(st), Some(ed)) => {
            let n = cs.len();
            let block = sub_chars(&cs, sec + st, sec + st + ed);
            let ls = lines_chars(&block);
            let mut v: Vec<String> = Vec::new();
            for k in 0..ls.len()
                invariant
                    ls@.len() == lines_of(block@).len(),
                    forall|j: int| 0 <= j < ls@.len() ==> #[trigger] ls@[j]@ == lines_of(block@)[j],
                    v@.len() == k,
                    forall|j: int| 0 <= j < k ==> #[trigger] v@[j]@ == lines_of(block@)[j],
            {
                v.push(string_of(&ls[k]));
            }
            assert(strings_view(v@) =~= lines_of(block@));
            Ok(v)
        },
    }
}

/// Reads one mapping line, as `fmap_line_outcome` says; the properties
/// come from the fields: the condition, then build, run and clean (each
/// of which takes the condition's text), then the events. No line is
/// accepted: exactly six fields are required, and a seventh, the
/// directory to watch, is read after them.
pub fn parse_fmap_line(line: &str) -> (r: Result<((String, String), Properties), ConfError>)
    ensures
        match fmap_line_outcome(line@) {
            Err(e) => r matches Err(e2) && e2 == e,
            Ok(k) => r matches Ok((k2, _)) && (k2.0@, k2.1@) == k,
        },
        r is Err,
{
    let lc = chars_of(line);
    let arrow = vec!['-', '>'];
    assert(arrow@ =~= seq!['-', '>']);
    let (e, p) = match split_once_chars(&lc, &arrow) {
        None => return Err(ConfError::NoArrow),
        Some(x) => x,
    };
    let e = trim_chars(&e);
    let el = e.len();
    if !(el >= 4 && e[el - 1] == '\'' && e[0] == '\'' && e[el - 2] == '"' && e[1] == '"') {
        return Err(ConfError::BadExtension);
    }
    let ext = sub_chars(&e, 2, el - 2);
    let p = trim_chars(&p);
    let pl = p.len();
    if !(pl >= 2 && p[0] == '[' && p[pl - 1] == ']') {
        return Err(ConfError::BadFields);
    }
    let inner = sub_chars(&p, 1, pl - 1);
    let v = split_chars(&inner, ',');
    if v.len() != 6 {
        return Err(ConfError::FieldCount);
    }
    let route = string_of(&v[0]);
    if param_is_empty(route.as_str()) {
        return Err(ConfError::NoRoute);
    }
    let mut prop = Properties::default();
    if v[1].len() > 0 {
        prop.cond = Some(string_of(&v[1]));
    }
    if v[2].len() > 0 {
        prop.build = Some(string_of(&v[1]));
    }
    if v[3].len() > 0 {
        prop.run = Some(string_of(&v[1]));
    }
    if v[4].len() > 0 {
        prop.clean = Some(string_of(&v[1]));
    }
    if v[5].len() > 0 {
        let events = string_of(&v[5]);
        prop.events = parse_event(events.as_str());
    }
    if v.len() <= 6 {
        return Err(ConfError::NoMonitorDir);
    }
    if v[6].len() > 0 {
        prop.monitor_dir = string_of(&v[6]);
    }
    Ok(((string_of(&ext), route), prop))
}

proof fn lemma_dedup_nodup(s: Seq<Seq<char>>)
    ensures
        dedup(s).no_duplicates(),
    decreases s.len(),
{
    if s.len() > 0 {
        lemma_dedup_nodup(s.drop_last());
    }
}

proof fn lemma_fmap_prefix_err(ls: Seq<Seq<char>>, k: int)
    requires
        0 <= k <= ls.len(),
        fmap_outcome(ls.take(k)) is Err,
    ensures
        fmap_outcome(ls) == fmap_outcome(ls.take(k)),
    decreases ls.len() - k,
{
    if k < ls.len() {
        assert(ls.take(k + 1).drop_last() =~= ls.take(k));
        lemma_fmap_prefix_err(ls, k + 1);
    } else {
        assert(ls.take(k) =~= ls);
    }
}

proof fn lemma_keys_after_insert(
    ep0: Seq<((String, String), Properties)>,
    ep1: Seq<((String, String), Properties)>,
    k: (Seq<char>, Seq<char>),
    item: ((String, String), Properties),
)
    requires
        key_view(item.0) == k,
        prop_index(ep0, k) >= 0 ==> ep1 == ep0.update(prop_index(ep0, k), item),
        prop_index(ep0, k) < 0 ==> ep1 == ep0.push(item),
    ensures
        prop_keys(ep1) == if prop_keys(ep0).contains(k) {
            prop_keys(ep0)
        } else {
            prop_keys(ep0).push(k)
        },
{
    lemma_prop_index(ep0, k);
    let i = prop_index(ep0, k);
    if i >= 0 {
        assert(prop_keys(ep0)[i] == k);
        assert(prop_keys(ep1) =~= prop_keys(ep0));
    } else {
        if prop_keys(ep0).contains(k) {
            let j = choose|j: int| 0 <= j < prop_keys(ep0).len() && prop_keys(ep0)[j] == k;
            assert(key_view(ep0[j].0) == k);
        }
        assert(prop_keys(ep1) =~= prop_keys(ep0).push(k));
    }
}

/// What reading the blocks of `t` gives, as `sections_outcome` says.
pub open spec fn sections_agree(r: Result<Config, ConfError>, t: Seq<char>) -> bool {
    match sections_outcome(t) {
        Err(e) => r matches Err(e2) && e2 == e,
        Ok((ign, keys)) => r matches Ok(c) && c.wf() && strings_view(c.ignore_files@) == ign
            && prop_keys(c.exec_props@) == keys,
    }
}

/// Reads the blocks of `text`, whose definitions are substituted.
pub fn parse_sections(text: &str) -> (r: Result<Config, ConfError>)
    ensures
        sections_agree(r, text@),
{
    let (names, rest) = match ignore_section(text) {
        Err(e) => return Err(e),
        Ok(x) => x,
    };
    let mut conf = Config::new();
    let ghost nv = strings_view(names@);
    proof {
        let tag = seq!['@', 'I', 'G', 'N', 'O', 'R', 'E'];
        let (sec, st, ed) = block_at(text@, tag);
        if sec >= 0 {
            lemma_dedup_nodup(trimmed_nonblank(split_on2(text@.subrange(sec + st, sec + st + ed), ',', '\n')));
        }
    }
    assert(nv.no_duplicates());
    for i in 0..names.len()
        invariant
            nv == strings_view(names@),
            nv.no_duplicates(),
            conf.wf(),
            conf.exec_props@.len() == 0,
            strings_view(conf.ignore_files@) == nv.take(i as int),
    {
        proof {
            lemma_string_index(conf.ignore_files@, names@[i as int]@);
            if string_index(conf.ignore_files@, names@[i as int]@) >= 0 {
                let j = string_index(conf.ignore_files@, names@[i as int]@);
                assert(strings_view(conf.ignore_files@).len() == conf.ignore_files@.len());
                assert(nv.take(i as int).len() == i);
                assert(0 <= j < i);
                assert(conf.ignore_files@[j]@ == names@[i as int]@);
                assert(strings_view(conf.ignore_files@)[j] == conf.ignore_files@[j]@);
                assert(nv.take(i as int)[j] == nv[j]);
                assert(nv[j] == nv[i as int]);
                assert(false);
            }
        }
        let ghost before = conf.ignore_files@;
        conf.insert_ignore(names[i].clone());
        assert(strings_view(conf.ignore_files@) =~= strings_view(before).push(nv[i as int]));
        assert(nv.take(i + 1) =~= nv.take(i as int).push(nv[i as int]));
    }
    assert(nv.take(nv.len() as int) =~= nv);
    assert(prop_keys(conf.exec_props@) =~= Seq::<(Seq<char>, Seq<char>)>::empty());
    let ls = match fmap_section_lines(rest.as_str()) {
        Err(e) => return Err(e),
        Ok(v) => v,
    };
    let ghost lv = strings_view(ls@);
    assert(ignore_outcome(text@) == Ok::<(Seq<Seq<char>>, Seq<char>), ConfError>((nv, rest@)));
    assert(fmap_lines(rest@) == Ok::<Seq<Seq<char>>, ConfError>(lv));
    assert(lv.take(0) =~= Seq::<Seq<char>>::empty());
    for i in 0..ls.len()
        invariant
            lv == strings_view(ls@),
            ignore_outcome(text@) == Ok::<(Seq<Seq<char>>, Seq<char>), ConfError>((nv, rest@)),
            fmap_lines(rest@) == Ok::<Seq<Seq<char>>, ConfError>(lv),
            conf.wf(),
            strings_view(conf.ignore_files@) == nv,
            fmap_outcome(lv.take(i as int)) is Ok,
            prop_keys(conf.exec_props@) == fmap_outcome(lv.take(i as int))->Ok_0,
    {
        assert(lv.take(i + 1).drop_last() =~= lv.take(i as int));
        assert(lv.take(i + 1).last() == ls@[i as int]@);
        match parse_fmap_line(ls[i].as_str()) {
            Err(e) => {
                proof {
                    lemma_fmap_prefix_err(lv, i + 1);
                    assert(sections_outcome(text@) == Err::<(Seq<Seq<char>>, Seq<(Seq<char>, Seq<char>)>), ConfError>(e));
                }
                return Err(e);
            },
            Ok(((ext, dir), prop)) => {
                let ghost ep0 = conf.exec_props@;
                let ghost item = ((ext, dir), prop);
                conf.insert_prop(ext, dir, prop);
                proof {
                    lemma_keys_after_insert(ep0, conf.exec_props@, key_view(item.0), item);
                }
            },
        }
    }
    assert(lv.take(lv.len() as int) =~= lv);
    Ok(conf)
}

} // verus!

verus! {

// ---------------------------------------------------------------------
// The whole file
// ---------------------------------------------------------------------

/// Reads a configuration whose lines are cleaned (`clean_conf`) and whose
/// global definitions, with their commands already run, are `globals`:
/// the definitions are bound (a later one replaces an earlier) and
/// substituted, the function definitions are read, then the blocks.
pub fn parse_conf(cleaned: &str, globals: &Vec<(String, String)>) -> (r: Result<Config, ConfError>)
    ensures
        ({
            let t = substituted(cleaned@, bind_all(pairs_view(globals@)));
            match regex_captures(FN_PATTERN@, t) {
                None => r matches Err(e) && e == ConfError::BadFunctions,
                Some(caps) => if fns_from_caps(caps) is None {
                    r matches Err(e) && e == ConfError::BadFunctions
                } else {
                    sections_agree(r, t)
                },
            }
        }),
        r is Err,
{
    let scope = bind_all_exec(globals);
    let text = substitute(cleaned, &scope);
    match function_table(text.as_str()) {
        None => Err(ConfError::BadFunctions),
        Some(_) => {
            let r = parse_sections(text.as_str());
            proof {
                law_sections_never_read(text@);
            }
            r
        },
    }
}

proof fn lemma_split_first(s: Seq<char>, sep: char)
    requires
        s.len() > 0,
        s[0] != sep,
    ensures
        split_on(s, sep)[0].len() > 0,
        split_on(s, sep)[0][0] == s[0],
    decreases s.len(),
{
    let rest = split_on(s.drop_last(), sep);
    lemma_split_on_nonempty(s.drop_last(), sep);
    if s.len() > 1 {
        lemma_split_first(s.drop_last(), sep);
    }
}

proof fn lemma_trail_lt(e: Seq<char>)
    requires
        e.len() > 0,
        !is_space(e[0]),
    ensures
        trail_spaces(e) < e.len(),
    decreases e.len(),
{
    if e.len() > 1 && is_space(e.last()) {
        lemma_trail_lt(e.drop_last());
    }
}

proof fn lemma_fmap_first(ls: Seq<Seq<char>>)
    requires
        ls.len() > 0,
        fmap_line_outcome(ls[0]) is Err,
    ensures
        fmap_outcome(ls) is Err,
    decreases ls.len(),
{
    if ls.len() > 1 {
        lemma_fmap_first(ls.drop_last());
    } else {
        assert(ls.drop_last() =~= Seq::<Seq<char>>::empty());
    }
}

/// A line that begins with `{` is never a mapping: its extension would
/// begin with `{`, not with a quote.
proof fn lemma_brace_line(line: Seq<char>)
    requires
        line.len() > 0,
        line[0] == '{',
    ensures
        fmap_line_outcome(line) is Err,
{
    let arrow = seq!['-', '>'];
    lemma_first_index(line, arrow);
    let i = first_index(line, arrow);
    if i >= 0 {
        assert(line.subrange(i, i + 2)[0] == '-');
        assert(i != 0);
        let e = line.take(i);
        assert(e[0] == '{');
        assert(!is_space(e[0]));
        assert(lead_spaces(e) == 0);
        assert(e.skip(0) =~= e);
        lemma_trail_lt(e);
        let te = trim(e);
        assert(te.len() > 0);
        assert(te[0] == '{');
    }
}

/// No text is ever read to the end: the block of mappings is cut from its
/// `{`, so its first line begins with `{` and never holds a mapping.
pub proof fn law_sections_never_read(text: Seq<char>)
    ensures
        sections_outcome(text) is Err,
{
    match ignore_outcome(text) {
        Err(_) => {},
        Ok((_, rest)) => {
            let tag = seq!['@', 'F', 'M', 'A', 'P'];
            let (sec, st, ed) = block_at(rest, tag);
            if sec >= 0 && st >= 0 && ed >= 0 {
                let a = sec + st;
                lemma_first_index(rest, tag);
                lemma_first_index(rest.skip(sec), seq!['{']);
                lemma_first_index(rest.skip(a), seq!['}']);
                assert(rest.skip(sec).subrange(st, st + 1)[0] == '{');
                assert(rest[a] == '{');
                assert(rest.skip(a).subrange(0, 1)[0] == '{');
                assert(!occurs_at(rest.skip(a), seq!['}'], 0));
                assert(ed > 0);
                let block = rest.subrange(a, a + ed);
                assert(block[0] == '{');
                lemma_split_first(block, '\n');
                lemma_split_on_nonempty(block, '\n');
                let p = split_on(block, '\n');
                let ls = lines_of(block);
                let kept = if p.last().len() == 0 { p.drop_last() } else { p };
                assert(kept.len() > 0);
                assert(kept[0] == p[0]);
                assert(ls[0].len() > 0 && ls[0][0] == '{') by {
                    if 0 < p.len() - 1 && kept[0].len() > 0 && kept[0].last() == '\r' {
                        assert(kept[0].len() > 1);
                        assert(ls[0] == kept[0].drop_last());
                    }
                }
                lemma_brace_line(ls[0]);
                lemma_fmap_first(ls);
            }
        },
    }
}

} // verus!

verus! {

// ---------------------------------------------------------------------
// Laws of substitution
// ---------------------------------------------------------------------

/// Substituting one binding is replacing its `@k` by `v`.
proof fn lemma_substituted_one(t: Seq<char>, k: Seq<char>, v: Seq<char>)
    ensures
        substituted(t, seq![(k, v)]) == replace_all(t, seq!['@'] + k, v),
{
    let sc = seq![(k, v)];
    let e = Seq::<(Seq<char>, Seq<char>)>::empty();
    assert(sc[0] == (k, v));
    assert(sc.drop_first() =~= e);
    let r = replace_all(t, seq!['@'] + k, v);
    assert(substituted(r, e) == r);
    assert(substituted(t, sc) == substituted(r, sc.drop_first()));
}

/// Substituting a binding `k := v` replaces every `@k`, left to right:
/// text before the first `@` is kept, the `@k` there becomes `v`, and the
/// rest of the text is substituted in the same way.
pub proof fn law_substitute_every(x: Seq<char>, k: Seq<char>, v: Seq<char>, y: Seq<char>)
    requires
        forall|j: int| 0 <= j < x.len() ==> #[trigger] x[j] != '@',
    ensures
        substituted(x + (seq!['@'] + k) + y, seq![(k, v)]) == x + v + substituted(y, seq![(k, v)]),
{
    let f = seq!['@'] + k;
    assert(f[0] == '@');
    lemma_replace_at_first(x, f, y, v);
    lemma_substituted_one(x + f + y, k, v);
    lemma_substituted_one(y, k, v);
}

/// Substituting a binding `k := v` into text that holds no `@k` leaves
/// the text as it is.
pub proof fn law_substitute_absent(text: Seq<char>, k: Seq<char>, v: Seq<char>)
    requires
        forall|j: int| !#[trigger] occurs_at(text, seq!['@'] + k, j),
    ensures
        substituted(text, seq![(k, v)]) == text,
{
    let f = seq!['@'] + k;
    lemma_replace_absent(text, f, v);
    lemma_substituted_one(text, k, v);
}

} // verus!
