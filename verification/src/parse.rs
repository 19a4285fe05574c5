//! The configuration file and the little condition language.
use vstd::prelude::*;
use crate::text::{chars_of, push_char};

verus! {

// ---------------------------------------------------------------------
// Configuration values
// ---------------------------------------------------------------------

/// What to do for the files of one extension under one directory.
pub struct Properties {
    pub build: Option<String>,
    pub run: Option<String>,
    pub clean: Option<String>,
    pub path: Option<String>,
    pub monitor_dir: String,
    pub events: u8,
    pub cond: Option<String>,
}

impl Default for Properties {
    /// No commands, every event, the current directory.
    fn default() -> (r: Self)
        ensures
            r.build is None,
            r.run is None,
            r.clean is None,
            r.path is None,
            r.monitor_dir@ == seq!['.'],
            r.events == 255,
            r.cond is None,
    {
        let mut dir = String::new();
        push_char(&mut dir, '.');
        Properties {
            build: None,
            run: None,
            clean: None,
            path: None,
            monitor_dir: dir,
            events: u8::MAX,
            cond: None,
        }
    }
}

/// The key of a mapping: an extension and a directory.
pub open spec fn key_view(k: (String, String)) -> (Seq<char>, Seq<char>) {
    (k.0@, k.1@)
}

/// The first index in `ep` whose key reads as `k`, or -1.
pub open spec fn prop_index(ep: Seq<((String, String), Properties)>, k: (Seq<char>, Seq<char>)) -> int
    decreases ep.len(),
{
    if ep.len() == 0 {
        -1
    } else if prop_index(ep.drop_last(), k) >= 0 {
        prop_index(ep.drop_last(), k)
    } else if key_view(ep.last().0) == k {
        ep.len() - 1
    } else {
        -1
    }
}

/// The keys of the mappings, in order.
pub open spec fn prop_keys(ep: Seq<((String, String), Properties)>) -> Seq<(Seq<char>, Seq<char>)> {
    ep.map_values(|p: ((String, String), Properties)| key_view(p.0))
}

/// The index of the first string in `v` that reads as `s`, or -1.
pub open spec fn string_index(v: Seq<String>, s: Seq<char>) -> int
    decreases v.len(),
{
    if v.len() == 0 {
        -1
    } else if string_index(v.drop_last(), s) >= 0 {
        string_index(v.drop_last(), s)
    } else if v.last()@ == s {
        v.len() - 1
    } else {
        -1
    }
}

pub(crate) proof fn lemma_prop_index(ep: Seq<((String, String), Properties)>, k: (Seq<char>, Seq<char>))
    ensures
        -1 <= prop_index(ep, k) < ep.len(),
        prop_index(ep, k) >= 0 ==> key_view(ep[prop_index(ep, k)].0) == k,
        prop_index(ep, k) == -1 ==> forall|i: int| 0 <= i < ep.len() ==> key_view(#[trigger] ep[i].0) != k,
        prop_index(ep, k) >= 0 ==> forall|i: int| 0 <= i < prop_index(ep, k) ==> key_view(#[trigger] ep[i].0) != k,
    decreases ep.len(),
{
    if ep.len() > 0 {
        lemma_prop_index(ep.drop_last(), k);
        assert forall|i: int| 0 <= i < ep.len() - 1 implies #[trigger] ep[i] == ep.drop_last()[i] by {}
    }
}

pub(crate) proof fn lemma_string_index(v: Seq<String>, s: Seq<char>)
    ensures
        -1 <= string_index(v, s) < v.len(),
        string_index(v, s) >= 0 ==> v[string_index(v, s)]@ == s,
        string_index(v, s) == -1 ==> forall|i: int| 0 <= i < v.len() ==> (#[trigger] v[i])@ != s,
        string_index(v, s) >= 0 ==> forall|i: int| 0 <= i < string_index(v, s) ==> (#[trigger] v[i])@ != s,
    decreases v.len(),
{
    if v.len() > 0 {
        lemma_string_index(v.drop_last(), s);
        assert forall|i: int| 0 <= i < v.len() - 1 implies #[trigger] v[i] == v.drop_last()[i] by {}
    }
}

/// The mappings and the ignored files of a configuration.
pub struct Config {
    /// (extension, directory) => what to do; each key once.
    pub exec_props: Vec<((String, String), Properties)>,
    /// Files to leave alone; each once.
    pub ignore_files: Vec<String>,
}

impl Default for Config {
    /// No mappings and nothing ignored.
    fn default() -> (r: Self)
        ensures
            r.exec_props@.len() == 0,
            r.ignore_files@.len() == 0,
    {
        Config { exec_props: Vec::new(), ignore_files: Vec::new() }
    }
}

impl Config {
    /// No key occurs twice, and no ignored file is listed twice.
    pub open spec fn wf(self) -> bool {
        &&& forall|i: int, j: int|
            0 <= i < j < self.exec_props@.len() ==> key_view(#[trigger] self.exec_props@[i].0)
                != key_view(#[trigger] self.exec_props@[j].0)
        &&& forall|i: int, j: int|
            0 <= i < j < self.ignore_files@.len() ==> (#[trigger] self.ignore_files@[i])@
                != (#[trigger] self.ignore_files@[j])@
    }

    /// An empty configuration.
    pub fn new() -> (r: Self)
        ensures
            r.exec_props@.len() == 0,
            r.ignore_files@.len() == 0,
            r.wf(),
    {
        Self::default()
    }

    /// Maps `(ext, dir)` to `prop`, in place of what it mapped to before.
    pub fn insert_prop(&mut self, ext: String, dir: String, prop: Properties)
        requires
            old(self).wf(),
        ensures
            final(self).wf(),
            final(self).ignore_files == old(self).ignore_files,
            ({
                let i = prop_index(old(self).exec_props@, (ext@, dir@));
                if i >= 0 {
                    final(self).exec_props@ == old(self).exec_props@.update(i, ((ext, dir), prop))
                } else {
                    final(self).exec_props@ == old(self).exec_props@.push(((ext, dir), prop))
                }
            }),
    {
        let ghost k = (ext@, dir@);
        let ghost ep = self.exec_props@;
        proof {
            lemma_prop_index(ep, k);
        }
        match find_prop(&self.exec_props, &ext, &dir) {
            Some(i) => {
                self.exec_props.set(i, ((ext, dir), prop));
                proof {
                    assert forall|a: int, b: int|
                        0 <= a < b < self.exec_props@.len() implies key_view(#[trigger] self.exec_props@[a].0)
                        != key_view(#[trigger] self.exec_props@[b].0) by {
                        assert(key_view(ep[a].0) != key_view(ep[b].0));
                    }
                }
            },
            None => {
                self.exec_props.push(((ext, dir), prop));
                proof {
                    assert forall|a: int, b: int|
                        0 <= a < b < self.exec_props@.len() implies key_view(#[trigger] self.exec_props@[a].0)
                        != key_view(#[trigger] self.exec_props@[b].0) by {
                        if b < ep.len() {
                            assert(key_view(ep[a].0) != key_view(ep[b].0));
                        } else {
                            assert(key_view(ep[a].0) != k);
                        }
                    }
                }
            },
        }
    }

    /// Adds `file` to the ignored files, unless it is there already.
    pub fn insert_ignore(&mut self, file: String)
        requires
            old(self).wf(),
        ensures
            final(self).wf(),
            final(self).exec_props == old(self).exec_props,
            string_index(old(self).ignore_files@, file@) >= 0 ==> final(self).ignore_files@
                == old(self).ignore_files@,
            string_index(old(self).ignore_files@, file@) < 0 ==> final(self).ignore_files@
                == old(self).ignore_files@.push(file),
    {
        let ghost v = self.ignore_files@;
        proof {
            lemma_string_index(v, file@);
        }
        if find_string(&self.ignore_files, &file).is_some() {
            return;
        }
        self.ignore_files.push(file);
        proof {
            assert forall|a: int, b: int|
                0 <= a < b < self.ignore_files@.len() implies (#[trigger] self.ignore_files@[a])@
                != (#[trigger] self.ignore_files@[b])@ by {
                if b < v.len() {
                    assert(v[a]@ != v[b]@);
                }
            }
        }
    }
}

/// The index of the mapping for `(ext, dir)`, as `prop_index` says.
fn find_prop(ep: &Vec<((String, String), Properties)>, ext: &String, dir: &String) -> (r: Option<usize>)
    ensures
        r is None <==> prop_index(ep@, (ext@, dir@)) == -1,
        r matches Some(i) ==> i == prop_index(ep@, (ext@, dir@)),
{
    let ghost k = (ext@, dir@);
    proof {
        lemma_prop_index(ep@, k);
    }
    for i in 0..ep.len()
        invariant
            k == (ext@, dir@),
            forall|j: int| 0 <= j < i ==> key_view(#[trigger] ep@[j].0) != k,
    {
        if ep[i].0.0 == *ext && ep[i].0.1 == *dir {
            proof {
                lemma_prop_index(ep@, k);
            }
            assert(key_view(ep@[i as int].0) == k);
            return Some(i);
        }
    }
    None
}

/// The index of the first of `v` equal to `s`, as `string_index` says.
pub fn find_string(v: &Vec<String>, s: &String) -> (r: Option<usize>)
    ensures
        r is None <==> string_index(v@, s@) == -1,
        r matches Some(i) ==> i == string_index(v@, s@),
{
    proof {
        lemma_string_index(v@, s@);
    }
    for i in 0..v.len()
        invariant
            forall|j: int| 0 <= j < i ==> (#[trigger] v@[j])@ != s@,
    {
        if v[i] == *s {
            proof {
                lemma_string_index(v@, s@);
            }
            return Some(i);
        }
    }
    None
}

/// A command to run in a directory, with an optional condition command.
pub struct Cmd {
    pub path: String,
    pub cmd: String,
    pub cond_cmd: Option<String>,
}

impl Default for Cmd {
    /// Empty path and command, no condition.
    fn default() -> (r: Self)
        ensures
            r.path@.len() == 0,
            r.cmd@.len() == 0,
            r.cond_cmd is None,
    {
        Cmd { path: String::new(), cmd: String::new(), cond_cmd: None }
    }
}

impl Cmd {
    /// Empty path and command, no condition.
    pub fn new() -> (r: Self)
        ensures
            r.path@.len() == 0,
            r.cmd@.len() == 0,
            r.cond_cmd is None,
    {
        Self::default()
    }
}

// ---------------------------------------------------------------------
// Fields of a mapping
// ---------------------------------------------------------------------

/// A field that says nothing: empty, `""` or `''`.
pub open spec fn param_empty(a: Seq<char>) -> bool {
    a == seq!['"', '"'] || a == seq!['\'', '\''] || a.len() == 0
}

pub fn param_is_empty(a: &str) -> (r: bool)
    ensures
        r == param_empty(a@),
{
    let v = chars_of(a);
    if v.len() == 0 {
        return true;
    }
    if v.len() == 2 && v[0] == v[1] && (v[0] == '"' || v[0] == '\'') {
        assert(v@ =~= seq![v@[0], v@[0]]);
        return true;
    }
    proof {
        if v@.len() == 2 && v@ == seq!['"', '"'] {
            assert(v@[0] == '"' && v@[1] == '"');
        }
        if v@.len() == 2 && v@ == seq!['\'', '\''] {
            assert(v@[0] == '\'' && v@[1] == '\'');
        }
    }
    false
}

/// The event letters, in bit order: read, write, open, close, delete,
/// new, touch.
pub open spec fn event_letter(i: int) -> char {
    seq!['r', 'w', 'o', 'c', 'd', 'n', 't'][i]
}

/// The same letters in upper case.
pub open spec fn event_letter_upper(i: int) -> char {
    seq!['R', 'W', 'O', 'C', 'D', 'N', 'T'][i]
}

/// Bit `i` of the events is set: its letter occurs in either case (the
/// text is lower-cased before it is read).
pub open spec fn event_bit(s: Seq<char>, i: int) -> bool {
    s.contains(event_letter(i)) || s.contains(event_letter_upper(i))
}

/// The event mask of `s`: bit `i` for each letter of `rwocdnt` it holds.
pub open spec fn event_mask(s: Seq<char>) -> int {
    (if event_bit(s, 0) { 1int } else { 0 }) + (if event_bit(s, 1) { 2int } else { 0 }) + (if event_bit(s, 2) {
        4int
    } else {
        0
    }) + (if event_bit(s, 3) { 8int } else { 0 }) + (if event_bit(s, 4) { 16int } else { 0 }) + (if event_bit(s, 5) {
        32int
    } else {
        0
    }) + (if event_bit(s, 6) { 64int } else { 0 })
}

/// Whether `c` occurs in `v`.
fn contains_char(v: &Vec<char>, c: char) -> (r: bool)
    ensures
        r == v@.contains(c),
{
    for k in 0..v.len()
        invariant
            forall|j: int| 0 <= j < k ==> v@[j] != c,
    {
        if v[k] == c {
            assert(v@[k as int] == c);
            return true;
        }
    }
    false
}

/// `2` to the power `i`, for `0 <= i < 8`.
pub open spec fn bit_value(i: int) -> int {
    seq![1int, 2, 4, 8, 16, 32, 64, 128][i]
}

/// The bits of the event mask of `s` below bit `n`.
pub open spec fn partial_mask(s: Seq<char>, n: int) -> int
    decreases n,
{
    if n <= 0 {
        0
    } else {
        partial_mask(s, n - 1) + if event_bit(s, n - 1) { bit_value(n - 1) } else { 0 }
    }
}

/// The letters of `rwocdnt` that `s` holds, in either case, as bits
/// (`1 << i` for the `i`-th letter).
pub fn parse_event(s: &str) -> (r: u8)
    ensures
        r as int == event_mask(s@),
{
    let v = chars_of(s);
    let lower = vec!['r', 'w', 'o', 'c', 'd', 'n', 't'];
    let upper = vec!['R', 'W', 'O', 'C', 'D', 'N', 'T'];
    let mut ret: u8 = 0;
    let mut i: u8 = 0;
    while i < 7
        invariant
            i <= 7,
            lower@ == seq!['r', 'w', 'o', 'c', 'd', 'n', 't'],
            upper@ == seq!['R', 'W', 'O', 'C', 'D', 'N', 'T'],
            v@ == s@,
            ret < bit_value(i as int),
            ret as int == partial_mask(s@, i as int),
        decreases 7 - i,
    {
        let ch = lower[i as usize];
        let up = upper[i as usize];
        assert(ch == event_letter(i as int) && up == event_letter_upper(i as int));
        let found = contains_char(&v, ch) || contains_char(&v, up);
        let ghost old_ret = ret;
        if found {
            let bit: u8 = 1u8 << i;
            assert(bit == (if i == 0 { 1u8 } else if i == 1 { 2u8 } else if i == 2 { 4u8 } else if i
                == 3 { 8u8 } else if i == 4 { 16u8 } else if i == 5 { 32u8 } else { 64u8 })) by (bit_vector)
                requires
                    bit == 1u8 << i,
                    i < 7,
            ;
            assert(ret < bit ==> (ret | bit) == ret + bit) by (bit_vector)
                requires
                    bit == 1u8 || bit == 2u8 || bit == 4u8 || bit == 8u8 || bit == 16u8 || bit == 32u8
                        || bit == 64u8,
            ;
            ret = ret | bit;
        }
        assert(ret as int == partial_mask(s@, i + 1));
        i = i + 1;
    }
    assert(event_mask(s@) == partial_mask(s@, 7)) by {
        reveal_with_fuel(partial_mask, 8);
    }
    ret
}

/// Each letter of `rwocdnt`, in either case, sets its own bit, by its
/// place in that word, and nothing else counts: `r` 1, `w` 2, `o` 4,
/// `c` 8, `d` 16, `n` 32, `t` 64.
pub proof fn law_event_letters(s: Seq<char>)
    ensures
        event_mask(s) == (if s.contains('r') || s.contains('R') { 1int } else { 0 }) + (if s.contains('w')
            || s.contains('W') { 2int } else { 0 }) + (if s.contains('o') || s.contains('O') {
            4int
        } else {
            0
        }) + (if s.contains('c') || s.contains('C') { 8int } else { 0 }) + (if s.contains('d')
            || s.contains('D') { 16int } else { 0 }) + (if s.contains('n') || s.contains('N') {
            32int
        } else {
            0
        }) + (if s.contains('t') || s.contains('T') { 64int } else { 0 }),
{
    assert(event_letter(0) == 'r' && event_letter_upper(0) == 'R');
    assert(event_letter(1) == 'w' && event_letter_upper(1) == 'W');
    assert(event_letter(2) == 'o' && event_letter_upper(2) == 'O');
    assert(event_letter(3) == 'c' && event_letter_upper(3) == 'C');
    assert(event_letter(4) == 'd' && event_letter_upper(4) == 'D');
    assert(event_letter(5) == 'n' && event_letter_upper(5) == 'N');
    assert(event_letter(6) == 't' && event_letter_upper(6) == 'T');
}

/// The case of a letter does not matter: changing every `rwocdnt` letter
/// of `s` to upper case (and keeping the rest) keeps the event mask.
pub proof fn law_event_case(s: Seq<char>)
    ensures
        event_mask(s) == event_mask(s.map_values(|c: char| upper_event_letter(c))),
{
    let u = s.map_values(|c: char| upper_event_letter(c));
    law_event_letters(s);
    law_event_letters(u);
    let lo = seq!['r', 'w', 'o', 'c', 'd', 'n', 't'];
    let up = seq!['R', 'W', 'O', 'C', 'D', 'N', 'T'];
    assert forall|i: int| 0 <= i < 7 implies ((s.contains(#[trigger] lo[i]) || s.contains(up[i])) <==> u.contains(
        up[i],
    )) && !u.contains(lo[i]) by {
        if s.contains(lo[i]) {
            let j = choose|j: int| 0 <= j < s.len() && s[j] == lo[i];
            assert(u[j] == up[i]);
        }
        if s.contains(up[i]) {
            let j = choose|j: int| 0 <= j < s.len() && s[j] == up[i];
            assert(u[j] == up[i]);
        }
        if u.contains(up[i]) {
            let j = choose|j: int| 0 <= j < u.len() && u[j] == up[i];
            assert(s[j] == lo[i] || s[j] == up[i]);
        }
        if u.contains(lo[i]) {
            let j = choose|j: int| 0 <= j < u.len() && u[j] == lo[i];
            assert(false);
        }
    }
    assert(lo[0] == 'r' && lo[1] == 'w' && lo[2] == 'o' && lo[3] == 'c' && lo[4] == 'd' && lo[5] == 'n' && lo[6] == 't');
    assert(up[0] == 'R' && up[1] == 'W' && up[2] == 'O' && up[3] == 'C' && up[4] == 'D' && up[5] == 'N' && up[6] == 'T');
}

/// `c` in upper case where it is one of the letters `rwocdnt`.
pub open spec fn upper_event_letter(c: char) -> char {
    if c == 'r' {
        'R'
    } else if c == 'w' {
        'W'
    } else if c == 'o' {
        'O'
    } else if c == 'c' {
        'C'
    } else if c == 'd' {
        'D'
    } else if c == 'n' {
        'N'
    } else if c == 't' {
        'T'
    } else {
        c
    }
}

} // verus!
