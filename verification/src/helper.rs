//! The command line: a debug switch and the root directory to watch.
use vstd::prelude::*;
use crate::text::{begins_with, begins_with_chars, chars_lit, chars_of, string_of, sub_chars};

verus! {

/// The settings the command line gives.
#[derive(Debug, Clone)]
pub struct CLI {
    /// Print the settings before starting.
    pub dbg: bool,
    /// The directory whose configuration is read and which is watched.
    pub root: String,
}

/// An argument that turns the debug output on.
pub open spec fn is_debug_arg(a: Seq<char>) -> bool {
    a == "-d"@ || a == "--debug"@ || a == " --DEBUG"@ || a == "-D"@
}

/// An argument that sets the root: it begins with `--root=`.
pub open spec fn is_root_arg(a: Seq<char>) -> bool {
    begins_with(a, "--root="@)
}

/// The root that a `--root=` argument names: all after its first `=`.
pub open spec fn root_of(a: Seq<char>) -> Seq<char> {
    a.skip("--root="@.len() as int)
}

/// The settings after reading `args` in order from `(dbg, root)`, and
/// whether the help was asked for: reading stops at the first argument
/// that neither turns debugging on nor sets the root (the help flags
/// among them), which asks for the help.
pub open spec fn args_outcome(dbg: bool, root: Seq<char>, args: Seq<Seq<char>>) -> (bool, Seq<char>, bool)
    decreases args.len(),
{
    if args.len() == 0 {
        (dbg, root, false)
    } else if is_debug_arg(args[0]) {
        args_outcome(true, root, args.drop_first())
    } else if is_root_arg(args[0]) {
        args_outcome(dbg, root_of(args[0]), args.drop_first())
    } else {
        (dbg, root, true)
    }
}

/// `a` and `b` hold the same characters.
fn same_text(a: &Vec<char>, b: &Vec<char>) -> (r: bool)
    ensures
        r == (a@ == b@),
{
    if a.len() != b.len() {
        return false;
    }
    for k in 0..a.len()
        invariant
            a@.len() == b@.len(),
            forall|i: int| 0 <= i < k ==> a@[i] == b@[i],
    {
        if a[k] != b[k] {
            return false;
        }
    }
    assert(a@ =~= b@);
    true
}

impl CLI {
    /// No debugging, and `root` (the working directory, which the caller
    /// looks up) as the root.
    pub fn new(root: String) -> (r: Self)
        ensures
            r.dbg == false,
            r.root@ == root@,
    {
        CLI { dbg: false, root }
    }

    /// Reads the arguments after the program's name, in order: each of
    /// `-d`, `--debug`, ` --DEBUG` and `-D` turns debugging on, and
    /// `--root=<dir>` sets the root to `<dir>`. Any other argument (the
    /// help flags `-h`, `--help`, ` --HELP`, `-H` among them) asks for the
    /// help, which ends the program: reading stops there, and the result
    /// says so.
    #[allow(non_snake_case)]
    pub fn Parse_Args(&mut self, args: &Vec<String>) -> (help: bool)
        ensures
            (final(self).dbg, final(self).root@, help) == args_outcome(
                old(self).dbg,
                old(self).root@,
                args@.map_values(|s: String| s@),
            ),
    {
        let ghost all = args@.map_values(|s: String| s@);
        let d1 = chars_lit("-d");
        let d2 = chars_lit("--debug");
        let d3 = chars_lit(" --DEBUG");
        let d4 = chars_lit("-D");
        let rp = chars_lit("--root=");
        proof {
            reveal_strlit("--root=");
            assert(all.skip(0) =~= all);
        }
        let mut i: usize = 0;
        while i < args.len()
            invariant
                0 <= i <= args@.len(),
                all == args@.map_values(|s: String| s@),
                d1@ == "-d"@,
                d2@ == "--debug"@,
                d3@ == " --DEBUG"@,
                d4@ == "-D"@,
                rp@ == "--root="@,
                rp@.len() == 7,
                args_outcome(self.dbg, self.root@, all.skip(i as int)) == args_outcome(
                    old(self).dbg,
                    old(self).root@,
                    all,
                ),
            decreases args@.len() - i,
        {
            let a = chars_of(args[i].as_str());
            let ghost rest = all.skip(i as int);
            assert(rest[0] == a@);
            assert(rest.drop_first() =~= all.skip(i + 1));
            if same_text(&a, &d1) || same_text(&a, &d2) || same_text(&a, &d3) || same_text(&a, &d4) {
                self.dbg = true;
            } else if begins_with_chars(&a, &rp) {
                let tail = sub_chars(&a, 7, a.len());
                assert(tail@ =~= root_of(a@));
                self.root = string_of(&tail);
            } else {
                return true;
            }
            i = i + 1;
        }
        assert(all.skip(i as int).len() == 0);
        false
    }
}

} // verus!
