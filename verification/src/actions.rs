use vstd::prelude::*;

use crate::errors::{KhError, KhResult};
use crate::strutil::{push_char, str_eq};

verus! {

// The pure cores of the command actions: each decides or computes on
// plain values; reading files, terminals and the sequence file stays
// with the caller.

/// Decides a `get` query: the only recognized query hands back the
/// calendar list, one name per output line.
pub fn action_get(args: &Vec<String>, calendars: &Vec<String>) -> (r: KhResult<Vec<String>>)
    ensures
        match r {
            Ok(out) => args@.len() > 0 && args@[0]@ == "calendars"@ && out@ == calendars@,
            Err(e) => e == KhError::BadSyntax && (args@.len() == 0 || args@[0]@
                != "calendars"@),
        },
{
    if args.len() == 0 {
        return Err(KhError::BadSyntax);
    }
    if str_eq(args[0].as_str(), "calendars") {
        Ok(action_get_calendars(calendars))
    } else {
        Err(KhError::BadSyntax)
    }
}

/// The calendar listing: one line per calendar, in the given order.
pub fn action_get_calendars(calendars: &Vec<String>) -> (r: Vec<String>)
    ensures
        r@ == calendars@,
{
    copy_lines(calendars)
}

/// The output of showing a selection: each selected file's text, in
/// order.
pub fn do_show(contents: &Vec<String>) -> (r: Vec<String>)
    ensures
        r@ == contents@,
{
    copy_lines(contents)
}

/// An exact copy of an output line list.
fn copy_lines(lines: &Vec<String>) -> (r: Vec<String>)
    ensures
        r@ == lines@,
{
    let mut out: Vec<String> = Vec::new();
    let mut i: usize = 0;
    while i < lines.len()
        invariant
            0 <= i <= lines@.len(),
            out@.len() == i,
            forall|j: int| 0 <= j < i ==> #[trigger] out@[j] == lines@[j],
        decreases lines@.len() - i,
    {
        out.push(lines[i].clone());
        i = i + 1;
    }
    proof {
        assert(out@ =~= lines@);
    }
    out
}

/// Decides what the sequence command does: text piped in is written to
/// the sequence file, and the sequence is echoed back unless both ends
/// are pipes in a pass-through.
pub fn seq_actions(stdin_is_tty: bool, stdout_is_tty: bool) -> (r: (bool, bool))
    ensures
        r.0 == !stdin_is_tty,
        r.1 == (!stdout_is_tty || stdin_is_tty),
{
    (!stdin_is_tty, !stdout_is_tty || stdin_is_tty)
}

/// The sequence-file text of piped-in lines: the lines joined with
/// line breaks, one more at the end.
pub open spec fn joined_lines(ls: Seq<Seq<char>>) -> Seq<char>
    decreases ls.len(),
{
    if ls.len() == 0 {
        Seq::empty()
    } else {
        joined_lines(ls.drop_last()) + ls.last() + seq!['\n']
    }
}

/// Joins piped-in lines into the sequence-file text.
#[verifier::loop_isolation(false)]
pub fn write_stdin_to_seqfile(lines: &Vec<String>) -> (r: String)
    ensures
        r@ == joined_lines(lines@.map_values(|l: String| l@)),
{
    let ghost lm = lines@.map_values(|l: String| l@);
    let mut out = String::new();
    let mut i: usize = 0;
    proof {
        assert(joined_lines(lm.subrange(0, 0)) =~= Seq::<char>::empty());
    }
    while i < lines.len()
        invariant
            0 <= i <= lines@.len(),
            out@ == joined_lines(lm.subrange(0, i as int)),
        decreases lines@.len() - i,
    {
        out.append(lines[i].as_str());
        push_char(&mut out, '\n');
        proof {
            let sub1 = lm.subrange(0, i as int + 1);
            assert(sub1.drop_last() =~= lm.subrange(0, i as int));
            assert(sub1.last() == lm[i as int]);
            assert(out@ =~= joined_lines(sub1));
        }
        i = i + 1;
    }
    proof {
        assert(lm.subrange(0, lm.len() as int) =~= lm);
    }
    out
}

} // verus!
