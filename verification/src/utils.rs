use vstd::prelude::*;

use crate::digits::{
    all_digits, dec_padded, dec_val, is_digit, lemma_dec_padded_len, lemma_dec_padded_value,
    parse_dec_range, pow10, u64_to_dec_pad,
};

verus! {

/// A one-element vector holding the given string.
pub fn vec_from_string(str: String) -> (r: Vec<String>)
    ensures
        r@.len() == 1,
        r@[0] == str,
{
    let mut vec: Vec<String> = Vec::new();
    vec.push(str);
    vec
}

/// The index line of an occurrence: its start timestamp, padded to ten
/// digits, one blank, and the event file's path.
pub open spec fn khaleesi_line_spec(ts: u64, path: Seq<char>) -> Seq<char> {
    dec_padded(ts as nat, 10) + seq![' '] + path
}

/// Writes one index line.
pub fn format_khaleesi_line(ts: u64, path: &str) -> (r: String)
    ensures
        r@ == khaleesi_line_spec(ts, path@),
{
    let mut s = u64_to_dec_pad(ts, 10);
    proof {
        reveal_strlit(" ");
    }
    s.append(" ");
    s.append(path);
    proof {
        assert((" ")@ =~= seq![' ']);
        assert(s@ =~= khaleesi_line_spec(ts, path@));
    }
    s
}

/// Splits an index line at its first blank, which is dropped.
pub open spec fn split_at_space(s: Seq<char>) -> Option<(Seq<char>, Seq<char>)>
    decreases s.len(),
{
    if s.len() == 0 {
        None
    } else if s[0] == ' ' {
        Some((Seq::empty(), s.drop_first()))
    } else {
        match split_at_space(s.drop_first()) {
            None => None,
            Some((a, b)) => Some((seq![s[0]] + a, b)),
        }
    }
}

/// What the blank split yields: the pieces around the first blank.
pub proof fn lemma_split_space_props(s: Seq<char>)
    ensures
        match split_at_space(s) {
            Some((a, b)) => a + seq![' '] + b == s && !a.contains(' '),
            None => !s.contains(' '),
        },
    decreases s.len(),
{
    if s.len() == 0 {
        if s.contains(' ') {
            let i = choose|i: int| 0 <= i < s.len() && s[i] == ' ';
        }
    } else if s[0] == ' ' {
        assert(Seq::<char>::empty() + seq![' '] + s.drop_first() =~= s);
        if Seq::<char>::empty().contains(' ') {
            let i = choose|i: int| 0 <= i < 0 && Seq::<char>::empty()[i] == ' ';
        }
    } else {
        lemma_split_space_props(s.drop_first());
        match split_at_space(s.drop_first()) {
            None => {
                if s.contains(' ') {
                    let i = choose|i: int| 0 <= i < s.len() && s[i] == ' ';
                    assert(s.drop_first()[i - 1] == ' ');
                    assert(s.drop_first().contains(' '));
                }
            },
            Some((a, b)) => {
                assert((seq![s[0]] + a) + seq![' '] + b =~= s) by {
                    assert(a + seq![' '] + b == s.drop_first());
                    assert(((seq![s[0]] + a) + seq![' '] + b).len() == s.len());
                    assert forall|i: int|
                        0 <= i < s.len() implies ((seq![s[0]] + a) + seq![' '] + b)[i]
                        == s[i] by {
                        if i == 0 {
                        } else {
                            assert((a + seq![' '] + b)[i - 1] == s.drop_first()[i - 1]);
                            assert(s.drop_first()[i - 1] == s[i]);
                        }
                    }
                }
                if (seq![s[0]] + a).contains(' ') {
                    let i = choose|i: int|
                        0 <= i < (seq![s[0]] + a).len() && (seq![s[0]] + a)[i] == ' ';
                    assert(i > 0);
                    assert(a[i - 1] == ' ');
                    assert(a.contains(' '));
                }
            },
        }
    }
}

/// The entry an index line denotes, if any: a non-empty run of digits
/// whose value fits, one blank, and the path.
pub open spec fn spec_parse_khaleesi_line(s: Seq<char>) -> Option<(u64, Seq<char>)> {
    match split_at_space(s) {
        None => None,
        Some((head, rest)) => {
            if head.len() > 0 && all_digits(head) && dec_val(head) <= u64::MAX {
                Some((dec_val(head) as u64, rest))
            } else {
                None
            }
        },
    }
}

/// Reads one index line.
#[verifier::loop_isolation(false)]
pub fn parse_khaleesi_line(line: &str) -> (r: Option<(u64, String)>)
    ensures
        match r {
            Some((ts, p)) => spec_parse_khaleesi_line(line@) == Some((ts, p@)),
            None => spec_parse_khaleesi_line(line@) is None,
        },
{
    proof {
        lemma_split_space_props(line@);
    }
    let n = line.unicode_len();
    let mut i: usize = 0;
    while i < n
        invariant
            0 <= i <= n,
            n == line@.len(),
            forall|j: int| 0 <= j < i ==> line@[j] != ' ',
        decreases n - i,
    {
        if line.get_char(i) == ' ' {
            let ghost pair = split_at_space(line@)->0;
            let ghost head = pair.0;
            let ghost rest = pair.1;
            proof {
                match split_at_space(line@) {
                    None => {
                        assert(line@[i as int] == ' ');
                        assert(line@.contains(' '));
                        assert(false);
                    },
                    Some((a, b)) => {
                        assert(a + seq![' '] + b == line@);
                        if a.len() < i {
                            assert(line@[a.len() as int] == ' ');
                            assert(false);
                        }
                        if a.len() > i {
                            assert(a[i as int] == line@[i as int]);
                            assert(a.contains(' '));
                            assert(false);
                        }
                        assert(a =~= line@.subrange(0, i as int));
                        assert(b =~= line@.subrange(i as int + 1, n as int));
                    },
                }
            }
            let ts = match parse_dec_range(line, 0, i) {
                Some(v) => v,
                None => {
                    proof {
                        assert(line@.subrange(0, i as int) == head);
                    }
                    return None;
                },
            };
            let path = line.substring_char(i + 1, n).to_owned();
            proof {
                assert(line@.subrange(0, i as int) == head);
                assert(path@ == rest);
            }
            return Some((ts, path));
        }
        i = i + 1;
    }
    proof {
        match split_at_space(line@) {
            Some((a, b)) => {
                assert(a + seq![' '] + b == line@);
                assert(line@[a.len() as int] == ' ');
                assert(false);
            },
            None => {},
        }
    }
    None
}

/// Writing an index line and reading it back gives the entry again,
/// for any timestamp the ten-digit form can carry.
pub proof fn lemma_khaleesi_line_round_trip(ts: u64, path: Seq<char>)
    requires
        ts <= 9999999999,
    ensures
        spec_parse_khaleesi_line(khaleesi_line_spec(ts, path)) == Some((ts, path)),
{
    let head = dec_padded(ts as nat, 10);
    assert(pow10(10) == 10000000000) by {
        reveal_with_fuel(pow10, 11);
    }
    lemma_dec_padded_value(ts as nat, 10);
    lemma_dec_padded_len(ts as nat, 10);
    assert(!head.contains(' ')) by {
        if head.contains(' ') {
            let i = choose|i: int| 0 <= i < head.len() && head[i] == ' ';
            assert(is_digit(head[i]));
        }
    }
    lemma_split_space_of(head, path);
}

/// Splitting a line built from a blank-free head finds the written
/// blank.
pub proof fn lemma_split_space_of(a: Seq<char>, b: Seq<char>)
    requires
        !a.contains(' '),
    ensures
        split_at_space(a + seq![' '] + b) == Some((a, b)),
    decreases a.len(),
{
    let s = a + seq![' '] + b;
    if a.len() == 0 {
        assert(s[0] == ' ');
        assert(s.drop_first() =~= b);
        assert(Seq::<char>::empty() =~= a);
    } else {
        assert(a[0] == s[0]);
        assert(s[0] != ' ') by {
            if s[0] == ' ' {
                assert(a.contains(' '));
            }
        }
        assert(!a.drop_first().contains(' ')) by {
            if a.drop_first().contains(' ') {
                let i = choose|i: int|
                    0 <= i < a.drop_first().len() && a.drop_first()[i] == ' ';
                assert(a[i + 1] == ' ');
                assert(a.contains(' '));
            }
        }
        lemma_split_space_of(a.drop_first(), b);
        assert(s.drop_first() =~= a.drop_first() + seq![' '] + b);
        assert(seq![s[0]] + a.drop_first() =~= a);
    }
}

} // verus!
