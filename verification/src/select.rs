use vstd::prelude::*;

use crate::dateutil::{date_from_str, days_of_ymd, spec_date_from_str};
use crate::errors::{KhError, KhResult};
use crate::icaltime::IcalTime;
use crate::icalvevent::{event_end_time, event_start_time};
use crate::icalwrap::IcalVCalendar;
use crate::component::PropModel;
use crate::index::{bucket_name_spec, get_bucket_name, BucketKey};
use crate::list::{opt_day, passes_from, passes_to};
use crate::selectors::{merge_from, merge_to};
use crate::strutil::str_eq;

verus! {

// The index selection: date bounds read from arguments, bucket-file
// pruning by name, per-line refinement, and the final canonical order.

/// Lexicographic order on texts.
pub open spec fn lex_le(a: Seq<char>, b: Seq<char>) -> bool
    decreases a.len(),
{
    if a.len() == 0 {
        true
    } else if b.len() == 0 {
        false
    } else if (a[0] as int) < (b[0] as int) {
        true
    } else if (a[0] as int) > (b[0] as int) {
        false
    } else {
        lex_le(a.drop_first(), b.drop_first())
    }
}

/// Compares two texts lexicographically.
#[verifier::loop_isolation(false)]
pub fn str_le(a: &str, b: &str) -> (r: bool)
    ensures
        r == lex_le(a@, b@),
{
    let an = a.unicode_len();
    let bn = b.unicode_len();
    let mut i: usize = 0;
    proof {
        assert(a@.skip(0) =~= a@);
        assert(b@.skip(0) =~= b@);
    }
    while i < an && i < bn
        invariant
            0 <= i <= an,
            i <= bn,
            an == a@.len(),
            bn == b@.len(),
            forall|j: int| 0 <= j < i ==> a@[j] == b@[j],
            lex_le(a@, b@) == lex_le(a@.skip(i as int), b@.skip(i as int)),
        decreases an - i,
    {
        let ca = a.get_char(i);
        let cb = b.get_char(i);
        proof {
            let ra = a@.skip(i as int);
            let rb = b@.skip(i as int);
            assert(ra[0] == a@[i as int]);
            assert(rb[0] == b@[i as int]);
            assert(ra.drop_first() =~= a@.skip(i as int + 1));
            assert(rb.drop_first() =~= b@.skip(i as int + 1));
        }
        if (ca as u32) < (cb as u32) {
            return true;
        }
        if (ca as u32) > (cb as u32) {
            return false;
        }
        i = i + 1;
    }
    proof {
        if i >= an {
            assert(a@.skip(i as int).len() == 0);
        } else {
            assert(b@.skip(i as int).len() == 0);
            assert(a@.skip(i as int).len() > 0);
        }
    }
    an <= bn
}

/// The selection filters of the index path.
pub struct SelectFilters {
    pub from: Option<IcalTime>,
    pub to: Option<IcalTime>,
}

/// The bounds a selection argument list names: pairs of `from` and
/// `to` tokens over plain dates, several bounds combining into the
/// tightest pair.
pub open spec fn select_run(args: Seq<Seq<char>>, fd: Option<int>, td: Option<int>) -> Option<
    (Option<int>, Option<int>),
>
    decreases args.len(),
{
    if args.len() == 0 {
        Some((fd, td))
    } else if args.len() == 1 {
        None
    } else {
        let key = args[0];
        let val = args[1];
        if key == "from"@ {
            match spec_date_from_str(val) {
                Some(d) => select_run(
                    args.skip(2),
                    Some(merge_from(fd, days_of_ymd(d.year as int, d.month as int, d.day as int))),
                    td,
                ),
                None => None,
            }
        } else if key == "to"@ {
            match spec_date_from_str(val) {
                Some(d) => select_run(
                    args.skip(2),
                    fd,
                    Some(merge_to(td, days_of_ymd(d.year as int, d.month as int, d.day as int))),
                ),
                None => None,
            }
        } else {
            None
        }
    }
}

impl SelectFilters {
    pub open spec fn wf(self) -> bool {
        &&& match self.from {
            Some(t) => t.wf(),
            None => true,
        }
        &&& match self.to {
            Some(t) => t.wf(),
            None => true,
        }
    }

    /// Reads a selection argument list.
    #[verifier::loop_isolation(false)]
    pub fn parse_from_args(args: &Vec<String>) -> (r: KhResult<SelectFilters>)
        ensures
            ({
                let am = args@.map_values(|a: String| a@);
                match r {
                    Ok(f) => f.wf() && select_run(am, None, None) == Some(
                        (opt_day(f.from), opt_day(f.to)),
                    ),
                    Err(e) => e == KhError::BadSyntax && select_run(am, None, None) is None,
                }
            }),
    {
        let ghost am = args@.map_values(|a: String| a@);
        let n = args.len();
        let mut from: Option<IcalTime> = None;
        let mut to: Option<IcalTime> = None;
        let mut i: usize = 0;
        proof {
            assert(am.skip(0) =~= am);
        }
        while i < n
            invariant
                0 <= i <= n,
                n == args@.len(),
                select_run(am, None, None) == select_run(
                    am.skip(i as int),
                    opt_day(from),
                    opt_day(to),
                ),
                match from {
                    Some(t) => t.wf(),
                    None => true,
                },
                match to {
                    Some(t) => t.wf(),
                    None => true,
                },
            decreases n - i,
        {
            let ghost rest = am.skip(i as int);
            proof {
                assert(rest[0] == am[i as int]);
                if i + 1 < n {
                    assert(rest[1] == am[i as int + 1]);
                    assert(rest.skip(2) =~= am.skip(i as int + 2));
                }
            }
            if i + 1 >= n {
                return Err(KhError::BadSyntax);
            }
            let key = &args[i];
            let val = &args[i + 1];
            if str_eq(key.as_str(), "from") {
                match date_from_str(val.as_str()) {
                    Some(d) => {
                        from = crate::selectors::merge_from_x(from, d);
                    },
                    None => {
                        return Err(KhError::BadSyntax);
                    },
                }
            } else if str_eq(key.as_str(), "to") {
                match date_from_str(val.as_str()) {
                    Some(d) => {
                        to = crate::selectors::merge_to_x(to, d);
                    },
                    None => {
                        return Err(KhError::BadSyntax);
                    },
                }
            } else {
                return Err(KhError::BadSyntax);
            }
            i = i + 2;
        }
        proof {
            assert(am.skip(i as int) =~= Seq::<Seq<char>>::empty());
        }
        Ok(SelectFilters { from, to })
    }

    /// Whether a bucket file name lies before the lower bound's bucket
    /// and can be skipped.
    pub fn predicate_path_is_not_from(&self, filename: &str) -> (r: bool)
        requires
            self.wf(),
        ensures
            r == match self.from {
                Some(t) => !lex_le(
                    bucket_name_spec(BucketKey { year: t.year, month: t.month }),
                    filename@,
                ),
                None => false,
            },
    {
        match &self.from {
            Some(t) => {
                let name = get_bucket_name(&BucketKey { year: t.year, month: t.month });
                !str_le(name.as_str(), filename)
            },
            None => false,
        }
    }

    /// Whether a bucket file name lies at or before the upper bound's
    /// bucket and is still read.
    pub fn predicate_path_is_to(&self, filename: &str) -> (r: bool)
        requires
            self.wf(),
        ensures
            r == match self.to {
                Some(t) => lex_le(
                    filename@,
                    bucket_name_spec(BucketKey { year: t.year, month: t.month }),
                ),
                None => true,
            },
    {
        match &self.to {
            Some(t) => {
                let name = get_bucket_name(&BucketKey { year: t.year, month: t.month });
                str_le(filename, name.as_str())
            },
            None => true,
        }
    }

    /// Whether a candidate's document overlaps the lower bound: the
    /// principal event's start or end lies at or after it.
    pub fn predicate_line_is_from(&self, cal: &IcalVCalendar) -> (r: bool)
        requires
            self.wf(),
            cal.wf(),
            cal.instance_timestamp is None,
        ensures
            ({
                let props = if cal.events_models().len() > 0 {
                    cal.events_models()[0]
                } else {
                    Seq::<PropModel>::empty()
                };
                r == passes_from(
                    opt_day(self.from),
                    event_start_time(props),
                    match event_end_time(props) {
                        Some(t) => Some(t.timestamp()),
                        None => None,
                    },
                )
            }),
    {
        let f = crate::list::ListFilters {
            from: self.from,
            to: None,
            num: None,
            calendar: None,
        };
        f.predicate_is_from(cal)
    }

    /// Whether a candidate's document overlaps the upper bound: the
    /// principal event's start or end lies at or before it.
    pub fn predicate_line_is_to(&self, cal: &IcalVCalendar) -> (r: bool)
        requires
            self.wf(),
            cal.wf(),
            cal.instance_timestamp is None,
        ensures
            ({
                let props = if cal.events_models().len() > 0 {
                    cal.events_models()[0]
                } else {
                    Seq::<PropModel>::empty()
                };
                r == passes_to(
                    opt_day(self.to),
                    event_start_time(props),
                    match event_end_time(props) {
                        Some(t) => Some(t.timestamp()),
                        None => None,
                    },
                )
            }),
    {
        let f = crate::list::ListFilters {
            from: None,
            to: self.to,
            num: None,
            calendar: None,
        };
        f.predicate_is_to(cal)
    }
}

/// The texts of a line list.
pub open spec fn line_views(v: Seq<String>) -> Seq<Seq<char>> {
    v.map_values(|l: String| l@)
}

/// Whether a line sequence ascends in lexicographic order.
pub open spec fn lines_sorted(s: Seq<Seq<char>>) -> bool {
    forall|i: int| 0 <= i && i + 1 < s.len() ==> lex_le(#[trigger] s[i], s[i + 1])
}

/// The order is total.
pub proof fn lemma_lex_total(a: Seq<char>, b: Seq<char>)
    ensures
        lex_le(a, b) || lex_le(b, a),
    decreases a.len(),
{
    if a.len() > 0 && b.len() > 0 && a[0] == b[0] {
        lemma_lex_total(a.drop_first(), b.drop_first());
    }
}

/// The order is reflexive.
pub proof fn lemma_lex_refl(a: Seq<char>)
    ensures
        lex_le(a, a),
    decreases a.len(),
{
    if a.len() > 0 {
        lemma_lex_refl(a.drop_first());
    }
}

/// The order is antisymmetric.
pub proof fn lemma_lex_antisym(a: Seq<char>, b: Seq<char>)
    requires
        lex_le(a, b),
        lex_le(b, a),
    ensures
        a == b,
    decreases a.len(),
{
    if a.len() == 0 {
        assert(b.len() == 0);
        assert(a =~= b);
    } else {
        assert(b.len() > 0);
        assert(a[0] == b[0]);
        lemma_lex_antisym(a.drop_first(), b.drop_first());
        assert(a.drop_first() == b.drop_first());
        assert(a.drop_first().len() == b.drop_first().len());
        assert(a.len() == b.len());
        assert forall|k: int| 0 <= k < a.len() implies a[k] == b[k] by {
            if k > 0 {
                assert(a[k] == a.drop_first()[k - 1]);
                assert(b[k] == b.drop_first()[k - 1]);
            }
        }
        assert(a =~= b);
    }
}

/// The order is transitive.
pub proof fn lemma_lex_trans(a: Seq<char>, b: Seq<char>, c: Seq<char>)
    requires
        lex_le(a, b),
        lex_le(b, c),
    ensures
        lex_le(a, c),
    decreases a.len(),
{
    if a.len() > 0 && b.len() > 0 && c.len() > 0 && a[0] == b[0] && b[0] == c[0] {
        lemma_lex_trans(a.drop_first(), b.drop_first(), c.drop_first());
    }
}

/// In a sorted list every earlier line lies at or before a later one.
pub proof fn lemma_sorted_range_le(s: Seq<Seq<char>>, i: int, j: int)
    requires
        lines_sorted(s),
        0 <= i <= j < s.len(),
    ensures
        lex_le(s[i], s[j]),
    decreases j - i,
{
    if i == j {
        lemma_lex_refl(s[i]);
    } else {
        lemma_sorted_range_le(s, i, j - 1);
        lemma_lex_trans(s[i], s[j - 1], s[j]);
    }
}

/// A sorted list without adjacent repeats holds no repeats at all.
pub proof fn lemma_sorted_distinct_no_dup(s: Seq<Seq<char>>)
    requires
        lines_sorted(s),
        forall|i: int| 0 <= i && i + 1 < s.len() ==> (#[trigger] s[i]) != s[i + 1],
    ensures
        s.no_duplicates(),
{
    assert forall|i: int, j: int| 0 <= i < s.len() && 0 <= j < s.len() && i != j implies s[i]
        != s[j] by {
        let (a, b) = if i < j {
            (i, j)
        } else {
            (j, i)
        };
        if s[a] == s[b] {
            lemma_sorted_range_le(s, a + 1, b);
            assert(lex_le(s[a], s[a + 1]));
            lemma_lex_antisym(s[a], s[a + 1]);
        }
    }
}

/// Sorts candidate lines into the canonical order and removes
/// duplicates: the result ascends, holds exactly the texts of the
/// input, and holds each of them once.
#[verifier::loop_isolation(false)]
pub fn select_finalize(lines: Vec<String>) -> (r: Vec<String>)
    ensures
        lines_sorted(line_views(r@)),
        line_views(r@).no_duplicates(),
        forall|x: Seq<char>|
            #[trigger] line_views(r@).contains(x) <==> line_views(lines@).contains(x),
{
    let sorted = sort_lines(lines);
    let r = dedup_sorted(sorted);
    proof {
        lemma_sorted_distinct_no_dup(line_views(r@));
    }
    r
}

/// Sorts lines by insertion, keeping exactly the same texts.
#[verifier::loop_isolation(false)]
fn sort_lines(lines: Vec<String>) -> (r: Vec<String>)
    ensures
        lines_sorted(line_views(r@)),
        forall|x: Seq<char>|
            #[trigger] line_views(r@).contains(x) <==> line_views(lines@).contains(x),
{
    let mut out: Vec<String> = Vec::new();
    let mut i: usize = 0;
    let ghost lm = line_views(lines@);
    proof {
        assert(lm.subrange(0, 0) =~= Seq::<Seq<char>>::empty());
    }
    while i < lines.len()
        invariant
            0 <= i <= lines@.len(),
            lm == line_views(lines@),
            lines_sorted(line_views(out@)),
            forall|x: Seq<char>|
                #[trigger] line_views(out@).contains(x) <==> lm.subrange(
                    0,
                    i as int,
                ).contains(x),
        decreases lines@.len() - i,
    {
        let line = lines[i].clone();
        insert_sorted(&mut out, line);
        proof {
            let sub1 = lm.subrange(0, i as int + 1);
            assert forall|x: Seq<char>|
                sub1.contains(x) <==> (lm.subrange(0, i as int).contains(x) || x
                    == lm[i as int]) by {
                if sub1.contains(x) {
                    let k = choose|k: int| 0 <= k < sub1.len() && sub1[k] == x;
                    if k < i {
                        assert(lm.subrange(0, i as int)[k] == x);
                    }
                }
                if lm.subrange(0, i as int).contains(x) {
                    let k = choose|k: int|
                        0 <= k < i && lm.subrange(0, i as int)[k] == x;
                    assert(sub1[k] == x);
                }
                if x == lm[i as int] {
                    assert(sub1[i as int] == x);
                }
            }
        }
        i = i + 1;
    }
    proof {
        assert(lm.subrange(0, lm.len() as int) =~= lm);
    }
    out
}

/// Inserts one line into a sorted list, keeping it sorted.
#[verifier::loop_isolation(false)]
fn insert_sorted(out: &mut Vec<String>, line: String)
    requires
        lines_sorted(line_views(old(out)@)),
    ensures
        lines_sorted(line_views(final(out)@)),
        forall|x: Seq<char>|
            #[trigger] line_views(final(out)@).contains(x) <==> (line_views(old(out)@).contains(x) || x == line@),
{
    let ghost bm = line_views(out@);
    let n = out.len();
    let mut i: usize = 0;
    while i < n
        invariant
            0 <= i <= n,
            n == out@.len(),
            out@ == old(out)@,
            forall|j: int| 0 <= j < i ==> lex_le((#[trigger] out@[j])@, line@),
        decreases n - i,
    {
        if !str_le(out[i].as_str(), line.as_str()) {
            break ;
        }
        i = i + 1;
    }
    proof {
        if i < n {
            assert(!lex_le(out@[i as int]@, line@));
            lemma_lex_total(out@[i as int]@, line@);
            assert(lex_le(line@, out@[i as int]@));
        }
    }
    out.insert(i, line);
    proof {
        let nm = line_views(out@);
        assert(nm.len() == bm.len() + 1);
        assert(forall|j: int| 0 <= j < i ==> nm[j] == bm[j]);
        assert(nm[i as int] == line@);
        assert(forall|j: int| i < j < nm.len() ==> nm[j] == bm[j - 1]);
        assert forall|a: int| 0 <= a && a + 1 < nm.len() implies lex_le(
            #[trigger] nm[a],
            nm[a + 1],
        ) by {
            if a + 1 < i {
                assert(lex_le(bm[a], bm[a + 1]));
            } else if a + 1 == i {
                assert(lex_le(bm[a], line@));
            } else if a == i {
                if i < bm.len() {
                    assert(lex_le(line@, bm[i as int]));
                }
            } else {
                assert(lex_le(bm[a - 1], bm[a]));
            }
        }
        assert forall|x: Seq<char>| nm.contains(x) <==> (bm.contains(x) || x == line@) by {
            if nm.contains(x) {
                let k = choose|k: int| 0 <= k < nm.len() && nm[k] == x;
                if k < i {
                    assert(bm[k] == x);
                } else if k == i {
                } else {
                    assert(bm[k - 1] == x);
                }
            }
            if bm.contains(x) {
                let k = choose|k: int| 0 <= k < bm.len() && bm[k] == x;
                if k < i {
                    assert(nm[k] == x);
                } else {
                    assert(nm[k + 1] == x);
                }
            }
            if x == line@ {
                assert(nm[i as int] == x);
            }
        }
    }
}

/// Removes adjacent duplicates from a sorted list, keeping the same
/// texts.
#[verifier::loop_isolation(false)]
fn dedup_sorted(lines: Vec<String>) -> (r: Vec<String>)
    requires
        lines_sorted(line_views(lines@)),
    ensures
        lines_sorted(line_views(r@)),
        forall|i: int| 0 <= i && i + 1 < r@.len() ==> (#[trigger] line_views(r@)[i])
            != line_views(r@)[i + 1],
        forall|x: Seq<char>|
            #[trigger] line_views(r@).contains(x) <==> line_views(lines@).contains(x),
{
    let ghost lm = line_views(lines@);
    let mut out: Vec<String> = Vec::new();
    let mut i: usize = 0;
    proof {
        assert(lm.subrange(0, 0) =~= Seq::<Seq<char>>::empty());
    }
    while i < lines.len()
        invariant
            0 <= i <= lines@.len(),
            lm == line_views(lines@),
            lines_sorted(line_views(out@)),
            forall|a: int| 0 <= a && a + 1 < out@.len() ==> (#[trigger] line_views(out@)[a])
                != line_views(out@)[a + 1],
            out@.len() > 0 ==> i > 0 && out@[out@.len() - 1]@ == lm[i as int - 1],
            forall|x: Seq<char>|
                #[trigger] line_views(out@).contains(x) <==> lm.subrange(
                    0,
                    i as int,
                ).contains(x),
        decreases lines@.len() - i,
    {
        let ghost bm = line_views(out@);
        let keep = if out.len() == 0 {
            true
        } else {
            !str_eq(out[out.len() - 1].as_str(), lines[i].as_str())
        };
        if keep {
            out.push(lines[i].clone());
            proof {
                let nm = line_views(out@);
                assert(nm =~= bm.push(lm[i as int]));
                assert forall|a: int| 0 <= a && a + 1 < nm.len() implies lex_le(
                    #[trigger] nm[a],
                    nm[a + 1],
                ) by {
                    if a + 1 < bm.len() {
                        assert(lex_le(bm[a], bm[a + 1]));
                    } else {
                        assert(nm[a] == lm[i as int - 1]);
                        assert(nm[a + 1] == lm[i as int]);
                        assert(lex_le(lm[i as int - 1], lm[i as int]));
                    }
                }
                assert forall|a: int| 0 <= a && a + 1 < nm.len() implies (#[trigger] nm[a])
                    != nm[a + 1] by {
                    if a + 1 < bm.len() {
                        assert(bm[a] != bm[a + 1]);
                    } else {
                        assert(nm[a] == bm[bm.len() - 1]);
                        assert(nm[a + 1] == lm[i as int]);
                    }
                }
            }
        }
        proof {
            let nm = line_views(out@);
            let sub1 = lm.subrange(0, i as int + 1);
            assert forall|x: Seq<char>| nm.contains(x) <==> sub1.contains(x) by {
                if nm.contains(x) {
                    let k = choose|k: int| 0 <= k < nm.len() && nm[k] == x;
                    if k < bm.len() {
                        assert(bm[k] == x);
                        assert(bm.contains(x));
                        let k2 = choose|k2: int|
                            0 <= k2 < i && lm.subrange(0, i as int)[k2] == x;
                        assert(sub1[k2] == x);
                    } else {
                        assert(x == lm[i as int]);
                        assert(sub1[i as int] == x);
                    }
                }
                if sub1.contains(x) {
                    let k = choose|k: int| 0 <= k < sub1.len() && sub1[k] == x;
                    if k < i {
                        assert(lm.subrange(0, i as int)[k] == x);
                        assert(bm.contains(x));
                        let k2 = choose|k2: int| 0 <= k2 < bm.len() && bm[k2] == x;
                        assert(nm[k2] == x);
                    } else {
                        assert(x == lm[i as int]);
                        if keep {
                            assert(nm[nm.len() - 1] == x);
                        } else {
                            assert(out@.len() > 0);
                            assert(bm[bm.len() - 1] == lm[i as int - 1]);
                            assert(lm[i as int - 1] == x);
                            assert(nm[nm.len() - 1] == x);
                        }
                    }
                }
            }
        }
        i = i + 1;
    }
    proof {
        assert(lm.subrange(0, lm.len() as int) =~= lm);
    }
    out
}

} // verus!

// --- bucket names order as their keys ----------------------------------

verus! {

/// On equal-length digit strings the lexicographic order is the
/// numeric order.
pub proof fn lemma_lex_digits(a: Seq<char>, b: Seq<char>)
    requires
        crate::digits::all_digits(a),
        crate::digits::all_digits(b),
        a.len() == b.len(),
    ensures
        lex_le(a, b) <==> crate::digits::dec_val(a) <= crate::digits::dec_val(b),
    decreases a.len(),
{
    if a.len() > 0 {
        let p = crate::digits::pow10((a.len() - 1) as nat);
        crate::digits::lemma_dec_val_left(a);
        crate::digits::lemma_dec_val_left(b);
        assert(crate::digits::all_digits(a.drop_first())) by {
            assert(forall|k: int|
                0 <= k < a.len() - 1 ==> a.drop_first()[k] == a[k + 1]);
        }
        assert(crate::digits::all_digits(b.drop_first())) by {
            assert(forall|k: int|
                0 <= k < b.len() - 1 ==> b.drop_first()[k] == b[k + 1]);
        }
        crate::digits::lemma_dec_val_upper(a.drop_first());
        crate::digits::lemma_dec_val_upper(b.drop_first());
        crate::digits::lemma_dec_val_nonneg(a.drop_first());
        crate::digits::lemma_dec_val_nonneg(b.drop_first());
        crate::digits::lemma_pow10_pos((a.len() - 1) as nat);
        let va = crate::digits::digit_val(a[0]);
        let vb = crate::digits::digit_val(b[0]);
        let ra = crate::digits::dec_val(a.drop_first());
        let rb = crate::digits::dec_val(b.drop_first());
        if va < vb {
            assert(va * p + ra < vb * p + rb) by (nonlinear_arith)
                requires
                    va + 1 <= vb,
                    0 <= ra < p,
                    0 <= rb,
                    p >= 1,
            ;
        } else if vb < va {
            assert(vb * p + rb < va * p + ra) by (nonlinear_arith)
                requires
                    vb + 1 <= va,
                    0 <= rb < p,
                    0 <= ra,
                    p >= 1,
            ;
        } else {
            lemma_lex_digits(a.drop_first(), b.drop_first());
        }
    }
}

/// Comparing texts that open with equal-length pieces: the openings
/// decide unless they are equal, in which case the rests decide.
pub proof fn lemma_lex_concat(x: Seq<char>, y: Seq<char>, s: Seq<char>, t: Seq<char>)
    requires
        x.len() == y.len(),
    ensures
        lex_le(x + s, y + t) == (if x == y {
            lex_le(s, t)
        } else {
            lex_le(x, y)
        }),
    decreases x.len(),
{
    if x.len() == 0 {
        assert(x =~= y);
        assert(x + s =~= s);
        assert(y + t =~= t);
    } else {
        let xs = x + s;
        let yt = y + t;
        assert(xs[0] == x[0]);
        assert(yt[0] == y[0]);
        if (x[0] as int) != (y[0] as int) {
            assert(x != y) by {
                assert(x[0] != y[0]);
            }
        } else {
            assert(x[0] == y[0]);
            assert(xs.drop_first() =~= x.drop_first() + s);
            assert(yt.drop_first() =~= y.drop_first() + t);
            lemma_lex_concat(x.drop_first(), y.drop_first(), s, t);
            if x.drop_first() == y.drop_first() {
                assert(x =~= y) by {
                    assert(forall|k: int|
                        1 <= k < x.len() ==> x[k] == x.drop_first()[k - 1] && y[k]
                            == y.drop_first()[k - 1]);
                }
            } else {
                assert(x != y) by {
                    if x == y {
                        assert(x.drop_first() =~= y.drop_first());
                    }
                }
            }
        }
    }
}

/// Bucket keys order exactly as their file names do: the pruning of
/// bucket files by name is the pruning by key.
pub proof fn lemma_bucket_name_order(a: BucketKey, b: BucketKey)
    requires
        a.year <= 9999,
        b.year <= 9999,
        a.month <= 99,
        b.month <= 99,
    ensures
        crate::index::key_le(a, b) <==> lex_le(bucket_name_spec(a), bucket_name_spec(b)),
{
    assert(crate::digits::pow10(4) == 10000 && crate::digits::pow10(2) == 100) by {
        reveal_with_fuel(crate::digits::pow10, 5);
    }
    let ya = crate::digits::dec_padded(a.year as nat, 4);
    let yb = crate::digits::dec_padded(b.year as nat, 4);
    let ma = crate::digits::dec_padded(a.month as nat, 2);
    let mb = crate::digits::dec_padded(b.month as nat, 2);
    crate::digits::lemma_dec_padded_len(a.year as nat, 4);
    crate::digits::lemma_dec_padded_len(b.year as nat, 4);
    crate::digits::lemma_dec_padded_len(a.month as nat, 2);
    crate::digits::lemma_dec_padded_len(b.month as nat, 2);
    crate::digits::lemma_dec_padded_value(a.year as nat, 4);
    crate::digits::lemma_dec_padded_value(b.year as nat, 4);
    crate::digits::lemma_dec_padded_value(a.month as nat, 2);
    crate::digits::lemma_dec_padded_value(b.month as nat, 2);
    assert(bucket_name_spec(a) =~= ya + (seq!['-'] + ma));
    assert(bucket_name_spec(b) =~= yb + (seq!['-'] + mb));
    lemma_lex_concat(ya, yb, seq!['-'] + ma, seq!['-'] + mb);
    if ya == yb {
        assert(a.year == b.year);
        lemma_lex_concat(seq!['-'], seq!['-'], ma, mb);
        assert(seq!['-'] =~= seq!['-']);
        lemma_lex_digits(ma, mb);
    } else {
        assert(a.year != b.year);
        lemma_lex_digits(ya, yb);
    }
}

} // verus!
