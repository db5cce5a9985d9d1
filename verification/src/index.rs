use vstd::prelude::*;

use crate::dateutil::{
    days_of_ymd, days_to_ymd, lemma_days_before_year_mono, valid_ymd,
    lemma_ymd_lex_order, lemma_ymd_unique, SECS_PER_DAY,
};
use crate::digits::{dec_padded, u64_to_dec_pad};
use crate::icaltime::ts_limit;

verus! {

// The index store's bucket structure: a coarse, order-preserving key
// for each timestamp (its calendar month), the named bucket files, and
// the range scan the query engine prunes with.

/// One coarse time bucket: a calendar month.
#[derive(Clone, Copy, Debug, PartialEq, Eq, Structural)]
pub struct BucketKey {
    pub year: u32,
    pub month: u32,
}

/// Order on bucket keys: by year, then by month.
pub open spec fn key_le(a: BucketKey, b: BucketKey) -> bool {
    a.year < b.year || (a.year == b.year && a.month <= b.month)
}

pub open spec fn key_lt(a: BucketKey, b: BucketKey) -> bool {
    key_le(a, b) && a != b
}

/// The bucket of a timestamp: the month its civil date falls in.
pub open spec fn spec_bucket_key(ts: int) -> BucketKey {
    choose|k: BucketKey| key_matches(k, ts)
}

/// The instant a date and a time of day name.
pub open spec fn ts_of_dmt(y: int, m: int, d: int, tod: int) -> int {
    days_of_ymd(y, m, d) * 86400 + tod
}

/// Whether a key names the month holding a timestamp.
pub open spec fn key_matches(k: BucketKey, ts: int) -> bool {
    &&& valid_ymd(k.year as int, k.month as int, 1)
    &&& exists|d: int, tod: int|
        1 <= d && 0 <= tod < 86400 && valid_ymd(k.year as int, k.month as int, d) && ts
            == #[trigger] ts_of_dmt(k.year as int, k.month as int, d, tod)
}

/// The bucket of a timestamp, computed through the civil calendar.
pub fn bucket_key(ts: u64) -> (r: BucketKey)
    requires
        ts < ts_limit(),
    ensures
        key_matches(r, ts as int),
        valid_ymd(r.year as int, r.month as int, 1),
{
    proof {
        lemma_days_before_year_mono(1970, 10000);
    }
    let days = (ts / SECS_PER_DAY) as u32;
    let tod = ts % SECS_PER_DAY;
    let (year, month, day) = days_to_ymd(days);
    proof {
        assert(ts == days * 86400 + tod);
        let d = day as int;
        let t = tod as int;
        assert(1 <= d && 0 <= t < 86400 && valid_ymd(year as int, month as int, d) && ts
            == ts_of_dmt(year as int, month as int, d, t));
        assert(valid_ymd(year as int, month as int, 1));
    }
    BucketKey { year, month }
}

/// A timestamp lies in exactly one month.
pub proof fn lemma_key_matches_unique(a: BucketKey, b: BucketKey, ts: int)
    requires
        key_matches(a, ts),
        key_matches(b, ts),
    ensures
        a == b,
{
    let (da, ta) = choose|da: int, ta: int|
        1 <= da && 0 <= ta < 86400 && valid_ymd(a.year as int, a.month as int, da) && ts
            == #[trigger] ts_of_dmt(a.year as int, a.month as int, da, ta);
    let (db, tb) = choose|db: int, tb: int|
        1 <= db && 0 <= tb < 86400 && valid_ymd(b.year as int, b.month as int, db) && ts
            == #[trigger] ts_of_dmt(b.year as int, b.month as int, db, tb);
    let xa = days_of_ymd(a.year as int, a.month as int, da);
    let xb = days_of_ymd(b.year as int, b.month as int, db);
    if xa < xb {
        assert(xa * 86400 + 86400 <= xb * 86400) by (nonlinear_arith)
            requires xa < xb;
        assert(false);
    }
    if xb < xa {
        assert(xb * 86400 + 86400 <= xa * 86400) by (nonlinear_arith)
            requires xb < xa;
        assert(false);
    }
    lemma_ymd_unique(a.year as int, a.month as int, da, b.year as int, b.month as int, db);
}

/// The bucket key is monotone: a later timestamp never lands in an
/// earlier month.
pub proof fn lemma_bucket_key_monotone(a: BucketKey, b: BucketKey, tsa: int, tsb: int)
    requires
        key_matches(a, tsa),
        key_matches(b, tsb),
        tsa <= tsb,
    ensures
        key_le(a, b),
{
    if !key_le(a, b) {
        assert(key_lt(b, a));
        let (da, ta) = choose|da: int, ta: int|
            1 <= da && 0 <= ta < 86400 && valid_ymd(a.year as int, a.month as int, da) && tsa
                == #[trigger] ts_of_dmt(a.year as int, a.month as int, da, ta);
        let (db, tb) = choose|db: int, tb: int|
            1 <= db && 0 <= tb < 86400 && valid_ymd(b.year as int, b.month as int, db) && tsb
                == #[trigger] ts_of_dmt(b.year as int, b.month as int, db, tb);
        lemma_ymd_lex_order(b.year as int, b.month as int, db, a.year as int, a.month as int, da);
        let xa = days_of_ymd(a.year as int, a.month as int, da);
        let xb = days_of_ymd(b.year as int, b.month as int, db);
        assert(xb < xa);
        assert(xb * 86400 + 86400 <= xa * 86400) by (nonlinear_arith)
            requires xb < xa;
        assert(false);
    }
}

/// Any timestamp within a closed timestamp range lands in a bucket
/// within the corresponding closed key range: the pruned scan misses
/// nothing.
pub proof fn lemma_scan_covers(
    lo_key: BucketKey,
    hi_key: BucketKey,
    k: BucketKey,
    lo_ts: int,
    hi_ts: int,
    ts: int,
)
    requires
        key_matches(lo_key, lo_ts),
        key_matches(hi_key, hi_ts),
        key_matches(k, ts),
        lo_ts <= ts <= hi_ts,
    ensures
        key_le(lo_key, k),
        key_le(k, hi_key),
{
    lemma_bucket_key_monotone(lo_key, k, lo_ts, ts);
    lemma_bucket_key_monotone(k, hi_key, ts, hi_ts);
}

/// The file name of a bucket: the zero-padded year, a dash, and the
/// zero-padded month.
pub open spec fn bucket_name_spec(k: BucketKey) -> Seq<char> {
    dec_padded(k.year as nat, 4) + seq!['-'] + dec_padded(k.month as nat, 2)
}

/// Writes a bucket's file name.
pub fn get_bucket_name(k: &BucketKey) -> (r: String)
    ensures
        r@ == bucket_name_spec(*k),
{
    let mut s = u64_to_dec_pad(k.year as u64, 4);
    proof {
        reveal_strlit("-");
    }
    s.append("-");
    let m = u64_to_dec_pad(k.month as u64, 2);
    s.append(m.as_str());
    proof {
        assert(("-")@ =~= seq!['-']);
        assert(s@ =~= bucket_name_spec(*k));
    }
    s
}

/// Compares two bucket keys.
pub fn bucket_key_le(a: &BucketKey, b: &BucketKey) -> (r: bool)
    ensures
        r == key_le(*a, *b),
{
    a.year < b.year || (a.year == b.year && a.month <= b.month)
}

/// One bucket of the index: its key and its lines.
pub struct IndexBucket {
    pub key: BucketKey,
    pub lines: Vec<String>,
}

/// The model of a bucket list.
pub open spec fn buckets_model(bs: Seq<IndexBucket>) -> Seq<(BucketKey, Seq<Seq<char>>)> {
    bs.map_values(|b: IndexBucket| (b.key, b.lines@.map_values(|l: String| l@)))
}

/// Adds a line under its key, keeping the keys in ascending order.
pub open spec fn idx_add(
    bs: Seq<(BucketKey, Seq<Seq<char>>)>,
    key: BucketKey,
    line: Seq<char>,
) -> Seq<(BucketKey, Seq<Seq<char>>)>
    decreases bs.len(),
{
    if bs.len() == 0 {
        seq![(key, seq![line])]
    } else if bs[0].0 == key {
        seq![(bs[0].0, bs[0].1.push(line))] + bs.drop_first()
    } else if key_lt(key, bs[0].0) {
        seq![(key, seq![line])] + bs
    } else {
        seq![bs[0]] + idx_add(bs.drop_first(), key, line)
    }
}

/// The index of an entry list: every entry's line filed under its
/// bucket, in entry order within a bucket, the buckets in key order.
pub open spec fn idx_of(entries: Seq<(u64, Seq<char>)>) -> Seq<(BucketKey, Seq<Seq<char>>)>
    decreases entries.len(),
{
    if entries.len() == 0 {
        Seq::empty()
    } else {
        idx_add(
            idx_of(entries.drop_last()),
            spec_bucket_key(entries.last().0 as int),
            crate::utils::khaleesi_line_spec(entries.last().0, entries.last().1),
        )
    }
}

/// Rebuilds the whole index from (start, path) entries: each entry's
/// index line is filed under the bucket of its start.
#[verifier::loop_isolation(false)]
pub fn rebuild_index(entries: &Vec<(u64, String)>) -> (r: Vec<IndexBucket>)
    requires
        forall|i: int| 0 <= i < entries@.len() ==> (#[trigger] entries@[i]).0 < ts_limit(),
    ensures
        buckets_model(r@) == idx_of(entries@.map_values(|e: (u64, String)| (e.0, e.1@))),
{
    let em = Ghost(entries@.map_values(|e: (u64, String)| (e.0, e.1@)));
    let mut out: Vec<IndexBucket> = Vec::new();
    let mut i: usize = 0;
    proof {
        assert(buckets_model(out@) =~= Seq::<(BucketKey, Seq<Seq<char>>)>::empty());
        assert(em@.subrange(0, 0) =~= Seq::<(u64, Seq<char>)>::empty());
        assert(idx_of(em@.subrange(0, 0)) =~= Seq::<(BucketKey, Seq<Seq<char>>)>::empty());
    }
    while i < entries.len()
        invariant
            0 <= i <= entries@.len(),
            buckets_model(out@) == idx_of(em@.subrange(0, i as int)),
        decreases entries@.len() - i,
    {
        let ts = entries[i].0;
        let key = bucket_key(ts);
        proof {
            lemma_spec_bucket_key(key, ts as int);
        }
        let line = crate::utils::format_khaleesi_line(ts, entries[i].1.as_str());
        idx_add_x(&mut out, key, line);
        proof {
            let sub1 = em@.subrange(0, i as int + 1);
            assert(sub1.drop_last() =~= em@.subrange(0, i as int));
            assert(sub1.last() == em@[i as int]);
            assert(em@[i as int] == (entries@[i as int].0, entries@[i as int].1@));
        }
        i = i + 1;
    }
    proof {
        assert(em@.subrange(0, em@.len() as int) =~= em@);
    }
    out
}

/// Files one line under its key in a key-sorted bucket list.
#[verifier::loop_isolation(false)]
fn idx_add_x(out: &mut Vec<IndexBucket>, key: BucketKey, line: String)
    ensures
        buckets_model(final(out)@) == idx_add(buckets_model(old(out)@), key, line@),
{
    let ghost bm = buckets_model(old(out)@);
    let n = out.len();
    let mut i: usize = 0;
    while i < n
        invariant
            0 <= i <= n,
            n == out@.len(),
            out@ == old(out)@,
            forall|j: int| 0 <= j < i ==> key_lt((#[trigger] out@[j]).key, key),
        decreases n - i,
    {
        let k = out[i].key;
        let eq = k.year == key.year && k.month == key.month;
        if eq {
            let mut b = out.remove(i);
            b.lines.push(line);
            out.insert(i, b);
            proof {
                lemma_idx_add_at(bm, key, line@, i as int);
                assert(bm[i as int].0 == key);
                assert(buckets_model(out@) =~= bm.subrange(0, i as int) + idx_add(
                    bm.subrange(i as int, bm.len() as int),
                    key,
                    line@,
                )) by {
                    let lhs = buckets_model(out@);
                    let tail = idx_add(bm.subrange(i as int, bm.len() as int), key, line@);
                    assert(bm.subrange(i as int, bm.len() as int)[0] == bm[i as int]);
                    assert(tail == seq![
                        (bm[i as int].0, bm[i as int].1.push(line@)),
                    ] + bm.subrange(i as int, bm.len() as int).drop_first());
                    assert(bm.subrange(i as int, bm.len() as int).drop_first() =~= bm.subrange(
                        i as int + 1,
                        bm.len() as int,
                    ));
                    assert(lhs.len() == bm.len());
                    assert forall|j: int| 0 <= j < lhs.len() implies lhs[j] == (bm.subrange(
                        0,
                        i as int,
                    ) + tail)[j] by {
                        if j < i {
                        } else if j == i {
                            assert(lhs[j] == (bm[i as int].0, bm[i as int].1.push(line@)));
                        } else {
                        }
                    }
                }
                assert(buckets_model(out@) =~= idx_add(bm, key, line@));
            }
            return ;
        }
        let lt = k.year < key.year || (k.year == key.year && k.month < key.month);
        if !lt {
            let b = IndexBucket { key, lines: crate::utils::vec_from_string(line) };
            out.insert(i, b);
            proof {
                lemma_idx_add_at(bm, key, line@, i as int);
                assert(key_lt(key, bm[i as int].0));
                let tail = idx_add(bm.subrange(i as int, bm.len() as int), key, line@);
                assert(bm.subrange(i as int, bm.len() as int)[0] == bm[i as int]);
                assert(tail == seq![(key, seq![line@])] + bm.subrange(
                    i as int,
                    bm.len() as int,
                ));
                assert(buckets_model(out@) =~= bm.subrange(0, i as int) + tail) by {
                    let lhs = buckets_model(out@);
                    assert(lhs.len() == bm.len() + 1);
                    assert forall|j: int| 0 <= j < lhs.len() implies lhs[j] == (bm.subrange(
                        0,
                        i as int,
                    ) + tail)[j] by {
                        if j < i {
                        } else if j == i {
                            assert(lhs[j] == (key, seq![line@]));
                            assert(out@[j].lines@.map_values(|l: String| l@) =~= seq![line@]);
                        } else {
                        }
                    }
                }
                assert(buckets_model(out@) =~= idx_add(bm, key, line@));
            }
            return ;
        }
        i = i + 1;
    }
    let b = IndexBucket { key, lines: crate::utils::vec_from_string(line) };
    out.push(b);
    proof {
        lemma_idx_add_at(bm, key, line@, n as int);
        let tail = idx_add(bm.subrange(n as int, bm.len() as int), key, line@);
        assert(bm.subrange(n as int, bm.len() as int) =~= Seq::<
            (BucketKey, Seq<Seq<char>>),
        >::empty());
        assert(tail == seq![(key, seq![line@])]);
        assert(buckets_model(out@) =~= bm.subrange(0, n as int) + tail) by {
            let lhs = buckets_model(out@);
            assert(lhs.len() == bm.len() + 1);
            assert forall|j: int| 0 <= j < lhs.len() implies lhs[j] == (bm.subrange(0, n as int)
                + tail)[j] by {
                if j < n {
                } else {
                    assert(lhs[j] == (key, seq![line@]));
                    assert(out@[j].lines@.map_values(|l: String| l@) =~= seq![line@]);
                }
            }
        }
        assert(buckets_model(out@) =~= idx_add(bm, key, line@));
    }
}

/// Skipping a key-smaller prefix commutes with filing a line.
proof fn lemma_idx_add_at(
    bs: Seq<(BucketKey, Seq<Seq<char>>)>,
    key: BucketKey,
    line: Seq<char>,
    i: int,
)
    requires
        0 <= i <= bs.len(),
        forall|j: int| 0 <= j < i ==> key_lt((#[trigger] bs[j]).0, key),
    ensures
        idx_add(bs, key, line) == bs.subrange(0, i) + idx_add(
            bs.subrange(i, bs.len() as int),
            key,
            line,
        ),
    decreases i,
{
    if i == 0 {
        assert(bs.subrange(0, bs.len() as int) =~= bs);
        assert(bs.subrange(0, 0) + idx_add(bs.subrange(0, bs.len() as int), key, line)
            =~= idx_add(bs, key, line));
    } else {
        assert(key_lt(bs[0].0, key));
        assert(bs[0].0 != key);
        assert(!key_lt(key, bs[0].0));
        assert(idx_add(bs, key, line) == seq![bs[0]] + idx_add(bs.drop_first(), key, line));
        assert(forall|j: int|
            0 <= j < i - 1 ==> key_lt((#[trigger] bs.drop_first()[j]).0, key));
        lemma_idx_add_at(bs.drop_first(), key, line, i - 1);
        assert(bs.drop_first().subrange(0, i - 1) =~= bs.subrange(1, i));
        assert(bs.drop_first().subrange(i - 1, bs.drop_first().len() as int) =~= bs.subrange(
            i,
            bs.len() as int,
        ));
        assert(seq![bs[0]] + (bs.subrange(1, i) + idx_add(
            bs.subrange(i, bs.len() as int),
            key,
            line,
        )) =~= bs.subrange(0, i) + idx_add(bs.subrange(i, bs.len() as int), key, line));
    }
}

/// Ties the abstract bucket of a timestamp to the computed month.
pub proof fn lemma_spec_bucket_key(k: BucketKey, ts: int)
    requires
        key_matches(k, ts),
    ensures
        spec_bucket_key(ts) == k,
{
    lemma_spec_bucket_key_matches(ts);
    lemma_key_matches_unique(spec_bucket_key(ts), k, ts);
}

/// The abstract bucket of a modelled timestamp names its month.
pub proof fn lemma_spec_bucket_key_matches(ts: int)
    requires
        exists|k: BucketKey| key_matches(k, ts),
    ensures
        key_matches(spec_bucket_key(ts), ts),
{
}

/// The lines of the buckets whose key lies in the closed range, in
/// bucket order.
pub open spec fn scan_spec(
    bs: Seq<(BucketKey, Seq<Seq<char>>)>,
    lo: BucketKey,
    hi: BucketKey,
) -> Seq<Seq<char>>
    decreases bs.len(),
{
    if bs.len() == 0 {
        Seq::empty()
    } else {
        let prev = scan_spec(bs.drop_last(), lo, hi);
        if key_le(lo, bs.last().0) && key_le(bs.last().0, hi) {
            prev + bs.last().1
        } else {
            prev
        }
    }
}

/// Streams the lines of every bucket whose key falls in the closed
/// range, in bucket order.
#[verifier::loop_isolation(false)]
pub fn scan_index(buckets: &Vec<IndexBucket>, lo: &BucketKey, hi: &BucketKey) -> (r: Vec<String>)
    ensures
        r@.map_values(|l: String| l@) == scan_spec(buckets_model(buckets@), *lo, *hi),
{
    let mut out: Vec<String> = Vec::new();
    let mut i: usize = 0;
    let ghost bm = buckets_model(buckets@);
    proof {
        assert(out@.map_values(|l: String| l@) =~= scan_spec(bm.subrange(0, 0), *lo, *hi));
    }
    while i < buckets.len()
        invariant
            0 <= i <= buckets@.len(),
            bm == buckets_model(buckets@),
            out@.map_values(|l: String| l@) == scan_spec(bm.subrange(0, i as int), *lo, *hi),
        decreases buckets@.len() - i,
    {
        let ghost before = out@.map_values(|l: String| l@);
        let b = &buckets[i];
        if bucket_key_le(lo, &b.key) && bucket_key_le(&b.key, hi) {
            let mut j: usize = 0;
            while j < b.lines.len()
                invariant
                    0 <= j <= b.lines@.len(),
                    b == &buckets[i as int],
                    out@.map_values(|l: String| l@) == before + b.lines@.map_values(
                        |l: String| l@,
                    ).subrange(0, j as int),
                decreases b.lines@.len() - j,
            {
                let lcl = b.lines[j].clone();
                out.push(lcl);
                proof {
                    let lm = b.lines@.map_values(|l: String| l@);
                    assert(lm[j as int] == b.lines@[j as int]@);
                    assert(out@.map_values(|l: String| l@) =~= (before + lm.subrange(
                        0,
                        j as int,
                    )).push(lm[j as int]));
                    assert(lm.subrange(0, j as int + 1) =~= lm.subrange(0, j as int).push(
                        lm[j as int],
                    ));
                    assert(out@.map_values(|l: String| l@) =~= before + lm.subrange(
                        0,
                        j as int + 1,
                    ));
                }
                j = j + 1;
            }
            proof {
                let sub1 = bm.subrange(0, i as int + 1);
                assert(sub1.drop_last() =~= bm.subrange(0, i as int));
                assert(sub1.last() == bm[i as int]);
                assert(b.lines@.map_values(|l: String| l@).subrange(
                    0,
                    b.lines@.len() as int,
                ) =~= b.lines@.map_values(|l: String| l@));
                assert(out@.map_values(|l: String| l@) =~= scan_spec(sub1, *lo, *hi));
            }
        } else {
            proof {
                let sub1 = bm.subrange(0, i as int + 1);
                assert(sub1.drop_last() =~= bm.subrange(0, i as int));
                assert(sub1.last() == bm[i as int]);
                assert(out@.map_values(|l: String| l@) =~= scan_spec(sub1, *lo, *hi));
            }
        }
        i = i + 1;
    }
    proof {
        assert(bm.subrange(0, bm.len() as int) =~= bm);
    }
    out
}

/// Whether a line stands under a key somewhere in a bucket list.
pub open spec fn mem_idx(bs: Seq<(BucketKey, Seq<Seq<char>>)>, k2: BucketKey, l2: Seq<char>) -> bool {
    exists|b: int, j: int|
        0 <= b < bs.len() && 0 <= j < bs[b].1.len() && bs[b].0 == k2 && (#[trigger] bs[b].1[j])
            == l2
}

/// Filing a line keeps every line already filed, and files the new one
/// under its key.
pub proof fn lemma_idx_add_membership(
    bs: Seq<(BucketKey, Seq<Seq<char>>)>,
    key: BucketKey,
    line: Seq<char>,
    k2: BucketKey,
    l2: Seq<char>,
)
    ensures
        mem_idx(idx_add(bs, key, line), k2, l2) <==> ((k2 == key && l2 == line) || mem_idx(
            bs,
            k2,
            l2,
        )),
    decreases bs.len(),
{
    let post = idx_add(bs, key, line);
    if bs.len() == 0 {
        assert(post == seq![(key, seq![line])]);
        if k2 == key && l2 == line {
            assert(post[0].0 == k2 && post[0].1[0] == l2);
        }
        if mem_idx(post, k2, l2) {
            let (b, j) = choose|b: int, j: int|
                0 <= b < post.len() && 0 <= j < post[b].1.len() && post[b].0 == k2 && (
                #[trigger] post[b].1[j]) == l2;
            assert(b == 0 && j == 0);
        }
        if mem_idx(bs, k2, l2) {
            let (b, j) = choose|b: int, j: int|
                0 <= b < bs.len() && 0 <= j < bs[b].1.len() && bs[b].0 == k2 && (
                #[trigger] bs[b].1[j]) == l2;
        }
    } else if bs[0].0 == key {
        assert(post == seq![(bs[0].0, bs[0].1.push(line))] + bs.drop_first());
        if mem_idx(post, k2, l2) {
            let (b, j) = choose|b: int, j: int|
                0 <= b < post.len() && 0 <= j < post[b].1.len() && post[b].0 == k2 && (
                #[trigger] post[b].1[j]) == l2;
            if b == 0 {
                if j < bs[0].1.len() {
                    assert(bs[0].1[j] == l2);
                    assert(mem_idx(bs, k2, l2));
                } else {
                    assert(l2 == line && k2 == key);
                }
            } else {
                assert(post[b] == bs.drop_first()[b - 1]);
                assert(bs[b].1[j] == l2);
                assert(mem_idx(bs, k2, l2));
            }
        }
        if k2 == key && l2 == line {
            assert(post[0].0 == k2);
            assert(post[0].1[bs[0].1.len() as int] == l2);
            assert(mem_idx(post, k2, l2));
        }
        if mem_idx(bs, k2, l2) {
            let (b, j) = choose|b: int, j: int|
                0 <= b < bs.len() && 0 <= j < bs[b].1.len() && bs[b].0 == k2 && (
                #[trigger] bs[b].1[j]) == l2;
            if b == 0 {
                assert(post[0].0 == k2 && post[0].1[j] == l2);
            } else {
                assert(post[b] == bs[b]);
                assert(post[b].1[j] == l2);
            }
            assert(mem_idx(post, k2, l2));
        }
    } else if key_lt(key, bs[0].0) {
        assert(post == seq![(key, seq![line])] + bs);
        if mem_idx(post, k2, l2) {
            let (b, j) = choose|b: int, j: int|
                0 <= b < post.len() && 0 <= j < post[b].1.len() && post[b].0 == k2 && (
                #[trigger] post[b].1[j]) == l2;
            if b == 0 {
                assert(k2 == key && l2 == line);
            } else {
                assert(post[b] == bs[b - 1]);
                assert(bs[b - 1].1[j] == l2);
                assert(mem_idx(bs, k2, l2));
            }
        }
        if k2 == key && l2 == line {
            assert(post[0].0 == k2 && post[0].1[0] == l2);
            assert(mem_idx(post, k2, l2));
        }
        if mem_idx(bs, k2, l2) {
            let (b, j) = choose|b: int, j: int|
                0 <= b < bs.len() && 0 <= j < bs[b].1.len() && bs[b].0 == k2 && (
                #[trigger] bs[b].1[j]) == l2;
            assert(post[b + 1] == bs[b]);
            assert(post[b + 1].1[j] == l2);
            assert(mem_idx(post, k2, l2));
        }
    } else {
        let sub = idx_add(bs.drop_first(), key, line);
        assert(post == seq![bs[0]] + sub);
        lemma_idx_add_membership(bs.drop_first(), key, line, k2, l2);
        if mem_idx(post, k2, l2) {
            let (b, j) = choose|b: int, j: int|
                0 <= b < post.len() && 0 <= j < post[b].1.len() && post[b].0 == k2 && (
                #[trigger] post[b].1[j]) == l2;
            if b == 0 {
                assert(bs[0].1[j] == l2);
                assert(mem_idx(bs, k2, l2));
            } else {
                assert(post[b] == sub[b - 1]);
                assert(sub[b - 1].1[j] == l2);
                assert(mem_idx(sub, k2, l2));
                if mem_idx(bs.drop_first(), k2, l2) {
                    let t = bs.drop_first();
                    let (b2, j2) = choose|b2: int, j2: int|
                        0 <= b2 < t.len() && 0 <= j2 < t[b2].1.len() && t[b2].0 == k2 && (
                        #[trigger] t[b2].1[j2]) == l2;
                    assert(bs[b2 + 1].1[j2] == l2);
                    assert(mem_idx(bs, k2, l2));
                }
            }
        }
        if (k2 == key && l2 == line) || mem_idx(bs, k2, l2) {
            if k2 == key && l2 == line {
                assert(mem_idx(sub, k2, l2));
                let (b, j) = choose|b: int, j: int|
                    0 <= b < sub.len() && 0 <= j < sub[b].1.len() && sub[b].0 == k2 && (
                    #[trigger] sub[b].1[j]) == l2;
                assert(post[b + 1].1[j] == l2);
                assert(mem_idx(post, k2, l2));
            } else {
                let (b, j) = choose|b: int, j: int|
                    0 <= b < bs.len() && 0 <= j < bs[b].1.len() && bs[b].0 == k2 && (
                    #[trigger] bs[b].1[j]) == l2;
                if b == 0 {
                    assert(post[0].1[j] == l2);
                    assert(mem_idx(post, k2, l2));
                } else {
                    assert(bs.drop_first()[b - 1].1[j] == l2);
                    assert(mem_idx(bs.drop_first(), k2, l2));
                    assert(mem_idx(sub, k2, l2));
                    let (b2, j2) = choose|b2: int, j2: int|
                        0 <= b2 < sub.len() && 0 <= j2 < sub[b2].1.len() && sub[b2].0 == k2 && (
                        #[trigger] sub[b2].1[j2]) == l2;
                    assert(post[b2 + 1].1[j2] == l2);
                    assert(mem_idx(post, k2, l2));
                }
            }
        }
    }
}

/// Every indexed entry's line stands in the bucket of its start:
/// the index invariant, and the completeness half of the range scan.
pub proof fn lemma_index_complete(entries: Seq<(u64, Seq<char>)>, e: int)
    requires
        0 <= e < entries.len(),
    ensures
        mem_idx(
            idx_of(entries),
            spec_bucket_key(entries[e].0 as int),
            crate::utils::khaleesi_line_spec(entries[e].0, entries[e].1),
        ),
    decreases entries.len(),
{
    let key = spec_bucket_key(entries[e].0 as int);
    let line = crate::utils::khaleesi_line_spec(entries[e].0, entries[e].1);
    lemma_idx_add_membership(
        idx_of(entries.drop_last()),
        spec_bucket_key(entries.last().0 as int),
        crate::utils::khaleesi_line_spec(entries.last().0, entries.last().1),
        key,
        line,
    );
    if e == entries.len() - 1 {
        assert(entries.last() == entries[e]);
    } else {
        assert(entries.drop_last()[e] == entries[e]);
        lemma_index_complete(entries.drop_last(), e);
    }
}

/// A line standing in a scanned bucket stands in the scan's result:
/// with the completeness of the index and the monotone key, a pruned
/// scan over the key range of a timestamp range misses no true match.
pub proof fn lemma_scan_membership(
    bs: Seq<(BucketKey, Seq<Seq<char>>)>,
    lo: BucketKey,
    hi: BucketKey,
    b: int,
    j: int,
)
    requires
        0 <= b < bs.len(),
        0 <= j < bs[b].1.len(),
        key_le(lo, bs[b].0),
        key_le(bs[b].0, hi),
    ensures
        scan_spec(bs, lo, hi).contains(bs[b].1[j]),
    decreases bs.len(),
{
    if b == bs.len() - 1 {
        assert(bs.last() == bs[b]);
        let prev = scan_spec(bs.drop_last(), lo, hi);
        assert(scan_spec(bs, lo, hi)[prev.len() + j] == bs[b].1[j]);
    } else {
        assert(bs.drop_last()[b] == bs[b]);
        lemma_scan_membership(bs.drop_last(), lo, hi, b, j);
        let prev = scan_spec(bs.drop_last(), lo, hi);
        let i = choose|i: int| 0 <= i < prev.len() && prev[i] == bs[b].1[j];
        if key_le(lo, bs.last().0) && key_le(bs.last().0, hi) {
            assert(scan_spec(bs, lo, hi)[i] == bs[b].1[j]);
        } else {
            assert(scan_spec(bs, lo, hi)[i] == bs[b].1[j]);
        }
    }
}

/// The pruned range scan returns a superset of the true matches: any
/// indexed entry whose start lies within a closed timestamp range has
/// its line in the scan over that range's bucket keys. The exact
/// per-event predicates then only remove false positives.
pub proof fn lemma_index_scan_superset(
    entries: Seq<(u64, Seq<char>)>,
    e: int,
    lo_key: BucketKey,
    hi_key: BucketKey,
    lo_ts: int,
    hi_ts: int,
)
    requires
        0 <= e < entries.len(),
        exists|k: BucketKey| key_matches(k, entries[e].0 as int),
        key_matches(lo_key, lo_ts),
        key_matches(hi_key, hi_ts),
        lo_ts <= entries[e].0 <= hi_ts,
    ensures
        scan_spec(idx_of(entries), lo_key, hi_key).contains(
            crate::utils::khaleesi_line_spec(entries[e].0, entries[e].1),
        ),
{
    let ts = entries[e].0 as int;
    let line = crate::utils::khaleesi_line_spec(entries[e].0, entries[e].1);
    lemma_spec_bucket_key_matches(ts);
    let key = spec_bucket_key(ts);
    lemma_scan_covers(lo_key, hi_key, key, lo_ts, hi_ts, ts);
    lemma_index_complete(entries, e);
    let idx = idx_of(entries);
    let (b, j) = choose|b: int, j: int|
        0 <= b < idx.len() && 0 <= j < idx[b].1.len() && idx[b].0 == key
            && (#[trigger] idx[b].1[j]) == line;
    lemma_scan_membership(idx, lo_key, hi_key, b, j);
}

} // verus!
