use vstd::prelude::*;

verus! {

// Decimal digit strings: the mathematical representation, executable
// formatting and parsing, and the lemmas tying the two together.

/// The numeric value of a decimal digit character.
pub open spec fn digit_val(c: char) -> int {
    c as int - 48
}

/// Whether a character is a decimal digit.
pub open spec fn is_digit(c: char) -> bool {
    48 <= c as int && c as int <= 57
}

/// The character for one decimal digit value.
pub open spec fn digit_char(d: int) -> char {
    if d == 0 {
        '0'
    } else if d == 1 {
        '1'
    } else if d == 2 {
        '2'
    } else if d == 3 {
        '3'
    } else if d == 4 {
        '4'
    } else if d == 5 {
        '5'
    } else if d == 6 {
        '6'
    } else if d == 7 {
        '7'
    } else if d == 8 {
        '8'
    } else {
        '9'
    }
}

/// The decimal representation of a number, most significant digit first,
/// without leading zeros (a single zero for 0).
pub open spec fn dec_rep(n: nat) -> Seq<char>
    decreases n,
{
    if n < 10 {
        seq![digit_char(n as int)]
    } else {
        dec_rep(n / 10).push(digit_char((n % 10) as int))
    }
}

/// A run of zero characters.
pub open spec fn zero_chars(k: nat) -> Seq<char> {
    Seq::new(k, |i: int| '0')
}

/// The decimal representation padded with leading zeros to a minimum width.
pub open spec fn dec_padded(n: nat, w: nat) -> Seq<char> {
    if dec_rep(n).len() >= w {
        dec_rep(n)
    } else {
        zero_chars((w - dec_rep(n).len()) as nat) + dec_rep(n)
    }
}

/// Whether every character of a sequence is a decimal digit.
pub open spec fn all_digits(s: Seq<char>) -> bool {
    forall|i: int| 0 <= i < s.len() ==> is_digit(s[i])
}

/// The numeric value of a digit string, read most significant digit first.
pub open spec fn dec_val(s: Seq<char>) -> int
    decreases s.len(),
{
    if s.len() == 0 {
        0
    } else {
        dec_val(s.drop_last()) * 10 + digit_val(s.last())
    }
}

/// Powers of ten.
pub open spec fn pow10(k: nat) -> int
    decreases k,
{
    if k == 0 {
        1
    } else {
        10 * pow10((k - 1) as nat)
    }
}

pub proof fn lemma_digit_char_val(d: int)
    requires
        0 <= d <= 9,
    ensures
        is_digit(digit_char(d)),
        digit_val(digit_char(d)) == d,
{
}

/// The decimal representation consists of digits and carries the value
/// it was built from.
pub proof fn lemma_dec_rep_value(n: nat)
    ensures
        all_digits(dec_rep(n)),
        dec_rep(n).len() >= 1,
        dec_val(dec_rep(n)) == n,
    decreases n,
{
    if n < 10 {
        lemma_digit_char_val(n as int);
        assert(dec_rep(n) =~= seq![digit_char(n as int)]);
        assert(dec_rep(n).last() == digit_char(n as int));
        assert(dec_rep(n).drop_last() =~= Seq::<char>::empty());
        assert(dec_val(Seq::<char>::empty()) == 0);
        assert(dec_val(dec_rep(n)) == dec_val(dec_rep(n).drop_last()) * 10 + digit_val(
            dec_rep(n).last(),
        ));
    } else {
        lemma_dec_rep_value(n / 10);
        lemma_digit_char_val((n % 10) as int);
        assert(dec_rep(n).last() == digit_char((n % 10) as int));
        assert(dec_rep(n).drop_last() =~= dec_rep(n / 10));
        assert(dec_val(dec_rep(n)) == (n / 10) * 10 + (n % 10));
    }
}

/// Leading zeros do not change the value of a digit string.
pub proof fn lemma_dec_val_leading_zeros(k: nat, t: Seq<char>)
    ensures
        dec_val(zero_chars(k) + t) == dec_val(t),
    decreases t.len(), k,
{
    if t.len() == 0 {
        if k == 0 {
            assert(zero_chars(0) + t =~= t);
        } else {
            let s = zero_chars(k) + t;
            assert(s.last() == '0');
            assert(s.drop_last() =~= zero_chars((k - 1) as nat) + t);
            lemma_dec_val_leading_zeros((k - 1) as nat, t);
        }
    } else {
        let s = zero_chars(k) + t;
        assert(s.drop_last() =~= zero_chars(k) + t.drop_last());
        lemma_dec_val_leading_zeros(k, t.drop_last());
    }
}

/// The padded representation is all digits and keeps the value.
pub proof fn lemma_dec_padded_value(n: nat, w: nat)
    ensures
        all_digits(dec_padded(n, w)),
        dec_padded(n, w).len() >= w,
        dec_val(dec_padded(n, w)) == n,
{
    lemma_dec_rep_value(n);
    if dec_rep(n).len() < w {
        lemma_dec_val_leading_zeros((w - dec_rep(n).len()) as nat, dec_rep(n));
    }
}

/// A number below `pow10(k)` is represented in at most `k` digits.
pub proof fn lemma_dec_rep_len(n: nat, k: nat)
    requires
        k >= 1,
        n < pow10(k),
    ensures
        dec_rep(n).len() <= k,
    decreases n,
{
    if n >= 10 {
        assert(pow10(k) == 10 * pow10((k - 1) as nat));
        lemma_dec_rep_len(n / 10, (k - 1) as nat);
    }
}

/// Below `pow10(w)` the padded representation has width exactly `w`.
pub proof fn lemma_dec_padded_len(n: nat, w: nat)
    requires
        w >= 1,
        n < pow10(w),
    ensures
        dec_padded(n, w).len() == w,
{
    lemma_dec_rep_len(n, w);
    lemma_dec_rep_value(n);
}

/// A digit string of `k` characters has a value below `pow10(k)`.
pub proof fn lemma_dec_val_upper(s: Seq<char>)
    requires
        all_digits(s),
    ensures
        dec_val(s) < pow10(s.len()),
    decreases s.len(),
{
    if s.len() == 0 {
    } else {
        assert(all_digits(s.drop_last()));
        lemma_dec_val_upper(s.drop_last());
        assert(is_digit(s.last()));
        assert(pow10(s.len()) == 10 * pow10((s.len() - 1) as nat));
    }
}

/// Powers of ten are positive.
pub proof fn lemma_pow10_pos(k: nat)
    ensures
        pow10(k) >= 1,
    decreases k,
{
    if k > 0 {
        lemma_pow10_pos((k - 1) as nat);
    }
}

/// The value read from the left: the first digit weighs a power of
/// ten, the rest follow.
pub proof fn lemma_dec_val_left(s: Seq<char>)
    requires
        s.len() > 0,
    ensures
        dec_val(s) == digit_val(s[0]) * pow10((s.len() - 1) as nat) + dec_val(s.drop_first()),
    decreases s.len(),
{
    if s.len() == 1 {
        assert(s.drop_first() =~= Seq::<char>::empty());
        assert(s.drop_last() =~= Seq::<char>::empty());
        assert(dec_val(s) == dec_val(s.drop_last()) * 10 + digit_val(s.last()));
        assert(pow10(0) == 1);
    } else {
        let p = pow10((s.len() - 2) as nat);
        lemma_dec_val_left(s.drop_last());
        assert(s.drop_last()[0] == s[0]);
        assert(s.drop_last().drop_first() =~= s.drop_first().drop_last());
        assert(s.drop_first().last() == s.last());
        assert(dec_val(s.drop_first()) == dec_val(s.drop_first().drop_last()) * 10 + digit_val(
            s.last(),
        ));
        assert(dec_val(s) == dec_val(s.drop_last()) * 10 + digit_val(s.last()));
        assert(dec_val(s.drop_last()) == digit_val(s[0]) * p + dec_val(
            s.drop_first().drop_last(),
        ));
        assert((digit_val(s[0]) * p + dec_val(s.drop_first().drop_last())) * 10 == digit_val(
            s[0],
        ) * (p * 10) + dec_val(s.drop_first().drop_last()) * 10) by (nonlinear_arith);
        assert(pow10((s.len() - 1) as nat) == 10 * p);
        assert(digit_val(s[0]) * (p * 10) == digit_val(s[0]) * pow10((s.len() - 1) as nat))
            by (nonlinear_arith)
            requires p * 10 == 10 * p && pow10((s.len() - 1) as nat) == 10 * p;
    }
}

/// Extending a digit string on the right can only grow its value.
pub proof fn lemma_dec_val_extend(s: Seq<char>, t: Seq<char>)
    requires
        all_digits(t),
        s.len() <= t.len(),
        s =~= t.subrange(0, s.len() as int),
    ensures
        dec_val(t) >= dec_val(s),
        dec_val(s) >= 0,
    decreases t.len(),
{
    assert(all_digits(s));
    lemma_dec_val_nonneg(s);
    if t.len() > s.len() {
        let t0 = t.drop_last();
        assert(all_digits(t0));
        assert(s =~= t0.subrange(0, s.len() as int));
        lemma_dec_val_extend(s, t0);
        lemma_dec_val_nonneg(t0);
        assert(is_digit(t.last()));
    } else {
        assert(s =~= t);
    }
}

/// A digit string has a non-negative value.
pub proof fn lemma_dec_val_nonneg(s: Seq<char>)
    requires
        all_digits(s),
    ensures
        dec_val(s) >= 0,
    decreases s.len(),
{
    if s.len() > 0 {
        assert(all_digits(s.drop_last()));
        lemma_dec_val_nonneg(s.drop_last());
        assert(is_digit(s.last()));
    }
}

/// Writes one decimal digit onto the end of a string.
fn append_digit(s: &mut String, d: u64)
    requires
        d < 10,
    ensures
        final(s)@ == old(s)@ + seq![digit_char(d as int)],
{
    let lit = "0123456789";
    proof {
        reveal_strlit("0123456789");
    }
    let c = lit.substring_char(d as usize, d as usize + 1);
    proof {
        assert(c@ =~= seq![digit_char(d as int)]);
    }
    s.append(c);
}

/// Formats a number in decimal, most significant digit first.
pub fn u64_to_dec(n: u64) -> (s: String)
    ensures
        s@ == dec_rep(n as nat),
    decreases n,
{
    if n < 10 {
        let mut s = String::new();
        append_digit(&mut s, n);
        proof {
            assert(s@ =~= dec_rep(n as nat));
        }
        s
    } else {
        let mut s = u64_to_dec(n / 10);
        append_digit(&mut s, n % 10);
        proof {
            assert(s@ =~= dec_rep(n as nat));
        }
        s
    }
}

/// Formats a number in decimal, padded with leading zeros to `width`.
pub fn u64_to_dec_pad(n: u64, width: usize) -> (s: String)
    ensures
        s@ == dec_padded(n as nat, width as nat),
{
    let core = u64_to_dec(n);
    let core_len = core.as_str().unicode_len();
    if core_len >= width {
        return core;
    }
    let pad = width - core_len;
    let mut s = String::new();
    let mut i: usize = 0;
    while i < pad
        invariant
            i <= pad,
            s@ =~= zero_chars(i as nat),
        decreases pad - i,
    {
        proof {
            reveal_strlit("0");
        }
        s.append("0");
        proof {
            assert(s@ =~= zero_chars((i + 1) as nat));
        }
        i = i + 1;
    }
    s.append(core.as_str());
    proof {
        assert(s@ =~= dec_padded(n as nat, width as nat));
    }
    s
}

/// Reads the decimal value of `s[from..to]`. Returns the value exactly
/// when the range is non-empty, all digits, and the value fits in `u64`.
pub fn parse_dec_range(s: &str, from: usize, to: usize) -> (r: Option<u64>)
    requires
        from <= to <= s@.len(),
    ensures
        match r {
            Some(v) => {
                &&& all_digits(s@.subrange(from as int, to as int))
                &&& from < to
                &&& v == dec_val(s@.subrange(from as int, to as int))
            },
            None => {
                ||| from == to
                ||| !all_digits(s@.subrange(from as int, to as int))
                ||| dec_val(s@.subrange(from as int, to as int)) > u64::MAX
            },
        },
{
    if from == to {
        return None;
    }
    let mut acc: u64 = 0;
    let mut i: usize = from;
    while i < to
        invariant
            from <= i <= to <= s@.len(),
            all_digits(s@.subrange(from as int, i as int)),
            acc == dec_val(s@.subrange(from as int, i as int)),
        decreases to - i,
    {
        let c = s.get_char(i);
        let cv = c as u32;
        if cv < 48 || cv > 57 {
            proof {
                assert(s@.subrange(from as int, to as int)[i - from] == s@[i as int]);
            }
            return None;
        }
        let d = (cv - 48) as u64;
        if acc > (u64::MAX - d) / 10 {
            proof {
                let pre = s@.subrange(from as int, i as int + 1);
                assert(pre.drop_last() =~= s@.subrange(from as int, i as int));
                assert(dec_val(pre) == acc * 10 + d > u64::MAX);
                if all_digits(s@.subrange(from as int, to as int)) {
                    lemma_dec_val_extend(pre, s@.subrange(from as int, to as int));
                }
            }
            return None;
        }
        let next = acc * 10 + d;
        proof {
            let pre = s@.subrange(from as int, i as int + 1);
            assert(pre.drop_last() =~= s@.subrange(from as int, i as int));
            assert(pre.last() == s@[i as int]);
        }
        acc = next;
        i = i + 1;
    }
    proof {
        assert(s@.subrange(from as int, i as int) =~= s@.subrange(from as int, to as int));
    }
    Some(acc)
}

} // verus!
