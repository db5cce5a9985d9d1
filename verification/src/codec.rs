use vstd::prelude::*;

use crate::component::{is_name_char, params_ok, prop_model_wf, props_model, render_prop, value_ok, IcalProperty, PropModel};
use crate::strutil::{push_char, str_eq};

verus! {

// The wire form of a calendar document: escaping of property values,
// carriage-return stripping, line splitting and unfolding. Everything is
// specified over `Seq<char>`, and the executable functions are proved
// against those specifications.

/// The wire escape of one value character.
pub open spec fn esc_char(c: char) -> Seq<char> {
    if c == '\\' {
        seq!['\\', '\\']
    } else if c == '\n' {
        seq!['\\', 'n']
    } else {
        seq![c]
    }
}

/// The wire escape of a value.
pub open spec fn escape(s: Seq<char>) -> Seq<char>
    decreases s.len(),
{
    if s.len() == 0 {
        Seq::empty()
    } else {
        escape(s.drop_last()) + esc_char(s.last())
    }
}

/// The character an escape code stands for.
pub open spec fn unesc_code(c: char) -> char {
    if c == 'n' {
        '\n'
    } else {
        c
    }
}

/// The value a wire text stands for: backslash escapes are decoded, and
/// a trailing lone backslash is kept as it is.
pub open spec fn unescape(s: Seq<char>) -> Seq<char>
    decreases s.len(),
{
    if s.len() == 0 {
        Seq::empty()
    } else if s[0] == '\\' && s.len() >= 2 {
        seq![unesc_code(s[1])] + unescape(s.subrange(2, s.len() as int))
    } else {
        seq![s[0]] + unescape(s.subrange(1, s.len() as int))
    }
}

pub proof fn lemma_escape_concat(a: Seq<char>, b: Seq<char>)
    ensures
        escape(a + b) == escape(a) + escape(b),
    decreases b.len(),
{
    if b.len() == 0 {
        assert(a + b =~= a);
        assert(escape(a) + escape(b) =~= escape(a));
    } else {
        lemma_escape_concat(a, b.drop_last());
        assert((a + b).drop_last() =~= a + b.drop_last());
        assert((a + b).last() == b.last());
        assert(escape(a + b) =~= escape(a) + escape(b));
    }
}

/// Decoding inverts encoding.
pub proof fn lemma_unescape_escape(v: Seq<char>)
    ensures
        unescape(escape(v)) == v,
    decreases v.len(),
{
    if v.len() == 0 {
    } else {
        let c = v[0];
        let rest = v.subrange(1, v.len() as int);
        assert(v =~= seq![c] + rest);
        lemma_escape_concat(seq![c], rest);
        assert(escape(seq![c]) =~= esc_char(c)) by {
            assert(seq![c].drop_last() =~= Seq::<char>::empty());
            assert(seq![c].last() == c);
            assert(escape(Seq::<char>::empty()) =~= Seq::<char>::empty());
            assert(escape(seq![c]) == escape(seq![c].drop_last()) + esc_char(seq![c].last()));
        }
        let e = escape(v);
        assert(e =~= esc_char(c) + escape(rest));
        lemma_unescape_escape(rest);
        if c == '\\' || c == '\n' {
            assert(e[0] == '\\');
            assert(e.len() >= 2);
            assert(e.subrange(2, e.len() as int) =~= escape(rest));
            assert(unesc_code(e[1]) == c);
            assert(unescape(e) =~= seq![c] + unescape(escape(rest)));
            assert(unescape(e) =~= v);
        } else {
            assert(e[0] == c);
            if e.len() >= 2 && e[0] == '\\' {
                assert(false);
            }
            assert(e.subrange(1, e.len() as int) =~= escape(rest));
            assert(unescape(e) =~= seq![c] + unescape(escape(rest)));
            assert(unescape(e) =~= v);
        }
    }
}

/// Escaped text never contains a raw line break or carriage return.
pub proof fn lemma_escape_clean(v: Seq<char>)
    requires
        !v.contains('\r'),
    ensures
        !escape(v).contains('\n'),
        !escape(v).contains('\r'),
    decreases v.len(),
{
    if v.len() > 0 {
        assert(!v.drop_last().contains('\r')) by {
            assert(forall|i: int|
                0 <= i < v.len() - 1 ==> v.drop_last()[i] == v[i]);
        }
        lemma_escape_clean(v.drop_last());
        assert(v.contains(v.last())) by {
            assert(v[v.len() - 1] == v.last());
        }
        let e = escape(v);
        let tail = esc_char(v.last());
        assert(!tail.contains('\n') && !tail.contains('\r'));
        assert forall|i: int| 0 <= i < e.len() implies e[i] != '\n' && e[i] != '\r' by {
            if i < escape(v.drop_last()).len() {
                assert(e[i] == escape(v.drop_last())[i]);
                assert(!escape(v.drop_last()).contains('\n'));
                assert(!escape(v.drop_last()).contains('\r'));
            } else {
                assert(e[i] == tail[i - escape(v.drop_last()).len()]);
            }
        }
        if e.contains('\n') {
            let i = choose|i: int| 0 <= i < e.len() && e[i] == '\n';
            assert(false);
        }
        if e.contains('\r') {
            let i = choose|i: int| 0 <= i < e.len() && e[i] == '\r';
            assert(false);
        }
    }
}

/// The text with every carriage return removed.
pub open spec fn strip_cr(s: Seq<char>) -> Seq<char>
    decreases s.len(),
{
    if s.len() == 0 {
        Seq::empty()
    } else if s.last() == '\r' {
        strip_cr(s.drop_last())
    } else {
        strip_cr(s.drop_last()).push(s.last())
    }
}

pub proof fn lemma_strip_cr_concat(a: Seq<char>, b: Seq<char>)
    ensures
        strip_cr(a + b) == strip_cr(a) + strip_cr(b),
    decreases b.len(),
{
    if b.len() == 0 {
        assert(a + b =~= a);
        assert(strip_cr(a) + strip_cr(b) =~= strip_cr(a));
    } else {
        lemma_strip_cr_concat(a, b.drop_last());
        assert((a + b).drop_last() =~= a + b.drop_last());
        assert((a + b).last() == b.last());
        if b.last() == '\r' {
            assert(strip_cr(a + b) =~= strip_cr(a) + strip_cr(b));
        } else {
            assert(strip_cr(a + b) =~= strip_cr(a) + strip_cr(b));
        }
    }
}

/// Stripping leaves text without carriage returns unchanged.
pub proof fn lemma_strip_cr_clean(s: Seq<char>)
    requires
        !s.contains('\r'),
    ensures
        strip_cr(s) == s,
    decreases s.len(),
{
    if s.len() > 0 {
        assert(s[s.len() - 1] == s.last());
        assert(s.last() != '\r');
        assert(!s.drop_last().contains('\r')) by {
            assert(forall|i: int|
                0 <= i < s.len() - 1 ==> s.drop_last()[i] == s[i]);
        }
        lemma_strip_cr_clean(s.drop_last());
        assert(strip_cr(s) =~= s);
    }
}

/// The lines of a text: pieces between line-break characters. A text
/// always has one more line than it has line breaks; a trailing break
/// yields a final empty line.
pub open spec fn lines_of(s: Seq<char>) -> Seq<Seq<char>>
    decreases s.len(),
{
    if s.len() == 0 {
        seq![Seq::empty()]
    } else {
        let prev = lines_of(s.drop_last());
        if s.last() == '\n' {
            prev.push(Seq::empty())
        } else {
            prev.update(prev.len() - 1, prev.last().push(s.last()))
        }
    }
}

/// `lines_of` never yields an empty sequence of lines.
pub proof fn lemma_lines_of_nonempty(s: Seq<char>)
    ensures
        lines_of(s).len() >= 1,
    decreases s.len(),
{
    if s.len() > 0 {
        lemma_lines_of_nonempty(s.drop_last());
    }
}

/// Appending a break-free chunk extends the last line.
pub proof fn lemma_lines_of_append_clean(s: Seq<char>, l: Seq<char>)
    requires
        !l.contains('\n'),
    ensures
        lines_of(s + l).len() == lines_of(s).len(),
        lines_of(s + l) == lines_of(s).update(
            lines_of(s).len() - 1,
            lines_of(s).last() + l,
        ),
    decreases l.len(),
{
    lemma_lines_of_nonempty(s);
    if l.len() == 0 {
        assert(s + l =~= s);
        assert(lines_of(s).update(lines_of(s).len() - 1, lines_of(s).last() + l) =~= lines_of(s));
    } else {
        assert(!l.drop_last().contains('\n')) by {
            assert(forall|i: int|
                0 <= i < l.len() - 1 ==> l.drop_last()[i] == l[i]);
        }
        lemma_lines_of_append_clean(s, l.drop_last());
        assert(l[l.len() - 1] == l.last());
        assert(l.last() != '\n');
        assert((s + l).drop_last() =~= s + l.drop_last());
        assert((s + l).last() == l.last());
        let mid = lines_of(s + l.drop_last());
        assert(lines_of(s + l) =~= mid.update(mid.len() - 1, mid.last().push(l.last())));
        assert(mid.last() =~= lines_of(s).last() + l.drop_last());
        assert(mid.last().push(l.last()) =~= lines_of(s).last() + l);
        assert(lines_of(s + l) =~= lines_of(s).update(
            lines_of(s).len() - 1,
            lines_of(s).last() + l,
        ));
    }
}

/// A line break starts a new, empty line.
pub proof fn lemma_lines_of_newline(s: Seq<char>)
    ensures
        lines_of(s.push('\n')) == lines_of(s).push(Seq::empty()),
{
    assert(s.push('\n').drop_last() =~= s);
    assert(s.push('\n').last() == '\n');
}

/// Folded continuation lines are joined onto the line before them:
/// a line opening with a blank or tab continues the previous line,
/// its first character dropped.
pub open spec fn is_continuation(l: Seq<char>) -> bool {
    l.len() > 0 && (l[0] == ' ' || l[0] == '\t')
}

/// Unfolds a folded line sequence.
pub open spec fn unfold_lines(ls: Seq<Seq<char>>) -> Seq<Seq<char>>
    decreases ls.len(),
{
    if ls.len() == 0 {
        Seq::empty()
    } else {
        let prev = unfold_lines(ls.drop_last());
        let l = ls.last();
        if is_continuation(l) && prev.len() > 0 {
            prev.update(prev.len() - 1, prev.last() + l.subrange(1, l.len() as int))
        } else {
            prev.push(l)
        }
    }
}

/// Unfolding a text without continuation lines changes nothing.
pub proof fn lemma_unfold_lines_id(ls: Seq<Seq<char>>)
    requires
        forall|i: int| 0 <= i < ls.len() ==> !is_continuation(ls[i]),
    ensures
        unfold_lines(ls) == ls,
    decreases ls.len(),
{
    if ls.len() > 0 {
        assert(forall|i: int|
            0 <= i < ls.len() - 1 ==> ls.drop_last()[i] == ls[i]);
        lemma_unfold_lines_id(ls.drop_last());
        assert(ls[ls.len() - 1] == ls.last());
        assert(!is_continuation(ls.last()));
        assert(unfold_lines(ls) =~= ls);
    }
}

/// Splits a text at line breaks, dropping carriage returns; the piece
/// after the last break is dropped when empty, as a terminated text
/// leaves nothing there.
pub fn split_lines(s: &str) -> (r: Vec<String>)
    ensures
        ({
            let full = lines_of(strip_cr(s@));
            r@.map_values(|l: String| l@) == if full.last().len() == 0 {
                full.drop_last()
            } else {
                full
            }
        }),
{
    let n = s.unicode_len();
    let mut out: Vec<String> = Vec::new();
    let mut cur: String = String::new();
    let mut i: usize = 0;
    proof {
        assert(strip_cr(s@.subrange(0, 0)) =~= Seq::<char>::empty());
        assert(lines_of(strip_cr(s@.subrange(0, 0))) =~= seq![Seq::<char>::empty()]);
    }
    while i < n
        invariant
            0 <= i <= n,
            n == s@.len(),
            lines_of(strip_cr(s@.subrange(0, i as int))) == out@.map_values(|l: String| l@).push(
                cur@,
            ),
        decreases n - i,
    {
        let c = s.get_char(i);
        let ghost pre = s@.subrange(0, i as int);
        let ghost pre1 = s@.subrange(0, i as int + 1);
        let ghost outm = out@.map_values(|l: String| l@);
        let ghost cur0 = cur@;
        proof {
            assert(pre1.drop_last() =~= pre);
            assert(pre1.last() == s@[i as int]);
            lemma_lines_of_nonempty(strip_cr(pre));
        }
        if c == '\r' {
            proof {
                assert(strip_cr(pre1) == strip_cr(pre));
            }
        } else if c == '\n' {
            out.push(cur);
            cur = String::new();
            proof {
                assert(strip_cr(pre1) =~= strip_cr(pre).push('\n'));
                lemma_lines_of_newline(strip_cr(pre));
                assert(out@.map_values(|l: String| l@) =~= outm.push(cur0));
                assert(lines_of(strip_cr(pre1)) =~= out@.map_values(|l: String| l@).push(cur@));
            }
        } else {
            push_char(&mut cur, c);
            proof {
                assert(strip_cr(pre1) =~= strip_cr(pre).push(c));
                let y = strip_cr(pre);
                assert(y.push(c).drop_last() =~= y);
                assert(y.push(c).last() == c);
                let prev = lines_of(y);
                assert(prev == outm.push(cur0));
                assert(prev.last() == cur0);
                assert(lines_of(y.push(c)) == prev.update(prev.len() - 1, prev.last().push(c)));
                assert(out@.map_values(|l: String| l@) == outm);
                assert(lines_of(strip_cr(pre1)) =~= outm.push(cur@));
            }
        }
        i = i + 1;
    }
    proof {
        assert(s@.subrange(0, n as int) =~= s@);
    }
    if cur.as_str().unicode_len() > 0 {
        out.push(cur);
        proof {
            let full = lines_of(strip_cr(s@));
            assert(out@.map_values(|l: String| l@) =~= full);
        }
    } else {
        proof {
            let full = lines_of(strip_cr(s@));
            assert(out@.map_values(|l: String| l@) =~= full.drop_last());
        }
    }
    out
}

/// Joins lines back in folded order: each continuation line is appended,
/// first character dropped, to the line before it.
pub fn unfold_lines_x(ls: Vec<String>) -> (r: Vec<String>)
    ensures
        r@.map_values(|l: String| l@) == unfold_lines(ls@.map_values(|l: String| l@)),
{
    let n = ls.len();
    let mut out: Vec<String> = Vec::new();
    let mut i: usize = 0;
    proof {
        assert(unfold_lines(ls@.map_values(|l: String| l@).subrange(0, 0)) =~= Seq::<
            Seq<char>,
        >::empty());
        assert(out@.map_values(|l: String| l@) =~= Seq::<Seq<char>>::empty());
    }
    while i < n
        invariant
            0 <= i <= n,
            n == ls@.len(),
            out@.map_values(|l: String| l@) == unfold_lines(
                ls@.map_values(|l: String| l@).subrange(0, i as int),
            ),
        decreases n - i,
    {
        let l = &ls[i];
        let llen = l.as_str().unicode_len();
        let is_cont = llen > 0 && {
            let c0 = l.as_str().get_char(0);
            c0 == ' ' || c0 == '\t'
        };
        proof {
            let m = ls@.map_values(|l: String| l@);
            assert(m.subrange(0, i as int + 1).drop_last() =~= m.subrange(0, i as int));
            assert(m.subrange(0, i as int + 1).last() == m[i as int]);
            assert(m[i as int] == ls@[i as int]@);
        }
        if is_cont && out.len() > 0 {
            let rest = l.as_str().substring_char(1, llen);
            let last_i = out.len() - 1;
            let mut prev = out.remove(last_i);
            prev.append(rest);
            out.push(prev);
            proof {
                assert(ls@[i as int]@.subrange(1, ls@[i as int]@.len() as int) =~= rest@);
                assert(out@.map_values(|l: String| l@) =~= unfold_lines(
                    ls@.map_values(|l: String| l@).subrange(0, i as int + 1),
                ));
            }
        } else {
            out.push(l.clone());
            proof {
                assert(out@.map_values(|l: String| l@) =~= unfold_lines(
                    ls@.map_values(|l: String| l@).subrange(0, i as int + 1),
                ));
            }
        }
        i = i + 1;
    }
    proof {
        assert(ls@.map_values(|l: String| l@).subrange(0, n as int) =~= ls@.map_values(
            |l: String| l@,
        ));
    }
    out
}

/// Encodes a value for the wire.
pub fn escape_x(v: &str) -> (r: String)
    ensures
        r@ == escape(v@),
{
    let n = v.unicode_len();
    let mut out = String::new();
    let mut i: usize = 0;
    proof {
        assert(escape(v@.subrange(0, 0)) =~= Seq::<char>::empty());
    }
    while i < n
        invariant
            0 <= i <= n,
            n == v@.len(),
            out@ == escape(v@.subrange(0, i as int)),
        decreases n - i,
    {
        let c = v.get_char(i);
        proof {
            let pre = v@.subrange(0, i as int);
            let pre1 = v@.subrange(0, i as int + 1);
            assert(pre1.drop_last() =~= pre);
            assert(pre1.last() == v@[i as int]);
        }
        if c == '\\' {
            push_char(&mut out, '\\');
            push_char(&mut out, '\\');
        } else if c == '\n' {
            push_char(&mut out, '\\');
            push_char(&mut out, 'n');
        } else {
            push_char(&mut out, c);
        }
        proof {
            assert(out@ =~= escape(v@.subrange(0, i as int + 1)));
        }
        i = i + 1;
    }
    proof {
        assert(v@.subrange(0, n as int) =~= v@);
    }
    out
}

/// Decodes a wire value.
pub fn unescape_x(v: &str) -> (r: String)
    ensures
        r@ == unescape(v@),
{
    let n = v.unicode_len();
    let mut out = String::new();
    let mut i: usize = 0;
    proof {
        assert(v@.subrange(0, n as int) =~= v@);
        assert(out@ + unescape(v@) =~= unescape(v@));
    }
    while i < n
        invariant
            0 <= i <= n,
            n == v@.len(),
            out@ + unescape(v@.subrange(i as int, n as int)) == unescape(v@),
        decreases n - i,
    {
        let c = v.get_char(i);
        let ghost rest = v@.subrange(i as int, n as int);
        if c == '\\' && i + 1 < n {
            let c2 = v.get_char(i + 1);
            let dec = if c2 == 'n' {
                '\n'
            } else {
                c2
            };
            push_char(&mut out, dec);
            proof {
                assert(rest[0] == '\\');
                assert(rest.len() >= 2);
                assert(rest[1] == v@[i as int + 1]);
                assert(rest.subrange(2, rest.len() as int) =~= v@.subrange(
                    i as int + 2,
                    n as int,
                ));
                assert(unescape(rest) =~= seq![unesc_code(rest[1])] + unescape(
                    v@.subrange(i as int + 2, n as int),
                ));
                assert(out@ + unescape(v@.subrange(i as int + 2, n as int)) =~= unescape(v@));
            }
            i = i + 2;
        } else {
            push_char(&mut out, c);
            proof {
                assert(rest[0] == v@[i as int]);
                if rest[0] == '\\' && rest.len() >= 2 {
                    assert(false);
                }
                assert(rest.subrange(1, rest.len() as int) =~= v@.subrange(
                    i as int + 1,
                    n as int,
                ));
                assert(unescape(rest) =~= seq![rest[0]] + unescape(
                    v@.subrange(i as int + 1, n as int),
                ));
                assert(out@ + unescape(v@.subrange(i as int + 1, n as int)) =~= unescape(v@));
            }
            i = i + 1;
        }
    }
    proof {
        assert(unescape(v@.subrange(i as int, n as int)) =~= Seq::<char>::empty());
        assert(out@ =~= unescape(v@));
    }
    out
}

} // verus!

// --- content lines -----------------------------------------------------

verus! {

/// Splits a line at its first `:`, which is dropped.
pub open spec fn split_at_colon(s: Seq<char>) -> Option<(Seq<char>, Seq<char>)>
    decreases s.len(),
{
    if s.len() == 0 {
        None
    } else if s[0] == ':' {
        Some((Seq::empty(), s.drop_first()))
    } else {
        match split_at_colon(s.drop_first()) {
            None => None,
            Some((a, b)) => Some((seq![s[0]] + a, b)),
        }
    }
}

/// Splits a line head at its first `;`, which stays with the tail.
pub open spec fn split_at_semi(s: Seq<char>) -> (Seq<char>, Seq<char>)
    decreases s.len(),
{
    if s.len() == 0 {
        (Seq::empty(), Seq::empty())
    } else if s[0] == ';' {
        (Seq::empty(), s)
    } else {
        let (a, b) = split_at_semi(s.drop_first());
        (seq![s[0]] + a, b)
    }
}

/// What the colon split yields: the pieces around the first `:`.
pub proof fn lemma_split_colon_props(s: Seq<char>)
    ensures
        match split_at_colon(s) {
            Some((a, b)) => a + seq![':'] + b == s && !a.contains(':'),
            None => !s.contains(':'),
        },
    decreases s.len(),
{
    if s.len() == 0 {
        if s.contains(':') {
            let i = choose|i: int| 0 <= i < s.len() && s[i] == ':';
        }
    } else if s[0] == ':' {
        assert(Seq::<char>::empty() + seq![':'] + s.drop_first() =~= s);
        if Seq::<char>::empty().contains(':') {
            let i = choose|i: int| 0 <= i < 0 && Seq::<char>::empty()[i] == ':';
        }
    } else {
        lemma_split_colon_props(s.drop_first());
        match split_at_colon(s.drop_first()) {
            None => {
                if s.contains(':') {
                    let i = choose|i: int| 0 <= i < s.len() && s[i] == ':';
                    assert(s.drop_first()[i - 1] == ':');
                    assert(s.drop_first().contains(':'));
                }
            },
            Some((a, b)) => {
                assert((seq![s[0]] + a) + seq![':'] + b =~= s) by {
                    assert(a + seq![':'] + b == s.drop_first());
                    assert(((seq![s[0]] + a) + seq![':'] + b).len() == s.len());
                    assert forall|i: int|
                        0 <= i < s.len() implies ((seq![s[0]] + a) + seq![':'] + b)[i] == s[i] by {
                        if i == 0 {
                        } else {
                            assert((a + seq![':'] + b)[i - 1] == s.drop_first()[i - 1]);
                            assert(s.drop_first()[i - 1] == s[i]);
                        }
                    }
                }
                if (seq![s[0]] + a).contains(':') {
                    let i = choose|i: int|
                        0 <= i < (seq![s[0]] + a).len() && (seq![s[0]] + a)[i] == ':';
                    assert(i > 0);
                    assert(a[i - 1] == ':');
                    assert(a.contains(':'));
                }
            },
        }
    }
}

/// What the semicolon split yields: the pieces at the first `;`.
pub proof fn lemma_split_semi_props(s: Seq<char>)
    ensures
        split_at_semi(s).0 + split_at_semi(s).1 == s,
        !split_at_semi(s).0.contains(';'),
        split_at_semi(s).1.len() > 0 ==> split_at_semi(s).1[0] == ';',
    decreases s.len(),
{
    if s.len() == 0 {
        assert(split_at_semi(s).0 + split_at_semi(s).1 =~= s);
        if split_at_semi(s).0.contains(';') {
            let i = choose|i: int| 0 <= i < 0 && split_at_semi(s).0[i] == ';';
        }
    } else if s[0] == ';' {
        assert(split_at_semi(s).0 + split_at_semi(s).1 =~= s);
        if split_at_semi(s).0.contains(';') {
            let i = choose|i: int| 0 <= i < 0 && split_at_semi(s).0[i] == ';';
        }
    } else {
        lemma_split_semi_props(s.drop_first());
        let (a, b) = split_at_semi(s.drop_first());
        assert((seq![s[0]] + a) + b =~= s) by {
            assert(a + b == s.drop_first());
            assert(((seq![s[0]] + a) + b).len() == s.len());
            assert forall|i: int| 0 <= i < s.len() implies ((seq![s[0]] + a) + b)[i] == s[i] by {
                if i == 0 {
                } else {
                    assert((a + b)[i - 1] == s.drop_first()[i - 1]);
                    assert(s.drop_first()[i - 1] == s[i]);
                }
            }
        }
        if (seq![s[0]] + a).contains(';') {
            let i = choose|i: int|
                0 <= i < (seq![s[0]] + a).len() && (seq![s[0]] + a)[i] == ';';
            assert(i > 0);
            assert(a[i - 1] == ';');
            assert(a.contains(';'));
        }
    }
}

/// Splitting text whose head holds no `:` finds the written separator.
pub proof fn lemma_split_colon_of(a: Seq<char>, b: Seq<char>)
    requires
        !a.contains(':'),
    ensures
        split_at_colon(a + seq![':'] + b) == Some((a, b)),
    decreases a.len(),
{
    let s = a + seq![':'] + b;
    if a.len() == 0 {
        assert(s[0] == ':');
        assert(s.drop_first() =~= b);
        assert(Seq::<char>::empty() =~= a);
    } else {
        assert(a[0] == s[0]);
        assert(s[0] != ':') by {
            assert(a.contains(a[0]) == false ==> true);
            if s[0] == ':' {
                assert(a[0] == ':');
                assert(a.contains(':'));
            }
        }
        assert(!a.drop_first().contains(':')) by {
            if a.drop_first().contains(':') {
                let i = choose|i: int|
                    0 <= i < a.drop_first().len() && a.drop_first()[i] == ':';
                assert(a[i + 1] == ':');
                assert(a.contains(':'));
            }
        }
        lemma_split_colon_of(a.drop_first(), b);
        assert(s.drop_first() =~= a.drop_first() + seq![':'] + b);
        assert(seq![s[0]] + a.drop_first() =~= a);
    }
}

/// Splitting a head built from a `;`-free name and parameter text that
/// opens with `;` (or is empty) gives the pieces back.
pub proof fn lemma_split_semi_of(nm: Seq<char>, pr: Seq<char>)
    requires
        !nm.contains(';'),
        pr.len() == 0 || pr[0] == ';',
    ensures
        split_at_semi(nm + pr) == (nm, pr),
    decreases nm.len(),
{
    let s = nm + pr;
    if nm.len() == 0 {
        if pr.len() == 0 {
            assert(s.len() == 0);
            assert(split_at_semi(s).0 =~= nm);
            assert(split_at_semi(s).1 =~= pr);
        } else {
            assert(s =~= pr);
            assert(s[0] == ';');
            assert(split_at_semi(s).0 =~= nm);
            assert(split_at_semi(s).1 =~= pr);
        }
    } else {
        assert(nm[0] == s[0]);
        assert(s[0] != ';') by {
            if s[0] == ';' {
                assert(nm.contains(';'));
            }
        }
        assert(!nm.drop_first().contains(';')) by {
            if nm.drop_first().contains(';') {
                let i = choose|i: int|
                    0 <= i < nm.drop_first().len() && nm.drop_first()[i] == ';';
                assert(nm[i + 1] == ';');
                assert(nm.contains(';'));
            }
        }
        lemma_split_semi_of(nm.drop_first(), pr);
        assert(s.drop_first() =~= nm.drop_first() + pr);
        assert(seq![s[0]] + split_at_semi(s.drop_first()).0 =~= nm);
    }
}

/// The property a content line denotes, if any.
pub open spec fn spec_content(line: Seq<char>) -> Option<PropModel> {
    match split_at_colon(line) {
        None => None,
        Some((head, rest)) => {
            let (nm, pr) = split_at_semi(head);
            if nm.len() > 0 && (forall|i: int| 0 <= i < nm.len() ==> is_name_char(nm[i])) {
                Some(PropModel { name: nm, params: pr, value: unescape(rest) })
            } else {
                None
            }
        },
    }
}

/// Reads one content line.
#[verifier::loop_isolation(false)]
pub fn parse_content_line(line: &str) -> (r: Option<IcalProperty>)
    ensures
        match r {
            Some(p) => spec_content(line@) == Some(p.model()),
            None => spec_content(line@) is None,
        },
{
    proof {
        lemma_split_colon_props(line@);
    }
    let n = line.unicode_len();
    let mut ci: usize = 0;
    let mut found = false;
    while ci < n && !found
        invariant
            0 <= ci <= n,
            n == line@.len(),
            forall|j: int| 0 <= j < ci ==> line@[j] != ':',
            found ==> ci < n && line@[ci as int] == ':',
            !found ==> forall|j: int| 0 <= j <= ci && j < n ==> (j == ci || line@[j] != ':'),
        decreases n - ci + (if found { 0int } else { 1int }),
    {
        if line.get_char(ci) == ':' {
            found = true;
        } else {
            ci = ci + 1;
        }
    }
    if !found {
        proof {
            match split_at_colon(line@) {
                Some((a, b)) => {
                    assert(a + seq![':'] + b == line@);
                    assert(line@[a.len() as int] == ':');
                    assert(false);
                },
                None => {},
            }
        }
        return None;
    }
    let head = line.substring_char(0, ci);
    let rest = line.substring_char(ci + 1, n);
    proof {
        match split_at_colon(line@) {
            None => {
                assert(line@[ci as int] == ':');
                assert(line@.contains(':'));
                assert(false);
            },
            Some((a, b)) => {
                assert(a + seq![':'] + b == line@);
                if a.len() < ci {
                    assert(line@[a.len() as int] == ':');
                    assert(false);
                }
                if a.len() > ci {
                    assert(a[ci as int] == line@[ci as int]);
                    assert(a.contains(':'));
                    assert(false);
                }
                assert(a =~= head@);
                assert(b =~= rest@);
            },
        }
    }
    let hn = ci;
    let mut si: usize = 0;
    let mut sfound = false;
    while si < hn && !sfound
        invariant
            0 <= si <= hn,
            hn == head@.len(),
            forall|j: int| 0 <= j < si ==> head@[j] != ';',
            sfound ==> si < hn && head@[si as int] == ';',
        decreases hn - si + (if sfound { 0int } else { 1int }),
    {
        if head.get_char(si) == ';' {
            sfound = true;
        } else {
            si = si + 1;
        }
    }
    let name = head.substring_char(0, si);
    let params = head.substring_char(si, hn);
    proof {
        lemma_split_semi_of(name@, params@);
        assert(name@ + params@ =~= head@);
        assert(!name@.contains(';')) by {
            if name@.contains(';') {
                let i = choose|i: int| 0 <= i < name@.len() && name@[i] == ';';
                assert(head@[i] == ';');
                assert(false);
            }
        }
    }
    let nlen = si;
    if nlen == 0 {
        return None;
    }
    let mut k: usize = 0;
    while k < nlen
        invariant
            0 <= k <= nlen,
            nlen == name@.len(),
            forall|j: int| 0 <= j < k ==> is_name_char(name@[j]),
        decreases nlen - k,
    {
        let c = name.get_char(k) as u32;
        if !((65 <= c && c <= 90) || (48 <= c && c <= 57) || c == 45) {
            proof {
                assert(split_at_colon(line@) == Some((head@, rest@)));
                assert(split_at_semi(head@).0 == name@);
                assert(!is_name_char(name@[k as int]));
                assert(!(forall|i: int|
                    0 <= i < name@.len() ==> is_name_char(name@[i]))) by {
                    assert(0 <= k < name@.len() && !is_name_char(name@[k as int]));
                }
                assert(spec_content(line@) is None);
            }
            return None;
        }
        k = k + 1;
    }
    let value = unescape_x(rest);
    Some(
        IcalProperty {
            name: name.to_owned(),
            params: params.to_owned(),
            value,
        },
    )
}

} // verus!

// --- document structure ------------------------------------------------

verus! {

/// The parser state: which structural phase the walk is in, the first
/// structural fault seen, and what has been collected.
#[verifier::ext_equal]
pub ghost struct PState {
    /// 0 before the calendar, 1 inside it, 2 inside an event, 3 after it.
    pub phase: int,
    /// 0 none, 1 malformed text, 2 wrong root kind.
    pub err: int,
    /// The root kind seen, when `err` is 2.
    pub wrong: Seq<char>,
    /// Depth of components of foreign kinds being passed over.
    pub skip: int,
    pub cal_props: Seq<PropModel>,
    pub events: Seq<Seq<PropModel>>,
    pub cur: Seq<PropModel>,
}

pub open spec fn pinit() -> PState {
    PState {
        phase: 0,
        err: 0,
        wrong: Seq::empty(),
        skip: 0,
        cal_props: Seq::empty(),
        events: Seq::empty(),
        cur: Seq::empty(),
    }
}

/// One line of the structural walk.
pub open spec fn pstep(st: PState, line: Seq<char>) -> PState {
    if st.err != 0 {
        st
    } else if line.len() == 0 {
        st
    } else {
        match spec_content(line) {
            None => PState { err: 1, ..st },
            Some(p) => {
                if p.name == "BEGIN"@ {
                    if st.skip > 0 {
                        PState { skip: st.skip + 1, ..st }
                    } else if st.phase == 0 {
                        if p.value == "VCALENDAR"@ {
                            PState { phase: 1, ..st }
                        } else {
                            PState { err: 2, wrong: p.value, ..st }
                        }
                    } else if st.phase == 1 {
                        if p.value == "VEVENT"@ {
                            PState { phase: 2, cur: Seq::empty(), ..st }
                        } else {
                            PState { skip: 1, ..st }
                        }
                    } else if st.phase == 2 {
                        PState { skip: 1, ..st }
                    } else {
                        PState { err: 1, ..st }
                    }
                } else if p.name == "END"@ {
                    if st.skip > 0 {
                        PState { skip: st.skip - 1, ..st }
                    } else if st.phase == 2 && p.value == "VEVENT"@ {
                        PState { phase: 1, events: st.events.push(st.cur), cur: Seq::empty(), ..st }
                    } else if st.phase == 1 && p.value == "VCALENDAR"@ {
                        PState { phase: 3, ..st }
                    } else {
                        PState { err: 1, ..st }
                    }
                } else {
                    if st.skip > 0 {
                        st
                    } else if st.phase == 1 {
                        PState { cal_props: st.cal_props.push(p), ..st }
                    } else if st.phase == 2 {
                        PState { cur: st.cur.push(p), ..st }
                    } else {
                        PState { err: 1, ..st }
                    }
                }
            },
        }
    }
}

/// The structural walk over a line sequence.
pub open spec fn prun(lines: Seq<Seq<char>>, st: PState) -> PState
    decreases lines.len(),
{
    if lines.len() == 0 {
        st
    } else {
        prun(lines.drop_first(), pstep(st, lines[0]))
    }
}

/// The walk over joined line sequences runs them one after the other.
pub proof fn lemma_prun_concat(a: Seq<Seq<char>>, b: Seq<Seq<char>>, st: PState)
    ensures
        prun(a + b, st) == prun(b, prun(a, st)),
    decreases a.len(),
{
    if a.len() == 0 {
        assert(a + b =~= b);
    } else {
        assert((a + b)[0] == a[0]);
        assert((a + b).drop_first() =~= a.drop_first() + b);
        lemma_prun_concat(a.drop_first(), b, pstep(st, a[0]));
    }
}

/// The executable parser state.
pub struct MachState {
    pub phase: u8,
    pub err: u8,
    pub wrong: String,
    pub skip: usize,
    pub cal_props: Vec<IcalProperty>,
    pub events: Vec<Vec<IcalProperty>>,
    pub cur: Vec<IcalProperty>,
}

/// The models of a list of event property lists.
pub open spec fn events_model(es: Seq<Vec<IcalProperty>>) -> Seq<Seq<PropModel>> {
    es.map_values(|v: Vec<IcalProperty>| props_model(v@))
}

impl MachState {
    pub open spec fn model(self) -> PState {
        PState {
            phase: self.phase as int,
            err: self.err as int,
            wrong: self.wrong@,
            skip: self.skip as int,
            cal_props: props_model(self.cal_props@),
            events: events_model(self.events@),
            cur: props_model(self.cur@),
        }
    }
}

/// Runs the structural walk over the unfolded lines of a document.
#[verifier::loop_isolation(false)]
pub fn run_machine(lines: &Vec<String>) -> (r: MachState)
    ensures
        r.model() == prun(lines@.map_values(|l: String| l@), pinit()),
{
    let mut st = MachState {
        phase: 0,
        err: 0,
        wrong: String::new(),
        skip: 0,
        cal_props: Vec::new(),
        events: Vec::new(),
        cur: Vec::new(),
    };
    let ghost lm = lines@.map_values(|l: String| l@);
    proof {
        assert(props_model(st.cal_props@) =~= Seq::<PropModel>::empty());
        assert(events_model(st.events@) =~= Seq::<Seq<PropModel>>::empty());
        assert(props_model(st.cur@) =~= Seq::<PropModel>::empty());
        assert(st.model() =~= pinit());
        assert(lm.subrange(0, lm.len() as int) =~= lm);
    }
    let n = lines.len();
    let mut i: usize = 0;
    while i < n
        invariant
            0 <= i <= n,
            n == lines@.len(),
            st.skip <= i,
            prun(lm, pinit()) == prun(lm.subrange(i as int, lm.len() as int), st.model()),
        decreases n - i,
    {
        let ghost rest = lm.subrange(i as int, lm.len() as int);
        let ghost st0 = st.model();
        proof {
            assert(rest[0] == lm[i as int]);
            assert(rest.drop_first() =~= lm.subrange(i as int + 1, lm.len() as int));
            assert(prun(rest, st0) == prun(rest.drop_first(), pstep(st0, rest[0])));
        }
        let line = &lines[i];
        let llen = line.as_str().unicode_len();
        if st.err != 0 {
        } else if llen == 0 {
        } else {
            match parse_content_line(line.as_str()) {
                None => {
                    st.err = 1;
                },
                Some(p) => {
                    let is_begin = str_eq(p.name.as_str(), "BEGIN");
                    let is_end = str_eq(p.name.as_str(), "END");
                    if is_begin {
                        if st.skip > 0 {
                            st.skip = st.skip + 1;
                        } else if st.phase == 0 {
                            if str_eq(p.value.as_str(), "VCALENDAR") {
                                st.phase = 1;
                            } else {
                                st.err = 2;
                                st.wrong = p.value;
                            }
                        } else if st.phase == 1 {
                            if str_eq(p.value.as_str(), "VEVENT") {
                                st.phase = 2;
                                st.cur = Vec::new();
                            } else {
                                st.skip = 1;
                            }
                        } else if st.phase == 2 {
                            st.skip = 1;
                        } else {
                            st.err = 1;
                        }
                    } else if is_end {
                        if st.skip > 0 {
                            st.skip = st.skip - 1;
                        } else if st.phase == 2 && str_eq(p.value.as_str(), "VEVENT") {
                            let mut done: Vec<IcalProperty> = Vec::new();
                            core::mem::swap(&mut done, &mut st.cur);
                            st.events.push(done);
                            st.phase = 1;
                        } else if st.phase == 1 && str_eq(p.value.as_str(), "VCALENDAR") {
                            st.phase = 3;
                        } else {
                            st.err = 1;
                        }
                    } else {
                        if st.skip > 0 {
                        } else if st.phase == 1 {
                            st.cal_props.push(p);
                        } else if st.phase == 2 {
                            st.cur.push(p);
                        } else {
                            st.err = 1;
                        }
                    }
                },
            }
        }
        proof {
            assert(lm[i as int] == lines@[i as int]@);
            let sp = pstep(st0, lm[i as int]);
            assert(props_model(st.cal_props@) =~= sp.cal_props);
            assert(props_model(st.cur@) =~= sp.cur);
            assert(events_model(st.events@) =~= sp.events);
            assert(st.model() =~= sp);
        }
        i = i + 1;
    }
    proof {
        assert(lm.subrange(i as int, lm.len() as int) =~= Seq::<Seq<char>>::empty());
    }
    st
}

} // verus!

// --- rendering and its inversion ---------------------------------------

verus! {

pub open spec fn begin_vcal_line() -> Seq<char> {
    "BEGIN:VCALENDAR"@
}

pub open spec fn end_vcal_line() -> Seq<char> {
    "END:VCALENDAR"@
}

pub open spec fn begin_vevent_line() -> Seq<char> {
    "BEGIN:VEVENT"@
}

pub open spec fn end_vevent_line() -> Seq<char> {
    "END:VEVENT"@
}

/// The wire lines of a property list.
pub open spec fn render_props_lines(ms: Seq<PropModel>) -> Seq<Seq<char>> {
    ms.map_values(|p: PropModel| render_prop(p))
}

/// The wire lines of one event.
pub open spec fn render_event_lines(e: Seq<PropModel>) -> Seq<Seq<char>> {
    seq![begin_vevent_line()] + render_props_lines(e) + seq![end_vevent_line()]
}

/// The wire lines of an event list.
pub open spec fn render_events_lines(es: Seq<Seq<PropModel>>) -> Seq<Seq<char>>
    decreases es.len(),
{
    if es.len() == 0 {
        Seq::empty()
    } else {
        render_events_lines(es.drop_last()) + render_event_lines(es.last())
    }
}

/// The wire lines of a whole document.
pub open spec fn render_cal_lines(cp: Seq<PropModel>, es: Seq<Seq<PropModel>>) -> Seq<Seq<char>> {
    seq![begin_vcal_line()] + render_props_lines(cp) + render_events_lines(es) + seq![
        end_vcal_line(),
    ]
}

/// Lines joined with the wire line terminator.
pub open spec fn join_crlf(ls: Seq<Seq<char>>) -> Seq<char>
    decreases ls.len(),
{
    if ls.len() == 0 {
        Seq::empty()
    } else {
        join_crlf(ls.drop_last()) + ls.last() + seq!['\r', '\n']
    }
}

/// The full wire text of a document.
pub open spec fn render_cal_text(cp: Seq<PropModel>, es: Seq<Seq<PropModel>>) -> Seq<char> {
    join_crlf(render_cal_lines(cp, es))
}

/// Decoding text without backslashes changes nothing.
pub proof fn lemma_unescape_clean_id(s: Seq<char>)
    requires
        !s.contains('\\'),
    ensures
        unescape(s) == s,
    decreases s.len(),
{
    if s.len() > 0 {
        assert(s[0] != '\\');
        let rest = s.subrange(1, s.len() as int);
        assert(!rest.contains('\\')) by {
            if rest.contains('\\') {
                let i = choose|i: int| 0 <= i < rest.len() && rest[i] == '\\';
                assert(s[i + 1] == '\\');
            }
        }
        lemma_unescape_clean_id(rest);
        assert(unescape(s) =~= s);
    }
}

/// Decoding never introduces a carriage return.
pub proof fn lemma_unescape_no_cr(s: Seq<char>)
    requires
        !s.contains('\r'),
    ensures
        !unescape(s).contains('\r'),
    decreases s.len(),
{
    if s.len() == 0 {
    } else if s[0] == '\\' && s.len() >= 2 {
        let rest = s.subrange(2, s.len() as int);
        assert(!rest.contains('\r')) by {
            if rest.contains('\r') {
                let i = choose|i: int| 0 <= i < rest.len() && rest[i] == '\r';
                assert(s[i + 2] == '\r');
            }
        }
        lemma_unescape_no_cr(rest);
        assert(s[1] != '\r');
        assert(unesc_code(s[1]) != '\r');
        if unescape(s).contains('\r') {
            let i = choose|i: int| 0 <= i < unescape(s).len() && unescape(s)[i] == '\r';
            if i == 0 {
            } else {
                assert(unescape(rest)[i - 1] == '\r');
            }
        }
    } else {
        let rest = s.subrange(1, s.len() as int);
        assert(!rest.contains('\r')) by {
            if rest.contains('\r') {
                let i = choose|i: int| 0 <= i < rest.len() && rest[i] == '\r';
                assert(s[i + 1] == '\r');
            }
        }
        lemma_unescape_no_cr(rest);
        assert(s[0] != '\r');
        if unescape(s).contains('\r') {
            let i = choose|i: int| 0 <= i < unescape(s).len() && unescape(s)[i] == '\r';
            if i == 0 {
            } else {
                assert(unescape(rest)[i - 1] == '\r');
            }
        }
    }
}

/// A name character is none of the separators.
pub proof fn lemma_name_char_plain(c: char)
    requires
        is_name_char(c),
    ensures
        c != ':' && c != ';' && c != ' ' && c != '\t' && c != '\n' && c != '\r' && c != '\\',
{
}

/// A well-formed property's line reads back as that property.
pub proof fn lemma_content_of_render(p: PropModel)
    requires
        prop_model_wf(p),
    ensures
        spec_content(render_prop(p)) == Some(p),
{
    let head = p.name + p.params;
    assert(!p.name.contains(':')) by {
        if p.name.contains(':') {
            let i = choose|i: int| 0 <= i < p.name.len() && p.name[i] == ':';
            lemma_name_char_plain(p.name[i]);
        }
    }
    assert(!p.name.contains(';')) by {
        if p.name.contains(';') {
            let i = choose|i: int| 0 <= i < p.name.len() && p.name[i] == ';';
            lemma_name_char_plain(p.name[i]);
        }
    }
    assert(!head.contains(':')) by {
        if head.contains(':') {
            let i = choose|i: int| 0 <= i < head.len() && head[i] == ':';
            if i < p.name.len() {
                assert(p.name[i] == ':');
                assert(p.name.contains(':'));
            } else {
                assert(p.params[i - p.name.len()] == ':');
            }
        }
    }
    assert(render_prop(p) =~= head + seq![':'] + escape(p.value));
    lemma_split_colon_of(head, escape(p.value));
    lemma_split_semi_of(p.name, p.params);
    lemma_unescape_escape(p.value);
    assert(spec_content(render_prop(p)) == Some(
        PropModel { name: p.name, params: p.params, value: p.value },
    ));
    assert(PropModel { name: p.name, params: p.params, value: p.value } == p);
}

/// The structural lines read back as their keywords.
pub proof fn lemma_content_keywords()
    ensures
        spec_content(begin_vcal_line()) == Some(
            PropModel { name: "BEGIN"@, params: Seq::empty(), value: "VCALENDAR"@ },
        ),
        spec_content(end_vcal_line()) == Some(
            PropModel { name: "END"@, params: Seq::empty(), value: "VCALENDAR"@ },
        ),
        spec_content(begin_vevent_line()) == Some(
            PropModel { name: "BEGIN"@, params: Seq::empty(), value: "VEVENT"@ },
        ),
        spec_content(end_vevent_line()) == Some(
            PropModel { name: "END"@, params: Seq::empty(), value: "VEVENT"@ },
        ),
        "BEGIN"@ != "END"@,
        begin_vcal_line().len() > 0,
        end_vcal_line().len() > 0,
        begin_vevent_line().len() > 0,
        end_vevent_line().len() > 0,
        "VCALENDAR"@ != "VEVENT"@,
{
    reveal_strlit("BEGIN:VCALENDAR");
    reveal_strlit("END:VCALENDAR");
    reveal_strlit("BEGIN:VEVENT");
    reveal_strlit("END:VEVENT");
    reveal_strlit("BEGIN");
    reveal_strlit("END");
    reveal_strlit("VCALENDAR");
    reveal_strlit("VEVENT");
    lemma_keyword_line("BEGIN"@, "VCALENDAR"@, begin_vcal_line());
    lemma_keyword_line("END"@, "VCALENDAR"@, end_vcal_line());
    lemma_keyword_line("BEGIN"@, "VEVENT"@, begin_vevent_line());
    lemma_keyword_line("END"@, "VEVENT"@, end_vevent_line());
}

/// A line of the shape `NAME:WORD`, both pieces plain, reads back as
/// that name and word.
proof fn lemma_keyword_line(nm: Seq<char>, val: Seq<char>, line: Seq<char>)
    requires
        line =~= nm + seq![':'] + val,
        nm.len() > 0,
        forall|i: int| 0 <= i < nm.len() ==> is_name_char(nm[i]),
        !val.contains('\\'),
        !nm.contains(':'),
        !nm.contains(';'),
    ensures
        spec_content(line) == Some(PropModel { name: nm, params: Seq::empty(), value: val }),
{
    lemma_split_colon_of(nm, val);
    lemma_split_semi_of(nm, Seq::empty());
    assert(nm + Seq::<char>::empty() =~= nm);
    lemma_unescape_clean_id(val);
}

} // verus!

// --- the walk over rendered lines --------------------------------------

verus! {

/// Walking the lines of well-formed calendar properties collects them.
pub proof fn lemma_prun_cal_props(ms: Seq<PropModel>, st: PState)
    requires
        st.err == 0,
        st.skip == 0,
        st.phase == 1,
        crate::component::props_model_wf(ms),
    ensures
        prun(render_props_lines(ms), st) == (PState { cal_props: st.cal_props + ms, ..st }),
    decreases ms.len(),
{
    if ms.len() == 0 {
        assert(render_props_lines(ms) =~= Seq::<Seq<char>>::empty());
        assert(PState { cal_props: st.cal_props + ms, ..st } =~= st);
    } else {
        let p = ms[0];
        assert(prop_model_wf(p));
        lemma_content_of_render(p);
        let line = render_prop(p);
        assert(line.len() > 0);
        assert(p.name != "BEGIN"@ && p.name != "END"@);
        let st1 = pstep(st, line);
        assert(st1 =~= PState { cal_props: st.cal_props.push(p), ..st });
        assert(render_props_lines(ms)[0] == line);
        assert(render_props_lines(ms).drop_first() =~= render_props_lines(ms.drop_first()));
        assert(crate::component::props_model_wf(ms.drop_first())) by {
            assert(forall|i: int|
                0 <= i < ms.len() - 1 ==> ms.drop_first()[i] == ms[i + 1]);
        }
        lemma_prun_cal_props(ms.drop_first(), st1);
        assert(st.cal_props.push(p) + ms.drop_first() =~= st.cal_props + ms);
        assert(prun(render_props_lines(ms), st) =~= PState { cal_props: st.cal_props + ms, ..st });
    }
}

/// Walking the lines of well-formed event properties collects them.
pub proof fn lemma_prun_event_props(ms: Seq<PropModel>, st: PState)
    requires
        st.err == 0,
        st.skip == 0,
        st.phase == 2,
        crate::component::props_model_wf(ms),
    ensures
        prun(render_props_lines(ms), st) == (PState { cur: st.cur + ms, ..st }),
    decreases ms.len(),
{
    if ms.len() == 0 {
        assert(render_props_lines(ms) =~= Seq::<Seq<char>>::empty());
        assert(PState { cur: st.cur + ms, ..st } =~= st);
    } else {
        let p = ms[0];
        assert(prop_model_wf(p));
        lemma_content_of_render(p);
        let line = render_prop(p);
        assert(line.len() > 0);
        assert(p.name != "BEGIN"@ && p.name != "END"@);
        let st1 = pstep(st, line);
        assert(st1 =~= PState { cur: st.cur.push(p), ..st });
        assert(render_props_lines(ms)[0] == line);
        assert(render_props_lines(ms).drop_first() =~= render_props_lines(ms.drop_first()));
        assert(crate::component::props_model_wf(ms.drop_first())) by {
            assert(forall|i: int|
                0 <= i < ms.len() - 1 ==> ms.drop_first()[i] == ms[i + 1]);
        }
        lemma_prun_event_props(ms.drop_first(), st1);
        assert(st.cur.push(p) + ms.drop_first() =~= st.cur + ms);
        assert(prun(render_props_lines(ms), st) =~= PState { cur: st.cur + ms, ..st });
    }
}

/// Walking one rendered event appends it to the collected events.
pub proof fn lemma_prun_event(e: Seq<PropModel>, st: PState)
    requires
        st.err == 0,
        st.skip == 0,
        st.phase == 1,
        crate::component::props_model_wf(e),
    ensures
        prun(render_event_lines(e), st) == (PState {
            events: st.events.push(e),
            cur: Seq::empty(),
            ..st
        }),
{
    lemma_content_keywords();
    let lines = render_event_lines(e);
    let st1 = pstep(st, begin_vevent_line());
    assert(st1 =~= PState { phase: 2, cur: Seq::empty(), ..st });
    assert(lines =~= seq![begin_vevent_line()] + (render_props_lines(e) + seq![
        end_vevent_line(),
    ]));
    lemma_prun_concat(
        seq![begin_vevent_line()],
        render_props_lines(e) + seq![end_vevent_line()],
        st,
    );
    assert(seq![begin_vevent_line()].drop_first() =~= Seq::<Seq<char>>::empty());
    assert(seq![begin_vevent_line()][0] == begin_vevent_line());
    assert(seq![begin_vevent_line()].len() == 1);
    assert(prun(seq![begin_vevent_line()], st) == prun(
        seq![begin_vevent_line()].drop_first(),
        pstep(st, begin_vevent_line()),
    ));
    assert(prun(Seq::<Seq<char>>::empty(), st1) == st1);
    assert(prun(seq![begin_vevent_line()], st) == st1);
    lemma_prun_concat(render_props_lines(e), seq![end_vevent_line()], st1);
    lemma_prun_event_props(e, st1);
    let st2 = prun(render_props_lines(e), st1);
    assert(st2 =~= PState { phase: 2, cur: e, ..st }) by {
        assert(Seq::<PropModel>::empty() + e =~= e);
    }
    let st3 = pstep(st2, end_vevent_line());
    assert(st3 =~= PState { phase: 1, events: st.events.push(e), cur: Seq::empty(), ..st });
    assert(seq![end_vevent_line()].drop_first() =~= Seq::<Seq<char>>::empty());
    assert(seq![end_vevent_line()][0] == end_vevent_line());
    assert(prun(seq![end_vevent_line()], st2) == prun(
        seq![end_vevent_line()].drop_first(),
        pstep(st2, end_vevent_line()),
    ));
    assert(prun(Seq::<Seq<char>>::empty(), st3) == st3);
    assert(prun(seq![end_vevent_line()], st2) == st3);
    assert(prun(lines, st) =~= PState { events: st.events.push(e), cur: Seq::empty(), ..st });
}

/// All events of a list are well formed.
pub open spec fn events_model_wf_seq(es: Seq<Seq<PropModel>>) -> bool {
    forall|i: int| 0 <= i < es.len() ==> crate::component::props_model_wf(#[trigger] es[i])
}

/// Walking rendered events appends them all.
pub proof fn lemma_prun_events(es: Seq<Seq<PropModel>>, st: PState)
    requires
        st.err == 0,
        st.skip == 0,
        st.phase == 1,
        st.cur == Seq::<PropModel>::empty(),
        events_model_wf_seq(es),
    ensures
        prun(render_events_lines(es), st) == (PState { events: st.events + es, ..st }),
    decreases es.len(),
{
    if es.len() == 0 {
        assert(render_events_lines(es) =~= Seq::<Seq<char>>::empty());
        assert(PState { events: st.events + es, ..st } =~= st);
    } else {
        assert(events_model_wf_seq(es.drop_last())) by {
            assert(forall|i: int|
                0 <= i < es.len() - 1 ==> es.drop_last()[i] == es[i]);
        }
        lemma_prun_events(es.drop_last(), st);
        let stm = prun(render_events_lines(es.drop_last()), st);
        lemma_prun_concat(render_events_lines(es.drop_last()), render_event_lines(es.last()), st);
        assert(es[es.len() - 1] == es.last());
        lemma_prun_event(es.last(), stm);
        assert((st.events + es.drop_last()).push(es.last()) =~= st.events + es);
        assert(prun(render_events_lines(es), st) =~= PState { events: st.events + es, ..st });
    }
}

/// Walking a whole rendered document from the start state succeeds and
/// collects exactly its properties and events.
pub proof fn lemma_prun_render(cp: Seq<PropModel>, es: Seq<Seq<PropModel>>)
    requires
        crate::component::props_model_wf(cp),
        events_model_wf_seq(es),
    ensures
        prun(render_cal_lines(cp, es), pinit()) == (PState {
            phase: 3,
            err: 0,
            wrong: Seq::empty(),
            skip: 0,
            cal_props: cp,
            events: es,
            cur: Seq::empty(),
        }),
{
    lemma_content_keywords();
    let st1 = pstep(pinit(), begin_vcal_line());
    assert(st1 =~= PState { phase: 1, ..pinit() });
    let lines = render_cal_lines(cp, es);
    assert(lines =~= seq![begin_vcal_line()] + (render_props_lines(cp) + (render_events_lines(es)
        + seq![end_vcal_line()])));
    lemma_prun_concat(
        seq![begin_vcal_line()],
        render_props_lines(cp) + (render_events_lines(es) + seq![end_vcal_line()]),
        pinit(),
    );
    assert(seq![begin_vcal_line()].drop_first() =~= Seq::<Seq<char>>::empty());
    assert(seq![begin_vcal_line()][0] == begin_vcal_line());
    assert(prun(seq![begin_vcal_line()], pinit()) == prun(
        seq![begin_vcal_line()].drop_first(),
        pstep(pinit(), begin_vcal_line()),
    ));
    assert(prun(Seq::<Seq<char>>::empty(), st1) == st1);
    assert(prun(seq![begin_vcal_line()], pinit()) == st1);
    lemma_prun_concat(
        render_props_lines(cp),
        render_events_lines(es) + seq![end_vcal_line()],
        st1,
    );
    lemma_prun_cal_props(cp, st1);
    let st2 = prun(render_props_lines(cp), st1);
    assert(st2 =~= PState { phase: 1, cal_props: cp, ..pinit() }) by {
        assert(Seq::<PropModel>::empty() + cp =~= cp);
    }
    lemma_prun_concat(render_events_lines(es), seq![end_vcal_line()], st2);
    lemma_prun_events(es, st2);
    let st3 = prun(render_events_lines(es), st2);
    assert(st3 =~= PState { phase: 1, cal_props: cp, events: es, ..pinit() }) by {
        assert(Seq::<Seq<PropModel>>::empty() + es =~= es);
    }
    let st4 = pstep(st3, end_vcal_line());
    assert(st4 =~= PState { phase: 3, cal_props: cp, events: es, ..pinit() });
    assert(seq![end_vcal_line()].drop_first() =~= Seq::<Seq<char>>::empty());
    assert(seq![end_vcal_line()][0] == end_vcal_line());
    assert(prun(seq![end_vcal_line()], st3) == prun(
        seq![end_vcal_line()].drop_first(),
        pstep(st3, end_vcal_line()),
    ));
    assert(prun(Seq::<Seq<char>>::empty(), st4) == st4);
    assert(prun(seq![end_vcal_line()], st3) == st4);
    assert(prun(lines, pinit()) =~= PState {
        phase: 3,
        err: 0,
        wrong: Seq::empty(),
        skip: 0,
        cal_props: cp,
        events: es,
        cur: Seq::empty(),
    });
}

} // verus!

// --- text-level glue ---------------------------------------------------

verus! {

/// A line sequence is clean when no line holds a break character.
pub open spec fn lines_clean(ls: Seq<Seq<char>>) -> bool {
    forall|i: int| 0 <= i < ls.len() ==> !(#[trigger] ls[i]).contains('\n') && !ls[i].contains(
        '\r',
    )
}

/// Stripping removes every carriage return.
pub proof fn lemma_strip_cr_no_cr(s: Seq<char>)
    ensures
        !strip_cr(s).contains('\r'),
    decreases s.len(),
{
    if s.len() > 0 {
        lemma_strip_cr_no_cr(s.drop_last());
        if s.last() != '\r' {
            if strip_cr(s).contains('\r') {
                let i = choose|i: int|
                    0 <= i < strip_cr(s).len() && strip_cr(s)[i] == '\r';
                if i < strip_cr(s.drop_last()).len() {
                    assert(strip_cr(s.drop_last()).contains('\r'));
                } else {
                    assert(strip_cr(s)[i] == s.last());
                }
            }
        }
    }
}

/// The lines of a break-free-stripped text are clean.
pub proof fn lemma_lines_of_clean(s: Seq<char>)
    requires
        !s.contains('\r'),
    ensures
        lines_clean(lines_of(s)),
    decreases s.len(),
{
    if s.len() == 0 {
        assert forall|i: int| 0 <= i < lines_of(s).len() implies !(#[trigger] lines_of(
            s,
        )[i]).contains('\n') && !lines_of(s)[i].contains('\r') by {
            assert(lines_of(s)[0].len() == 0);
            if lines_of(s)[i].contains('\n') {
                let j = choose|j: int|
                    0 <= j < lines_of(s)[i].len() && lines_of(s)[i][j] == '\n';
            }
            if lines_of(s)[i].contains('\r') {
                let j = choose|j: int|
                    0 <= j < lines_of(s)[i].len() && lines_of(s)[i][j] == '\r';
            }
        }
    } else {
        assert(!s.drop_last().contains('\r')) by {
            if s.drop_last().contains('\r') {
                let i = choose|i: int|
                    0 <= i < s.len() - 1 && s.drop_last()[i] == '\r';
                assert(s[i] == '\r');
            }
        }
        lemma_lines_of_clean(s.drop_last());
        let prev = lines_of(s.drop_last());
        lemma_lines_of_nonempty(s.drop_last());
        assert(s[s.len() - 1] == s.last());
        assert(s.last() != '\r');
        if s.last() == '\n' {
            assert forall|i: int| 0 <= i < lines_of(s).len() implies !(#[trigger] lines_of(
                s,
            )[i]).contains('\n') && !lines_of(s)[i].contains('\r') by {
                if i < prev.len() {
                    assert(lines_of(s)[i] == prev[i]);
                } else {
                    assert(lines_of(s)[i].len() == 0);
                    if lines_of(s)[i].contains('\n') {
                        let j = choose|j: int|
                            0 <= j < lines_of(s)[i].len() && lines_of(s)[i][j] == '\n';
                    }
                    if lines_of(s)[i].contains('\r') {
                        let j = choose|j: int|
                            0 <= j < lines_of(s)[i].len() && lines_of(s)[i][j] == '\r';
                    }
                }
            }
        } else {
            let ext = prev.last().push(s.last());
            assert(!ext.contains('\n') && !ext.contains('\r')) by {
                assert(!prev[prev.len() - 1].contains('\n'));
                assert(!prev[prev.len() - 1].contains('\r'));
                if ext.contains('\n') {
                    let j = choose|j: int| 0 <= j < ext.len() && ext[j] == '\n';
                    if j < ext.len() - 1 {
                        assert(prev.last()[j] == '\n');
                        assert(prev.last().contains('\n'));
                    } else {
                        assert(ext[j] == s.last());
                    }
                }
                if ext.contains('\r') {
                    let j = choose|j: int| 0 <= j < ext.len() && ext[j] == '\r';
                    if j < ext.len() - 1 {
                        assert(prev.last()[j] == '\r');
                        assert(prev.last().contains('\r'));
                    } else {
                        assert(ext[j] == s.last());
                    }
                }
            }
            assert forall|i: int| 0 <= i < lines_of(s).len() implies !(#[trigger] lines_of(
                s,
            )[i]).contains('\n') && !lines_of(s)[i].contains('\r') by {
                if i < prev.len() - 1 {
                    assert(lines_of(s)[i] == prev[i]);
                } else {
                    assert(lines_of(s)[i] == ext);
                }
            }
        }
    }
}

/// Unfolding keeps lines clean.
pub proof fn lemma_unfold_clean(ls: Seq<Seq<char>>)
    requires
        lines_clean(ls),
    ensures
        lines_clean(unfold_lines(ls)),
    decreases ls.len(),
{
    if ls.len() > 0 {
        assert(lines_clean(ls.drop_last())) by {
            assert(forall|i: int|
                0 <= i < ls.len() - 1 ==> ls.drop_last()[i] == ls[i]);
        }
        lemma_unfold_clean(ls.drop_last());
        let prev = unfold_lines(ls.drop_last());
        let l = ls.last();
        assert(ls[ls.len() - 1] == l);
        assert(!l.contains('\n') && !l.contains('\r'));
        if is_continuation(l) && prev.len() > 0 {
            let ext = prev.last() + l.subrange(1, l.len() as int);
            assert(!ext.contains('\n') && !ext.contains('\r')) by {
                assert(!prev[prev.len() - 1].contains('\n'));
                assert(!prev[prev.len() - 1].contains('\r'));
                if ext.contains('\n') {
                    let j = choose|j: int| 0 <= j < ext.len() && ext[j] == '\n';
                    if j < prev.last().len() {
                        assert(prev.last().contains('\n'));
                    } else {
                        assert(l[j - prev.last().len() + 1] == '\n');
                        assert(l.contains('\n'));
                    }
                }
                if ext.contains('\r') {
                    let j = choose|j: int| 0 <= j < ext.len() && ext[j] == '\r';
                    if j < prev.last().len() {
                        assert(prev.last().contains('\r'));
                    } else {
                        assert(l[j - prev.last().len() + 1] == '\r');
                        assert(l.contains('\r'));
                    }
                }
            }
            assert forall|i: int| 0 <= i < unfold_lines(ls).len() implies !(
            #[trigger] unfold_lines(ls)[i]).contains('\n') && !unfold_lines(ls)[i].contains(
                '\r',
            ) by {
                if i < prev.len() - 1 {
                    assert(unfold_lines(ls)[i] == prev[i]);
                } else {
                    assert(unfold_lines(ls)[i] == ext);
                }
            }
        } else {
            assert forall|i: int| 0 <= i < unfold_lines(ls).len() implies !(
            #[trigger] unfold_lines(ls)[i]).contains('\n') && !unfold_lines(ls)[i].contains(
                '\r',
            ) by {
                if i < prev.len() {
                    assert(unfold_lines(ls)[i] == prev[i]);
                } else {
                    assert(unfold_lines(ls)[i] == l);
                }
            }
        }
    }
}

/// Joining clean lines and splitting the result gives them back, with
/// one empty line after the final terminator.
pub proof fn lemma_lines_of_join(ls: Seq<Seq<char>>)
    requires
        lines_clean(ls),
    ensures
        lines_of(strip_cr(join_crlf(ls))) == ls.push(Seq::empty()),
    decreases ls.len(),
{
    if ls.len() == 0 {
        assert(join_crlf(ls) =~= Seq::<char>::empty());
        assert(strip_cr(Seq::<char>::empty()) =~= Seq::<char>::empty());
        assert(lines_of(Seq::<char>::empty()) =~= seq![Seq::<char>::empty()]);
        assert(ls.push(Seq::empty()) =~= seq![Seq::<char>::empty()]);
    } else {
        assert(lines_clean(ls.drop_last())) by {
            assert(forall|i: int|
                0 <= i < ls.len() - 1 ==> ls.drop_last()[i] == ls[i]);
        }
        lemma_lines_of_join(ls.drop_last());
        let l = ls.last();
        assert(ls[ls.len() - 1] == l);
        let j0 = join_crlf(ls.drop_last());
        assert(join_crlf(ls) == j0 + l + seq!['\r', '\n']);
        lemma_strip_cr_concat(j0 + l, seq!['\r', '\n']);
        lemma_strip_cr_concat(j0, l);
        assert(strip_cr(seq!['\r', '\n']) =~= seq!['\n']) by {
            assert(strip_cr(Seq::<char>::empty()) =~= Seq::<char>::empty());
            assert(seq!['\r'].last() == '\r');
            assert(seq!['\r'].drop_last() =~= Seq::<char>::empty());
            assert(strip_cr(seq!['\r']) == strip_cr(seq!['\r'].drop_last()));
            assert(strip_cr(seq!['\r']) =~= Seq::<char>::empty());
            assert(seq!['\r', '\n'].last() == '\n');
            assert(seq!['\r', '\n'].drop_last() =~= seq!['\r']);
            assert(strip_cr(seq!['\r', '\n']) == strip_cr(seq!['\r', '\n'].drop_last()).push(
                '\n',
            ));
        }
        lemma_strip_cr_clean(l);
        assert(strip_cr(join_crlf(ls)) == strip_cr(j0) + l + seq!['\n']);
        let base = strip_cr(j0);
        lemma_lines_of_append_clean(base, l);
        lemma_lines_of_nonempty(base);
        let afterl = lines_of(base + l);
        assert(afterl == lines_of(base).update(
            lines_of(base).len() - 1,
            lines_of(base).last() + l,
        ));
        assert(lines_of(base) == ls.drop_last().push(Seq::empty()));
        assert(lines_of(base).last() =~= Seq::<char>::empty());
        assert(lines_of(base).last() + l =~= l);
        assert(afterl =~= ls.drop_last().push(l));
        assert((base + l).push('\n') =~= base + l + seq!['\n']);
        lemma_lines_of_newline(base + l);
        assert(lines_of(base + l + seq!['\n']) == afterl.push(Seq::empty()));
        assert(ls.drop_last().push(l) =~= ls);
        assert(lines_of(strip_cr(join_crlf(ls))) =~= ls.push(Seq::empty()));
    }
}

/// No rendered line of a well-formed document opens with a blank or tab.
pub proof fn lemma_render_lines_not_continuations(cp: Seq<PropModel>, es: Seq<Seq<PropModel>>)
    requires
        crate::component::props_model_wf(cp),
        events_model_wf_seq(es),
    ensures
        forall|i: int|
            0 <= i < render_cal_lines(cp, es).len() ==> !is_continuation(
                #[trigger] render_cal_lines(cp, es)[i],
            ),
        lines_clean(render_cal_lines(cp, es)),
{
    lemma_content_keywords();
    reveal_strlit("BEGIN:VCALENDAR");
    reveal_strlit("END:VCALENDAR");
    reveal_strlit("BEGIN:VEVENT");
    reveal_strlit("END:VEVENT");
    let lines = render_cal_lines(cp, es);
    assert forall|i: int| 0 <= i < lines.len() implies !is_continuation(#[trigger] lines[i])
        && !lines[i].contains('\n') && !lines[i].contains('\r') by {
        lemma_render_line_shape(cp, es, i);
    }
}

/// Each line of a rendered document is a keyword line or a rendered
/// well-formed property line, and such lines are clean non-continuations.
proof fn lemma_render_line_shape(cp: Seq<PropModel>, es: Seq<Seq<PropModel>>, i: int)
    requires
        crate::component::props_model_wf(cp),
        events_model_wf_seq(es),
        0 <= i < render_cal_lines(cp, es).len(),
    ensures
        !is_continuation(render_cal_lines(cp, es)[i]),
        !render_cal_lines(cp, es)[i].contains('\n'),
        !render_cal_lines(cp, es)[i].contains('\r'),
{
    reveal_strlit("BEGIN:VCALENDAR");
    reveal_strlit("END:VCALENDAR");
    let lines = render_cal_lines(cp, es);
    let l = lines[i];
    if i == 0 {
        assert(l == begin_vcal_line());
        lemma_keyword_clean(l);
    } else if i < 1 + cp.len() {
        assert(l == render_props_lines(cp)[i - 1]);
        assert(l == render_prop(cp[i - 1]));
        lemma_render_prop_clean(cp[i - 1]);
    } else if i < 1 + cp.len() + render_events_lines(es).len() {
        let j = i - 1 - cp.len();
        assert(l == render_events_lines(es)[j]);
        lemma_render_events_line_shape(es, j);
    } else {
        assert(l == end_vcal_line());
        lemma_keyword_clean(l);
    }
}

/// A line within rendered events is a keyword line or a property line.
proof fn lemma_render_events_line_shape(es: Seq<Seq<PropModel>>, j: int)
    requires
        events_model_wf_seq(es),
        0 <= j < render_events_lines(es).len(),
    ensures
        !is_continuation(render_events_lines(es)[j]),
        !render_events_lines(es)[j].contains('\n'),
        !render_events_lines(es)[j].contains('\r'),
    decreases es.len(),
{
    reveal_strlit("BEGIN:VEVENT");
    reveal_strlit("END:VEVENT");
    let lines = render_events_lines(es);
    if es.len() > 0 {
        let prev = render_events_lines(es.drop_last());
        let e = es.last();
        assert(es[es.len() - 1] == e);
        assert(crate::component::props_model_wf(e));
        if j < prev.len() {
            assert(events_model_wf_seq(es.drop_last())) by {
                assert(forall|k: int|
                    0 <= k < es.len() - 1 ==> es.drop_last()[k] == es[k]);
            }
            assert(lines[j] == prev[j]);
            lemma_render_events_line_shape(es.drop_last(), j);
        } else {
            let k = j - prev.len();
            assert(lines[j] == render_event_lines(e)[k]);
            if k == 0 {
                assert(render_event_lines(e)[k] == begin_vevent_line());
                lemma_keyword_clean(begin_vevent_line());
            } else if k < 1 + e.len() {
                assert(render_event_lines(e)[k] == render_props_lines(e)[k - 1]);
                assert(render_event_lines(e)[k] == render_prop(e[k - 1]));
                lemma_render_prop_clean(e[k - 1]);
            } else {
                assert(render_event_lines(e)[k] == end_vevent_line());
                lemma_keyword_clean(end_vevent_line());
            }
        }
    }
}

/// The four keyword lines are clean and start with a letter.
proof fn lemma_keyword_clean(l: Seq<char>)
    requires
        l == begin_vcal_line() || l == end_vcal_line() || l == begin_vevent_line() || l
            == end_vevent_line(),
    ensures
        !is_continuation(l),
        !l.contains('\n'),
        !l.contains('\r'),
{
    reveal_strlit("BEGIN:VCALENDAR");
    reveal_strlit("END:VCALENDAR");
    reveal_strlit("BEGIN:VEVENT");
    reveal_strlit("END:VEVENT");
    if l.contains('\n') {
        let i = choose|i: int| 0 <= i < l.len() && l[i] == '\n';
    }
    if l.contains('\r') {
        let i = choose|i: int| 0 <= i < l.len() && l[i] == '\r';
    }
}

/// A rendered well-formed property line is clean and starts with a name
/// character.
proof fn lemma_render_prop_clean(p: PropModel)
    requires
        prop_model_wf(p),
    ensures
        !is_continuation(render_prop(p)),
        !render_prop(p).contains('\n'),
        !render_prop(p).contains('\r'),
{
    let l = render_prop(p);
    assert(l[0] == p.name[0]);
    lemma_name_char_plain(p.name[0]);
    lemma_escape_clean(p.value);
    if l.contains('\n') {
        let i = choose|i: int| 0 <= i < l.len() && l[i] == '\n';
        if i < p.name.len() {
            lemma_name_char_plain(p.name[i]);
        } else if i < p.name.len() + p.params.len() {
            assert(p.params[i - p.name.len()] == '\n');
        } else if i == p.name.len() + p.params.len() {
        } else {
            assert(escape(p.value)[i - p.name.len() - p.params.len() - 1] == '\n');
            assert(escape(p.value).contains('\n'));
        }
    }
    if l.contains('\r') {
        let i = choose|i: int| 0 <= i < l.len() && l[i] == '\r';
        if i < p.name.len() {
            lemma_name_char_plain(p.name[i]);
        } else if i < p.name.len() + p.params.len() {
            assert(p.params[i - p.name.len()] == '\r');
        } else if i == p.name.len() + p.params.len() {
        } else {
            assert(escape(p.value)[i - p.name.len() - p.params.len() - 1] == '\r');
            assert(escape(p.value).contains('\r'));
        }
    }
}

/// The line pipeline a document text goes through before the walk:
/// split at breaks, drop the empty piece after a final terminator, and
/// unfold continuations.
pub open spec fn doc_lines(s: Seq<char>) -> Seq<Seq<char>> {
    let full = lines_of(strip_cr(s));
    let trimmed = if full.last().len() == 0 {
        full.drop_last()
    } else {
        full
    };
    unfold_lines(trimmed)
}

/// The structural walk of a document text.
pub open spec fn spec_parse_state(s: Seq<char>) -> PState {
    prun(doc_lines(s), pinit())
}

/// The walk of a rendered well-formed document ends in its model.
pub proof fn lemma_parse_render_text(cp: Seq<PropModel>, es: Seq<Seq<PropModel>>)
    requires
        crate::component::props_model_wf(cp),
        events_model_wf_seq(es),
    ensures
        spec_parse_state(render_cal_text(cp, es)) == (PState {
            phase: 3,
            err: 0,
            wrong: Seq::empty(),
            skip: 0,
            cal_props: cp,
            events: es,
            cur: Seq::empty(),
        }),
{
    let lines = render_cal_lines(cp, es);
    lemma_render_lines_not_continuations(cp, es);
    lemma_lines_of_join(lines);
    let full = lines_of(strip_cr(render_cal_text(cp, es)));
    assert(full == lines.push(Seq::empty()));
    assert(full.last().len() == 0);
    assert(full.drop_last() =~= lines);
    lemma_unfold_lines_id(lines);
    assert(doc_lines(render_cal_text(cp, es)) == lines);
    lemma_prun_render(cp, es);
}

} // verus!

// --- well-formedness of parsed documents -------------------------------

verus! {

/// What a clean line's property satisfies: everything of
/// well-formedness except the keyword exclusion.
pub open spec fn parsed_prop_ok(p: PropModel) -> bool {
    &&& p.name.len() > 0
    &&& forall|i: int| 0 <= i < p.name.len() ==> is_name_char(p.name[i])
    &&& params_ok(p.params)
    &&& value_ok(p.value)
}

/// A property read from a clean line is nearly well formed.
pub proof fn lemma_content_wf(line: Seq<char>)
    requires
        !line.contains('\n'),
        !line.contains('\r'),
    ensures
        match spec_content(line) {
            Some(p) => parsed_prop_ok(p),
            None => true,
        },
{
    lemma_split_colon_props(line);
    match split_at_colon(line) {
        None => {},
        Some((head, rest)) => {
            lemma_split_semi_props(head);
            let (nm, pr) = split_at_semi(head);
            assert(head + seq![':'] + rest == line);
            assert(nm + pr == head);
            assert forall|i: int| 0 <= i < pr.len() implies pr[i] != ':' && pr[i] != '\n'
                && pr[i] != '\r' by {
                assert(pr[i] == head[nm.len() + i]);
                if head[nm.len() + i] == ':' {
                    assert(head.contains(':'));
                }
                assert(head[nm.len() + i] == line[nm.len() + i]);
                if line[nm.len() + i] == '\n' {
                    assert(line.contains('\n'));
                }
                if line[nm.len() + i] == '\r' {
                    assert(line.contains('\r'));
                }
            }
            assert(!rest.contains('\r')) by {
                if rest.contains('\r') {
                    let i = choose|i: int| 0 <= i < rest.len() && rest[i] == '\r';
                    assert(line[head.len() + 1 + i] == '\r');
                    assert(line.contains('\r'));
                }
            }
            lemma_unescape_no_cr(rest);
        },
    }
}

/// Every property a state holds is well formed.
pub open spec fn pstate_wf(st: PState) -> bool {
    &&& crate::component::props_model_wf(st.cal_props)
    &&& events_model_wf_seq(st.events)
    &&& crate::component::props_model_wf(st.cur)
}

/// One step of the walk keeps the state's properties well formed when
/// the line is clean.
pub proof fn lemma_pstep_wf(st: PState, line: Seq<char>)
    requires
        pstate_wf(st),
        !line.contains('\n'),
        !line.contains('\r'),
    ensures
        pstate_wf(pstep(st, line)),
{
    lemma_content_wf(line);
    let st1 = pstep(st, line);
    match spec_content(line) {
        None => {},
        Some(p) => {
            if p.name == "BEGIN"@ || p.name == "END"@ {
                assert(events_model_wf_seq(st.events.push(st.cur))) by {
                    assert(forall|i: int|
                        0 <= i < st.events.len() ==> st.events.push(st.cur)[i] == st.events[i]);
                    assert(st.events.push(st.cur)[st.events.len() as int] == st.cur);
                }
            } else {
                assert(prop_model_wf(p));
                assert(crate::component::props_model_wf(st.cal_props.push(p))) by {
                    assert(forall|i: int|
                        0 <= i < st.cal_props.len() ==> st.cal_props.push(p)[i]
                            == st.cal_props[i]);
                    assert(st.cal_props.push(p)[st.cal_props.len() as int] == p);
                }
                assert(crate::component::props_model_wf(st.cur.push(p))) by {
                    assert(forall|i: int|
                        0 <= i < st.cur.len() ==> st.cur.push(p)[i] == st.cur[i]);
                    assert(st.cur.push(p)[st.cur.len() as int] == p);
                }
            }
        },
    }
}

/// The whole walk keeps the state's properties well formed.
pub proof fn lemma_prun_wf(lines: Seq<Seq<char>>, st: PState)
    requires
        pstate_wf(st),
        lines_clean(lines),
    ensures
        pstate_wf(prun(lines, st)),
    decreases lines.len(),
{
    if lines.len() > 0 {
        lemma_pstep_wf(st, lines[0]);
        assert(lines_clean(lines.drop_first())) by {
            assert(forall|i: int|
                0 <= i < lines.len() - 1 ==> lines.drop_first()[i] == lines[i + 1]);
        }
        lemma_prun_wf(lines.drop_first(), pstep(st, lines[0]));
    }
}

/// The lines a document text feeds into the walk are clean.
pub proof fn lemma_doc_lines_clean(s: Seq<char>)
    ensures
        lines_clean(doc_lines(s)),
{
    lemma_strip_cr_no_cr(s);
    lemma_lines_of_clean(strip_cr(s));
    lemma_lines_of_nonempty(strip_cr(s));
    let full = lines_of(strip_cr(s));
    let trimmed = if full.last().len() == 0 {
        full.drop_last()
    } else {
        full
    };
    assert forall|i: int| 0 <= i < trimmed.len() implies !(#[trigger] trimmed[i]).contains('\n')
        && !trimmed[i].contains('\r') by {
        assert(trimmed[i] == full[i]);
        assert(!full[i].contains('\n') && !full[i].contains('\r'));
    }
    lemma_unfold_clean(trimmed);
}

/// A document text's walk ends in a well-formed state.
pub proof fn lemma_spec_parse_state_wf(s: Seq<char>)
    ensures
        pstate_wf(spec_parse_state(s)),
{
    lemma_doc_lines_clean(s);
    lemma_prun_wf(doc_lines(s), pinit());
}

} // verus!

verus! {

/// The walk's phase, fault code and depth stay in their ranges.
pub proof fn lemma_prun_bounds(lines: Seq<Seq<char>>, st: PState)
    requires
        0 <= st.err <= 2,
        0 <= st.phase <= 3,
        st.skip >= 0,
    ensures
        0 <= prun(lines, st).err <= 2,
        0 <= prun(lines, st).phase <= 3,
        prun(lines, st).skip >= 0,
    decreases lines.len(),
{
    if lines.len() > 0 {
        lemma_prun_bounds(lines.drop_first(), pstep(st, lines[0]));
    }
}

} // verus!
