//! What the operations on texts come to.
use crate::log_laws::{lemma_split_cat, lemma_split_one};
use crate::text::{
    self, has_prefix, is_space, join, lines, occurs_at, replaced, split, stripped, stripped_end,
    stripped_start, trimmed, trimmed_end, trimmed_start, until, without_cr,
};
use vstd::prelude::*;

verus! {

// ---------------------------------------------------------------------------
// White space
// ---------------------------------------------------------------------------
/// Whether a text is white space throughout.
pub open spec fn is_gap(s: Seq<char>) -> bool {
    forall|i: int| 0 <= i < s.len() ==> is_space(#[trigger] s[i])
}

/// Taking white space from the start takes as much of it as there is, and no more.
pub proof fn law_trim_start(s: Seq<char>)
    ensures
        trimmed_start(s).len() <= s.len(),
        s.skip(s.len() - trimmed_start(s).len()) == trimmed_start(s),
        is_gap(s.take(s.len() - trimmed_start(s).len())),
        trimmed_start(s).len() > 0 ==> !is_space(trimmed_start(s)[0]),
    decreases s.len(),
{
    let t = trimmed_start(s);
    if s.len() > 0 && is_space(s[0]) {
        let d = s.drop_first();
        law_trim_start(d);
        let k = s.len() - t.len();
        assert(s.skip(k) =~= d.skip(k - 1));
        assert forall|i: int| 0 <= i < k implies is_space(#[trigger] s.take(k)[i]) by {
            if i > 0 {
                assert(d.take(k - 1)[i - 1] == s[i]);
            }
        }
    } else {
        assert(s.skip(0) =~= s);
    }
}

/// Taking white space from the end takes as much of it as there is, and no more.
pub proof fn law_trim_end(s: Seq<char>)
    ensures
        trimmed_end(s).len() <= s.len(),
        s.take(trimmed_end(s).len() as int) == trimmed_end(s),
        is_gap(s.skip(trimmed_end(s).len() as int)),
        trimmed_end(s).len() > 0 ==> !is_space(trimmed_end(s).last()),
    decreases s.len(),
{
    let t = trimmed_end(s);
    if s.len() > 0 && is_space(s.last()) {
        let d = s.drop_last();
        law_trim_end(d);
        let k = t.len() as int;
        assert(s.take(k) =~= d.take(k));
        assert forall|i: int| 0 <= i < s.skip(k).len() implies is_space(
            #[trigger] s.skip(k)[i],
        ) by {
            if i < d.len() - k {
                assert(d.skip(k)[i] == s[k + i]);
            }
        }
    } else {
        assert(s.take(s.len() as int) =~= s);
    }
}

/// A trimmed text is the text but for the white space at its ends.
pub proof fn law_trim(s: Seq<char>)
    ensures
        exists|a: Seq<char>, b: Seq<char>| #[trigger]
            (a + trimmed(s) + b) == s && is_gap(a) && is_gap(b),
        trimmed(s).len() > 0 ==> !is_space(trimmed(s)[0]) && !is_space(trimmed(s).last()),
        (trimmed(s).len() == 0) == is_gap(s),
{
    law_trim_start(s);
    let u = trimmed_start(s);
    law_trim_end(u);
    let t = trimmed(s);
    let a = s.take(s.len() - u.len());
    let b = u.skip(t.len() as int);
    assert(a + t + b =~= s);
    if t.len() == 0 {
        assert forall|i: int| 0 <= i < s.len() implies is_space(#[trigger] s[i]) by {
            if i < a.len() {
                assert(s[i] == a[i]);
            } else {
                assert(s[i] == b[i - a.len()]);
            }
        }
    } else {
        assert(t[0] == u[0]);
        assert(u[0] == s[a.len() as int]);
    }
}

/// Any text between white space is found by trimming.
pub proof fn law_trim_finds(a: Seq<char>, t: Seq<char>, b: Seq<char>)
    requires
        is_gap(a) && is_gap(b),
        t.len() > 0 && !is_space(t[0]) && !is_space(t.last()),
    ensures
        trimmed(a + t + b) == t,
{
    let s = a + t + b;
    law_trim_start(s);
    let u = trimmed_start(s);
    let k = s.len() - u.len();
    if k < a.len() {
        assert(u[0] == s[k]);
        assert(s[k] == a[k]);
    }
    if k > a.len() {
        assert(s.take(k)[a.len() as int] == t[0]);
    }
    assert(u =~= t + b);
    law_trim_end(u);
    let v = trimmed_end(u);
    if v.len() > t.len() {
        assert(v.last() == u[v.len() - 1]);
        assert(u[v.len() - 1] == b[v.len() - 1 - t.len()]);
    }
    if v.len() < t.len() {
        assert(u.skip(v.len() as int)[t.len() - 1 - v.len()] == t.last());
    }
    assert(v =~= t);
}

/// Stripping a character takes it from both ends, all of it and nothing else.
pub proof fn law_strip(s: Seq<char>, c: char)
    ensures
        exists|a: Seq<char>, b: Seq<char>| #[trigger]
            (a + stripped(s, c) + b) == s && is_all(a, c) && is_all(b, c),
        stripped(s, c).len() > 0 ==> stripped(s, c)[0] != c && stripped(s, c).last() != c,
{
    lemma_strip_start(s, c);
    let u = stripped_start(s, c);
    lemma_strip_end(u, c);
    let t = stripped(s, c);
    let a = s.take(s.len() - u.len());
    let b = u.skip(t.len() as int);
    assert(a + t + b =~= s);
    if t.len() > 0 {
        assert(t[0] == u[0]);
    }
}

pub open spec fn is_all(s: Seq<char>, c: char) -> bool {
    forall|i: int| 0 <= i < s.len() ==> #[trigger] s[i] == c
}

proof fn lemma_strip_start(s: Seq<char>, c: char)
    ensures
        stripped_start(s, c).len() <= s.len(),
        s.skip(s.len() - stripped_start(s, c).len()) == stripped_start(s, c),
        is_all(s.take(s.len() - stripped_start(s, c).len()), c),
        stripped_start(s, c).len() > 0 ==> stripped_start(s, c)[0] != c,
    decreases s.len(),
{
    let t = stripped_start(s, c);
    if s.len() > 0 && s[0] == c {
        let d = s.drop_first();
        lemma_strip_start(d, c);
        let k = s.len() - t.len();
        assert(s.skip(k) =~= d.skip(k - 1));
        assert forall|i: int| 0 <= i < k implies #[trigger] s.take(k)[i] == c by {
            if i > 0 {
                assert(d.take(k - 1)[i - 1] == s[i]);
            }
        }
    } else {
        assert(s.skip(0) =~= s);
    }
}

proof fn lemma_strip_end(s: Seq<char>, c: char)
    ensures
        stripped_end(s, c).len() <= s.len(),
        s.take(stripped_end(s, c).len() as int) == stripped_end(s, c),
        is_all(s.skip(stripped_end(s, c).len() as int), c),
        stripped_end(s, c).len() > 0 ==> stripped_end(s, c).last() != c,
    decreases s.len(),
{
    let t = stripped_end(s, c);
    if s.len() > 0 && s.last() == c {
        let d = s.drop_last();
        lemma_strip_end(d, c);
        let k = t.len() as int;
        assert(s.take(k) =~= d.take(k));
        assert forall|i: int| 0 <= i < s.skip(k).len() implies #[trigger] s.skip(k)[i] == c by {
            if i < d.len() - k {
                assert(d.skip(k)[i] == s[k + i]);
            }
        }
    } else {
        assert(s.take(s.len() as int) =~= s);
    }
}

// ---------------------------------------------------------------------------
// Parts
// ---------------------------------------------------------------------------
pub(crate) proof fn lemma_join_front(p: Seq<char>, ls: Seq<Seq<char>>, sep: Seq<char>)
    requires
        ls.len() > 0,
    ensures
        join(seq![p] + ls, sep) == p + sep + join(ls, sep),
    decreases ls.len(),
{
    let all = seq![p] + ls;
    if ls.len() == 1 {
        assert(all.drop_last() =~= seq![p]);
        assert(join(seq![p], sep) == p);
    } else {
        assert(all.drop_last() =~= seq![p] + ls.drop_last());
        lemma_join_front(p, ls.drop_last(), sep);
        assert(join(all, sep) =~= p + sep + join(ls, sep));
    }
}

/// The parts of a text, with the character between them, are the text; and no part
/// holds the character.
pub proof fn law_split_join(s: Seq<char>, c: char)
    ensures
        split(s, c).len() > 0,
        join(split(s, c), seq![c]) == s,
        forall|i: int| 0 <= i < split(s, c).len() ==> !(#[trigger] split(s, c)[i]).contains(c),
    decreases s.len(),
{
    let k = until(s, c);
    text::lemma_until(s, c);
    let ps = split(s, c);
    if k >= s.len() {
        assert(ps =~= seq![s]);
    } else {
        let r = s.skip(k + 1);
        law_split_join(r, c);
        lemma_join_front(s.take(k), split(r, c), seq![c]);
        assert(s =~= s.take(k) + seq![c] + r);
        assert forall|i: int| 0 <= i < ps.len() implies !(#[trigger] ps[i]).contains(c) by {
            if i > 0 {
                assert(ps[i] == split(r, c)[i - 1]);
            } else if ps[0].contains(c) {
                let j = ps[0].index_of(c);
                assert(s[j] == c);
            }
        }
    }
}

/// Parts that do not hold a character are found again in a text that has the character
/// between them.
pub proof fn law_join_split(ps: Seq<Seq<char>>, c: char)
    requires
        ps.len() > 0,
        forall|i: int| 0 <= i < ps.len() ==> !(#[trigger] ps[i]).contains(c),
    ensures
        split(join(ps, seq![c]), c) == ps,
    decreases ps.len(),
{
    let l = ps.last();
    assert(!ps[ps.len() - 1].contains(c));
    assert forall|i: int| 0 <= i < l.len() implies l[i] != c by {
        assert(l.contains(l[i]));
    }
    lemma_split_one(l, c);
    if ps.len() == 1 {
        assert(ps =~= seq![l]);
    } else {
        let d = ps.drop_last();
        assert forall|i: int| 0 <= i < d.len() implies !(#[trigger] d[i]).contains(c) by {
            assert(d[i] == ps[i]);
        }
        law_join_split(d, c);
        lemma_split_cat(join(d, seq![c]), c, l);
        assert(d + seq![l] =~= ps);
    }
}

/// The lines of a text are its parts between line feeds, each without the carriage
/// return before a feed; what follows the last feed is a line unless it is empty.
pub proof fn law_lines(s: Seq<char>)
    ensures
        ({
            let ps = split(s, '\n');
            let n = if ps.last().len() == 0 {
                ps.len() - 1
            } else {
                ps.len() as int
            };
            &&& lines(s).len() == n
            &&& forall|i: int|
                0 <= i < n ==> #[trigger] lines(s)[i] == (if i < ps.len() - 1 {
                    without_cr(ps[i])
                } else {
                    ps[i]
                })
        }),
    decreases s.len(),
{
    let k = until(s, '\n');
    text::lemma_until(s, '\n');
    let ps = split(s, '\n');
    if s.len() == 0 {
        assert(ps =~= seq![s]);
    } else if k >= s.len() {
        assert(ps =~= seq![s]);
    } else {
        let r = s.skip(k + 1);
        law_lines(r);
        let rs = split(r, '\n');
        text::lemma_split_nonempty(r, '\n');
        assert(ps.last() == rs.last());
        assert forall|i: int| 0 <= i < lines(s).len() implies #[trigger] lines(s)[i] == (if i
            < ps.len() - 1 {
            without_cr(ps[i])
        } else {
            ps[i]
        }) by {
            if i > 0 {
                assert(lines(s)[i] == lines(r)[i - 1]);
                assert(ps[i] == rs[i - 1]);
            }
        }
    }
}

// ---------------------------------------------------------------------------
// Replacing
// ---------------------------------------------------------------------------
/// A text in which a part does not occur is left as it is.
pub proof fn law_nothing_replaced(s: Seq<char>, from: Seq<char>, to: Seq<char>)
    requires
        forall|i: int| !#[trigger] occurs_at(s, from, i),
    ensures
        replaced(s, from, to) == s,
    decreases s.len(),
{
    if from.len() > 0 && s.len() >= from.len() {
        assert(!occurs_at(s, from, 0));
        assert(s.take(from.len() as int) =~= s.subrange(0, from.len() as int));
        let d = s.drop_first();
        assert forall|i: int| !#[trigger] occurs_at(d, from, i) by {
            if occurs_at(d, from, i) {
                assert(s.subrange(i + 1, i + 1 + from.len()) =~= d.subrange(i, i + from.len()));
                assert(occurs_at(s, from, i + 1));
            }
        }
        law_nothing_replaced(d, from, to);
        assert(seq![s[0]] + d =~= s);
    }
}

/// The first occurrence of a part is replaced, what is before it is kept, and what is
/// behind it is treated in the same way.
pub proof fn law_first_replaced(s: Seq<char>, from: Seq<char>, to: Seq<char>, k: int)
    requires
        from.len() > 0,
        occurs_at(s, from, k),
        forall|i: int| 0 <= i < k ==> !#[trigger] occurs_at(s, from, i),
    ensures
        replaced(s, from, to) == s.take(k) + to + replaced(s.skip(k + from.len()), from, to),
    decreases k,
{
    assert(s.take(from.len() as int) =~= s.subrange(0, from.len() as int));
    if k == 0 {
        assert(has_prefix(s, from));
        assert(s.take(0) + to =~= to);
    } else {
        assert(!occurs_at(s, from, 0));
        let d = s.drop_first();
        assert(d.subrange(k - 1, k - 1 + from.len()) =~= s.subrange(k, k + from.len()));
        assert forall|i: int| 0 <= i < k - 1 implies !#[trigger] occurs_at(d, from, i) by {
            assert(s.subrange(i + 1, i + 1 + from.len()) =~= d.subrange(i, i + from.len()));
            assert(!occurs_at(s, from, i + 1));
        }
        law_first_replaced(d, from, to, k - 1);
        assert(d.skip(k - 1 + from.len()) =~= s.skip(k + from.len()));
        assert(replaced(s, from, to) =~= s.take(k) + to + replaced(
            s.skip(k + from.len()),
            from,
            to,
        ));
    }
}

// ---------------------------------------------------------------------------
// Numbers
// ---------------------------------------------------------------------------
/// The value of digits.
pub open spec fn value_of(s: Seq<char>) -> int
    decreases s.len(),
{
    if s.len() == 0 {
        0
    } else {
        value_of(s.drop_last()) * 10 + (s.last() as int - 48)
    }
}

/// Digits are read as the number that they write, where it is not too large; anything else
/// is refused.
pub proof fn law_scanned(s: Seq<char>, max: int)
    requires
        0 <= max,
    ensures
        text::scanned(s, max) is Ok == (text::all_digits(s) && value_of(s) <= max),
        text::scanned(s, max) matches Ok(v) ==> v == value_of(s) && 0 <= v <= max,
    decreases s.len(),
{
    if s.len() > 0 {
        let d = s.drop_last();
        law_scanned(d, max);
        if text::all_digits(s) {
            assert forall|i: int| 0 <= i < d.len() implies text::is_digit(#[trigger] d[i]) by {
                assert(d[i] == s[i]);
            }
            assert(text::is_digit(s[s.len() - 1]));
            lemma_value_positive(d);
        }
        if text::scanned(s, max) is Ok {
            assert forall|i: int| 0 <= i < s.len() implies text::is_digit(#[trigger] s[i]) by {
                if i < d.len() {
                    assert(d[i] == s[i]);
                }
            }
        }
    }
}

proof fn lemma_value_positive(s: Seq<char>)
    requires
        text::all_digits(s),
    ensures
        value_of(s) >= 0,
    decreases s.len(),
{
    if s.len() > 0 {
        let d = s.drop_last();
        assert forall|i: int| 0 <= i < d.len() implies text::is_digit(#[trigger] d[i]) by {
            assert(d[i] == s[i]);
        }
        assert(text::is_digit(s[s.len() - 1]));
        lemma_value_positive(d);
    }
}

/// A number is written in digits that have its value, without a zero before them.
pub proof fn law_decimal(n: nat)
    ensures
        text::all_digits(text::decimal(n)),
        text::decimal(n).len() > 0,
        value_of(text::decimal(n)) == n,
        n > 0 ==> text::decimal(n)[0] != '0',
    decreases n,
{
    let s = text::decimal(n);
    if n < 10 {
        assert(s.drop_last() =~= Seq::empty());
        assert(value_of(Seq::<char>::empty()) == 0);
        lemma_digit_char(n as int);
        assert(value_of(s) == value_of(s.drop_last()) * 10 + (s.last() as int - 48));
    } else {
        law_decimal(n / 10);
        lemma_digit_char((n % 10) as int);
        assert(s.drop_last() =~= text::decimal(n / 10));
        assert(value_of(s) == value_of(s.drop_last()) * 10 + (s.last() as int - 48));
        assert forall|i: int| 0 <= i < s.len() implies text::is_digit(#[trigger] s[i]) by {
            if i < s.len() - 1 {
                assert(s[i] == text::decimal(n / 10)[i]);
            }
        }
        assert(s[0] == text::decimal(n / 10)[0]);
    }
}

proof fn lemma_digit_char(d: int)
    requires
        0 <= d < 10,
    ensures
        text::digit_char(d) as int == 48 + d,
        text::is_digit(text::digit_char(d)),
{
}

/// A padded text ends as it was and begins with zeros up to the width.
pub proof fn law_zero_padded(s: Seq<char>, width: nat)
    ensures
        text::zero_padded(s, width).len() == if s.len() < width {
            width
        } else {
            s.len()
        },
        text::has_suffix(text::zero_padded(s, width), s),
        forall|i: int|
            0 <= i < text::zero_padded(s, width).len() - s.len() ==> #[trigger] text::zero_padded(
                s,
                width,
            )[i] == '0',
    decreases width - s.len(),
{
    let r = text::zero_padded(s, width);
    if s.len() >= width {
        assert(s.skip(0) =~= s);
    } else {
        let t = seq!['0'] + s;
        law_zero_padded(t, width);
        let k = r.len() - s.len();
        assert(r.skip(k) =~= r.skip(k - 1).drop_first());
        assert(t.drop_first() =~= s);
        assert(r[k - 1] == r.skip(k - 1)[0]);
    }
}

} // verus!
