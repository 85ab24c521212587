//! Text primitives: strings are read and built as sequences of characters.
use vstd::prelude::*;

verus! {

broadcast use vstd::string::group_string_axioms;

/// `String::push` appends one character to the end of the string.
pub assume_specification[ std::string::String::push ](s: &mut std::string::String, c: char)
    ensures
        final(s)@ == old(s)@.push(c),
;

// ---------------------------------------------------------------------------
// Views of lists of strings
// ---------------------------------------------------------------------------
/// The texts that a list of strings holds.
pub open spec fn texts(v: Seq<String>) -> Seq<Seq<char>> {
    Seq::new(v.len(), |i: int| v[i]@)
}

/// The text that an optional string holds.
pub open spec fn opt_text(o: Option<String>) -> Option<Seq<char>> {
    match o {
        Some(s) => Some(s@),
        None => None,
    }
}

pub proof fn lemma_texts_push(v: Seq<String>, s: String)
    ensures
        texts(v.push(s)) == texts(v).push(s@),
{
    assert(texts(v.push(s)) =~= texts(v).push(s@));
}

// ---------------------------------------------------------------------------
// Characters and slices of them
// ---------------------------------------------------------------------------
/// The characters of a string.
pub fn chars(s: &str) -> (v: Vec<char>)
    ensures
        v@ == s@,
{
    let mut v: Vec<char> = Vec::new();
    for c in it: s.chars()
        invariant
            v@ == it.seq().take(it.index()),
    {
        v.push(c);
        proof {
            assert(v@ =~= it.seq().take(it.index() + 1));
        }
    }
    proof {
        assert(v@ =~= s@);
    }
    v
}

/// The string made of the characters from `from` up to, not including, `to`.
pub fn slice(cs: &Vec<char>, from: usize, to: usize) -> (s: String)
    requires
        from <= to <= cs@.len(),
    ensures
        s@ == cs@.subrange(from as int, to as int),
{
    let mut s = String::new();
    let mut i: usize = from;
    while i < to
        invariant
            from <= i <= to <= cs@.len(),
            s@ == cs@.subrange(from as int, i as int),
        decreases to - i,
    {
        s.push(cs[i]);
        proof {
            assert(s@ =~= cs@.subrange(from as int, i + 1));
        }
        i = i + 1;
    }
    s
}

/// Whether two strings hold the same text.
pub fn same(a: &str, b: &str) -> (r: bool)
    ensures
        r == (a@ == b@),
{
    let x = chars(a);
    let y = chars(b);
    if x.len() != y.len() {
        return false;
    }
    let mut i: usize = 0;
    while i < x.len()
        invariant
            i <= x@.len(),
            x@.len() == y@.len(),
            x@.take(i as int) == y@.take(i as int),
        decreases x@.len() - i,
    {
        if x[i] != y[i] {
            proof {
                assert(x@[i as int] != y@[i as int]);
            }
            return false;
        }
        proof {
            assert(x@.take(i + 1) =~= x@.take(i as int).push(x@[i as int]));
            assert(y@.take(i + 1) =~= y@.take(i as int).push(y@[i as int]));
        }
        i = i + 1;
    }
    proof {
        assert(x@ =~= x@.take(i as int));
        assert(y@ =~= y@.take(i as int));
    }
    true
}

/// A copy of a string.
pub fn copy(s: &str) -> (r: String)
    ensures
        r@ == s@,
{
    let cs = chars(s);
    let n: usize = cs.len();
    let r = slice(&cs, 0, n);
    proof {
        assert(cs@.subrange(0, n as int) =~= cs@);
    }
    r
}

/// A copy of an optional string.
pub fn copy_opt(o: &Option<String>) -> (r: Option<String>)
    ensures
        opt_text(r) == opt_text(*o),
{
    match o {
        Some(s) => Some(copy(s.as_str())),
        None => None,
    }
}

/// A copy of a list of strings.
pub fn copy_all(v: &Vec<String>) -> (r: Vec<String>)
    ensures
        texts(r@) == texts(v@),
{
    let mut r: Vec<String> = Vec::new();
    let mut i: usize = 0;
    while i < v.len()
        invariant
            i <= v@.len(),
            texts(r@) == texts(v@).take(i as int),
        decreases v@.len() - i,
    {
        let s = copy(v[i].as_str());
        proof {
            lemma_texts_push(r@, s);
            assert(texts(v@).take(i + 1) =~= texts(v@).take(i as int).push(texts(v@)[i as int]));
        }
        r.push(s);
        i = i + 1;
    }
    proof {
        assert(texts(v@).take(i as int) =~= texts(v@));
    }
    r
}

/// The concatenation of two strings.
pub fn cat(a: &str, b: &str) -> (r: String)
    ensures
        r@ == a@ + b@,
{
    let mut r = copy(a);
    r.append(b);
    r
}

/// The concatenation of three strings.
pub fn cat3(a: &str, b: &str, c: &str) -> (r: String)
    ensures
        r@ == a@ + b@ + c@,
{
    let mut r = cat(a, b);
    r.append(c);
    r
}

// ---------------------------------------------------------------------------
// Membership, prefixes, suffixes
// ---------------------------------------------------------------------------
/// Whether a text occurs in a list of strings.
pub fn contains_text(v: &Vec<String>, s: &str) -> (r: bool)
    ensures
        r == texts(v@).contains(s@),
{
    let mut i: usize = 0;
    while i < v.len()
        invariant
            i <= v@.len(),
            forall|j: int| 0 <= j < i ==> texts(v@)[j] != s@,
        decreases v@.len() - i,
    {
        if same(v[i].as_str(), s) {
            proof {
                assert(texts(v@)[i as int] == s@);
            }
            return true;
        }
        i = i + 1;
    }
    false
}

/// Whether a character occurs in a string.
pub fn contains_char(s: &str, c: char) -> (r: bool)
    ensures
        r == s@.contains(c),
{
    let cs = chars(s);
    let mut i: usize = 0;
    while i < cs.len()
        invariant
            i <= cs@.len(),
            forall|j: int| 0 <= j < i ==> cs@[j] != c,
        decreases cs@.len() - i,
    {
        if cs[i] == c {
            proof {
                assert(cs@[i as int] == c);
            }
            return true;
        }
        i = i + 1;
    }
    false
}

/// Whether `p` occurs in `s` at position `i`.
pub open spec fn occurs_at(s: Seq<char>, p: Seq<char>, i: int) -> bool {
    0 <= i && i + p.len() <= s.len() && s.subrange(i, i + p.len()) == p
}

/// Whether `s` begins with `p`.
pub open spec fn has_prefix(s: Seq<char>, p: Seq<char>) -> bool {
    p.len() <= s.len() && s.take(p.len() as int) == p
}

/// Whether `s` ends with `p`.
pub open spec fn has_suffix(s: Seq<char>, p: Seq<char>) -> bool {
    p.len() <= s.len() && s.skip(s.len() - p.len()) == p
}

/// Whether `p` occurs somewhere in `s`.
pub open spec fn has_part(s: Seq<char>, p: Seq<char>) -> bool {
    exists|i: int| occurs_at(s, p, i)
}

fn matches_at(cs: &Vec<char>, p: &Vec<char>, at: usize) -> (r: bool)
    requires
        at <= cs@.len(),
    ensures
        r == occurs_at(cs@, p@, at as int),
{
    let n: usize = cs.len();
    if p.len() > n - at {
        return false;
    }
    let mut i: usize = 0;
    while i < p.len()
        invariant
            i <= p@.len(),
            at + p@.len() <= cs@.len(),
            n == cs@.len(),
            forall|j: int| 0 <= j < i ==> cs@[at + j] == p@[j],
        decreases p@.len() - i,
    {
        if cs[at + i] != p[i] {
            proof {
                assert(cs@.subrange(at as int, at + p@.len())[i as int] != p@[i as int]);
            }
            return false;
        }
        i = i + 1;
    }
    proof {
        assert(cs@.subrange(at as int, at + p@.len()) =~= p@);
    }
    true
}

pub fn starts_with(s: &str, p: &str) -> (r: bool)
    ensures
        r == has_prefix(s@, p@),
{
    let cs = chars(s);
    let ps = chars(p);
    proof {
        if p@.len() <= s@.len() {
            assert(s@.subrange(0, p@.len() as int) =~= s@.take(p@.len() as int));
        }
    }
    matches_at(&cs, &ps, 0)
}

pub fn ends_with(s: &str, p: &str) -> (r: bool)
    ensures
        r == has_suffix(s@, p@),
{
    let cs = chars(s);
    let ps = chars(p);
    let n: usize = cs.len();
    if ps.len() > n {
        return false;
    }
    let at: usize = n - ps.len();
    proof {
        assert(s@.subrange(at as int, at + p@.len()) =~= s@.skip(s@.len() - p@.len()));
    }
    matches_at(&cs, &ps, at)
}

/// What follows the prefix `p`, if `s` begins with it.
pub fn strip_prefix(s: &str, p: &str) -> (r: Option<String>)
    ensures
        r is Some == has_prefix(s@, p@),
        r matches Some(t) ==> t@ == s@.skip(p@.len() as int),
{
    if starts_with(s, p) {
        let cs = chars(s);
        let ps = chars(p);
        let n: usize = cs.len();
        let k: usize = ps.len();
        let t = slice(&cs, k, n);
        proof {
            assert(cs@.subrange(k as int, n as int) =~= s@.skip(p@.len() as int));
        }
        Some(t)
    } else {
        None
    }
}

/// The first position at or after `from` where `p` occurs.
fn find_from(cs: &Vec<char>, p: &Vec<char>, from: usize) -> (r: Option<usize>)
    requires
        from <= cs@.len(),
    ensures
        match r {
            Some(i) => from <= i <= cs@.len() && occurs_at(cs@, p@, i as int) && forall|j: int|
                from <= j < i ==> !occurs_at(cs@, p@, j),
            None => forall|j: int| from <= j ==> !occurs_at(cs@, p@, j),
        },
{
    let mut i: usize = from;
    while i < cs.len()
        invariant
            from <= i <= cs@.len(),
            forall|j: int| from <= j < i ==> !occurs_at(cs@, p@, j),
        decreases cs@.len() - i,
    {
        if matches_at(cs, p, i) {
            return Some(i);
        }
        i = i + 1;
    }
    if matches_at(cs, p, i) {
        return Some(i);
    }
    None
}

pub fn contains_part(s: &str, p: &str) -> (r: bool)
    ensures
        r == has_part(s@, p@),
{
    let cs = chars(s);
    let ps = chars(p);
    match find_from(&cs, &ps, 0) {
        Some(i) => {
            proof {
                assert(occurs_at(s@, p@, i as int));
            }
            true
        },
        None => {
            proof {
                assert forall|i: int| !occurs_at(s@, p@, i) by {
                    if i >= 0 {
                    }
                }
            }
            false
        },
    }
}

/// The text before the first `c`; all of the text where there is none.
pub open spec fn until(s: Seq<char>, c: char) -> int
    decreases s.len(),
{
    if s.len() == 0 || s[0] == c {
        0
    } else {
        1 + until(s.drop_first(), c)
    }
}

pub proof fn lemma_until(s: Seq<char>, c: char)
    ensures
        0 <= until(s, c) <= s.len(),
        forall|i: int| 0 <= i < until(s, c) ==> s[i] != c,
        until(s, c) < s.len() ==> s[until(s, c)] == c,
    decreases s.len(),
{
    if s.len() > 0 && s[0] != c {
        lemma_until(s.drop_first(), c);
        assert forall|i: int| 0 <= i < until(s, c) implies s[i] != c by {
            if i > 0 {
                assert(s.drop_first()[i - 1] == s[i]);
            }
        }
    }
}

/// A position at which only `c` or the end can follow is where `until` stops.
pub proof fn lemma_until_is(s: Seq<char>, c: char, k: int)
    requires
        0 <= k <= s.len(),
        forall|i: int| 0 <= i < k ==> s[i] != c,
        k < s.len() ==> s[k] == c,
    ensures
        until(s, c) == k,
    decreases s.len(),
{
    if k > 0 {
        assert forall|i: int| 0 <= i < k - 1 implies s.drop_first()[i] != c by {
            assert(s.drop_first()[i] == s[i + 1]);
        }
        lemma_until_is(s.drop_first(), c, k - 1);
    }
}

pub fn find_char(cs: &Vec<char>, c: char, from: usize) -> (k: usize)
    requires
        from <= cs@.len(),
    ensures
        from <= k <= cs@.len(),
        k - from == until(cs@.skip(from as int), c),
{
    let mut k: usize = from;
    while k < cs.len() && cs[k] != c
        invariant
            from <= k <= cs@.len(),
            forall|i: int| from <= i < k ==> cs@[i] != c,
        decreases cs@.len() - k,
    {
        k = k + 1;
    }
    proof {
        lemma_until_is(cs@.skip(from as int), c, k - from);
    }
    k
}

// ---------------------------------------------------------------------------
// White space
// ---------------------------------------------------------------------------
/// The characters with the Unicode property `White_Space`.
pub open spec fn is_space(c: char) -> bool {
    let n = c as int;
    ||| 9 <= n <= 13
    ||| n == 0x20
    ||| n == 0x85
    ||| n == 0xa0
    ||| n == 0x1680
    ||| 0x2000 <= n <= 0x200a
    ||| n == 0x2028
    ||| n == 0x2029
    ||| n == 0x202f
    ||| n == 0x205f
    ||| n == 0x3000
}

fn space(c: char) -> (r: bool)
    ensures
        r == is_space(c),
{
    let n: u32 = c as u32;
    (9 <= n && n <= 13) || n == 0x20 || n == 0x85 || n == 0xa0 || n == 0x1680 || (0x2000 <= n && n
        <= 0x200a) || n == 0x2028 || n == 0x2029 || n == 0x202f || n == 0x205f || n == 0x3000
}

pub open spec fn trimmed_start(s: Seq<char>) -> Seq<char>
    decreases s.len(),
{
    if s.len() > 0 && is_space(s[0]) {
        trimmed_start(s.drop_first())
    } else {
        s
    }
}

pub open spec fn trimmed_end(s: Seq<char>) -> Seq<char>
    decreases s.len(),
{
    if s.len() > 0 && is_space(s.last()) {
        trimmed_end(s.drop_last())
    } else {
        s
    }
}

/// The text without white space at either end.
pub open spec fn trimmed(s: Seq<char>) -> Seq<char> {
    trimmed_end(trimmed_start(s))
}

pub fn trim_end(s: &str) -> (r: String)
    ensures
        r@ == trimmed_end(s@),
{
    let cs = chars(s);
    let mut j: usize = cs.len();
    proof {
        assert(cs@.take(j as int) =~= cs@);
    }
    while j > 0 && space(cs[j - 1])
        invariant
            j <= cs@.len(),
            trimmed_end(cs@.take(j as int)) == trimmed_end(cs@),
        decreases j,
    {
        proof {
            assert(cs@.take(j as int).drop_last() =~= cs@.take(j - 1));
        }
        j = j - 1;
    }
    proof {
        assert(cs@.subrange(0, j as int) =~= cs@.take(j as int));
    }
    slice(&cs, 0, j)
}

pub fn trim_start(s: &str) -> (r: String)
    ensures
        r@ == trimmed_start(s@),
{
    let cs = chars(s);
    let n: usize = cs.len();
    let mut i: usize = 0;
    proof {
        assert(cs@.skip(0) =~= cs@);
    }
    while i < n && space(cs[i])
        invariant
            i <= n == cs@.len(),
            trimmed_start(cs@.skip(i as int)) == trimmed_start(cs@),
        decreases n - i,
    {
        proof {
            assert(cs@.skip(i as int).drop_first() =~= cs@.skip(i + 1));
        }
        i = i + 1;
    }
    proof {
        assert(cs@.subrange(i as int, n as int) =~= cs@.skip(i as int));
    }
    slice(&cs, i, n)
}

pub fn trim(s: &str) -> (r: String)
    ensures
        r@ == trimmed(s@),
{
    let t = trim_start(s);
    trim_end(t.as_str())
}

/// Whether a string holds nothing but white space.
pub open spec fn is_blank(s: Seq<char>) -> bool {
    trimmed(s).len() == 0
}

pub fn blank(s: &str) -> (r: bool)
    ensures
        r == is_blank(s@),
{
    let t = trim(s);
    t.as_str().is_empty()
}

// ---------------------------------------------------------------------------
// Lines, splitting, joining
// ---------------------------------------------------------------------------
/// The line without a carriage return at its end.
pub open spec fn without_cr(s: Seq<char>) -> Seq<char> {
    if s.len() > 0 && s.last() == '\r' {
        s.drop_last()
    } else {
        s
    }
}

/// The lines of a text: each line feed ends a line, a carriage return before it
/// belongs to the line end, and a last line without a line feed counts if it
/// holds anything.
pub open spec fn lines(s: Seq<char>) -> Seq<Seq<char>>
    decreases s.len(),
{
    let k = until(s, '\n');
    if s.len() == 0 {
        Seq::empty()
    } else if k < 0 || k >= s.len() {
        seq![s]
    } else {
        seq![without_cr(s.take(k))] + lines(s.skip(k + 1))
    }
}

/// The parts of a text between the occurrences of `c`.
pub open spec fn split(s: Seq<char>, c: char) -> Seq<Seq<char>>
    decreases s.len(),
{
    let k = until(s, c);
    if k < 0 || k >= s.len() {
        seq![s]
    } else {
        seq![s.take(k)] + split(s.skip(k + 1), c)
    }
}

/// The parts in order with `sep` between each two.
pub open spec fn join(parts: Seq<Seq<char>>, sep: Seq<char>) -> Seq<char>
    decreases parts.len(),
{
    if parts.len() == 0 {
        Seq::empty()
    } else if parts.len() == 1 {
        parts[0]
    } else {
        join(parts.drop_last(), sep) + sep + parts.last()
    }
}

pub fn split_lines(s: &str) -> (r: Vec<String>)
    ensures
        texts(r@) == lines(s@),
{
    let cs = chars(s);
    let n: usize = cs.len();
    let mut r: Vec<String> = Vec::new();
    let mut i: usize = 0;
    proof {
        assert(cs@.skip(0) =~= cs@);
        assert(texts(r@) + lines(cs@.skip(0)) =~= lines(cs@));
    }
    while i < n
        invariant
            i <= n == cs@.len(),
            texts(r@) + lines(cs@.skip(i as int)) == lines(cs@),
        decreases n - i,
    {
        let ghost rest = cs@.skip(i as int);
        let ghost done = texts(r@);
        let k = find_char(&cs, '\n', i);
        if k == n {
            let t = slice(&cs, i, n);
            proof {
                assert(cs@.subrange(i as int, n as int) =~= rest);
                lemma_texts_push(r@, t);
                assert(cs@.skip(n as int) =~= Seq::<char>::empty());
                assert(lines(rest) == seq![rest]);
                assert(done.push(rest) + lines(cs@.skip(n as int)) =~= done + lines(rest));
            }
            r.push(t);
            i = n;
        } else {
            let e: usize = if k > i && cs[k - 1] == '\r' {
                k - 1
            } else {
                k
            };
            let t = slice(&cs, i, e);
            proof {
                lemma_texts_push(r@, t);
                let w = rest.take(k - i);
                assert(w.len() > 0 ==> w.last() == cs@[k - 1]);
                assert(cs@.subrange(i as int, e as int) =~= without_cr(w));
                assert(rest.skip(k - i + 1) =~= cs@.skip(k + 1));
                assert(done.push(t@) + lines(cs@.skip(k + 1)) =~= done + (seq![t@] + lines(
                    cs@.skip(k + 1),
                )));
            }
            r.push(t);
            i = k + 1;
        }
    }
    proof {
        assert(cs@.skip(n as int) =~= Seq::<char>::empty());
        assert(texts(r@) + lines(Seq::<char>::empty()) =~= texts(r@));
    }
    r
}

pub fn split_on(s: &str, c: char) -> (r: Vec<String>)
    ensures
        texts(r@) == split(s@, c),
{
    let cs = chars(s);
    let n: usize = cs.len();
    let mut r: Vec<String> = Vec::new();
    let mut i: usize = 0;
    proof {
        assert(cs@.skip(0) =~= cs@);
        assert(texts(r@) + split(cs@.skip(0), c) =~= split(cs@, c));
    }
    loop
        invariant
            i <= n == cs@.len(),
            texts(r@) + split(cs@.skip(i as int), c) == split(cs@, c),
        decreases n - i,
    {
        let ghost rest = cs@.skip(i as int);
        let ghost done = texts(r@);
        let k = find_char(&cs, c, i);
        let t = slice(&cs, i, k);
        proof {
            lemma_texts_push(r@, t);
            assert(t@ =~= rest.take(k - i));
        }
        r.push(t);
        if k == n {
            proof {
                assert(rest.take(k - i) =~= rest);
                assert(done.push(t@) =~= done + split(rest, c));
            }
            return r;
        }
        proof {
            assert(rest.skip(k - i + 1) =~= cs@.skip(k + 1));
            assert(done.push(t@) + split(cs@.skip(k + 1), c) =~= done + (seq![t@] + split(
                cs@.skip(k + 1),
                c,
            )));
        }
        i = k + 1;
    }
}

pub fn join_all(parts: &Vec<String>, sep: &str) -> (r: String)
    ensures
        r@ == join(texts(parts@), sep@),
{
    let n: usize = parts.len();
    join_range(parts, 0, n, sep)
}

/// The join of the parts from `from` up to, not including, `to`.
pub fn join_range(parts: &Vec<String>, from: usize, to: usize, sep: &str) -> (r: String)
    requires
        from <= to <= parts@.len(),
    ensures
        r@ == join(texts(parts@).subrange(from as int, to as int), sep@),
        from == 0 && to == parts@.len() ==> r@ == join(texts(parts@), sep@),
{
    let mut r = String::new();
    let mut i: usize = from;
    let ghost all = texts(parts@);
    while i < to
        invariant
            from <= i <= to <= parts@.len(),
            all == texts(parts@),
            r@ == join(all.subrange(from as int, i as int), sep@),
        decreases to - i,
    {
        let ghost sub = all.subrange(from as int, i + 1);
        proof {
            assert(sub.drop_last() =~= all.subrange(from as int, i as int));
            assert(sub.last() == parts@[i as int]@);
        }
        if i > from {
            r.append(sep);
        }
        r.append(parts[i].as_str());
        proof {
            if i == from {
                assert(sub.len() == 1);
                assert(r@ =~= sub[0]);
            }
        }
        i = i + 1;
    }
    proof {
        if from == 0 && to == parts@.len() {
            assert(all.subrange(0, to as int) =~= all);
        }
    }
    r
}

// ---------------------------------------------------------------------------
// Replacing
// ---------------------------------------------------------------------------
/// Every occurrence of `from`, found left to right without overlap, replaced.
pub open spec fn replaced(s: Seq<char>, from: Seq<char>, to: Seq<char>) -> Seq<char>
    decreases s.len(),
{
    if from.len() == 0 || s.len() < from.len() {
        s
    } else if has_prefix(s, from) {
        to + replaced(s.skip(from.len() as int), from, to)
    } else {
        seq![s[0]] + replaced(s.drop_first(), from, to)
    }
}

pub fn replace(s: &str, from: &str, to: &str) -> (r: String)
    requires
        from@.len() > 0,
    ensures
        r@ == replaced(s@, from@, to@),
{
    let cs = chars(s);
    let fs = chars(from);
    let n: usize = cs.len();
    let m: usize = fs.len();
    let mut r = String::new();
    let mut i: usize = 0;
    proof {
        assert(cs@.skip(0) =~= cs@);
        assert(r@ + replaced(cs@, from@, to@) =~= replaced(cs@, from@, to@));
    }
    while n - i >= m
        invariant
            i <= n == cs@.len(),
            0 < m == fs@.len(),
            fs@ == from@,
            r@ + replaced(cs@.skip(i as int), from@, to@) == replaced(cs@, from@, to@),
        decreases n - i,
    {
        let ghost rest = cs@.skip(i as int);
        let ghost done = r@;
        if matches_at(&cs, &fs, i) {
            proof {
                assert(rest.take(m as int) =~= cs@.subrange(i as int, i + m));
                assert(rest.skip(m as int) =~= cs@.skip(i + m));
            }
            r.append(to);
            proof {
                assert(r@ + replaced(cs@.skip(i + m), from@, to@) =~= done + (to@ + replaced(
                    cs@.skip(i + m),
                    from@,
                    to@,
                )));
            }
            i = i + m;
        } else {
            proof {
                assert(rest.take(m as int) =~= cs@.subrange(i as int, i + m));
                assert(rest.drop_first() =~= cs@.skip(i + 1));
            }
            r.push(cs[i]);
            proof {
                assert(r@ + replaced(cs@.skip(i + 1), from@, to@) =~= done + (seq![rest[0]]
                    + replaced(cs@.skip(i + 1), from@, to@)));
            }
            i = i + 1;
        }
    }
    let t = slice(&cs, i, n);
    proof {
        assert(t@ =~= cs@.skip(i as int));
    }
    r.append(t.as_str());
    r
}

// ---------------------------------------------------------------------------
// Order
// ---------------------------------------------------------------------------
/// The order of strings: by the first character in which they differ, and a
/// prefix before what it is a prefix of.
pub open spec fn lt(a: Seq<char>, b: Seq<char>) -> bool
    decreases a.len(),
{
    if b.len() == 0 {
        false
    } else if a.len() == 0 {
        true
    } else if a[0] != b[0] {
        (a[0] as int) < (b[0] as int)
    } else {
        lt(a.drop_first(), b.drop_first())
    }
}

pub proof fn lemma_lt_irreflexive(a: Seq<char>)
    ensures
        !lt(a, a),
    decreases a.len(),
{
    if a.len() > 0 {
        lemma_lt_irreflexive(a.drop_first());
    }
}

pub proof fn lemma_lt_total(a: Seq<char>, b: Seq<char>)
    ensures
        lt(a, b) || a == b || lt(b, a),
    decreases a.len(),
{
    if a.len() == 0 || b.len() == 0 {
        if a.len() == 0 && b.len() == 0 {
            assert(a =~= b);
        }
    } else if a[0] == b[0] {
        lemma_lt_total(a.drop_first(), b.drop_first());
        if a.drop_first() == b.drop_first() {
            assert(a =~= seq![a[0]] + a.drop_first());
            assert(b =~= seq![b[0]] + b.drop_first());
        }
    } else {
        assert(a[0] as int != b[0] as int);
    }
}

pub proof fn lemma_lt_transitive(a: Seq<char>, b: Seq<char>, c: Seq<char>)
    requires
        lt(a, b),
        lt(b, c),
    ensures
        lt(a, c),
    decreases a.len(),
{
    if a.len() > 0 && b.len() > 0 && c.len() > 0 && a[0] == b[0] && b[0] == c[0] {
        lemma_lt_transitive(a.drop_first(), b.drop_first(), c.drop_first());
    }
}

pub proof fn lemma_lt_asymmetric(a: Seq<char>, b: Seq<char>)
    requires
        lt(a, b),
    ensures
        !lt(b, a),
        a != b,
{
    lemma_lt_irreflexive(a);
    if lt(b, a) {
        lemma_lt_transitive(a, b, a);
    }
}

fn code(c: char) -> (n: u32)
    ensures
        n as int == c as int,
{
    c as u32
}

pub fn less(a: &str, b: &str) -> (r: bool)
    ensures
        r == lt(a@, b@),
{
    let x = chars(a);
    let y = chars(b);
    let mut i: usize = 0;
    proof {
        assert(x@.skip(0) =~= x@);
        assert(y@.skip(0) =~= y@);
    }
    while i < x.len() && i < y.len()
        invariant
            i <= x@.len(),
            i <= y@.len(),
            lt(x@.skip(i as int), y@.skip(i as int)) == lt(x@, y@),
        decreases x@.len() - i,
    {
        let ghost p = x@.skip(i as int);
        let ghost q = y@.skip(i as int);
        if x[i] != y[i] {
            proof {
                assert(p[0] == x@[i as int] && q[0] == y@[i as int]);
            }
            return code(x[i]) < code(y[i]);
        }
        proof {
            assert(p.drop_first() =~= x@.skip(i + 1));
            assert(q.drop_first() =~= y@.skip(i + 1));
        }
        i = i + 1;
    }
    i < y.len()
}

/// Whether a list is in strictly ascending order: sorted, nothing twice.
pub open spec fn ascending(s: Seq<Seq<char>>) -> bool {
    forall|i: int, j: int| 0 <= i < j < s.len() ==> lt(#[trigger] s[i], #[trigger] s[j])
}

/// Two ascending lists with the same members are the same list.
pub proof fn lemma_ascending_unique(a: Seq<Seq<char>>, b: Seq<Seq<char>>)
    requires
        ascending(a),
        ascending(b),
        forall|t: Seq<char>| a.contains(t) == b.contains(t),
    ensures
        a == b,
    decreases a.len(),
{
    if a.len() == 0 {
        if b.len() > 0 {
            assert(b.contains(b[0]));
        }
        assert(a =~= b);
    } else {
        assert(a.contains(a.last()));
        let j = b.index_of(a.last());
        assert(b.contains(b.last()));
        let i = a.index_of(b.last());
        if j < b.len() - 1 {
            assert(lt(b[j], b.last()));
            if i < a.len() - 1 {
                assert(lt(a[i], a.last()));
                lemma_lt_asymmetric(a.last(), b.last());
            } else {
                lemma_lt_irreflexive(a.last());
            }
        }
        assert(a.last() == b.last());
        let x = a.drop_last();
        let y = b.drop_last();
        assert forall|t: Seq<char>| x.contains(t) == y.contains(t) by {
            if x.contains(t) {
                let k = x.index_of(t);
                assert(a[k] == t);
                assert(lt(a[k], a.last()));
                lemma_lt_irreflexive(a.last());
                assert(a.contains(t));
                let m = b.index_of(t);
                assert(y[m] == t);
            }
            if y.contains(t) {
                let k = y.index_of(t);
                assert(b[k] == t);
                assert(lt(b[k], b.last()));
                lemma_lt_irreflexive(b.last());
                assert(b.contains(t));
                let m = a.index_of(t);
                assert(x[m] == t);
            }
        }
        lemma_ascending_unique(x, y);
        assert(a =~= x.push(a.last()));
        assert(b =~= y.push(b.last()));
    }
}

/// The strings of a list in order, each once.
pub fn sort_dedup(v: &Vec<String>) -> (r: Vec<String>)
    ensures
        ascending(texts(r@)),
        forall|t: Seq<char>| #[trigger] texts(r@).contains(t) == texts(v@).contains(t),
{
    let mut r: Vec<String> = Vec::new();
    let mut i: usize = 0;
    while i < v.len()
        invariant
            i <= v@.len(),
            ascending(texts(r@)),
            forall|t: Seq<char>| #[trigger]
                texts(r@).contains(t) == texts(v@).take(i as int).contains(t),
        decreases v@.len() - i,
    {
        let ghost before = texts(r@);
        let ghost item = v@[i as int]@;
        insert_text(&mut r, v[i].as_str());
        proof {
            assert forall|t: Seq<char>| #[trigger]
                texts(r@).contains(t) == texts(v@).take(i + 1).contains(t) by {
                let p = texts(v@).take(i as int);
                let q = texts(v@).take(i + 1);
                assert(q =~= p.push(item));
                if p.contains(t) {
                    let k = p.index_of(t);
                    assert(q[k] == t);
                }
                if q.contains(t) && t != item {
                    let k = q.index_of(t);
                    assert(p[k] == t);
                }
                assert(q[i as int] == item);
                assert(before.contains(t) == p.contains(t));
            }
        }
        i = i + 1;
    }
    proof {
        assert(texts(v@).take(i as int) =~= texts(v@));
    }
    r
}

/// Puts a text into an ascending list at its place, unless it is there.
pub fn insert_text(r: &mut Vec<String>, s: &str)
    requires
        ascending(texts(old(r)@)),
    ensures
        ascending(texts(final(r)@)),
        forall|t: Seq<char>| #[trigger]
            texts(final(r)@).contains(t) == (texts(old(r)@).contains(t) || t == s@),
{
    let ghost before = texts(r@);
    let mut k: usize = 0;
    while k < r.len() && less(r[k].as_str(), s)
        invariant
            k <= r@.len(),
            texts(r@) == before,
            forall|j: int| 0 <= j < k ==> lt(#[trigger] before[j], s@),
        decreases r@.len() - k,
    {
        k = k + 1;
    }
    if k < r.len() && same(r[k].as_str(), s) {
        proof {
            assert(before[k as int] == s@);
        }
        return;
    }
    let item = copy(s);
    r.insert(k, item);
    proof {
        let after = texts(r@);
        assert(after =~= before.insert(k as int, s@));
        if k < before.len() {
            lemma_lt_total(before[k as int], s@);
            assert(lt(s@, before[k as int]));
        }
        assert forall|i: int, j: int| 0 <= i < j < after.len() implies lt(
            #[trigger] after[i],
            #[trigger] after[j],
        ) by {
            if j < k {
                assert(after[i] == before[i] && after[j] == before[j]);
            } else if j == k {
                assert(after[i] == before[i]);
            } else {
                assert(after[j] == before[j - 1]);
                if i < k {
                    assert(after[i] == before[i]);
                    assert(lt(before[i], before[j - 1]));
                } else if i == k {
                    if j - 1 > k {
                        assert(lt(before[k as int], before[j - 1]));
                        lemma_lt_transitive(s@, before[k as int], before[j - 1]);
                    }
                } else {
                    assert(after[i] == before[i - 1]);
                    assert(lt(before[i - 1], before[j - 1]));
                }
            }
        }
        assert forall|t: Seq<char>| #[trigger]
            after.contains(t) == (before.contains(t) || t == s@) by {
            if before.contains(t) {
                let j = before.index_of(t);
                if j < k {
                    assert(after[j] == t);
                } else {
                    assert(after[j + 1] == t);
                }
            }
            assert(after[k as int] == s@);
            if after.contains(t) {
                let j = after.index_of(t);
                if j < k {
                    assert(before[j] == t);
                } else if j > k {
                    assert(before[j - 1] == t);
                }
            }
        }
    }
}

// ---------------------------------------------------------------------------
// Numbers in decimal
// ---------------------------------------------------------------------------
pub open spec fn is_digit(c: char) -> bool {
    '0' as int <= c as int <= '9' as int
}

pub open spec fn digit_of(c: char) -> int {
    c as int - '0' as int
}

pub open spec fn digit_char(d: int) -> char {
    ((48 + d) as u8) as char
}

pub open spec fn all_digits(s: Seq<char>) -> bool {
    forall|i: int| 0 <= i < s.len() ==> is_digit(#[trigger] s[i])
}

pub fn digit(c: char) -> (r: bool)
    ensures
        r == is_digit(c),
{
    let n: u32 = c as u32;
    48 <= n && n <= 57
}

pub fn only_digits(s: &str) -> (r: bool)
    ensures
        r == all_digits(s@),
{
    let cs = chars(s);
    let mut i: usize = 0;
    while i < cs.len()
        invariant
            i <= cs@.len(),
            forall|j: int| 0 <= j < i ==> is_digit(#[trigger] cs@[j]),
        decreases cs@.len() - i,
    {
        if !digit(cs[i]) {
            proof {
                assert(!is_digit(cs@[i as int]));
            }
            return false;
        }
        i = i + 1;
    }
    true
}

/// A number in decimal digits, without leading zeros.
pub open spec fn decimal(n: nat) -> Seq<char>
    decreases n,
{
    if n < 10 {
        seq![digit_char(n as int)]
    } else {
        decimal(n / 10).push(digit_char((n % 10) as int))
    }
}

/// A text filled with zeros on the left up to a width.
pub open spec fn zero_padded(s: Seq<char>, width: nat) -> Seq<char>
    decreases width - s.len(),
{
    if s.len() >= width {
        s
    } else {
        zero_padded(seq!['0'] + s, width)
    }
}

pub fn to_decimal(n: u64) -> (r: String)
    ensures
        r@ == decimal(n as nat),
    decreases n,
{
    let d: u8 = (n % 10) as u8;
    let c: char = (48u8 + d) as char;
    if n < 10 {
        let mut r = String::new();
        r.push(c);
        proof {
            assert(r@ =~= seq![digit_char(n as int)]);
        }
        r
    } else {
        let mut r = to_decimal(n / 10);
        r.push(c);
        r
    }
}

pub fn pad_zeros(s: &str, width: usize) -> (r: String)
    ensures
        r@ == zero_padded(s@, width as nat),
    decreases width - s@.len(),
{
    let cs = chars(s);
    if cs.len() >= width {
        copy(s)
    } else {
        let t = cat("0", s);
        proof {
            reveal_strlit("0");
            assert("0"@ =~= seq!['0']);
        }
        pad_zeros(t.as_str(), width)
    }
}

/// Why a text is no number.
#[derive(Clone, Copy, Debug, PartialEq, Eq, Structural)]
pub enum NumberError {
    Empty,
    InvalidDigit,
    TooLarge,
}

/// The number that a text of digits writes, read from the left: the first
/// character that is no digit, or that takes the number past `max`, decides
/// the error.
pub open spec fn scanned(s: Seq<char>, max: int) -> Result<int, NumberError>
    decreases s.len(),
{
    if s.len() == 0 {
        Ok(0)
    } else {
        match scanned(s.drop_last(), max) {
            Err(e) => Err(e),
            Ok(v) => if !is_digit(s.last()) {
                Err(NumberError::InvalidDigit)
            } else if v * 10 + digit_of(s.last()) > max {
                Err(NumberError::TooLarge)
            } else {
                Ok(v * 10 + digit_of(s.last()))
            },
        }
    }
}

/// An unsigned number up to `max`, with an optional plus sign.
pub open spec fn parsed_unsigned(s: Seq<char>, max: int) -> Result<int, NumberError> {
    if s.len() == 0 {
        Err(NumberError::Empty)
    } else if s.len() == 1 && (s[0] == '+' || s[0] == '-') {
        Err(NumberError::InvalidDigit)
    } else if s[0] == '+' {
        scanned(s.drop_first(), max)
    } else {
        scanned(s, max)
    }
}

/// A signed number of 64 bits, with an optional sign.
pub open spec fn parsed_signed(s: Seq<char>) -> Option<int> {
    if s.len() > 1 && s[0] == '-' {
        match scanned(s.drop_first(), 0x8000_0000_0000_0000) {
            Ok(v) => Some(-v),
            Err(_) => None,
        }
    } else {
        match parsed_unsigned(s, 0x7fff_ffff_ffff_ffff) {
            Ok(v) => Some(v),
            Err(_) => None,
        }
    }
}

pub fn scan(cs: &Vec<char>, from: usize, max: u64) -> (r: Result<u64, NumberError>)
    requires
        from <= cs@.len(),
    ensures
        match r {
            Ok(v) => scanned(cs@.skip(from as int), max as int) == Ok::<int, NumberError>(v as int),
            Err(e) => scanned(cs@.skip(from as int), max as int) == Err::<int, NumberError>(e),
        },
{
    let mut v: u64 = 0;
    let mut i: usize = from;
    let ghost rest = cs@.skip(from as int);
    let n: usize = cs.len();
    proof {
        assert(rest.take(0) =~= Seq::<char>::empty());
    }
    while i < n
        invariant
            from <= i <= n == cs@.len(),
            rest == cs@.skip(from as int),
            v <= max,
            scanned(rest.take(i - from), max as int) == Ok::<int, NumberError>(v as int),
        decreases n - i,
    {
        let c = cs[i];
        let ghost head = rest.take(i - from + 1);
        proof {
            assert(head.drop_last() =~= rest.take(i - from));
            assert(head.last() == c);
        }
        if !digit(c) {
            proof {
                lemma_scanned_error(rest, max as int, i - from + 1);
            }
            return Err(NumberError::InvalidDigit);
        }
        let d: u64 = (c as u32 - 48) as u64;
        if v > u64::MAX / 10 || v * 10 > u64::MAX - d || v * 10 + d > max {
            proof {
                assert(v * 10 + d > max);
                lemma_scanned_error(rest, max as int, i - from + 1);
            }
            return Err(NumberError::TooLarge);
        }
        v = v * 10 + d;
        i = i + 1;
    }
    proof {
        assert(rest.take(n - from) =~= rest);
    }
    Ok(v)
}

/// An error in a prefix is the error of the whole.
proof fn lemma_scanned_error(s: Seq<char>, max: int, k: int)
    requires
        0 <= k <= s.len(),
        scanned(s.take(k), max) is Err,
    ensures
        scanned(s, max) == scanned(s.take(k), max),
    decreases s.len(),
{
    if k < s.len() {
        assert(s.drop_last().take(k) =~= s.take(k));
        lemma_scanned_error(s.drop_last(), max, k);
    } else {
        assert(s.take(k) =~= s);
    }
}

pub fn parse_unsigned(s: &str, max: u64) -> (r: Result<u64, NumberError>)
    ensures
        match r {
            Ok(v) => parsed_unsigned(s@, max as int) == Ok::<int, NumberError>(v as int),
            Err(e) => parsed_unsigned(s@, max as int) == Err::<int, NumberError>(e),
        },
{
    let cs = chars(s);
    let n: usize = cs.len();
    if n == 0 {
        return Err(NumberError::Empty);
    }
    if n == 1 && (cs[0] == '+' || cs[0] == '-') {
        return Err(NumberError::InvalidDigit);
    }
    proof {
        assert(cs@.skip(1) =~= cs@.drop_first());
        assert(cs@.skip(0) =~= cs@);
    }
    if cs[0] == '+' {
        scan(&cs, 1, max)
    } else {
        scan(&cs, 0, max)
    }
}

pub fn parse_signed(s: &str) -> (r: Option<i64>)
    ensures
        match r {
            Some(v) => parsed_signed(s@) == Some(v as int),
            None => parsed_signed(s@) is None,
        },
{
    let cs = chars(s);
    let n: usize = cs.len();
    if n > 1 && cs[0] == '-' {
        proof {
            assert(cs@.skip(1) =~= cs@.drop_first());
            lemma_scanned_bound(cs@.drop_first(), 0x8000_0000_0000_0000);
        }
        match scan(&cs, 1, 0x8000_0000_0000_0000) {
            Ok(v) => {
                if v == 0x8000_0000_0000_0000 {
                    Some(i64::MIN)
                } else {
                    Some(-(v as i64))
                }
            },
            Err(_) => None,
        }
    } else {
        proof {
            lemma_parsed_bound(s@, 0x7fff_ffff_ffff_ffff);
        }
        match parse_unsigned(s, 0x7fff_ffff_ffff_ffff) {
            Ok(v) => Some(v as i64),
            Err(_) => None,
        }
    }
}

/// Reading back a number in decimal gives the number.
pub proof fn lemma_decimal_scanned(n: nat, max: int)
    requires
        n <= max,
    ensures
        scanned(decimal(n), max) == Ok::<int, NumberError>(n as int),
        all_digits(decimal(n)),
        decimal(n).len() > 0,
    decreases n,
{
    let d = (n % 10) as int;
    assert(is_digit(digit_char(d)) && digit_of(digit_char(d)) == d);
    if n < 10 {
        assert(decimal(n).drop_last() =~= Seq::<char>::empty());
        assert(scanned(Seq::<char>::empty(), max) == Ok::<int, NumberError>(0));
    } else {
        lemma_decimal_scanned(n / 10, max);
        assert(decimal(n).drop_last() =~= decimal(n / 10));
    }
}

/// Zeros on the left do not change the number.
pub proof fn lemma_zero_scanned(s: Seq<char>, max: int)
    requires
        max >= 0,
    ensures
        scanned(seq!['0'] + s, max) == scanned(s, max),
    decreases s.len(),
{
    let t = seq!['0'] + s;
    if s.len() == 0 {
        assert(t.drop_last() =~= Seq::<char>::empty());
        assert(t.last() == '0');
        assert(scanned(Seq::<char>::empty(), max) == Ok::<int, NumberError>(0));
    } else {
        assert(t.drop_last() =~= seq!['0'] + s.drop_last());
        lemma_zero_scanned(s.drop_last(), max);
    }
}

pub proof fn lemma_padded_scanned(s: Seq<char>, width: nat, max: int)
    requires
        max >= 0,
        all_digits(s),
    ensures
        scanned(zero_padded(s, width), max) == scanned(s, max),
        all_digits(zero_padded(s, width)),
        zero_padded(s, width).len() >= s.len(),
    decreases width - s.len(),
{
    if s.len() < width {
        let t = seq!['0'] + s;
        assert(all_digits(t));
        lemma_padded_scanned(t, width, max);
        lemma_zero_scanned(s, max);
    }
}

/// A number that was read lies within its bound.
pub proof fn lemma_scanned_bound(s: Seq<char>, max: int)
    requires
        max >= 0,
    ensures
        scanned(s, max) matches Ok(v) ==> 0 <= v <= max,
    decreases s.len(),
{
    if s.len() > 0 {
        lemma_scanned_bound(s.drop_last(), max);
    }
}

pub proof fn lemma_parsed_bound(s: Seq<char>, max: int)
    requires
        max >= 0,
    ensures
        parsed_unsigned(s, max) matches Ok(v) ==> 0 <= v <= max,
{
    if s.len() > 0 {
        lemma_scanned_bound(s, max);
        lemma_scanned_bound(s.drop_first(), max);
    }
}

// ---------------------------------------------------------------------------
// Lines of a concatenation
// ---------------------------------------------------------------------------
/// Text up to a line feed and text after it have their lines one after the other.
pub proof fn lemma_lines_cat(a: Seq<char>, b: Seq<char>)
    ensures
        lines(a + seq!['\n'] + b) == lines(a + seq!['\n']) + lines(b),
    decreases a.len(),
{
    let x = a + seq!['\n'];
    let s = x + b;
    let k = until(s, '\n');
    lemma_until(s, '\n');
    assert(s[a.len() as int] == '\n');
    assert(k <= a.len());
    assert forall|i: int| 0 <= i < k implies x[i] != '\n' by {
        assert(x[i] == s[i]);
    }
    assert(x[k] == s[k]);
    lemma_until_is(x, '\n', k);
    assert(s.take(k) =~= x.take(k));
    if k == a.len() {
        assert(s.skip(k + 1) =~= b);
        assert(x.skip(k + 1) =~= Seq::<char>::empty());
        assert(lines(x.skip(k + 1)) == Seq::<Seq<char>>::empty());
        assert(lines(x) =~= seq![without_cr(x.take(k))]);
    } else {
        let a2 = a.skip(k + 1);
        assert(s.skip(k + 1) =~= a2 + seq!['\n'] + b);
        assert(x.skip(k + 1) =~= a2 + seq!['\n']);
        lemma_lines_cat(a2, b);
        assert(lines(s) =~= lines(x) + lines(b));
    }
}

/// A line feed and a text without one after it: that text is the last line.
pub proof fn lemma_last_line(a: Seq<char>, b: Seq<char>)
    requires
        forall|i: int| 0 <= i < b.len() ==> b[i] != '\n',
        b.len() > 0,
    ensures
        lines(a + seq!['\n'] + b).len() > 0,
        lines(a + seq!['\n'] + b).last() == b,
{
    lemma_lines_cat(a, b);
    lemma_until_is(b, '\n', b.len() as int);
    assert(lines(b) == seq![b]);
}

pub proof fn lemma_split_nonempty(s: Seq<char>, c: char)
    ensures
        split(s, c).len() > 0,
{
}

// ---------------------------------------------------------------------------
// Letters
// ---------------------------------------------------------------------------
/// A letter A to Z in lower case; any other character as it is.
pub open spec fn lower_char(c: char) -> char {
    if 65 <= c as int <= 90 {
        (c as int + 32) as char
    } else {
        c
    }
}

pub open spec fn ascii_lowered(s: Seq<char>) -> Seq<char> {
    Seq::new(s.len(), |i: int| lower_char(s[i]))
}

fn lower_one(c: char) -> (r: char)
    ensures
        r == lower_char(c),
{
    let n: u32 = c as u32;
    if 65 <= n && n <= 90 {
        (n as u8 + 32u8) as char
    } else {
        c
    }
}

pub fn ascii_lower(s: &str) -> (r: String)
    ensures
        r@ == ascii_lowered(s@),
{
    let cs = chars(s);
    let mut r = String::new();
    let mut i: usize = 0;
    while i < cs.len()
        invariant
            i <= cs@.len(),
            r@ == ascii_lowered(s@).take(i as int),
        decreases cs@.len() - i,
    {
        r.push(lower_one(cs[i]));
        proof {
            assert(r@ =~= ascii_lowered(s@).take(i + 1));
        }
        i = i + 1;
    }
    proof {
        assert(ascii_lowered(s@).take(i as int) =~= ascii_lowered(s@));
    }
    r
}

pub proof fn lemma_assoc(a: Seq<char>, b: Seq<char>, c: Seq<char>)
    ensures
        a + b + c == a + (b + c),
{
    assert(a + b + c =~= a + (b + c));
}

// ---------------------------------------------------------------------------
// Dropping a character at both ends
// ---------------------------------------------------------------------------
pub open spec fn stripped_start(s: Seq<char>, c: char) -> Seq<char>
    decreases s.len(),
{
    if s.len() > 0 && s[0] == c {
        stripped_start(s.drop_first(), c)
    } else {
        s
    }
}

pub open spec fn stripped_end(s: Seq<char>, c: char) -> Seq<char>
    decreases s.len(),
{
    if s.len() > 0 && s.last() == c {
        stripped_end(s.drop_last(), c)
    } else {
        s
    }
}

/// The text without the character at either end, however often it stands there.
pub open spec fn stripped(s: Seq<char>, c: char) -> Seq<char> {
    stripped_end(stripped_start(s, c), c)
}

pub fn strip_char(s: &str, c: char) -> (r: String)
    ensures
        r@ == stripped(s@, c),
{
    let cs = chars(s);
    let n: usize = cs.len();
    let mut i: usize = 0;
    proof {
        assert(cs@.skip(0) =~= cs@);
    }
    while i < n && cs[i] == c
        invariant
            i <= n == cs@.len(),
            stripped_start(cs@.skip(i as int), c) == stripped_start(cs@, c),
        decreases n - i,
    {
        proof {
            assert(cs@.skip(i as int).drop_first() =~= cs@.skip(i + 1));
        }
        i = i + 1;
    }
    let ghost head = cs@.skip(i as int);
    let mut j: usize = n;
    proof {
        assert(head.take(j - i) =~= head);
    }
    while j > i && cs[j - 1] == c
        invariant
            i <= j <= n == cs@.len(),
            head == cs@.skip(i as int),
            stripped_end(head.take(j - i), c) == stripped_end(head, c),
        decreases j,
    {
        proof {
            assert(head.take(j - i).last() == cs@[j - 1]);
            assert(head.take(j - i).drop_last() =~= head.take(j - i - 1));
        }
        j = j - 1;
    }
    proof {
        if j > i {
            assert(head.take(j - i).last() == cs@[j - 1]);
        }
        assert(cs@.subrange(i as int, j as int) =~= head.take(j - i));
    }
    slice(&cs, i, j)
}

// ---------------------------------------------------------------------------
// Positions counted in bytes
// ---------------------------------------------------------------------------
/// The number of bytes that a character takes in UTF-8.
pub open spec fn width(c: char) -> int {
    let n = c as int;
    if n < 0x80 {
        1
    } else if n < 0x800 {
        2
    } else if n < 0x10000 {
        3
    } else {
        4
    }
}

/// The number of characters in the first `n` bytes, if these end with a
/// character.
pub open spec fn char_at_byte(s: Seq<char>, n: int) -> Option<int>
    decreases s.len(),
{
    if n == 0 {
        Some(0)
    } else if n < 0 || s.len() == 0 {
        None
    } else {
        match char_at_byte(s.drop_first(), n - width(s[0])) {
            Some(i) => Some(i + 1),
            None => None,
        }
    }
}

fn width_of(c: char) -> (r: usize)
    ensures
        r == width(c),
        1 <= r <= 4,
{
    let n: u32 = c as u32;
    if n < 0x80 {
        1
    } else if n < 0x800 {
        2
    } else if n < 0x10000 {
        3
    } else {
        4
    }
}

pub fn byte_position(cs: &Vec<char>, n: usize) -> (r: Option<usize>)
    ensures
        match r {
            Some(i) => i <= cs@.len() && char_at_byte(cs@, n as int) == Some(i as int),
            None => char_at_byte(cs@, n as int) is None,
        },
{
    let mut left: usize = n;
    let mut i: usize = 0;
    proof {
        assert(cs@.skip(0) =~= cs@);
    }
    while i < cs.len() && left > 0
        invariant
            i <= cs@.len(),
            match char_at_byte(cs@.skip(i as int), left as int) {
                Some(k) => char_at_byte(cs@, n as int) == Some(k + i),
                None => char_at_byte(cs@, n as int) is None,
            },
        decreases cs@.len() - i,
    {
        let w = width_of(cs[i]);
        proof {
            assert(cs@.skip(i as int).drop_first() =~= cs@.skip(i + 1));
        }
        if w > left {
            proof {
                assert(char_at_byte(cs@.skip(i + 1), left - w) is None);
            }
            return None;
        }
        left = left - w;
        i = i + 1;
    }
    if left == 0 {
        Some(i)
    } else {
        None
    }
}

/// More bytes hold no fewer characters.
pub proof fn lemma_byte_order(s: Seq<char>, a: int, b: int)
    requires
        0 <= a <= b,
        char_at_byte(s, a) is Some,
        char_at_byte(s, b) is Some,
    ensures
        0 <= char_at_byte(s, a)->0 <= char_at_byte(s, b)->0 <= s.len(),
    decreases s.len(),
{
    if b > 0 && s.len() > 0 {
        let w = width(s[0]);
        let d = s.drop_first();
        if a > 0 {
            lemma_byte_order(d, a - w, b - w);
        } else {
            lemma_byte_order(d, b - w, b - w);
        }
    }
}

// ---------------------------------------------------------------------------
// Case and quotes, by std
// ---------------------------------------------------------------------------
/// A letter a to z in upper case; any other character as it is.
pub open spec fn upper_char(c: char) -> char {
    if 97 <= c as int <= 122 {
        (c as int - 32) as char
    } else {
        c
    }
}

pub open spec fn ascii_uppered(s: Seq<char>) -> Seq<char> {
    Seq::new(s.len(), |i: int| upper_char(s[i]))
}

pub open spec fn is_ascii(s: Seq<char>) -> bool {
    forall|i: int| 0 <= i < s.len() ==> (#[trigger] s[i] as int) < 128
}

/// What `str::to_uppercase` gives.
pub uninterp spec fn uppered(s: Seq<char>) -> Seq<char>;

/// What `str::to_lowercase` gives.
pub uninterp spec fn lowered(s: Seq<char>) -> Seq<char>;

/// What `Debug` shows for a list of strings.
pub uninterp spec fn debugged(l: Seq<Seq<char>>) -> Seq<char>;

/// `str::to_uppercase`, by the Unicode property `Uppercase`. The result is named
/// `uppered`; a text of ASCII characters has its letters in upper case.
#[verifier::external_body]
pub(crate) fn to_upper(s: &str) -> (r: String)
    ensures
        r@ == uppered(s@),
        is_ascii(s@) ==> r@ == ascii_uppered(s@),
{
    s.to_uppercase()
}

/// `str::to_lowercase`, by the Unicode property `Lowercase`. The result is named
/// `lowered`; a text of ASCII characters has its letters in lower case.
#[verifier::external_body]
pub(crate) fn to_lower(s: &str) -> (r: String)
    ensures
        r@ == lowered(s@),
        is_ascii(s@) ==> r@ == ascii_lowered(s@),
{
    s.to_lowercase()
}

/// `Debug` of a list of strings: brackets, and each string in quotes with
/// escapes. The result is named `debugged`.
#[verifier::external_body]
pub(crate) fn debug_list(l: &Vec<String>) -> (r: String)
    ensures
        r@ == debugged(texts(l@)),
{
    format!("{l:?}")
}

/// What `Debug` shows for a string.
pub uninterp spec fn debugged_one(s: Seq<char>) -> Seq<char>;

/// `Debug` of a string: in quotes, with escapes. The result is named
/// `debugged_one`.
#[verifier::external_body]
pub(crate) fn debug_text(s: &str) -> (r: String)
    ensures
        r@ == debugged_one(s@),
{
    format!("{s:?}")
}

} // verus!
