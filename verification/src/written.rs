//! How the front matter writes its scalars. A text is taken as it is written,
//! also where YAML reads a number, a truth value or null.
use crate::text::{self, opt_text, split, texts, trimmed};
use crate::yaml::{parsed_yaml, read_yaml, Yaml, YamlView};
use vstd::prelude::*;

verus! {

broadcast use vstd::string::group_string_axioms;

/// Whether a comment begins at a place.
pub open spec fn is_comment(s: Seq<char>, i: int) -> bool {
    s[i] == '#' && (i == 0 || s[i - 1] == ' ' || s[i - 1] == '\t')
}

/// Where the first comment from the place `i` on begins; the end where there is
/// none.
pub open spec fn comment_start(s: Seq<char>, i: int) -> int
    decreases s.len() - i,
{
    if i < 0 || i >= s.len() {
        s.len() as int
    } else if is_comment(s, i) {
        i
    } else {
        comment_start(s, i + 1)
    }
}

proof fn lemma_comment_start(s: Seq<char>, i: int)
    requires
        0 <= i <= s.len(),
    ensures
        i <= comment_start(s, i) <= s.len(),
    decreases s.len() - i,
{
    if i < s.len() {
        lemma_comment_start(s, i + 1);
    }
}

/// A text without the comment after it, and without white space at its ends.
pub open spec fn uncommented(s: Seq<char>) -> Seq<char> {
    trimmed(s.take(comment_start(s, 0)))
}

fn without_comment(s: &str) -> (r: String)
    ensures
        r@ == uncommented(s@),
{
    let cs = text::chars(s);
    let mut i: usize = 0;
    proof {
        lemma_comment_start(s@, 0);
    }
    while i < cs.len() && !(cs[i] == '#' && (i == 0 || cs[i - 1] == ' ' || cs[i - 1] == '\t'))
        invariant
            i <= cs@.len(),
            cs@ == s@,
            comment_start(s@, i as int) == comment_start(s@, 0),
        decreases cs@.len() - i,
    {
        i = i + 1;
    }
    let t = text::slice(&cs, 0, i);
    proof {
        assert(t@ =~= s@.take(comment_start(s@, 0)));
    }
    text::trim(t.as_str())
}

/// The first line from the place `i` on that gives a key.
pub open spec fn key_line(ls: Seq<Seq<char>>, key: Seq<char>, i: int) -> Option<int>
    decreases ls.len() - i,
{
    if i < 0 || i >= ls.len() {
        None
    } else if text::has_prefix(ls[i], key + ":"@) {
        Some(i)
    } else {
        key_line(ls, key, i + 1)
    }
}

fn seek_key(ls: &Vec<String>, key: &str, from: usize) -> (r: Option<usize>)
    requires
        from <= ls@.len(),
    ensures
        match r {
            Some(k) => key_line(texts(ls@), key@, from as int) == Some(k as int) && k < ls@.len(),
            None => key_line(texts(ls@), key@, from as int) is None,
        },
{
    let ghost all = texts(ls@);
    let head = text::cat(key, ":");
    let mut i: usize = from;
    while i < ls.len()
        invariant
            i <= ls@.len(),
            all == texts(ls@),
            head@ == key@ + ":"@,
            key_line(all, key@, i as int) == key_line(all, key@, from as int),
        decreases ls@.len() - i,
    {
        if text::starts_with(ls[i].as_str(), head.as_str()) {
            return Some(i);
        }
        i = i + 1;
    }
    None
}

/// Whether a key is given on two lines.
pub open spec fn given_twice(ls: Seq<Seq<char>>, key: Seq<char>) -> bool {
    match key_line(ls, key, 0) {
        Some(k) => key_line(ls, key, k + 1) is Some,
        None => false,
    }
}

pub fn is_given_twice(ls: &Vec<String>, key: &str) -> (r: bool)
    ensures
        r == given_twice(texts(ls@), key@),
{
    proof {
        lemma_key_line(texts(ls@), key@, 0);
    }
    let n: usize = ls.len();
    match seek_key(ls, key, 0) {
        Some(k) => k < n && seek_key(ls, key, k + 1).is_some(),
        None => false,
    }
}

/// What stands on a line after a key.
pub open spec fn after_key(l: Seq<char>, key: Seq<char>) -> Seq<char> {
    uncommented(l.skip((key + ":"@).len() as int))
}

fn rest_of_line(l: &str, key: &str) -> (r: String)
    requires
        text::has_prefix(l@, key@ + ":"@),
    ensures
        r@ == after_key(l@, key@),
{
    let head = text::cat(key, ":");
    let hs = text::chars(head.as_str());
    let cs = text::chars(l);
    let t = text::slice(&cs, hs.len(), cs.len());
    proof {
        assert(t@ =~= l@.skip((key@ + ":"@).len() as int));
    }
    without_comment(t.as_str())
}

proof fn lemma_key_line(ls: Seq<Seq<char>>, key: Seq<char>, i: int)
    ensures
        key_line(ls, key, i) matches Some(k) ==> 0 <= k < ls.len() && text::has_prefix(
            ls[k],
            key + ":"@,
        ),
    decreases ls.len() - i,
{
    if 0 <= i < ls.len() && !text::has_prefix(ls[i], key + ":"@) {
        lemma_key_line(ls, key, i + 1);
    }
}

/// How the value of a key is written, where it stands on one line with it.
pub open spec fn written_value(ls: Seq<Seq<char>>, key: Seq<char>) -> Option<Seq<char>> {
    match key_line(ls, key, 0) {
        Some(k) => Some(after_key(ls[k], key)),
        None => None,
    }
}

pub fn value_as_written(ls: &Vec<String>, key: &str) -> (r: Option<String>)
    ensures
        opt_text(r) == written_value(texts(ls@), key@),
{
    proof {
        lemma_key_line(texts(ls@), key@, 0);
    }
    match seek_key(ls, key, 0) {
        Some(k) => Some(rest_of_line(ls[k].as_str(), key)),
        None => None,
    }
}

/// How the items of a list are written, one on each line from the place `i` on;
/// blank lines and comments may stand between them.
pub open spec fn dashed(ls: Seq<Seq<char>>, i: int) -> Seq<Seq<char>>
    decreases ls.len() - i,
{
    if i < 0 || i >= ls.len() {
        Seq::empty()
    } else {
        let t = trimmed(ls[i]);
        if text::has_prefix(t, "- "@) {
            seq![uncommented(t.skip(2))] + dashed(ls, i + 1)
        } else if t == "-"@ {
            seq![Seq::<char>::empty()] + dashed(ls, i + 1)
        } else if t.len() == 0 || t[0] == '#' {
            dashed(ls, i + 1)
        } else {
            Seq::empty()
        }
    }
}

fn dashed_items(ls: &Vec<String>, from: usize) -> (r: Vec<String>)
    requires
        from <= ls@.len(),
    ensures
        texts(r@) == dashed(texts(ls@), from as int),
{
    let ghost all = texts(ls@);
    let ghost goal = dashed(all, from as int);
    let mut out: Vec<String> = Vec::new();
    let mut i: usize = from;
    proof {
        reveal_strlit("- ");
        assert(texts(out@) + goal =~= goal);
    }
    while i < ls.len()
        invariant
            from <= i <= ls@.len(),
            all == texts(ls@),
            "- "@.len() == 2,
            texts(out@) + dashed(all, i as int) == goal,
        decreases ls@.len() - i,
    {
        let t = text::trim(ls[i].as_str());
        let cs = text::chars(t.as_str());
        proof {
            assert(all[i as int] == ls@[i as int]@);
        }
        if text::starts_with(t.as_str(), "- ") {
            let u = text::slice(&cs, 2, cs.len());
            proof {
                assert(u@ =~= t@.skip(2));
            }
            let w = without_comment(u.as_str());
            let ghost before = texts(out@);
            let ghost rest = dashed(all, i + 1);
            proof {
                text::lemma_texts_push(out@, w);
                assert(before.push(w@) + rest =~= before + (seq![w@] + rest));
            }
            out.push(w);
        } else if text::same(t.as_str(), "-") {
            let w = String::new();
            let ghost before = texts(out@);
            let ghost rest = dashed(all, i + 1);
            proof {
                assert(w@ =~= Seq::<char>::empty());
                text::lemma_texts_push(out@, w);
                assert(before.push(w@) + rest =~= before + (seq![w@] + rest));
            }
            out.push(w);
        } else if cs.len() == 0 || cs[0] == '#' {
        } else {
            proof {
                assert(texts(out@) + Seq::<Seq<char>>::empty() =~= texts(out@));
            }
            return out;
        }
        i = i + 1;
    }
    proof {
        assert(texts(out@) + Seq::<Seq<char>>::empty() =~= texts(out@));
    }
    out
}

pub open spec fn each_trimmed(l: Seq<Seq<char>>) -> Seq<Seq<char>> {
    Seq::new(l.len(), |i: int| trimmed(l[i]))
}

fn trim_each(l: &Vec<String>) -> (r: Vec<String>)
    ensures
        texts(r@) == each_trimmed(texts(l@)),
{
    let ghost goal = each_trimmed(texts(l@));
    let mut out: Vec<String> = Vec::new();
    let mut i: usize = 0;
    proof {
        assert(texts(out@) =~= goal.take(0));
    }
    while i < l.len()
        invariant
            i <= l@.len(),
            goal == each_trimmed(texts(l@)),
            texts(out@) == goal.take(i as int),
        decreases l@.len() - i,
    {
        let s = text::trim(l[i].as_str());
        proof {
            text::lemma_texts_push(out@, s);
            assert(goal.take(i + 1) =~= goal.take(i as int).push(goal[i as int]));
        }
        out.push(s);
        i = i + 1;
    }
    proof {
        assert(goal.take(i as int) =~= goal);
    }
    out
}

/// How the items of a key's list are written: on lines of their own after it,
/// or between brackets on its line.
pub open spec fn written_items(ls: Seq<Seq<char>>, key: Seq<char>) -> Seq<Seq<char>> {
    match key_line(ls, key, 0) {
        Some(k) => {
            let rest = after_key(ls[k], key);
            if rest.len() == 0 {
                dashed(ls, k + 1)
            } else if rest.len() > 1 && rest[0] == '[' && rest.last() == ']' {
                each_trimmed(split(rest.subrange(1, rest.len() - 1), ','))
            } else {
                Seq::empty()
            }
        },
        None => Seq::empty(),
    }
}

pub fn items_as_written(ls: &Vec<String>, key: &str) -> (r: Vec<String>)
    ensures
        texts(r@) == written_items(texts(ls@), key@),
{
    let none: Vec<String> = Vec::new();
    proof {
        lemma_key_line(texts(ls@), key@, 0);
        assert(texts(none@) =~= Seq::<Seq<char>>::empty());
    }
    match seek_key(ls, key, 0) {
        Some(k) => {
            let rest = rest_of_line(ls[k].as_str(), key);
            let cs = text::chars(rest.as_str());
            let n: usize = cs.len();
            let count: usize = ls.len();
            if n == 0 && k < count {
                return dashed_items(ls, k + 1);
            }
            if n > 1 && cs[0] == '[' && cs[n - 1] == ']' {
                let inner = text::slice(&cs, 1, n - 1);
                return trim_each(&text::split_on(inner.as_str(), ','));
            }
            none
        },
        None => none,
    }
}

/// Whether two scalars are the same number or the same truth value, or both null.
pub open spec fn same_scalar(a: YamlView, b: YamlView) -> bool {
    match (a, b) {
        (YamlView::Number { text: x, .. }, YamlView::Number { text: y, .. }) => x == y,
        (YamlView::Bool(x), YamlView::Bool(y)) => x == y,
        (YamlView::Null, YamlView::Null) => true,
        _ => false,
    }
}

/// The text of a scalar: a text itself, and of a number, a truth value or null how
/// it is written, where that is known and reads as the same; else how YAML writes
/// it.
pub open spec fn scalar_text(y: YamlView, written: Option<Seq<char>>) -> Option<Seq<char>> {
    match y {
        YamlView::Text(s) => Some(s),
        YamlView::Number { text, value } => Some(as_written(y, written, text)),
        YamlView::Bool(b) => Some(
            as_written(
                y,
                written,
                if b {
                    "true"@
                } else {
                    "false"@
                },
            ),
        ),
        YamlView::Null => Some(as_written(y, written, "null"@)),
        _ => None,
    }
}

pub open spec fn as_written(y: YamlView, written: Option<Seq<char>>, other: Seq<char>) -> Seq<
    char,
> {
    match written {
        Some(w) => if w.len() == 0 && y is Null {
            w
        } else {
            match parsed_yaml(w) {
                Ok(x) => if same_scalar(y, x) {
                    w
                } else {
                    other
                },
                Err(_) => other,
            }
        },
        None => other,
    }
}

fn reads_same(y: &Yaml, written: &str) -> (r: bool)
    ensures
        r == (parsed_yaml(written@) matches Ok(x) && same_scalar(y@, x)),
{
    match read_yaml(written) {
        Ok(x) => match (y, &x) {
            (Yaml::Number(a), Yaml::Number(b)) => text::same(a.text.as_str(), b.text.as_str()),
            (Yaml::Bool(a), Yaml::Bool(b)) => *a == *b,
            (Yaml::Null, Yaml::Null) => true,
            _ => false,
        },
        Err(_) => false,
    }
}

fn prefer_written(y: &Yaml, written: &Option<String>, other: &str) -> (r: String)
    ensures
        r@ == as_written(y@, opt_text(*written), other@),
{
    if let Some(w) = written {
        if w.as_str().is_empty() && matches!(y, Yaml::Null) {
            return text::copy(w.as_str());
        }
        if reads_same(y, w.as_str()) {
            return text::copy(w.as_str());
        }
    }
    text::copy(other)
}

/// The text of a scalar.
pub fn scalar(y: &Yaml, written: &Option<String>) -> (r: Option<String>)
    ensures
        opt_text(r) == scalar_text(y@, opt_text(*written)),
{
    match y {
        Yaml::Text(s) => Some(text::copy(s.as_str())),
        Yaml::Number(n) => Some(prefer_written(y, written, n.text.as_str())),
        Yaml::Bool(b) => Some(
            prefer_written(
                y,
                written,
                if *b {
                    "true"
                } else {
                    "false"
                },
            ),
        ),
        Yaml::Null => Some(prefer_written(y, written, "null")),
        _ => None,
    }
}

} // verus!
