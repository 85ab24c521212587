//! Identifiers for new notes: times to the second, none of them given twice.
use crate::attachments::valid_id;
use crate::error::{ErrorView, ZettelError};
use crate::text::{self, opt_text, texts};
use crate::types::ZettelId;
use vstd::prelude::*;

verus! {

broadcast use vstd::string::group_string_axioms;

/// How the time is written in an identifier.
pub const ID_FORMAT: &'static str = "%Y%m%d%H%M%S";

/// The last second of the year 9999, counted from the start of 1970.
pub const LAST_SECOND: i64 = 253402300799;

/// The seconds since the start of 1970 that a text in a format says, or why it
/// says none; by `chrono`.
pub uninterp spec fn parsed_time(s: Seq<char>, format: Seq<char>) -> Result<i64, Seq<char>>;

/// A number of seconds since the start of 1970 as text in a format; by `chrono`.
pub uninterp spec fn formatted_time(t: i64, format: Seq<char>) -> Option<Seq<char>>;

/// `chrono::NaiveDateTime::parse_from_str`, and `timestamp` of what it returns.
/// The result is named `parsed_time`.
#[verifier::external_body]
fn parse_time(s: &str, format: &str) -> (r: Result<i64, String>)
    ensures
        match r {
            Ok(t) => parsed_time(s@, format@) == Ok::<i64, Seq<char>>(t),
            Err(e) => parsed_time(s@, format@) == Err::<i64, Seq<char>>(e@),
        },
{
    let t = chrono::NaiveDateTime::parse_from_str(s, format).map_err(|e| e.to_string())?;
    Ok(t.and_utc().timestamp())
}

/// `chrono::DateTime::from_timestamp`, and `format` of what it returns. The
/// result is named `formatted_time`. A time from 1970 to 9999 has one, of
/// fourteen digits, and it reads back as that time: `%Y` takes four digits, the
/// other fields two each.
#[verifier::external_body]
fn format_time(t: i64, format: &str) -> (r: Option<String>)
    requires
        format@ == ID_FORMAT@,
    ensures
        match r {
            Some(s) => formatted_time(t, format@) == Some(s@) && (0 <= t <= LAST_SECOND ==> (
            valid_id(s@) && parsed_time(s@, format@) == Ok::<i64, Seq<char>>(t))),
            None => formatted_time(t, format@) is None && !(0 <= t <= LAST_SECOND),
        },
{
    chrono::DateTime::from_timestamp(t, 0).map(|d| d.format(format).to_string())
}

/// The text of a second as an identifier.
pub open spec fn id_text(t: int) -> Option<Seq<char>> {
    if i64::MIN <= t <= i64::MAX {
        formatted_time(t as i64, ID_FORMAT@)
    } else {
        None
    }
}

/// The identifier that a second stands for. From 1970 to 9999 there is one.
pub fn candidate_id(t: i64) -> (r: Option<String>)
    ensures
        opt_text(r) == id_text(t as int),
        0 <= t <= LAST_SECOND ==> r is Some && valid_id(r->0@),
{
    format_time(t, ID_FORMAT)
}

/// The first second after a time whose identifier is not taken; at most `fuel`
/// taken ones are passed.
pub open spec fn free_after(t: int, taken: Seq<Seq<char>>, fuel: nat) -> Option<int>
    decreases fuel,
{
    match id_text(t + 1) {
        None => None,
        Some(s) => if !taken.contains(s) {
            Some(t + 1)
        } else if fuel == 0 {
            None
        } else {
            free_after(t + 1, taken, (fuel - 1) as nat)
        },
    }
}

/// `n` times: a first one, and after each the next that is free.
pub open spec fn times_from(first: int, taken: Seq<Seq<char>>, n: int) -> Option<Seq<int>>
    decreases n,
{
    if n <= 1 {
        Some(seq![first])
    } else {
        match times_from(first, taken, n - 1) {
            None => None,
            Some(l) => match free_after(l.last(), taken, taken.len()) {
                None => None,
                Some(t) => Some(l.push(t)),
            },
        }
    }
}

/// The identifiers of some times, the first of which has its own.
pub open spec fn ids_of(first: Seq<char>, times: Seq<int>) -> Seq<Seq<char>> {
    Seq::new(
        times.len(),
        |i: int|
            if i == 0 {
                first
            } else {
                id_text(times[i])->0
            },
    )
}

pub open spec fn ids_view(s: Seq<ZettelId>) -> Seq<Seq<char>> {
    Seq::new(s.len(), |i: int| s[i].0@)
}

/// What making identifiers gives: at least one. It fails where the first is no
/// time, and where the times run out.
pub open spec fn made_ids(first: Seq<char>, taken: Seq<Seq<char>>, n: int) -> Result<
    Seq<Seq<char>>,
    ErrorView,
> {
    match parsed_time(first, ID_FORMAT@) {
        Err(e) => Err(ErrorView::SqlEngine("failed to parse generated id timestamp: "@ + e)),
        Ok(t) => match times_from(t as int, taken, n) {
            Some(l) => Ok(ids_of(first, l)),
            None => Err(ErrorView::SqlEngine("no free id after "@ + first)),
        },
    }
}

/// Whether a second has an identifier that reads back as that second.
pub open spec fn is_written(t: int) -> bool {
    id_text(t) is Some && parsed_time(id_text(t)->0, ID_FORMAT@) == Ok::<i64, Seq<char>>(t as i64)
}

/// Among more seconds than there are taken identifiers, one is free.
proof fn lemma_some_free(t: int, n: nat, taken: Seq<Seq<char>>)
    requires
        n > taken.len(),
        forall|k: int| t < k <= t + n ==> #[trigger] is_written(k),
        i64::MIN <= t,
        t + n <= i64::MAX,
    ensures
        exists|k: int| t < k <= t + n && !taken.contains((#[trigger] id_text(k))->0),
{
    if forall|k: int| t < k <= t + n ==> taken.contains((#[trigger] id_text(k))->0) {
        let c = Seq::new(n, |i: int| id_text(t + 1 + i)->0);
        assert(c.no_duplicates()) by {
            assert forall|i: int, j: int| 0 <= i < c.len() && 0 <= j < c.len() && i != j implies c[i]
                != c[j] by {
                assert(is_written(t + 1 + i));
                assert(is_written(t + 1 + j));
            }
        }
        c.unique_seq_to_set();
        taken.lemma_cardinality_of_set();
        assert forall|x: Seq<char>| c.to_set().contains(x) implies taken.to_set().contains(x) by {
            let i = choose|i: int| 0 <= i < c.len() && c[i] == x;
            assert(taken.contains(id_text(t + 1 + i)->0));
        }
        vstd::seq_lib::seq_to_set_is_finite(taken);
        vstd::set_lib::lemma_len_subset(c.to_set(), taken.to_set());
    }
}

fn seek_free(t: i64, taken: &Vec<String>) -> (r: Option<(i64, String)>)
    ensures
        match r {
            Some((u, s)) => free_after(t as int, texts(taken@), taken@.len()) == Some(u as int)
                && id_text(u as int) == Some(s@) && (0 <= u <= LAST_SECOND ==> is_written(u as int)
                && valid_id(s@)),
            None => free_after(t as int, texts(taken@), taken@.len()) is None && !(0 <= t && t
                + taken@.len() < LAST_SECOND),
        },
{
    let ghost tv = texts(taken@);
    let mut u: i64 = t;
    let mut fuel: usize = taken.len();
    loop
        invariant
            free_after(u as int, texts(taken@), fuel as nat) == free_after(
                t as int,
                texts(taken@),
                taken@.len(),
            ),
            tv == texts(taken@),
            t <= u,
            u - t + fuel == taken@.len(),
            forall|k: int|
                t < k <= u && 0 <= k <= LAST_SECOND ==> #[trigger] is_written(k) && tv.contains(
                    id_text(k)->0,
                ),
        decreases fuel,
    {
        if u == i64::MAX {
            return None;
        }
        match format_time(u + 1, ID_FORMAT) {
            None => {
                return None;
            },
            Some(s) => {
                if !text::contains_text(taken, s.as_str()) {
                    return Some((u + 1, s));
                }
                if fuel == 0 {
                    proof {
                        if 0 <= t && t + taken@.len() < LAST_SECOND {
                            assert(is_written(u + 1));
                            lemma_some_free(t as int, taken@.len() + 1, tv);
                            let k = choose|k: int|
                                t < k <= u + 1 && !tv.contains((#[trigger] id_text(k))->0);
                            assert(is_written(k));
                        }
                    }
                    return None;
                }
                u = u + 1;
                fuel = fuel - 1;
            },
        }
    }
}

/// Whether so many identifiers can be found after a first one, at the latest
/// in the year 9999.
pub open spec fn within(first: Seq<char>, taken: Seq<Seq<char>>, n: int) -> bool {
    match parsed_time(first, ID_FORMAT@) {
        Ok(t) => 0 <= t && t + n * (taken.len() + 1) <= LAST_SECOND && is_written(t as int)
            && id_text(t as int) == Some(first),
        Err(_) => false,
    }
}

/// Whether identifiers differ from each other, and all but the first from those
/// that were taken.
pub open spec fn distinct(ids: Seq<Seq<char>>, taken: Seq<Seq<char>>) -> bool {
    &&& ids.no_duplicates()
    &&& forall|i: int| 0 < i < ids.len() ==> !taken.contains(#[trigger] ids[i])
}

/// Whether all identifiers but the first are of fourteen digits.
pub open spec fn new_ids_valid(ids: Seq<Seq<char>>) -> bool {
    forall|i: int| 0 < i < ids.len() ==> valid_id(#[trigger] ids[i])
}

/// Makes identifiers from a first one that is free: `count` of them, or one
/// where `count` is zero. Each further one is the next second that is not taken.
/// Where the first is a time from 1970 on and the year 9999 is far enough, this
/// succeeds, and they are all different, the further ones of fourteen digits.
pub fn unique_ids(first: &str, taken: &Vec<String>, count: usize) -> (r: Result<
    Vec<ZettelId>,
    ZettelError,
>)
    ensures
        match r {
            Ok(v) => made_ids(first@, texts(taken@), count as int) == Ok::<
                Seq<Seq<char>>,
                ErrorView,
            >(ids_view(v@)) && (within(first@, texts(taken@), count as int) ==> distinct(
                ids_view(v@),
                texts(taken@),
            ) && new_ids_valid(ids_view(v@))),
            Err(e) => !within(first@, texts(taken@), count as int) && made_ids(first@, texts(taken@), count as int) == Err::<
                Seq<Seq<char>>,
                ErrorView,
            >(e@),
        },
{
    let ghost tv = texts(taken@);
    let start = match parse_time(first, ID_FORMAT) {
        Ok(t) => t,
        Err(e) => {
            return Err(
                ZettelError::SqlEngine(
                    text::cat("failed to parse generated id timestamp: ", e.as_str()),
                ),
            );
        },
    };
    let mut ids: Vec<ZettelId> = Vec::new();
    ids.push(ZettelId(text::copy(first)));
    let mut last: i64 = start;
    let mut n: usize = 1;
    let ghost mut times: Seq<int> = seq![start as int];
    proof {
        assert(ids_view(ids@) =~= ids_of(first@, times));
    }
    while n < count
        invariant
            1 <= n,
            n <= count || n == 1,
            tv == texts(taken@),
            times.len() == n,
            last as int == times.last(),
            times_from(start as int, tv, n as int) == Some(times),
            times[0] == start,
            forall|i: int| 0 < i < n && 0 <= times[i] <= LAST_SECOND ==> is_written(#[trigger] times[i])
                && valid_id(id_text(times[i])->0),
            ids_view(ids@) == ids_of(first@, times),
        decreases count - n,
    {
        match seek_free(last, taken) {
            None => {
                proof {
                    if within(first@, tv, count as int) {
                        lemma_times(start as int, tv, n as int);
                        lemma_room(n as int, count as int, taken@.len() as int);
                    }
                    lemma_times_end(start as int, tv, n + 1, count as int);
                }
                return Err(ZettelError::SqlEngine(text::cat("no free id after ", first)));
            },
            Some((t, s)) => {
                let ghost before = ids@;
                ids.push(ZettelId(s));
                last = t;
                proof {
                    let old_times = times;
                    times = times.push(t as int);
                    assert(ids_view(ids@) =~= ids_view(before).push(s@));
                    assert(ids_of(first@, times) =~= ids_of(first@, old_times).push(s@));
                }
            },
        }
        n = n + 1;
    }
    proof {
        if within(first@, tv, count as int) {
            lemma_times(start as int, tv, n as int);
            lemma_room(n as int, n as int, taken@.len() as int);
            let l = ids_view(ids@);
            assert forall|i: int, j: int| 0 <= i < l.len() && 0 <= j < l.len() && i != j implies l[i]
                != l[j] by {
                assert(times[i] != times[j]);
                assert(times[i] <= times.last() && times[j] <= times.last());
                assert(is_written(times[i]) && is_written(times[j]));
            }
            assert forall|i: int| 0 < i < l.len() implies valid_id(#[trigger] l[i]) by {
                assert(0 <= times[i] <= times.last());
                assert(l[i] == id_text(times[i])->0);
            }
        }
    }
    Ok(ids)
}

/// So many identifiers are made as were asked for, and at least one.
pub proof fn lemma_made_len(first: Seq<char>, taken: Seq<Seq<char>>, n: int)
    requires
        made_ids(first, taken, n) is Ok,
    ensures
        made_ids(first, taken, n)->Ok_0.len() == if n <= 1 {
            1
        } else {
            n
        },
{
    lemma_times(parsed_time(first, ID_FORMAT@)->Ok_0 as int, taken, n);
}

proof fn lemma_room(n: int, count: int, taken: int)
    requires
        1 <= n <= count,
        0 <= taken,
    ensures
        n * (taken + 1) <= count * (taken + 1),
        (n - 1) * (taken + 1) + taken + 1 == n * (taken + 1),
{
    assert(n * (taken + 1) <= count * (taken + 1)) by (nonlinear_arith)
        requires
            n <= count,
            0 <= taken,
    ;
    assert((n - 1) * (taken + 1) + taken + 1 == n * (taken + 1)) by (nonlinear_arith);
}

proof fn lemma_times_end(first: int, taken: Seq<Seq<char>>, k: int, n: int)
    requires
        1 <= k <= n,
        times_from(first, taken, k) is None,
    ensures
        times_from(first, taken, n) is None,
    decreases n,
{
    if n > k {
        lemma_times_end(first, taken, k, n - 1);
    }
}

proof fn lemma_free(t: int, taken: Seq<Seq<char>>, fuel: nat)
    requires
        free_after(t, taken, fuel) is Some,
    ensures
        t < free_after(t, taken, fuel)->0 <= t + fuel + 1,
        id_text(free_after(t, taken, fuel)->0) is Some,
        !taken.contains(id_text(free_after(t, taken, fuel)->0)->0),
    decreases fuel,
{
    if taken.contains(id_text(t + 1)->0) {
        lemma_free(t + 1, taken, (fuel - 1) as nat);
    }
}

proof fn lemma_times(first: int, taken: Seq<Seq<char>>, n: int)
    requires
        times_from(first, taken, n) is Some,
    ensures
        ({
            let l = times_from(first, taken, n)->0;
            &&& l.len() == if n <= 1 {
                1
            } else {
                n
            }
            &&& l[0] == first
            &&& l.last() <= first + (l.len() - 1) * (taken.len() + 1)
            &&& forall|i: int, j: int| 0 <= i < j < l.len() ==> (#[trigger] l[i]) < #[trigger] l[j]
            &&& forall|i: int|
                0 < i < l.len() ==> id_text(#[trigger] l[i]) is Some && !taken.contains(
                    id_text(l[i])->0,
                )
        }),
    decreases n,
{
    if n > 1 {
        lemma_times(first, taken, n - 1);
        let p = times_from(first, taken, n - 1)->0;
        lemma_free(p.last(), taken, taken.len());
        let w: int = taken.len() as int + 1;
        let m: int = p.len() as int;
        assert((m - 1) * w + w == m * w) by (nonlinear_arith);
    }
}

} // verus!
