//! Hybrid logical clocks: a wall clock, a counter and a node, for time stamps
//! that order events across devices.
use crate::error::{ErrorView, ZettelError};
use crate::text;
use std::cmp::Ordering;
use vstd::prelude::*;

verus! {

broadcast use vstd::string::group_string_axioms;

/// A time stamp: wall clock first, then the counter, then the node.
#[derive(Debug, Clone, Eq, Ord)]
pub struct Hlc {
    pub wall_ms: u64,
    pub counter: u32,
    /// The first eight characters of the node's identifier.
    pub node: String,
}

impl PartialEq for Hlc {
    fn eq(&self, other: &Self) -> (r: bool) {
        self.wall_ms == other.wall_ms && self.counter == other.counter && self.node == other.node
    }
}

impl vstd::std_specs::cmp::PartialEqSpecImpl for Hlc {
    open spec fn obeys_eq_spec() -> bool {
        true
    }

    open spec fn eq_spec(&self, other: &Self) -> bool {
        self.wall_ms == other.wall_ms && self.counter == other.counter && self.node@ == other.node@
    }
}

impl PartialOrd for Hlc {
    fn partial_cmp(&self, other: &Self) -> (r: Option<Ordering>) {
        proof {
            text::lemma_lt_total(self.node@, other.node@);
            text::lemma_lt_irreflexive(self.node@);
        }
        if self.wall_ms < other.wall_ms {
            Some(Ordering::Less)
        } else if self.wall_ms > other.wall_ms {
            Some(Ordering::Greater)
        } else if self.counter < other.counter {
            Some(Ordering::Less)
        } else if self.counter > other.counter {
            Some(Ordering::Greater)
        } else if text::less(self.node.as_str(), other.node.as_str()) {
            Some(Ordering::Less)
        } else if text::same(self.node.as_str(), other.node.as_str()) {
            Some(Ordering::Equal)
        } else {
            Some(Ordering::Greater)
        }
    }
}

impl vstd::std_specs::cmp::PartialOrdSpecImpl for Hlc {
    open spec fn obeys_partial_cmp_spec() -> bool {
        true
    }

    open spec fn partial_cmp_spec(&self, other: &Self) -> Option<Ordering> {
        if self.before(*other) {
            Some(Ordering::Less)
        } else if self.same_as(*other) {
            Some(Ordering::Equal)
        } else {
            Some(Ordering::Greater)
        }
    }
}

/// The node part of a time stamp: the identifier without dashes, cut to eight
/// characters.
pub open spec fn node_part(id: Seq<char>) -> Seq<char> {
    let d = without_dashes(id);
    if d.len() <= 8 {
        d
    } else {
        d.take(8)
    }
}

pub open spec fn without_dashes(s: Seq<char>) -> Seq<char>
    decreases s.len(),
{
    if s.len() == 0 {
        s
    } else if s.last() == '-' {
        without_dashes(s.drop_last())
    } else {
        without_dashes(s.drop_last()).push(s.last())
    }
}

/// What a parsed time stamp holds.
pub type HlcView = (int, int, Seq<char>);

pub open spec fn number_error_text(e: text::NumberError) -> Seq<char> {
    match e {
        text::NumberError::Empty => "cannot parse integer from empty string"@,
        text::NumberError::InvalidDigit => "invalid digit found in string"@,
        text::NumberError::TooLarge => "number too large to fit in target type"@,
    }
}

/// The time stamp that a text writes: wall clock, counter and node with dashes
/// between them; the node may hold further dashes.
pub open spec fn parsed_hlc(s: Seq<char>) -> Result<HlcView, ErrorView> {
    let i = text::until(s, '-');
    let rest = s.skip(i + 1);
    let j = text::until(rest, '-');
    if i >= s.len() || j >= rest.len() {
        Err(ErrorView::Parse("invalid HLC: "@ + s))
    } else {
        match text::parsed_unsigned(s.take(i), u64::MAX as int) {
            Err(e) => Err(ErrorView::Parse("bad HLC wall_ms: "@ + number_error_text(e))),
            Ok(wall) => match text::parsed_unsigned(rest.take(j), u32::MAX as int) {
                Err(e) => Err(ErrorView::Parse("bad HLC counter: "@ + number_error_text(e))),
                Ok(counter) => Ok((wall, counter, rest.skip(j + 1))),
            },
        }
    }
}

pub fn number_error(e: text::NumberError) -> (r: &'static str)
    ensures
        r@ == number_error_text(e),
{
    match e {
        text::NumberError::Empty => "cannot parse integer from empty string",
        text::NumberError::InvalidDigit => "invalid digit found in string",
        text::NumberError::TooLarge => "number too large to fit in target type",
    }
}

impl Hlc {
    /// Whether this time stamp comes before the other.
    pub open spec fn before(self, other: Hlc) -> bool {
        ||| self.wall_ms < other.wall_ms
        ||| self.wall_ms == other.wall_ms && self.counter < other.counter
        ||| self.wall_ms == other.wall_ms && self.counter == other.counter && text::lt(
            self.node@,
            other.node@,
        )
    }

    pub open spec fn same_as(self, other: Hlc) -> bool {
        self.wall_ms == other.wall_ms && self.counter == other.counter && self.node@ == other.node@
    }

    pub open spec fn parts(self) -> HlcView {
        (self.wall_ms as int, self.counter as int, self.node@)
    }

    /// Whether `self` is the local tick after `last` when the wall clock shows `wall`.
    pub open spec fn is_tick(self, wall: u64, node_id: Seq<char>, last: Option<Hlc>) -> bool {
        &&& self.node@ == node_part(node_id)
        &&& match last {
            Some(prev) => if wall > prev.wall_ms {
                self.wall_ms == wall && self.counter == 0
            } else {
                self.wall_ms == prev.wall_ms && self.counter == prev.counter + 1
            },
            None => self.wall_ms == wall && self.counter == 0,
        }
    }

    /// Whether `self` merges a received time stamp when the wall clock shows `wall`.
    pub open spec fn is_merge(
        self,
        wall: u64,
        node_id: Seq<char>,
        local: Option<Hlc>,
        remote: Hlc,
    ) -> bool {
        let local_wall = if local is Some {
            local->0.wall_ms
        } else {
            0
        };
        let local_counter = if local is Some {
            local->0.counter
        } else {
            0
        };
        &&& self.node@ == node_part(node_id)
        &&& self.wall_ms >= wall && self.wall_ms >= local_wall && self.wall_ms >= remote.wall_ms
        &&& self.wall_ms == wall || self.wall_ms == local_wall || self.wall_ms == remote.wall_ms
        &&& self.counter == if self.wall_ms == local_wall && self.wall_ms == remote.wall_ms {
            (if local_counter >= remote.counter {
                local_counter
            } else {
                remote.counter
            }) + 1
        } else if self.wall_ms == local_wall {
            local_counter + 1
        } else if self.wall_ms == remote.wall_ms {
            remote.counter + 1
        } else {
            0
        }
    }

    /// The tick for a local event, by the wall clock of this machine. Whatever
    /// the clock shows, the result comes after `last`.
    pub fn now(node_id: &str, last: &Option<Hlc>) -> (r: Hlc)
        requires
            last matches Some(prev) ==> prev.counter < u32::MAX,
        ensures
            exists|wall: u64| r.is_tick(wall, node_id@, *last),
            last matches Some(prev) ==> prev.before(r),
    {
        let wall = wall_clock_ms();
        Hlc::tick(wall, node_id, last)
    }

    /// The tick for a local event at a given wall-clock time.
    pub fn tick(wall: u64, node_id: &str, last: &Option<Hlc>) -> (r: Hlc)
        requires
            last matches Some(prev) ==> prev.counter < u32::MAX,
        ensures
            r.is_tick(wall, node_id@, *last),
            last matches Some(prev) ==> prev.before(r),
    {
        let node = truncate_node(node_id);
        match last {
            Some(prev) => {
                if wall > prev.wall_ms {
                    Hlc { wall_ms: wall, counter: 0, node }
                } else {
                    Hlc { wall_ms: prev.wall_ms, counter: prev.counter + 1, node }
                }
            },
            None => Hlc { wall_ms: wall, counter: 0, node },
        }
    }

    /// The time stamp after receiving `remote`, by the wall clock of this
    /// machine. Whatever the clock shows, it comes after both.
    pub fn recv(node_id: &str, local_last: &Option<Hlc>, remote: &Hlc) -> (r: Hlc)
        requires
            local_last matches Some(prev) ==> prev.counter < u32::MAX,
            remote.counter < u32::MAX,
        ensures
            exists|wall: u64| r.is_merge(wall, node_id@, *local_last, *remote),
            remote.before(r),
            local_last matches Some(prev) ==> prev.before(r),
    {
        let wall = wall_clock_ms();
        Hlc::merge(wall, node_id, local_last, remote)
    }

    /// The time stamp after receiving `remote` at a given wall-clock time.
    pub fn merge(wall: u64, node_id: &str, local_last: &Option<Hlc>, remote: &Hlc) -> (r: Hlc)
        requires
            local_last matches Some(prev) ==> prev.counter < u32::MAX,
            remote.counter < u32::MAX,
        ensures
            r.is_merge(wall, node_id@, *local_last, *remote),
            remote.before(r),
            local_last matches Some(prev) ==> prev.before(r),
    {
        let node = truncate_node(node_id);
        let mut local_wall: u64 = 0;
        let mut local_counter: u32 = 0;
        if let Some(prev) = local_last {
            local_wall = prev.wall_ms;
            local_counter = prev.counter;
        }
        let mut max_wall: u64 = wall;
        if local_wall > max_wall {
            max_wall = local_wall;
        }
        if remote.wall_ms > max_wall {
            max_wall = remote.wall_ms;
        }
        let counter: u32 = if max_wall == local_wall && max_wall == remote.wall_ms {
            if local_counter >= remote.counter {
                local_counter + 1
            } else {
                remote.counter + 1
            }
        } else if max_wall == local_wall {
            local_counter + 1
        } else if max_wall == remote.wall_ms {
            remote.counter + 1
        } else {
            0
        };
        Hlc { wall_ms: max_wall, counter, node }
    }

    /// Reads the form `{wall_ms}-{counter}-{node}`.
    pub fn parse(s: &str) -> (r: Result<Hlc, ZettelError>)
        ensures
            match r {
                Ok(h) => parsed_hlc(s@) == Ok::<HlcView, ErrorView>(h.parts()),
                Err(e) => parsed_hlc(s@) == Err::<HlcView, ErrorView>(e@),
            },
    {
        let cs = text::chars(s);
        let n: usize = cs.len();
        let i = text::find_char(&cs, '-', 0);
        proof {
            assert(cs@.skip(0) =~= s@);
        }
        if i >= n {
            return Err(ZettelError::Parse(text::cat("invalid HLC: ", s)));
        }
        let j = text::find_char(&cs, '-', i + 1);
        if j >= n {
            return Err(ZettelError::Parse(text::cat("invalid HLC: ", s)));
        }
        let ghost rest = s@.skip(i + 1);
        let wall_text = text::slice(&cs, 0, i);
        let counter_text = text::slice(&cs, i + 1, j);
        let node = text::slice(&cs, j + 1, n);
        proof {
            assert(cs@.subrange(0, i as int) =~= s@.take(i as int));
            assert(cs@.subrange(i + 1, j as int) =~= rest.take(j - i - 1));
            assert(cs@.subrange(j + 1, n as int) =~= rest.skip(j - i));
        }
        match text::parse_unsigned(wall_text.as_str(), u64::MAX) {
            Err(e) => Err(ZettelError::Parse(text::cat("bad HLC wall_ms: ", number_error(e)))),
            Ok(wall_ms) => match text::parse_unsigned(counter_text.as_str(), u32::MAX as u64) {
                Err(e) => Err(ZettelError::Parse(text::cat("bad HLC counter: ", number_error(e)))),
                Ok(counter) => {
                    proof {
                        text::lemma_parsed_bound(counter_text@, u32::MAX as int);
                    }
                    Ok(Hlc { wall_ms, counter: counter as u32, node })
                },
            },
        }
    }

    /// The form that `parse` reads, with the counter in at least four digits.
    pub open spec fn text(self) -> Seq<char> {
        text::decimal(self.wall_ms as nat) + "-"@ + text::zero_padded(
            text::decimal(self.counter as nat),
            4,
        ) + "-"@ + self.node@
    }

    pub fn to_text(&self) -> (r: String)
        ensures
            r@ == self.text(),
    {
        let w = text::to_decimal(self.wall_ms);
        let c = text::to_decimal(self.counter as u64);
        let p = text::pad_zeros(c.as_str(), 4);
        let mut r = text::cat3(w.as_str(), "-", p.as_str());
        r.append("-");
        r.append(self.node.as_str());
        r
    }
}

/// `SystemTime::now` and `duration_since` of the Unix epoch: the milliseconds
/// that the machine's clock shows. Nothing is promised of the number.
#[verifier::external_body]
fn wall_clock_ms() -> (ms: u64) {
    std::time::SystemTime::now().duration_since(
        std::time::UNIX_EPOCH,
    ).unwrap_or_default().as_millis() as u64
}

fn truncate_node(node_id: &str) -> (r: String)
    ensures
        r@ == node_part(node_id@),
{
    let cs = text::chars(node_id);
    let mut kept: Vec<char> = Vec::new();
    let mut i: usize = 0;
    while i < cs.len()
        invariant
            i <= cs@.len(),
            kept@ == without_dashes(cs@.take(i as int)),
        decreases cs@.len() - i,
    {
        proof {
            assert(cs@.take(i + 1).drop_last() =~= cs@.take(i as int));
        }
        if cs[i] != '-' {
            kept.push(cs[i]);
        }
        i = i + 1;
    }
    proof {
        assert(cs@.take(i as int) =~= cs@);
    }
    let n: usize = if kept.len() <= 8 {
        kept.len()
    } else {
        8
    };
    let r = text::slice(&kept, 0, n);
    proof {
        assert(kept@.subrange(0, n as int) =~= node_part(node_id@));
    }
    r
}

/// What the last line that begins with `HLC: ` says after it.
pub open spec fn trailer(ls: Seq<Seq<char>>) -> Option<Seq<char>>
    decreases ls.len(),
{
    if ls.len() == 0 {
        None
    } else if text::has_prefix(ls.last(), "HLC: "@) {
        Some(text::trimmed(ls.last().skip("HLC: "@.len() as int)))
    } else {
        trailer(ls.drop_last())
    }
}

/// The time stamp in the trailer of a commit message.
pub open spec fn extracted_hlc(message: Seq<char>) -> Option<HlcView> {
    match trailer(text::lines(message)) {
        Some(t) => match parsed_hlc(t) {
            Ok(h) => Some(h),
            Err(_) => None,
        },
        None => None,
    }
}

/// Reads the time stamp from the last `HLC: ` line of a commit message.
pub fn extract_hlc(message: &str) -> (r: Option<Hlc>)
    ensures
        match r {
            Some(h) => extracted_hlc(message@) == Some(h.parts()),
            None => extracted_hlc(message@) is None,
        },
{
    let ls = text::split_lines(message);
    let ghost all = text::lines(message@);
    let mut i: usize = ls.len();
    proof {
        assert(all.take(i as int) =~= all);
    }
    while i > 0
        invariant
            i <= ls@.len(),
            text::texts(ls@) == all,
            trailer(all.take(i as int)) == trailer(all),
        decreases i,
    {
        proof {
            assert(all.take(i as int).last() == ls@[i - 1]@);
            assert(all.take(i as int).drop_last() =~= all.take(i - 1));
        }
        if let Some(rest) = text::strip_prefix(ls[i - 1].as_str(), "HLC: ") {
            let t = text::trim(rest.as_str());
            return match Hlc::parse(t.as_str()) {
                Ok(h) => Some(h),
                Err(_) => None,
            };
        }
        i = i - 1;
    }
    None
}

/// Adds the time stamp to a commit message as its last line.
pub fn append_hlc_trailer(message: &str, hlc: &Hlc) -> (r: String)
    ensures
        r@ == message@ + "\n\nHLC: "@ + hlc.text(),
{
    let t = hlc.to_text();
    text::cat3(message, "\n\nHLC: ", t.as_str())
}

// ---------------------------------------------------------------------------
// Laws
// ---------------------------------------------------------------------------
/// Time stamps are ordered totally: of two that differ, one comes first and
/// only one, and the order is transitive.
pub proof fn law_order_total(a: Hlc, b: Hlc, c: Hlc)
    ensures
        a.before(b) || a.same_as(b) || b.before(a),
        !(a.before(b) && b.before(a)),
        a.before(b) ==> !a.same_as(b),
        a.before(b) && b.before(c) ==> a.before(c),
{
    text::lemma_lt_total(a.node@, b.node@);
    text::lemma_lt_irreflexive(a.node@);
    if text::lt(a.node@, b.node@) {
        text::lemma_lt_asymmetric(a.node@, b.node@);
        if text::lt(b.node@, c.node@) {
            text::lemma_lt_transitive(a.node@, b.node@, c.node@);
        }
    }
}

/// Reading what a time stamp is written as gives the time stamp back.
pub proof fn law_text_round_trip(h: Hlc)
    ensures
        parsed_hlc(h.text()) == Ok::<HlcView, ErrorView>(h.parts()),
{
    reveal_strlit("-");
    let w = text::decimal(h.wall_ms as nat);
    let c = text::decimal(h.counter as nat);
    let p = text::zero_padded(c, 4);
    text::lemma_decimal_scanned(h.wall_ms as nat, u64::MAX as int);
    text::lemma_decimal_scanned(h.counter as nat, u32::MAX as int);
    text::lemma_padded_scanned(c, 4, u32::MAX as int);
    let s = h.text();
    assert(s =~= w + seq!['-'] + p + seq!['-'] + h.node@);
    assert forall|i: int| 0 <= i < w.len() implies s[i] != '-' by {
        assert(s[i] == w[i] && text::is_digit(w[i]));
    }
    assert(s[w.len() as int] == '-');
    text::lemma_until_is(s, '-', w.len() as int);
    let rest = s.skip(w.len() as int + 1);
    assert(rest =~= p + seq!['-'] + h.node@);
    assert forall|i: int| 0 <= i < p.len() implies rest[i] != '-' by {
        assert(rest[i] == p[i] && text::is_digit(p[i]));
    }
    assert(rest[p.len() as int] == '-');
    text::lemma_until_is(rest, '-', p.len() as int);
    assert(s.take(w.len() as int) =~= w);
    assert(rest.take(p.len() as int) =~= p);
    assert(rest.skip(p.len() as int + 1) =~= h.node@);
    assert(text::is_digit(w[0]));
    assert(text::is_digit(p[0]));
}

/// A time stamp appended to a commit message is the one read from it.
pub proof fn law_trailer_round_trip(message: Seq<char>, h: Hlc)
    requires
        !h.node@.contains('\n'),
        h.node@.len() > 0 ==> !text::is_space(h.node@.last()),
    ensures
        extracted_hlc(message + "\n\nHLC: "@ + h.text()) == Some(h.parts()),
{
    reveal_strlit("-");
    reveal_strlit("HLC: ");
    reveal_strlit("\n\nHLC: ");
    law_text_round_trip(h);
    let t = h.text();
    let w = text::decimal(h.wall_ms as nat);
    let c = text::decimal(h.counter as nat);
    let p = text::zero_padded(c, 4);
    text::lemma_decimal_scanned(h.wall_ms as nat, u64::MAX as int);
    text::lemma_decimal_scanned(h.counter as nat, u32::MAX as int);
    text::lemma_padded_scanned(c, 4, u32::MAX as int);
    let last = "HLC: "@ + t;
    let whole = message + "\n\nHLC: "@ + t;
    let head = message + seq!['\n'];
    assert(whole =~= head + seq!['\n'] + last);
    assert forall|i: int| 0 <= i < last.len() implies last[i] != '\n' by {
        if i >= 5 {
            let j = i - 5;
            assert(last[i] == t[j]);
            assert(t =~= w + seq!['-'] + p + seq!['-'] + h.node@);
            if j < w.len() {
                assert(text::is_digit(w[j]));
            } else if j > w.len() && j < w.len() + 1 + p.len() {
                assert(text::is_digit(p[j - w.len() - 1]));
            } else if j > w.len() + 1 + p.len() {
                assert(h.node@.contains(h.node@[j - w.len() - p.len() - 2]));
            }
        }
    }
    text::lemma_last_line(head, last);
    let ls = text::lines(whole);
    assert(ls.last() == last);
    assert(last.take(5) =~= "HLC: "@);
    assert(last.skip(5) =~= t);
    assert(text::is_digit(w[0]));
    assert(t[0] == w[0]);
    assert(text::trimmed_start(t) == t);
    assert(t.last() == if h.node@.len() > 0 {
        h.node@.last()
    } else {
        '-'
    });
    assert(text::trimmed(t) == t);
}

} // verus!
