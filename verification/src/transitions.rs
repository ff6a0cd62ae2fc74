//! Cross-year transition accounting: how many entities moved from each
//! cluster of one year to each cluster of the next, accumulated over a whole
//! multi-year run, and outbound percentages derived from the counts.

use vstd::prelude::*;

verus! {

/// One accumulated cell of the transition table: a (from, to) cluster pair
/// and its occurrence count.
pub type TransitionEntry = (usize, usize, u64);

/// The count recorded for a (from, to) pair; zero when the pair has never
/// been seen.
pub open spec fn lookup(s: Seq<TransitionEntry>, from: int, to: int) -> int
    decreases s.len(),
{
    if s.len() == 0 {
        0
    } else if s.last().0 == from && s.last().1 == to {
        s.last().2 as int
    } else {
        lookup(s.drop_last(), from, to)
    }
}

/// Total outbound count of a "from" cluster: the sum of its counts over
/// every destination.
pub open spec fn total_from(s: Seq<TransitionEntry>, from: int) -> int
    decreases s.len(),
{
    if s.len() == 0 {
        0
    } else {
        total_from(s.drop_last(), from) + if s.last().0 == from {
            s.last().2 as int
        } else {
            0int
        }
    }
}

/// Sum of every count in the table.
pub open spec fn total_all(s: Seq<TransitionEntry>) -> int
    decreases s.len(),
{
    if s.len() == 0 {
        0
    } else {
        total_all(s.drop_last()) + s.last().2 as int
    }
}

/// No (from, to) pair occurs twice.
pub open spec fn distinct_pairs(s: Seq<TransitionEntry>) -> bool {
    forall|a: int, b: int|
        0 <= a < b < s.len() ==> !((#[trigger] s[a]).0 == (#[trigger] s[b]).0 && s[a].1 == s[b].1)
}

proof fn lemma_total_from_le_total_all(s: Seq<TransitionEntry>, from: int)
    ensures
        0 <= total_from(s, from) <= total_all(s),
    decreases s.len(),
{
    if s.len() > 0 {
        lemma_total_from_le_total_all(s.drop_last(), from);
    }
}

proof fn lemma_total_all_take_le(s: Seq<TransitionEntry>, r: int)
    requires
        0 <= r <= s.len(),
    ensures
        total_all(s.take(r)) <= total_all(s),
    decreases s.len(),
{
    if r == s.len() {
        assert(s.take(r) =~= s);
    } else if s.len() > 0 {
        assert(s.drop_last().take(r) =~= s.take(r));
        lemma_total_all_take_le(s.drop_last(), r);
    }
}

/// A pair's count never exceeds its "from" cluster's outbound total, so a
/// percentage derived from the two is always at most 100%.
pub proof fn lemma_count_le_from_total(s: Seq<TransitionEntry>, from: int, to: int)
    ensures
        lookup(s, from, to) <= total_from(s, from),
    decreases s.len(),
{
    if s.len() > 0 {
        lemma_count_le_from_total(s.drop_last(), from, to);
        lemma_total_from_le_total_all(s.drop_last(), from);
        lemma_lookup_le_total_all(s.drop_last(), from, to);
    }
}

proof fn lemma_lookup_at(s: Seq<TransitionEntry>, i: int)
    requires
        distinct_pairs(s),
        0 <= i < s.len(),
    ensures
        lookup(s, s[i].0 as int, s[i].1 as int) == s[i].2 as int,
    decreases s.len(),
{
    if i < s.len() - 1 {
        lemma_lookup_at(s.drop_last(), i);
    }
}

proof fn lemma_lookup_le_total_all(s: Seq<TransitionEntry>, from: int, to: int)
    ensures
        0 <= lookup(s, from, to) <= total_all(s),
    decreases s.len(),
{
    if s.len() > 0 {
        lemma_lookup_le_total_all(s.drop_last(), from, to);
        lemma_total_all_nonneg(s.drop_last());
    }
}

proof fn lemma_total_all_nonneg(s: Seq<TransitionEntry>)
    ensures
        total_all(s) >= 0,
    decreases s.len(),
{
    if s.len() > 0 {
        lemma_total_all_nonneg(s.drop_last());
    }
}

proof fn lemma_lookup_absent(s: Seq<TransitionEntry>, from: int, to: int)
    requires
        forall|a: int| 0 <= a < s.len() ==> !((#[trigger] s[a]).0 == from && s[a].1 == to),
    ensures
        lookup(s, from, to) == 0,
    decreases s.len(),
{
    if s.len() > 0 {
        lemma_lookup_absent(s.drop_last(), from, to);
    }
}

proof fn lemma_update_entry(s: Seq<TransitionEntry>, i: int, e: TransitionEntry)
    requires
        distinct_pairs(s),
        0 <= i < s.len(),
        e.0 == s[i].0,
        e.1 == s[i].1,
    ensures
        distinct_pairs(s.update(i, e)),
        forall|f: int, t: int|
            !(f == e.0 && t == e.1) ==> #[trigger] lookup(s.update(i, e), f, t) == lookup(s, f, t),
        lookup(s.update(i, e), e.0 as int, e.1 as int) == e.2 as int,
        total_from(s.update(i, e), e.0 as int) == total_from(s, e.0 as int) - s[i].2 + e.2,
        forall|f: int|
            f != e.0 ==> #[trigger] total_from(s.update(i, e), f) == total_from(s, f),
        total_all(s.update(i, e)) == total_all(s) - s[i].2 + e.2,
    decreases s.len(),
{
    let u = s.update(i, e);
    assert forall|a: int, b: int|
        0 <= a < b < u.len() implies !((#[trigger] u[a]).0 == (#[trigger] u[b]).0 && u[a].1
        == u[b].1) by {
        assert(!(s[a].0 == s[b].0 && s[a].1 == s[b].1));
    }
    lemma_lookup_at(u, i);
    if i == s.len() - 1 {
        assert(u.drop_last() =~= s.drop_last());
        assert(u.last() == e);
        assert forall|f: int, t: int| !(f == e.0 && t == e.1) implies #[trigger] lookup(u, f, t)
            == lookup(s, f, t) by {
            assert(lookup(u, f, t) == lookup(u.drop_last(), f, t));
            assert(lookup(s, f, t) == lookup(s.drop_last(), f, t));
        }
    } else {
        let sd = s.drop_last();
        assert(forall|a: int| 0 <= a < sd.len() ==> #[trigger] sd[a] == s[a]);
        assert(distinct_pairs(sd));
        lemma_update_entry(sd, i, e);
        assert(u.drop_last() =~= sd.update(i, e));
        assert(u.last() == s.last());
        assert(!(s.last().0 == e.0 && s.last().1 == e.1));
        assert forall|f: int, t: int| !(f == e.0 && t == e.1) implies #[trigger] lookup(u, f, t)
            == lookup(s, f, t) by {
            if s.last().0 == f && s.last().1 == t {
                assert(lookup(u, f, t) == u.last().2 as int);
                assert(lookup(s, f, t) == s.last().2 as int);
            } else {
                assert(lookup(u, f, t) == lookup(sd.update(i, e), f, t));
                assert(lookup(s, f, t) == lookup(sd, f, t));
            }
        }
        assert(total_from(u, e.0 as int) == total_from(sd.update(i, e), e.0 as int) + if u.last().0
            == e.0 {
            u.last().2 as int
        } else {
            0int
        });
        assert forall|f: int| f != e.0 implies #[trigger] total_from(u, f) == total_from(
            s,
            f,
        ) by {
            assert(total_from(u, f) == total_from(sd.update(i, e), f) + if u.last().0 == f {
                u.last().2 as int
            } else {
                0int
            });
            assert(total_from(s, f) == total_from(sd, f) + if s.last().0 == f {
                s.last().2 as int
            } else {
                0int
            });
        }
    }
}

proof fn lemma_push_entry(s: Seq<TransitionEntry>, e: TransitionEntry)
    requires
        distinct_pairs(s),
        forall|a: int| 0 <= a < s.len() ==> !((#[trigger] s[a]).0 == e.0 && s[a].1 == e.1),
    ensures
        distinct_pairs(s.push(e)),
        forall|f: int, t: int|
            !(f == e.0 && t == e.1) ==> #[trigger] lookup(s.push(e), f, t) == lookup(s, f, t),
        lookup(s.push(e), e.0 as int, e.1 as int) == e.2 as int,
        total_from(s.push(e), e.0 as int) == total_from(s, e.0 as int) + e.2,
        forall|f: int| f != e.0 ==> #[trigger] total_from(s.push(e), f) == total_from(s, f),
        total_all(s.push(e)) == total_all(s) + e.2,
{
    assert(s.push(e).drop_last() =~= s);
    assert(s.push(e).last() == e);
}

/// The accumulating cross-year transition table: one entry per (from, to)
/// cluster pair ever seen, with its occurrence count.
pub struct TransitionTable {
    pub entries: Vec<TransitionEntry>,
}

impl TransitionTable {
    /// Well-formed: no pair occurs twice, and the grand total leaves the
    /// counts room inside their machine type.
    pub open spec fn wf(&self) -> bool {
        &&& distinct_pairs(self.entries@)
        &&& total_all(self.entries@) <= u64::MAX
    }

    /// Creates an empty table: every pair's count is zero.
    pub fn new() -> (r: Self)
        ensures
            r.wf(),
            forall|f: int, t: int| #[trigger] lookup(r.entries@, f, t) == 0,
            forall|f: int| #[trigger] total_from(r.entries@, f) == 0,
            total_all(r.entries@) == 0,
    {
        TransitionTable { entries: Vec::new() }
    }

    /// The count recorded for one (from, to) pair; zero when absent.
    pub fn count(&self, from: usize, to: usize) -> (r: u64)
        requires
            self.wf(),
        ensures
            r as int == lookup(self.entries@, from as int, to as int),
    {
        let ghost s = self.entries@;
        let mut i: usize = 0;
        while i < self.entries.len()
            invariant
                i <= s.len(),
                s == self.entries@,
                distinct_pairs(s),
                forall|a: int| 0 <= a < i ==> !((#[trigger] s[a]).0 == from && s[a].1 == to),
            decreases s.len() - i,
        {
            let e = self.entries[i];
            if e.0 == from && e.1 == to {
                proof {
                    lemma_lookup_at(s, i as int);
                }
                return e.2;
            }
            i = i + 1;
        }
        proof {
            lemma_lookup_absent(s, from as int, to as int);
        }
        0
    }

    /// Total outbound count of one "from" cluster across all destinations.
    pub fn from_total(&self, from: usize) -> (r: u64)
        requires
            self.wf(),
        ensures
            r as int == total_from(self.entries@, from as int),
    {
        let ghost s = self.entries@;
        let mut sum: u64 = 0;
        let mut i: usize = 0;
        while i < self.entries.len()
            invariant
                i <= s.len(),
                s == self.entries@,
                distinct_pairs(s),
                total_all(s) <= u64::MAX,
                sum as int == total_from(s.take(i as int), from as int),
            decreases s.len() - i,
        {
            proof {
                assert(s.take(i + 1).drop_last() =~= s.take(i as int));
                lemma_total_from_le_total_all(s.take(i + 1), from as int);
                lemma_total_all_take_le(s, i + 1);
            }
            let e = self.entries[i];
            if e.0 == from {
                sum = sum + e.2;
            }
            i = i + 1;
        }
        proof {
            assert(s.take(s.len() as int) =~= s);
        }
        sum
    }

    /// Adds one occurrence of the (from, to) pair: its count rises by one,
    /// every other pair's count is untouched, and the "from" cluster's
    /// outbound total rises by one.
    pub fn increment(&mut self, from: usize, to: usize)
        requires
            old(self).wf(),
            total_all(old(self).entries@) < u64::MAX,
        ensures
            final(self).wf(),
            lookup(final(self).entries@, from as int, to as int) == lookup(
                old(self).entries@,
                from as int,
                to as int,
            ) + 1,
            forall|f: int, t: int|
                !(f == from && t == to) ==> #[trigger] lookup(final(self).entries@, f, t) == lookup(
                    old(self).entries@,
                    f,
                    t,
                ),
            total_from(final(self).entries@, from as int) == total_from(
                old(self).entries@,
                from as int,
            ) + 1,
            forall|f: int|
                f != from ==> #[trigger] total_from(final(self).entries@, f) == total_from(
                    old(self).entries@,
                    f,
                ),
            total_all(final(self).entries@) == total_all(old(self).entries@) + 1,
    {
        let ghost s = self.entries@;
        let n = self.entries.len();
        let mut i: usize = 0;
        while i < n
            invariant
                i <= s.len(),
                n == s.len(),
                s == self.entries@,
                s == old(self).entries@,
                distinct_pairs(s),
                total_all(s) < u64::MAX,
                forall|a: int| 0 <= a < i ==> !((#[trigger] s[a]).0 == from && s[a].1 == to),
            decreases s.len() - i,
        {
            let e = self.entries[i];
            if e.0 == from && e.1 == to {
                proof {
                    lemma_lookup_at(s, i as int);
                    lemma_lookup_le_total_all(s, from as int, to as int);
                }
                let bumped: TransitionEntry = (from, to, e.2 + 1);
                self.entries[i] = bumped;
                proof {
                    assert(self.entries@ =~= s.update(i as int, bumped));
                    lemma_update_entry(s, i as int, bumped);
                }
                return ;
            }
            i = i + 1;
        }
        proof {
            lemma_lookup_absent(s, from as int, to as int);
        }
        self.entries.push((from, to, 1));
        proof {
            lemma_push_entry(s, (from, to, 1u64));
        }
    }
}

/// The label the current year assigns to a name: the first entry carrying
/// that name, or `None` when the name is absent this year.
pub open spec fn find_label(m: Seq<(String, usize)>, name: Seq<char>) -> Option<int>
    decreases m.len(),
{
    if m.len() == 0 {
        None
    } else if m[0].0@ == name {
        Some(m[0].1 as int)
    } else {
        find_label(m.drop_first(), name)
    }
}

proof fn lemma_find_label_at(m: Seq<(String, usize)>, name: Seq<char>, r: int)
    requires
        0 <= r < m.len(),
        forall|a: int| 0 <= a < r ==> (#[trigger] m[a]).0@ != name,
        m[r].0@ == name,
    ensures
        find_label(m, name) == Some(m[r].1 as int),
    decreases r,
{
    if r > 0 {
        assert(forall|a: int|
            0 <= a < r - 1 ==> (#[trigger] m.drop_first()[a]) == m[a + 1]);
        lemma_find_label_at(m.drop_first(), name, r - 1);
    }
}

proof fn lemma_find_label_absent(m: Seq<(String, usize)>, name: Seq<char>)
    requires
        forall|a: int| 0 <= a < m.len() ==> (#[trigger] m[a]).0@ != name,
    ensures
        find_label(m, name) is None,
    decreases m.len(),
{
    if m.len() > 0 {
        assert(forall|a: int|
            0 <= a < m.len() - 1 ==> (#[trigger] m.drop_first()[a]) == m[a + 1]);
        lemma_find_label_absent(m.drop_first(), name);
    }
}

/// How many entries of the previous year's labeling carry label `f` and
/// name an entity the current year labels `t`: the number of increments the
/// tracker owes the (f, t) pair.
pub open spec fn trans_count(
    prev: Seq<(String, usize)>,
    curr: Seq<(String, usize)>,
    f: int,
    t: int,
) -> int
    decreases prev.len(),
{
    if prev.len() == 0 {
        0
    } else {
        trans_count(prev.drop_last(), curr, f, t) + if prev.last().1 == f && find_label(
            curr,
            prev.last().0@,
        ) == Some(t) {
            1int
        } else {
            0int
        }
    }
}

/// How many entries of the previous year's labeling carry label `f` and
/// name an entity present in the current year at all.
pub open spec fn trans_from(prev: Seq<(String, usize)>, curr: Seq<(String, usize)>, f: int) -> int
    decreases prev.len(),
{
    if prev.len() == 0 {
        0
    } else {
        trans_from(prev.drop_last(), curr, f) + if prev.last().1 == f && find_label(
            curr,
            prev.last().0@,
        ) is Some {
            1int
        } else {
            0int
        }
    }
}

/// How many entries of the previous year's labeling name an entity present
/// in the current year.
pub open spec fn matched_count(prev: Seq<(String, usize)>, curr: Seq<(String, usize)>) -> int
    decreases prev.len(),
{
    if prev.len() == 0 {
        0
    } else {
        matched_count(prev.drop_last(), curr) + if find_label(curr, prev.last().0@) is Some {
            1int
        } else {
            0int
        }
    }
}

proof fn lemma_trans_le_matched(prev: Seq<(String, usize)>, curr: Seq<(String, usize)>)
    ensures
        0 <= matched_count(prev, curr) <= prev.len(),
    decreases prev.len(),
{
    if prev.len() > 0 {
        lemma_trans_le_matched(prev.drop_last(), curr);
    }
}

fn find_in(curr: &Vec<(String, usize)>, name: &String) -> (r: Option<usize>)
    ensures
        match r {
            Some(l) => find_label(curr@, name@) == Some(l as int),
            None => find_label(curr@, name@) is None,
        },
{
    let mut i: usize = 0;
    while i < curr.len()
        invariant
            i <= curr@.len(),
            forall|a: int| 0 <= a < i ==> (#[trigger] curr@[a]).0@ != name@,
        decreases curr@.len() - i,
    {
        if curr[i].0 == *name {
            proof {
                lemma_find_label_at(curr@, name@, i as int);
            }
            return Some(curr[i].1);
        }
        i = i + 1;
    }
    proof {
        lemma_find_label_absent(curr@, name@);
    }
    None
}

/// Walks the previous year's labeling; for every name also present in the
/// current year, adds one occurrence of (previous label, current label) to
/// the table. Names present in only one of the two years contribute
/// nothing.
#[verifier::loop_isolation(false)]
pub fn record_transitions(
    prev: &Vec<(String, usize)>,
    curr: &Vec<(String, usize)>,
    table: &mut TransitionTable,
)
    requires
        old(table).wf(),
        total_all(old(table).entries@) + prev@.len() <= u64::MAX,
    ensures
        final(table).wf(),
        forall|f: int, t: int| #[trigger]
            lookup(final(table).entries@, f, t) == lookup(old(table).entries@, f, t) + trans_count(
                prev@,
                curr@,
                f,
                t,
            ),
        forall|f: int| #[trigger]
            total_from(final(table).entries@, f) == total_from(old(table).entries@, f)
                + trans_from(prev@, curr@, f),
        total_all(final(table).entries@) == total_all(old(table).entries@) + matched_count(
            prev@,
            curr@,
        ),
{
    let ghost t0 = old(table).entries@;
    let mut i: usize = 0;
    while i < prev.len()
        invariant
            i <= prev@.len(),
            table.wf(),
            forall|f: int, t: int| #[trigger]
                lookup(table.entries@, f, t) == lookup(t0, f, t) + trans_count(
                    prev@.take(i as int),
                    curr@,
                    f,
                    t,
                ),
            forall|f: int| #[trigger]
                total_from(table.entries@, f) == total_from(t0, f) + trans_from(
                    prev@.take(i as int),
                    curr@,
                    f,
                ),
            total_all(table.entries@) == total_all(t0) + matched_count(prev@.take(i as int), curr@),
        decreases prev@.len() - i,
    {
        proof {
            assert(prev@.take(i + 1).drop_last() =~= prev@.take(i as int));
            lemma_trans_le_matched(prev@.take(i as int), curr@);
            lemma_trans_le_matched(prev@.take(i + 1), curr@);
        }
        let name = &prev[i].0;
        let plab = prev[i].1;
        match find_in(curr, name) {
            Some(clab) => {
                table.increment(plab, clab);
            },
            None => {},
        }
        i = i + 1;
    }
    proof {
        assert(prev@.take(prev@.len() as int) =~= prev@);
    }
}

/// The percentage, in hundredths of a percent, that `count` makes of
/// `total`: exactly `count * 10000 / total`, truncated.
pub fn percent_hundredths(count: u64, total: u64) -> (r: u64)
    requires
        0 < total,
        count <= total,
    ensures
        r as int == count as int * 10000 / total as int,
        r <= 10000,
{
    let num: u128 = (count as u128) * 10000;
    let q: u128 = num / (total as u128);
    proof {
        assert(count as int * 10000 <= total as int * 10000) by (nonlinear_arith)
            requires
                count as int <= total as int,
        ;
        vstd::arithmetic::div_mod::lemma_div_is_ordered(
            count as int * 10000,
            total as int * 10000,
            total as int,
        );
        assert(total as int * 10000 == 10000 * total as int) by (nonlinear_arith);
        vstd::arithmetic::div_mod::lemma_div_by_multiple(10000, total as int);
        vstd::arithmetic::div_mod::lemma_div_pos_is_pos(count as int * 10000, total as int);
    }
    q as u64
}

} // verus!
