//! Aggregate statistics over a log of meditation sessions: totals, the
//! current daily streak, and the most frequent category and speaker with a
//! deterministic, lexicographic tie-break.

use vstd::prelude::*;

use crate::record::MeditationData;
use crate::record::RecordView;
use crate::text::lex_leq;
use crate::text::lemma_lex_leq_reflexive;
use crate::text::lemma_lex_leq_total;
use crate::text::lemma_lex_leq_transitive;

verus! {

/// The sum of the durations of all records, in seconds.
pub open spec fn sum_durations(rs: Seq<RecordView>) -> int
    decreases rs.len(),
{
    if rs.len() == 0 {
        0
    } else {
        sum_durations(rs.drop_last()) + rs.last().duration
    }
}

/// The UTC calendar day holding a Unix timestamp, as a day number since
/// the epoch; meaningful for non-negative timestamps.
pub open spec fn day_of(ts: int) -> int {
    ts / 86400
}

/// The calendar days of the records, in record order.
pub open spec fn days_of(rs: Seq<RecordView>) -> Seq<int> {
    rs.map_values(|r: RecordView| day_of(r.datetime))
}

/// The largest element of a sequence of integers; meaningful when the
/// sequence is non-empty.
pub open spec fn seq_max(s: Seq<int>) -> int
    decreases s.len(),
{
    if s.len() <= 1 {
        s[0]
    } else if s.last() > seq_max(s.drop_last()) {
        s.last()
    } else {
        seq_max(s.drop_last())
    }
}

/// The length of the run of consecutive days `d`, `d - 1`, `d - 2`, ...
/// that are all present in the given set of days.
pub open spec fn run_len(days: Set<int>, d: int) -> nat
    decreases days.len(),
        when days.finite()
{
    if days.finite() && days.contains(d) {
        (1 + run_len(days.remove(d), d - 1)) as nat
    } else {
        0
    }
}

/// The streak of consecutive meditation days ending at `today` or
/// `today - 1`: zero unless the most recent session day is today or
/// yesterday, and otherwise the length of the run of consecutive days,
/// walking backward from that most recent day, each with at least one
/// session. Several sessions on one day count once.
pub open spec fn spec_streak(rs: Seq<RecordView>, today: int) -> nat {
    if rs.len() == 0 {
        0
    } else {
        let last = seq_max(days_of(rs));
        if last == today || last == today - 1 {
            run_len(days_of(rs).to_set(), last)
        } else {
            0
        }
    }
}

/// The categories of the records, in record order.
pub open spec fn categories_of(rs: Seq<RecordView>) -> Seq<Seq<char>> {
    rs.map_values(|r: RecordView| r.category)
}

/// The speakers of the records, in record order.
pub open spec fn speakers_of(rs: Seq<RecordView>) -> Seq<Seq<char>> {
    rs.map_values(|r: RecordView| r.speaker)
}

/// How many times a value occurs in a sequence of values.
pub open spec fn count_occ(vals: Seq<Seq<char>>, v: Seq<char>) -> int
    decreases vals.len(),
{
    if vals.len() == 0 {
        0
    } else {
        count_occ(vals.drop_last(), v) + if vals.last() == v {
            1int
        } else {
            0int
        }
    }
}

/// The winner among the first `k` values: the one occurring most often in
/// the whole sequence, earliest-scan order, with ties going to the
/// lexicographically smaller value.
pub open spec fn best_upto(vals: Seq<Seq<char>>, k: int) -> Seq<char>
    decreases k,
{
    if k <= 1 {
        vals[0]
    } else {
        let prev = best_upto(vals, k - 1);
        let cand = vals[k - 1];
        if count_occ(vals, cand) > count_occ(vals, prev) || (count_occ(vals, cand) == count_occ(
            vals,
            prev,
        ) && lex_leq(cand, prev) && cand != prev) {
            cand
        } else {
            prev
        }
    }
}

/// The most frequent value of a sequence, ties broken by taking the
/// lexicographically smallest tied value; the empty sequence for an empty
/// input.
pub open spec fn favorite_of(vals: Seq<Seq<char>>) -> Seq<char> {
    if vals.len() == 0 {
        Seq::empty()
    } else {
        best_upto(vals, vals.len() as int)
    }
}

proof fn lemma_best_upto(vals: Seq<Seq<char>>, k: int)
    requires
        1 <= k <= vals.len(),
    ensures
        exists|i: int| 0 <= i < k && best_upto(vals, k) == vals[i],
        forall|j: int| 0 <= j < k ==> count_occ(vals, #[trigger] vals[j]) <= count_occ(
            vals,
            best_upto(vals, k),
        ),
        forall|j: int|
            0 <= j < k && count_occ(vals, #[trigger] vals[j]) == count_occ(
                vals,
                best_upto(vals, k),
            ) ==> lex_leq(best_upto(vals, k), vals[j]),
    decreases k,
{
    if k == 1 {
        assert(best_upto(vals, 1) == vals[0]);
        lemma_lex_leq_reflexive(vals[0]);
    } else {
        lemma_best_upto(vals, k - 1);
        let prev = best_upto(vals, k - 1);
        let cand = vals[k - 1];
        let best = best_upto(vals, k);
        if count_occ(vals, cand) > count_occ(vals, prev) || (count_occ(vals, cand) == count_occ(
            vals,
            prev,
        ) && lex_leq(cand, prev) && cand != prev) {
            assert(best == cand);
            lemma_lex_leq_reflexive(cand);
            assert forall|j: int|
                0 <= j < k && count_occ(vals, #[trigger] vals[j]) == count_occ(
                    vals,
                    best,
                ) implies lex_leq(best, vals[j]) by {
                if j < k - 1 && vals[j] != cand {
                    assert(count_occ(vals, vals[j]) <= count_occ(vals, prev));
                    assert(count_occ(vals, cand) == count_occ(vals, prev));
                    assert(lex_leq(prev, vals[j]));
                    lemma_lex_leq_transitive(cand, prev, vals[j]);
                }
                if vals[j] == cand {
                    assert(lex_leq(best, vals[j]));
                }
            }
        } else {
            assert(best == prev);
            // the candidate does not displace the winner: either it occurs
            // less often, or it ties and is not lexicographically smaller
            if count_occ(vals, cand) == count_occ(vals, prev) {
                lemma_lex_leq_total(cand, prev);
                if cand == prev {
                    lemma_lex_leq_reflexive(prev);
                } else {
                    assert(lex_leq(prev, cand));
                }
            }
        }
    }
}

/// The favorite of a non-empty sequence occurs in it, no value occurs more
/// often, and it is lexicographically least among the values tied with it.
pub proof fn lemma_favorite_is_mode(vals: Seq<Seq<char>>)
    requires
        vals.len() > 0,
    ensures
        exists|i: int| 0 <= i < vals.len() && favorite_of(vals) == vals[i],
        forall|j: int| 0 <= j < vals.len() ==> count_occ(vals, #[trigger] vals[j]) <= count_occ(
            vals,
            favorite_of(vals),
        ),
        forall|j: int|
            0 <= j < vals.len() && count_occ(vals, #[trigger] vals[j]) == count_occ(
                vals,
                favorite_of(vals),
            ) ==> lex_leq(favorite_of(vals), vals[j]),
{
    lemma_best_upto(vals, vals.len() as int);
}

/// On an empty log every aggregate is zero or empty: no sessions, no
/// seconds, no streak, and empty favorites.
pub proof fn lemma_stats_empty(today: int)
    ensures
        sum_durations(Seq::<RecordView>::empty()) == 0,
        spec_streak(Seq::<RecordView>::empty(), today) == 0,
        favorite_of(Seq::<Seq<char>>::empty()) == Seq::<char>::empty(),
{
}

/// Aggregated statistics of a session log. Durations are kept in exact
/// seconds; hour and average figures are exposed as exact quotient and
/// remainder pairs.
pub struct Stats {
    /// The sum of all session durations, in seconds.
    pub total_duration_seconds: u128,
    /// The current streak of consecutive meditation days.
    pub days_meditated_in_row: u32,
    /// The number of sessions in the log.
    pub total_meditation_sessions: usize,
    /// The most frequent category, or empty for an empty log.
    pub favorite_category: String,
    /// The most frequent speaker, or empty for an empty log.
    pub favorite_speaker: String,
}

impl Stats {
    /// The total time meditated, as whole hours and the remaining seconds.
    pub fn total_hours_meditated(&self) -> (r: (u128, u128))
        ensures
            r.0 == self.total_duration_seconds as int / 3600,
            r.1 == self.total_duration_seconds as int % 3600,
            r.0 * 3600 + r.1 == self.total_duration_seconds,
    {
        proof {
            vstd::arithmetic::div_mod::lemma_fundamental_div_mod(
                self.total_duration_seconds as int,
                3600,
            );
        }
        (self.total_duration_seconds / 3600, self.total_duration_seconds % 3600)
    }

    /// The mean session duration, as whole seconds and a remainder: the
    /// exact quotient of the total duration by the session count, and zero
    /// for an empty log rather than a division failure.
    pub fn average_duration_per_meditation(&self) -> (r: (u128, u128))
        ensures
            self.total_meditation_sessions == 0 ==> r == (0u128, 0u128),
            self.total_meditation_sessions > 0 ==> {
                &&& r.0 == self.total_duration_seconds as int / self.total_meditation_sessions as int
                &&& r.1 == self.total_duration_seconds as int % self.total_meditation_sessions as int
                &&& r.0 * self.total_meditation_sessions + r.1 == self.total_duration_seconds
                &&& r.1 < self.total_meditation_sessions
            },
    {
        if self.total_meditation_sessions == 0 {
            (0, 0)
        } else {
            let count = self.total_meditation_sessions as u128;
            proof {
                vstd::arithmetic::div_mod::lemma_fundamental_div_mod(
                    self.total_duration_seconds as int,
                    count as int,
                );
            }
            (self.total_duration_seconds / count, self.total_duration_seconds % count)
        }
    }
}

/// Compiles a `Stats` value from a list of meditation sessions.
pub struct StatsBuilder {
    meditations: Vec<MeditationData>,
}

impl View for StatsBuilder {
    type V = Seq<RecordView>;

    closed spec fn view(&self) -> Seq<RecordView> {
        self.meditations.deep_view()
    }
}

impl StatsBuilder {
    /// Wraps a list of sessions for aggregation.
    pub fn new(meditations: Vec<MeditationData>) -> (r: Self)
        ensures
            r@ == meditations.deep_view(),
    {
        StatsBuilder { meditations }
    }

    /// Builds the statistics, taking "today" from the system clock; the
    /// clock-independent fields are pinned exactly, and the streak is the
    /// streak for whatever day the clock gave.
    pub fn build(self) -> (r: Stats)
        requires
            crate::codec::all_valid(self@),
        ensures
            r.total_meditation_sessions == self@.len(),
            r.total_duration_seconds == sum_durations(self@),
            r.favorite_category@ == favorite_of(categories_of(self@)),
            r.favorite_speaker@ == favorite_of(speakers_of(self@)),
            exists|today: int| r.days_meditated_in_row == spec_streak(self@, today),
    {
        let ghost rs = self@;
        let now = crate::clock::utc_now_timestamp();
        let now = if now >= 0 {
            now
        } else {
            0
        };
        let r = self.build_with_now(now);
        proof {
            assert(r.days_meditated_in_row == spec_streak(rs, day_of(now as int)));
        }
        r
    }

    /// Builds the statistics against an injected "now", a non-negative
    /// Unix timestamp in seconds: every field of the result is pinned.
    pub fn build_with_now(self, now: i64) -> (r: Stats)
        requires
            0 <= now,
            crate::codec::all_valid(self@),
        ensures
            r.total_meditation_sessions == self@.len(),
            r.total_duration_seconds == sum_durations(self@),
            r.days_meditated_in_row == spec_streak(self@, day_of(now as int)),
            r.favorite_category@ == favorite_of(categories_of(self@)),
            r.favorite_speaker@ == favorite_of(speakers_of(self@)),
    {
        let ghost rs = self@;
        let total_meditation_sessions = self.meditations.len();
        let total_duration_seconds = Self::sum_duration_seconds(&self.meditations);
        let days_meditated_in_row = self.calculate_current_streak(now);

        let mut categories: Vec<String> = Vec::new();
        let mut speakers: Vec<String> = Vec::new();
        let n = self.meditations.len();
        let mut i: usize = 0;
        assert(categories.deep_view() =~= categories_of(rs).take(0));
        assert(speakers.deep_view() =~= speakers_of(rs).take(0));
        while i < n
            invariant
                0 <= i <= n,
                n == self.meditations@.len(),
                rs == self@,
                categories@.len() == i,
                speakers@.len() == i,
                categories.deep_view() == categories_of(rs).take(i as int),
                speakers.deep_view() == speakers_of(rs).take(i as int),
            decreases n - i,
        {
            let m = &self.meditations[i];
            assert(rs[i as int] == m@);
            let c = m.category.clone();
            let s = m.speaker.clone();
            assert(c@ == categories_of(rs)[i as int]);
            assert(s@ == speakers_of(rs)[i as int]);
            categories.push(c);
            speakers.push(s);
            assert(categories@[i as int]@ == categories_of(rs)[i as int]);
            assert(speakers@[i as int]@ == speakers_of(rs)[i as int]);
            assert(categories.deep_view() =~= categories_of(rs).take(i as int + 1));
            assert(speakers.deep_view() =~= speakers_of(rs).take(i as int + 1));
            i = i + 1;
        }
        assert(categories_of(rs).take(n as int) =~= categories_of(rs));
        assert(speakers_of(rs).take(n as int) =~= speakers_of(rs));

        let favorite_category = match Self::find_most_frequent(&categories) {
            Some(v) => v,
            None => String::new(),
        };
        let favorite_speaker = match Self::find_most_frequent(&speakers) {
            Some(v) => v,
            None => String::new(),
        };

        Stats {
            total_duration_seconds,
            days_meditated_in_row,
            total_meditation_sessions,
            favorite_category,
            favorite_speaker,
        }
    }

    /// The exact sum of the durations, which cannot overflow: each of the
    /// at most `usize::MAX` records contributes less than `2^31` seconds.
    fn sum_duration_seconds(meditations: &Vec<MeditationData>) -> (r: u128)
        requires
            crate::codec::all_valid(meditations.deep_view()),
        ensures
            r == sum_durations(meditations.deep_view()),
    {
        let ghost rs = meditations.deep_view();
        let n = meditations.len();
        let mut acc: u128 = 0;
        let mut i: usize = 0;
        assert(rs.take(0) =~= Seq::<RecordView>::empty());
        while i < n
            invariant
                0 <= i <= n,
                n == meditations@.len(),
                rs == meditations.deep_view(),
                crate::codec::all_valid(rs),
                acc == sum_durations(rs.take(i as int)),
                acc <= i as int * 0x80000000,
            decreases n - i,
        {
            let m = &meditations[i];
            assert(rs[i as int] == m@);
            assert(m@.valid());
            proof {
                assert(rs.take(i as int + 1).drop_last() =~= rs.take(i as int));
                assert(rs.take(i as int + 1).last() == rs[i as int]);
                assert(i as int * 0x80000000 + 0x80000000 == (i as int + 1) * 0x80000000)
                    by (nonlinear_arith);
                assert((i as int + 1) * 0x80000000 <= 0x10000000000000000 * 0x80000000)
                    by (nonlinear_arith)
                    requires i as int + 1 <= 0x10000000000000000;
            }
            acc = acc + (m.duration as u128);
            i = i + 1;
        }
        assert(rs.take(n as int) =~= rs);
        acc
    }

    /// Whether any session of the list falls on the given calendar day.
    fn contains_day(meditations: &Vec<MeditationData>, d: i64) -> (r: bool)
        requires
            crate::codec::all_valid(meditations.deep_view()),
        ensures
            r == days_of(meditations.deep_view()).contains(d as int),
    {
        let ghost rs = meditations.deep_view();
        let n = meditations.len();
        let mut i: usize = 0;
        while i < n
            invariant
                0 <= i <= n,
                n == meditations@.len(),
                rs == meditations.deep_view(),
                crate::codec::all_valid(rs),
                forall|k: int| 0 <= k < i ==> days_of(rs)[k] != d as int,
            decreases n - i,
        {
            let m = &meditations[i];
            assert(rs[i as int] == m@);
            assert(m@.valid());
            let day = (m.datetime as i64) / 86400;
            assert(day == day_of(rs[i as int].datetime));
            if day == d {
                assert(days_of(rs)[i as int] == d as int);
                return true;
            }
            i = i + 1;
        }
        assert(!days_of(rs).contains(d as int)) by {
            assert(forall|k: int| 0 <= k < days_of(rs).len() ==> days_of(rs)[k] != d as int);
        };
        false
    }

    /// The largest calendar day of a non-empty list of sessions; it is
    /// non-negative and at most the largest storable timestamp.
    fn max_day(meditations: &Vec<MeditationData>) -> (r: i64)
        requires
            meditations.deep_view().len() > 0,
            crate::codec::all_valid(meditations.deep_view()),
        ensures
            r == seq_max(days_of(meditations.deep_view())),
            0 <= r <= i32::MAX,
    {
        let ghost rs = meditations.deep_view();
        let ghost days = days_of(rs);
        let n = meditations.len();
        let first = &meditations[0];
        assert(*first == meditations@[0]);
        assert(rs[0] == meditations@[0].deep_view());
        assert(rs[0] == first@);
        assert(rs[0].valid());
        let mut best: i64 = (first.datetime as i64) / 86400;
        assert(best == days[0]);
        assert(0 <= best <= i32::MAX) by {
            vstd::arithmetic::div_mod::lemma_div_is_ordered(
                first.datetime as int,
                i32::MAX as int,
                86400,
            );
        };
        assert(days.take(1) =~= seq![days[0]]);
        assert(seq_max(days.take(1)) == days[0]);
        let mut i: usize = 1;
        while i < n
            invariant
                1 <= i <= n,
                n == meditations@.len(),
                rs == meditations.deep_view(),
                days == days_of(rs),
                crate::codec::all_valid(rs),
                best == seq_max(days.take(i as int)),
                0 <= best <= i32::MAX,
            decreases n - i,
        {
            let m = &meditations[i];
            assert(*m == meditations@[i as int]);
            assert(rs[i as int] == m@);
            assert(rs[i as int].valid());
            let day = (m.datetime as i64) / 86400;
            assert(days[i as int] == day_of(rs[i as int].datetime));
            assert(day == days[i as int]);
            assert(0 <= day <= i32::MAX) by {
                vstd::arithmetic::div_mod::lemma_div_is_ordered(
                    m.datetime as int,
                    i32::MAX as int,
                    86400,
                );
            };
            proof {
                assert(days.take(i as int + 1).drop_last() =~= days.take(i as int));
                assert(days.take(i as int + 1).last() == days[i as int]);
                assert(days.take(i as int + 1).len() == i + 1 >= 2);
            }
            if day > best {
                best = day;
            }
            i = i + 1;
        }
        assert(days.take(n as int) =~= days);
        best
    }

    /// Walking one day at a time from `d` downward, removing each visited
    /// day, does not disturb runs that start strictly below a removed day.
    proof fn lemma_run_len_remove(s: Set<int>, x: int, d: int)
        requires
            s.finite(),
            x > d,
        ensures
            run_len(s.remove(x), d) == run_len(s, d),
        decreases s.len(),
    {
        if s.contains(d) {
            assert(s.remove(x).contains(d));
            assert(s.remove(x).remove(d) =~= s.remove(d).remove(x));
            Self::lemma_run_len_remove(s.remove(d), x, d - 1);
        } else {
            assert(!s.remove(x).contains(d));
        }
    }

    /// The current streak of consecutive meditation days, counted against
    /// the given "now" timestamp: see [`spec_streak`].
    pub fn calculate_current_streak(&self, now: i64) -> (r: u32)
        requires
            0 <= now,
            crate::codec::all_valid(self@),
        ensures
            r == spec_streak(self@, day_of(now as int)),
    {
        let ghost rs = self@;
        let n = self.meditations.len();
        if n == 0 {
            return 0;
        }
        let today = now / 86400;
        let last = Self::max_day(&self.meditations);
        if !(last == today || last == today - 1) {
            return 0;
        }
        let ghost days = days_of(rs);
        let ghost dayset = days.to_set();
        proof {
            broadcast use vstd::seq_lib::seq_to_set_is_finite;

            assert(dayset.finite());
        }
        let mut k: u32 = 0;
        let mut d: i64 = last;
        while Self::contains_day(&self.meditations, d)
            invariant
                rs == self@,
                crate::codec::all_valid(rs),
                days == days_of(rs),
                dayset == days.to_set(),
                dayset.finite(),
                self.meditations@.len() == n > 0,
                last == seq_max(days) && 0 <= last <= i32::MAX,
                -1 <= d <= last,
                k == last - d,
                run_len(dayset, last as int) == k + run_len(dayset, d as int),
            decreases d + 1,
        {
            proof {
                assert(days.contains(d as int));
                assert(dayset.contains(d as int));
                assert(run_len(dayset, d as int) == 1 + run_len(
                    dayset.remove(d as int),
                    d as int - 1,
                ));
                Self::lemma_run_len_remove(dayset, d as int, d as int - 1);
                let w = choose|w: int| 0 <= w < days.len() && days[w] == d as int;
                assert(rs[w].valid());
                assert(days[w] == day_of(rs[w].datetime));
                assert(d >= 0) by {
                    vstd::arithmetic::div_mod::lemma_div_is_ordered(0, rs[w].datetime, 86400);
                };
            }
            k = k + 1;
            d = d - 1;
        }
        proof {
            assert(!dayset.contains(d as int));
            assert(run_len(dayset, d as int) == 0);
            assert(run_len(dayset, last as int) == k);
        }
        k
    }

    /// The most frequent value of a list, `None` only for an empty list;
    /// ties go to the lexicographically smallest tied value.
    pub fn find_most_frequent(items: &Vec<String>) -> (r: Option<String>)
        ensures
            r is Some <==> items.deep_view().len() > 0,
            r matches Some(v) ==> v@ == favorite_of(items.deep_view()),
    {
        let ghost vals = items.deep_view();
        let n = items.len();
        if n == 0 {
            return None;
        }
        let mut best_idx: usize = 0;
        let mut best_count: usize = Self::count_eq(items, 0);
        assert(best_upto(vals, 1) == vals[0]);
        let mut i: usize = 1;
        while i < n
            invariant
                1 <= i <= n,
                0 <= best_idx < i,
                n == items@.len(),
                vals == items.deep_view(),
                best_count == count_occ(vals, vals[best_idx as int]),
                best_upto(vals, i as int) == vals[best_idx as int],
            decreases n - i,
        {
            let c = Self::count_eq(items, i);
            let cand_wins = c > best_count || (c == best_count && crate::text::str_lex_leq(
                items[i].as_str(),
                items[best_idx].as_str(),
            ) && !(items[i] == items[best_idx]));
            proof {
                assert(vals[i as int] == items@[i as int]@);
                assert(vals[best_idx as int] == items@[best_idx as int]@);
            }
            if cand_wins {
                best_idx = i;
                best_count = c;
            }
            assert(best_upto(vals, i as int + 1) == vals[best_idx as int]);
            i = i + 1;
        }
        let r = items[best_idx].clone();
        assert(r@ == vals[best_idx as int]);
        Some(r)
    }

    /// How many entries of the list equal its entry at `at`.
    fn count_eq(items: &Vec<String>, at: usize) -> (c: usize)
        requires
            at < items@.len(),
        ensures
            c == count_occ(items.deep_view(), items.deep_view()[at as int]),
    {
        let ghost vals = items.deep_view();
        let ghost target = vals[at as int];
        let n = items.len();
        let mut c: usize = 0;
        let mut i: usize = 0;
        assert(count_occ(vals.take(0), target) == 0);
        while i < n
            invariant
                0 <= i <= n,
                at < n,
                n == items@.len(),
                vals == items.deep_view(),
                target == vals[at as int],
                0 <= c <= i,
                c == count_occ(vals.take(i as int), target),
            decreases n - i,
        {
            proof {
                assert(vals.take(i as int + 1).drop_last() =~= vals.take(i as int));
                assert(vals.take(i as int + 1).last() == vals[i as int]);
                assert(vals[i as int] == items@[i as int]@);
                assert(vals[at as int] == items@[at as int]@);
            }
            if items[i] == items[at] {
                c = c + 1;
            }
            i = i + 1;
        }
        assert(vals.take(n as int) =~= vals);
        c
    }
}

/// A fixed six-session fixture spanning four consecutive days, a gap, and
/// two later days; handy for exercising the aggregates.
pub fn create_mock_meditations() -> (r: Vec<MeditationData>)
    ensures
        r.deep_view().len() == 6,
        crate::codec::all_valid(r.deep_view()),
{
    proof {
        reveal_strlit("Mindfulness");
        reveal_strlit("Relaxation");
        reveal_strlit("Healing");
        reveal_strlit("Alice");
        reveal_strlit("Bob");
        reveal_strlit("Charlie");
        assert(!crate::text::is_space_char("Mindfulness"@[0]));
        assert(!crate::text::is_space_char("Relaxation"@[0]));
        assert(!crate::text::is_space_char("Healing"@[0]));
        assert(!crate::text::is_space_char("Alice"@[0]));
        assert(!crate::text::is_space_char("Bob"@[0]));
        assert(!crate::text::is_space_char("Charlie"@[0]));
    }
    let mut v: Vec<MeditationData> = Vec::new();
    v.push(
        MeditationData {
            datetime: 1617638400,
            duration: 1800,
            category: "Mindfulness".to_owned(),
            speaker: "Alice".to_owned(),
        },
    );
    v.push(
        MeditationData {
            datetime: 1617724800,
            duration: 3600,
            category: "Relaxation".to_owned(),
            speaker: "Bob".to_owned(),
        },
    );
    v.push(
        MeditationData {
            datetime: 1617811200,
            duration: 900,
            category: "Mindfulness".to_owned(),
            speaker: "Alice".to_owned(),
        },
    );
    v.push(
        MeditationData {
            datetime: 1617897600,
            duration: 1200,
            category: "Relaxation".to_owned(),
            speaker: "Charlie".to_owned(),
        },
    );
    v.push(
        MeditationData {
            datetime: 1707421416,
            duration: 3000,
            category: "Healing".to_owned(),
            speaker: "Alice".to_owned(),
        },
    );
    v.push(
        MeditationData {
            datetime: 1707575913,
            duration: 2100,
            category: "Mindfulness".to_owned(),
            speaker: "Bob".to_owned(),
        },
    );
    v
}

} // verus!
