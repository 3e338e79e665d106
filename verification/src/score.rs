//! The score book: the persisted leaderboard's in-memory form, kept sorted
//! by session time, with a fastest-laps list derived from splits.

use vstd::prelude::*;
use crate::game::KeyEv;
use crate::text::str_eq;

verus! {

/// One word's recorded outcome inside a score record.
#[derive(Clone, Debug, PartialEq)]
pub struct SplitRec {
    pub word: String,
    pub ms: u64,
    pub miss: u32,
}

/// A finished session's score: mode label, timestamp, totals, splits,
/// derived rates and rank, and optional annotation, speed series and
/// replay.  Times are milliseconds; rates are milli-units.
#[derive(Clone, Debug, PartialEq)]
pub struct ScoreRecord {
    pub mode: String,
    pub datetime: String,
    pub time_ms: u64,
    pub miss: u32,
    pub timeloss_ms: u64,
    pub splits: Vec<SplitRec>,
    pub wpm_top: u64,
    pub wpm_worst: u64,
    pub rank: String,
    pub memo: Option<String>,
    pub speed_series: Option<Vec<(u64, u64)>>,
    pub word_display: Option<String>,
    pub replay: Option<Vec<KeyEv>>,
}

impl Default for ScoreRecord {
    /// An empty record: zero times and counts, empty labels, no options.
    fn default() -> (r: Self)
        ensures
            r.mode@.len() == 0,
            r.datetime@.len() == 0,
            r.time_ms == 0,
            r.miss == 0,
            r.timeloss_ms == 0,
            r.splits@.len() == 0,
            r.wpm_top == 0,
            r.wpm_worst == 0,
            r.rank@.len() == 0,
            r.memo is None,
            r.speed_series is None,
            r.word_display is None,
            r.replay is None,
    {
        ScoreRecord {
            mode: String::new(),
            datetime: String::new(),
            time_ms: 0,
            miss: 0,
            timeloss_ms: 0,
            splits: Vec::new(),
            wpm_top: 0,
            wpm_worst: 0,
            rank: String::new(),
            memo: None,
            speed_series: None,
            word_display: None,
            replay: None,
        }
    }
}

/// Records ordered by non-decreasing session time.
pub open spec fn sorted_by_time(s: Seq<ScoreRecord>) -> bool {
    forall|i: int, j: int| 0 <= i < j < s.len() ==> s[i].time_ms <= s[j].time_ms
}

/// The index where a record of time `t` is inserted: after every record
/// whose time is no greater.
pub open spec fn ins_pt(s: Seq<ScoreRecord>, t: u64) -> int
    decreases s.len(),
{
    if s.len() == 0 {
        0
    } else if s[0].time_ms > t {
        0
    } else {
        1 + ins_pt(s.drop_first(), t)
    }
}

pub proof fn lemma_ins_pt(s: Seq<ScoreRecord>, t: u64)
    ensures
        0 <= ins_pt(s, t) <= s.len(),
        forall|j: int| 0 <= j < ins_pt(s, t) ==> s[j].time_ms <= t,
        ins_pt(s, t) < s.len() ==> s[ins_pt(s, t)].time_ms > t,
    decreases s.len(),
{
    if s.len() > 0 && !(s[0].time_ms > t) {
        lemma_ins_pt(s.drop_first(), t);
        assert forall|j: int| 0 <= j < ins_pt(s, t) implies s[j].time_ms <= t by {
            if j > 0 {
                assert(s.drop_first()[j - 1] == s[j]);
            }
        }
        if ins_pt(s, t) < s.len() {
            assert(s.drop_first()[ins_pt(s, t) - 1] == s[ins_pt(s, t)]);
        }
    }
}

/// The first index whose record carries this datetime; the length if none
/// does.
pub open spec fn find_dt(s: Seq<ScoreRecord>, dt: Seq<char>) -> int
    decreases s.len(),
{
    if s.len() == 0 {
        0
    } else if s[0].datetime@ == dt {
        0
    } else {
        1 + find_dt(s.drop_first(), dt)
    }
}

pub proof fn lemma_find_dt(s: Seq<ScoreRecord>, dt: Seq<char>)
    ensures
        0 <= find_dt(s, dt) <= s.len(),
        forall|j: int| 0 <= j < find_dt(s, dt) ==> s[j].datetime@ != dt,
        find_dt(s, dt) < s.len() ==> s[find_dt(s, dt)].datetime@ == dt,
    decreases s.len(),
{
    if s.len() > 0 && s[0].datetime@ != dt {
        lemma_find_dt(s.drop_first(), dt);
        assert forall|j: int| 0 <= j < find_dt(s, dt) implies s[j].datetime@ != dt by {
            if j > 0 {
                assert(s.drop_first()[j - 1] == s[j]);
            }
        }
        if find_dt(s, dt) < s.len() {
            assert(s.drop_first()[find_dt(s, dt) - 1] == s[find_dt(s, dt)]);
        }
    }
}

/// Inserts a record into a time-sorted list, after all records of no
/// greater time.
fn insert_sorted(v: &mut Vec<ScoreRecord>, rec: ScoreRecord)
    requires
        sorted_by_time(old(v)@),
    ensures
        final(v)@ == old(v)@.insert(ins_pt(old(v)@, rec.time_ms), rec),
        sorted_by_time(final(v)@),
{
    let t = rec.time_ms;
    let mut i: usize = 0;
    let mut stop = false;
    while i < v.len() && !stop
        invariant
            v@ == old(v)@,
            i <= v@.len(),
            forall|j: int| 0 <= j < i ==> v@[j].time_ms <= t,
            stop ==> i < v@.len() && v@[i as int].time_ms > t,
        decreases v@.len() - i + (if stop { 0int } else { 1int }),
    {
        if v[i].time_ms > t {
            stop = true;
        } else {
            i = i + 1;
        }
    }
    proof {
        lemma_ins_pt(v@, t);
        let p = ins_pt(v@, t);
        if (i as int) < p {
            assert(v@[i as int].time_ms <= t);
            assert(false);
        }
        if p < (i as int) {
            assert(v@[p].time_ms > t);
            assert(false);
        }
    }
    let ghost pre = v@;
    let ghost p = ins_pt(pre, t);
    v.insert(i, rec);
    proof {
        lemma_ins_pt(pre, t);
        pre.insert_ensures(p, rec);
        assert forall|a: int, b: int| 0 <= a < b < v@.len() implies v@[a].time_ms
            <= v@[b].time_ms by {
            if a == p {
                assert(v@[a] == rec);
                if b > p {
                    assert(v@[b] == pre[b - 1] && b - 1 >= p);
                    if b - 1 == p {
                        assert(pre[b - 1].time_ms > t);
                    }
                }
            } else if b == p {
                assert(v@[b] == rec);
                assert(v@[a] == pre[a] && a < p);
            } else if a < p && b > p {
                assert(v@[a] == pre[a] && v@[b] == pre[b - 1]);
                assert(a <= b - 1);
                if a == b - 1 {
                } else {
                    assert(pre[a].time_ms <= pre[b - 1].time_ms);
                }
            } else if b < p {
                assert(v@[a] == pre[a] && v@[b] == pre[b]);
            } else {
                assert(v@[a] == pre[a - 1] && v@[b] == pre[b - 1]);
            }
        }
    }
}

/// The record matches one lap entry derived from a split: the split's time
/// and word, everything else empty.
pub open spec fn lap_rec_matches(l: ScoreRecord, sp: SplitRec) -> bool {
    &&& l.time_ms == sp.ms
    &&& l.word_display is Some
    &&& l.word_display->0 == sp.word
    &&& l.mode@.len() == 0
    &&& l.datetime@.len() == 0
    &&& l.miss == 0
    &&& l.timeloss_ms == 0
    &&& l.splits@.len() == 0
    &&& l.wpm_top == 0
    &&& l.wpm_worst == 0
    &&& l.rank@.len() == 0
    &&& l.memo is None
    &&& l.speed_series is None
    &&& l.replay is None
}

/// A lap entry came from the old list or from one of the new splits.
pub open spec fn lap_from(l: ScoreRecord, older: Seq<ScoreRecord>, sps: Seq<SplitRec>) -> bool {
    ||| exists|j: int| 0 <= j < older.len() && l == older[j]
    ||| exists|j: int| 0 <= j < sps.len() && lap_rec_matches(l, #[trigger] sps[j])
}

/// Inserting anywhere adds exactly one occurrence to the multiset.
proof fn lemma_insert_to_multiset(s: Seq<ScoreRecord>, p: int, x: ScoreRecord)
    requires
        0 <= p <= s.len(),
    ensures
        s.insert(p, x).to_multiset() == s.to_multiset().insert(x),
{
    broadcast use vstd::seq_lib::group_to_multiset_ensures;

    let t = s.insert(p, x);
    s.insert_ensures(p, x);
    assert(t.remove(p) =~= s);
    assert(t[p] == x);
    assert(t.remove(p).to_multiset() =~= t.to_multiset().remove(x));
    assert(t.contains(x));
    assert(t.to_multiset().count(x) > 0);
    assert forall|y: ScoreRecord|
        t.to_multiset().count(y) == #[trigger] s.to_multiset().insert(x).count(y) by {
        if y == x {
            assert(s.to_multiset().count(y) == t.to_multiset().remove(x).count(y));
        } else {
            assert(s.to_multiset().count(y) == t.to_multiset().remove(x).count(y));
        }
    }
    assert(t.to_multiset() =~= s.to_multiset().insert(x));
}

/// How the fastest-laps list is formed: one new record per split of the
/// finished session joins the old laps, the merged collection is ordered by
/// time, and only its ten smallest survive.
pub open spec fn lap_outcome(
    news: Seq<ScoreRecord>,
    merged: Seq<ScoreRecord>,
    older: Seq<ScoreRecord>,
    sps: Seq<SplitRec>,
    laps: Seq<ScoreRecord>,
) -> bool {
    &&& news.len() == sps.len()
    &&& (forall|j: int| 0 <= j < news.len() ==> lap_rec_matches(#[trigger] news[j], sps[j]))
    &&& merged.to_multiset() == older.to_multiset().add(news.to_multiset())
    &&& sorted_by_time(merged)
    &&& laps == (if merged.len() > 10 {
        merged.take(10)
    } else {
        merged
    })
}

/// The score history: best sessions by time, and the fastest laps.
#[derive(Clone, Debug)]
pub struct ScoreBook {
    pub top: Vec<ScoreRecord>,
    pub lap: Vec<ScoreRecord>,
}

impl ScoreBook {
    /// Where the host keeps the score history file.
    pub fn path() -> (r: String)
        ensures
            r@ == "data/scores.json"@,
    {
        String::from_str("data/scores.json")
    }

    /// Both lists are ordered by time.
    pub open spec fn wf(&self) -> bool {
        sorted_by_time(self.top@) && sorted_by_time(self.lap@)
    }

    /// An empty book.
    pub fn new() -> (r: ScoreBook)
        ensures
            r.wf(),
            r.top@.len() == 0,
            r.lap@.len() == 0,
    {
        ScoreBook { top: Vec::new(), lap: Vec::new() }
    }

    /// Whether both lists are ordered by time, for callers that load a
    /// book from outside.
    pub fn check_sorted(&self) -> (r: bool)
        ensures
            r == self.wf(),
    {
        let mut i: usize = 1;
        while i < self.top.len()
            invariant
                i >= 1,
                i <= self.top@.len() || self.top@.len() == 0,
                forall|a: int, b: int| 0 <= a < b < i && b < self.top@.len() ==> self.top@[a].time_ms <= self.top@[b].time_ms,
            decreases self.top@.len() - i,
        {
            if self.top[i - 1].time_ms > self.top[i].time_ms {
                assert(!sorted_by_time(self.top@));
                return false;
            }
            proof {
                assert forall|a: int, b: int|
                    0 <= a < b < i + 1 && b < self.top@.len() implies self.top@[a].time_ms
                    <= self.top@[b].time_ms by {
                    if b == i {
                        assert(self.top@[a].time_ms <= self.top@[i - 1].time_ms);
                    }
                }
            }
            i = i + 1;
        }
        assert(sorted_by_time(self.top@));
        let mut k: usize = 1;
        while k < self.lap.len()
            invariant
                k >= 1,
                sorted_by_time(self.top@),
                forall|a: int, b: int| 0 <= a < b < k && b < self.lap@.len() ==> self.lap@[a].time_ms <= self.lap@[b].time_ms,
            decreases self.lap@.len() - k,
        {
            if self.lap[k - 1].time_ms > self.lap[k].time_ms {
                assert(!sorted_by_time(self.lap@));
                return false;
            }
            proof {
                assert forall|a: int, b: int|
                    0 <= a < b < k + 1 && b < self.lap@.len() implies self.lap@[a].time_ms
                    <= self.lap@[b].time_ms by {
                    if b == k {
                        assert(self.lap@[a].time_ms <= self.lap@[k - 1].time_ms);
                    }
                }
            }
            k = k + 1;
        }
        assert(sorted_by_time(self.lap@));
        true
    }

    /// Inserts a finished session's record: the top list stays sorted by
    /// time and keeps its best hundred; the return value is the record's
    /// 1-based rank (when within the hundred) and whether it is a new
    /// personal best.  Each split also feeds the fastest-laps list, which
    /// keeps its best ten.
    pub fn insert_and_rank(&mut self, rec: ScoreRecord) -> (r: (Option<usize>, bool))
        requires
            old(self).wf(),
        ensures
            final(self).wf(),
            ({
                let tseq = old(self).top@.insert(ins_pt(old(self).top@, rec.time_ms), rec);
                &&& final(self).top@ == if tseq.len() > 100 {
                    tseq.take(100)
                } else {
                    tseq
                }
                &&& r.0 == (if find_dt(tseq, rec.datetime@) < 100 {
                    Some((find_dt(tseq, rec.datetime@) + 1) as usize)
                } else {
                    None
                })
                &&& r.1 == (old(self).top@.len() == 0 || rec.time_ms < old(
                    self,
                ).top@[0].time_ms)
                &&& final(self).lap@.len() == (if old(self).lap@.len() + rec.splits@.len() > 10 {
                    10int
                } else {
                    (old(self).lap@.len() + rec.splits@.len()) as int
                })
                &&& (forall|i: int|
                    0 <= i < final(self).lap@.len() ==> lap_from(
                        #[trigger] final(self).lap@[i],
                        old(self).lap@,
                        rec.splits@,
                    ))
                &&& (exists|news: Seq<ScoreRecord>, merged: Seq<ScoreRecord>|
                    lap_outcome(news, merged, old(self).lap@, rec.splits@, final(self).lap@))
            }),
    {
        let t = rec.time_ms;
        let dt = rec.datetime.clone();
        let prev_nonempty = self.top.len() > 0;
        let prev_best: u64 = if prev_nonempty {
            self.top[0].time_ms
        } else {
            0
        };
        let mut lap_words: Vec<String> = Vec::new();
        let mut lap_ms: Vec<u64> = Vec::new();
        let mut s: usize = 0;
        while s < rec.splits.len()
            invariant
                s <= rec.splits@.len(),
                lap_words@.len() == s,
                lap_ms@.len() == s,
                forall|j: int|
                    0 <= j < s ==> lap_words@[j] == rec.splits@[j].word && lap_ms@[j]
                        == rec.splits@[j].ms,
        decreases rec.splits@.len() - s,
        {
            lap_words.push(rec.splits[s].word.clone());
            lap_ms.push(rec.splits[s].ms);
            s = s + 1;
        }
        insert_sorted(&mut self.top, rec);
        let ghost tseq = self.top@;
        let mut fi: usize = 0;
        let mut hit = false;
        while fi < self.top.len() && !hit
            invariant
                self.top@ == tseq,
                fi <= tseq.len(),
                forall|j: int| 0 <= j < fi ==> tseq[j].datetime@ != dt@,
                hit ==> fi < tseq.len() && tseq[fi as int].datetime@ == dt@,
            decreases tseq.len() - fi + (if hit { 0int } else { 1int }),
        {
            if str_eq(self.top[fi].datetime.as_str(), dt.as_str()) {
                hit = true;
            } else {
                fi = fi + 1;
            }
        }
        let found: Option<usize> = if hit {
            Some(fi)
        } else {
            None
        };
        proof {
            lemma_find_dt(tseq, dt@);
            let p = find_dt(tseq, dt@);
            let ip2 = ins_pt(old(self).top@, rec.time_ms);
            lemma_ins_pt(old(self).top@, rec.time_ms);
            old(self).top@.insert_ensures(ip2, rec);
            assert(tseq[ip2] == rec);
            match found {
                Option::Some(f) => {
                    if (f as int) < p {
                        assert(tseq[f as int].datetime@ != dt@);
                        assert(false);
                    }
                    if p < (f as int) {
                        assert(tseq[p].datetime@ == dt@);
                        assert(false);
                    }
                    assert(f as int == p);
                },
                Option::None => {
                    if p < tseq.len() {
                        assert(tseq[p].datetime@ == dt@);
                        assert(false);
                    }
                    assert(tseq[ip2].datetime@ == dt@);
                    assert(false);
                },
            }
            assert(found is Some && found->0 as int == p);
        }
        if self.top.len() > 100 {
            self.top.truncate(100);
            proof {
                assert(self.top@ =~= tseq.take(100));
                assert forall|a: int, b: int| 0 <= a < b < self.top@.len()
                    implies self.top@[a].time_ms <= self.top@[b].time_ms by {
                    assert(self.top@[a] == tseq[a]);
                    assert(self.top@[b] == tseq[b]);
                }
            }
        }
        let rank_in: Option<usize> = match found {
            Option::Some(f) => {
                if f < 100 {
                    Some(f + 1)
                } else {
                    None
                }
            },
            Option::None => None,
        };
        let is_new_pb = if prev_nonempty {
            t < prev_best
        } else {
            true
        };
        let ghost lap0 = self.lap@;
        let ghost top_done = self.top@;
        let ghost mut news: Seq<ScoreRecord> = Seq::empty();
        proof {
            broadcast use vstd::seq_lib::group_to_multiset_ensures;

            assert(self.lap@.to_multiset() =~= lap0.to_multiset().add(news.to_multiset()));
        }
        let mut k: usize = 0;
        while k < lap_words.len()
            invariant
                self.top@ == top_done,
                k <= lap_words@.len(),
                lap_words@.len() == lap_ms@.len(),
                sorted_by_time(self.lap@),
                self.lap@.len() == lap0.len() + k,
                news.len() == k,
                forall|j: int|
                    0 <= j < k ==> lap_rec_matches(#[trigger] news[j], rec.splits@[j]),
                self.lap@.to_multiset() == lap0.to_multiset().add(news.to_multiset()),
                forall|j: int|
                    0 <= j < lap_words@.len() ==> lap_words@[j] == rec.splits@[j].word
                        && lap_ms@[j] == rec.splits@[j].ms,
                lap_words@.len() == rec.splits@.len(),
                forall|i: int|
                    0 <= i < self.lap@.len() ==> lap_from(
                        #[trigger] self.lap@[i],
                        lap0,
                        rec.splits@,
                    ),
            decreases lap_words@.len() - k,
        {
            let mut lr = ScoreRecord::default();
            lr.time_ms = lap_ms[k];
            lr.word_display = Some(lap_words[k].clone());
            proof {
                assert(lap_rec_matches(lr, rec.splits@[k as int]));
            }
            let ghost pre = self.lap@;
            let ghost news_pre = news;
            proof {
                news = news.push(lr);
            }
            insert_sorted(&mut self.lap, lr);
            proof {
                broadcast use vstd::seq_lib::group_to_multiset_ensures;

                let p = ins_pt(pre, lr.time_ms);
                lemma_ins_pt(pre, lr.time_ms);
                pre.insert_ensures(p, lr);
                lemma_insert_to_multiset(pre, p, lr);
                assert(news.to_multiset() =~= news_pre.to_multiset().insert(lr)) by {
                    assert(news == news_pre.push(lr));
                }
                assert(self.lap@.to_multiset() =~= lap0.to_multiset().add(news.to_multiset()));
                assert forall|i: int| 0 <= i < self.lap@.len() implies lap_from(
                    #[trigger] self.lap@[i],
                    lap0,
                    rec.splits@,
                ) by {
                    if i < p {
                        assert(self.lap@[i] == pre[i]);
                    } else if i == p {
                        assert(self.lap@[i] == lr);
                        assert(lap_rec_matches(self.lap@[i], rec.splits@[k as int]));
                    } else {
                        assert(self.lap@[i] == pre[i - 1]);
                    }
                }
            }
            k = k + 1;
        }
        let ghost merged = self.lap@;
        if self.lap.len() > 10 {
            let ghost pre = self.lap@;
            self.lap.truncate(10);
            proof {
                assert(self.lap@ =~= pre.take(10));
                assert forall|a: int, b: int| 0 <= a < b < self.lap@.len()
                    implies self.lap@[a].time_ms <= self.lap@[b].time_ms by {
                    assert(self.lap@[a] == pre[a]);
                    assert(self.lap@[b] == pre[b]);
                }
                assert forall|i: int| 0 <= i < self.lap@.len() implies lap_from(
                    #[trigger] self.lap@[i],
                    lap0,
                    rec.splits@,
                ) by {
                    assert(self.lap@[i] == pre[i]);
                }
            }
        }
        proof {
            assert(news.len() == rec.splits@.len());
            assert(lap_outcome(news, merged, lap0, rec.splits@, self.lap@));
            assert(exists|a: Seq<ScoreRecord>, b: Seq<ScoreRecord>|
                lap_outcome(a, b, lap0, rec.splits@, self.lap@));
            let ghost tfull = old(self).top@.insert(ins_pt(old(self).top@, rec.time_ms), rec);
            assert(tseq == tfull);
            assert(self.top@ == (if tfull.len() > 100 {
                tfull.take(100)
            } else {
                tfull
            }));
            assert(rank_in == (if find_dt(tfull, rec.datetime@) < 100 {
                Some((find_dt(tfull, rec.datetime@) + 1) as usize)
            } else {
                None
            }));
            assert(is_new_pb == (old(self).top@.len() == 0 || rec.time_ms < old(
                self,
            ).top@[0].time_ms));
            assert(self.lap@.len() == (if old(self).lap@.len() + rec.splits@.len() > 10 {
                10int
            } else {
                (old(self).lap@.len() + rec.splits@.len()) as int
            }));
        }
        (rank_in, is_new_pb)
    }

    /// Sets the free-text note of the record with this datetime.  Returns
    /// whether a record was found.
    pub fn set_memo_by_datetime(&mut self, datetime: &str, memo: String) -> (r: bool)
        requires
            old(self).wf(),
        ensures
            final(self).wf(),
            r == (find_dt(old(self).top@, datetime@) < old(self).top@.len()),
            r ==> ({
                let p = find_dt(old(self).top@, datetime@);
                final(self).top@ == old(self).top@.update(
                    p,
                    ScoreRecord { memo: Some(memo), ..old(self).top@[p] },
                )
            }),
            !r ==> *final(self) == *old(self),
            final(self).lap == old(self).lap,
    {
        let mut i: usize = 0;
        while i < self.top.len()
            invariant
                *self == *old(self),
                sorted_by_time(self.top@),
                sorted_by_time(self.lap@),
                i <= self.top@.len(),
                forall|j: int| 0 <= j < i ==> self.top@[j].datetime@ != datetime@,
            decreases self.top@.len() - i,
        {
            if str_eq(self.top[i].datetime.as_str(), datetime) {
                proof {
                    lemma_find_dt(self.top@, datetime@);
                    let p = find_dt(self.top@, datetime@);
                    if (i as int) < p {
                        assert(self.top@[i as int].datetime@ != datetime@);
                        assert(false);
                    }
                    if p < (i as int) {
                        assert(self.top@[p].datetime@ == datetime@);
                        assert(false);
                    }
                }
                let ghost pre = self.top@;
                let e = &mut self.top[i];
                e.memo = Some(memo);
                proof {
                    assert(self.top@ =~= pre.update(
                        i as int,
                        ScoreRecord { memo: Some(memo), ..pre[i as int] },
                    ));
                    assert forall|a: int, b: int| 0 <= a < b < self.top@.len()
                        implies self.top@[a].time_ms <= self.top@[b].time_ms by {
                        assert(pre[a].time_ms <= pre[b].time_ms);
                    }
                }
                return true;
            }
            i = i + 1;
        }
        proof {
            lemma_find_dt(self.top@, datetime@);
            let p = find_dt(self.top@, datetime@);
            if p < self.top@.len() {
                assert(self.top@[p].datetime@ == datetime@);
                assert(false);
            }
        }
        false
    }
}

} // verus!
