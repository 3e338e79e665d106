//! The session engine: sequences words, owns one matcher at a time, keeps
//! integer-millisecond timing anchors with a miss-penalty model, and builds
//! the final score record.

use vstd::prelude::*;
use crate::romaji::{
    RomajiRules, RomajiMatcher, InputResult, judge_verdict, expand_all, string_views, sticky_ok,
    display_wd_of,
};
use crate::text::{
    chars_to_string, chars_of_str, ascii_lower_char, to_ascii_lower, extend_chars, pad_left,
    pad_chars, dec_seq, u64_to_chars, sec3, sec3_chars,
};
use crate::score::{ScoreRecord, SplitRec};
use rand::seq::SliceRandom;

verus! {

/// One word of the practice list: the native-script text and one or more
/// author-provided base spellings.
#[derive(Clone, Debug)]
pub struct WordEntry {
    pub jp: String,
    pub romas: Vec<String>,
}

/// The word-list document: a title/version wrapper around the entries.
#[derive(Clone, Debug)]
pub struct WordsFile {
    pub title: String,
    pub version: u32,
    pub entries: Vec<WordEntry>,
}

/// One completed word's outcome: its text, the time it took in
/// milliseconds, the misses accrued on it, and the keystrokes of the
/// spelling actually used.
#[derive(Clone, Debug, PartialEq)]
pub struct Split {
    pub word: String,
    pub ms: u64,
    pub miss: u32,
    pub keystrokes: u32,
}

/// Session configuration.  Times are in milliseconds; `u64::MAX` as the
/// time limit means unbounded.
#[derive(Clone, Copy, Debug)]
pub struct GameConfig {
    pub time_limit_ms: u64,
    pub max_words: usize,
    pub loss_ms_per_miss: u64,
    pub fixed_chars: bool,
    pub target_chars: usize,
}

impl Default for GameConfig {
    /// One minute, at most fifty words, a 200 ms miss penalty, word-count
    /// mode.
    fn default() -> (r: Self)
        ensures
            r.time_limit_ms == 60_000,
            r.max_words == 50,
            r.loss_ms_per_miss == 200,
            !r.fixed_chars,
            r.target_chars == 0,
    {
        GameConfig {
            time_limit_ms: 60_000,
            max_words: 50,
            loss_ms_per_miss: 200,
            fixed_chars: false,
            target_chars: 0,
        }
    }
}

/// A key delivered by the host loop.
#[derive(Clone, Copy, Debug, PartialEq, Eq, Structural)]
pub enum KeyPress {
    Esc,
    Char(char),
    Other,
}

/// One judged keystroke in the replay log: elapsed time at judgment, the
/// character, whether it was accepted, and the index of the word typed.
#[derive(Clone, Copy, Debug, PartialEq)]
pub struct KeyEv {
    pub t: u64,
    pub c: char,
    pub ok: bool,
    pub w: usize,
}

/// Two entries hold the same text and the same base spellings.
pub open spec fn entry_like(a: WordEntry, b: WordEntry) -> bool {
    a.jp == b.jp && a.romas@ == b.romas@
}

/// The entry matches some member of the pool.
pub open spec fn like_one_of(e: WordEntry, pool: Seq<WordEntry>) -> bool {
    exists|j: int| 0 <= j < pool.len() && entry_like(e, #[trigger] pool[j])
}

/// A word list drawn entirely from a pool.
pub open spec fn drawn_from(r: Seq<WordEntry>, pool: Seq<WordEntry>) -> bool {
    forall|i: int| 0 <= i < r.len() ==> like_one_of(#[trigger] r[i], pool)
}

/// Copies a word entry.
pub fn clone_entry(e: &WordEntry) -> (r: WordEntry)
    ensures
        entry_like(r, *e),
{
    let mut romas: Vec<String> = Vec::new();
    let mut i: usize = 0;
    while i < e.romas.len()
        invariant
            i <= e.romas@.len(),
            romas@ == e.romas@.take(i as int),
        decreases e.romas@.len() - i,
    {
        romas.push(e.romas[i].clone());
        assert(romas@ =~= e.romas@.take(i + 1 as int));
        i = i + 1;
    }
    assert(romas@ =~= e.romas@);
    WordEntry { jp: e.jp.clone(), romas }
}

/// The length of the shortest base spelling of `romas`, in characters; 0
/// when there are none.
pub open spec fn min_roma_spec(romas: Seq<String>) -> int
    decreases romas.len(),
{
    if romas.len() == 0 {
        0
    } else if romas.len() == 1 {
        romas[0]@.len() as int
    } else {
        let m = min_roma_spec(romas.drop_first());
        if romas[0]@.len() <= m {
            romas[0]@.len() as int
        } else {
            m
        }
    }
}

/// The fewest keystrokes that can complete this entry's base spellings.
pub fn min_roma_len(e: &WordEntry) -> (r: usize)
    ensures
        r == min_roma_spec(e.romas@),
{
    if e.romas.len() == 0 {
        return 0;
    }
    let mut m = e.romas[e.romas.len() - 1].as_str().unicode_len();
    let mut i: usize = e.romas.len() - 1;
    while i > 0
        invariant
            i < e.romas@.len(),
            m == min_roma_spec(e.romas@.skip(i as int)),
        decreases i,
    {
        i = i - 1;
        let l = e.romas[i].as_str().unicode_len();
        proof {
            assert(e.romas@.skip(i as int).drop_first() =~= e.romas@.skip(i + 1));
            assert(e.romas@.skip(i as int)[0] == e.romas@[i as int]);
        }
        if l <= m {
            m = l;
        }
    }
    assert(e.romas@.skip(0) =~= e.romas@);
    m
}

/// The total of the shortest-spelling lengths over a word list.
pub open spec fn sum_min_len(s: Seq<WordEntry>) -> int
    decreases s.len(),
{
    if s.len() == 0 {
        0
    } else {
        sum_min_len(s.drop_last()) + min_roma_spec(s.last().romas@)
    }
}

/// The cap on session length in character-count mode: three rounds through
/// the pool.
pub open spec fn cycle_cap(n: int) -> int {
    if n > (usize::MAX - 1) / 3 {
        usize::MAX - 1
    } else {
        3 * n
    }
}

/// Accumulates words from `pool`, cycling in order, until the expected
/// keystroke total reaches `target_chars` or the cap is passed.
pub fn accumulate_session_words(pool: &Vec<WordEntry>, target_chars: usize) -> (r: Vec<WordEntry>)
    requires
        pool@.len() > 0,
    ensures
        1 <= r@.len() <= cycle_cap(pool@.len() as int) + 1,
        drawn_from(r@, pool@),
        sum_min_len(r@) >= target_chars || r@.len() == cycle_cap(pool@.len() as int) + 1,
        forall|k: int|
            0 < k < r@.len() ==> sum_min_len(#[trigger] r@.take(k)) < target_chars && k <= cycle_cap(
                pool@.len() as int,
            ),
{
    let n = pool.len();
    let cap: usize = if n > (usize::MAX - 1) / 3 {
        usize::MAX - 1
    } else {
        n * 3
    };
    let mut out: Vec<WordEntry> = Vec::new();
    let mut remaining: usize = target_chars;
    let mut pos: usize = 0;
    loop
        invariant
            n == pool@.len(),
            n > 0,
            cap == cycle_cap(n as int),
            pos < n,
            out@.len() <= cap,
            remaining == if target_chars - sum_min_len(out@) >= 0 {
                target_chars - sum_min_len(out@)
            } else {
                0
            },
            drawn_from(out@, pool@),
            forall|k: int|
                0 < k <= out@.len() ==> sum_min_len(#[trigger] out@.take(k - 1)) + min_roma_spec(
                    out@.take(k).last().romas@,
                ) == sum_min_len(out@.take(k)),
            forall|k: int|
                0 < k < out@.len() ==> sum_min_len(#[trigger] out@.take(k)) < target_chars && k
                    <= cap,
            out@.len() > 0 ==> sum_min_len(out@) < target_chars,
        decreases cap - out@.len(),
    {
        let e = clone_entry(&pool[pos]);
        let ghost p0 = pos as int;
        let l = min_roma_len(&e);
        let ghost pre = out@;
        out.push(e);
        remaining = if remaining >= l {
            remaining - l
        } else {
            0
        };
        pos = pos + 1;
        if pos == n {
            pos = 0;
        }
        proof {
            assert(out@.drop_last() =~= pre);
            assert(sum_min_len(out@) == sum_min_len(pre) + min_roma_spec(out@.last().romas@));
            assert forall|k: int| 0 < k <= out@.len() implies sum_min_len(
                #[trigger] out@.take(k - 1),
            ) + min_roma_spec(out@.take(k).last().romas@) == sum_min_len(out@.take(k)) by {
                assert(out@.take(k).drop_last() =~= out@.take(k - 1));
                assert(sum_min_len(out@.take(k)) == sum_min_len(out@.take(k).drop_last())
                    + min_roma_spec(out@.take(k).last().romas@));
            }
            assert(out@.take(out@.len() as int) =~= out@);
            assert forall|k: int| 0 < k < out@.len() implies sum_min_len(#[trigger] out@.take(k))
                < target_chars && k <= cap by {
                if k < pre.len() {
                    assert(out@.take(k) =~= pre.take(k));
                } else {
                    assert(out@.take(k) =~= pre);
                }
            }
            assert forall|i: int| 0 <= i < out@.len() implies like_one_of(
                #[trigger] out@[i],
                pool@,
            ) by {
                if i < pre.len() {
                    assert(out@[i] == pre[i]);
                    assert(like_one_of(pre[i], pool@));
                } else {
                    assert(entry_like(out@[i], pool@[p0]));
                }
            }
        }
        if remaining == 0 || out.len() > cap {
            proof {
                assert(remaining == 0 ==> sum_min_len(out@) >= target_chars);
            }
            return out;
        }
    }
}

/// Relies on rand's `SliceRandom::shuffle`: an in-place permutation of the
/// entries, so the multiset of entries is unchanged.
#[verifier::external_body]
fn shuffle_entries(pool: &mut Vec<WordEntry>)
    ensures
        final(pool)@.to_multiset() == old(pool)@.to_multiset(),
{
    pool.shuffle(&mut rand::rng());
}

/// Picks the session's word sequence in character-count mode: the pool is
/// shuffled, then cycled until the expected keystroke total reaches
/// `target_chars`.  With a zero target the shuffled pool is used whole.
pub fn build_session_words(all: Vec<WordEntry>, rules: &RomajiRules, target_chars: usize) -> (r:
    Vec<WordEntry>)
    ensures
        all@.len() == 0 ==> r@.len() == 0,
        drawn_from(r@, all@),
        target_chars == 0 ==> r@.to_multiset() == all@.to_multiset(),
        (target_chars > 0 && all@.len() > 0) ==> ({
            &&& 1 <= r@.len() <= cycle_cap(all@.len() as int) + 1
            &&& (sum_min_len(r@) >= target_chars || r@.len() == cycle_cap(all@.len() as int)
                + 1)
            &&& forall|k: int|
                0 < k < r@.len() ==> sum_min_len(#[trigger] r@.take(k)) < target_chars
        }),
{
    let ghost _ = rules;
    let ghost all0 = all@;
    if all.len() == 0 {
        let r: Vec<WordEntry> = Vec::new();
        proof {
            broadcast use vstd::seq_lib::group_to_multiset_ensures;

            assert(r@ =~= all0);
        }
        return r;
    }
    let mut pool = all;
    shuffle_entries(&mut pool);
    proof {
        broadcast use vstd::seq_lib::group_to_multiset_ensures;

        assert forall|k: int| 0 <= k < pool@.len() implies all0.contains(
            #[trigger] pool@[k],
        ) by {
            assert(pool@.to_multiset().count(pool@[k]) > 0);
            assert(all0.to_multiset().count(pool@[k]) > 0);
        }
        assert(pool@.len() == all0.len()) by {
            assert(pool@.to_multiset().len() == pool@.len());
            assert(all0.to_multiset().len() == all0.len());
        }
    }
    if target_chars == 0 {
        proof {
            assert forall|i: int| 0 <= i < pool@.len() implies like_one_of(
                #[trigger] pool@[i],
                all0,
            ) by {
                assert(all0.contains(pool@[i]));
                let j = choose|j: int| 0 <= j < all0.len() && all0[j] == pool@[i];
                assert(entry_like(pool@[i], all0[j]));
            }
            assert(drawn_from(pool@, all0));
        }
        return pool;
    }
    let out = accumulate_session_words(&pool, target_chars);
    proof {
        assert forall|i: int| 0 <= i < out@.len() implies like_one_of(
            #[trigger] out@[i],
            all0,
        ) by {
            assert(like_one_of(out@[i], pool@));
            let m = choose|m: int| 0 <= m < pool@.len() && entry_like(out@[i], pool@[m]);
            assert(all0.contains(pool@[m]));
            let j = choose|j: int| 0 <= j < all0.len() && all0[j] == pool@[m];
            assert(entry_like(out@[i], all0[j]));
        }
    }
    out
}


// ---------------------------------------------------------------------------
// The session engine
// ---------------------------------------------------------------------------

/// The total miss count recorded in a split list.
pub open spec fn sum_split_miss(s: Seq<Split>) -> int
    decreases s.len(),
{
    if s.len() == 0 {
        0
    } else {
        sum_split_miss(s.drop_last()) + s.last().miss
    }
}

/// The session engine: the word list, the judge for the current word, the
/// timing anchors (milliseconds on the host's monotonic clock), counters,
/// splits and the replay log.
pub struct Game {
    pub words: Vec<WordEntry>,
    pub idx: usize,
    pub typed: Vec<char>,
    pub correct_keystrokes: u32,
    pub miss: u32,
    pub splits: Vec<Split>,
    pub started_at: Option<u64>,
    pub ended_at: Option<u64>,
    pub word_start: Option<u64>,
    pub finished: bool,
    pub aborted: bool,
    pub rules: RomajiRules,
    pub matcher: Option<RomajiMatcher>,
    pub speed_series: Vec<(u64, u64)>,
    pub cfg: GameConfig,
    pub last_miss_char: Option<char>,
    pub replay: Vec<KeyEv>,
    pub display_romas: Vec<Option<String>>,
    pub clock_ms: u64,
}

impl Game {
    /// The misses held by the active matcher, if any.
    pub open spec fn matcher_miss(&self) -> int {
        if self.matcher is Some {
            self.matcher->0.miss_count as int
        } else {
            0
        }
    }

    /// The clock value the engine will use for a reading `now`: host clock
    /// readings are treated as monotonic, so a reading older than the last
    /// seen one is clamped.
    pub open spec fn clocked(&self, now: u64) -> u64 {
        if now >= self.clock_ms {
            now
        } else {
            self.clock_ms
        }
    }

    /// Elapsed session milliseconds as of clock reading `now`: zero before
    /// the first keystroke, live while running, frozen once finished.
    pub open spec fn elapsed_at(&self, now: u64) -> int {
        if self.started_at is Some && self.ended_at is Some {
            if self.ended_at->0 >= self.started_at->0 {
                self.ended_at->0 - self.started_at->0
            } else {
                0
            }
        } else if self.started_at is Some {
            self.clocked(now) - self.started_at->0
        } else {
            0
        }
    }

    /// The session invariant: the index never passes the word list, one
    /// split per completed word, miss counts consistent between matcher,
    /// splits and session total, and anchors no later than the last seen
    /// clock value.
    pub open spec fn wf(&self) -> bool {
        &&& self.idx <= self.words@.len()
        &&& self.splits@.len() == self.idx
        &&& self.display_romas@.len() == self.words@.len()
        &&& (self.matcher is Some ==> self.matcher->0.wf())
        &&& (!self.finished && self.matcher is Some ==> self.idx < self.words@.len())
        &&& (!self.finished ==> sum_split_miss(self.splits@) + self.matcher_miss()
            == self.miss as int)
        &&& (self.finished ==> sum_split_miss(self.splits@) <= self.miss as int)
        &&& (self.started_at is Some ==> self.started_at->0 <= self.clock_ms)
        &&& (self.word_start is Some <==> self.started_at is Some)
        &&& (self.word_start is Some ==> self.word_start->0 <= self.clock_ms)
        &&& (self.ended_at is Some ==> self.finished && self.started_at is Some)
        &&& (self.finished && self.started_at is Some ==> self.ended_at is Some)
    }

    /// Builds a session over `words` under the given rules.  In
    /// character-count mode the word sequence is drawn from the shuffled
    /// pool; in word-count mode the list is truncated to the configured
    /// maximum.  Timing starts only with the first keystroke.
    pub fn new_with_rules(cfg: GameConfig, words: Vec<WordEntry>, rules: RomajiRules) -> (g: Game)
        ensures
            g.wf(),
            !g.finished,
            !g.aborted,
            g.idx == 0,
            g.splits@.len() == 0,
            g.miss == 0,
            g.correct_keystrokes == 0,
            g.started_at is None,
            g.ended_at is None,
            g.word_start is None,
            g.matcher is None,
            g.typed@.len() == 0,
            g.replay@.len() == 0,
            g.speed_series@.len() == 0,
            g.last_miss_char is None,
            g.cfg == cfg,
            g.rules == rules,
            g.clock_ms == 0,
            (cfg.fixed_chars && cfg.target_chars > 0) ==> drawn_from(g.words@, words@) && (
            words@.len() == 0 ==> g.words@.len() == 0),
            (cfg.fixed_chars && cfg.target_chars > 0 && words@.len() > 0) ==> ({
                &&& 1 <= g.words@.len() <= cycle_cap(words@.len() as int) + 1
                &&& (sum_min_len(g.words@) >= cfg.target_chars || g.words@.len() == cycle_cap(
                    words@.len() as int,
                ) + 1)
                &&& forall|k: int|
                    0 < k < g.words@.len() ==> sum_min_len(#[trigger] g.words@.take(k))
                        < cfg.target_chars
            }),
            (cfg.fixed_chars && cfg.target_chars == 0) ==> g.words@ == words@,
            !cfg.fixed_chars ==> g.words@ == words@.take(
                if cfg.max_words < words@.len() {
                    cfg.max_words as int
                } else {
                    words@.len() as int
                },
            ),
    {
        let ghost words0 = words@;
        let mut words_sel = if cfg.fixed_chars && cfg.target_chars > 0 {
            build_session_words(words, &rules, cfg.target_chars)
        } else {
            words
        };
        if words_sel.len() > 0 && !cfg.fixed_chars {
            let t = if cfg.max_words < words_sel.len() {
                cfg.max_words
            } else {
                words_sel.len()
            };
            words_sel.truncate(t);
            assert(words_sel@ =~= words0.take(
                if cfg.max_words < words0.len() {
                    cfg.max_words as int
                } else {
                    words0.len() as int
                },
            ));
        }
        proof {
            if !cfg.fixed_chars && words0.len() == 0 {
                assert(words_sel@ =~= words0.take(0));
            }
        }
        let n = words_sel.len();
        let mut display_romas: Vec<Option<String>> = Vec::new();
        let mut i: usize = 0;
        while i < n
            invariant
                i <= n,
                display_romas@.len() == i,
            decreases n - i,
        {
            display_romas.push(None);
            i = i + 1;
        }
        Game {
            words: words_sel,
            idx: 0,
            typed: Vec::new(),
            correct_keystrokes: 0,
            miss: 0,
            splits: Vec::new(),
            started_at: None,
            ended_at: None,
            word_start: None,
            finished: false,
            aborted: false,
            rules,
            matcher: None,
            speed_series: Vec::new(),
            cfg,
            last_miss_char: None,
            replay: Vec::new(),
            display_romas,
            clock_ms: 0,
        }
    }

    /// Readies the first word: its matcher is created, and the timing
    /// anchors stay unset so an idle session shows zero elapsed time.
    pub fn start(&mut self)
        requires
            old(self).wf(),
            old(self).matcher is None,
            !old(self).finished,
            old(self).idx == 0,
            old(self).miss == 0,
            old(self).started_at is None,
        ensures
            final(self).wf(),
            final(self).started_at is None,
            final(self).word_start is None,
            old(self).words@.len() > 0 ==> final(self).matcher is Some && {
                let m = final(self).matcher->0;
                &&& m.wf()
                &&& m.cand_set() == expand_all(
                    string_views(old(self).words@[0].romas@),
                    old(self).rules.pairs@,
                    old(self).rules.tris@,
                )
                &&& m.typed@.len() == 0
                &&& m.miss_count == 0
            },
            old(self).words@.len() == 0 ==> final(self).matcher is None,
            final(self).words == old(self).words,
            final(self).idx == old(self).idx,
            final(self).typed == old(self).typed,
            final(self).correct_keystrokes == old(self).correct_keystrokes,
            final(self).miss == old(self).miss,
            final(self).splits == old(self).splits,
            final(self).ended_at == old(self).ended_at,
            final(self).finished == old(self).finished,
            final(self).aborted == old(self).aborted,
            final(self).rules == old(self).rules,
            final(self).speed_series == old(self).speed_series,
            final(self).cfg == old(self).cfg,
            final(self).last_miss_char == old(self).last_miss_char,
            final(self).replay == old(self).replay,
            final(self).display_romas == old(self).display_romas,
            final(self).clock_ms == old(self).clock_ms,
    {
        self.started_at = None;
        self.word_start = None;
        if self.idx < self.words.len() {
            let w = &self.words[self.idx];
            let m = RomajiMatcher::new(w.jp.as_str(), &w.romas, &self.rules);
            self.matcher = Some(m);
        }
    }

    /// Starts the clock explicitly (after a countdown): both anchors are
    /// set to the current reading.  Does nothing once timing has begun or
    /// the session has finished.
    pub fn begin_now(&mut self, now_ms: u64)
        requires
            old(self).wf(),
        ensures
            final(self).wf(),
            (old(self).finished || old(self).started_at is Some) ==> *final(self) == *old(self),
            (!old(self).finished && old(self).started_at is None) ==> {
                let cl = old(self).clocked(now_ms);
                &&& *final(self) == (Game {
                    started_at: Some(cl),
                    word_start: Some(cl),
                    clock_ms: cl,
                    ..*old(self)
                })
            },
    {
        if !self.finished && self.started_at.is_none() {
            let cl = if now_ms >= self.clock_ms {
                now_ms
            } else {
                self.clock_ms
            };
            self.clock_ms = cl;
            self.started_at = Some(cl);
            self.word_start = Some(cl);
        }
    }
}


/// The anchor shifted back by the penalty, stopping at zero.
pub open spec fn shift_back(o: Option<u64>, d: u64) -> Option<u64> {
    match o {
        Option::Some(v) => Option::Some(
            if v >= d {
                (v - d) as u64
            } else {
                0
            },
        ),
        Option::None => Option::None,
    }
}

/// Milli-keystrokes-per-second: correct keystrokes over elapsed time.
pub open spec fn cps_milli(correct: u32, t_ms: int) -> int {
    if t_ms <= 0 {
        0
    } else {
        (correct as int) * 1_000_000 / t_ms
    }
}

/// Split lists never count negatively.
pub proof fn lemma_sum_split_nonneg(s: Seq<Split>)
    ensures
        sum_split_miss(s) >= 0,
    decreases s.len(),
{
    if s.len() > 0 {
        lemma_sum_split_nonneg(s.drop_last());
    }
}

/// The default spelling shown for word `i`: its first base spelling.
pub open spec fn default_roma_view(g: Game, i: int) -> Seq<char> {
    if g.words@[i].romas@.len() > 0 {
        g.words@[i].romas@[0]@
    } else {
        Seq::<char>::empty()
    }
}

impl Game {
    /// Marks the session finished and freezes the timer at the current
    /// clock value.
    fn finish(&mut self)
        requires
            old(self).wf(),
        ensures
            final(self).wf(),
            *final(self) == (Game {
                finished: true,
                ended_at: if old(self).started_at is Some && old(self).ended_at is None {
                    Some(old(self).clock_ms)
                } else {
                    old(self).ended_at
                },
                ..*old(self)
            }),
    {
        proof {
            lemma_sum_split_nonneg(self.splits@);
        }
        if !self.finished {
            self.finished = true;
        }
        if self.started_at.is_some() && self.ended_at.is_none() {
            self.ended_at = Some(self.clock_ms);
        }
    }

    /// Applies the miss penalty: both anchors move backward by the
    /// configured duration (stopping at zero), which inflates every later
    /// elapsed-time reading without pausing real time.
    fn penalize_time(&mut self)
        requires
            old(self).wf(),
        ensures
            final(self).wf(),
            *final(self) == (Game {
                started_at: shift_back(old(self).started_at, old(self).cfg.loss_ms_per_miss),
                word_start: shift_back(old(self).word_start, old(self).cfg.loss_ms_per_miss),
                ..*old(self)
            }),
    {
        let d = self.cfg.loss_ms_per_miss;
        match self.word_start {
            Option::Some(v) => {
                self.word_start = Some(
                    if v >= d {
                        v - d
                    } else {
                        0
                    },
                );
            },
            Option::None => {},
        }
        match self.started_at {
            Option::Some(v) => {
                self.started_at = Some(
                    if v >= d {
                        v - d
                    } else {
                        0
                    },
                );
            },
            Option::None => {},
        }
    }

    /// Closes the current word: records its split and the spelling variant
    /// actually used, advances the index, resets the word timer, and either
    /// readies the next word or finishes the session.
    fn finish_word(&mut self)
        requires
            old(self).wf(),
            !old(self).finished,
            old(self).matcher is Some,
            old(self).word_start is Some,
        ensures
            final(self).wf(),
            ({
                let m = old(self).matcher->0;
                let def = default_roma_view(*old(self), old(self).idx as int);
                let disp = display_wd_of(m.cand_views(), m.current_cand, m.typed@, def);
                &&& final(self).splits@.len() == old(self).splits@.len() + 1
                &&& final(self).splits@.drop_last() == old(self).splits@
                &&& final(self).splits@.last().word == old(self).words@[old(self).idx as int].jp
                &&& final(self).splits@.last().ms == old(self).clock_ms - old(
                    self,
                ).word_start->0
                &&& final(self).splits@.last().miss == m.miss_count
                &&& final(self).splits@.last().keystrokes == (#[verifier::truncate] (disp.len() as u32))
                &&& final(self).display_romas@.len() == old(self).display_romas@.len()
                &&& (forall|j: int|
                    0 <= j < final(self).display_romas@.len() && j != old(self).idx
                        ==> final(self).display_romas@[j] == old(self).display_romas@[j])
                &&& final(self).display_romas@[old(self).idx as int] is Some
                &&& final(self).display_romas@[old(self).idx as int]->0@ == (if m.typed@.len()
                    > 0 {
                    m.typed@
                } else {
                    disp
                })
                &&& final(self).idx == old(self).idx + 1
                &&& final(self).typed@.len() == 0
                &&& final(self).word_start == Some(old(self).clock_ms)
                &&& ((old(self).idx + 1 < old(self).words@.len() && old(self).idx + 1 < old(
                    self,
                ).cfg.max_words) ==> {
                    let m2 = final(self).matcher->0;
                    &&& !final(self).finished
                    &&& final(self).matcher is Some
                    &&& m2.wf()
                    &&& m2.cand_set() == expand_all(
                        string_views(old(self).words@[old(self).idx + 1].romas@),
                        old(self).rules.pairs@,
                        old(self).rules.tris@,
                    )
                    &&& m2.typed@.len() == 0
                    &&& m2.miss_count == 0
                    &&& final(self).ended_at == old(self).ended_at
                })
                &&& (!(old(self).idx + 1 < old(self).words@.len() && old(self).idx + 1 < old(
                    self,
                ).cfg.max_words) ==> {
                    &&& final(self).finished
                    &&& final(self).matcher == old(self).matcher
                    &&& final(self).ended_at == (if old(self).started_at is Some {
                        Some(old(self).clock_ms)
                    } else {
                        old(self).ended_at
                    })
                })
                &&& final(self).words == old(self).words
                &&& final(self).correct_keystrokes == old(self).correct_keystrokes
                &&& final(self).miss == old(self).miss
                &&& final(self).started_at == old(self).started_at
                &&& final(self).aborted == old(self).aborted
                &&& final(self).rules == old(self).rules
                &&& final(self).speed_series == old(self).speed_series
                &&& final(self).cfg == old(self).cfg
                &&& final(self).last_miss_char == old(self).last_miss_char
                &&& final(self).replay == old(self).replay
                &&& final(self).clock_ms == old(self).clock_ms
            }),
    {
        proof {
            lemma_sum_split_nonneg(self.splits@);
        }
        let ws = match self.word_start {
            Option::Some(v) => v,
            Option::None => 0,
        };
        let sec_ms = self.clock_ms - ws;
        let word = self.words[self.idx].jp.clone();
        let def = if self.words[self.idx].romas.len() > 0 {
            self.words[self.idx].romas[0].clone()
        } else {
            String::new()
        };
        let (m_miss, used, ks) = match &self.matcher {
            Option::Some(m) => {
                let disp = m.display_with_default(def.as_str());
                let ks = disp.as_str().unicode_len();
                let used: String = if m.typed.len() == 0 {
                    disp
                } else {
                    chars_to_string(&m.typed)
                };
                (m.miss_count, used, ks)
            },
            Option::None => (0, String::new(), 0),
        };
        self.splits.push(
            Split { word, ms: sec_ms, miss: m_miss, keystrokes: #[verifier::truncate] (ks as u32) },
        );
        self.display_romas[self.idx] = Some(used);
        assert(self.idx < self.words@.len());
        let n = self.words.len();
        self.idx = self.idx + 1;
        self.typed.clear();
        self.word_start = Some(self.clock_ms);
        if self.idx < self.words.len() && self.idx < self.cfg.max_words {
            let w = &self.words[self.idx];
            let m2 = RomajiMatcher::new(w.jp.as_str(), &w.romas, &self.rules);
            self.matcher = Some(m2);
        } else {
            self.finished = true;
            if self.started_at.is_some() && self.ended_at.is_none() {
                self.ended_at = Some(self.clock_ms);
            }
        }
        proof {
            assert(final(self).splits@.drop_last() =~= old(self).splits@);
        }
    }
}


impl Game {
    /// Appends one replay event at the current elapsed time.
    fn push_ev(&mut self, c: char, ok: bool)
        requires
            old(self).wf(),
        ensures
            final(self).wf(),
            final(self).replay@ == old(self).replay@.push(
                KeyEv {
                    t: if old(self).started_at is Some {
                        (old(self).clock_ms - old(self).started_at->0) as u64
                    } else {
                        0
                    },
                    c,
                    ok,
                    w: old(self).idx,
                },
            ),
            *final(self) == (Game { replay: final(self).replay, ..*old(self) }),
    {
        let t = match self.started_at {
            Option::Some(s) => self.clock_ms - s,
            Option::None => 0,
        };
        self.replay.push(KeyEv { t, c, ok, w: self.idx });
    }

    /// Feeds one key at clock reading `now_ms`.  Esc aborts the session; a
    /// character key is lower-cased and judged against the current word:
    /// the first keystroke starts the timers, an accepted keystroke counts
    /// and may complete the word or (in character-count mode) finish the
    /// session mid-word at the moment the target is reached, a miss counts
    /// and applies the time penalty, and non-ASCII input is ignored.
    /// Returns whether the session is finished.
    pub fn handle_key(&mut self, key: KeyPress, now_ms: u64) -> (done: bool)
        requires
            old(self).wf(),
            key is Char ==> old(self).miss < u32::MAX,
            key is Char ==> old(self).correct_keystrokes < u32::MAX,
        ensures
            final(self).wf(),
            done == final(self).finished,
            final(self).idx >= old(self).idx,
            final(self).elapsed_at(now_ms) >= old(self).elapsed_at(now_ms),
            old(self).finished ==> *final(self) == *old(self) && done,
            !old(self).finished && key is Esc ==> *final(self) == (Game {
                aborted: true,
                finished: true,
                ended_at: if old(self).started_at is Some {
                    Some(old(self).clocked(now_ms))
                } else {
                    None
                },
                clock_ms: old(self).clocked(now_ms),
                ..*old(self)
            }),
            !old(self).finished && key is Other ==> *final(self) == (Game {
                clock_ms: old(self).clocked(now_ms),
                ..*old(self)
            }),
            !old(self).finished && key is Char ==> ({
                let cl = old(self).clocked(now_ms);
                let c = ascii_lower_char(key->0);
                let st = if old(self).started_at is Some {
                    old(self).started_at
                } else {
                    Some(cl)
                };
                let ws = if old(self).started_at is Some {
                    old(self).word_start
                } else {
                    Some(cl)
                };
                let mid = Game { clock_ms: cl, started_at: st, word_start: ws, ..*old(self) };
                &&& (old(self).matcher is None ==> *final(self) == mid && !done)
                &&& (old(self).matcher is Some ==> ({
                    let m = old(self).matcher->0;
                    let v = judge_verdict(m.cand_views(), m.typed@, c);
                    let typedn = m.typed@.push(c);
                    let d = old(self).cfg.loss_ms_per_miss;
                    let reached = old(self).cfg.fixed_chars && (old(self).correct_keystrokes
                        + 1) >= (old(self).cfg.target_chars as int);
                    &&& (v is Noop ==> *final(self) == mid && !done)
                    &&& (v is Miss ==> {
                        let stv = shift_back(st, d);
                        &&& final(self).miss == old(self).miss + 1
                        &&& final(self).matcher is Some
                        &&& final(self).matcher->0 == (RomajiMatcher {
                            miss_count: (m.miss_count + 1) as u32,
                            ..m
                        })
                        &&& final(self).last_miss_char == Some(c)
                        &&& final(self).started_at == stv
                        &&& final(self).word_start == shift_back(ws, d)
                        &&& final(self).replay@ == old(self).replay@.push(
                            KeyEv { t: (cl - stv->0) as u64, c, ok: false, w: old(self).idx },
                        )
                        &&& final(self).clock_ms == cl
                        &&& !final(self).finished
                        &&& !done
                        &&& final(self).ended_at == old(self).ended_at
                        &&& final(self).typed == old(self).typed
                        &&& final(self).correct_keystrokes == old(self).correct_keystrokes
                        &&& final(self).splits == old(self).splits
                        &&& final(self).idx == old(self).idx
                        &&& final(self).words == old(self).words
                        &&& final(self).aborted == old(self).aborted
                        &&& final(self).rules == old(self).rules
                        &&& final(self).speed_series == old(self).speed_series
                        &&& final(self).cfg == old(self).cfg
                        &&& final(self).display_romas == old(self).display_romas
                    })
                    &&& ((v is Correct || v is Complete) ==> {
                        &&& final(self).correct_keystrokes == old(self).correct_keystrokes + 1
                        &&& final(self).miss == old(self).miss
                        &&& final(self).last_miss_char is None
                        &&& final(self).replay@ == old(self).replay@.push(
                            KeyEv { t: (cl - st->0) as u64, c, ok: true, w: old(self).idx },
                        )
                        &&& final(self).clock_ms == cl
                        &&& final(self).started_at == st
                        &&& final(self).words == old(self).words
                        &&& final(self).aborted == old(self).aborted
                        &&& final(self).rules == old(self).rules
                        &&& final(self).speed_series == old(self).speed_series
                        &&& final(self).cfg == old(self).cfg
                    })
                    &&& ((v is Correct || v is Complete) && reached ==> {
                        &&& final(self).finished && done
                        &&& final(self).ended_at == Some(cl)
                        &&& final(self).splits == old(self).splits
                        &&& final(self).idx == old(self).idx
                        &&& final(self).typed@ == old(self).typed@.push(c)
                        &&& final(self).word_start == ws
                        &&& final(self).display_romas == old(self).display_romas
                        &&& final(self).matcher is Some
                        &&& accept_matcher_update(m, final(self).matcher->0, c)
                    })
                    &&& (v is Correct && !reached ==> {
                        &&& !final(self).finished && !done
                        &&& final(self).ended_at == old(self).ended_at
                        &&& final(self).splits == old(self).splits
                        &&& final(self).idx == old(self).idx
                        &&& final(self).typed@ == old(self).typed@.push(c)
                        &&& final(self).word_start == ws
                        &&& final(self).display_romas == old(self).display_romas
                        &&& final(self).matcher is Some
                        &&& accept_matcher_update(m, final(self).matcher->0, c)
                    })
                    &&& (v is Complete && !reached ==> {
                        let def = default_roma_view(*old(self), old(self).idx as int);
                        &&& final(self).idx == old(self).idx + 1
                        &&& final(self).typed@.len() == 0
                        &&& final(self).word_start == Some(cl)
                        &&& final(self).splits@.len() == old(self).splits@.len() + 1
                        &&& final(self).splits@.drop_last() == old(self).splits@
                        &&& final(self).splits@.last().word == old(self).words@[old(
                            self,
                        ).idx as int].jp
                        &&& final(self).splits@.last().ms == cl - ws->0
                        &&& final(self).splits@.last().miss == m.miss_count
                        &&& (exists|cc: Option<usize>|
                            sticky_ok(m.cand_views(), m.current_cand, typedn, cc)
                                && final(self).splits@.last().keystrokes == (
                            #[verifier::truncate] (display_wd_of(
                                m.cand_views(),
                                cc,
                                typedn,
                                def,
                            ).len() as u32)))
                        &&& final(self).display_romas@.len() == old(self).display_romas@.len()
                        &&& (forall|j: int|
                            0 <= j < final(self).display_romas@.len() && j != old(self).idx
                                ==> final(self).display_romas@[j] == old(
                                self,
                            ).display_romas@[j])
                        &&& final(self).display_romas@[old(self).idx as int] is Some
                        &&& final(self).display_romas@[old(self).idx as int]->0@ == typedn
                        &&& ((old(self).idx + 1 < old(self).words@.len() && old(self).idx + 1
                            < old(self).cfg.max_words) ==> {
                            let m2 = final(self).matcher->0;
                            &&& !final(self).finished && !done
                            &&& final(self).matcher is Some
                            &&& m2.wf()
                            &&& m2.cand_set() == expand_all(
                                string_views(old(self).words@[old(self).idx + 1].romas@),
                                old(self).rules.pairs@,
                                old(self).rules.tris@,
                            )
                            &&& m2.typed@.len() == 0
                            &&& m2.miss_count == 0
                        })
                        &&& (!(old(self).idx + 1 < old(self).words@.len() && old(self).idx + 1
                            < old(self).cfg.max_words) ==> final(self).finished && done)
                    })
                }))
            }),
    {
        if self.finished {
            return true;
        }
        let cl = if now_ms >= self.clock_ms {
            now_ms
        } else {
            self.clock_ms
        };
        self.clock_ms = cl;
        match key {
            KeyPress::Esc => {
                self.aborted = true;
                self.finish();
                return true;
            },
            KeyPress::Char(ch) => {
                let c = to_ascii_lower(ch);
                if self.started_at.is_none() {
                    self.started_at = Some(cl);
                    self.word_start = Some(cl);
                }
                if self.matcher.is_some() {
                    proof {
                        lemma_sum_split_nonneg(self.splits@);
                    }
                    let v = match &mut self.matcher {
                        Option::Some(m) => m.input_char(c),
                        Option::None => InputResult::Noop,
                    };
                    match v {
                        InputResult::Correct => {
                            self.typed.push(c);
                            self.correct_keystrokes = self.correct_keystrokes + 1;
                            self.last_miss_char = None;
                            self.push_ev(c, true);
                            if self.cfg.fixed_chars && (self.correct_keystrokes as u64) >= (
                            self.cfg.target_chars as u64) {
                                self.finish();
                                return true;
                            }
                        },
                        InputResult::Miss => {
                            self.miss = self.miss + 1;
                            self.penalize_time();
                            self.last_miss_char = Some(c);
                            self.push_ev(c, false);
                        },
                        InputResult::Complete => {
                            self.typed.push(c);
                            self.correct_keystrokes = self.correct_keystrokes + 1;
                            self.last_miss_char = None;
                            self.push_ev(c, true);
                            if self.cfg.fixed_chars && (self.correct_keystrokes as u64) >= (
                            self.cfg.target_chars as u64) {
                                self.finish();
                                return true;
                            }
                            self.finish_word();
                        },
                        InputResult::Noop => {},
                    }
                }
            },
            KeyPress::Other => {},
        }
        self.finished
    }

    /// The periodic time check: records one speed sample and finishes the
    /// session once its mode's goal is met -- the keystroke target in
    /// character-count mode, the end of the word list otherwise.
    pub fn on_tick(&mut self, now_ms: u64)
        requires
            old(self).wf(),
        ensures
            final(self).wf(),
            final(self).idx >= old(self).idx,
            final(self).elapsed_at(now_ms) >= old(self).elapsed_at(now_ms),
            old(self).finished ==> *final(self) == *old(self),
            !old(self).finished ==> ({
                let cl = old(self).clocked(now_ms);
                let el = if old(self).started_at is Some {
                    cl - old(self).started_at->0
                } else {
                    0
                };
                let fin = if old(self).cfg.fixed_chars {
                    (old(self).correct_keystrokes as int) >= (old(self).cfg.target_chars as int)
                } else {
                    old(self).idx >= old(self).words@.len() || old(self).idx >= old(
                        self,
                    ).cfg.max_words
                };
                &&& final(self).speed_series@ == old(self).speed_series@.push(
                    ((el as u64), (cps_milli(old(self).correct_keystrokes, el) as u64)),
                )
                &&& final(self).clock_ms == cl
                &&& final(self).finished == fin
                &&& (fin ==> final(self).ended_at == (if old(self).started_at is Some {
                    Some(cl)
                } else {
                    old(self).ended_at
                }))
                &&& (!fin ==> final(self).ended_at == old(self).ended_at)
                &&& final(self).words == old(self).words
                &&& final(self).idx == old(self).idx
                &&& final(self).typed == old(self).typed
                &&& final(self).correct_keystrokes == old(self).correct_keystrokes
                &&& final(self).miss == old(self).miss
                &&& final(self).splits == old(self).splits
                &&& final(self).started_at == old(self).started_at
                &&& final(self).word_start == old(self).word_start
                &&& final(self).aborted == old(self).aborted
                &&& final(self).rules == old(self).rules
                &&& final(self).matcher == old(self).matcher
                &&& final(self).cfg == old(self).cfg
                &&& final(self).last_miss_char == old(self).last_miss_char
                &&& final(self).replay == old(self).replay
                &&& final(self).display_romas == old(self).display_romas
            }),
    {
        if self.finished {
            return;
        }
        let cl = if now_ms >= self.clock_ms {
            now_ms
        } else {
            self.clock_ms
        };
        self.clock_ms = cl;
        let t = match self.started_at {
            Option::Some(s) => cl - s,
            Option::None => 0,
        };
        let cps: u64 = if t > 0 {
            (self.correct_keystrokes as u64) * 1_000_000 / t
        } else {
            0
        };
        self.speed_series.push((t, cps));
        let fixed_done = self.cfg.fixed_chars && (self.correct_keystrokes as u64) >= (
        self.cfg.target_chars as u64);
        let all_words_done = self.idx >= self.words.len() || self.idx >= self.cfg.max_words;
        if (self.cfg.fixed_chars && fixed_done) || (!self.cfg.fixed_chars && all_words_done) {
            self.finish();
        }
    }
}

/// How the matcher changes on an accepted keystroke: the character joins
/// the typed prefix and the sticky reference moves per `sticky_ok`.
pub open spec fn accept_matcher_update(m: RomajiMatcher, m2: RomajiMatcher, c: char) -> bool {
    &&& m2.jp == m.jp
    &&& m2.candidates == m.candidates
    &&& m2.miss_count == m.miss_count
    &&& m2.typed@ == m.typed@.push(c)
    &&& sticky_ok(m.cand_views(), m.current_cand, m.typed@.push(c), m2.current_cand)
}


// ---------------------------------------------------------------------------
// Session views and finalization
// ---------------------------------------------------------------------------

/// The romaji line shown for the current word: the matcher's stable display
/// biased toward the word's first base spelling.
pub open spec fn roma_line_view(g: Game) -> Seq<char> {
    if g.idx < g.words@.len() {
        let def = default_roma_view(g, g.idx as int);
        if g.matcher is Some {
            display_wd_of(
                g.matcher->0.cand_views(),
                g.matcher->0.current_cand,
                g.matcher->0.typed@,
                def,
            )
        } else {
            def
        }
    } else {
        Seq::<char>::empty()
    }
}

/// The romaji shown for word `i`: the recorded variant for a completed
/// word, the live display for the current one, the first base spelling for
/// one not yet reached.
pub open spec fn roma_for_index_view(g: Game, i: int) -> Seq<char> {
    if i >= g.words@.len() {
        Seq::<char>::empty()
    } else if i < g.idx {
        if g.display_romas@[i] is Some {
            g.display_romas@[i]->0@
        } else {
            default_roma_view(g, i)
        }
    } else if i == g.idx {
        roma_line_view(g)
    } else {
        default_roma_view(g, i)
    }
}

/// One word of the word-line display, bracketed when current.
pub open spec fn bracketed(w: WordEntry, cur: bool) -> Seq<char> {
    (if cur {
        seq!['[']
    } else {
        Seq::<char>::empty()
    }) + w.jp@ + (if cur {
        seq![']']
    } else {
        Seq::<char>::empty()
    }) + seq![' ']
}

/// The word-line display over the window `[i, end)`.
pub open spec fn line_disp(ws: Seq<WordEntry>, idx: int, i: int, end: int) -> Seq<char>
    decreases end - i,
{
    if i >= end {
        Seq::<char>::empty()
    } else {
        bracketed(ws[i], i == idx) + line_disp(ws, idx, i + 1, end)
    }
}

/// One line of the split table.
pub open spec fn split_line(sp: Split, i: int) -> Seq<char> {
    pad_left(dec_seq(i + 1), 2) + seq![' '] + sp.word@ + seq![' ', ' '] + pad_left(
        sec3(sp.ms as int),
        6,
    ) + seq!['s', ' ', ' ', 'm', 'i', 's', 's', ' '] + dec_seq(sp.miss as int) + seq!['\n']
}

/// The split table over the first `upto` splits.
pub open spec fn split_table(s: Seq<Split>, upto: int) -> Seq<char>
    decreases upto,
{
    if upto <= 0 {
        Seq::<char>::empty()
    } else {
        split_table(s, upto - 1) + split_line(s[upto - 1], upto - 1)
    }
}

/// The frozen elapsed time of a finished session.
pub open spec fn frozen_elapsed(g: Game) -> int {
    if g.started_at is Some && g.ended_at is Some {
        if g.ended_at->0 >= g.started_at->0 {
            g.ended_at->0 - g.started_at->0
        } else {
            0
        }
    } else {
        0
    }
}

/// The saturated total time debited for misses.
pub open spec fn timeloss_of(g: Game) -> int {
    let t = (g.cfg.loss_ms_per_miss as int) * (g.miss as int);
    if t > u64::MAX {
        u64::MAX as int
    } else {
        t
    }
}

/// What the finalized record of a finished session holds, given the
/// caller-supplied timestamp: a pure function of the frozen session state.
pub open spec fn record_matches(g: Game, datetime: String, r: ScoreRecord) -> bool {
    &&& r.mode@ == "basic_common"@
    &&& r.datetime == datetime
    &&& r.time_ms == frozen_elapsed(g)
    &&& r.miss == g.miss
    &&& r.timeloss_ms == timeloss_of(g)
    &&& r.splits@.len() == g.splits@.len()
    &&& (forall|i: int|
        0 <= i < g.splits@.len() ==> (#[trigger] r.splits@[i]).word == g.splits@[i].word
            && r.splits@[i].ms == g.splits@[i].ms && r.splits@[i].miss == g.splits@[i].miss)
    &&& r.wpm_top == crate::stats::wpm_top(g.splits@)
    &&& r.wpm_worst == crate::stats::wpm_worst(g.splits@)
    &&& r.rank@ == crate::level::rank_label(
        cps_milli(g.correct_keystrokes, frozen_elapsed(g)),
    )@
    &&& r.memo is None
    &&& r.speed_series is Some && r.speed_series->0@ == g.speed_series@
    &&& r.word_display is None
    &&& (g.replay@.len() == 0 <==> r.replay is None)
    &&& (r.replay is Some ==> r.replay->0@ == g.replay@)
}

/// Finalization is idempotent: two records produced from the same finished
/// session with the same timestamp agree in every field.
pub proof fn lemma_finalize_idempotent(g: Game, datetime: String, r1: ScoreRecord, r2: ScoreRecord)
    requires
        record_matches(g, datetime, r1),
        record_matches(g, datetime, r2),
    ensures
        r1.mode@ == r2.mode@,
        r1.datetime == r2.datetime,
        r1.time_ms == r2.time_ms,
        r1.miss == r2.miss,
        r1.timeloss_ms == r2.timeloss_ms,
        r1.splits@.len() == r2.splits@.len(),
        forall|i: int|
            0 <= i < r1.splits@.len() ==> (#[trigger] r1.splits@[i]).word == r2.splits@[i].word
                && r1.splits@[i].ms == r2.splits@[i].ms && r1.splits@[i].miss
                == r2.splits@[i].miss,
        r1.wpm_top == r2.wpm_top,
        r1.wpm_worst == r2.wpm_worst,
        r1.rank@ == r2.rank@,
        r1.memo is None && r2.memo is None,
        r1.speed_series->0@ == r2.speed_series->0@,
        r1.word_display is None && r2.word_display is None,
        r1.replay is Some <==> r2.replay is Some,
        r1.replay is Some ==> r1.replay->0@ == r2.replay->0@,
{
}

/// Session accounting: the splits never count more misses than the
/// session total, the index stays within the word list with one split per
/// completed word, and elapsed time is non-decreasing in the clock and
/// constant once the session has finished.
pub proof fn lemma_session_accounting(g: Game, n1: u64, n2: u64)
    requires
        g.wf(),
        n1 <= n2,
    ensures
        sum_split_miss(g.splits@) <= g.miss as int,
        g.splits@.len() == g.idx,
        g.idx <= g.words@.len(),
        g.elapsed_at(n1) <= g.elapsed_at(n2),
        g.finished ==> g.elapsed_at(n1) == g.elapsed_at(n2),
{
    if !g.finished {
        assert(g.matcher_miss() >= 0);
    }
}

impl Game {
    /// Elapsed session time in milliseconds: zero before the first
    /// keystroke, live while running, frozen once finished.
    pub fn elapsed_ms(&self, now_ms: u64) -> (r: u64)
        requires
            self.wf(),
        ensures
            r == self.elapsed_at(now_ms),
    {
        match (self.started_at, self.ended_at) {
            (Option::Some(s), Option::Some(e)) => if e >= s {
                e - s
            } else {
                0
            },
            (Option::Some(s), Option::None) => {
                let cl = if now_ms >= self.clock_ms {
                    now_ms
                } else {
                    self.clock_ms
                };
                cl - s
            },
            _ => 0,
        }
    }

    /// Time left under the configured limit.
    pub fn time_left_ms(&self, now_ms: u64) -> (r: u64)
        requires
            self.wf(),
        ensures
            r == if self.cfg.time_limit_ms >= self.elapsed_at(now_ms) {
                self.cfg.time_limit_ms - self.elapsed_at(now_ms)
            } else {
                0
            },
    {
        let e = self.elapsed_ms(now_ms);
        if self.cfg.time_limit_ms >= e {
            self.cfg.time_limit_ms - e
        } else {
            0
        }
    }

    /// The session's average speed so far, in milli-keystrokes per second.
    fn avg_cps_milli(&self, now_ms: u64) -> (r: u64)
        requires
            self.wf(),
        ensures
            r == cps_milli(self.correct_keystrokes, self.elapsed_at(now_ms)),
    {
        let t = self.elapsed_ms(now_ms);
        if t > 0 {
            (self.correct_keystrokes as u64) * 1_000_000 / t
        } else {
            0
        }
    }

    /// The rank label for the session's average speed so far.
    pub fn current_level(&self, now_ms: u64) -> (r: String)
        requires
            self.wf(),
        ensures
            r@ == crate::level::rank_label(
                cps_milli(self.correct_keystrokes, self.elapsed_at(now_ms)),
            )@,
    {
        let cps = self.avg_cps_milli(now_ms);
        crate::level::estimate_rank(cps).to_owned()
    }

    /// The session's total miss count.
    pub fn miss(&self) -> (r: u32)
        ensures
            r == self.miss,
    {
        self.miss
    }

    /// The accepted keystrokes of the current word.
    pub fn typed(&self) -> (r: String)
        ensures
            r@ == self.typed@,
    {
        chars_to_string(&self.typed)
    }

    /// Progress toward the session's goal, in permille: correct keystrokes
    /// against the target in character-count mode, words completed against
    /// the word count otherwise.
    pub fn progress_ratio(&self) -> (r: u64)
        requires
            self.wf(),
        ensures
            self.cfg.fixed_chars && self.cfg.target_chars == 0 ==> r == 0,
            self.cfg.fixed_chars && self.cfg.target_chars > 0 ==> r == permille(
                self.correct_keystrokes as int,
                self.cfg.target_chars as int,
            ),
            !self.cfg.fixed_chars ==> r == permille(
                self.idx as int,
                if (if self.words@.len() < self.cfg.max_words {
                    self.words@.len() as int
                } else {
                    self.cfg.max_words as int
                }) > 1 {
                    if self.words@.len() < self.cfg.max_words {
                        self.words@.len() as int
                    } else {
                        self.cfg.max_words as int
                    }
                } else {
                    1
                },
            ),
    {
        if self.cfg.fixed_chars {
            if self.cfg.target_chars == 0 {
                return 0;
            }
            let c = self.correct_keystrokes as u64;
            let t = self.cfg.target_chars as u64;
            if c >= t {
                1000
            } else {
                c * 1000 / t
            }
        } else {
            let m = if self.words.len() < self.cfg.max_words {
                self.words.len()
            } else {
                self.cfg.max_words
            };
            let denom = if m > 1 {
                m
            } else {
                1
            };
            if self.idx >= denom {
                1000
            } else {
                let p = (self.idx as u128) * 1000 / (denom as u128);
                proof {
                    vstd::arithmetic::div_mod::lemma_fundamental_div_mod(
                        (self.idx as int) * 1000,
                        denom as int,
                    );
                    assert(p < 1000) by (nonlinear_arith)
                        requires
                            (self.idx as int) < (denom as int),
                            (denom as int) >= 1,
                            p == (self.idx as int) * 1000 / (denom as int),
                    ;
                }
                p as u64
            }
        }
    }

    /// The current index into the word list.
    pub fn current_index(&self) -> (r: usize)
        ensures
            r == self.idx,
    {
        self.idx
    }

    /// How many words the session holds.
    pub fn words_len(&self) -> (r: usize)
        ensures
            r == self.words@.len(),
    {
        self.words.len()
    }

    /// The recorded speed samples.
    pub fn speed_points(&self) -> (r: &Vec<(u64, u64)>)
        ensures
            r@ == self.speed_series@,
    {
        &self.speed_series
    }

    /// The length of the current word's accepted prefix.
    pub fn current_typed_len(&self) -> (r: usize)
        ensures
            r == self.typed@.len(),
    {
        self.typed.len()
    }

    /// The last rejected character, if the latest keystroke missed.
    pub fn last_miss_char(&self) -> (r: Option<char>)
        ensures
            r == self.last_miss_char,
    {
        self.last_miss_char
    }

    /// The session's total accepted keystrokes.
    pub fn current_typed_total(&self) -> (r: u32)
        ensures
            r == self.correct_keystrokes,
    {
        self.correct_keystrokes
    }

    /// Whether the session was cancelled rather than completed.
    pub fn aborted(&self) -> (r: bool)
        ensures
            r == self.aborted,
    {
        self.aborted
    }
}

/// A ratio scaled to permille and clamped at one.
pub open spec fn permille(num: int, den: int) -> int {
    if den <= 0 {
        0
    } else if num >= den {
        1000
    } else {
        num * 1000 / den
    }
}


impl Game {
    /// The romaji line shown for the current word.
    pub fn current_roma_line(&self) -> (r: String)
        requires
            self.wf(),
        ensures
            r@ == roma_line_view(*self),
    {
        if self.idx < self.words.len() {
            let w = &self.words[self.idx];
            let def = if w.romas.len() > 0 {
                w.romas[0].clone()
            } else {
                String::new()
            };
            match &self.matcher {
                Option::Some(m) => m.display_with_default(def.as_str()),
                Option::None => def,
            }
        } else {
            String::new()
        }
    }

    /// The romaji shown for word `i`, reflecting the spelling actually
    /// typed once the word is done.
    pub fn roma_for_index(&self, i: usize) -> (r: String)
        requires
            self.wf(),
        ensures
            r@ == roma_for_index_view(*self, i as int),
    {
        if i >= self.words.len() {
            return String::new();
        }
        if i < self.idx {
            match &self.display_romas[i] {
                Option::Some(s) => s.clone(),
                Option::None => {
                    let w = &self.words[i];
                    if w.romas.len() > 0 {
                        w.romas[0].clone()
                    } else {
                        String::new()
                    }
                },
            }
        } else if i == self.idx {
            self.current_roma_line()
        } else {
            let w = &self.words[i];
            if w.romas.len() > 0 {
                w.romas[0].clone()
            } else {
                String::new()
            }
        }
    }

    /// The word-line display: a window of up to three words on either side
    /// of the current one, which is bracketed.
    pub fn current_line_display(&self) -> (r: String)
        requires
            self.wf(),
        ensures
            ({
                let start = if self.idx >= 3 {
                    self.idx - 3
                } else {
                    0
                };
                let end = if self.idx + 4 <= self.words@.len() {
                    self.idx + 4
                } else {
                    self.words@.len() as int
                };
                r@ == line_disp(self.words@, self.idx as int, start as int, end)
            }),
    {
        let start: usize = if self.idx >= 3 {
            self.idx - 3
        } else {
            0
        };
        let n = self.words.len();
        let end: usize = if n - self.idx > 4 {
            self.idx + 4
        } else {
            n
        };
        let mut acc: Vec<char> = Vec::new();
        let mut i: usize = start;
        proof {
            assert(Seq::<char>::empty() + line_disp(self.words@, self.idx as int, start as int, end as int)
                =~= line_disp(self.words@, self.idx as int, start as int, end as int));
        }
        while i < end
            invariant
                self.wf(),
                start <= i <= end,
                end <= self.words@.len(),
                line_disp(self.words@, self.idx as int, start as int, end as int) == acc@
                    + line_disp(self.words@, self.idx as int, i as int, end as int),
            decreases end - i,
        {
            let ghost pre = acc@;
            let cur = i == self.idx;
            if cur {
                acc.push('[');
            }
            let wc = chars_of_str(self.words[i].jp.as_str());
            extend_chars(&mut acc, &wc);
            if cur {
                acc.push(']');
            }
            acc.push(' ');
            proof {
                assert(acc@ =~= pre + bracketed(self.words@[i as int], i == self.idx));
                assert(line_disp(self.words@, self.idx as int, i as int, end as int)
                    == bracketed(self.words@[i as int], i == self.idx) + line_disp(
                    self.words@,
                    self.idx as int,
                    i + 1,
                    end as int,
                ));
                assert(pre + (bracketed(self.words@[i as int], i == self.idx) + line_disp(
                    self.words@,
                    self.idx as int,
                    i + 1,
                    end as int,
                )) =~= acc@ + line_disp(self.words@, self.idx as int, i + 1, end as int));
            }
            i = i + 1;
        }
        proof {
            assert(line_disp(self.words@, self.idx as int, end as int, end as int)
                =~= Seq::<char>::empty());
            assert(acc@ + Seq::<char>::empty() =~= acc@);
        }
        chars_to_string(&acc)
    }

    /// The current word's native text split at the typing position:
    /// completed characters, the character being typed, and the rest.
    pub fn current_jp_progress(&self) -> (r: (String, Option<char>, String))
        requires
            self.wf(),
        ensures
            ({
                let g = *self;
                if g.idx < g.words@.len() && g.words@[g.idx as int].jp@.len() > 0 {
                    let jp = g.words@[g.idx as int].jp@;
                    let roma = roma_line_view(g);
                    let total = if roma.len() > 0 {
                        roma.len() as int
                    } else {
                        1
                    };
                    let typed = if g.typed@.len() <= total {
                        g.typed@.len() as int
                    } else {
                        total
                    };
                    let n = jp.len() as int;
                    let pos0 = typed * n / total;
                    let pos = if pos0 >= n {
                        n - 1
                    } else {
                        pos0
                    };
                    &&& r.0@ == (if pos > 0 {
                        jp.take(pos)
                    } else {
                        Seq::<char>::empty()
                    })
                    &&& r.1 == (if typed >= total {
                        Option::<char>::None
                    } else {
                        Option::Some(jp[pos])
                    })
                    &&& r.2@ == (if typed >= total {
                        Seq::<char>::empty()
                    } else {
                        jp.skip(pos + 1)
                    })
                } else {
                    r.0@.len() == 0 && r.1 is None && r.2@.len() == 0
                }
            }),
    {
        if self.idx >= self.words.len() {
            return (String::new(), None, String::new());
        }
        let jp = &self.words[self.idx].jp;
        let n = jp.as_str().unicode_len();
        if n == 0 {
            return (String::new(), None, String::new());
        }
        let roma = self.current_roma_line();
        let rl = roma.as_str().unicode_len();
        let total: usize = if rl > 0 {
            rl
        } else {
            1
        };
        let typed: usize = if self.typed.len() <= total {
            self.typed.len()
        } else {
            total
        };
        proof {
            assert((typed as int) * (n as int) <= u64::MAX * u64::MAX) by (nonlinear_arith)
                requires
                    0 <= (typed as int) <= u64::MAX,
                    0 <= (n as int) <= u64::MAX,
            ;
        }
        let pos0 = (typed as u128) * (n as u128) / (total as u128);
        let pos: usize = if pos0 >= (n as u128) {
            n - 1
        } else {
            pos0 as usize
        };
        let done = if pos > 0 {
            jp.as_str().substring_char(0, pos).to_owned()
        } else {
            String::new()
        };
        if typed >= total {
            proof {
                assert(done@ == (if pos as int > 0 {
                    self.words@[self.idx as int].jp@.take(pos as int)
                } else {
                    Seq::<char>::empty()
                }));
            }
            (done, None, String::new())
        } else {
            let next = jp.as_str().get_char(pos);
            let rest = jp.as_str().substring_char(pos + 1, n).to_owned();
            proof {
                assert(rest@ =~= self.words@[self.idx as int].jp@.skip(pos + 1));
            }
            (done, Some(next), rest)
        }
    }

    /// The split table: one line per completed word, with its number, its
    /// text, its seconds to three decimals, and its misses.
    pub fn split_table_text(&self) -> (r: String)
        requires
            self.wf(),
        ensures
            r@ == split_table(self.splits@, self.splits@.len() as int),
    {
        let mut acc: Vec<char> = Vec::new();
        let mut i: usize = 0;
        while i < self.splits.len()
            invariant
                self.wf(),
                i <= self.splits@.len(),
                acc@ == split_table(self.splits@, i as int),
            decreases self.splits@.len() - i,
        {
            let ghost pre = acc@;
            let sp = &self.splits[i];
            let num = pad_chars(u64_to_chars((i + 1) as u64), 2);
            extend_chars(&mut acc, &num);
            acc.push(' ');
            let wc = chars_of_str(sp.word.as_str());
            extend_chars(&mut acc, &wc);
            acc.push(' ');
            acc.push(' ');
            let secs = pad_chars(sec3_chars(sp.ms), 6);
            extend_chars(&mut acc, &secs);
            acc.push('s');
            acc.push(' ');
            acc.push(' ');
            acc.push('m');
            acc.push('i');
            acc.push('s');
            acc.push('s');
            acc.push(' ');
            let mc = u64_to_chars(sp.miss as u64);
            extend_chars(&mut acc, &mc);
            acc.push('\n');
            proof {
                assert(acc@ =~= pre + split_line(self.splits@[i as int], i as int));
                assert(split_table(self.splits@, i + 1) == split_table(self.splits@, i as int)
                    + split_line(self.splits@[i as int], i as int));
            }
            i = i + 1;
        }
        chars_to_string(&acc)
    }

    /// Produces the finished session's score record.  A pure function of
    /// the frozen session state and the caller's timestamp, so repeated
    /// calls with the same timestamp agree byte for byte.
    pub fn finish_record(&self, datetime: String) -> (r: ScoreRecord)
        requires
            self.wf(),
            self.finished,
        ensures
            record_matches(*self, datetime, r),
    {
        let time_ms = match (self.started_at, self.ended_at) {
            (Option::Some(s), Option::Some(e)) => if e >= s {
                e - s
            } else {
                0
            },
            _ => 0,
        };
        let timeloss_ms = match self.cfg.loss_ms_per_miss.checked_mul(self.miss as u64) {
            Option::Some(v) => v,
            Option::None => u64::MAX,
        };
        let mut splits: Vec<SplitRec> = Vec::new();
        let mut i: usize = 0;
        while i < self.splits.len()
            invariant
                i <= self.splits@.len(),
                splits@.len() == i,
                forall|j: int|
                    0 <= j < i ==> (#[trigger] splits@[j]).word == self.splits@[j].word
                        && splits@[j].ms == self.splits@[j].ms && splits@[j].miss
                        == self.splits@[j].miss,
            decreases self.splits@.len() - i,
        {
            let sp = &self.splits[i];
            splits.push(SplitRec { word: sp.word.clone(), ms: sp.ms, miss: sp.miss });
            i = i + 1;
        }
        let (wpm_top, wpm_worst) = crate::stats::compute_wpm_stats(&self.splits);
        let cps = if time_ms > 0 {
            (self.correct_keystrokes as u64) * 1_000_000 / time_ms
        } else {
            0
        };
        let rank = crate::level::estimate_rank(cps).to_owned();
        let mut speed: Vec<(u64, u64)> = Vec::new();
        let mut k: usize = 0;
        while k < self.speed_series.len()
            invariant
                k <= self.speed_series@.len(),
                speed@ == self.speed_series@.take(k as int),
            decreases self.speed_series@.len() - k,
        {
            speed.push(self.speed_series[k]);
            assert(speed@ =~= self.speed_series@.take(k + 1 as int));
            k = k + 1;
        }
        assert(speed@ =~= self.speed_series@);
        let replay: Option<Vec<KeyEv>> = if self.replay.len() == 0 {
            None
        } else {
            let mut rv: Vec<KeyEv> = Vec::new();
            let mut j: usize = 0;
            while j < self.replay.len()
                invariant
                    j <= self.replay@.len(),
                    rv@ == self.replay@.take(j as int),
                decreases self.replay@.len() - j,
            {
                rv.push(
                    KeyEv {
                        t: self.replay[j].t,
                        c: self.replay[j].c,
                        ok: self.replay[j].ok,
                        w: self.replay[j].w,
                    },
                );
                proof {
                    assert(self.replay@[j as int] == (KeyEv {
                        t: self.replay@[j as int].t,
                        c: self.replay@[j as int].c,
                        ok: self.replay@[j as int].ok,
                        w: self.replay@[j as int].w,
                    }));
                    assert(rv@ =~= self.replay@.take(j + 1 as int));
                }
                j = j + 1;
            }
            assert(rv@ =~= self.replay@);
            Some(rv)
        };
        ScoreRecord {
            mode: String::from_str("basic_common"),
            datetime,
            time_ms,
            miss: self.miss,
            timeloss_ms,
            splits,
            wpm_top,
            wpm_worst,
            rank,
            memo: None,
            speed_series: Some(speed),
            word_display: None,
            replay,
        }
    }
}

} // verus!
