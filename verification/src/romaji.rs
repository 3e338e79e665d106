//! Phonetic-equivalence rules and the per-word keystroke matcher.
//!
//! A word's author-provided base spelling is expanded, under a rule set of
//! literal substring swaps plus fixed vowel-cluster and nasal rules, into the
//! finite set of spellings accepted for that word.  The matcher then judges
//! one character at a time against that set.

use vstd::prelude::*;
use crate::text::{is_ascii_char, is_vowel_char, is_alpha_char, ascii_char, vowel_char, alpha_char, copy_chars, chars_of_str, chars_to_string, is_prefix};

verus! {

// ---------------------------------------------------------------------------
// Spelling sequences and sets
// ---------------------------------------------------------------------------

/// The views of a list of spellings.
pub open spec fn views_of(v: Seq<Vec<char>>) -> Seq<Seq<char>> {
    Seq::new(v.len(), |i: int| v[i]@)
}

/// The set of spellings a list holds.
pub open spec fn spell_set(v: Seq<Vec<char>>) -> Set<Seq<char>> {
    views_of(v).to_set()
}

/// No two entries of the list hold the same spelling.
pub open spec fn no_dup(v: Seq<Vec<char>>) -> bool {
    forall|i: int, j: int| 0 <= i < j < v.len() ==> v[i]@ != v[j]@
}

/// Entries are ordered by non-decreasing length.
pub open spec fn sorted_by_len(v: Seq<Vec<char>>) -> bool {
    forall|i: int, j: int| 0 <= i < j < v.len() ==> v[i]@.len() <= v[j]@.len()
}

/// Whether two character vectors hold the same characters.
pub fn chars_eq(a: &Vec<char>, b: &Vec<char>) -> (r: bool)
    ensures
        r == (a@ == b@),
{
    if a.len() != b.len() {
        assert(a@ != b@);
        return false;
    }
    let mut i: usize = 0;
    while i < a.len()
        invariant
            i <= a@.len(),
            a@.len() == b@.len(),
            forall|j: int| 0 <= j < i ==> a@[j] == b@[j],
        decreases a@.len() - i,
    {
        if a[i] != b[i] {
            assert(a@ != b@);
            return false;
        }
        i = i + 1;
    }
    assert(a@ =~= b@);
    true
}

/// Pushes a spelling unless an equal one is already present, so the list
/// stays duplicate-free and its set of spellings gains exactly `x`.
fn push_unique(list: &mut Vec<Vec<char>>, x: Vec<char>)
    requires
        no_dup(old(list)@),
    ensures
        no_dup(final(list)@),
        spell_set(final(list)@) == spell_set(old(list)@).insert(x@),
        old(list)@.is_prefix_of(final(list)@),
{
    let mut i: usize = 0;
    while i < list.len()
        invariant
            list@ == old(list)@,
            no_dup(list@),
            i <= list@.len(),
            forall|j: int| 0 <= j < i ==> list@[j]@ != x@,
        decreases list@.len() - i,
    {
        if chars_eq(&list[i], &x) {
            proof {
                assert(views_of(list@)[i as int] == x@);
                assert(views_of(list@).contains(x@));
                assert(spell_set(list@) =~= spell_set(list@).insert(x@));
                assert(list@.is_prefix_of(list@));
            }
            return;
        }
        i = i + 1;
    }
    let ghost pre = list@;
    list.push(x);
    proof {
        assert forall|y: Seq<char>| spell_set(list@).contains(y)
            implies spell_set(pre).insert(x@).contains(y) by {
            let k = choose|k: int| 0 <= k < views_of(list@).len() && views_of(list@)[k] == y;
            if k < pre.len() {
                assert(views_of(pre)[k] == y);
                assert(views_of(pre).contains(y));
            } else {
                assert(y == x@);
            }
        }
        assert forall|y: Seq<char>| spell_set(pre).insert(x@).contains(y)
            implies spell_set(list@).contains(y) by {
            if y == x@ {
                assert(views_of(list@)[pre.len() as int] == x@);
                assert(views_of(list@).contains(y));
            } else {
                let k = choose|k: int| 0 <= k < views_of(pre).len() && views_of(pre)[k] == y;
                assert(views_of(list@)[k] == y);
                assert(views_of(list@).contains(y));
            }
        }
        assert(spell_set(list@) =~= spell_set(pre).insert(x@));
        assert(pre.is_prefix_of(list@)) by {
            assert(pre =~= list@.subrange(0, pre.len() as int));
        }
    }
}

// ---------------------------------------------------------------------------
// Literal substring replacement
// ---------------------------------------------------------------------------

/// Replaces every (leftmost, non-overlapping) occurrence of `a` in `s` by `b`.
pub open spec fn replace_all(s: Seq<char>, a: Seq<char>, b: Seq<char>) -> Seq<char>
    decreases s.len(),
{
    if a.len() == 0 || s.len() < a.len() {
        s
    } else if s.take(a.len() as int) == a {
        b + replace_all(s.skip(a.len() as int), a, b)
    } else {
        seq![s[0]] + replace_all(s.skip(1), a, b)
    }
}

/// Whether `a` occurs in `s` starting at position `i`.
fn occurs_at(s: &Vec<char>, i: usize, a: &Vec<char>) -> (r: bool)
    requires
        i + a@.len() <= s@.len(),
    ensures
        r == (s@.subrange(i as int, i + a@.len()) == a@),
{
    let n = s.len();
    assert(n == s@.len());
    let mut j: usize = 0;
    while j < a.len()
        invariant
            j <= a@.len(),
            i + a@.len() <= s@.len(),
            s@.len() <= usize::MAX,
            forall|k: int| 0 <= k < j ==> s@[i + k] == a@[k],
        decreases a@.len() - j,
    {
        if s[i + j] != a[j] {
            assert(s@.subrange(i as int, i + a@.len())[j as int] != a@[j as int]);
            return false;
        }
        j = j + 1;
    }
    assert(s@.subrange(i as int, i + a@.len()) =~= a@);
    true
}

/// Exec counterpart of `replace_all`.
pub fn replace_all_vec(s: &Vec<char>, a: &Vec<char>, b: &Vec<char>) -> (r: Vec<char>)
    ensures
        r@ == replace_all(s@, a@, b@),
{
    let mut out: Vec<char> = Vec::new();
    if a.len() == 0 {
        let mut i: usize = 0;
        while i < s.len()
            invariant
                i <= s@.len(),
                out@ == s@.take(i as int),
            decreases s@.len() - i,
        {
            out.push(s[i]);
            assert(out@ =~= s@.take(i + 1 as int));
            i = i + 1;
        }
        assert(out@ =~= s@);
        return out;
    }
    let mut i: usize = 0;
    proof {
        assert(s@.skip(0) =~= s@);
        assert(Seq::<char>::empty() + replace_all(s@, a@, b@) =~= replace_all(s@, a@, b@));
    }
    while i < s.len()
        invariant
            a@.len() >= 1,
            i <= s@.len(),
            replace_all(s@, a@, b@) == out@ + replace_all(s@.skip(i as int), a@, b@),
        decreases s@.len() - i,
    {
        let ghost rest = s@.skip(i as int);
        if a.len() <= s.len() - i && occurs_at(s, i, a) {
            proof {
                assert(rest.take(a@.len() as int) =~= s@.subrange(i as int, i + a@.len()));
                assert(replace_all(rest, a@, b@)
                    == b@ + replace_all(rest.skip(a@.len() as int), a@, b@));
                assert(rest.skip(a@.len() as int) =~= s@.skip(i + a@.len()));
            }
            let ghost mid = out@;
            let mut j: usize = 0;
            while j < b.len()
                invariant
                    j <= b@.len(),
                    out@ == mid + b@.take(j as int),
                decreases b@.len() - j,
            {
                out.push(b[j]);
                assert(out@ =~= mid + b@.take(j + 1 as int));
                j = j + 1;
            }
            assert(out@ =~= mid + b@);
            proof {
                assert(replace_all(s@, a@, b@)
                    == out@ + replace_all(s@.skip(i + a@.len()), a@, b@)) by {
                    assert(mid + (b@ + replace_all(s@.skip(i + a@.len()), a@, b@))
                        =~= (mid + b@) + replace_all(s@.skip(i + a@.len()), a@, b@));
                }
            }
            i = i + a.len();
        } else {
            proof {
                if rest.len() < a@.len() {
                    assert(replace_all(rest, a@, b@) == rest);
                    assert(rest.skip(1) =~= s@.skip(i + 1));
                    assert(replace_all(rest.skip(1), a@, b@) == rest.skip(1));
                    assert(seq![rest[0]] + rest.skip(1) =~= rest);
                } else {
                    assert(rest.take(a@.len() as int) =~= s@.subrange(i as int, i + a@.len()));
                    assert(rest.take(a@.len() as int) != a@);
                    assert(rest.skip(1) =~= s@.skip(i + 1));
                }
                assert(replace_all(rest, a@, b@)
                    == seq![rest[0]] + replace_all(s@.skip(i + 1), a@, b@));
            }
            let ghost mid = out@;
            out.push(s[i]);
            proof {
                assert(rest[0] == s@[i as int]);
                assert(mid + (seq![rest[0]] + replace_all(s@.skip(i + 1), a@, b@))
                    =~= out@ + replace_all(s@.skip(i + 1), a@, b@));
            }
            i = i + 1;
        }
    }
    proof {
        assert(s@.skip(s@.len() as int) =~= Seq::<char>::empty());
        assert(replace_all(Seq::<char>::empty(), a@, b@) == Seq::<char>::empty());
        assert(out@ + Seq::<char>::empty() =~= out@);
    }
    out
}

// ---------------------------------------------------------------------------
// Rule steps over sets of spellings
// ---------------------------------------------------------------------------

/// A set together with the image of each of its members under `f`.
pub open spec fn map_step(st: Set<Seq<char>>, f: spec_fn(Seq<char>) -> Seq<char>) -> Set<Seq<char>> {
    st.union(st.map(f))
}

/// One direction of a literal substring swap, applied across a whole set.
pub open spec fn bi_step(st: Set<Seq<char>>, a: Seq<char>, b: Seq<char>) -> Set<Seq<char>> {
    map_step(st, |x: Seq<char>| replace_all(x, a, b))
}

/// Rewrites every member of the list by `a -> b` and keeps the results
/// beside the originals.
fn apply_bi(list: &mut Vec<Vec<char>>, a: &Vec<char>, b: &Vec<char>)
    requires
        no_dup(old(list)@),
    ensures
        no_dup(final(list)@),
        spell_set(final(list)@) == bi_step(spell_set(old(list)@), a@, b@),
{
    let ghost s0 = spell_set(old(list)@);
    let n = list.len();
    let mut adds: Vec<Vec<char>> = Vec::new();
    let mut i: usize = 0;
    while i < n
        invariant
            list@ == old(list)@,
            n == list@.len(),
            i <= n,
            adds@.len() == i,
            forall|j: int| 0 <= j < i ==> adds@[j]@ == replace_all(list@[j]@, a@, b@),
        decreases n - i,
    {
        let r = replace_all_vec(&list[i], a, b);
        adds.push(r);
        i = i + 1;
    }
    let mut k: usize = 0;
    while k < n
        invariant
            no_dup(list@),
            n == old(list)@.len(),
            n == adds@.len(),
            k <= n,
            s0 == spell_set(old(list)@),
            forall|j: int| 0 <= j < n ==> adds@[j]@ == replace_all(old(list)@[j]@, a@, b@),
            s0.subset_of(spell_set(list@)),
            spell_set(list@).subset_of(bi_step(s0, a@, b@)),
            forall|j: int| 0 <= j < k ==> spell_set(list@).contains(#[trigger] adds@[j]@),
        decreases n - k,
    {
        let ghost pre = list@;
        let x = copy_chars(&adds[k]);
        proof {
            assert(views_of(old(list)@)[k as int] == old(list)@[k as int]@);
            assert(views_of(old(list)@).contains(old(list)@[k as int]@));
            assert(s0.contains(old(list)@[k as int]@));
            assert(bi_step(s0, a@, b@).contains(x@)) by {
                let f = |y: Seq<char>| replace_all(y, a@, b@);
                assert(f(old(list)@[k as int]@) == x@);
                assert(s0.map(f).contains(x@));
            }
        }
        push_unique(list, x);
        proof {
            assert forall|y: Seq<char>| spell_set(pre).contains(y)
                implies spell_set(list@).contains(y) by {
                let j = choose|j: int| 0 <= j < views_of(pre).len() && views_of(pre)[j] == y;
                assert(pre[j]@ == y);
                assert(list@[j]@ == y);
                assert(views_of(list@)[j] == y);
                assert(views_of(list@).contains(y));
            }
        }
        k = k + 1;
    }
    proof {
        assert forall|y: Seq<char>| bi_step(s0, a@, b@).contains(y)
            implies spell_set(list@).contains(y) by {
            let f = |x: Seq<char>| replace_all(x, a@, b@);
            if s0.contains(y) {
                assert(spell_set(list@).contains(y));
            } else {
                assert(s0.map(f).contains(y));
                let x = choose|x: Seq<char>| s0.contains(x) && f(x) == y;
                let j = choose|j: int|
                    0 <= j < views_of(old(list)@).len() && views_of(old(list)@)[j] == x;
                assert(adds@[j]@ == replace_all(old(list)@[j]@, a@, b@));
                assert(adds@[j]@ == y);
                assert(spell_set(list@).contains(adds@[j]@));
            }
        }
        assert(spell_set(list@) =~= bi_step(s0, a@, b@));
    }
}

// ---------------------------------------------------------------------------
// The safe `fu` -> `hu` vowel-cluster substitution
// ---------------------------------------------------------------------------

/// Helper for `fu_replace`: `prev_f` records whether the character before
/// the remaining suffix was an `f` (which blocks the substitution).
pub open spec fn fu_rep(s: Seq<char>, prev_f: bool) -> Seq<char>
    decreases s.len(),
{
    if s.len() < 2 {
        s
    } else if s[0] == 'f' && s[1] == 'u' && !prev_f {
        seq!['h', 'u'] + fu_rep(s.skip(2), false)
    } else {
        seq![s[0]] + fu_rep(s.skip(1), s[0] == 'f')
    }
}

/// Replaces every occurrence of `fu` that is not preceded by an `f` with
/// `hu`, all at once.
pub open spec fn fu_replace(s: Seq<char>) -> Seq<char> {
    fu_rep(s, false)
}

/// Exec counterpart of `fu_replace`.
fn fu_replace_vec(s: &Vec<char>) -> (r: Vec<char>)
    ensures
        r@ == fu_replace(s@),
{
    let mut out: Vec<char> = Vec::new();
    let mut prev_f = false;
    let mut i: usize = 0;
    proof {
        assert(s@.skip(0) =~= s@);
        assert(Seq::<char>::empty() + fu_rep(s@, false) =~= fu_rep(s@, false));
    }
    while i < s.len()
        invariant
            i <= s@.len(),
            fu_replace(s@) == out@ + fu_rep(s@.skip(i as int), prev_f),
        decreases s@.len() - i,
    {
        let ghost rest = s@.skip(i as int);
        let ghost mid = out@;
        if i + 1 < s.len() && s[i] == 'f' && s[i + 1] == 'u' && !prev_f {
            out.push('h');
            out.push('u');
            proof {
                assert(rest[0] == 'f' && rest[1] == 'u');
                assert(fu_rep(rest, false) == seq!['h', 'u'] + fu_rep(rest.skip(2), false));
                assert(rest.skip(2) =~= s@.skip(i + 2));
                assert(mid + (seq!['h', 'u'] + fu_rep(s@.skip(i + 2), false))
                    =~= out@ + fu_rep(s@.skip(i + 2), false));
            }
            i = i + 2;
            prev_f = false;
        } else {
            let c = s[i];
            out.push(c);
            proof {
                assert(rest[0] == c);
                if rest.len() < 2 {
                    assert(rest.len() == 1);
                    assert(fu_rep(rest, prev_f) == rest);
                    assert(rest.skip(1) =~= Seq::<char>::empty());
                    assert(fu_rep(rest.skip(1), c == 'f') == Seq::<char>::empty());
                    assert(seq![rest[0]] + Seq::<char>::empty() =~= rest);
                }
                assert(fu_rep(rest, prev_f) == seq![rest[0]] + fu_rep(rest.skip(1), c == 'f'));
                assert(rest.skip(1) =~= s@.skip(i + 1));
                assert(mid + (seq![rest[0]] + fu_rep(s@.skip(i + 1), c == 'f'))
                    =~= out@ + fu_rep(s@.skip(i + 1), c == 'f'));
            }
            i = i + 1;
            prev_f = c == 'f';
        }
    }
    proof {
        assert(s@.skip(s@.len() as int) =~= Seq::<char>::empty());
        assert(fu_rep(Seq::<char>::empty(), prev_f) == Seq::<char>::empty());
        assert(out@ + Seq::<char>::empty() =~= out@);
    }
    out
}

/// A safe `fu` occurrence: one not preceded by an `f` (which would belong
/// to a doubled-consonant cluster).
pub open spec fn fu_site(s: Seq<char>, i: int) -> bool {
    0 <= i && i + 1 < s.len() && s[i] == 'f' && s[i + 1] == 'u' && (i == 0 || s[i - 1] != 'f')
}

/// One safe occurrence rewritten alone: its `f` becomes an `h`.
pub open spec fn fu_at(s: Seq<char>, i: int) -> Seq<char> {
    s.update(i, 'h')
}

/// The `fu` rule applied across a whole set: every member may be rewritten
/// at all safe occurrences at once, or at any single safe occurrence.
pub open spec fn fu_step(st: Set<Seq<char>>) -> Set<Seq<char>> {
    Set::new(
        |y: Seq<char>|
            {
                ||| st.contains(y)
                ||| exists|x: Seq<char>| st.contains(x) && y == #[trigger] fu_replace(x)
                ||| exists|x: Seq<char>, i: int|
                    st.contains(x) && #[trigger] fu_site(x, i) && y == fu_at(x, i)
            },
    )
}

/// Exec counterpart of `fu_at`.
fn fu_at_vec(s: &Vec<char>, p: usize) -> (r: Vec<char>)
    requires
        p < s@.len(),
    ensures
        r@ == fu_at(s@, p as int),
{
    let mut r = copy_chars(s);
    r[p] = 'h';
    r
}

/// Adds, for every member of the list, the rewriting of all its safe `fu`
/// occurrences at once and the rewriting of each single one.
fn apply_fu(list: &mut Vec<Vec<char>>)
    requires
        no_dup(old(list)@),
    ensures
        no_dup(final(list)@),
        spell_set(final(list)@) == fu_step(spell_set(old(list)@)),
{
    let ghost s0 = spell_set(old(list)@);
    let n = list.len();
    let mut adds: Vec<Vec<char>> = Vec::new();
    let mut i: usize = 0;
    while i < n
        invariant
            list@ == old(list)@,
            n == list@.len(),
            i <= n,
            adds@.len() == i,
            forall|j: int| 0 <= j < i ==> adds@[j]@ == fu_replace(list@[j]@),
        decreases n - i,
    {
        let r = fu_replace_vec(&list[i]);
        adds.push(r);
        i = i + 1;
    }
    let mut k: usize = 0;
    proof {
        assert(old(list)@.is_prefix_of(list@)) by {
            assert(old(list)@ =~= list@.subrange(0, old(list)@.len() as int));
        }
    }
    while k < n
        invariant
            no_dup(list@),
            n == old(list)@.len(),
            n == adds@.len(),
            k <= n,
            s0 == spell_set(old(list)@),
            forall|j: int| 0 <= j < n ==> adds@[j]@ == fu_replace(old(list)@[j]@),
            old(list)@.is_prefix_of(list@),
            s0.subset_of(spell_set(list@)),
            spell_set(list@).subset_of(fu_step(s0)),
            forall|j: int| 0 <= j < k ==> spell_set(list@).contains(#[trigger] adds@[j]@),
        decreases n - k,
    {
        let ghost pre = list@;
        let x = copy_chars(&adds[k]);
        proof {
            assert(views_of(old(list)@)[k as int] == old(list)@[k as int]@);
            assert(views_of(old(list)@).contains(old(list)@[k as int]@));
            assert(s0.contains(old(list)@[k as int]@));
            assert(fu_step(s0).contains(x@)) by {
                assert(x@ == fu_replace(old(list)@[k as int]@));
            }
        }
        push_unique(list, x);
        proof {
            lemma_prefix_trans(old(list)@, pre, list@);
            assert(spell_set(pre).subset_of(spell_set(list@)));
        }
        k = k + 1;
    }
    let ghost full_done = spell_set(list@);
    let mut i2: usize = 0;
    while i2 < n
        invariant
            no_dup(list@),
            n == old(list)@.len(),
            i2 <= n,
            s0 == spell_set(old(list)@),
            old(list)@.is_prefix_of(list@),
            s0.subset_of(spell_set(list@)),
            full_done.subset_of(spell_set(list@)),
            spell_set(list@).subset_of(fu_step(s0)),
            forall|j: int, q: int|
                0 <= j < i2 && fu_site(old(list)@[j]@, q) ==> spell_set(list@).contains(
                    fu_at(old(list)@[j]@, q),
                ),
        decreases n - i2,
    {
        proof {
            assert(list@[i2 as int] == old(list)@[i2 as int]);
            assert(views_of(old(list)@)[i2 as int] == old(list)@[i2 as int]@);
            assert(views_of(old(list)@).contains(old(list)@[i2 as int]@));
            assert(s0.contains(old(list)@[i2 as int]@));
        }
        let cur = copy_chars(&list[i2]);
        let ghost x = cur@;
        let mut p: usize = 0;
        while p < cur.len()
            invariant
                no_dup(list@),
                n == old(list)@.len(),
                i2 < n,
                p <= cur@.len(),
                x == cur@,
                x == old(list)@[i2 as int]@,
                s0 == spell_set(old(list)@),
                s0.contains(x),
                old(list)@.is_prefix_of(list@),
                s0.subset_of(spell_set(list@)),
                full_done.subset_of(spell_set(list@)),
                spell_set(list@).subset_of(fu_step(s0)),
                forall|j: int, q: int|
                    0 <= j < i2 && fu_site(old(list)@[j]@, q) ==> spell_set(list@).contains(
                        fu_at(old(list)@[j]@, q),
                    ),
                forall|q: int|
                    0 <= q < p && fu_site(x, q) ==> spell_set(list@).contains(fu_at(x, q)),
            decreases cur@.len() - p,
        {
            let is_site = p + 1 < cur.len() && cur[p] == 'f' && cur[p + 1] == 'u' && (p == 0
                || cur[p - 1] != 'f');
            assert(is_site == fu_site(x, p as int));
            if is_site {
                let v = fu_at_vec(&cur, p);
                proof {
                    assert(fu_step(s0).contains(v@));
                }
                let ghost pre = list@;
                push_unique(list, v);
                proof {
                    lemma_prefix_trans(old(list)@, pre, list@);
                    assert(spell_set(pre).subset_of(spell_set(list@)));
                }
            }
            p = p + 1;
        }
        i2 = i2 + 1;
    }
    proof {
        assert forall|y: Seq<char>| fu_step(s0).contains(y)
            implies spell_set(list@).contains(y) by {
            if s0.contains(y) {
                assert(spell_set(list@).contains(y));
            } else if exists|x: Seq<char>| s0.contains(x) && y == #[trigger] fu_replace(x) {
                let x = choose|x: Seq<char>| s0.contains(x) && y == #[trigger] fu_replace(x);
                let j = choose|j: int|
                    0 <= j < views_of(old(list)@).len() && views_of(old(list)@)[j] == x;
                assert(old(list)@[j]@ == x);
                assert(adds@[j]@ == y);
                assert(full_done.contains(adds@[j]@)) by {
                    assert(spell_set(list@).contains(adds@[j]@));
                }
            } else {
                let (x, q): (Seq<char>, int) = choose|x: Seq<char>, q: int|
                    s0.contains(x) && #[trigger] fu_site(x, q) && y == fu_at(x, q);
                let j = choose|j: int|
                    0 <= j < views_of(old(list)@).len() && views_of(old(list)@)[j] == x;
                assert(old(list)@[j]@ == x);
            }
        }
        assert(spell_set(list@) =~= fu_step(s0));
    }
}

// ---------------------------------------------------------------------------
// Nasal rules: apostrophe-marked endings and doubling before consonants
// ---------------------------------------------------------------------------

/// An apostrophe-marked nasal (`n'`) starts at position `i`.
pub open spec fn apos_site(s: Seq<char>, i: int) -> bool {
    0 <= i && i + 1 < s.len() && s[i] == 'n' && s[i + 1] == '\''
}

/// After the apostrophe comes a vowel or glide, where a bare `n` would be
/// read as the start of the next syllable.
pub open spec fn apos_ambig(s: Seq<char>, i: int) -> bool {
    i + 2 < s.len() && (is_vowel_char(s[i + 2]) || s[i + 2] == 'y')
}

/// The doubled form: `n'` rewritten to `nn`.
pub open spec fn apos_nn(s: Seq<char>, i: int) -> Seq<char> {
    s.update(i + 1, 'n')
}

/// The bare form: the apostrophe dropped.
pub open spec fn apos_n(s: Seq<char>, i: int) -> Seq<char> {
    s.take(i + 1) + s.skip(i + 2)
}

/// The apostrophe rule applied across a whole set: every `n'` may be typed
/// `nn`, and also as a bare `n` where no vowel or glide follows.
pub open spec fn apos_step(st: Set<Seq<char>>) -> Set<Seq<char>> {
    Set::new(
        |y: Seq<char>|
            st.contains(y) || exists|x: Seq<char>, i: int|
                st.contains(x) && #[trigger] apos_site(x, i) && (y == apos_nn(x, i) || (!apos_ambig(
                    x,
                    i,
                ) && y == apos_n(x, i))),
    )
}

/// A single nasal that the doubling rule applies to: an `n` at the end of
/// the word, or before a consonant other than a vowel, `y` or `n`.
pub open spec fn nd_site(s: Seq<char>, i: int) -> bool {
    &&& 0 <= i < s.len()
    &&& s[i] == 'n'
    &&& (i + 1 == s.len() || (is_alpha_char(s[i + 1]) && !is_vowel_char(s[i + 1]) && s[i + 1]
        != 'y' && s[i + 1] != 'n'))
}

/// An extra `n` inserted at position `i`.
pub open spec fn nd_variant(s: Seq<char>, i: int) -> Seq<char> {
    s.take(i) + seq!['n'] + s.skip(i)
}

/// The nasal-doubling rule applied across a whole set.  One-way: it never
/// removes an already doubled nasal.
pub open spec fn nd_step(st: Set<Seq<char>>) -> Set<Seq<char>> {
    Set::new(
        |y: Seq<char>|
            st.contains(y) || exists|x: Seq<char>, i: int|
                st.contains(x) && #[trigger] nd_site(x, i) && y == nd_variant(x, i),
    )
}

/// Exec counterpart of `apos_nn`.
fn apos_nn_vec(s: &Vec<char>, p: usize) -> (r: Vec<char>)
    requires
        p + 1 < s@.len(),
    ensures
        r@ == apos_nn(s@, p as int),
{
    let n = s.len();
    assert(n == s@.len());
    let mut r = copy_chars(s);
    r[p + 1] = 'n';
    r
}

/// Exec counterpart of `apos_n`.
fn apos_n_vec(s: &Vec<char>, p: usize) -> (r: Vec<char>)
    requires
        p + 1 < s@.len(),
    ensures
        r@ == apos_n(s@, p as int),
{
    let n = s.len();
    assert(n == s@.len());
    let mut r: Vec<char> = Vec::new();
    let mut j: usize = 0;
    while j < p + 1
        invariant
            p + 1 < s@.len(),
            s@.len() <= usize::MAX,
            j <= p + 1,
            r@ == s@.take(j as int),
        decreases p + 1 - j,
    {
        r.push(s[j]);
        assert(r@ =~= s@.take(j + 1 as int));
        j = j + 1;
    }
    let mut k: usize = p + 2;
    while k < s.len()
        invariant
            p + 1 < s@.len(),
            s@.len() <= usize::MAX,
            p + 2 <= k <= s@.len(),
            r@ == s@.take(p + 1 as int) + s@.subrange(p + 2 as int, k as int),
        decreases s@.len() - k,
    {
        r.push(s[k]);
        assert(r@ =~= s@.take(p + 1 as int) + s@.subrange(p + 2 as int, k + 1 as int));
        k = k + 1;
    }
    assert(s@.subrange(p + 2 as int, s@.len() as int) =~= s@.skip(p + 2));
    r
}

/// Exec counterpart of `nd_variant`.
fn nd_vec(s: &Vec<char>, p: usize) -> (r: Vec<char>)
    requires
        p < s@.len(),
    ensures
        r@ == nd_variant(s@, p as int),
{
    let n = s.len();
    assert(n == s@.len());
    let mut r: Vec<char> = Vec::new();
    let mut j: usize = 0;
    while j < p
        invariant
            p < s@.len(),
            j <= p,
            r@ == s@.take(j as int),
        decreases p - j,
    {
        r.push(s[j]);
        assert(r@ =~= s@.take(j + 1 as int));
        j = j + 1;
    }
    r.push('n');
    assert(r@ =~= s@.take(p as int) + seq!['n']);
    let mut k: usize = p;
    while k < s.len()
        invariant
            p <= k <= s@.len(),
            s@.len() <= usize::MAX,
            r@ == s@.take(p as int) + seq!['n'] + s@.subrange(p as int, k as int),
        decreases s@.len() - k,
    {
        r.push(s[k]);
        assert(r@ =~= s@.take(p as int) + seq!['n'] + s@.subrange(p as int, k + 1 as int));
        k = k + 1;
    }
    assert(s@.subrange(p as int, s@.len() as int) =~= s@.skip(p as int));
    r
}

/// Transitivity of list extension.
proof fn lemma_prefix_trans(a: Seq<Vec<char>>, b: Seq<Vec<char>>, c: Seq<Vec<char>>)
    requires
        a.is_prefix_of(b),
        b.is_prefix_of(c),
    ensures
        a.is_prefix_of(c),
{
    assert(a =~= c.subrange(0, a.len() as int));
}

/// Adds, for every member with an apostrophe-marked nasal, its doubled form
/// and (where unambiguous) its bare form.
fn apply_apos(list: &mut Vec<Vec<char>>)
    requires
        no_dup(old(list)@),
    ensures
        no_dup(final(list)@),
        spell_set(final(list)@) == apos_step(spell_set(old(list)@)),
{
    let ghost s0 = spell_set(old(list)@);
    let n = list.len();
    let mut i: usize = 0;
    proof {
        assert(old(list)@.is_prefix_of(list@)) by {
            assert(old(list)@ =~= list@.subrange(0, old(list)@.len() as int));
        }
    }
    while i < n
        invariant
            no_dup(list@),
            n == old(list)@.len(),
            i <= n,
            s0 == spell_set(old(list)@),
            old(list)@.is_prefix_of(list@),
            s0.subset_of(spell_set(list@)),
            spell_set(list@).subset_of(apos_step(s0)),
            forall|j: int, q: int|
                0 <= j < i && apos_site(old(list)@[j]@, q) ==> spell_set(list@).contains(
                    apos_nn(old(list)@[j]@, q),
                ) && (!apos_ambig(old(list)@[j]@, q) ==> spell_set(list@).contains(
                    apos_n(old(list)@[j]@, q),
                )),
        decreases n - i,
    {
        proof {
            assert(list@[i as int] == old(list)@[i as int]);
            assert(views_of(old(list)@)[i as int] == old(list)@[i as int]@);
            assert(views_of(old(list)@).contains(old(list)@[i as int]@));
            assert(s0.contains(old(list)@[i as int]@));
        }
        let cur = copy_chars(&list[i]);
        let ghost x = cur@;
        let mut p: usize = 0;
        while p < cur.len()
            invariant
                no_dup(list@),
                n == old(list)@.len(),
                i < n,
                p <= cur@.len(),
                x == cur@,
                x == old(list)@[i as int]@,
                s0 == spell_set(old(list)@),
                s0.contains(x),
                old(list)@.is_prefix_of(list@),
                s0.subset_of(spell_set(list@)),
                spell_set(list@).subset_of(apos_step(s0)),
                forall|j: int, q: int|
                    0 <= j < i && apos_site(old(list)@[j]@, q) ==> spell_set(list@).contains(
                        apos_nn(old(list)@[j]@, q),
                    ) && (!apos_ambig(old(list)@[j]@, q) ==> spell_set(list@).contains(
                        apos_n(old(list)@[j]@, q),
                    )),
                forall|q: int|
                    0 <= q < p && apos_site(x, q) ==> spell_set(list@).contains(apos_nn(x, q)) && (
                    !apos_ambig(x, q) ==> spell_set(list@).contains(apos_n(x, q))),
            decreases cur@.len() - p,
        {
            if p + 1 < cur.len() && cur[p] == 'n' && cur[p + 1] == '\'' {
                assert(apos_site(x, p as int));
                let vnn = apos_nn_vec(&cur, p);
                proof {
                    assert(apos_step(s0).contains(vnn@));
                }
                let ghost pre = list@;
                push_unique(list, vnn);
                proof {
                    lemma_prefix_trans(old(list)@, pre, list@);
                    assert(spell_set(pre).subset_of(spell_set(list@)));
                }
                let amb = p + 2 < cur.len() && {
                    let c2 = cur[p + 2];
                    vowel_char(c2) || c2 == 'y'
                };
                assert(amb == apos_ambig(x, p as int));
                if !amb {
                    let vn = apos_n_vec(&cur, p);
                    proof {
                        assert(apos_step(s0).contains(vn@));
                    }
                    let ghost pre2 = list@;
                    push_unique(list, vn);
                    proof {
                        lemma_prefix_trans(old(list)@, pre2, list@);
                        assert(spell_set(pre2).subset_of(spell_set(list@)));
                    }
                }
            }
            p = p + 1;
        }
        proof {
            assert forall|q: int| apos_site(x, q) implies 0 <= q < p by {}
        }
        i = i + 1;
    }
    proof {
        assert forall|y: Seq<char>| apos_step(s0).contains(y)
            implies spell_set(list@).contains(y) by {
            if !s0.contains(y) {
                let (x, q): (Seq<char>, int) = choose|x: Seq<char>, q: int|
                    s0.contains(x) && #[trigger] apos_site(x, q) && (y == apos_nn(x, q) || (
                    !apos_ambig(x, q) && y == apos_n(x, q)));
                let j = choose|j: int|
                    0 <= j < views_of(old(list)@).len() && views_of(old(list)@)[j] == x;
                assert(old(list)@[j]@ == x);
            }
        }
        assert(spell_set(list@) =~= apos_step(s0));
    }
}

/// Adds, for every member with a single nasal before a consonant or at the
/// end, the variant with that nasal doubled.
fn apply_nd(list: &mut Vec<Vec<char>>)
    requires
        no_dup(old(list)@),
    ensures
        no_dup(final(list)@),
        spell_set(final(list)@) == nd_step(spell_set(old(list)@)),
{
    let ghost s0 = spell_set(old(list)@);
    let n = list.len();
    let mut i: usize = 0;
    proof {
        assert(old(list)@.is_prefix_of(list@)) by {
            assert(old(list)@ =~= list@.subrange(0, old(list)@.len() as int));
        }
    }
    while i < n
        invariant
            no_dup(list@),
            n == old(list)@.len(),
            i <= n,
            s0 == spell_set(old(list)@),
            old(list)@.is_prefix_of(list@),
            s0.subset_of(spell_set(list@)),
            spell_set(list@).subset_of(nd_step(s0)),
            forall|j: int, q: int|
                0 <= j < i && nd_site(old(list)@[j]@, q) ==> spell_set(list@).contains(
                    nd_variant(old(list)@[j]@, q),
                ),
        decreases n - i,
    {
        proof {
            assert(list@[i as int] == old(list)@[i as int]);
            assert(views_of(old(list)@)[i as int] == old(list)@[i as int]@);
            assert(views_of(old(list)@).contains(old(list)@[i as int]@));
            assert(s0.contains(old(list)@[i as int]@));
        }
        let cur = copy_chars(&list[i]);
        let ghost x = cur@;
        let mut p: usize = 0;
        while p < cur.len()
            invariant
                no_dup(list@),
                n == old(list)@.len(),
                i < n,
                p <= cur@.len(),
                x == cur@,
                x == old(list)@[i as int]@,
                s0 == spell_set(old(list)@),
                s0.contains(x),
                old(list)@.is_prefix_of(list@),
                s0.subset_of(spell_set(list@)),
                spell_set(list@).subset_of(nd_step(s0)),
                forall|j: int, q: int|
                    0 <= j < i && nd_site(old(list)@[j]@, q) ==> spell_set(list@).contains(
                        nd_variant(old(list)@[j]@, q),
                    ),
                forall|q: int|
                    0 <= q < p && nd_site(x, q) ==> spell_set(list@).contains(nd_variant(x, q)),
            decreases cur@.len() - p,
        {
            let is_site = cur[p] == 'n' && (p + 1 == cur.len() || {
                let c1 = cur[p + 1];
                alpha_char(c1) && !vowel_char(c1) && c1 != 'y' && c1 != 'n'
            });
            assert(is_site == nd_site(x, p as int));
            if is_site {
                let v = nd_vec(&cur, p);
                proof {
                    assert(nd_step(s0).contains(v@));
                }
                let ghost pre = list@;
                push_unique(list, v);
                proof {
                    lemma_prefix_trans(old(list)@, pre, list@);
                    assert(spell_set(pre).subset_of(spell_set(list@)));
                }
            }
            p = p + 1;
        }
        i = i + 1;
    }
    proof {
        assert forall|y: Seq<char>| nd_step(s0).contains(y)
            implies spell_set(list@).contains(y) by {
            if !s0.contains(y) {
                let (x, q): (Seq<char>, int) = choose|x: Seq<char>, q: int|
                    s0.contains(x) && #[trigger] nd_site(x, q) && y == nd_variant(x, q);
                let j = choose|j: int|
                    0 <= j < views_of(old(list)@).len() && views_of(old(list)@)[j] == x;
                assert(old(list)@[j]@ == x);
            }
        }
        assert(spell_set(list@) =~= nd_step(s0));
    }
}


// ---------------------------------------------------------------------------
// The rule set
// ---------------------------------------------------------------------------

/// One phonetic-equivalence pair: two surface forms accepted for the same
/// sound, swapped in both directions during expansion.
#[derive(Clone, Debug)]
pub struct RulePair {
    pub a: Vec<char>,
    pub b: Vec<char>,
}

/// Nasal-ending handling: the ordered list of accepted nasal-ending forms
/// (apostrophe-marked, doubled, bare).  Carried as data from the rule
/// document; the expansion's nasal rules realize the default list.
#[derive(Clone, Debug)]
pub struct SpecialRules {
    pub n_patterns: Vec<String>,
}

/// The loaded phonetic-equivalence rules: two-letter-cluster pair swaps,
/// three-letter-cluster (palatalized) pair swaps, and the nasal-ending forms.
#[derive(Clone, Debug)]
pub struct RomajiRules {
    pub pairs: Vec<RulePair>,
    pub tris: Vec<RulePair>,
    pub special: Option<SpecialRules>,
}

/// Whether `p` swaps exactly the surface forms `a` and `b`.
pub open spec fn pair_is(p: RulePair, a: Seq<char>, b: Seq<char>) -> bool {
    p.a@ == a && p.b@ == b
}

impl RomajiRules {
    /// Every declared surface form is non-empty.
    pub open spec fn wf(&self) -> bool {
        &&& forall|i: int|
            0 <= i < self.pairs@.len() ==> (#[trigger] self.pairs@[i]).a@.len() > 0
                && self.pairs@[i].b@.len() > 0
        &&& forall|i: int|
            0 <= i < self.tris@.len() ==> (#[trigger] self.tris@[i]).a@.len() > 0
                && self.tris@[i].b@.len() > 0
    }
}

/// Builds one rule pair from the two surface forms.
fn rp(a: &str, b: &str) -> (r: RulePair)
    ensures
        pair_is(r, a@, b@),
{
    RulePair { a: chars_of_str(a), b: chars_of_str(b) }
}

impl RomajiRules {
    /// The standard rule table of the transliteration scheme.
    pub fn standard() -> (r: RomajiRules)
        ensures
            r.wf(),
            r.pairs@.len() == 5,
            pair_is(r.pairs@[0], "shi"@, "si"@),
            pair_is(r.pairs@[1], "chi"@, "ti"@),
            pair_is(r.pairs@[2], "tsu"@, "tu"@),
            pair_is(r.pairs@[3], "ji"@, "zi"@),
            pair_is(r.pairs@[4], "sha"@, "sya"@),
            r.tris@.len() == 10,
            pair_is(r.tris@[0], "shu"@, "syu"@),
            pair_is(r.tris@[1], "sho"@, "syo"@),
            pair_is(r.tris@[2], "cha"@, "tya"@),
            pair_is(r.tris@[3], "chu"@, "tyu"@),
            pair_is(r.tris@[4], "cho"@, "tyo"@),
            pair_is(r.tris@[5], "ja"@, "jya"@),
            pair_is(r.tris@[6], "ju"@, "jyu"@),
            pair_is(r.tris@[7], "jo"@, "jyo"@),
            pair_is(r.tris@[8], "jyu"@, "zyu"@),
            pair_is(r.tris@[9], "jyo"@, "zyo"@),
            r.special is Some,
    {
        let mut pairs: Vec<RulePair> = Vec::new();
        pairs.push(rp("shi", "si"));
        pairs.push(rp("chi", "ti"));
        pairs.push(rp("tsu", "tu"));
        pairs.push(rp("ji", "zi"));
        pairs.push(rp("sha", "sya"));
        let mut tris: Vec<RulePair> = Vec::new();
        tris.push(rp("shu", "syu"));
        tris.push(rp("sho", "syo"));
        tris.push(rp("cha", "tya"));
        tris.push(rp("chu", "tyu"));
        tris.push(rp("cho", "tyo"));
        tris.push(rp("ja", "jya"));
        tris.push(rp("ju", "jyu"));
        tris.push(rp("jo", "jyo"));
        tris.push(rp("jyu", "zyu"));
        tris.push(rp("jyo", "zyo"));
        let special = Some(SpecialRules { n_patterns: default_n_patterns() });
        proof {
            reveal_strlit("shi");
            reveal_strlit("si");
            reveal_strlit("chi");
            reveal_strlit("ti");
            reveal_strlit("tsu");
            reveal_strlit("tu");
            reveal_strlit("ji");
            reveal_strlit("zi");
            reveal_strlit("sha");
            reveal_strlit("sya");
            reveal_strlit("shu");
            reveal_strlit("syu");
            reveal_strlit("sho");
            reveal_strlit("syo");
            reveal_strlit("cha");
            reveal_strlit("tya");
            reveal_strlit("chu");
            reveal_strlit("tyu");
            reveal_strlit("cho");
            reveal_strlit("tyo");
            reveal_strlit("ja");
            reveal_strlit("jya");
            reveal_strlit("ju");
            reveal_strlit("jyu");
            reveal_strlit("jo");
            reveal_strlit("jyo");
            reveal_strlit("zyu");
            reveal_strlit("zyo");
        }
        RomajiRules { pairs, tris, special }
    }
}

/// The default nasal-ending forms: apostrophe-marked, doubled, bare.
pub fn default_n_patterns() -> (r: Vec<String>)
    ensures
        r@.len() == 3,
        r@[0]@ == "n'"@,
        r@[1]@ == "nn"@,
        r@[2]@ == "n"@,
{
    let mut r: Vec<String> = Vec::new();
    r.push(String::from_str("n'"));
    r.push(String::from_str("nn"));
    r.push(String::from_str("n"));
    r
}

// ---------------------------------------------------------------------------
// The full expansion
// ---------------------------------------------------------------------------

/// Both directions of one pair swap.
pub open spec fn pair_step(st: Set<Seq<char>>, p: RulePair) -> Set<Seq<char>> {
    bi_step(bi_step(st, p.a@, p.b@), p.b@, p.a@)
}

/// The pair swaps of `ps` applied in order across the accumulated set.
pub open spec fn pair_steps(st: Set<Seq<char>>, ps: Seq<RulePair>) -> Set<Seq<char>>
    decreases ps.len(),
{
    if ps.len() == 0 {
        st
    } else {
        pair_steps(pair_step(st, ps[0]), ps.drop_first())
    }
}

proof fn lemma_pair_steps_snoc(st: Set<Seq<char>>, ps: Seq<RulePair>, p: RulePair)
    ensures
        pair_steps(st, ps.push(p)) == pair_step(pair_steps(st, ps), p),
    decreases ps.len(),
{
    if ps.len() == 0 {
        assert(ps.push(p)[0] == p);
        assert(ps.push(p).drop_first() =~= Seq::<RulePair>::empty());
        assert(pair_steps(pair_step(st, p), Seq::<RulePair>::empty()) == pair_step(st, p));
        assert(pair_steps(st, ps.push(p)) == pair_steps(
            pair_step(st, p),
            Seq::<RulePair>::empty(),
        ));
        assert(pair_steps(st, ps) == st);
    } else {
        assert(ps.push(p)[0] == ps[0]);
        assert(ps.push(p).drop_first() =~= ps.drop_first().push(p));
        assert(pair_steps(st, ps.push(p)) == pair_steps(
            pair_step(st, ps[0]),
            ps.drop_first().push(p),
        ));
        assert(pair_steps(st, ps) == pair_steps(pair_step(st, ps[0]), ps.drop_first()));
        lemma_pair_steps_snoc(pair_step(st, ps[0]), ps.drop_first(), p);
    }
}

/// The doubled-consonant forms of `fu`, swapped as one more literal pair.
pub open spec fn ffu() -> Seq<char> {
    seq!['f', 'f', 'u']
}

pub open spec fn hhu() -> Seq<char> {
    seq!['h', 'h', 'u']
}

/// Everything the expansion accepts before the nasal rules run.
pub open spec fn expand_pre_nasal(base: Seq<char>, pairs: Seq<RulePair>, tris: Seq<RulePair>)
    -> Set<Seq<char>> {
    bi_step(
        bi_step(fu_step(pair_steps(pair_steps(Set::empty().insert(base), pairs), tris)), ffu(), hhu()),
        hhu(),
        ffu(),
    )
}

/// The full set of spellings accepted for a base spelling: its closure under
/// the pair swaps, the safe `fu` rule, and the nasal rules.
pub open spec fn expand_spec(base: Seq<char>, pairs: Seq<RulePair>, tris: Seq<RulePair>)
    -> Set<Seq<char>> {
    nd_step(apos_step(expand_pre_nasal(base, pairs, tris)))
}

/// Expands one base spelling into every accepted variant, duplicate-free.
pub fn expand_yure(base: &Vec<char>, rules: &RomajiRules) -> (out: Vec<Vec<char>>)
    ensures
        no_dup(out@),
        spell_set(out@) == expand_spec(base@, rules.pairs@, rules.tris@),
{
    let mut out: Vec<Vec<char>> = Vec::new();
    let b0 = copy_chars(base);
    out.push(b0);
    proof {
        assert forall|y: Seq<char>| spell_set(out@).contains(y)
            implies Set::empty().insert(base@).contains(y) by {
            let k = choose|k: int| 0 <= k < views_of(out@).len() && views_of(out@)[k] == y;
            assert(y == base@);
        }
        assert(views_of(out@)[0] == base@);
        assert(views_of(out@).contains(base@));
        assert(spell_set(out@) =~= Set::empty().insert(base@));
    }
    let ghost s_start = Set::empty().insert(base@);
    let mut i: usize = 0;
    while i < rules.pairs.len()
        invariant
            no_dup(out@),
            i <= rules.pairs@.len(),
            spell_set(out@) == pair_steps(s_start, rules.pairs@.take(i as int)),
        decreases rules.pairs@.len() - i,
    {
        let p = &rules.pairs[i];
        apply_bi(&mut out, &p.a, &p.b);
        apply_bi(&mut out, &p.b, &p.a);
        proof {
            lemma_pair_steps_snoc(s_start, rules.pairs@.take(i as int), rules.pairs@[i as int]);
            assert(rules.pairs@.take(i as int).push(rules.pairs@[i as int]) =~= rules.pairs@.take(
                i + 1,
            ));
        }
        i = i + 1;
    }
    assert(rules.pairs@.take(rules.pairs@.len() as int) =~= rules.pairs@);
    let ghost s_pairs = pair_steps(s_start, rules.pairs@);
    let mut t: usize = 0;
    while t < rules.tris.len()
        invariant
            no_dup(out@),
            t <= rules.tris@.len(),
            spell_set(out@) == pair_steps(s_pairs, rules.tris@.take(t as int)),
        decreases rules.tris@.len() - t,
    {
        let p = &rules.tris[t];
        apply_bi(&mut out, &p.a, &p.b);
        apply_bi(&mut out, &p.b, &p.a);
        proof {
            lemma_pair_steps_snoc(s_pairs, rules.tris@.take(t as int), rules.tris@[t as int]);
            assert(rules.tris@.take(t as int).push(rules.tris@[t as int]) =~= rules.tris@.take(
                t + 1,
            ));
        }
        t = t + 1;
    }
    assert(rules.tris@.take(rules.tris@.len() as int) =~= rules.tris@);
    apply_fu(&mut out);
    let ffu_v = vec!['f', 'f', 'u'];
    let hhu_v = vec!['h', 'h', 'u'];
    assert(ffu_v@ =~= ffu());
    assert(hhu_v@ =~= hhu());
    apply_bi(&mut out, &ffu_v, &hhu_v);
    apply_bi(&mut out, &hhu_v, &ffu_v);
    apply_apos(&mut out);
    apply_nd(&mut out);
    out
}


// ---------------------------------------------------------------------------
// Ordering candidates by length
// ---------------------------------------------------------------------------

/// Reorders the spellings by non-decreasing length (first occurrence of each
/// length first), keeping exactly the same set of spellings.
fn sort_spellings(list: Vec<Vec<char>>) -> (r: Vec<Vec<char>>)
    requires
        no_dup(list@),
    ensures
        no_dup(r@),
        sorted_by_len(r@),
        spell_set(r@) == spell_set(list@),
{
    let ghost s0 = spell_set(list@);
    let mut rem = list;
    let mut out: Vec<Vec<char>> = Vec::new();
    while rem.len() > 0
        invariant
            no_dup(out@),
            no_dup(rem@),
            sorted_by_len(out@),
            forall|oi: int, rj: int|
                0 <= oi < out@.len() && 0 <= rj < rem@.len() ==> (#[trigger] out@[oi])@ != (
                #[trigger] rem@[rj])@,
            forall|oi: int, rj: int|
                0 <= oi < out@.len() && 0 <= rj < rem@.len() ==> (#[trigger] out@[oi])@.len() <= (
                #[trigger] rem@[rj])@.len(),
            spell_set(out@).union(spell_set(rem@)) == s0,
        decreases rem@.len(),
    {
        let mut m: usize = 0;
        let mut k: usize = 1;
        while k < rem.len()
            invariant
                rem@.len() > 0,
                m < k,
                k <= rem@.len(),
                m < rem@.len(),
                forall|j: int| 0 <= j < k ==> rem@[m as int]@.len() <= (#[trigger] rem@[j])@.len(),
            decreases rem@.len() - k,
        {
            if rem[k].len() < rem[m].len() {
                m = k;
            }
            k = k + 1;
        }
        let ghost rem_pre = rem@;
        let ghost out_pre = out@;
        let x = rem.remove(m);
        out.push(x);
        proof {
            assert(out@ == out_pre.push(x));
            assert(rem_pre[m as int] == x);
            assert(views_of(rem_pre)[m as int] == x@);
            assert(views_of(rem_pre).contains(x@));
            assert(spell_set(rem_pre).contains(x@));
            assert forall|rj: int| 0 <= rj < rem@.len()
                implies rem@[rj] == (if rj < m { rem_pre[rj] } else { rem_pre[rj + 1] })
                    && (#[trigger] rem@[rj])@ != x@ by {
                if rj < m {
                    assert(rem@[rj] == rem_pre[rj]);
                } else {
                    assert(rem@[rj] == rem_pre[rj + 1]);
                }
            }
            assert forall|y: Seq<char>| spell_set(rem_pre).contains(y)
                implies spell_set(rem@).insert(x@).contains(y) by {
                let j = choose|j: int|
                    0 <= j < views_of(rem_pre).len() && views_of(rem_pre)[j] == y;
                if j < m {
                    assert(views_of(rem@)[j] == y);
                    assert(views_of(rem@).contains(y));
                } else if j == m {
                    assert(y == x@);
                } else {
                    assert(views_of(rem@)[j - 1] == y);
                    assert(views_of(rem@).contains(y));
                }
            }
            assert forall|y: Seq<char>| spell_set(rem@).insert(x@).contains(y)
                implies spell_set(rem_pre).contains(y) by {
                if y == x@ {
                    assert(spell_set(rem_pre).contains(y));
                } else {
                    let j = choose|j: int|
                        0 <= j < views_of(rem@).len() && views_of(rem@)[j] == y;
                    if j < m {
                        assert(views_of(rem_pre)[j] == y);
                    } else {
                        assert(views_of(rem_pre)[j + 1] == y);
                    }
                    assert(views_of(rem_pre).contains(y));
                }
            }
            assert(spell_set(rem_pre) =~= spell_set(rem@).insert(x@));
            assert forall|y: Seq<char>| spell_set(out@).contains(y)
                implies spell_set(out_pre).insert(x@).contains(y) by {
                let j = choose|j: int|
                    0 <= j < views_of(out@).len() && views_of(out@)[j] == y;
                if j < out_pre.len() {
                    assert(views_of(out_pre)[j] == y);
                    assert(views_of(out_pre).contains(y));
                } else {
                    assert(y == x@);
                }
            }
            assert forall|y: Seq<char>| spell_set(out_pre).insert(x@).contains(y)
                implies spell_set(out@).contains(y) by {
                if y == x@ {
                    assert(views_of(out@)[out_pre.len() as int] == y);
                } else {
                    let j = choose|j: int|
                        0 <= j < views_of(out_pre).len() && views_of(out_pre)[j] == y;
                    assert(views_of(out@)[j] == y);
                }
                assert(views_of(out@).contains(y));
            }
            assert(spell_set(out@) =~= spell_set(out_pre).insert(x@));
            assert(spell_set(out_pre).union(spell_set(rem_pre)) == s0);
            assert(spell_set(out@).union(spell_set(rem@)) =~= s0);
            // the element removed was of minimal length among what remained
            assert forall|rj: int| 0 <= rj < rem@.len()
                implies x@.len() <= (#[trigger] rem@[rj])@.len() by {
                if rj < m {
                    assert(rem@[rj] == rem_pre[rj]);
                } else {
                    assert(rem@[rj] == rem_pre[rj + 1]);
                }
            }
            // x was not already in out
            assert forall|oi: int| 0 <= oi < out_pre.len()
                implies (#[trigger] out_pre[oi])@ != x@ by {
                assert(out_pre[oi]@ != rem_pre[m as int]@);
            }
            assert(no_dup(out@)) by {
                assert forall|i1: int, j1: int| 0 <= i1 < j1 < out@.len()
                    implies out@[i1]@ != out@[j1]@ by {
                    if j1 < out_pre.len() {
                        assert(out@[i1] == out_pre[i1] && out@[j1] == out_pre[j1]);
                    } else {
                        assert(out@[i1] == out_pre[i1] && out@[j1] == x);
                    }
                }
            }
            assert(no_dup(rem@)) by {
                assert forall|i1: int, j1: int| 0 <= i1 < j1 < rem@.len()
                    implies rem@[i1]@ != rem@[j1]@ by {
                    let a1 = if i1 < m { i1 } else { i1 + 1 };
                    let b1 = if j1 < m { j1 } else { j1 + 1 };
                    assert(rem@[i1] == rem_pre[a1] && rem@[j1] == rem_pre[b1]);
                }
            }
            assert(sorted_by_len(out@)) by {
                assert forall|i1: int, j1: int| 0 <= i1 < j1 < out@.len()
                    implies out@[i1]@.len() <= out@[j1]@.len() by {
                    if j1 < out_pre.len() {
                        assert(out@[i1] == out_pre[i1] && out@[j1] == out_pre[j1]);
                    } else {
                        assert(out@[i1] == out_pre[i1] && out@[j1] == x);
                        assert(out_pre[i1]@.len() <= rem_pre[m as int]@.len());
                    }
                }
            }
            assert forall|oi: int, rj: int|
                0 <= oi < out@.len() && 0 <= rj < rem@.len()
                implies (#[trigger] out@[oi])@ != (#[trigger] rem@[rj])@
                    && out@[oi]@.len() <= rem@[rj]@.len() by {
                let b1 = if rj < m { rj } else { rj + 1 };
                assert(rem@[rj] == rem_pre[b1]);
                if oi < out_pre.len() {
                    assert(out@[oi] == out_pre[oi]);
                } else {
                    assert(out@[oi] == x);
                    assert(rem@[rj]@ != x@);
                }
            }
        }
    }
    proof {
        assert forall|y: Seq<char>| s0.contains(y) implies spell_set(out@).contains(y) by {
            if spell_set(rem@).contains(y) {
                let j = choose|j: int| 0 <= j < views_of(rem@).len() && views_of(rem@)[j] == y;
                assert(false);
            }
        }
        assert(spell_set(out@) =~= s0);
    }
    out
}


// ---------------------------------------------------------------------------
// The per-word matcher
// ---------------------------------------------------------------------------

/// The verdict on one judged character.
#[derive(Clone, Copy, Debug, PartialEq, Eq, Structural)]
pub enum InputResult {
    Correct,
    Miss,
    Complete,
    Noop,
}

/// Some candidate has `p` as a (possibly full) prefix.
pub open spec fn any_prefix(cands: Seq<Seq<char>>, p: Seq<char>) -> bool {
    exists|i: int| 0 <= i < cands.len() && p.is_prefix_of(#[trigger] cands[i])
}

/// Some candidate is exactly `p`.
pub open spec fn any_exact(cands: Seq<Seq<char>>, p: Seq<char>) -> bool {
    cands.contains(p)
}

/// The verdict the matcher owes for character `c` in state `typed`:
/// non-ASCII input is ignored, an exact candidate completes the word, a
/// strict extension of some candidate's prefix is correct, and everything
/// else is a miss.
pub open spec fn judge_verdict(cands: Seq<Seq<char>>, typed: Seq<char>, c: char) -> InputResult {
    if !is_ascii_char(c) {
        InputResult::Noop
    } else if any_exact(cands, typed.push(c)) {
        InputResult::Complete
    } else if any_prefix(cands, typed.push(c)) {
        InputResult::Correct
    } else {
        InputResult::Miss
    }
}

/// What the typed prefix becomes under each verdict.
pub open spec fn judge_typed(cands: Seq<Seq<char>>, typed: Seq<char>, c: char) -> Seq<char> {
    match judge_verdict(cands, typed, c) {
        InputResult::Complete => typed.push(c),
        InputResult::Correct => typed.push(c),
        _ => typed,
    }
}

/// `i` is the index of the shortest candidate with prefix `p`, the earliest
/// such index among equal lengths.
pub open spec fn is_best_match(cands: Seq<Seq<char>>, p: Seq<char>, i: int) -> bool {
    &&& 0 <= i < cands.len()
    &&& p.is_prefix_of(cands[i])
    &&& forall|j: int|
        0 <= j < cands.len() && p.is_prefix_of(#[trigger] cands[j]) ==> cands[i].len()
            <= cands[j].len()
    &&& forall|j: int|
        0 <= j < cands.len() && p.is_prefix_of(#[trigger] cands[j]) && cands[j].len()
            == cands[i].len() ==> i <= j
}

/// How the sticky displayed-candidate reference moves when the typed prefix
/// becomes `p`: unset on an empty prefix, kept while it still matches, and
/// otherwise moved to the shortest matching candidate, if any.
pub open spec fn sticky_ok(
    cands: Seq<Seq<char>>,
    old_c: Option<usize>,
    p: Seq<char>,
    new_c: Option<usize>,
) -> bool {
    if p.len() == 0 {
        new_c is None
    } else if old_c is Some && old_c->0 < cands.len() && p.is_prefix_of(cands[old_c->0 as int]) {
        new_c == old_c
    } else if any_prefix(cands, p) {
        new_c is Some && is_best_match(cands, p, new_c->0 as int)
    } else {
        new_c is None
    }
}

/// Finds the shortest candidate with prefix `p` (earliest among ties).
fn find_best(cands: &Vec<Vec<char>>, p: &Vec<char>) -> (r: Option<usize>)
    ensures
        r is Some ==> is_best_match(views_of(cands@), p@, r->0 as int),
        r is None ==> !any_prefix(views_of(cands@), p@),
{
    let mut best: Option<usize> = None;
    let mut i: usize = 0;
    while i < cands.len()
        invariant
            i <= cands@.len(),
            match best {
                Option::None => forall|j: int|
                    0 <= j < i ==> !p@.is_prefix_of(#[trigger] views_of(cands@)[j]),
                Option::Some(b) => {
                    &&& b < i
                    &&& p@.is_prefix_of(views_of(cands@)[b as int])
                    &&& forall|j: int|
                        0 <= j < i && p@.is_prefix_of(#[trigger] views_of(cands@)[j])
                            ==> cands@[b as int]@.len() <= cands@[j]@.len()
                    &&& forall|j: int|
                        0 <= j < i && p@.is_prefix_of(#[trigger] views_of(cands@)[j])
                            && cands@[j]@.len() == cands@[b as int]@.len() ==> b <= j
                },
            },
        decreases cands@.len() - i,
    {
        if is_prefix(p, &cands[i]) {
            assert(views_of(cands@)[i as int] == cands@[i as int]@);
            match best {
                Option::None => { best = Some(i); },
                Option::Some(b) => {
                    if cands[i].len() < cands[b].len() {
                        best = Some(i);
                    }
                },
            }
        }
        i = i + 1;
    }
    best
}

/// The judge for one word: the candidate set, the accepted prefix typed so
/// far, the misses accrued on this word, and the sticky displayed candidate.
pub struct RomajiMatcher {
    pub jp: String,
    pub candidates: Vec<Vec<char>>,
    pub typed: Vec<char>,
    pub miss_count: u32,
    pub current_cand: Option<usize>,
}

/// The union of the expansions of several base spellings.
pub open spec fn expand_all(bases: Seq<Seq<char>>, pairs: Seq<RulePair>, tris: Seq<RulePair>)
    -> Set<Seq<char>>
    decreases bases.len(),
{
    if bases.len() == 0 {
        Set::empty()
    } else {
        expand_all(bases.drop_last(), pairs, tris).union(
            expand_spec(bases.last(), pairs, tris),
        )
    }
}

/// The views of a list of strings.
pub open spec fn string_views(v: Seq<String>) -> Seq<Seq<char>> {
    Seq::new(v.len(), |i: int| v[i]@)
}

impl RomajiMatcher {
    /// The candidate spellings, as character sequences.
    pub open spec fn cand_views(&self) -> Seq<Seq<char>> {
        views_of(self.candidates@)
    }

    /// The candidate spellings, as a set.
    pub open spec fn cand_set(&self) -> Set<Seq<char>> {
        spell_set(self.candidates@)
    }

    /// Candidates are duplicate-free and length-ordered, and the sticky
    /// reference stays in bounds.
    pub open spec fn wf(&self) -> bool {
        &&& no_dup(self.candidates@)
        &&& sorted_by_len(self.candidates@)
        &&& (self.current_cand is Some ==> (self.current_cand->0 as int)
            < self.candidates@.len())
    }

    /// Builds the matcher for one word: the base spellings expanded under
    /// the rules, deduplicated and ordered by length, with empty state.
    pub fn new(jp: &str, base_romas: &Vec<String>, rules: &RomajiRules) -> (r: RomajiMatcher)
        ensures
            r.wf(),
            r.cand_set() == expand_all(string_views(base_romas@), rules.pairs@, rules.tris@),
            r.typed@ =~= Seq::<char>::empty(),
            r.miss_count == 0,
            r.current_cand is None,
            r.jp@ == jp@,
    {
        let mut cands: Vec<Vec<char>> = Vec::new();
        let mut i: usize = 0;
        proof {
            assert forall|y: Seq<char>| spell_set(cands@).contains(y) implies false by {
                let k = choose|k: int|
                    0 <= k < views_of(cands@).len() && views_of(cands@)[k] == y;
            }
            assert(spell_set(cands@) =~= expand_all(
                string_views(base_romas@).take(0),
                rules.pairs@,
                rules.tris@,
            ));
        }
        while i < base_romas.len()
            invariant
                no_dup(cands@),
                i <= base_romas@.len(),
                spell_set(cands@) == expand_all(
                    string_views(base_romas@).take(i as int),
                    rules.pairs@,
                    rules.tris@,
                ),
            decreases base_romas@.len() - i,
        {
            let bv = chars_of_str(base_romas[i].as_str());
            let ex = expand_yure(&bv, rules);
            let ghost stage = spell_set(cands@);
            let mut j: usize = 0;
            while j < ex.len()
                invariant
                    no_dup(cands@),
                    j <= ex@.len(),
                    spell_set(cands@) == stage.union(spell_set(ex@.take(j as int))),
                decreases ex@.len() - j,
            {
                let e = copy_chars(&ex[j]);
                let ghost pre = cands@;
                push_unique(&mut cands, e);
                proof {
                    assert forall|y: Seq<char>|
                        spell_set(ex@.take(j + 1)).contains(y)
                        implies spell_set(ex@.take(j as int)).insert(ex@[j as int]@).contains(
                            y,
                        ) by {
                        let k = choose|k: int|
                            0 <= k < views_of(ex@.take(j + 1)).len() && #[trigger] views_of(
                                ex@.take(j + 1),
                            )[k] == y;
                        if k < j {
                            assert(views_of(ex@.take(j as int))[k] == y);
                            assert(views_of(ex@.take(j as int)).contains(y));
                        } else {
                            assert(y == ex@[j as int]@);
                        }
                    }
                    assert forall|y: Seq<char>|
                        spell_set(ex@.take(j as int)).insert(ex@[j as int]@).contains(y)
                        implies spell_set(ex@.take(j + 1)).contains(y) by {
                        if y == ex@[j as int]@ {
                            assert(views_of(ex@.take(j + 1))[j as int] == y);
                        } else {
                            let k = choose|k: int|
                                0 <= k < views_of(ex@.take(j as int)).len() && views_of(
                                    ex@.take(j as int),
                                )[k] == y;
                            assert(views_of(ex@.take(j + 1))[k] == y);
                        }
                        assert(views_of(ex@.take(j + 1)).contains(y));
                    }
                    assert(spell_set(ex@.take(j + 1)) =~= spell_set(ex@.take(j as int)).insert(
                        ex@[j as int]@,
                    ));
                    assert(spell_set(cands@) =~= stage.union(spell_set(ex@.take(j + 1))));
                }
                j = j + 1;
            }
            proof {
                assert(ex@.take(ex@.len() as int) =~= ex@);
                assert(string_views(base_romas@).take(i + 1).drop_last() =~= string_views(
                    base_romas@,
                ).take(i as int));
                assert(string_views(base_romas@).take(i + 1).last() == base_romas@[i as int]@);
                assert(spell_set(cands@) =~= expand_all(
                    string_views(base_romas@).take(i + 1),
                    rules.pairs@,
                    rules.tris@,
                ));
            }
            i = i + 1;
        }
        assert(string_views(base_romas@).take(base_romas@.len() as int) =~= string_views(
            base_romas@,
        ));
        let cands = sort_spellings(cands);
        RomajiMatcher {
            jp: jp.to_owned(),
            candidates: cands,
            typed: Vec::new(),
            miss_count: 0,
            current_cand: None,
        }
    }

    /// Moves the sticky displayed-candidate reference for the current typed
    /// prefix, keeping the previous choice while it still matches.
    fn update_display_candidate(&mut self)
        requires
            old(self).wf(),
        ensures
            final(self).wf(),
            final(self).jp == old(self).jp,
            final(self).candidates == old(self).candidates,
            final(self).typed == old(self).typed,
            final(self).miss_count == old(self).miss_count,
            sticky_ok(
                old(self).cand_views(),
                old(self).current_cand,
                old(self).typed@,
                final(self).current_cand,
            ),
    {
        if self.typed.len() == 0 {
            self.current_cand = None;
            return;
        }
        match self.current_cand {
            Option::Some(i) => {
                if i < self.candidates.len() {
                    if is_prefix(&self.typed, &self.candidates[i]) {
                        assert(self.cand_views()[i as int] == self.candidates@[i as int]@);
                        return;
                    }
                }
            },
            Option::None => {},
        }
        let r = find_best(&self.candidates, &self.typed);
        self.current_cand = r;
    }

    /// Judges one character against the candidate set.  Non-ASCII input is
    /// ignored; an accepted character is appended to the typed prefix; a
    /// rejected one leaves the prefix unchanged and counts one miss.
    pub fn input_char(&mut self, c: char) -> (r: InputResult)
        requires
            old(self).wf(),
            old(self).miss_count < u32::MAX,
        ensures
            final(self).wf(),
            final(self).jp == old(self).jp,
            final(self).candidates == old(self).candidates,
            r == judge_verdict(old(self).cand_views(), old(self).typed@, c),
            final(self).typed@ == judge_typed(old(self).cand_views(), old(self).typed@, c),
            final(self).miss_count == if r is Miss {
                old(self).miss_count + 1
            } else {
                old(self).miss_count as int
            },
            (r is Complete || r is Correct) ==> sticky_ok(
                old(self).cand_views(),
                old(self).current_cand,
                final(self).typed@,
                final(self).current_cand,
            ),
            !(r is Complete || r is Correct) ==> final(self).current_cand == old(
                self,
            ).current_cand && final(self).typed == old(self).typed,
    {
        if !ascii_char(c) {
            return InputResult::Noop;
        }
        let mut next = copy_chars(&self.typed);
        next.push(c);
        let mut any_pref = false;
        let mut any_ex = false;
        let mut i: usize = 0;
        while i < self.candidates.len()
            invariant
                i <= self.candidates@.len(),
                next@ == old(self).typed@.push(c),
                *self == *old(self),
                any_pref == exists|j: int|
                    0 <= j < i && next@.is_prefix_of(#[trigger] views_of(self.candidates@)[j]),
                any_ex == exists|j: int|
                    0 <= j < i && next@ == #[trigger] views_of(self.candidates@)[j],
            decreases self.candidates@.len() - i,
        {
            let cand = &self.candidates[i];
            assert(views_of(self.candidates@)[i as int] == self.candidates@[i as int]@);
            if is_prefix(&next, cand) {
                any_pref = true;
            }
            if chars_eq(cand, &next) {
                any_ex = true;
            }
            i = i + 1;
        }
        proof {
            assert(any_ex == any_exact(old(self).cand_views(), next@)) by {
                if any_ex {
                    let j = choose|j: int|
                        0 <= j < self.candidates@.len() && next@ == views_of(
                            self.candidates@,
                        )[j];
                    assert(old(self).cand_views().contains(next@));
                }
                if any_exact(old(self).cand_views(), next@) {
                    let j = choose|j: int|
                        0 <= j < old(self).cand_views().len() && old(self).cand_views()[j]
                            == next@;
                }
            }
            assert(any_pref == any_prefix(old(self).cand_views(), next@));
        }
        if any_ex {
            self.typed = next;
            self.update_display_candidate();
            return InputResult::Complete;
        }
        if any_pref {
            self.typed = next;
            self.update_display_candidate();
            return InputResult::Correct;
        }
        self.miss_count = self.miss_count + 1;
        InputResult::Miss
    }

    /// The first candidate: one of the shortest, as the list is
    /// length-ordered.  Empty if there are no candidates.
    pub fn example_roma(&self) -> (r: String)
        ensures
            r@ == if self.cand_views().len() > 0 {
                self.cand_views()[0]
            } else {
                Seq::<char>::empty()
            },
    {
        if self.candidates.len() > 0 {
            assert(self.cand_views()[0] == self.candidates@[0]@);
            crate::text::chars_to_string(&self.candidates[0])
        } else {
            String::new()
        }
    }
}


// ---------------------------------------------------------------------------
// Display stability
// ---------------------------------------------------------------------------

/// The best-match index is unique.
pub proof fn lemma_best_unique(cands: Seq<Seq<char>>, p: Seq<char>, i: int, j: int)
    requires
        is_best_match(cands, p, i),
        is_best_match(cands, p, j),
    ensures
        i == j,
{
    assert(cands[i].len() <= cands[j].len());
    assert(cands[j].len() <= cands[i].len());
    assert(i <= j);
    assert(j <= i);
}

/// The shortest matching candidate, via its unique best index.
pub open spec fn best_match_view(cands: Seq<Seq<char>>, p: Seq<char>) -> Seq<char> {
    cands[choose|i: int| is_best_match(cands, p, i)]
}

/// Only a typed prefix of at least two characters may switch the display
/// away from the default spelling: a one-character divergence is still
/// treated as ambiguous.
fn is_confirmed_switch(pref: &Vec<char>) -> (r: bool)
    ensures
        r == (pref@.len() >= 2),
{
    pref.len() >= 2
}

/// The example spelling of a candidate list: its first entry.
pub open spec fn example_view_of(cands: Seq<Seq<char>>) -> Seq<char> {
    if cands.len() > 0 {
        cands[0]
    } else {
        Seq::<char>::empty()
    }
}

/// The sticky reference still matches the typed prefix.
pub open spec fn sticky_valid_for(cands: Seq<Seq<char>>, cur: Option<usize>, typed: Seq<char>)
    -> bool {
    &&& cur is Some
    &&& (cur->0 as int) < cands.len()
    &&& typed.is_prefix_of(cands[cur->0 as int])
}

/// The spelling displayed for a typed prefix: the example while nothing is
/// typed, the sticky candidate while it matches, else the shortest matching
/// candidate, else the example.
pub open spec fn display_view_of(cands: Seq<Seq<char>>, cur: Option<usize>, typed: Seq<char>)
    -> Seq<char> {
    if typed.len() == 0 {
        example_view_of(cands)
    } else if sticky_valid_for(cands, cur, typed) {
        cands[cur->0 as int]
    } else if any_prefix(cands, typed) {
        best_match_view(cands, typed)
    } else {
        example_view_of(cands)
    }
}

/// The display biased toward the expected `default` spelling: the default
/// until the typed prefix has diverged from it by at least two characters.
pub open spec fn display_wd_of(
    cands: Seq<Seq<char>>,
    cur: Option<usize>,
    typed: Seq<char>,
    default: Seq<char>,
) -> Seq<char> {
    if typed.len() == 0 {
        default
    } else if typed.is_prefix_of(default) {
        default
    } else if typed.len() < 2 {
        default
    } else {
        display_view_of(cands, cur, typed)
    }
}

impl RomajiMatcher {
    /// The example spelling: the first candidate, empty if there is none.
    pub open spec fn example_view(&self) -> Seq<char> {
        example_view_of(self.cand_views())
    }

    /// The sticky reference still matches the typed prefix.
    pub open spec fn sticky_valid(&self) -> bool {
        sticky_valid_for(self.cand_views(), self.current_cand, self.typed@)
    }

    /// What `display_candidate` shows.
    pub open spec fn display_view(&self) -> Seq<char> {
        display_view_of(self.cand_views(), self.current_cand, self.typed@)
    }

    /// The candidate shown to the user for the current typed prefix.
    pub fn display_candidate(&self) -> (r: String)
        requires
            self.wf(),
        ensures
            r@ == self.display_view(),
    {
        if self.typed.len() == 0 {
            return self.example_roma();
        }
        match self.current_cand {
            Option::Some(i) => {
                if i < self.candidates.len() {
                    if is_prefix(&self.typed, &self.candidates[i]) {
                        assert(self.cand_views()[i as int] == self.candidates@[i as int]@);
                        return chars_to_string(&self.candidates[i]);
                    }
                }
            },
            Option::None => {},
        }
        let r = find_best(&self.candidates, &self.typed);
        match r {
            Option::Some(b) => {
                proof {
                    let w = choose|i: int| is_best_match(self.cand_views(), self.typed@, i);
                    lemma_best_unique(self.cand_views(), self.typed@, b as int, w);
                    assert(self.cand_views()[b as int] == self.candidates@[b as int]@);
                }
                chars_to_string(&self.candidates[b])
            },
            Option::None => self.example_roma(),
        }
    }

    /// What `display_with_default` shows.
    pub open spec fn display_with_default_view(&self, default: Seq<char>) -> Seq<char> {
        display_wd_of(self.cand_views(), self.current_cand, self.typed@, default)
    }

    /// Shows the user what to type, biased toward the expected `default`
    /// spelling so the view does not flicker on every keystroke.
    pub fn display_with_default(&self, default: &str) -> (r: String)
        requires
            self.wf(),
        ensures
            r@ == self.display_with_default_view(default@),
    {
        if self.typed.len() == 0 {
            return default.to_owned();
        }
        let dv = chars_of_str(default);
        if is_prefix(&self.typed, &dv) {
            return default.to_owned();
        }
        if !is_confirmed_switch(&self.typed) {
            return default.to_owned();
        }
        self.display_candidate()
    }
}

// ---------------------------------------------------------------------------
// Stated properties of judging
// ---------------------------------------------------------------------------

/// Every character of `s` is ASCII.
pub open spec fn ascii_seq(s: Seq<char>) -> bool {
    forall|i: int| 0 <= i < s.len() ==> is_ascii_char(#[trigger] s[i])
}

/// One all-accepted typing run: feeding the characters of `rest` from state
/// `typed` reaches a Complete verdict (possibly before the last character,
/// when a candidate is a proper prefix of another) with no miss on the way.
pub open spec fn completes(cands: Seq<Seq<char>>, typed: Seq<char>, rest: Seq<char>) -> bool
    decreases rest.len(),
{
    if rest.len() == 0 {
        false
    } else {
        let v = judge_verdict(cands, typed, rest[0]);
        ||| v is Complete
        ||| ((v is Correct || v is Noop) && completes(
            cands,
            judge_typed(cands, typed, rest[0]),
            rest.skip(1),
        ))
    }
}

/// Any candidate of the set is typed to completion, starting from any of
/// its proper prefixes.
pub proof fn lemma_candidate_completes(cands: Seq<Seq<char>>, s: Seq<char>, j: int)
    requires
        cands.contains(s),
        0 <= j < s.len(),
        ascii_seq(s),
    ensures
        completes(cands, s.take(j), s.skip(j)),
    decreases s.len() - j,
{
    let typed = s.take(j);
    let rest = s.skip(j);
    let c = rest[0];
    assert(c == s[j]);
    assert(is_ascii_char(c));
    let next = typed.push(c);
    assert(next =~= s.take(j + 1));
    if any_exact(cands, next) {
        assert(judge_verdict(cands, typed, c) is Complete);
    } else {
        assert(j + 1 < s.len()) by {
            if j + 1 == s.len() {
                assert(next =~= s);
                assert(cands.contains(next));
            }
        }
        let w = choose|w: int| 0 <= w < cands.len() && cands[w] == s;
        assert(next.is_prefix_of(s)) by {
            assert(next =~= s.take(j + 1).subrange(0, next.len() as int));
            assert(next =~= s.subrange(0, next.len() as int));
        }
        assert(next.is_prefix_of(cands[w]));
        assert(any_prefix(cands, next));
        assert(judge_verdict(cands, typed, c) is Correct);
        assert(judge_typed(cands, typed, c) == next);
        lemma_candidate_completes(cands, s, j + 1);
        assert(rest.skip(1) =~= s.skip(j + 1));
    }
}

/// Judging a character that extends the prefix into a strict, non-final
/// prefix of a candidate -- and not into a full candidate of its own --
/// returns Correct: never Complete, never Miss.  (When the extended prefix
/// is itself a candidate, as with `jun` among `jun`/`junn`, the word
/// completes instead.)
pub proof fn lemma_strict_prefix_is_correct(
    cands: Seq<Seq<char>>,
    typed: Seq<char>,
    c: char,
    i: int,
)
    requires
        is_ascii_char(c),
        0 <= i < cands.len(),
        typed.push(c).is_prefix_of(cands[i]),
        typed.push(c).len() < cands[i].len(),
        !cands.contains(typed.push(c)),
    ensures
        judge_verdict(cands, typed, c) is Correct,
        judge_typed(cands, typed, c) == typed.push(c),
{
    assert(any_prefix(cands, typed.push(c)));
}

/// A character that extends the typed prefix into something matching no
/// candidate is a Miss, leaves the prefix unchanged, and any run that
/// completed from this state still completes after it.
pub proof fn lemma_miss_preserves_prefix(
    cands: Seq<Seq<char>>,
    typed: Seq<char>,
    c: char,
    rest: Seq<char>,
)
    requires
        is_ascii_char(c),
        !any_prefix(cands, typed.push(c)),
        completes(cands, typed, rest),
    ensures
        judge_verdict(cands, typed, c) is Miss,
        judge_typed(cands, typed, c) == typed,
        completes(cands, typed, rest),
{
    assert(!any_exact(cands, typed.push(c))) by {
        if any_exact(cands, typed.push(c)) {
            let w = choose|w: int| 0 <= w < cands.len() && cands[w] == typed.push(c);
            assert(typed.push(c).is_prefix_of(cands[w])) by {
                assert(typed.push(c) =~= cands[w].subrange(0, typed.push(c).len() as int));
            }
            assert(any_prefix(cands, typed.push(c)));
        }
    }
}


// ---------------------------------------------------------------------------
// Membership through the expansion
// ---------------------------------------------------------------------------

/// Every rule step only adds spellings.
proof fn lemma_bi_step_keeps(st: Set<Seq<char>>, a: Seq<char>, b: Seq<char>, y: Seq<char>)
    requires
        st.contains(y),
    ensures
        bi_step(st, a, b).contains(y),
        bi_step(st, a, b).contains(replace_all(y, a, b)),
{
    let f = |x: Seq<char>| replace_all(x, a, b);
    assert(st.map(f).contains(f(y)));
}

/// Members persist through a run of pair swaps.
proof fn lemma_pair_steps_keeps(st: Set<Seq<char>>, ps: Seq<RulePair>, y: Seq<char>)
    requires
        st.contains(y),
    ensures
        pair_steps(st, ps).contains(y),
    decreases ps.len(),
{
    if ps.len() > 0 {
        lemma_bi_step_keeps(st, ps[0].a@, ps[0].b@, y);
        lemma_bi_step_keeps(bi_step(st, ps[0].a@, ps[0].b@), ps[0].b@, ps[0].a@, y);
        lemma_pair_steps_keeps(pair_step(st, ps[0]), ps.drop_first(), y);
    }
}

/// A run of pair swaps contains both rewritings of any member under any of
/// its pairs.
proof fn lemma_pair_steps_swaps(st: Set<Seq<char>>, ps: Seq<RulePair>, k: int, x: Seq<char>)
    requires
        st.contains(x),
        0 <= k < ps.len(),
    ensures
        pair_steps(st, ps).contains(replace_all(x, ps[k].a@, ps[k].b@)),
        pair_steps(st, ps).contains(replace_all(x, ps[k].b@, ps[k].a@)),
    decreases ps.len(),
{
    if k == 0 {
        let s1 = bi_step(st, ps[0].a@, ps[0].b@);
        lemma_bi_step_keeps(st, ps[0].a@, ps[0].b@, x);
        lemma_bi_step_keeps(s1, ps[0].b@, ps[0].a@, replace_all(x, ps[0].a@, ps[0].b@));
        lemma_bi_step_keeps(s1, ps[0].b@, ps[0].a@, x);
        lemma_pair_steps_keeps(pair_step(st, ps[0]), ps.drop_first(), replace_all(x, ps[0].a@, ps[0].b@));
        lemma_pair_steps_keeps(pair_step(st, ps[0]), ps.drop_first(), replace_all(x, ps[0].b@, ps[0].a@));
    } else {
        lemma_bi_step_keeps(st, ps[0].a@, ps[0].b@, x);
        lemma_bi_step_keeps(bi_step(st, ps[0].a@, ps[0].b@), ps[0].b@, ps[0].a@, x);
        assert(ps.drop_first()[k - 1] == ps[k]);
        lemma_pair_steps_swaps(pair_step(st, ps[0]), ps.drop_first(), k - 1, x);
    }
}

/// Members persist through the vowel-cluster and nasal steps.
proof fn lemma_late_steps_keep(base: Seq<char>, pairs: Seq<RulePair>, tris: Seq<RulePair>, y: Seq<char>)
    requires
        pair_steps(pair_steps(Set::empty().insert(base), pairs), tris).contains(y),
    ensures
        expand_pre_nasal(base, pairs, tris).contains(y),
        expand_spec(base, pairs, tris).contains(y),
{
    let s2 = pair_steps(pair_steps(Set::empty().insert(base), pairs), tris);
    let f = |x: Seq<char>| fu_replace(x);
    assert(fu_step(s2).contains(y));
    lemma_bi_step_keeps(fu_step(s2), ffu(), hhu(), y);
    lemma_bi_step_keeps(bi_step(fu_step(s2), ffu(), hhu()), hhu(), ffu(), y);
    assert(expand_pre_nasal(base, pairs, tris).contains(y));
    assert(apos_step(expand_pre_nasal(base, pairs, tris)).contains(y));
    assert(expand_spec(base, pairs, tris).contains(y));
}

/// The rule set declares `a` and `b` as equivalent surface forms, in either
/// orientation, among the pair or triple swaps.
pub open spec fn pair_declared(
    pairs: Seq<RulePair>,
    tris: Seq<RulePair>,
    a: Seq<char>,
    b: Seq<char>,
) -> bool {
    ||| exists|k: int|
        0 <= k < pairs.len() && (pair_is(#[trigger] pairs[k], a, b) || pair_is(pairs[k], b, a))
    ||| exists|k: int|
        0 <= k < tris.len() && (pair_is(#[trigger] tris[k], a, b) || pair_is(tris[k], b, a))
}

/// For every declared equivalence pair, the expansion of a base spelling
/// holds the base itself and the base with every occurrence of the one form
/// rewritten to the other.
pub proof fn lemma_equiv_form_in_expansion(
    base: Seq<char>,
    pairs: Seq<RulePair>,
    tris: Seq<RulePair>,
    a: Seq<char>,
    b: Seq<char>,
)
    requires
        pair_declared(pairs, tris, a, b),
    ensures
        expand_spec(base, pairs, tris).contains(base),
        expand_spec(base, pairs, tris).contains(replace_all(base, a, b)),
        expand_spec(base, pairs, tris).contains(replace_all(base, b, a)),
{
    let s_base = Set::empty().insert(base);
    assert(s_base.contains(base));
    let s_pairs = pair_steps(s_base, pairs);
    let s_tris = pair_steps(s_pairs, tris);
    lemma_pair_steps_keeps(s_base, pairs, base);
    lemma_pair_steps_keeps(s_pairs, tris, base);
    lemma_late_steps_keep(base, pairs, tris, base);
    if exists|k: int|
        0 <= k < pairs.len() && (pair_is(#[trigger] pairs[k], a, b) || pair_is(pairs[k], b, a)) {
        let k = choose|k: int|
            0 <= k < pairs.len() && (pair_is(#[trigger] pairs[k], a, b) || pair_is(pairs[k], b, a));
        lemma_pair_steps_swaps(s_base, pairs, k, base);
        lemma_pair_steps_keeps(s_pairs, tris, replace_all(base, a, b));
        lemma_pair_steps_keeps(s_pairs, tris, replace_all(base, b, a));
    } else {
        let k = choose|k: int|
            0 <= k < tris.len() && (pair_is(#[trigger] tris[k], a, b) || pair_is(tris[k], b, a));
        lemma_pair_steps_swaps(s_pairs, tris, k, base);
    }
    lemma_late_steps_keep(base, pairs, tris, replace_all(base, a, b));
    lemma_late_steps_keep(base, pairs, tris, replace_all(base, b, a));
}

/// Rewriting keeps a spelling ASCII when the replacement form is ASCII.
pub proof fn lemma_replace_all_ascii(s: Seq<char>, a: Seq<char>, b: Seq<char>)
    requires
        ascii_seq(s),
        ascii_seq(b),
    ensures
        ascii_seq(replace_all(s, a, b)),
    decreases s.len(),
{
    if a.len() == 0 || s.len() < a.len() {
    } else if s.take(a.len() as int) == a {
        assert(ascii_seq(s.skip(a.len() as int)));
        lemma_replace_all_ascii(s.skip(a.len() as int), a, b);
        assert forall|i: int| 0 <= i < replace_all(s, a, b).len()
            implies is_ascii_char(#[trigger] replace_all(s, a, b)[i]) by {
            if i < b.len() {
                assert(replace_all(s, a, b)[i] == b[i]);
            } else {
                assert(replace_all(s, a, b)[i] == replace_all(s.skip(a.len() as int), a, b)[
                    i - b.len()]);
            }
        }
    } else {
        assert(ascii_seq(s.skip(1)));
        lemma_replace_all_ascii(s.skip(1), a, b);
        assert forall|i: int| 0 <= i < replace_all(s, a, b).len()
            implies is_ascii_char(#[trigger] replace_all(s, a, b)[i]) by {
            if i == 0 {
                assert(replace_all(s, a, b)[0] == s[0]);
            } else {
                assert(replace_all(s, a, b)[i] == replace_all(s.skip(1), a, b)[i - 1]);
            }
        }
    }
}

/// Rewriting a non-empty spelling with a non-empty form stays non-empty.
pub proof fn lemma_replace_all_nonempty(s: Seq<char>, a: Seq<char>, b: Seq<char>)
    requires
        s.len() > 0,
        b.len() > 0,
    ensures
        replace_all(s, a, b).len() > 0,
    decreases s.len(),
{
    if a.len() == 0 || s.len() < a.len() {
    } else if s.take(a.len() as int) == a {
    } else {
    }
}

/// Phonetic-equivalence symmetry: against a fresh matcher for a word whose
/// base spelling is written with the one surface form of a declared pair,
/// typing the spelling rewritten to the other form runs to completion, and
/// so does the base spelling itself.
pub proof fn lemma_pair_equivalence(
    m: RomajiMatcher,
    bases: Seq<Seq<char>>,
    pairs: Seq<RulePair>,
    tris: Seq<RulePair>,
    base: Seq<char>,
    a: Seq<char>,
    b: Seq<char>,
)
    requires
        m.wf(),
        m.cand_set() == expand_all(bases, pairs, tris),
        bases.contains(base),
        pair_declared(pairs, tris, a, b),
        base.len() > 0,
        b.len() > 0,
        ascii_seq(base),
        ascii_seq(b),
    ensures
        completes(m.cand_views(), Seq::<char>::empty(), replace_all(base, a, b)),
        completes(m.cand_views(), Seq::<char>::empty(), base),
{
    lemma_equiv_form_in_expansion(base, pairs, tris, a, b);
    lemma_expand_all_covers(bases, pairs, tris, base);
    let r = replace_all(base, a, b);
    assert(m.cand_set().contains(r));
    assert(m.cand_set().contains(base));
    assert(m.cand_views().contains(r));
    assert(m.cand_views().contains(base));
    lemma_replace_all_ascii(base, a, b);
    lemma_replace_all_nonempty(base, a, b);
    lemma_candidate_completes(m.cand_views(), r, 0);
    assert(r.take(0) =~= Seq::<char>::empty());
    assert(r.skip(0) =~= r);
    lemma_candidate_completes(m.cand_views(), base, 0);
    assert(base.take(0) =~= Seq::<char>::empty());
    assert(base.skip(0) =~= base);
}

/// The union over several base spellings covers each base's own expansion.
pub proof fn lemma_expand_all_covers(
    bases: Seq<Seq<char>>,
    pairs: Seq<RulePair>,
    tris: Seq<RulePair>,
    base: Seq<char>,
)
    requires
        bases.contains(base),
    ensures
        expand_spec(base, pairs, tris).subset_of(expand_all(bases, pairs, tris)),
    decreases bases.len(),
{
    if bases.len() > 0 {
        if bases.last() == base {
        } else {
            assert(bases.drop_last().contains(base)) by {
                let k = choose|k: int| 0 <= k < bases.len() && bases[k] == base;
                assert(bases.drop_last()[k] == base);
            }
            lemma_expand_all_covers(bases.drop_last(), pairs, tris, base);
        }
    }
}

// ---------------------------------------------------------------------------
// Nasal acceptance
// ---------------------------------------------------------------------------

/// Nasal doubling is additive: for any accepted spelling with a single
/// nasal before a consonant (or at the end), the doubled variant is also
/// accepted, and the original spelling stays accepted.
pub proof fn lemma_nasal_doubling_accepted(
    base: Seq<char>,
    pairs: Seq<RulePair>,
    tris: Seq<RulePair>,
    x: Seq<char>,
    i: int,
)
    requires
        apos_step(expand_pre_nasal(base, pairs, tris)).contains(x),
        nd_site(x, i),
    ensures
        expand_spec(base, pairs, tris).contains(x),
        expand_spec(base, pairs, tris).contains(nd_variant(x, i)),
{
    let st = apos_step(expand_pre_nasal(base, pairs, tris));
    assert(nd_step(st).contains(x));
    assert(nd_step(st).contains(nd_variant(x, i)));
}

/// The apostrophe-marked nasal is typed in its doubled form everywhere, and
/// in its bare form where no vowel or glide follows; the apostrophe form
/// itself stays accepted.
pub proof fn lemma_apostrophe_variants_accepted(
    base: Seq<char>,
    pairs: Seq<RulePair>,
    tris: Seq<RulePair>,
    x: Seq<char>,
    i: int,
)
    requires
        expand_pre_nasal(base, pairs, tris).contains(x),
        apos_site(x, i),
    ensures
        expand_spec(base, pairs, tris).contains(x),
        expand_spec(base, pairs, tris).contains(apos_nn(x, i)),
        !apos_ambig(x, i) ==> expand_spec(base, pairs, tris).contains(apos_n(x, i)),
{
    let st = expand_pre_nasal(base, pairs, tris);
    assert(apos_step(st).contains(x));
    assert(apos_step(st).contains(apos_nn(x, i)));
    if !apos_ambig(x, i) {
        assert(apos_step(st).contains(apos_n(x, i)));
    }
    assert(nd_step(apos_step(st)).contains(x));
    assert(nd_step(apos_step(st)).contains(apos_nn(x, i)));
    if !apos_ambig(x, i) {
        assert(nd_step(apos_step(st)).contains(apos_n(x, i)));
    }
}


/// The candidate set always contains the base spelling itself: expansion
/// only adds variants.
pub proof fn lemma_expansion_contains_base(base: Seq<char>, pairs: Seq<RulePair>, tris: Seq<
    RulePair,
>)
    ensures
        expand_spec(base, pairs, tris).contains(base),
{
    let s_base = Set::empty().insert(base);
    lemma_pair_steps_keeps(s_base, pairs, base);
    lemma_pair_steps_keeps(pair_steps(s_base, pairs), tris, base);
    lemma_late_steps_keep(base, pairs, tris, base);
}

/// A matcher built over a word's base spellings accepts each of them, so
/// its candidate set is never empty for a word with a base spelling.
pub proof fn lemma_candidates_contain_bases(
    m: RomajiMatcher,
    bases: Seq<Seq<char>>,
    pairs: Seq<RulePair>,
    tris: Seq<RulePair>,
    base: Seq<char>,
)
    requires
        m.cand_set() == expand_all(bases, pairs, tris),
        bases.contains(base),
    ensures
        m.cand_set().contains(base),
        m.cand_views().contains(base),
{
    lemma_expansion_contains_base(base, pairs, tris);
    lemma_expand_all_covers(bases, pairs, tris, base);
}

} // verus!
