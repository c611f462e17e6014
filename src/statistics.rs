//! Counting equal byte strings.

use vstd::prelude::*;

verus! {

/// A tally of byte strings with their counts, in order of first appearance.
pub type Tally = Seq<(Seq<u8>, nat)>;

/// The position of `x` in `t`, or `t.len()` when `x` is not counted there.
pub open spec fn position_in(t: Tally, x: Seq<u8>) -> nat
    decreases t.len(),
{
    if t.len() == 0 {
        0
    } else if t[0].0 == x {
        0
    } else {
        1 + position_in(t.drop_first(), x)
    }
}

/// `t` after counting one more `x`.
pub open spec fn bump(t: Tally, x: Seq<u8>) -> Tally {
    let p = position_in(t, x) as int;
    if p < t.len() {
        t.update(p, (x, t[p].1 + 1))
    } else {
        t.push((x, 1))
    }
}

/// The tally of `xs`: each distinct element once, in order of first
/// appearance, with the number of times it occurs.
pub open spec fn tally(xs: Seq<Seq<u8>>) -> Tally
    decreases xs.len(),
{
    if xs.len() == 0 {
        Seq::empty()
    } else {
        bump(tally(xs.drop_last()), xs.last())
    }
}

/// `e` placed into `t` after every entry whose count is at least its own.
pub open spec fn insert_by_count<T>(t: Seq<(T, nat)>, e: (T, nat)) -> Seq<(T, nat)>
    decreases t.len(),
{
    if t.len() == 0 {
        seq![e]
    } else if t.last().1 >= e.1 {
        t.push(e)
    } else {
        insert_by_count(t.drop_last(), e).push(t.last())
    }
}

/// `t` in descending order of count; entries with equal counts keep their
/// order.
pub open spec fn sorted_by_count<T>(t: Seq<(T, nat)>) -> Seq<(T, nat)>
    decreases t.len(),
{
    if t.len() == 0 {
        t
    } else {
        insert_by_count(sorted_by_count(t.drop_last()), t.last())
    }
}

/// Each element's view with its count.
pub open spec fn counted<T: View>(v: Seq<(T, usize)>) -> Seq<(T::V, nat)> {
    v.map_values(|e: (T, usize)| (e.0@, e.1 as nat))
}

pub open spec fn view_entries(v: Seq<(Vec<u8>, usize)>) -> Tally {
    counted(v)
}

/// The number of times `x` occurs in `xs`.
pub open spec fn occurrences(xs: Seq<Seq<u8>>, x: Seq<u8>) -> nat
    decreases xs.len(),
{
    if xs.len() == 0 {
        0
    } else {
        occurrences(xs.drop_last(), x) + if xs.last() == x {
            1nat
        } else {
            0nat
        }
    }
}

/// The tally of `xs` holds each element once, with its number of
/// occurrences; an element it does not hold does not occur.
pub proof fn lemma_tally_counts(xs: Seq<Seq<u8>>)
    ensures
        forall|i: int, j: int|
            0 <= i < j < tally(xs).len() ==> (#[trigger] tally(xs)[i]).0 != (#[trigger] tally(xs)[j]).0,
        forall|i: int| 0 <= i < tally(xs).len() ==> (#[trigger] tally(xs)[i]).1 == occurrences(xs, tally(xs)[i].0),
        forall|x: Seq<u8>| position_in(tally(xs), x) == tally(xs).len() ==> #[trigger] occurrences(xs, x) == 0,
    decreases xs.len(),
{
    if xs.len() > 0 {
        let ys = xs.drop_last();
        let y = xs.last();
        lemma_tally_counts(ys);
        let t = tally(ys);
        lemma_position_bounds(t, y);
        let p = position_in(t, y) as int;
        let u = tally(xs);
        assert(u == bump(t, y));
        assert forall|x: Seq<u8>| position_in(u, x) == u.len() implies #[trigger] occurrences(xs, x) == 0 by {
            lemma_position_bounds(u, x);
            lemma_position_bounds(t, x);
            if position_in(t, x) < t.len() {
                let q = position_in(t, x) as int;
                assert(u[q].0 == x);
            }
            if x == y {
                assert(u[p].0 == y);
            }
            assert(x != y);
            assert(position_in(t, x) == t.len());
            assert(occurrences(ys, x) == 0);
            assert(occurrences(xs, x) == occurrences(ys, x));
        }
        assert forall|i: int| 0 <= i < u.len() implies (#[trigger] u[i]).1 == occurrences(xs, u[i].0) by {
            if i == p {
                if p == t.len() {
                    assert(occurrences(ys, y) == 0);
                }
            } else {
                assert(u[i] == t[i]);
            }
        }
    }
}

/// The first entry that reaches `q` is an entry of the tally with at least
/// `q` counts.
pub proof fn lemma_first_reaching<T>(t: Seq<(T, nat)>, q: nat)
    requires
        first_reaching_of(t, q) is Some,
    ensures
        exists|i: int| 0 <= i < t.len() && #[trigger] t[i].0 == first_reaching_of(t, q).unwrap() && t[i].1 >= q,
    decreases t.len(),
{
    if t[0].1 < q {
        lemma_first_reaching(t.drop_first(), q);
        let i = choose|i: int| 0 <= i < t.drop_first().len() && #[trigger] t.drop_first()[i].0 == first_reaching_of(t.drop_first(), q).unwrap() && t.drop_first()[i].1 >= q;
        assert(t[i + 1] == t.drop_first()[i]);
    } else {
        assert(t[0].0 == first_reaching_of(t, q).unwrap());
    }
}

/// The first entry of `t` whose count is at least `q`.
pub open spec fn first_reaching_of<T>(t: Seq<(T, nat)>, q: nat) -> Option<T>
    decreases t.len(),
{
    if t.len() == 0 {
        None
    } else if t[0].1 >= q {
        Some(t[0].0)
    } else {
        first_reaching_of(t.drop_first(), q)
    }
}

/// Placing an entry keeps the other entries and adds that one.
pub proof fn lemma_insert_by_count_multiset<T>(t: Seq<(T, nat)>, e: (T, nat))
    ensures
        insert_by_count(t, e).to_multiset() == t.to_multiset().insert(e),
    decreases t.len(),
{
    broadcast use vstd::seq_lib::group_to_multiset_ensures;

    if t.len() > 0 && t.last().1 < e.1 {
        lemma_insert_by_count_multiset(t.drop_last(), e);
        assert(t.drop_last().push(t.last()) =~= t);
        assert(t.to_multiset() == t.drop_last().to_multiset().insert(t.last()));
        assert(insert_by_count(t, e).to_multiset() =~= t.to_multiset().insert(e));
    } else if t.len() == 0 {
        assert(seq![e] =~= Seq::<(T, nat)>::empty().push(e));
    }
}

/// Placing an entry into a sequence in descending order of count keeps it
/// in descending order of count.
pub proof fn lemma_insert_by_count_descending<T>(t: Seq<(T, nat)>, e: (T, nat))
    requires
        forall|i: int, j: int| 0 <= i < j < t.len() ==> #[trigger] t[i].1 >= #[trigger] t[j].1,
    ensures
        forall|i: int, j: int|
            0 <= i < j < insert_by_count(t, e).len() ==> #[trigger] insert_by_count(t, e)[i].1
                >= #[trigger] insert_by_count(t, e)[j].1,
    decreases t.len(),
{
    broadcast use vstd::seq_lib::group_to_multiset_ensures;

    if t.len() > 0 && t.last().1 < e.1 {
        let u = t.drop_last();
        lemma_insert_by_count_descending(u, e);
        lemma_insert_by_count_multiset(u, e);
        let w = insert_by_count(u, e);
        assert forall|k: int| 0 <= k < w.len() implies #[trigger] w[k].1 >= t.last().1 by {
            assert(w.contains(w[k]));
            assert(w.to_multiset().count(w[k]) > 0);
            if w[k] != e {
                assert(u.to_multiset().count(w[k]) > 0);
                assert(u.contains(w[k]));
                let m = choose|m: int| 0 <= m < u.len() && u[m] == w[k];
                assert(t[m] == u[m]);
            }
        }
        let r = w.push(t.last());
        assert forall|i: int, j: int| 0 <= i < j < r.len() implies #[trigger] r[i].1 >= #[trigger] r[j].1 by {
            if j < w.len() {
                assert(r[i] == w[i] && r[j] == w[j]);
            } else {
                assert(r[i] == w[i]);
            }
        }
    }
}

/// `sorted_by_count` holds the same entries, in descending order of count.
pub proof fn lemma_sorted_by_count<T>(t: Seq<(T, nat)>)
    ensures
        sorted_by_count(t).to_multiset() == t.to_multiset(),
        forall|i: int, j: int|
            0 <= i < j < sorted_by_count(t).len() ==> #[trigger] sorted_by_count(t)[i].1
                >= #[trigger] sorted_by_count(t)[j].1,
    decreases t.len(),
{
    broadcast use vstd::seq_lib::group_to_multiset_ensures;

    if t.len() > 0 {
        lemma_sorted_by_count(t.drop_last());
        lemma_insert_by_count_multiset(sorted_by_count(t.drop_last()), t.last());
        lemma_insert_by_count_descending(sorted_by_count(t.drop_last()), t.last());
        assert(t.drop_last().push(t.last()) =~= t);
    }
}

/// Counts equal byte strings.
pub struct Frequency {
    map: Vec<(Vec<u8>, usize)>,
}

impl Frequency {
    /// Each counted byte string with its count.
    pub closed spec fn counts(&self) -> Tally {
        view_entries(self.map@)
    }

    pub fn new() -> (r: Frequency)
        ensures
            r.counts() == Seq::<(Seq<u8>, nat)>::empty(),
    {
        let r = Frequency { map: Vec::new() };
        assert(r.counts() =~= Seq::<(Seq<u8>, nat)>::empty());
        r
    }

    /// Counts one more `key`.
    pub fn update(&mut self, key: &Vec<u8>)
        requires
            forall|i: int| 0 <= i < old(self).counts().len() ==> old(self).counts()[i].1 < usize::MAX,
        ensures
            final(self).counts() == bump(old(self).counts(), key@),
    {
        let ghost t = self.counts();
        let mut i: usize = 0;
        let mut found = false;
        while i < self.map.len() && !found
            invariant
                i <= self.map@.len(),
                self.counts() == t,
                forall|j: int| 0 <= j < i ==> self.map@[j].0@ != key@,
                found ==> i < self.map@.len() && self.map@[i as int].0@ == key@,
            decreases self.map@.len() - i + if found { 0int } else { 1int },
        {
            if bytes_equal(&self.map[i].0, key) {
                found = true;
            } else {
                i = i + 1;
            }
        }
        if found {
            proof {
                assert(t[i as int] == (self.map@[i as int].0@, self.map@[i as int].1 as nat));
                lemma_position_at(t, key@, i as int);
            }
            let n = self.map[i].1 + 1;
            let k = self.map[i].0.clone();
            proof { assert(k@ =~= key@); }
            self.map.set(i, (k, n));
            proof {
                assert(self.counts() =~= t.update(i as int, (key@, t[i as int].1 + 1)));
            }
        } else {
            proof { lemma_position_absent(t, key@); }
            let k = key.clone();
            proof { assert(k@ =~= key@); }
            self.map.push((k, 1));
            proof {
                assert(self.counts() =~= t.push((key@, 1)));
            }
        }
    }

    /// How many times `key` has been counted.
    pub fn count_of(&self, key: &Vec<u8>) -> (r: usize)
        ensures
            position_in(self.counts(), key@) < self.counts().len() ==> r == self.counts()[position_in(
                self.counts(),
                key@,
            ) as int].1,
            position_in(self.counts(), key@) >= self.counts().len() ==> r == 0,
    {
        let ghost t = self.counts();
        let mut i: usize = 0;
        while i < self.map.len()
            invariant
                i <= self.map@.len(),
                t == self.counts(),
                forall|j: int| 0 <= j < i ==> self.map@[j].0@ != key@,
            decreases self.map@.len() - i,
        {
            if bytes_equal(&self.map[i].0, key) {
                proof {
                    assert(t[i as int] == (self.map@[i as int].0@, self.map@[i as int].1 as nat));
                    lemma_position_at(t, key@, i as int);
                }
                return self.map[i].1;
            }
            i = i + 1;
        }
        proof { lemma_position_absent(t, key@); }
        0
    }

    /// The counts in descending order; equal counts keep the order in which
    /// their byte strings were first counted. The counter keeps that order.
    pub fn sort_by_highest(&mut self) -> (r: Vec<(Vec<u8>, usize)>)
        ensures
            final(self).counts() == sorted_by_count(old(self).counts()),
            view_entries(r@) == final(self).counts(),
    {
        let ghost t = self.counts();
        let mut sorted: Vec<(Vec<u8>, usize)> = Vec::new();
        let mut i: usize = 0;
        while i < self.map.len()
            invariant
                i <= self.map@.len(),
                self.counts() == t,
                view_entries(sorted@) == sorted_by_count(t.subrange(0, i as int)),
            decreases self.map@.len() - i,
        {
            let e = (self.map[i].0.clone(), self.map[i].1);
            proof {
                assert(e.0@ =~= self.map@[i as int].0@);
                assert(t.subrange(0, i + 1).drop_last() =~= t.subrange(0, i as int));
                assert(t.subrange(0, i + 1).last() == t[i as int]);
            }
            insert_sorted(&mut sorted, e);
            i = i + 1;
        }
        proof { assert(t.subrange(0, i as int) =~= t); }
        let r = copy_entries(&sorted);
        self.map = sorted;
        r
    }
}

/// Per key: the tally of its values and the highest count among them.
pub type PairTally = Seq<(Seq<u8>, Tally, nat)>;

/// The position of key `k` in `t`, or `t.len()` when it is not there.
pub open spec fn key_position(t: PairTally, k: Seq<u8>) -> nat
    decreases t.len(),
{
    if t.len() == 0 {
        0
    } else if t[0].0 == k {
        0
    } else {
        1 + key_position(t.drop_first(), k)
    }
}

/// `t` after counting one more `(k, v)` pair.
pub open spec fn bump_pair(t: PairTally, k: Seq<u8>, v: Seq<u8>) -> PairTally {
    let p = key_position(t, k) as int;
    if p < t.len() {
        let inner = bump(t[p].1, v);
        let c = inner[position_in(inner, v) as int].1;
        t.update(p, (k, inner, if c > t[p].2 { c } else { t[p].2 }))
    } else {
        t.push((k, seq![(v, 1nat)], 1))
    }
}

/// Each key of `t` with the highest count among its values.
pub open spec fn maxima(t: PairTally) -> Tally {
    t.map_values(|e: (Seq<u8>, Tally, nat)| (e.0, e.2))
}

/// Counts (key, value) pairs of byte strings, and keeps for each key the
/// highest count that one of its values has reached.
pub struct FrequencyKeyValue {
    map: Vec<(Vec<u8>, Frequency, usize)>,
}

impl FrequencyKeyValue {
    /// Each key, in order of first appearance, with the tally of its values
    /// and the highest count among them.
    pub closed spec fn pairs(&self) -> PairTally {
        self.map@.map_values(|e: (Vec<u8>, Frequency, usize)| (e.0@, e.1.counts(), e.2 as nat))
    }

    pub fn new() -> (r: FrequencyKeyValue)
        ensures
            r.pairs() == Seq::<(Seq<u8>, Tally, nat)>::empty(),
    {
        let r = FrequencyKeyValue { map: Vec::new() };
        assert(r.pairs() =~= Seq::<(Seq<u8>, Tally, nat)>::empty());
        r
    }

    /// Counts one more `(key, value)` pair.
    pub fn update(&mut self, key: &Vec<u8>, value: &Vec<u8>)
        requires
            forall|i: int, j: int|
                0 <= i < old(self).pairs().len() && 0 <= j < old(self).pairs()[i].1.len() ==> #[trigger] old(
                    self,
                ).pairs()[i].1[j].1 < usize::MAX,
        ensures
            final(self).pairs() == bump_pair(old(self).pairs(), key@, value@),
    {
        let ghost t = self.pairs();
        let mut i: usize = 0;
        let mut found = false;
        while i < self.map.len() && !found
            invariant
                i <= self.map@.len(),
                self.pairs() == t,
                forall|j: int| 0 <= j < i ==> self.map@[j].0@ != key@,
                found ==> i < self.map@.len() && self.map@[i as int].0@ == key@,
            decreases self.map@.len() - i + if found { 0int } else { 1int },
        {
            if bytes_equal(&self.map[i].0, key) {
                found = true;
            } else {
                i = i + 1;
            }
        }
        if found {
            proof {
                assert(t[i as int] == (self.map@[i as int].0@, self.map@[i as int].1.counts(), self.map@[i as int].2 as nat));
                lemma_key_position_at(t, key@, i as int);
            }
            let (k, mut f, m) = self.map.remove(i);
            let ghost before = f.counts();
            proof {
                assert forall|j: int| 0 <= j < before.len() implies before[j].1 < usize::MAX by {
                    assert(t[i as int].1[j].1 < usize::MAX);
                }
            }
            f.update(value);
            proof { lemma_bump_position(before, value@); }
            let c = f.count_of(value);
            let m2 = if c > m { c } else { m };
            self.map.insert(i, (k, f, m2));
            proof {
                assert(self.pairs() =~= t.update(i as int, (key@, bump(t[i as int].1, value@), m2 as nat)));
            }
        } else {
            proof { lemma_key_position_absent(t, key@); }
            let k = key.clone();
            proof { assert(k@ =~= key@); }
            let mut f = Frequency::new();
            f.update(value);
            proof {
                assert(f.counts() =~= seq![(value@, 1nat)]);
            }
            self.map.push((k, f, 1));
            proof {
                assert(self.pairs() =~= t.push((key@, seq![(value@, 1nat)], 1)));
            }
        }
    }

    /// The keys in descending order of their highest count; equal counts
    /// keep the order in which their keys were first counted.
    pub fn sort_by_highest(&self) -> (r: Vec<(Vec<u8>, usize)>)
        ensures
            view_entries(r@) == sorted_by_count(maxima(self.pairs())),
    {
        let ghost t = maxima(self.pairs());
        let mut sorted: Vec<(Vec<u8>, usize)> = Vec::new();
        let mut i: usize = 0;
        while i < self.map.len()
            invariant
                i <= self.map@.len(),
                t == maxima(self.pairs()),
                view_entries(sorted@) == sorted_by_count(t.subrange(0, i as int)),
            decreases self.map@.len() - i,
        {
            let e = (self.map[i].0.clone(), self.map[i].2);
            proof {
                assert(e.0@ =~= self.map@[i as int].0@);
                assert(t[i as int] == (self.map@[i as int].0@, self.map@[i as int].2 as nat));
                assert(t.subrange(0, i + 1).drop_last() =~= t.subrange(0, i as int));
                assert(t.subrange(0, i + 1).last() == t[i as int]);
            }
            insert_sorted(&mut sorted, e);
            i = i + 1;
        }
        proof { assert(t.subrange(0, i as int) =~= t); }
        sorted
    }
}

/// Where `key_position` stops on an entry, that entry holds `k`.
pub proof fn lemma_key_position_at(t: PairTally, k: Seq<u8>, i: int)
    requires
        0 <= i < t.len(),
        t[i].0 == k,
        forall|j: int| 0 <= j < i ==> t[j].0 != k,
    ensures
        key_position(t, k) == i,
    decreases i,
{
    if i > 0 {
        assert forall|j: int| 0 <= j < i - 1 implies t.drop_first()[j].0 != k by {
            assert(t.drop_first()[j] == t[j + 1]);
        }
        lemma_key_position_at(t.drop_first(), k, i - 1);
    }
}

/// `key_position` is `t.len()` when no entry holds `k`.
pub proof fn lemma_key_position_absent(t: PairTally, k: Seq<u8>)
    requires
        forall|j: int| 0 <= j < t.len() ==> t[j].0 != k,
    ensures
        key_position(t, k) == t.len(),
    decreases t.len(),
{
    if t.len() > 0 {
        assert forall|j: int| 0 <= j < t.drop_first().len() implies t.drop_first()[j].0 != k by {
            assert(t.drop_first()[j] == t[j + 1]);
        }
        lemma_key_position_absent(t.drop_first(), k);
    }
}

/// Byte-wise equality.
pub fn bytes_equal(a: &Vec<u8>, b: &Vec<u8>) -> (r: bool)
    ensures
        r == (a@ == b@),
{
    if a.len() != b.len() {
        return false;
    }
    let mut i: usize = 0;
    while i < a.len()
        invariant
            i <= a@.len(),
            a@.len() == b@.len(),
            forall|j: int| 0 <= j < i ==> a@[j] == b@[j],
        decreases a@.len() - i,
    {
        if a[i] != b[i] {
            return false;
        }
        i = i + 1;
    }
    assert(a@ =~= b@);
    true
}

/// An entry-by-entry copy of `v`.
fn copy_entries(v: &Vec<(Vec<u8>, usize)>) -> (r: Vec<(Vec<u8>, usize)>)
    ensures
        view_entries(r@) == view_entries(v@),
{
    let mut r: Vec<(Vec<u8>, usize)> = Vec::new();
    let mut i: usize = 0;
    while i < v.len()
        invariant
            i <= v@.len(),
            r@.len() == i,
            view_entries(r@) == view_entries(v@.subrange(0, i as int)),
        decreases v@.len() - i,
    {
        let k = v[i].0.clone();
        proof { assert(k@ =~= v@[i as int].0@); }
        let ghost r0 = r@;
        r.push((k, v[i].1));
        proof {
            assert forall|j: int| 0 <= j < i + 1 implies #[trigger] view_entries(r@)[j] == view_entries(v@.subrange(0, i + 1))[j] by {
                if j < i {
                    assert(r@[j] == r0[j]);
                    assert(view_entries(r0)[j] == view_entries(v@.subrange(0, i as int))[j]);
                }
            }
            assert(view_entries(r@) =~= view_entries(v@.subrange(0, i + 1)));
        }
        i = i + 1;
    }
    proof { assert(v@.subrange(0, i as int) =~= v@); }
    r
}

/// Places `e` into `sorted` after every entry whose count is at least its own.
pub(crate) fn insert_sorted<T: View>(sorted: &mut Vec<(T, usize)>, e: (T, usize))
    ensures
        counted(final(sorted)@) == insert_by_count(counted(old(sorted)@), (e.0@, e.1 as nat)),
{
    let ghost t = counted(sorted@);
    let ghost ev = (e.0@, e.1 as nat);
    let mut p: usize = sorted.len();
    proof {
        assert(t.subrange(0, p as int) =~= t);
        assert(t + t.subrange(p as int, t.len() as int) =~= t);
        assert(insert_by_count(t, ev) + t.subrange(p as int, t.len() as int) =~= insert_by_count(t, ev));
    }
    let mut done = false;
    while p > 0 && !done
        invariant
            p <= sorted@.len(),
            counted(sorted@) == t,
            ev == (e.0@, e.1 as nat),
            insert_by_count(t, ev) == insert_by_count(t.subrange(0, p as int), ev) + t.subrange(p as int, t.len() as int),
            done ==> p > 0 && sorted@[p - 1].1 >= e.1,
        decreases p + if done { 0int } else { 1int },
    {
        if sorted[p - 1].1 >= e.1 {
            done = true;
        } else {
            proof {
                let u = t.subrange(0, p as int);
                assert(t[p - 1] == (sorted@[p - 1].0@, sorted@[p - 1].1 as nat));
                assert(u.last() == t[p - 1]);
                assert(u.drop_last() =~= t.subrange(0, p - 1));
                assert(u.len() > 0);
                assert(u.last().1 < ev.1);
                assert(insert_by_count(u, ev) == insert_by_count(u.drop_last(), ev).push(u.last()));
                assert(insert_by_count(u, ev) == insert_by_count(t.subrange(0, p - 1), ev).push(t[p - 1]));
                assert(insert_by_count(t.subrange(0, p - 1), ev).push(t[p - 1]) + t.subrange(p as int, t.len() as int)
                    =~= insert_by_count(t.subrange(0, p - 1), ev) + t.subrange(p - 1, t.len() as int));
            }
            p = p - 1;
        }
    }
    proof {
        let u = t.subrange(0, p as int);
        if p > 0 {
            assert(t[p - 1] == (sorted@[p - 1].0@, sorted@[p - 1].1 as nat));
            assert(u.last() == t[p - 1]);
        }
        assert(insert_by_count(u, ev) == u.push(ev));
    }
    sorted.insert(p, e);
    proof {
        assert(counted(sorted@) =~= t.subrange(0, p as int).push(ev) + t.subrange(p as int, t.len() as int));
    }
}

/// Where `position_in` stops on an entry, that entry holds `x`.
pub proof fn lemma_position_at(t: Tally, x: Seq<u8>, i: int)
    requires
        0 <= i < t.len(),
        t[i].0 == x,
        forall|j: int| 0 <= j < i ==> t[j].0 != x,
    ensures
        position_in(t, x) == i,
    decreases i,
{
    if i > 0 {
        assert forall|j: int| 0 <= j < i - 1 implies t.drop_first()[j].0 != x by {
            assert(t.drop_first()[j] == t[j + 1]);
        }
        lemma_position_at(t.drop_first(), x, i - 1);
    }
}

/// What `position_in` finds: no earlier entry holds `x`, and the entry
/// there, if any, does.
pub proof fn lemma_position_bounds(t: Tally, x: Seq<u8>)
    ensures
        position_in(t, x) <= t.len(),
        forall|j: int| 0 <= j < position_in(t, x) ==> (#[trigger] t[j]).0 != x,
        position_in(t, x) < t.len() ==> t[position_in(t, x) as int].0 == x,
    decreases t.len(),
{
    if t.len() > 0 && t[0].0 != x {
        lemma_position_bounds(t.drop_first(), x);
        assert forall|j: int| 0 <= j < position_in(t, x) implies (#[trigger] t[j]).0 != x by {
            if j > 0 {
                assert(t[j] == t.drop_first()[j - 1]);
            }
        }
    }
}

/// After counting `x`, the tally holds `x` where it held it before, or at
/// the end.
pub proof fn lemma_bump_position(t: Tally, x: Seq<u8>)
    ensures
        position_in(bump(t, x), x) == position_in(t, x),
        position_in(t, x) < bump(t, x).len(),
{
    lemma_position_bounds(t, x);
    let p = position_in(t, x) as int;
    let u = bump(t, x);
    assert(u[p].0 == x);
    assert(forall|j: int| 0 <= j < p ==> u[j] == t[j]);
    lemma_position_at(u, x, p);
}

/// `position_in` is `t.len()` when no entry holds `x`.
pub proof fn lemma_position_absent(t: Tally, x: Seq<u8>)
    requires
        forall|j: int| 0 <= j < t.len() ==> t[j].0 != x,
    ensures
        position_in(t, x) == t.len(),
    decreases t.len(),
{
    if t.len() > 0 {
        assert forall|j: int| 0 <= j < t.drop_first().len() implies t.drop_first()[j].0 != x by {
            assert(t.drop_first()[j] == t[j + 1]);
        }
        lemma_position_absent(t.drop_first(), x);
    }
}

} // verus!
