//! Public keys attested for each target, with the peers that vouched for them.

use vstd::prelude::*;

use crate::lru::{evicted, has_key, inserted, touched, LruMap};
use crate::{Name, PublicKey, PUBLICKEYBYTES};

verus! {

/// How many targets the store keeps before it evicts the least recently used.
pub const NAME_CAPACITY: usize = 1000;

/// `a` sorts before `b` in byte order.
pub open spec fn bytes_below(a: Seq<u8>, b: Seq<u8>) -> bool {
    exists|i: int|
        0 <= i < a.len() && i < b.len() && #[trigger] a[i] < #[trigger] b[i] && forall|j: int|
            0 <= j < i ==> a[j] == b[j]
}

/// Byte order is transitive on keys of one width.
pub proof fn lemma_bytes_below_transitive(a: Seq<u8>, b: Seq<u8>, c: Seq<u8>)
    requires
        a.len() == b.len() == c.len(),
        bytes_below(a, b),
        bytes_below(b, c),
    ensures
        bytes_below(a, c),
{
    let i = choose|i: int|
        0 <= i < a.len() && i < b.len() && #[trigger] a[i] < #[trigger] b[i] && forall|j: int|
            0 <= j < i ==> a[j] == b[j];
    let k = choose|k: int|
        0 <= k < b.len() && k < c.len() && #[trigger] b[k] < #[trigger] c[k] && forall|j: int|
            0 <= j < k ==> b[j] == c[j];
    let m = if i < k { i } else { k };
    assert(a[m] < c[m]);
    assert(forall|j: int| 0 <= j < m ==> a[j] == c[j]);
}

/// Byte order is irreflexive.
pub proof fn lemma_bytes_below_irreflexive(a: Seq<u8>, b: Seq<u8>)
    requires
        bytes_below(a, b),
    ensures
        a != b,
        !bytes_below(b, a),
{
    let i = choose|i: int|
        0 <= i < a.len() && i < b.len() && #[trigger] a[i] < #[trigger] b[i] && forall|j: int|
            0 <= j < i ==> a[j] == b[j];
    if bytes_below(b, a) {
        let k = choose|k: int|
            0 <= k < b.len() && k < a.len() && #[trigger] b[k] < #[trigger] a[k] && forall|j: int|
                0 <= j < k ==> b[j] == a[j];
        if i < k {
            assert(b[i] == a[i]);
        } else if k < i {
            assert(a[k] == b[k]);
        }
    }
}

/// The keys attested for one target, in byte order, each with the peers that
/// vouched for it in the order they did so.
pub type KeyTable = Seq<(Seq<u8>, Seq<Name>)>;

/// Each key of `t` sorts before every later key.
pub open spec fn table_sorted(t: KeyTable) -> bool {
    forall|i: int, j: int| 0 <= i < j < t.len() ==> bytes_below(#[trigger] t[i].0, #[trigger] t[j].0)
}

/// Every key of `t` has `PUBLICKEYBYTES` bytes and its attesters are distinct.
pub open spec fn table_wf(t: KeyTable) -> bool {
    &&& table_sorted(t)
    &&& forall|i: int| 0 <= i < t.len() ==> (#[trigger] t[i]).0.len() == 32 && t[i].1.no_duplicates()
}

/// Where `k` belongs in `t`: the first entry that does not sort before it.
pub open spec fn insert_pos(t: KeyTable, k: Seq<u8>) -> nat
    decreases t.len(),
{
    if t.len() == 0 || !bytes_below(t[0].0, k) {
        0
    } else {
        1 + insert_pos(t.drop_first(), k)
    }
}

/// `s` with `a` added, unless it is already there.
pub open spec fn with_attester(s: Seq<Name>, a: Name) -> Seq<Name> {
    if s.contains(a) {
        s
    } else {
        s.push(a)
    }
}

/// `t` after `a` vouched for `k`.
pub open spec fn attest(t: KeyTable, k: Seq<u8>, a: Name) -> KeyTable {
    let p = insert_pos(t, k) as int;
    if p < t.len() && t[p].0 == k {
        t.update(p, (k, with_attester(t[p].1, a)))
    } else {
        t.insert(p, (k, seq![a]))
    }
}

/// The keys of `t` that at least `q` distinct peers vouched for, in byte order.
pub open spec fn quorate(t: KeyTable, q: nat) -> Seq<Seq<u8>>
    decreases t.len(),
{
    if t.len() == 0 {
        Seq::empty()
    } else {
        quorate(t.drop_last(), q) + if t.last().1.len() >= q {
            seq![t.last().0]
        } else {
            Seq::empty()
        }
    }
}

/// The table held for `target`; empty when none is held.
pub open spec fn table_of(m: Map<Name, KeyTable>, target: Name) -> KeyTable {
    if m.contains_key(target) {
        m[target]
    } else {
        Seq::empty()
    }
}

pub open spec fn table_view(v: Seq<(PublicKey, Vec<Name>)>) -> KeyTable {
    v.map_values(|e: (PublicKey, Vec<Name>)| (e.0.0@, e.1@))
}

pub open spec fn keys_view(v: Seq<PublicKey>) -> Seq<Seq<u8>> {
    v.map_values(|k: PublicKey| k.0@)
}

/// `b` is the store `a` after `sender` vouched for `key` as `target`'s. A
/// peer cannot vouch for itself: then `b` is `a`.
pub open spec fn after_add_key(a: KeyStore, b: KeyStore, target: Name, sender: Name, key: Seq<u8>) -> bool {
    &&& b.wf()
    &&& b.quorum() == a.quorum()
    &&& target == sender ==> b == a
    &&& target != sender ==> b.targets() == match a.evicts(target) {
        Some(e) => a.targets().remove(e),
        None => a.targets(),
    }.insert(target, attest(table_of(a.targets(), target), key, sender))
    &&& target != sender ==> b.order() == inserted(a.order(), target, NAME_CAPACITY as nat)
    &&& target != sender ==> b.size() == a.size() + if a.targets().contains_key(target) || a.evicts(
        target,
    ) is Some {
        0int
    } else {
        1int
    }
}

/// The store `a` after `sender` vouched for each (target, key) of `keys` in
/// turn holds the tables `m`, for `n` targets.
pub open spec fn attested_all(a: KeyStore, sender: Name, keys: Seq<(Name, Seq<u8>)>, m: Map<Name, KeyTable>, n: nat) -> bool {
    exists|states: Seq<KeyStore>|
        #![trigger states.len()]
        states.len() == keys.len() + 1 && states[0] == a && states.last().targets() == m && states.last().size() == n
            && forall|i: int|
            0 <= i < keys.len() ==> after_add_key(
                #[trigger] states[i],
                states[i + 1],
                keys[i].0,
                sender,
                keys[i].1,
            )
}

/// What `insert_pos` finds: every earlier key sorts before `k`, and the key
/// there, if any, does not.
pub proof fn lemma_insert_pos_bounds(t: KeyTable, k: Seq<u8>)
    ensures
        insert_pos(t, k) <= t.len(),
        forall|j: int| 0 <= j < insert_pos(t, k) ==> bytes_below(#[trigger] t[j].0, k),
        insert_pos(t, k) < t.len() ==> !bytes_below(t[insert_pos(t, k) as int].0, k),
    decreases t.len(),
{
    if t.len() > 0 && bytes_below(t[0].0, k) {
        lemma_insert_pos_bounds(t.drop_first(), k);
        assert forall|j: int| 0 <= j < insert_pos(t, k) implies bytes_below(#[trigger] t[j].0, k) by {
            if j > 0 {
                assert(t[j] == t.drop_first()[j - 1]);
            }
        }
    }
}

/// Vouching for the same key twice is vouching for it once.
pub proof fn lemma_attest_idempotent(t: KeyTable, k: Seq<u8>, a: Name)
    requires
        table_wf(t),
    ensures
        attest(attest(t, k, a), k, a) == attest(t, k, a),
{
    let p = insert_pos(t, k) as int;
    let t1 = attest(t, k, a);
    lemma_insert_pos_bounds(t, k);
    assert(t1[p].0 == k);
    assert(forall|j: int| 0 <= j < p ==> t1[j] == t[j]);
    if bytes_below(t1[p].0, k) {
        lemma_bytes_below_irreflexive(t1[p].0, k);
    }
    lemma_insert_pos(t1, k, p);
    assert(t1[p].1.contains(a)) by {
        if p < t.len() && t[p].0 == k {
            if !t[p].1.contains(a) {
                assert(t[p].1.push(a)[t[p].1.len() as int] == a);
            }
        } else {
            assert(seq![a][0] == a);
        }
    }
    assert(attest(t1, k, a) =~= t1);
}

/// A peer that vouches for itself changes nothing.
pub proof fn lemma_self_attestation_ignored(a: KeyStore, b: KeyStore, target: Name, key: Seq<u8>)
    requires
        after_add_key(a, b, target, target, key),
    ensures
        b == a,
{
}

/// Recording the same attestation twice leaves the store's tables as
/// recording it once does.
pub proof fn lemma_add_key_idempotent(a: KeyStore, b: KeyStore, c: KeyStore, target: Name, sender: Name, key: Seq<u8>)
    requires
        a.wf(),
        after_add_key(a, b, target, sender, key),
        after_add_key(b, c, target, sender, key),
    ensures
        c.targets() == b.targets(),
        c.size() == b.size(),
{
    if target != sender {
        assert(b.targets().contains_key(target));
        assert(has_key(b.cache.entries(), target));
        let t0 = table_of(a.targets(), target);
        assert(table_wf(t0)) by {
            if a.targets().contains_key(target) {
                assert(table_wf(a.targets()[target]));
            }
        }
        lemma_attest_idempotent(t0, key, sender);
        assert(table_of(b.targets(), target) == attest(t0, key, sender));
        assert(c.targets() =~= b.targets());
    }
}

/// The keys that `quorate` hands out come in strict byte order.
pub proof fn lemma_quorate_sorted(t: KeyTable, q: nat)
    requires
        table_sorted(t),
    ensures
        forall|i: int, j: int| 0 <= i < j < quorate(t, q).len() ==> bytes_below(#[trigger] quorate(t, q)[i], #[trigger] quorate(t, q)[j]),
    decreases t.len(),
{
    if t.len() > 0 {
        let u = t.drop_last();
        assert(table_sorted(u)) by {
            assert forall|i: int, j: int| 0 <= i < j < u.len() implies bytes_below(#[trigger] u[i].0, #[trigger] u[j].0) by {
                assert(u[i] == t[i] && u[j] == t[j]);
            }
        }
        lemma_quorate_sorted(u, q);
        let rest = quorate(u, q);
        let all = quorate(t, q);
        assert forall|i: int, j: int| 0 <= i < j < all.len() implies bytes_below(#[trigger] all[i], #[trigger] all[j]) by {
            if j < rest.len() {
                assert(all[i] == rest[i] && all[j] == rest[j]);
            } else {
                assert(all[i] == rest[i]);
                assert(all[j] == t.last().0);
                lemma_quorate_vouched(u, q, i);
                let k = choose|k: int| 0 <= k < u.len() && #[trigger] u[k].0 == rest[i] && u[k].1.len() >= q;
                assert(u[k] == t[k]);
                assert(bytes_below(t[k].0, t[t.len() - 1].0));
            }
        }
    }
}

/// Every key that `quorate` hands out was vouched for by at least `q`
/// peers.
pub proof fn lemma_quorate_vouched(t: KeyTable, q: nat, i: int)
    requires
        0 <= i < quorate(t, q).len(),
    ensures
        exists|j: int| 0 <= j < t.len() && #[trigger] t[j].0 == quorate(t, q)[i] && t[j].1.len() >= q,
    decreases t.len(),
{
    let rest = quorate(t.drop_last(), q);
    if i < rest.len() {
        assert(quorate(t, q)[i] == rest[i]);
        lemma_quorate_vouched(t.drop_last(), q, i);
        let j = choose|j: int| 0 <= j < t.drop_last().len() && #[trigger] t.drop_last()[j].0 == rest[i] && t.drop_last()[j].1.len() >= q;
        assert(t[j] == t.drop_last()[j]);
    } else {
        assert(t.last().1.len() >= q);
        assert(t[t.len() - 1].0 == quorate(t, q)[i]);
    }
}

/// Public keys attested for each target by other peers.
pub struct KeyStore {
    quorum_size: usize,
    cache: LruMap<Name, Vec<(PublicKey, Vec<Name>)>>,
}

impl KeyStore {
    /// The table held for each target.
    pub closed spec fn targets(&self) -> Map<Name, KeyTable> {
        self.cache.map().map_values(|v: Vec<(PublicKey, Vec<Name>)>| table_view(v@))
    }

    /// The quorum used when a lookup names none.
    pub closed spec fn quorum(&self) -> nat {
        self.quorum_size as nat
    }

    /// The targets held, least recently used first.
    pub closed spec fn order(&self) -> Seq<Name> {
        self.cache.order()
    }

    /// The target that attesting for `target` would evict: the least
    /// recently used one, when `target` is new and `NAME_CAPACITY` targets are
    /// held.
    pub open spec fn evicts(&self, target: Name) -> Option<Name> {
        evicted(self.order(), target, NAME_CAPACITY as nat)
    }

    /// How many targets are held.
    pub open spec fn size(&self) -> nat {
        self.order().len()
    }

    pub closed spec fn cache_wf(&self) -> bool {
        &&& self.cache.wf()
        &&& self.cache.capacity() == NAME_CAPACITY
    }

    pub open spec fn wf(&self) -> bool {
        &&& self.cache_wf()
        &&& self.size() <= NAME_CAPACITY
        &&& self.order().no_duplicates()
        &&& forall|t: Name| #[trigger] self.targets().contains_key(t) <==> self.order().contains(t)
        &&& forall|t: Name| #[trigger] self.targets().contains_key(t) ==> table_wf(self.targets()[t])
    }

    pub fn new(quorum_size: usize) -> (r: KeyStore)
        ensures
            r.wf(),
            r.targets() == Map::<Name, KeyTable>::empty(),
            r.quorum() == quorum_size,
            r.order() == Seq::<Name>::empty(),
    {
        let r = KeyStore { quorum_size, cache: LruMap::new(NAME_CAPACITY) };
        assert(r.targets() =~= Map::<Name, KeyTable>::empty());
        r
    }

    /// Records that `sender` vouches for `key` as belonging to `target`.
    /// A peer cannot vouch for itself: that call changes nothing.
    pub fn add_key(&mut self, target: Name, sender: Name, key: PublicKey)
        requires
            old(self).wf(),
        ensures
            after_add_key(*old(self), *final(self), target, sender, key.0@),
    {
        if target == sender {
            return;
        }
        let ghost m0 = self.cache.map();
        let ghost ev = self.cache.evicts(target);
        let held = self.cache.remove(&target);
        let mut table = match held {
            Some(t) => t,
            None => Vec::new(),
        };
        proof {
            assert(table_view(table@) == table_of(old(self).targets(), target)) by {
                if m0.contains_key(target) {
                    assert(old(self).targets().contains_key(target));
                } else {
                    assert(table_view(table@) =~= Seq::<(Seq<u8>, Seq<Name>)>::empty());
                }
            }
            assert(table_wf(table_view(table@))) by {
                if m0.contains_key(target) {
                    assert(old(self).targets().contains_key(target));
                }
            }
        }
        add_to_table(&mut table, sender, key);
        self.cache.insert(target, table);
        proof {
            let m1 = match ev {
                Some(e) => m0.remove(e),
                None => m0,
            };
            assert(self.cache.map() =~= m1.insert(target, table));
            assert(self.targets() =~= match ev {
                Some(e) => old(self).targets().remove(e),
                None => old(self).targets(),
            }.insert(target, attest(table_of(old(self).targets(), target), key.0@, sender)));
        }
    }

    /// How many targets are held.
    pub fn len(&self) -> (r: usize)
        ensures
            r == self.size(),
    {
        self.cache.len()
    }

    /// The keys of `target` that at least `quorum_size` distinct peers vouched
    /// for (the store's own quorum when `None`), in byte order. The target
    /// becomes the most recently used.
    pub fn get_accumulated_keys(&mut self, target: &Name, quorum_size: Option<usize>) -> (r: Vec<PublicKey>)
        requires
            old(self).wf(),
        ensures
            final(self).wf(),
            final(self).targets() == old(self).targets(),
            final(self).quorum() == old(self).quorum(),
            final(self).order() == touched(old(self).order(), *target),
            forall|i: int, j: int| 0 <= i < j < r@.len() ==> bytes_below(#[trigger] r@[i].0@, #[trigger] r@[j].0@),
            keys_view(r@) == quorate(
                table_of(old(self).targets(), *target),
                match quorum_size {
                    Some(q) => q as nat,
                    None => old(self).quorum(),
                },
            ),
    {
        let size = match quorum_size {
            Some(q) => q,
            None => self.quorum_size,
        };
        self.cache.touch(target);
        proof {
            assert(self.targets() =~= old(self).targets());
        }
        match self.cache.peek(target) {
            Some(table) => {
                proof {
                    assert(self.targets().contains_key(*target));
                    lemma_quorate_sorted(table_view(table@), size as nat);
                }
                let r = pick_where_quorum_reached(table, size);
                proof {
                    let q = quorate(table_view(table@), size as nat);
                    assert forall|i: int, j: int| 0 <= i < j < r@.len() implies bytes_below(#[trigger] r@[i].0@, #[trigger] r@[j].0@) by {
                        assert(r@[i].0@ == keys_view(r@)[i] && r@[j].0@ == keys_view(r@)[j]);
                    }
                }
                r
            },
            None => {
                proof {
                    assert(keys_view(Seq::<PublicKey>::empty()) =~= Seq::<Seq<u8>>::empty());
                }
                Vec::new()
            },
        }
    }
}

/// The keys of `table` that at least `quorum` peers vouched for, in order.
fn pick_where_quorum_reached(table: &Vec<(PublicKey, Vec<Name>)>, quorum: usize) -> (r: Vec<PublicKey>)
    ensures
        keys_view(r@) == quorate(table_view(table@), quorum as nat),
{
    let ghost t = table_view(table@);
    let mut r: Vec<PublicKey> = Vec::new();
    let mut i: usize = 0;
    while i < table.len()
        invariant
            i <= table@.len(),
            t == table_view(table@),
            keys_view(r@) == quorate(t.subrange(0, i as int), quorum as nat),
        decreases table@.len() - i,
    {
        proof {
            let u = t.subrange(0, i + 1);
            assert(u.drop_last() =~= t.subrange(0, i as int));
            assert(u.last() == (table@[i as int].0.0@, table@[i as int].1@));
        }
        let ghost r0 = r@;
        if table[i].1.len() >= quorum {
            r.push(table[i].0);
            proof {
                assert(keys_view(r@) =~= keys_view(r0) + seq![table@[i as int].0.0@]);
            }
        } else {
            proof {
                assert(keys_view(r0) + Seq::<Seq<u8>>::empty() =~= keys_view(r0));
            }
        }
        i = i + 1;
    }
    proof {
        assert(t.subrange(0, i as int) =~= t);
    }
    r
}

/// The order of two keys, byte by byte.
pub(crate) fn compare_keys(a: &PublicKey, b: &PublicKey) -> (r: core::cmp::Ordering)
    ensures
        (r is Less) == bytes_below(a.0@, b.0@),
        (r is Equal) == (a.0@ == b.0@),
        (r is Greater) == bytes_below(b.0@, a.0@),
{
    let mut i: usize = 0;
    while i < PUBLICKEYBYTES
        invariant
            i <= 32,
            a.0@.len() == 32,
            b.0@.len() == 32,
            forall|j: int| 0 <= j < i ==> a.0@[j] == b.0@[j],
        decreases 32 - i,
    {
        if a.0[i] < b.0[i] {
            proof {
                assert(a.0@[i as int] < b.0@[i as int]);
                assert(bytes_below(a.0@, b.0@));
                lemma_bytes_below_irreflexive(a.0@, b.0@);
            }
            return core::cmp::Ordering::Less;
        }
        if a.0[i] > b.0[i] {
            proof {
                assert(b.0@[i as int] < a.0@[i as int]);
                assert(bytes_below(b.0@, a.0@));
                lemma_bytes_below_irreflexive(b.0@, a.0@);
            }
            return core::cmp::Ordering::Greater;
        }
        i = i + 1;
    }
    proof {
        assert(a.0@ =~= b.0@);
        if bytes_below(a.0@, b.0@) {
            lemma_bytes_below_irreflexive(a.0@, b.0@);
        }
    }
    core::cmp::Ordering::Equal
}

/// `s` with `a` added, unless it is already there.
pub(crate) fn add_attester(s: &mut Vec<Name>, a: Name)
    requires
        old(s)@.no_duplicates(),
    ensures
        final(s)@ == with_attester(old(s)@, a),
        final(s)@.no_duplicates(),
{
    let mut i: usize = 0;
    while i < s.len()
        invariant
            i <= s@.len(),
            s@ == old(s)@,
            s@.no_duplicates(),
            forall|j: int| 0 <= j < i ==> s@[j] != a,
        decreases s@.len() - i,
    {
        if s[i] == a {
            proof { assert(s@.contains(a)); }
            return;
        }
        i = i + 1;
    }
    proof { assert(!s@.contains(a)); }
    s.push(a);
}

/// Where `position` stops on an entry, every earlier key sorts before `k`.
proof fn lemma_insert_pos(t: KeyTable, k: Seq<u8>, i: int)
    requires
        0 <= i <= t.len(),
        forall|j: int| 0 <= j < i ==> bytes_below(#[trigger] t[j].0, k),
        i == t.len() || !bytes_below(t[i].0, k),
    ensures
        insert_pos(t, k) == i,
    decreases i,
{
    if i > 0 {
        assert forall|j: int| 0 <= j < i - 1 implies bytes_below(#[trigger] t.drop_first()[j].0, k) by {
            assert(t.drop_first()[j] == t[j + 1]);
        }
        lemma_insert_pos(t.drop_first(), k, i - 1);
    }
}

/// Records in `table` that `sender` vouched for `key`.
fn add_to_table(table: &mut Vec<(PublicKey, Vec<Name>)>, sender: Name, key: PublicKey)
    requires
        table_wf(table_view(old(table)@)),
    ensures
        table_view(final(table)@) == attest(table_view(old(table)@), key.0@, sender),
        table_wf(table_view(final(table)@)),
{
    let ghost t = table_view(table@);
    let mut i: usize = 0;
    let mut below = true;
    while i < table.len() && below
        invariant
            i <= table@.len(),
            t == table_view(table@),
            table_wf(t),
            key.0@.len() == 32,
            forall|j: int| 0 <= j < i ==> bytes_below(#[trigger] t[j].0, key.0@),
            !below ==> i < table@.len() && !bytes_below(t[i as int].0, key.0@),
        decreases table@.len() - i + if below { 1int } else { 0int },
    {
        assert(t[i as int] == (table@[i as int].0.0@, table@[i as int].1@));
        match compare_keys(&table[i].0, &key) {
            core::cmp::Ordering::Less => {
                i = i + 1;
            },
            _ => {
                below = false;
            },
        }
    }
    proof {
        lemma_insert_pos(t, key.0@, i as int);
    }
    if i < table.len() && matches!(compare_keys(&table[i].0, &key), core::cmp::Ordering::Equal) {
        assert(t[i as int] == (table@[i as int].0.0@, table@[i as int].1@));
        let mut attesters = table[i].1.clone();
        proof { assert(attesters@ =~= t[i as int].1); }
        add_attester(&mut attesters, sender);
        table.set(i, (key, attesters));
        proof {
            assert(table_view(table@) =~= t.update(i as int, (key.0@, with_attester(t[i as int].1, sender))));
            let u = table_view(table@);
            assert forall|a: int, b: int| 0 <= a < b < u.len() implies bytes_below(#[trigger] u[a].0, #[trigger] u[b].0) by {
                assert(bytes_below(t[a].0, t[b].0));
            }
        }
    } else {
        let mut attesters: Vec<Name> = Vec::new();
        attesters.push(sender);
        proof {
            assert(attesters@ =~= seq![sender]);
            assert(seq![sender].no_duplicates());
            if i < table@.len() {
                assert(t[i as int] == (table@[i as int].0.0@, table@[i as int].1@));
                assert(bytes_below(key.0@, t[i as int].0));
            }
        }
        table.insert(i, (key, attesters));
        proof {
            let u = table_view(table@);
            assert(u =~= t.insert(i as int, (key.0@, seq![sender])));
            assert forall|a: int, b: int| 0 <= a < b < u.len() implies bytes_below(#[trigger] u[a].0, #[trigger] u[b].0) by {
                if b < i {
                    assert(bytes_below(t[a].0, t[b].0));
                } else if b == i {
                    assert(bytes_below(t[a].0, key.0@));
                } else if a == i {
                    if b > i + 1 {
                        assert(bytes_below(t[i as int].0, t[b - 1].0));
                        lemma_bytes_below_transitive(key.0@, t[i as int].0, t[b - 1].0);
                    }
                } else if a < i {
                    assert(bytes_below(t[a].0, t[b - 1].0));
                } else {
                    assert(bytes_below(t[a - 1].0, t[b - 1].0));
                }
            }
            assert forall|a: int| 0 <= a < u.len() implies (#[trigger] u[a]).0.len() == 32 && u[a].1.no_duplicates() by {
                if a < i {
                    assert(u[a] == t[a]);
                } else if a > i {
                    assert(u[a] == t[a - 1]);
                }
            }
        }
    }
}

} // verus!
