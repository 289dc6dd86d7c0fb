use vstd::prelude::*;
use crate::key::ContactKey;
use crate::sweep::{lemma_pair_index, pair_count, pairs, sweep_before};

verus! {

/// No key occurs twice in `s`.
pub open spec fn keys_unique<C>(s: Seq<(ContactKey, C)>) -> bool {
    forall|i: int, j: int| 0 <= i < j < s.len() ==> #[trigger] s[i].0 != #[trigger] s[j].0
}

/// Some entry of `s` has key `k`.
pub open spec fn has_key<C>(s: Seq<(ContactKey, C)>, k: ContactKey) -> bool {
    exists|i: int| 0 <= i < s.len() && #[trigger] s[i].0 == k
}

/// Where the entry with key `k` stands in `s`, if there is one.
pub open spec fn slot<C>(s: Seq<(ContactKey, C)>, k: ContactKey) -> Option<int> {
    if has_key(s, k) {
        Some(choose|i: int| 0 <= i < s.len() && #[trigger] s[i].0 == k)
    } else {
        None
    }
}

/// In a sequence with unique keys, the entry with key `k` stands at `i`.
pub proof fn lemma_slot_unique<C>(s: Seq<(ContactKey, C)>, k: ContactKey, i: int)
    requires
        keys_unique(s),
        0 <= i < s.len(),
        s[i].0 == k,
    ensures
        slot(s, k) == Some(i),
{
    assert(has_key(s, k));
}

/// The contact that `s` holds for key `k`, if any.
pub open spec fn entry<C>(s: Seq<(ContactKey, C)>, k: ContactKey) -> Option<C> {
    match slot(s, k) {
        Some(i) => Some(s[i].1),
        None => None,
    }
}

/// `after` holds for key `k` what one detection result `found` asks for,
/// given that `before` was the cache when it came: nothing if the pair is
/// apart; the found contact if the pair is new; else the merge of the old
/// contact with the found one.
pub open spec fn detected<C, F: Fn(&C, C) -> C>(
    before: Seq<(ContactKey, C)>,
    after: Seq<(ContactKey, C)>,
    k: ContactKey,
    found: Option<C>,
    merge: F,
) -> bool {
    match found {
        None => entry(after, k) is None,
        Some(c) => match entry(before, k) {
            None => entry(after, k) == Some(c),
            Some(o) => entry(after, k) is Some && merge.ensures((&o, c), entry(after, k)->0),
        },
    }
}

proof fn lemma_entry_at<C>(s: Seq<(ContactKey, C)>, i: int)
    requires
        keys_unique(s),
        0 <= i < s.len(),
    ensures
        slot(s, s[i].0) == Some(i),
        entry(s, s[i].0) == Some(s[i].1),
{
    lemma_slot_unique(s, s[i].0, i);
}

proof fn lemma_entry_push<C>(s: Seq<(ContactKey, C)>, k: ContactKey, c: C)
    requires
        keys_unique(s),
        !has_key(s, k),
    ensures
        keys_unique(s.push((k, c))),
        forall|k2: ContactKey|
            #[trigger] entry(s.push((k, c)), k2) == if k2 == k {
                Some(c)
            } else {
                entry(s, k2)
            },
{
    let t = s.push((k, c));
    assert forall|i: int, j: int| 0 <= i < j < t.len() implies #[trigger] t[i].0 != #[trigger] t[j].0 by {
        if j == s.len() {
            assert(s[i].0 == t[i].0);
        }
    }
    assert forall|k2: ContactKey| #[trigger] entry(t, k2) == if k2 == k {
        Some(c)
    } else {
        entry(s, k2)
    } by {
        if k2 == k {
            lemma_entry_at(t, s.len() as int);
        } else if has_key(s, k2) {
            let i = slot(s, k2)->0;
            lemma_entry_at(s, i);
            assert(t[i] == s[i]);
            lemma_entry_at(t, i);
        } else {
            if has_key(t, k2) {
                let i = choose|i: int| 0 <= i < t.len() && #[trigger] t[i].0 == k2;
                assert(s[i].0 == k2);
            }
        }
    }
}

proof fn lemma_entry_update<C>(s: Seq<(ContactKey, C)>, i: int, m: C)
    requires
        keys_unique(s),
        0 <= i < s.len(),
    ensures
        keys_unique(s.update(i, (s[i].0, m))),
        forall|k2: ContactKey|
            #[trigger] entry(s.update(i, (s[i].0, m)), k2) == if k2 == s[i].0 {
                Some(m)
            } else {
                entry(s, k2)
            },
{
    let k = s[i].0;
    let t = s.update(i, (k, m));
    assert forall|a: int, b: int| 0 <= a < b < t.len() implies #[trigger] t[a].0 != #[trigger] t[b].0 by {
        assert(t[a].0 == s[a].0 && t[b].0 == s[b].0);
    }
    assert forall|k2: ContactKey| #[trigger] entry(t, k2) == if k2 == k {
        Some(m)
    } else {
        entry(s, k2)
    } by {
        if k2 == k {
            lemma_entry_at(t, i);
        } else if has_key(s, k2) {
            let j = slot(s, k2)->0;
            lemma_entry_at(s, j);
            assert(t[j] == s[j]);
            lemma_entry_at(t, j);
        } else {
            if has_key(t, k2) {
                let j = choose|j: int| 0 <= j < t.len() && #[trigger] t[j].0 == k2;
                assert(s[j].0 == k2);
            }
        }
    }
}

proof fn lemma_entry_remove<C>(s: Seq<(ContactKey, C)>, i: int)
    requires
        keys_unique(s),
        0 <= i < s.len(),
    ensures
        keys_unique(s.remove(i)),
        forall|k2: ContactKey|
            #[trigger] entry(s.remove(i), k2) == if k2 == s[i].0 {
                None
            } else {
                entry(s, k2)
            },
{
    let k = s[i].0;
    let t = s.remove(i);
    assert forall|a: int, b: int| 0 <= a < b < t.len() implies #[trigger] t[a].0 != #[trigger] t[b].0 by {
        let a0 = if a < i { a } else { a + 1 };
        let b0 = if b < i { b } else { b + 1 };
        assert(t[a] == s[a0] && t[b] == s[b0]);
    }
    assert forall|k2: ContactKey| #[trigger] entry(t, k2) == if k2 == k {
        None
    } else {
        entry(s, k2)
    } by {
        if has_key(t, k2) {
            let j = choose|j: int| 0 <= j < t.len() && #[trigger] t[j].0 == k2;
            let j0 = if j < i { j } else { j + 1 };
            assert(t[j] == s[j0]);
            lemma_entry_at(s, j0);
            lemma_entry_at(t, j);
        } else if has_key(s, k2) && k2 != k {
            let j0 = slot(s, k2)->0;
            lemma_entry_at(s, j0);
            let j = if j0 < i { j0 } else { j0 - 1 };
            assert(t[j] == s[j0]);
        }
    }
}

/// `a` and `b` are both held in `s`, `a` at the smaller place.
pub open spec fn held_before<C>(s: Seq<(ContactKey, C)>, a: ContactKey, b: ContactKey) -> bool {
    &&& has_key(s, a)
    &&& has_key(s, b)
    &&& slot(s, a)->0 < slot(s, b)->0
}

/// The place `o` after the entry at `i` was removed.
pub open spec fn shifted(o: Option<int>, i: int) -> Option<int> {
    match o {
        Some(j) => Some(if j < i { j } else { j - 1 }),
        None => None,
    }
}

proof fn lemma_slot_push<C>(s: Seq<(ContactKey, C)>, k: ContactKey, c: C)
    requires
        keys_unique(s),
        !has_key(s, k),
    ensures
        forall|k2: ContactKey|
            #[trigger] slot(s.push((k, c)), k2) == if k2 == k {
                Some(s.len() as int)
            } else {
                slot(s, k2)
            },
{
    lemma_entry_push(s, k, c);
    let t = s.push((k, c));
    assert forall|k2: ContactKey| #[trigger] slot(t, k2) == if k2 == k {
        Some(s.len() as int)
    } else {
        slot(s, k2)
    } by {
        if k2 == k {
            lemma_entry_at(t, s.len() as int);
        } else if has_key(s, k2) {
            let i = slot(s, k2)->0;
            lemma_entry_at(s, i);
            assert(t[i] == s[i]);
            lemma_entry_at(t, i);
        } else {
            if has_key(t, k2) {
                let i = choose|i: int| 0 <= i < t.len() && #[trigger] t[i].0 == k2;
                assert(s[i].0 == k2);
            }
        }
    }
}

proof fn lemma_slot_update<C>(s: Seq<(ContactKey, C)>, i: int, m: C)
    requires
        keys_unique(s),
        0 <= i < s.len(),
    ensures
        forall|k2: ContactKey| #[trigger] slot(s.update(i, (s[i].0, m)), k2) == slot(s, k2),
{
    lemma_entry_update(s, i, m);
    let t = s.update(i, (s[i].0, m));
    assert forall|k2: ContactKey| #[trigger] slot(t, k2) == slot(s, k2) by {
        if has_key(s, k2) {
            let j = slot(s, k2)->0;
            lemma_entry_at(s, j);
            assert(t[j].0 == s[j].0);
            lemma_entry_at(t, j);
        } else {
            if has_key(t, k2) {
                let j = choose|j: int| 0 <= j < t.len() && #[trigger] t[j].0 == k2;
                assert(s[j].0 == k2);
            }
        }
    }
}

proof fn lemma_slot_remove<C>(s: Seq<(ContactKey, C)>, i: int)
    requires
        keys_unique(s),
        0 <= i < s.len(),
    ensures
        forall|k2: ContactKey|
            #[trigger] slot(s.remove(i), k2) == if k2 == s[i].0 {
                None
            } else {
                shifted(slot(s, k2), i)
            },
{
    lemma_entry_remove(s, i);
    let k = s[i].0;
    let t = s.remove(i);
    assert forall|k2: ContactKey| #[trigger] slot(t, k2) == if k2 == k {
        None
    } else {
        shifted(slot(s, k2), i)
    } by {
        if has_key(t, k2) {
            let j = choose|j: int| 0 <= j < t.len() && #[trigger] t[j].0 == k2;
            let j0 = if j < i { j } else { j + 1 };
            assert(t[j] == s[j0]);
            lemma_entry_at(s, j0);
            lemma_entry_at(t, j);
        } else if has_key(s, k2) && k2 != k {
            let j0 = slot(s, k2)->0;
            lemma_entry_at(s, j0);
            let j = if j0 < i { j0 } else { j0 - 1 };
            assert(t[j] == s[j0]);
        }
    }
}

/// Warm start: when the cache already holds a contact for a pair and the pair
/// is detected touching again, the entry it then holds is the merge of the
/// contact held so far (with all that the solver accumulated in it) and the
/// newly found one, not the newly found contact alone.
pub proof fn lemma_warm_start<C, F: Fn(&C, C) -> C>(
    before: Seq<(ContactKey, C)>,
    after: Seq<(ContactKey, C)>,
    k: ContactKey,
    held: C,
    c: C,
    merge: F,
)
    requires
        entry(before, k) == Some(held),
        detected(before, after, k, Some(c), merge),
    ensures
        has_key(after, k),
        merge.ensures((&held, c), entry(after, k)->0),
{
}

/// Eviction: once a detection pass finds a pair apart, the cache holds no
/// entry for it, whatever it held before.
pub proof fn lemma_evicted<C, F: Fn(&C, C) -> C>(
    before: Seq<(ContactKey, C)>,
    after: Seq<(ContactKey, C)>,
    k: ContactKey,
    merge: F,
)
    requires
        detected(before, after, k, None, merge),
    ensures
        !has_key(after, k),
{
    if has_key(after, k) {
        assert(slot(after, k) is Some);
    }
}

/// What one detection result did to the cache entry of its pair.
#[derive(Debug, Clone, Copy, PartialEq, Eq, Structural)]
pub enum Lifecycle {
    /// The pair touches and had no entry: a fresh contact was added.
    Fresh,
    /// The pair touches again: the new contact replaced the old one in place,
    /// inheriting what the merge carried over.
    Warm,
    /// The pair no longer touches: its entry was removed.
    Evicted,
    /// The pair does not touch and had no entry: nothing changed.
    Apart,
}

/// The persistent contact cache: one contact for each pair of bodies that
/// touched in the last step, kept in the order in which the pairs first came
/// into contact, so that solver sweeps over it are deterministic.
///
/// Its view is the sequence of entries, each a key and its contact.
#[derive(Debug)]
pub struct ContactCache<C> {
    keys: Vec<ContactKey>,
    contacts: Vec<C>,
}

impl<C> View for ContactCache<C> {
    type V = Seq<(ContactKey, C)>;

    closed spec fn view(&self) -> Seq<(ContactKey, C)> {
        Seq::new(self.keys@.len(), |i: int| (self.keys@[i], self.contacts@[i]))
    }
}

impl<C> ContactCache<C> {
    /// The cache's internal invariant: one contact for each key, keys unique.
    pub closed spec fn wf(&self) -> bool {
        &&& self.keys@.len() == self.contacts@.len()
        &&& forall|i: int, j: int|
            0 <= i < j < self.keys@.len() ==> #[trigger] self.keys@[i] != #[trigger] self.keys@[j]
    }

    /// An empty cache.
    pub fn new() -> (r: ContactCache<C>)
        ensures
            r.wf(),
            r@ == Seq::<(ContactKey, C)>::empty(),
    {
        let r = ContactCache { keys: Vec::new(), contacts: Vec::new() };
        assert(r@ =~= Seq::<(ContactKey, C)>::empty());
        r
    }

    /// A well-formed cache has unique keys.
    pub proof fn lemma_wf_unique(&self)
        requires
            self.wf(),
        ensures
            keys_unique(self@),
    {
        assert forall|i: int, j: int| 0 <= i < j < self@.len() implies #[trigger] self@[i].0
            != #[trigger] self@[j].0 by {
            assert(self@[i].0 == self.keys@[i]);
            assert(self@[j].0 == self.keys@[j]);
        }
    }

    /// Number of contacts held.
    pub fn len(&self) -> (r: usize)
        requires
            self.wf(),
        ensures
            r == self@.len(),
    {
        self.keys.len()
    }

    /// The key of the `i`-th contact.
    pub fn key_at(&self, i: usize) -> (r: ContactKey)
        requires
            self.wf(),
            i < self@.len(),
        ensures
            r == self@[i as int].0,
    {
        self.keys[i]
    }

    /// The `i`-th contact.
    pub fn contact_at(&self, i: usize) -> (r: &C)
        requires
            self.wf(),
            i < self@.len(),
        ensures
            *r == self@[i as int].1,
    {
        &self.contacts[i]
    }

    /// Where the contact with key `k` stands, if the cache holds one.
    pub fn find(&self, k: ContactKey) -> (r: Option<usize>)
        requires
            self.wf(),
        ensures
            match r {
                Some(i) => slot(self@, k) == Some(i as int),
                None => slot(self@, k) is None,
            },
    {
        proof {
            self.lemma_wf_unique();
        }
        let mut i: usize = 0;
        while i < self.keys.len()
            invariant
                self.wf(),
                keys_unique(self@),
                i <= self@.len(),
                forall|j: int| 0 <= j < i ==> (#[trigger] self@[j]).0 != k,
            decreases self@.len() - i,
        {
            if self.keys[i] == k {
                proof {
                    lemma_slot_unique(self@, k, i as int);
                }
                return Some(i);
            }
            i = i + 1;
        }
        None
    }

    /// The cache holds a contact with key `k`.
    pub fn contains(&self, k: ContactKey) -> (r: bool)
        requires
            self.wf(),
        ensures
            r == has_key(self@, k),
    {
        self.find(k).is_some()
    }

    /// The contact with key `k`, if the cache holds one.
    pub fn get(&self, k: ContactKey) -> (r: Option<&C>)
        requires
            self.wf(),
        ensures
            match slot(self@, k) {
                Some(i) => r == Some(&self@[i].1),
                None => r is None,
            },
    {
        match self.find(k) {
            Some(i) => Some(&self.contacts[i]),
            None => None,
        }
    }

    /// The `i`-th contact, to be updated in place by a solver sweep. Its key
    /// and every other entry stay as they are.
    pub fn contact_at_mut(&mut self, i: usize) -> (r: &mut C)
        requires
            old(self).wf(),
            i < old(self)@.len(),
        ensures
            *r == old(self)@[i as int].1,
            final(self).wf(),
            final(self)@ == old(self)@.update(i as int, (old(self)@[i as int].0, *final(r))),
    {
        &mut self.contacts[i]
    }

    /// Applies one detection result for the pair with key `k`.
    ///
    /// - `found` is a contact and the pair had none: it is appended (`Fresh`).
    /// - `found` is a contact and the pair had one: the entry stays where it
    ///   is and becomes `merge(&old, found)` (`Warm`).
    /// - `found` is nothing and the pair had a contact: the entry is removed,
    ///   the others keep their order (`Evicted`).
    /// - otherwise nothing changes (`Apart`).
    pub fn refresh<F: Fn(&C, C) -> C>(&mut self, k: ContactKey, found: Option<C>, merge: &F) -> (r:
        Lifecycle)
        requires
            old(self).wf(),
            forall|a: &C, b: C| merge.requires((a, b)),
        ensures
            final(self).wf(),
            match found {
                Some(c) => match slot(old(self)@, k) {
                    Some(i) => {
                        &&& r == Lifecycle::Warm
                        &&& final(self)@.len() == old(self)@.len()
                        &&& final(self)@[i].0 == k
                        &&& merge.ensures((&old(self)@[i].1, c), final(self)@[i].1)
                        &&& forall|j: int|
                            0 <= j < old(self)@.len() && j != i ==> #[trigger] final(self)@[j]
                                == old(self)@[j]
                    },
                    None => r == Lifecycle::Fresh && final(self)@ == old(self)@.push((k, c)),
                },
                None => match slot(old(self)@, k) {
                    Some(i) => r == Lifecycle::Evicted && final(self)@ == old(self)@.remove(i),
                    None => r == Lifecycle::Apart && final(self)@ == old(self)@,
                },
            },
            detected(old(self)@, final(self)@, k, found, *merge),
            forall|k2: ContactKey| k2 != k ==> #[trigger] entry(final(self)@, k2) == entry(old(self)@, k2),
    {
        proof {
            old(self).lemma_wf_unique();
        }
        let at = self.find(k);
        match found {
            Some(c) => match at {
                Some(i) => {
                    let m = merge(&self.contacts[i], c);
                    self.contacts[i] = m;
                    proof {
                        assert(self@ =~= old(self)@.update(i as int, (k, m)));
                        lemma_entry_update(old(self)@, i as int, m);
                        lemma_entry_at(old(self)@, i as int);
                    }
                    Lifecycle::Warm
                },
                None => {
                    proof {
                        assert forall|j: int| 0 <= j < self.keys@.len() implies self.keys@[j] != k by {
                            assert(self@[j].0 == self.keys@[j]);
                        }
                    }
                    self.keys.push(k);
                    self.contacts.push(c);
                    assert(self@ =~= old(self)@.push((k, c)));
                    proof {
                        lemma_entry_push(old(self)@, k, c);
                    }
                    Lifecycle::Fresh
                },
            },
            None => match at {
                Some(i) => {
                    self.keys.remove(i);
                    self.contacts.remove(i);
                    assert(self@ =~= old(self)@.remove(i as int));
                    proof {
                        lemma_entry_remove(old(self)@, i as int);
                    }
                    Lifecycle::Evicted
                },
                None => Lifecycle::Apart,
            },
        }
    }

    /// Applies a whole detection pass: `found[p]` is what the narrow phase
    /// gave for the pair with key `keys[p]`, and the pairs are refreshed in
    /// that order. Afterwards every pair of the pass holds what its result
    /// asks for (see `detected`), and the entries of other pairs are as they
    /// were.
    pub fn detect<F: Fn(&C, C) -> C>(
        &mut self,
        keys: &Vec<ContactKey>,
        found: Vec<Option<C>>,
        merge: &F,
    )
        requires
            old(self).wf(),
            keys@.len() == found@.len(),
            forall|p: int, q: int|
                0 <= p < q < keys@.len() ==> #[trigger] keys@[p] != #[trigger] keys@[q],
            forall|a: &C, b: C| merge.requires((a, b)),
        ensures
            final(self).wf(),
            forall|p: int|
                0 <= p < keys@.len() ==> detected(
                    old(self)@,
                    final(self)@,
                    #[trigger] keys@[p],
                    found@[p],
                    *merge,
                ),
            forall|k: ContactKey|
                (forall|p: int| 0 <= p < keys@.len() ==> keys@[p] != k) ==> #[trigger] entry(
                    final(self)@,
                    k,
                ) == entry(old(self)@, k),
            forall|a: ContactKey, b: ContactKey|
                has_key(final(self)@, a) && has_key(final(self)@, b) && held_before(old(self)@, a, b)
                    ==> #[trigger] held_before(final(self)@, a, b),
            forall|a: ContactKey, b: ContactKey|
                has_key(old(self)@, a) && has_key(final(self)@, a) && !has_key(old(self)@, b)
                    && has_key(final(self)@, b) ==> #[trigger] held_before(final(self)@, a, b),
            forall|p: int, q: int|
                0 <= p < q < keys@.len() && !has_key(old(self)@, #[trigger] keys@[p]) && has_key(
                    final(self)@,
                    keys@[p],
                ) && !has_key(old(self)@, #[trigger] keys@[q]) && has_key(final(self)@, keys@[q])
                    ==> held_before(final(self)@, keys@[p], keys@[q]),
    {
        let ghost start = self@;
        let ghost results = found@;
        let mut found = found;
        let mut p: usize = 0;
        while p < keys.len()
            invariant
                self.wf(),
                p <= keys@.len(),
                keys@.len() == found@.len(),
                keys@.len() == results.len(),
                forall|a: int, b: int|
                    0 <= a < b < keys@.len() ==> #[trigger] keys@[a] != #[trigger] keys@[b],
                forall|a: &C, b: C| merge.requires((a, b)),
                forall|q: int| p <= q < keys@.len() ==> #[trigger] found@[q] == results[q],
                forall|q: int|
                    0 <= q < p ==> detected(start, self@, #[trigger] keys@[q], results[q], *merge),
                forall|k: ContactKey|
                    (forall|q: int| 0 <= q < p ==> keys@[q] != k) ==> #[trigger] entry(self@, k)
                        == entry(start, k),
                forall|a: ContactKey, b: ContactKey|
                    has_key(self@, a) && has_key(self@, b) && held_before(start, a, b)
                        ==> #[trigger] held_before(self@, a, b),
                forall|a: ContactKey, b: ContactKey|
                    has_key(start, a) && has_key(self@, a) && !has_key(start, b) && has_key(self@, b)
                        ==> #[trigger] held_before(self@, a, b),
                forall|q1: int, q2: int|
                    0 <= q1 < q2 < p && !has_key(start, #[trigger] keys@[q1]) && has_key(
                        self@,
                        keys@[q1],
                    ) && !has_key(start, #[trigger] keys@[q2]) && has_key(self@, keys@[q2])
                        ==> held_before(self@, keys@[q1], keys@[q2]),
            decreases keys@.len() - p,
        {
            let k = keys[p];
            let f = found[p].take();
            let ghost before = self@;
            let ghost fk = f;
            proof {
                self.lemma_wf_unique();
            }
            self.refresh(k, f, merge);
            proof {
                let after = self@;
                match slot(before, k) {
                    Some(i) => match fk {
                        Some(c) => {
                            assert(after =~= before.update(i, (k, after[i].1)));
                            lemma_slot_update(before, i, after[i].1);
                        },
                        None => {
                            lemma_slot_remove(before, i);
                        },
                    },
                    None => match fk {
                        Some(c) => {
                            lemma_slot_push(before, k, c);
                        },
                        None => {},
                    },
                }
                assert(has_key(before, k) == has_key(start, k)) by {
                    assert(entry(before, k) == entry(start, k));
                }
                assert forall|k2: ContactKey| k2 != k implies #[trigger] has_key(after, k2) == has_key(
                    before,
                    k2,
                ) by {
                    assert(entry(after, k2) == entry(before, k2));
                }
                assert forall|a: ContactKey, b: ContactKey|
                    has_key(after, a) && has_key(after, b) && held_before(start, a, b)
                        implies #[trigger] held_before(after, a, b) by {
                    assert(has_key(after, a) == has_key(before, a) || a == k);
                    assert(held_before(before, a, b));
                }
                assert forall|a: ContactKey, b: ContactKey|
                    has_key(start, a) && has_key(after, a) && !has_key(start, b) && has_key(after, b)
                        implies #[trigger] held_before(after, a, b) by {
                    if b != k {
                        assert(held_before(before, a, b));
                    }
                }
                assert forall|q1: int, q2: int|
                    0 <= q1 < q2 < p + 1 && !has_key(start, #[trigger] keys@[q1]) && has_key(
                        after,
                        keys@[q1],
                    ) && !has_key(start, #[trigger] keys@[q2]) && has_key(after, keys@[q2])
                        implies held_before(after, keys@[q1], keys@[q2]) by {
                    if q2 < p {
                        assert(held_before(before, keys@[q1], keys@[q2]));
                    }
                }
                assert(entry(before, k) == entry(start, k));
                assert forall|q: int| 0 <= q < p + 1 implies detected(
                    start,
                    self@,
                    #[trigger] keys@[q],
                    results[q],
                    *merge,
                ) by {
                    if q < p {
                        assert(keys@[q] != k);
                        assert(entry(self@, keys@[q]) == entry(before, keys@[q]));
                    }
                }
                assert forall|k2: ContactKey|
                    (forall|q: int| 0 <= q < p + 1 ==> keys@[q] != k2) implies #[trigger] entry(
                    self@,
                    k2,
                ) == entry(start, k2) by {
                    assert(keys@[p as int] != k2);
                }
            }
            p = p + 1;
        }
    }

    /// The detection phase of a step over `n` bodies: `found` holds the
    /// narrow-phase result of every pair in the order of `pairs(n)`, and the
    /// pair `(i, j)`, `j < i`, is refreshed with `found[pair_count(i) + j]`.
    /// Entries of other keys are left as they were.
    pub fn sweep<F: Fn(&C, C) -> C>(&mut self, n: usize, found: Vec<Option<C>>, merge: &F)
        requires
            old(self).wf(),
            found@.len() == pair_count(n as int),
            forall|a: &C, b: C| merge.requires((a, b)),
        ensures
            final(self).wf(),
            forall|i: int, j: int|
                0 <= j < i < n ==> #[trigger] detected(
                    old(self)@,
                    final(self)@,
                    ContactKey(i as usize, j as usize),
                    found@[pair_count(i) + j],
                    *merge,
                ),
            forall|k: ContactKey|
                !(k.wf() && k.0 < n) ==> #[trigger] entry(final(self)@, k) == entry(old(self)@, k),
            forall|a: ContactKey, b: ContactKey|
                has_key(final(self)@, a) && has_key(final(self)@, b) && held_before(old(self)@, a, b)
                    ==> #[trigger] held_before(final(self)@, a, b),
            forall|a: ContactKey, b: ContactKey|
                has_key(old(self)@, a) && has_key(final(self)@, a) && !has_key(old(self)@, b)
                    && has_key(final(self)@, b) ==> #[trigger] held_before(final(self)@, a, b),
            forall|a: ContactKey, b: ContactKey|
                sweep_before(a, b) && !has_key(old(self)@, a) && has_key(final(self)@, a)
                    && !has_key(old(self)@, b) && has_key(final(self)@, b)
                    ==> #[trigger] held_before(final(self)@, a, b),
    {
        let keys = pairs(n);
        let ghost results = found@;
        self.detect(&keys, found, merge);
        proof {
            assert forall|k: ContactKey| !(k.wf() && k.0 < n) implies #[trigger] entry(self@, k)
                == entry(old(self)@, k) by {
                assert forall|p: int| 0 <= p < keys@.len() implies keys@[p] != k by {
                    assert(keys@[p].wf() && keys@[p].0 < n);
                }
            }
            assert forall|k: ContactKey|
                !has_key(old(self)@, k) && has_key(self@, k) implies exists|p: int|
                0 <= p < keys@.len() && #[trigger] keys@[p] == k by {
                if !(k.wf() && k.0 < n) {
                    assert(entry(self@, k) == entry(old(self)@, k));
                } else {
                    let i = k.0 as int;
                    let j = k.1 as int;
                    lemma_pair_index(i, j, n as int);
                    assert(keys@[pair_count(i) + j] == k);
                }
            }
            assert forall|a: ContactKey, b: ContactKey|
                sweep_before(a, b) && !has_key(old(self)@, a) && has_key(self@, a) && !has_key(
                    old(self)@,
                    b,
                ) && has_key(self@, b) implies #[trigger] held_before(self@, a, b) by {
                let p = choose|p: int| 0 <= p < keys@.len() && #[trigger] keys@[p] == a;
                let q = choose|q: int| 0 <= q < keys@.len() && #[trigger] keys@[q] == b;
                if q < p {
                    assert(sweep_before(keys@[q], keys@[p]));
                } else if p < q {
                    assert(held_before(self@, keys@[p], keys@[q]));
                }
            }
            assert forall|i: int, j: int| 0 <= j < i < n implies #[trigger] detected(
                old(self)@,
                self@,
                ContactKey(i as usize, j as usize),
                results[pair_count(i) + j],
                *merge,
            ) by {
                lemma_pair_index(i, j, n as int);
                let p = pair_count(i) + j;
                assert(keys@[p] == ContactKey(i as usize, j as usize));
                assert(detected(old(self)@, self@, keys@[p], results[p], *merge));
            }
        }
    }
}

} // verus!
