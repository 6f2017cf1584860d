use vstd::prelude::*;
use std::collections::HashMap;
use crate::error::ReactiveError;

verus! {

broadcast use vstd::std_specs::hash::group_hash_axioms;

/// No value occurs twice.
pub open spec fn distinct(s: Seq<u64>) -> bool {
    forall|i: int, j: int| 0 <= i < s.len() && 0 <= j < s.len() && i != j ==> s[i] != s[j]
}

/// Items of the first `n` entries whose key is absent from `new_keys`, in
/// their old order.
pub open spec fn departed(keys: Seq<u64>, items: Seq<u64>, new_keys: Seq<u64>, n: int) -> Seq<
    u64,
>
    decreases n,
{
    if n <= 0 {
        Seq::empty()
    } else {
        let rest = departed(keys, items, new_keys, n - 1);
        if new_keys.contains(keys[n - 1]) {
            rest
        } else {
            rest.push(items[n - 1])
        }
    }
}

/// Keys among the first `n` of `new_keys` that `old_keys` lacks, in order.
pub open spec fn arrived(old_keys: Seq<u64>, new_keys: Seq<u64>, n: int) -> Seq<u64>
    decreases n,
{
    if n <= 0 {
        Seq::empty()
    } else {
        let rest = arrived(old_keys, new_keys, n - 1);
        if old_keys.contains(new_keys[n - 1]) {
            rest
        } else {
            rest.push(new_keys[n - 1])
        }
    }
}

proof fn lemma_departed_distinct(keys: Seq<u64>, items: Seq<u64>, new_keys: Seq<u64>, n: int)
    requires
        distinct(items),
        0 <= n <= items.len(),
    ensures
        distinct(departed(keys, items, new_keys, n)),
        forall|x: int|
            0 <= x < departed(keys, items, new_keys, n).len() ==> exists|i: int|
                0 <= i < n && items[i] == #[trigger] departed(keys, items, new_keys, n)[x],
    decreases n,
{
    if n > 0 {
        lemma_departed_distinct(keys, items, new_keys, n - 1);
        let rest = departed(keys, items, new_keys, n - 1);
        if !new_keys.contains(keys[n - 1]) {
            let d = rest.push(items[n - 1]);
            assert forall|x: int| 0 <= x < rest.len() implies d[x] != items[n - 1] by {
                let i = choose|i: int| 0 <= i < n - 1 && items[i] == rest[x];
                assert(items[i] != items[n - 1]);
            }
            assert forall|x: int| 0 <= x < d.len() implies exists|i: int|
                0 <= i < n && items[i] == #[trigger] d[x] by {
                if x == rest.len() {
                    assert(items[n - 1] == d[x]);
                } else {
                    let i = choose|i: int| 0 <= i < n - 1 && items[i] == rest[x];
                    assert(items[i] == d[x]);
                }
            }
        }
    }
}

/// The edits one reconciliation pass made.
#[derive(Debug)]
pub struct Patch {
    /// Sub-states whose key left the sequence, in their old order; each is
    /// to be disposed once.
    pub disposed: Vec<u64>,
    /// Keys that entered the sequence, in their new order; each got a fresh
    /// sub-state.
    pub created: Vec<u64>,
}

/// A keyed sequence and the sub-state identity owned by each of its items.
/// Identities are handed out from a counter and never reused.
#[derive(Debug)]
pub struct KeyedList {
    pub keys: Vec<u64>,
    pub items: Vec<u64>,
    pub next_id: u64,
}

impl KeyedList {
    pub open spec fn wf(self) -> bool {
        &&& self.keys@.len() == self.items@.len()
        &&& distinct(self.keys@)
        &&& distinct(self.items@)
        &&& forall|i: int| 0 <= i < self.items@.len() ==> self.items@[i] < self.next_id
    }

    pub fn new() -> (l: KeyedList)
        ensures
            l.wf(),
            l.keys@.len() == 0,
            l.next_id == 0,
    {
        KeyedList { keys: Vec::new(), items: Vec::new(), next_id: 0 }
    }

    pub fn len(&self) -> (n: usize)
        ensures
            n == self.keys@.len(),
    {
        self.keys.len()
    }

    /// Key and sub-state of the item at `pos`.
    pub fn entry(&self, pos: usize) -> (e: (u64, u64))
        requires
            self.wf(),
            pos < self.keys@.len(),
        ensures
            e == (self.keys@[pos as int], self.items@[pos as int]),
    {
        (self.keys[pos], self.items[pos])
    }

    /// Brings the list to the snapshot `new_keys`. Keys present before and
    /// after keep their sub-state, whatever their new position; new keys get
    /// fresh sub-states; departed keys' sub-states are reported for
    /// disposal. A snapshot with a repeated key is refused and the list is
    /// left as it was.
    pub fn reconcile(&mut self, new_keys: &Vec<u64>) -> (r: Result<Patch, ReactiveError>)
        requires
            old(self).wf(),
            old(self).next_id + new_keys@.len() <= u64::MAX,
        ensures
            final(self).wf(),
            r is Ok <==> distinct(new_keys@),
            !distinct(new_keys@) <==> r == Err::<Patch, ReactiveError>(ReactiveError::DuplicateKey),
            !distinct(new_keys@) ==> *final(self) == *old(self),
            r is Ok ==> {
                let p = r->Ok_0;
                &&& final(self).keys@ == new_keys@
                &&& final(self).next_id == old(self).next_id + p.created@.len()
                &&& forall|i: int, j: int|
                    0 <= i < old(self).keys@.len() && 0 <= j < new_keys@.len()
                        && old(self).keys@[i] == new_keys@[j]
                        ==> final(self).items@[j] == old(self).items@[i]
                &&& forall|j: int|
                    0 <= j < new_keys@.len() && !old(self).keys@.contains(new_keys@[j])
                        ==> old(self).next_id <= final(self).items@[j] < final(self).next_id
                &&& p.disposed@ == departed(
                    old(self).keys@,
                    old(self).items@,
                    new_keys@,
                    old(self).keys@.len() as int,
                )
                &&& p.created@ == arrived(old(self).keys@, new_keys@, new_keys@.len() as int)
                &&& distinct(p.disposed@)
            },
    {
        let n = new_keys.len();
        // Position of each key of the new snapshot; a second sighting is a
        // duplicate.
        let mut seen: HashMap<u64, usize> = HashMap::new();
        let mut j: usize = 0;
        while j < n
            invariant
                self.wf(),
                n == new_keys@.len(),
                j <= n,
                forall|k: u64|
                    #[trigger] seen@.contains_key(k) ==> seen@[k] < j && new_keys@[seen@[k] as int]
                        == k,
                forall|p: int| 0 <= p < j ==> #[trigger] seen@.contains_key(new_keys@[p]),
                forall|p: int, q: int|
                    0 <= p < j && 0 <= q < j && p != q ==> new_keys@[p] != new_keys@[q],
            decreases n - j,
        {
            let k = new_keys[j];
            match seen.insert(k, j) {
                Some(prev) => {
                    assert(new_keys@[prev as int] == new_keys@[j as int]);
                    return Err(ReactiveError::DuplicateKey);
                },
                None => {},
            }
            j = j + 1;
        }
        // Position of each key of the old snapshot.
        let m = self.keys.len();
        let mut at: HashMap<u64, usize> = HashMap::new();
        let mut disposed: Vec<u64> = Vec::new();
        let mut i: usize = 0;
        while i < m
            invariant
                m == self.keys@.len(),
                self.wf(),
                i <= m,
                n == new_keys@.len(),
                forall|k: u64|
                    #[trigger] seen@.contains_key(k) ==> seen@[k] < n && new_keys@[seen@[k] as int]
                        == k,
                forall|p: int| 0 <= p < n ==> #[trigger] seen@.contains_key(new_keys@[p]),
                forall|k: u64|
                    #[trigger] at@.contains_key(k) ==> at@[k] < i && self.keys@[at@[k] as int]
                        == k,
                forall|p: int| 0 <= p < i ==> #[trigger] at@.contains_key(self.keys@[p]),
                disposed@ == departed(self.keys@, self.items@, new_keys@, i as int),
            decreases m - i,
        {
            let k = self.keys[i];
            at.insert(k, i);
            if !seen.contains_key(&k) {
                disposed.push(self.items[i]);
                assert(!new_keys@.contains(k));
            } else {
                assert(new_keys@[seen@[k] as int] == k);
            }
            i = i + 1;
        }
        let mut items: Vec<u64> = Vec::new();
        let mut created: Vec<u64> = Vec::new();
        let mut next = self.next_id;
        let mut j: usize = 0;
        while j < n
            invariant
                m == self.keys@.len(),
                self.wf(),
                n == new_keys@.len(),
                j <= n,
                self.next_id + n <= u64::MAX,
                self.next_id <= next <= self.next_id + j,
                forall|p: int, q: int|
                    0 <= p < n && 0 <= q < n && p != q ==> new_keys@[p] != new_keys@[q],
                forall|k: u64|
                    #[trigger] at@.contains_key(k) ==> at@[k] < m && self.keys@[at@[k] as int]
                        == k,
                forall|p: int| 0 <= p < m ==> #[trigger] at@.contains_key(self.keys@[p]),
                items@.len() == j,
                forall|p: int|
                    0 <= p < j ==> {
                        ||| (at@.contains_key(new_keys@[p]) && items@[p] == self.items@[at@[new_keys@[p]] as int])
                        ||| (!at@.contains_key(new_keys@[p]) && self.next_id <= items@[p] < next)
                    },
                distinct(items@),
                forall|p: int| 0 <= p < j ==> items@[p] < next,
                created@ == arrived(self.keys@, new_keys@, j as int),
                next == self.next_id + created@.len(),
            decreases n - j,
        {
            let k = new_keys[j];
            match at.get(&k) {
                Some(pi) => {
                    let id = self.items[*pi];
                    proof {
                        assert forall|p: int| 0 <= p < j implies items@[p] != id by {
                            if at@.contains_key(new_keys@[p]) {
                                assert(new_keys@[p] != k);
                                assert(at@[new_keys@[p]] != *pi);
                            }
                        }
                        assert(self.keys@.contains(k));
                    }
                    items.push(id);
                },
                None => {
                    proof {
                        assert(!self.keys@.contains(k)) by {
                            if self.keys@.contains(k) {
                                let p = choose|p: int| 0 <= p < m && self.keys@[p] == k;
                                assert(at@.contains_key(self.keys@[p]));
                            }
                        }
                    }
                    items.push(next);
                    created.push(k);
                    next = next + 1;
                },
            }
            j = j + 1;
        }
        proof {
            assert forall|a: int, b: int|
                0 <= a < m && 0 <= b < n && self.keys@[a] == new_keys@[b]
                    implies items@[b] == self.items@[a] by {
                assert(at@.contains_key(self.keys@[a]));
            }
            assert forall|b: int|
                0 <= b < n && !self.keys@.contains(new_keys@[b])
                    implies self.next_id <= items@[b] < next by {
                if at@.contains_key(new_keys@[b]) {
                    assert(self.keys@[at@[new_keys@[b]] as int] == new_keys@[b]);
                }
            }
        }
        proof {
            lemma_departed_distinct(self.keys@, self.items@, new_keys@, m as int);
        }
        self.keys = new_keys.clone();
        self.items = items;
        self.next_id = next;
        Ok(Patch { disposed, created })
    }
}

} // verus!
