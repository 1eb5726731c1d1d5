use vstd::prelude::*;

verus! {

/// True iff `s` is in ascending order.
pub open spec fn ascending(s: Seq<i64>) -> bool {
    forall|a: int, b: int| 0 <= a < b < s.len() ==> s[a] <= s[b]
}

/// `s` cut down to its first `cap` entries when it is longer.
pub open spec fn trimmed<A>(s: Seq<A>, cap: nat) -> Seq<A> {
    if s.len() > cap {
        s.take(cap as int)
    } else {
        s
    }
}

/// `(items, ranks)` is what results from putting `e` with rank `k` into
/// `(old_items, old_ranks)` before the first entry ranked `k` or more, then
/// cutting the result down to `cap` entries.
pub open spec fn placed<T>(
    old_items: Seq<T>,
    old_ranks: Seq<i64>,
    items: Seq<T>,
    ranks: Seq<i64>,
    e: T,
    k: i64,
    cap: nat,
) -> bool {
    exists|i: int|
        0 <= i <= old_ranks.len() && (forall|j: int| 0 <= j < i ==> #[trigger] old_ranks[j] < k)
            && (forall|j: int| i <= j < old_ranks.len() ==> k <= #[trigger] old_ranks[j]) && items
            == trimmed(old_items.insert(i, e), cap) && ranks == trimmed(old_ranks.insert(i, k), cap)
}

/// Putting `k` before the first rank of `k` or more keeps ranks ascending.
proof fn lemma_insert_ascending(s: Seq<i64>, i: int, k: i64)
    requires
        ascending(s),
        0 <= i <= s.len(),
        forall|j: int| 0 <= j < i ==> #[trigger] s[j] < k,
        forall|j: int| i <= j < s.len() ==> k <= #[trigger] s[j],
    ensures
        ascending(s.insert(i, k)),
{
    let nr = s.insert(i, k);
    assert forall|a: int, b: int| 0 <= a < b < nr.len() implies nr[a] <= nr[b] by {
        if b < i {
        } else if b == i {
        } else if a < i {
            assert(nr[b] == s[b - 1]);
        } else if a == i {
            assert(nr[b] == s[b - 1]);
        } else {
            assert(nr[a] == s[a - 1]);
            assert(nr[b] == s[b - 1]);
        }
    }
}

/// A bounded collection that keeps the `cap` entries of lowest rank seen so
/// far, in ascending order of rank.
pub struct Top<T> {
    vec: Vec<T>,
    keys: Vec<i64>,
    cap: usize,
}

impl<T> Top<T> {
    /// The retained entries, best (lowest rank) first.
    pub closed spec fn items(&self) -> Seq<T> {
        self.vec@
    }

    /// The rank of each retained entry, index for index.
    pub closed spec fn ranks(&self) -> Seq<i64> {
        self.keys@
    }

    /// Each retained entry beside its rank.
    pub open spec fn pairs(&self) -> Seq<(T, i64)> {
        Seq::new(self.items().len(), |j: int| (self.items()[j], self.ranks()[j]))
    }

    /// The most entries this collection retains.
    pub closed spec fn capacity(&self) -> nat {
        self.cap as nat
    }

    /// One rank per entry, no more entries than the capacity, ranks ascending.
    pub open spec fn wf(&self) -> bool {
        &&& self.items().len() == self.ranks().len()
        &&& self.items().len() <= self.capacity()
        &&& ascending(self.ranks())
    }

    /// An empty collection that will retain at most `cap` entries.
    pub fn new(cap: usize) -> (r: Self)
        ensures
            r.wf(),
            r.items() == Seq::<T>::empty(),
            r.capacity() == cap,
    {
        Top { vec: Vec::with_capacity(cap), keys: Vec::with_capacity(cap), cap }
    }

    /// The retained entries, best first.
    pub fn into_inner(self) -> (r: Vec<T>)
        ensures
            r@ == self.items(),
    {
        self.vec
    }

    /// Puts `element` in place by its rank `key`; when that leaves one entry
    /// too many, the last (highest ranked) entry is dropped.
    pub fn insert_by_key(&mut self, element: T, key: i64)
        requires
            old(self).wf(),
        ensures
            final(self).wf(),
            final(self).capacity() == old(self).capacity(),
            placed(
                old(self).items(),
                old(self).ranks(),
                final(self).items(),
                final(self).ranks(),
                element,
                key,
                old(self).capacity(),
            ),
            forall|j: int|
                0 <= j < final(self).items().len() ==> #[trigger] final(self).pairs()[j] == (
                    element,
                    key,
                ) || old(self).pairs().contains(final(self).pairs()[j]),
    {
        let ghost old_items = self.vec@;
        let ghost old_ranks = self.keys@;
        let mut i: usize = 0;
        while i < self.keys.len() && self.keys[i] < key
            invariant
                i <= self.keys@.len(),
                self.keys@ == old_ranks,
                forall|j: int| 0 <= j < i ==> #[trigger] old_ranks[j] < key,
            decreases self.keys@.len() - i,
        {
            i = i + 1;
        }
        assert forall|j: int| i <= j < old_ranks.len() implies key <= #[trigger] old_ranks[j] by {
            assert(old_ranks[i as int] <= old_ranks[j]);
        }
        self.vec.insert(i, element);
        self.keys.insert(i, key);
        if self.vec.len() > self.cap {
            self.vec.pop();
            self.keys.pop();
        }
        let ghost ni = old_items.insert(i as int, element);
        let ghost nr = old_ranks.insert(i as int, key);
        assert(self.vec@ =~= trimmed(ni, self.cap as nat));
        assert(self.keys@ =~= trimmed(nr, self.cap as nat));
        proof {
            lemma_insert_ascending(old_ranks, i as int, key);
        }
        let ghost before = Seq::new(old_items.len(), |j: int| (old_items[j], old_ranks[j]));
        assert forall|j: int| 0 <= j < self.vec@.len() implies #[trigger] self.pairs()[j] == (
            element,
            key,
        ) || before.contains(self.pairs()[j]) by {
            if j < i {
                assert(self.pairs()[j] == before[j]);
            } else if j > i {
                assert(self.pairs()[j] == before[j - 1]);
            }
        }
    }

    /// The retained entry of highest rank, once the collection is full; before
    /// that there is room for any entry, and this is `None`.
    pub fn worst(&self) -> (r: Option<&T>)
        requires
            self.wf(),
        ensures
            r is None <==> self.items().len() < self.capacity() || self.items().len() == 0,
            r matches Some(x) ==> *x == self.items().last() && self.ranks().len() > 0,
    {
        if self.vec.len() < self.cap {
            None
        } else {
            self.vec.last()
        }
    }
}

impl Top<i64> {
    /// Puts `element` in place, ranked by its own value.
    pub fn insert(&mut self, element: i64)
        requires
            old(self).wf(),
        ensures
            final(self).wf(),
            final(self).capacity() == old(self).capacity(),
            placed(
                old(self).items(),
                old(self).ranks(),
                final(self).items(),
                final(self).ranks(),
                element,
                element,
                old(self).capacity(),
            ),
    {
        self.insert_by_key(element, element)
    }
}

/// A collection of capacity zero retains nothing, whatever is put into it.
pub proof fn lemma_capacity_zero<T>(
    old_items: Seq<T>,
    old_ranks: Seq<i64>,
    items: Seq<T>,
    ranks: Seq<i64>,
    e: T,
    k: i64,
)
    requires
        placed(old_items, old_ranks, items, ranks, e, k, 0),
    ensures
        items.len() == 0,
{
}

/// A collection of capacity one holds, after an insert, exactly the best
/// (lowest ranked) entry of the one it held and the one put in; on equal
/// ranks the newer entry.
pub proof fn lemma_capacity_one<T>(
    old_items: Seq<T>,
    old_ranks: Seq<i64>,
    items: Seq<T>,
    ranks: Seq<i64>,
    e: T,
    k: i64,
)
    requires
        old_items.len() == old_ranks.len(),
        old_items.len() <= 1,
        placed(old_items, old_ranks, items, ranks, e, k, 1),
    ensures
        items.len() == 1,
        ranks.len() == 1,
        if old_items.len() == 0 || k <= old_ranks[0] {
            items[0] == e && ranks[0] == k
        } else {
            items[0] == old_items[0] && ranks[0] == old_ranks[0]
        },
{
    let i = choose|i: int|
        0 <= i <= old_ranks.len() && (forall|j: int| 0 <= j < i ==> #[trigger] old_ranks[j] < k)
            && (forall|j: int| i <= j < old_ranks.len() ==> k <= #[trigger] old_ranks[j]) && items
            == trimmed(old_items.insert(i, e), 1) && ranks == trimmed(old_ranks.insert(i, k), 1);
    if old_items.len() == 1 {
        if i == 0 {
            assert(k <= old_ranks[0]);
        } else {
            assert(old_ranks[0] < k);
        }
    }
}

/// `x`, ranked `r`, is among `(items, ranks)`, or these are `cap` entries all
/// ranked no higher than `r`.
pub open spec fn retained<T>(items: Seq<T>, ranks: Seq<i64>, cap: nat, x: T, r: int) -> bool {
    ||| exists|m: int| 0 <= m < items.len() && items[m] == x && ranks[m] == r
    ||| items.len() == cap && forall|m: int| 0 <= m < ranks.len() ==> ranks[m] <= r
}

/// Putting an entry into the collection with `placed` loses no entry without
/// keeping `cap` entries all ranked no higher than the lost one; a full
/// collection ranked no higher than `r` throughout stays so.
pub proof fn lemma_placed_keeps<T>(
    old_items: Seq<T>,
    old_ranks: Seq<i64>,
    items: Seq<T>,
    ranks: Seq<i64>,
    e: T,
    k: i64,
    cap: nat,
    r: int,
)
    requires
        old_items.len() == old_ranks.len(),
        old_items.len() <= cap,
        ascending(old_ranks),
        placed(old_items, old_ranks, items, ranks, e, k, cap),
    ensures
        items.len() == ranks.len(),
        forall|j: int|
            0 <= j < old_items.len() ==> #[trigger] retained(
                items,
                ranks,
                cap,
                old_items[j],
                old_ranks[j] as int,
            ),
        old_items.len() == cap && (forall|j: int| 0 <= j < old_ranks.len() ==> old_ranks[j] <= r)
            ==> items.len() == cap && forall|m: int| 0 <= m < ranks.len() ==> #[trigger] ranks[m] <= r,
{
    let i = choose|i: int|
        0 <= i <= old_ranks.len() && (forall|j: int| 0 <= j < i ==> #[trigger] old_ranks[j] < k)
            && (forall|j: int| i <= j < old_ranks.len() ==> k <= #[trigger] old_ranks[j]) && items
            == trimmed(old_items.insert(i, e), cap) && ranks == trimmed(old_ranks.insert(i, k), cap);
    let ni = old_items.insert(i, e);
    let nr = old_ranks.insert(i, k);
    let n = old_items.len();
    lemma_insert_ascending(old_ranks, i, k);
    assert forall|j: int| 0 <= j < n implies #[trigger] retained(
        items,
        ranks,
        cap,
        old_items[j],
        old_ranks[j] as int,
    ) by {
        let m = if j < i {
            j
        } else {
            j + 1
        };
        assert(ni[m] == old_items[j] && nr[m] == old_ranks[j]);
        if m < items.len() {
            assert(items[m] == ni[m] && ranks[m] == nr[m]);
        } else {
            assert(items.len() == cap);
            assert forall|q: int| 0 <= q < ranks.len() implies ranks[q] <= old_ranks[j] by {
                assert(ranks[q] == nr[q]);
            }
        }
    }
    if old_items.len() == cap && (forall|j: int| 0 <= j < old_ranks.len() ==> old_ranks[j] <= r) {
        assert forall|m: int| 0 <= m < ranks.len() implies #[trigger] ranks[m] <= r by {
            assert(ranks[m] == nr[m]);
            if m < i {
                assert(nr[m] == old_ranks[m]);
            } else if m == i {
                if i < n {
                    assert(old_ranks[i] >= k);
                } else {
                    assert(nr.len() > cap);
                }
            } else {
                assert(nr[m] == old_ranks[m - 1]);
            }
        }
    }
}

/// An entry ranked below the highest one held, or put into a collection with
/// room left, is among those kept.
pub proof fn lemma_placed_retains<T>(
    old_items: Seq<T>,
    old_ranks: Seq<i64>,
    items: Seq<T>,
    ranks: Seq<i64>,
    e: T,
    k: i64,
    cap: nat,
)
    requires
        old_items.len() == old_ranks.len(),
        old_items.len() <= cap,
        placed(old_items, old_ranks, items, ranks, e, k, cap),
        old_items.len() < cap || (old_ranks.len() > 0 && k < old_ranks.last()),
    ensures
        exists|m: int| 0 <= m < items.len() && items[m] == e && ranks[m] == k,
{
    let i = choose|i: int|
        0 <= i <= old_ranks.len() && (forall|j: int| 0 <= j < i ==> #[trigger] old_ranks[j] < k)
            && (forall|j: int| i <= j < old_ranks.len() ==> k <= #[trigger] old_ranks[j]) && items
            == trimmed(old_items.insert(i, e), cap) && ranks == trimmed(old_ranks.insert(i, k), cap);
    if old_items.len() >= cap {
        if i == old_ranks.len() {
            assert(old_ranks[old_ranks.len() - 1] < k);
        }
    }
    assert(items[i] == e && ranks[i] == k);
}

/// Putting in an entry whose key differs from every held entry's keeps the
/// keys of the held entries pairwise distinct.
pub proof fn lemma_placed_distinct<T, K>(
    old_items: Seq<T>,
    old_ranks: Seq<i64>,
    items: Seq<T>,
    ranks: Seq<i64>,
    e: T,
    k: i64,
    cap: nat,
    key: spec_fn(T) -> K,
)
    requires
        old_items.len() == old_ranks.len(),
        placed(old_items, old_ranks, items, ranks, e, k, cap),
        forall|a: int, b: int| 0 <= a < b < old_items.len() ==> key(old_items[a]) != key(old_items[b]),
        forall|j: int| 0 <= j < old_items.len() ==> key(old_items[j]) != key(e),
    ensures
        forall|a: int, b: int| 0 <= a < b < items.len() ==> key(items[a]) != key(items[b]),
{
    let i = choose|i: int|
        0 <= i <= old_ranks.len() && (forall|j: int| 0 <= j < i ==> #[trigger] old_ranks[j] < k)
            && (forall|j: int| i <= j < old_ranks.len() ==> k <= #[trigger] old_ranks[j]) && items
            == trimmed(old_items.insert(i, e), cap) && ranks == trimmed(old_ranks.insert(i, k), cap);
    let ni = old_items.insert(i, e);
    assert forall|a: int, b: int| 0 <= a < b < items.len() implies key(items[a]) != key(items[b]) by {
        assert(items[a] == ni[a] && items[b] == ni[b]);
        if a < i {
            assert(ni[a] == old_items[a]);
        } else if a > i {
            assert(ni[a] == old_items[a - 1]);
        }
        if b < i {
            assert(ni[b] == old_items[b]);
        } else if b > i {
            assert(ni[b] == old_items[b - 1]);
        }
    }
}

} // verus!
