//! The set of known workspaces, kept in ascending order.

use vstd::prelude::*;

verus! {

/// Whether every number in `s` is below the ones behind it: sorted, and
/// nothing twice.
pub open spec fn ascending(s: Seq<i32>) -> bool {
    forall|i: int, j: int| 0 <= i < j < s.len() ==> s[i] < s[j]
}

/// The test that the numbers below `id` pass.
pub open spec fn below(id: i32) -> spec_fn(i32) -> bool {
    |other: i32| other < id
}

/// The test that the numbers above `id` pass.
pub open spec fn above(id: i32) -> spec_fn(i32) -> bool {
    |other: i32| other > id
}

/// The test that the numbers other than `id` pass.
pub open spec fn other_than(id: i32) -> spec_fn(i32) -> bool {
    |other: i32| other != id
}

/// The numbers of `s` below `id`, then `id`, then the numbers of `s` above
/// `id`.
#[verifier::opaque]
pub open spec fn with_id(s: Seq<i32>, id: i32) -> Seq<i32> {
    s.filter(below(id)).push(id) + s.filter(above(id))
}

/// The numbers of `s` other than `id`, in their order.
#[verifier::opaque]
pub open spec fn without_id(s: Seq<i32>, id: i32) -> Seq<i32> {
    s.filter(other_than(id))
}

/// The ordered set that holds each number of `ids`, put in one by one.
pub open spec fn collected(ids: Seq<i32>) -> Seq<i32>
    decreases ids.len(),
{
    if ids.len() == 0 {
        Seq::empty()
    } else {
        with_id(collected(ids.drop_last()), ids.last())
    }
}

/// A filter that every element passes keeps them all.
pub proof fn lemma_filter_all(s: Seq<i32>, keep: spec_fn(i32) -> bool)
    requires
        forall|i: int| 0 <= i < s.len() ==> keep(#[trigger] s[i]),
    ensures
        s.filter(keep) == s,
    decreases s.len(),
{
    reveal(Seq::filter);
    if s.len() > 0 {
        let front = s.drop_last();
        assert forall|i: int| 0 <= i < front.len() implies keep(#[trigger] front[i]) by {
            assert(front[i] == s[i]);
        }
        lemma_filter_all(front, keep);
        assert(keep(s[s.len() - 1]));
        assert(front.push(s.last()) =~= s);
    }
}

/// A filter that no element passes keeps nothing.
pub proof fn lemma_filter_none(s: Seq<i32>, keep: spec_fn(i32) -> bool)
    requires
        forall|i: int| 0 <= i < s.len() ==> !keep(#[trigger] s[i]),
    ensures
        s.filter(keep) == Seq::<i32>::empty(),
    decreases s.len(),
{
    reveal(Seq::filter);
    if s.len() > 0 {
        let front = s.drop_last();
        assert forall|i: int| 0 <= i < front.len() implies !keep(#[trigger] front[i]) by {
            assert(front[i] == s[i]);
        }
        lemma_filter_none(front, keep);
        assert(!keep(s[s.len() - 1]));
    }
}

/// A filter that the elements before `at` pass and the others fail keeps
/// the elements before `at`.
pub proof fn lemma_filter_front(s: Seq<i32>, keep: spec_fn(i32) -> bool, at: int)
    requires
        0 <= at <= s.len(),
        forall|i: int| 0 <= i < at ==> keep(#[trigger] s[i]),
        forall|i: int| at <= i < s.len() ==> !keep(#[trigger] s[i]),
    ensures
        s.filter(keep) == s.take(at),
{
    let left = s.take(at);
    let right = s.skip(at);
    assert(left + right =~= s);
    Seq::filter_distributes_over_add(left, right, keep);
    lemma_filter_all(left, keep);
    lemma_filter_none(right, keep);
    assert(left + Seq::<i32>::empty() =~= left);
}

/// A filter that the elements before `at` fail and the others pass keeps
/// the elements from `at` on.
pub proof fn lemma_filter_back(s: Seq<i32>, keep: spec_fn(i32) -> bool, at: int)
    requires
        0 <= at <= s.len(),
        forall|i: int| 0 <= i < at ==> !keep(#[trigger] s[i]),
        forall|i: int| at <= i < s.len() ==> keep(#[trigger] s[i]),
    ensures
        s.filter(keep) == s.skip(at),
{
    let left = s.take(at);
    let right = s.skip(at);
    assert(left + right =~= s);
    Seq::filter_distributes_over_add(left, right, keep);
    lemma_filter_none(left, keep);
    lemma_filter_all(right, keep);
    assert(Seq::<i32>::empty() + right =~= right);
}

/// A filter that only the element at `at` fails keeps all the others.
pub proof fn lemma_filter_but_one(s: Seq<i32>, keep: spec_fn(i32) -> bool, at: int)
    requires
        0 <= at < s.len(),
        !keep(s[at]),
        forall|i: int| 0 <= i < s.len() && i != at ==> keep(#[trigger] s[i]),
    ensures
        s.filter(keep) == s.remove(at),
{
    let left = s.take(at + 1);
    let right = s.skip(at + 1);
    assert(left + right =~= s);
    Seq::filter_distributes_over_add(left, right, keep);
    lemma_filter_front(left, keep, at);
    lemma_filter_all(right, keep);
    assert(left.take(at) + right =~= s.remove(at));
}

/// In an ordered set the entries before an offset are below the entry at
/// it, and the entries behind it are above.
pub proof fn lemma_ascending_around(s: Seq<i32>, at: int)
    requires
        ascending(s),
        0 <= at < s.len(),
    ensures
        forall|i: int| 0 <= i < at ==> s[i] < s[at],
        forall|i: int| at < i < s.len() ==> s[i] > s[at],
{
}

/// Where `id` stands at offset `at`, with the numbers below it before and
/// the numbers above it behind, putting `id` in changes nothing.
pub proof fn lemma_put_present(s: Seq<i32>, id: i32, at: int)
    requires
        0 <= at < s.len(),
        s[at] == id,
        forall|i: int| 0 <= i < at ==> s[i] < id,
        forall|i: int| at < i < s.len() ==> s[i] > id,
    ensures
        with_id(s, id) == s,
{
    reveal(with_id);
    lemma_filter_front(s, below(id), at);
    lemma_filter_back(s, above(id), at + 1);
    assert(s.take(at).push(id) + s.skip(at + 1) =~= s);
}

/// Where `id` stands at offset `at` and nowhere else, taking it out removes
/// that one entry.
pub proof fn lemma_take_present(s: Seq<i32>, id: i32, at: int)
    requires
        0 <= at < s.len(),
        s[at] == id,
        forall|i: int| 0 <= i < s.len() && i != at ==> s[i] != id,
    ensures
        without_id(s, id) == s.remove(at),
{
    reveal(without_id);
    lemma_filter_but_one(s, other_than(id), at);
}

/// Where a sequence is cut at `at` with the numbers below `id` before the
/// cut and the numbers above `id` behind it, putting `id` in inserts it at
/// the cut.
pub proof fn lemma_put_absent(s: Seq<i32>, id: i32, at: int)
    requires
        0 <= at <= s.len(),
        forall|i: int| 0 <= i < at ==> s[i] < id,
        forall|i: int| at <= i < s.len() ==> s[i] > id,
    ensures
        with_id(s, id) == s.insert(at, id),
{
    reveal(with_id);
    lemma_filter_front(s, below(id), at);
    lemma_filter_back(s, above(id), at);
    assert(s.take(at).push(id) + s.skip(at) =~= s.insert(at, id));
}

/// Taking out a number that a sequence does not hold changes nothing.
pub proof fn lemma_take_absent(s: Seq<i32>, id: i32)
    requires
        !s.contains(id),
    ensures
        without_id(s, id) == s,
{
    reveal(without_id);
    assert forall|i: int| 0 <= i < s.len() implies other_than(id)(#[trigger] s[i]) by {
        assert(s.contains(s[i]));
    }
    lemma_filter_all(s, other_than(id));
}

/// The number of entries of `s` that are below `id`.
pub open spec fn rank(s: Seq<i32>, id: i32) -> int
    decreases s.len(),
{
    if s.len() == 0 {
        0
    } else {
        rank(s.drop_last(), id) + if s.last() < id {
            1int
        } else {
            0int
        }
    }
}

/// In an ordered set the entries below `id` are the first `rank(s, id)`.
pub proof fn lemma_rank(s: Seq<i32>, id: i32)
    requires
        ascending(s),
    ensures
        0 <= rank(s, id) <= s.len(),
        forall|i: int| 0 <= i < rank(s, id) ==> s[i] < id,
        forall|i: int| rank(s, id) <= i < s.len() ==> s[i] >= id,
    decreases s.len(),
{
    if s.len() > 0 {
        let front = s.drop_last();
        assert forall|i: int, j: int| 0 <= i < j < front.len() implies front[i] < front[j] by {
            assert(s[i] < s[j]);
        }
        lemma_rank(front, id);
        let at = rank(front, id);
        assert forall|i: int| 0 <= i < at implies s[i] < id by {
            assert(front[i] == s[i]);
        }
        if s.last() < id {
            if at < front.len() {
                assert(front[at] == s[at]);
                assert(s[at] < s[s.len() - 1]);
            }
        } else {
            assert forall|i: int| at <= i < s.len() implies s[i] >= id by {
                if i < front.len() {
                    assert(front[i] == s[i]);
                }
            }
        }
    }
}

/// Where the set holds `id`, it stands at offset `rank(s, id)`; where it
/// does not, the entries from that offset on are above `id`.
pub proof fn lemma_rank_finds(s: Seq<i32>, id: i32)
    requires
        ascending(s),
    ensures
        s.contains(id) <==> (rank(s, id) < s.len() && s[rank(s, id)] == id),
        forall|i: int| rank(s, id) < i < s.len() ==> s[i] > id,
        !s.contains(id) ==> (forall|i: int| rank(s, id) <= i < s.len() ==> s[i] > id),
{
    lemma_rank(s, id);
    let at = rank(s, id);
    if at < s.len() {
        lemma_ascending_around(s, at);
    }
    if s.contains(id) {
        let k = choose|k: int| 0 <= k < s.len() && s[k] == id;
        assert(s[k] == id);
        if k > at {
            assert(s[at] < s[k]);
        }
    }
    if !s.contains(id) {
        assert forall|i: int| at <= i < s.len() implies s[i] > id by {
            assert(s.contains(s[i]));
        }
    }
}

/// Putting a number into an ordered set leaves it ordered; it then holds
/// that number and what it held before, and nothing else.
pub proof fn lemma_with_id(s: Seq<i32>, id: i32)
    requires
        ascending(s),
    ensures
        ascending(with_id(s, id)),
        forall|other: i32| with_id(s, id).contains(other) <==> (other == id || s.contains(other)),
        s.contains(id) ==> with_id(s, id) == s,
        !s.contains(id) ==> with_id(s, id).len() == s.len() + 1,
{
    lemma_rank(s, id);
    lemma_rank_finds(s, id);
    let at = rank(s, id);
    if s.contains(id) {
        lemma_put_present(s, id, at);
    } else {
        lemma_put_absent(s, id, at);
        lemma_insert_keeps_order(s, id, at);
    }
}

/// Inserting `id` between the entries below it and the entries above it
/// keeps the order and adds `id` to what the set holds.
proof fn lemma_insert_keeps_order(s: Seq<i32>, id: i32, at: int)
    requires
        ascending(s),
        0 <= at <= s.len(),
        forall|i: int| 0 <= i < at ==> s[i] < id,
        forall|i: int| at <= i < s.len() ==> s[i] > id,
    ensures
        ascending(s.insert(at, id)),
        forall|other: i32|
            s.insert(at, id).contains(other) <==> (other == id || s.contains(other)),
{
    let t = s.insert(at, id);
    assert forall|i: int, j: int| 0 <= i < j < t.len() implies t[i] < t[j] by {
        if i < at && j > at {
            assert(s[i] < id);
            assert(s[j - 1] > id);
        } else if i < at && j < at {
            assert(s[i] < s[j]);
        } else if i > at {
            assert(s[i - 1] < s[j - 1]);
        }
    }
    assert forall|other: i32| t.contains(other) <==> (other == id || s.contains(other)) by {
        if t.contains(other) && other != id {
            let k = choose|k: int| 0 <= k < t.len() && t[k] == other;
            if k < at {
                assert(s[k] == other);
            } else {
                assert(s[k - 1] == other);
            }
        }
        if other == id {
            assert(t[at] == id);
        } else if s.contains(other) {
            let k = choose|k: int| 0 <= k < s.len() && s[k] == other;
            if k < at {
                assert(t[k] == other);
            } else {
                assert(t[k + 1] == other);
            }
        }
    }
}

/// Removing the entry at `at` from an ordered set keeps the order and
/// takes that number, and no other, out of what the set holds.
proof fn lemma_remove_keeps_order(s: Seq<i32>, at: int)
    requires
        ascending(s),
        0 <= at < s.len(),
    ensures
        ascending(s.remove(at)),
        forall|other: i32|
            s.remove(at).contains(other) <==> (other != s[at] && s.contains(other)),
{
    let t = s.remove(at);
    assert forall|i: int, j: int| 0 <= i < j < t.len() implies t[i] < t[j] by {
        let a = if i < at { i } else { i + 1 };
        let b = if j < at { j } else { j + 1 };
        assert(s[a] < s[b]);
    }
    assert forall|other: i32| t.contains(other) <==> (other != s[at] && s.contains(other)) by {
        if t.contains(other) {
            let k = choose|k: int| 0 <= k < t.len() && t[k] == other;
            let a = if k < at { k } else { k + 1 };
            assert(s[a] == other);
            if a < at {
                assert(s[a] < s[at]);
            } else {
                assert(s[at] < s[a]);
            }
        }
        if other != s[at] && s.contains(other) {
            let k = choose|k: int| 0 <= k < s.len() && s[k] == other;
            if k < at {
                assert(t[k] == other);
            } else {
                assert(t[k - 1] == other);
            }
        }
    }
}

/// Taking a number out of an ordered set leaves it ordered; it then holds
/// what it held before but for that number.
pub proof fn lemma_without_id(s: Seq<i32>, id: i32)
    requires
        ascending(s),
    ensures
        ascending(without_id(s, id)),
        forall|other: i32|
            without_id(s, id).contains(other) <==> (other != id && s.contains(other)),
        !s.contains(id) ==> without_id(s, id) == s,
        s.contains(id) ==> without_id(s, id).len() == s.len() - 1,
{
    lemma_rank(s, id);
    lemma_rank_finds(s, id);
    let at = rank(s, id);
    if s.contains(id) {
        lemma_take_present(s, id, at);
        lemma_remove_keeps_order(s, at);
    } else {
        lemma_take_absent(s, id);
    }
}

/// Whatever numbers are collected, in whatever order and however often,
/// the result is ordered and holds exactly those numbers.
pub proof fn lemma_collected(ids: Seq<i32>)
    ensures
        ascending(collected(ids)),
        forall|id: i32| collected(ids).contains(id) <==> ids.contains(id),
    decreases ids.len(),
{
    if ids.len() > 0 {
        let front = ids.drop_last();
        lemma_collected(front);
        lemma_with_id(collected(front), ids.last());
        assert forall|id: i32| collected(ids).contains(id) <==> ids.contains(id) by {
            if ids.contains(id) {
                let k = choose|k: int| 0 <= k < ids.len() && ids[k] == id;
                if k < front.len() {
                    assert(front[k] == id);
                }
            }
            if front.contains(id) {
                let k = choose|k: int| 0 <= k < front.len() && front[k] == id;
                assert(ids[k] == id);
            }
            if id == ids.last() {
                assert(ids[ids.len() - 1] == id);
            }
        }
    } else {
        assert forall|id: i32| collected(ids).contains(id) <==> ids.contains(id) by {}
    }
}

/// Two ordered sets that hold the same numbers are the same sequence.
pub proof fn lemma_ascending_unique(a: Seq<i32>, b: Seq<i32>)
    requires
        ascending(a),
        ascending(b),
        forall|id: i32| a.contains(id) <==> b.contains(id),
    ensures
        a == b,
    decreases a.len(),
{
    if a.len() == 0 {
        if b.len() > 0 {
            assert(b.contains(b[0]));
        }
        assert(a =~= b);
    } else {
        assert(a.contains(a.last()));
        assert(b.len() > 0);
        assert(b.contains(b.last()));
        let x = a.last();
        let y = b.last();
        // The last number of each is its largest, so the two agree.
        let i = choose|i: int| 0 <= i < b.len() && b[i] == x;
        let j = choose|j: int| 0 <= j < a.len() && a[j] == y;
        if i < b.len() - 1 {
            assert(b[i] < b[b.len() - 1]);
        }
        if j < a.len() - 1 {
            assert(a[j] < a[a.len() - 1]);
        }
        assert(x == y);
        let fa = a.drop_last();
        let fb = b.drop_last();
        assert forall|id: i32| fa.contains(id) <==> fb.contains(id) by {
            if fa.contains(id) {
                let k = choose|k: int| 0 <= k < fa.len() && fa[k] == id;
                assert(a[k] == id && a[k] < a[a.len() - 1]);
                assert(a.contains(id));
                let m = choose|m: int| 0 <= m < b.len() && b[m] == id;
                assert(m < b.len() - 1);
                assert(fb[m] == id);
            }
            if fb.contains(id) {
                let k = choose|k: int| 0 <= k < fb.len() && fb[k] == id;
                assert(b[k] == id && b[k] < b[b.len() - 1]);
                assert(b.contains(id));
                let m = choose|m: int| 0 <= m < a.len() && a[m] == id;
                assert(m < a.len() - 1);
                assert(fa[m] == id);
            }
        }
        assert(ascending(fa)) by {
            assert forall|p: int, q: int| 0 <= p < q < fa.len() implies fa[p] < fa[q] by {
                assert(a[p] < a[q]);
            }
        }
        assert(ascending(fb)) by {
            assert forall|p: int, q: int| 0 <= p < q < fb.len() implies fb[p] < fb[q] by {
                assert(b[p] < b[q]);
            }
        }
        lemma_ascending_unique(fa, fb);
        assert(a =~= fa.push(x));
        assert(b =~= fb.push(y));
    }
}

/// The known workspaces: their numbers in ascending order, each once.
pub struct WorkspaceSet {
    ids: Vec<i32>,
}

impl View for WorkspaceSet {
    type V = Seq<i32>;

    closed spec fn view(&self) -> Seq<i32> {
        self.ids@
    }
}

/// Offset of the first entry of `ids` that is not below `id`, found by
/// halving the range in which it must lie.
fn locate(ids: &Vec<i32>, id: i32) -> (at: usize)
    requires
        ascending(ids@),
    ensures
        at <= ids@.len(),
        forall|i: int| 0 <= i < at ==> ids@[i] < id,
        forall|i: int| at <= i < ids@.len() ==> ids@[i] >= id,
{
    let mut low: usize = 0;
    let mut high: usize = ids.len();
    while low < high
        invariant
            low <= high <= ids@.len(),
            ascending(ids@),
            forall|i: int| 0 <= i < low ==> ids@[i] < id,
            forall|i: int| high <= i < ids@.len() ==> ids@[i] >= id,
        decreases high - low,
    {
        let middle = low + (high - low) / 2;
        if ids[middle] < id {
            proof {
                lemma_ascending_around(ids@, middle as int);
            }
            low = middle + 1;
        } else {
            proof {
                lemma_ascending_around(ids@, middle as int);
            }
            high = middle;
        }
    }
    low
}

impl WorkspaceSet {
    /// What holds of every set: its numbers are ascending.
    #[verifier::type_invariant]
    pub open spec fn ordered(self) -> bool {
        ascending(self@)
    }

    /// The set without any workspace.
    pub fn new() -> (set: WorkspaceSet)
        ensures
            set@ == Seq::<i32>::empty(),
    {
        WorkspaceSet { ids: Vec::new() }
    }

    /// The set of the numbers in `ids`, which may come in any order and
    /// more than once.
    pub fn from_ids(ids: &Vec<i32>) -> (set: WorkspaceSet)
        ensures
            set@ == collected(ids@),
            ascending(set@),
            forall|id: i32| set@.contains(id) <==> ids@.contains(id),
    {
        let mut set = WorkspaceSet::new();
        let mut i: usize = 0;
        while i < ids.len()
            invariant
                i <= ids@.len(),
                set@ == collected(ids@.take(i as int)),
            decreases ids@.len() - i,
        {
            assert(ids@.take(i + 1).drop_last() =~= ids@.take(i as int));
            set.insert(ids[i]);
            i += 1;
        }
        proof {
            assert(ids@.take(i as int) =~= ids@);
            lemma_collected(ids@);
        }
        set
    }

    /// How many workspaces the set holds.
    pub fn len(&self) -> (n: usize)
        ensures
            n == self@.len(),
    {
        self.ids.len()
    }

    /// Whether the set holds `id`.
    pub fn contains(&self, id: i32) -> (held: bool)
        ensures
            held == self@.contains(id),
            ascending(self@),
    {
        proof {
            use_type_invariant(self);
        }
        let at = locate(&self.ids, id);
        let held = at < self.ids.len() && self.ids[at] == id;
        proof {
            if !held && self@.contains(id) {
                let k = choose|k: int| 0 <= k < self@.len() && self@[k] == id;
                if k > at {
                    lemma_ascending_around(self@, at as int);
                }
            }
        }
        held
    }

    /// The numbers in ascending order.
    pub fn to_vec(&self) -> (ids: Vec<i32>)
        ensures
            ids@ == self@,
            ascending(ids@),
    {
        proof {
            use_type_invariant(self);
        }
        let mut ids: Vec<i32> = Vec::with_capacity(self.ids.len());
        let mut i: usize = 0;
        while i < self.ids.len()
            invariant
                i <= self.ids@.len(),
                ids@ == self.ids@.take(i as int),
            decreases self.ids@.len() - i,
        {
            ids.push(self.ids[i]);
            assert(ids@ =~= self.ids@.take(i + 1));
            i += 1;
        }
        assert(self.ids@.take(i as int) =~= self.ids@);
        ids
    }

    /// Puts `id` into the set, at the place that keeps the order, and says
    /// whether it was new. A number that the set holds already changes
    /// nothing.
    pub fn insert(&mut self, id: i32) -> (added: bool)
        ensures
            final(self)@ == with_id(old(self)@, id),
            added == !old(self)@.contains(id),
            ascending(final(self)@),
    {
        proof {
            use_type_invariant(&*self);
            lemma_with_id(self@, id);
        }
        let at = locate(&self.ids, id);
        if at < self.ids.len() && self.ids[at] == id {
            proof {
                lemma_ascending_around(self@, at as int);
                lemma_put_present(self@, id, at as int);
            }
            false
        } else {
            proof {
                if at < self@.len() {
                    lemma_ascending_around(self@, at as int);
                }
                lemma_put_absent(self@, id, at as int);
                assert(!self@.contains(id)) by {
                    if self@.contains(id) {
                        let k = choose|k: int| 0 <= k < self@.len() && self@[k] == id;
                        assert(self@[k] == id);
                    }
                }
            }
            let mut ids: Vec<i32> = Vec::new();
            core::mem::swap(&mut self.ids, &mut ids);
            ids.insert(at, id);
            core::mem::swap(&mut self.ids, &mut ids);
            true
        }
    }

    /// Takes `id` out of the set and says whether it was there. A number
    /// that the set does not hold changes nothing.
    pub fn remove(&mut self, id: i32) -> (removed: bool)
        ensures
            final(self)@ == without_id(old(self)@, id),
            removed == old(self)@.contains(id),
            ascending(final(self)@),
    {
        proof {
            use_type_invariant(&*self);
            lemma_without_id(self@, id);
        }
        let at = locate(&self.ids, id);
        if at < self.ids.len() && self.ids[at] == id {
            proof {
                lemma_ascending_around(self@, at as int);
                assert forall|i: int| 0 <= i < self@.len() && i != at implies self@[i] != id by {}
                lemma_take_present(self@, id, at as int);
            }
            let mut ids: Vec<i32> = Vec::new();
            core::mem::swap(&mut self.ids, &mut ids);
            ids.remove(at);
            core::mem::swap(&mut self.ids, &mut ids);
            true
        } else {
            proof {
                if at < self@.len() {
                    lemma_ascending_around(self@, at as int);
                }
                assert(!self@.contains(id)) by {
                    if self@.contains(id) {
                        let k = choose|k: int| 0 <= k < self@.len() && self@[k] == id;
                        assert(self@[k] == id);
                    }
                }
                lemma_take_absent(self@, id);
            }
            false
        }
    }
}

} // verus!
