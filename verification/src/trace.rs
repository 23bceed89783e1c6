//! Bookkeeping of the bounce loop that traces every pixel of a frame: which
//! pixels are still bouncing, which are done and in what order, and how many
//! times each one bounced.
use vstd::prelude::*;
use vstd::arithmetic::div_mod::lemma_fundamental_div_mod_converse;
use vstd::seq_lib::lemma_multiset_commutative;
use crate::selection::{all_below, index_range, lemma_permutation_of_range, lemma_select_contained, lemma_select_membership, lemma_select_partition, select};

verus! {

/// Most bounces a pixel's ray makes, and most rounds the loop runs.
pub const MAX_BOUNCES: u32 = 10;

/// Pixels of a frame, by their position in the frame's pixel list, on their
/// way through the bounce loop.
pub struct BounceQueue {
    /// Pixels whose ray is still bouncing, in tracing order.
    pub pending: Vec<usize>,
    /// Pixels that are done, in the order they finished.
    pub finished: Vec<usize>,
    /// Number of bounces of each pixel so far.
    pub bounces: Vec<u32>,
    /// Rounds the loop may still run.
    pub rounds_left: u32,
}

/// For each pending pixel: whether it keeps bouncing after a round in which
/// `hits` says whose ray hit something. A ray that hit bounces once more and
/// stays only while it has bounced fewer than `MAX_BOUNCES` times.
pub open spec fn stays(pending: Seq<usize>, bounces: Seq<u32>, hits: Seq<bool>) -> Seq<bool> {
    Seq::new(pending.len(), |k: int| hits[k] && bounces[pending[k] as int] + 1 < MAX_BOUNCES)
}

impl BounceQueue {
    /// Number of pixels in the frame.
    pub open spec fn pixel_count(self) -> nat {
        self.bounces.len() as nat
    }

    /// Every pixel is either pending or finished, exactly once; a pending
    /// pixel has bounced once per round run so far and fewer than
    /// `MAX_BOUNCES` times; no pixel bounced more than `MAX_BOUNCES` times.
    pub open spec fn wf(self) -> bool {
        &&& self.bounces.len() <= usize::MAX
        &&& (self.pending@ + self.finished@).to_multiset() == index_range(self.pixel_count()).to_multiset()
        &&& self.rounds_left <= MAX_BOUNCES
        &&& all_below(self.pending@, self.pixel_count())
        &&& forall|k: int| 0 <= k < self.pending.len() ==>
            #[trigger] self.bounces[self.pending[k] as int] == MAX_BOUNCES - self.rounds_left
        &&& forall|k: int| 0 <= k < self.pending.len() ==> #[trigger] self.bounces[self.pending[k] as int] < MAX_BOUNCES
        &&& forall|id: int| 0 <= id < self.bounces.len() ==> #[trigger] self.bounces[id] <= MAX_BOUNCES
    }

    /// A frame of `n` pixels, none traced yet, all pending in order.
    pub fn new(n: usize) -> (q: BounceQueue)
        ensures
            q.wf(),
            q.pixel_count() == n,
            q.pending@ == index_range(n as nat),
            q.finished@ == Seq::<usize>::empty(),
            forall|id: int| 0 <= id < n ==> #[trigger] q.bounces[id] == 0,
            q.rounds_left == MAX_BOUNCES,
    {
        let mut pending: Vec<usize> = Vec::new();
        let mut bounces: Vec<u32> = Vec::new();
        let mut i: usize = 0;
        while i < n
            invariant
                i <= n,
                pending@ == index_range(i as nat),
                bounces.len() == i,
                forall|id: int| 0 <= id < i ==> #[trigger] bounces[id] == 0,
            decreases n - i,
        {
            pending.push(i);
            bounces.push(0);
            i = i + 1;
            assert(pending@ =~= index_range(i as nat));
        }
        let q = BounceQueue { pending, finished: Vec::new(), bounces, rounds_left: MAX_BOUNCES };
        assert(q.pending@ + q.finished@ =~= index_range(n as nat));
        q
    }

    /// Whether another round is due: some pixel is still bouncing and the
    /// loop has rounds left.
    pub fn is_running(&self) -> (r: bool)
        ensures
            r == (self.pending.len() > 0 && self.rounds_left > 0),
    {
        self.pending.len() > 0 && self.rounds_left > 0
    }

    /// Records one round of tracing: `hits[k]` says whether the ray of the
    /// `k`-th pending pixel hit something. A pixel whose ray missed finishes;
    /// one whose ray hit bounces once more and finishes when it reaches
    /// `MAX_BOUNCES` bounces. Pixels keep their order in both lists.
    pub fn record_round(&mut self, hits: &Vec<bool>)
        requires
            old(self).wf(),
            old(self).rounds_left > 0,
            hits.len() == old(self).pending.len(),
        ensures
            final(self).wf(),
            final(self).pixel_count() == old(self).pixel_count(),
            final(self).pending@ == select(old(self).pending@, stays(old(self).pending@, old(self).bounces@, hits@), true),
            final(self).finished@ == old(self).finished@ + select(old(self).pending@, stays(old(self).pending@, old(self).bounces@, hits@), false),
            forall|k: int| 0 <= k < old(self).pending.len() ==>
                #[trigger] final(self).bounces[old(self).pending[k] as int] == old(self).bounces[old(self).pending[k] as int] + (if hits[k] { 1int } else { 0int }),
            forall|id: int| 0 <= id < old(self).bounces.len() && !old(self).pending@.contains(id as usize) ==>
                #[trigger] final(self).bounces[id] == old(self).bounces[id],
            final(self).rounds_left == old(self).rounds_left - 1,
            forall|k: int| 0 <= k < old(self).pending.len() ==>
                (final(self).pending@.contains(#[trigger] old(self).pending@[k])
                    <==> (hits[k] && old(self).bounces[old(self).pending[k] as int] + 1 < MAX_BOUNCES)),
            forall|k: int| 0 <= k < old(self).pending.len()
                && !(hits[k] && old(self).bounces[old(self).pending[k] as int] + 1 < MAX_BOUNCES) ==>
                final(self).finished@.contains(#[trigger] old(self).pending@[k]),
    {
        let ghost old_bounces = self.bounces@;
        let ghost old_finished = self.finished@;
        let ghost n = self.pixel_count();
        let mut pending: Vec<usize> = Vec::new();
        std::mem::swap(&mut pending, &mut self.pending);
        let ghost stay = stays(pending@, old_bounces, hits@);
        proof {
            lemma_permutation_of_range(pending@ + old_finished, n);
            assert forall|a: int, b: int| 0 <= a < pending.len() && 0 <= b < pending.len() && a != b
                implies pending[a] != pending[b] by {
                assert((pending@ + old_finished)[a] == pending[a]);
                assert((pending@ + old_finished)[b] == pending[b]);
            }
        }
        let mut next: Vec<usize> = Vec::new();
        let mut i: usize = 0;
        while i < pending.len()
            invariant
                i <= pending.len(),
                hits.len() == pending.len(),
                n == self.bounces.len(),
                n == old_bounces.len(),
                self.rounds_left == old(self).rounds_left,
                self.rounds_left > 0,
                self.rounds_left <= MAX_BOUNCES,
                self.pending@ == Seq::<usize>::empty(),
                forall|k: int| 0 <= k < pending.len() ==> #[trigger] old_bounces[pending[k] as int] == MAX_BOUNCES - self.rounds_left,
                forall|id: int| 0 <= id < n ==> #[trigger] old_bounces[id] <= MAX_BOUNCES,
                all_below(pending@, n),
                forall|a: int, b: int| 0 <= a < pending.len() && 0 <= b < pending.len() && a != b
                    ==> pending[a] != pending[b],
                forall|k: int| 0 <= k < pending.len() ==> #[trigger] old_bounces[pending[k] as int] < MAX_BOUNCES,
                stay == stays(pending@, old_bounces, hits@),
                next@ == select(pending@.take(i as int), stay.take(i as int), true),
                self.finished@ == old_finished + select(pending@.take(i as int), stay.take(i as int), false),
                forall|k: int| 0 <= k < i ==>
                    #[trigger] self.bounces[pending[k] as int] == old_bounces[pending[k] as int] + (if hits[k] { 1int } else { 0int }),
                forall|id: int| 0 <= id < n && !pending@.take(i as int).contains(id as usize) ==>
                    #[trigger] self.bounces[id] == old_bounces[id],
            decreases pending.len() - i,
        {
            let id = pending[i];
            proof {
                assert(!pending@.take(i as int).contains(id)) by {
                    if pending@.take(i as int).contains(id) {
                        let j = choose|j: int| 0 <= j < i && pending@.take(i as int)[j] == id;
                        assert(pending[j] == id);
                    }
                }
                assert(self.bounces[id as int] == old_bounces[id as int]);
                assert(pending@.take(i + 1).drop_last() =~= pending@.take(i as int));
                assert(stay.take(i + 1).take(i as int) =~= stay.take(i as int));
            }
            if hits[i] {
                let b = self.bounces[id] + 1;
                self.bounces.set(id, b);
                if b < MAX_BOUNCES {
                    next.push(id);
                } else {
                    self.finished.push(id);
                }
            } else {
                self.finished.push(id);
            }
            proof {
                assert forall|id2: int| 0 <= id2 < n && !pending@.take(i + 1).contains(id2 as usize)
                    implies #[trigger] self.bounces[id2] == old_bounces[id2] by {
                    assert(pending@.take(i + 1)[i as int] == id);
                    assert(id2 != id);
                    if pending@.take(i as int).contains(id2 as usize) {
                        let j = choose|j: int| 0 <= j < i && pending@.take(i as int)[j] == id2 as usize;
                        assert(pending@.take(i + 1)[j] == id2 as usize);
                    }
                }
                assert forall|k: int| 0 <= k < i + 1 implies
                    #[trigger] self.bounces[pending[k] as int] == old_bounces[pending[k] as int] + (if hits[k] { 1int } else { 0int }) by {
                    if k < i {
                        assert(pending[k] != id);
                    }
                }
            }
            i = i + 1;
        }
        proof {
            assert(pending@.take(pending.len() as int) =~= pending@);
            assert(stay.take(pending.len() as int) =~= stay);
        }
        self.pending = next;
        self.rounds_left = self.rounds_left - 1;
        proof {
            let kept = select(pending@, stay, true);
            let dropped = select(pending@, stay, false);
            lemma_select_partition(pending@, stay);
            lemma_multiset_commutative(pending@, old_finished);
            lemma_multiset_commutative(kept, old_finished + dropped);
            lemma_multiset_commutative(old_finished, dropped);
            assert(self.pending@ + self.finished@ =~= kept + (old_finished + dropped));
            assert((self.pending@ + self.finished@).to_multiset() =~= (pending@ + old_finished).to_multiset());
            lemma_select_contained(pending@, stay, true);
            assert forall|k: int| 0 <= k < self.pending.len() implies
                #[trigger] self.bounces[self.pending[k] as int] == MAX_BOUNCES - self.rounds_left
                && self.bounces[self.pending[k] as int] < MAX_BOUNCES by {
                let j = choose|j: int| 0 <= j < pending.len() && pending[j] == #[trigger] kept[k] && stay[j] == true;
                assert(self.pending[k] == kept[k]);
                assert(self.bounces[pending[j] as int] == old_bounces[pending[j] as int] + 1);
            }
            assert(pending@.no_duplicates());
            assert forall|k: int| 0 <= k < pending.len() implies
                (self.pending@.contains(#[trigger] pending@[k]) <==> stay[k])
                && (!stay[k] ==> self.finished@.contains(pending@[k])) by {
                lemma_select_membership(pending@, stay, true, k);
                lemma_select_membership(pending@, stay, false, k);
                if !stay[k] {
                    assert(dropped.contains(pending@[k]));
                    let m = choose|m: int| 0 <= m < dropped.len() && dropped[m] == pending@[k];
                    assert(self.finished@[old_finished.len() + m] == pending@[k]);
                }
            }
        }
    }
}

/// Once the loop stops, no pixel is left bouncing and every pixel of the
/// frame has finished exactly once, after at most `MAX_BOUNCES` bounces.
pub proof fn lemma_loop_finishes_every_pixel(q: BounceQueue)
    requires
        q.wf(),
        !(q.pending.len() > 0 && q.rounds_left > 0),
    ensures
        q.pending.len() == 0,
        q.finished.len() == q.pixel_count(),
        q.finished@.no_duplicates(),
        all_below(q.finished@, q.pixel_count()),
        forall|id: int| 0 <= id < q.pixel_count() ==> #[trigger] q.finished@.to_multiset().count(id as usize) == 1,
        forall|id: int| 0 <= id < q.pixel_count() ==> #[trigger] q.bounces[id] <= MAX_BOUNCES,
{
    if q.pending.len() > 0 {
        assert(q.bounces[q.pending[0] as int] == MAX_BOUNCES - q.rounds_left);
    }
    assert(q.pending@ + q.finished@ =~= q.finished@);
    lemma_permutation_of_range(q.finished@, q.pixel_count());
}

/// Pixel coordinates in the order the camera fires its rays: column by
/// column, and top to bottom within a column.
pub fn raster_order(columns: usize, rows: usize) -> (v: Vec<(usize, usize)>)
    requires
        columns * rows <= usize::MAX,
    ensures
        v.len() == columns * rows,
        forall|k: int| 0 <= k < v.len() ==> #[trigger] v[k] == ((k / rows as int) as usize, (k % rows as int) as usize),
{
    let mut v: Vec<(usize, usize)> = Vec::new();
    let mut x: usize = 0;
    while x < columns
        invariant
            x <= columns,
            columns * rows <= usize::MAX,
            v.len() == x * rows,
            forall|k: int| 0 <= k < v.len() ==> #[trigger] v[k] == ((k / rows as int) as usize, (k % rows as int) as usize),
        decreases columns - x,
    {
        let mut y: usize = 0;
        proof {
            assert(x * rows + rows == (x + 1) * rows) by (nonlinear_arith);
            assert((x + 1) * rows <= columns * rows) by (nonlinear_arith)
                requires x < columns;
        }
        while y < rows
            invariant
                x < columns,
                y <= rows,
                columns * rows <= usize::MAX,
                (x + 1) * rows <= columns * rows,
                v.len() == x * rows + y,
                forall|k: int| 0 <= k < v.len() ==> #[trigger] v[k] == ((k / rows as int) as usize, (k % rows as int) as usize),
            decreases rows - y,
        {
            proof {
                assert(x * rows + y < (x + 1) * rows) by (nonlinear_arith)
                    requires y < rows;
                lemma_fundamental_div_mod_converse(v.len() as int, rows as int, x as int, y as int);
            }
            v.push((x, y));
            y = y + 1;
        }
        proof {
            assert(x * rows + rows == (x + 1) * rows) by (nonlinear_arith);
        }
        x = x + 1;
    }
    v
}

/// The items of `items` in the order given by `order`: the `k`-th result is
/// `items[order[k]]`. Each item is moved out at most once, so `order` may
/// not name an item twice.
pub fn gather<T>(items: Vec<T>, order: &Vec<usize>) -> (r: Vec<T>)
    requires
        order@.no_duplicates(),
        all_below(order@, items.len() as nat),
    ensures
        r@ == order@.map_values(|i: usize| items@[i as int]),
{
    let ghost orig = items@;
    let mut items = items;
    let mut reversed: Vec<T> = Vec::new();
    while items.len() > 0
        invariant
            items.len() + reversed.len() == orig.len(),
            items@ == orig.take(items.len() as int),
            forall|m: int| 0 <= m < reversed.len() ==> #[trigger] reversed@[m] == orig[orig.len() - 1 - m],
        decreases items.len(),
    {
        let ghost before = items@;
        match items.pop() {
            Some(x) => {
                reversed.push(x);
            },
            None => {},
        }
        assert(items@ =~= orig.take(items.len() as int));
    }
    let mut slots: Vec<Option<T>> = Vec::new();
    while reversed.len() > 0
        invariant
            slots.len() + reversed.len() == orig.len(),
            forall|m: int| 0 <= m < reversed.len() ==> #[trigger] reversed@[m] == orig[orig.len() - 1 - m],
            forall|i: int| 0 <= i < slots.len() ==> #[trigger] slots@[i] == Some(orig[i]),
        decreases reversed.len(),
    {
        let ghost k = reversed.len() - 1;
        match reversed.pop() {
            Some(x) => {
                assert(x == orig[orig.len() - 1 - k]);
                slots.push(Some(x));
            },
            None => {},
        }
    }
    let mut r: Vec<T> = Vec::new();
    let mut k: usize = 0;
    while k < order.len()
        invariant
            k <= order.len(),
            order@.no_duplicates(),
            all_below(order@, orig.len()),
            slots.len() == orig.len(),
            forall|i: int| 0 <= i < slots.len() && !order@.take(k as int).contains(i as usize)
                ==> #[trigger] slots@[i] == Some(orig[i]),
            r@ == order@.take(k as int).map_values(|i: usize| orig[i as int]),
        decreases order.len() - k,
    {
        let id = order[k];
        proof {
            assert(!order@.take(k as int).contains(id)) by {
                if order@.take(k as int).contains(id) {
                    let j = choose|j: int| 0 <= j < k && order@.take(k as int)[j] == id;
                    assert(order@[j] == order@[k as int]);
                }
            }
        }
        let slot = slots[id].take();
        match slot {
            Some(x) => {
                r.push(x);
            },
            None => {},
        }
        proof {
            assert(order@.take(k + 1) =~= order@.take(k as int).push(id));
            assert(order@.take(k + 1).map_values(|i: usize| orig[i as int])
                =~= order@.take(k as int).map_values(|i: usize| orig[i as int]).push(orig[id as int]));
            assert forall|i: int| 0 <= i < slots.len() && !order@.take(k + 1).contains(i as usize)
                implies #[trigger] slots@[i] == Some(orig[i]) by {
                assert(order@.take(k + 1)[k as int] == id);
                assert(i != id);
                assert(!order@.take(k as int).contains(i as usize)) by {
                    if order@.take(k as int).contains(i as usize) {
                        let j = choose|j: int| 0 <= j < k && order@.take(k as int)[j] == i as usize;
                        assert(order@.take(k + 1)[j] == i as usize);
                    }
                }
            }
        }
        k = k + 1;
    }
    proof {
        assert(order@.take(order.len() as int) =~= order@);
    }
    r
}

} // verus!
