use vstd::prelude::*;

use crate::types::{LimitOrder, PriceLevel};

verus! {

/// Upper bound on a node's randomly chosen height: bounds worst-case
/// traversal depth.
pub const MAX_HEIGHT: usize = 32;

/// The abstract content of the index: price levels as (key, queue) pairs,
/// kept in strictly increasing key order.
pub type LevelsView = Seq<(u64, Seq<LimitOrder>)>;

pub open spec fn keys_sorted(v: LevelsView) -> bool {
    forall|i: int, j: int| 0 <= i < j < v.len() ==> (#[trigger] v[i]).0 < (#[trigger] v[j]).0
}

pub open spec fn contains_key(v: LevelsView, key: u64) -> bool {
    exists|i: int| 0 <= i < v.len() && (#[trigger] v[i]).0 == key
}

/// The queue stored at `key` (meaningful when the key is present).
pub open spec fn orders_at(v: LevelsView, key: u64) -> Seq<LimitOrder>
    decreases v.len(),
{
    if v.len() == 0 {
        Seq::empty()
    } else if v[0].0 == key {
        v[0].1
    } else {
        orders_at(v.skip(1), key)
    }
}

/// The view after inserting a new level at its sorted position.
pub open spec fn spec_insert(v: LevelsView, key: u64, orders: Seq<LimitOrder>) -> LevelsView
    decreases v.len(),
{
    if v.len() == 0 {
        seq![(key, orders)]
    } else if v[0].0 < key {
        seq![v[0]] + spec_insert(v.skip(1), key, orders)
    } else {
        seq![(key, orders)] + v
    }
}

/// The view after removing the level at `key` (the identity if absent).
pub open spec fn spec_remove(v: LevelsView, key: u64) -> LevelsView
    decreases v.len(),
{
    if v.len() == 0 {
        v
    } else if v[0].0 == key {
        v.skip(1)
    } else {
        seq![v[0]] + spec_remove(v.skip(1), key)
    }
}

/// An index node. Nodes live in a growable arena and refer to each other by
/// arena index rather than by owning pointers; a removed node stays in the
/// arena as a dead tombstone so indices never move.
struct Node {
    key: u64,
    value: PriceLevel,
    live: bool,
    fwd: Vec<Option<usize>>,
}

/// A probabilistic ordered index (skip list) over price levels keyed by
/// price. Node 0 is the head sentinel. `chain` is the ghost sequence of the
/// arena indices of the live nodes, in key order: it is the level-0 list.
pub struct SkipList {
    nodes: Vec<Node>,
    length: usize,
    rng: u64,
    chain: Ghost<Seq<usize>>,
}

impl View for SkipList {
    type V = LevelsView;

    closed spec fn view(&self) -> LevelsView {
        Seq::new(
            self.chain@.len(),
            |ci: int| (
                self.nodes@[self.chain@[ci] as int].key,
                self.nodes@[self.chain@[ci] as int].value.orders@,
            ),
        )
    }
}

impl SkipList {
    /// Structural invariant. Level 0 of the head and of every live node
    /// threads exactly the live nodes in strictly increasing key order;
    /// every forward link at every height lands inside the arena.
    pub closed spec fn wf(&self) -> bool {
        let ns = self.nodes@;
        let c = self.chain@;
        &&& 1 <= ns.len()
        &&& ns[0].fwd@.len() == MAX_HEIGHT
        &&& !ns[0].live
        &&& self.length == c.len()
        &&& c.len() < ns.len()
        &&& forall|ci: int| 0 <= ci < c.len() ==> 1 <= #[trigger] c[ci] < ns.len()
        &&& forall|ci: int| 0 <= ci < c.len() ==> ns[#[trigger] c[ci] as int].live
        &&& forall|ci: int|
            0 <= ci < c.len() ==> ns[#[trigger] c[ci] as int].value.price == ns[c[ci] as int].key
        &&& forall|i: int|
            1 <= i < ns.len() && (#[trigger] ns[i].live) ==> c.contains(i as usize)
        &&& forall|ci: int, cj: int|
            0 <= ci < cj < c.len() ==> ns[#[trigger] c[ci] as int].key < ns[#[trigger] c[cj] as int].key
        &&& forall|i: int| 1 <= i < ns.len() ==> 1 <= (#[trigger] ns[i].fwd@.len()) <= MAX_HEIGHT
        &&& forall|i: int, l: int|
            0 <= i < ns.len() && 0 <= l < ns[i].fwd@.len() && (#[trigger] ns[i].fwd@[l]) is Some
                ==> 1 <= ns[i].fwd@[l]->Some_0 < ns.len()
        &&& ns[0].fwd@[0] == (if c.len() > 0 {
            Some(c[0])
        } else {
            None::<usize>
        })
        &&& forall|ci: int|
            0 <= ci < c.len() ==> ns[#[trigger] c[ci] as int].fwd@[0] == (if ci + 1 < c.len() {
                Some(c[ci + 1])
            } else {
                None::<usize>
            })
    }

    /// The forward link of node `i` at height `l`, None above the node's
    /// height.
    spec fn spec_link(&self, i: int, l: int) -> Option<usize> {
        if 0 <= l < self.nodes@[i].fwd@.len() {
            self.nodes@[i].fwd@[l]
        } else {
            None
        }
    }

    /// A legal descent position: the head, or a live node whose key is still
    /// below the target.
    spec fn cur_ok(&self, cur: usize, key: u64) -> bool {
        cur == 0 || (self.chain@.contains(cur) && self.nodes@[cur as int].key < key)
    }

    /// Position of a live node in the level-0 chain.
    spec fn pos_of(&self, cur: usize) -> int {
        choose|ci: int| 0 <= ci < self.chain@.len() && self.chain@[ci] == cur
    }

    /// Descent progress measure: head is 0, a chain node is its position + 1.
    spec fn rank(&self, cur: usize) -> int {
        if cur == 0 {
            0
        } else {
            self.pos_of(cur) + 1
        }
    }

    /// The walk at one height can go no further: no link, or the next node
    /// fails a guard (dead, key not below the target, or not ahead of us).
    spec fn stop_ok(&self, cur: usize, lvl: int, key: u64) -> bool {
        match self.spec_link(cur as int, lvl) {
            Some(t) => !(t != 0 && self.nodes@[t as int].live && self.nodes@[t as int].key < key
                && (cur == 0 || self.nodes@[t as int].key > self.nodes@[cur as int].key)),
            None => true,
        }
    }

    /// The descent has found the level-0 predecessor of `key`: the last
    /// chain node with a smaller key, or the head if there is none.
    spec fn pred_exact(&self, cur: usize, key: u64) -> bool {
        let c = self.chain@;
        let ns = self.nodes@;
        if cur == 0 {
            c.len() == 0 || ns[c[0] as int].key >= key
        } else {
            self.pos_of(cur) + 1 < c.len() ==> ns[c[self.pos_of(cur) + 1] as int].key >= key
        }
    }

    proof fn lemma_pos(&self, cur: usize)
        requires
            self.wf(),
            self.chain@.contains(cur),
        ensures
            0 <= self.pos_of(cur) < self.chain@.len(),
            self.chain@[self.pos_of(cur)] == cur,
    {
        let ci = choose|ci: int| 0 <= ci < self.chain@.len() && self.chain@[ci] == cur;
        assert(self.chain@[ci] == cur);
    }

    /// In a sorted chain, a larger key means a strictly later position.
    proof fn lemma_rank_advance(&self, cur: usize, t: usize, key: u64)
        requires
            self.wf(),
            self.cur_ok(cur, key),
            self.chain@.contains(t),
            cur == 0 || self.nodes@[t as int].key > self.nodes@[cur as int].key,
        ensures
            self.rank(t) > self.rank(cur),
            self.rank(t) <= self.chain@.len(),
    {
        self.lemma_pos(t);
        if cur != 0 {
            self.lemma_pos(cur);
            let pc = self.pos_of(cur);
            let pt = self.pos_of(t);
            if pt <= pc {
                if pt < pc {
                    assert(self.nodes@[self.chain@[pt] as int].key
                        < self.nodes@[self.chain@[pc] as int].key);
                }
                assert(false);
            }
        }
    }

    fn node_live(&self, i: usize) -> (r: bool)
        requires
            i < self.nodes@.len(),
        ensures
            r == self.nodes@[i as int].live,
    {
        self.nodes[i].live
    }

    fn node_key(&self, i: usize) -> (r: u64)
        requires
            i < self.nodes@.len(),
        ensures
            r == self.nodes@[i as int].key,
    {
        self.nodes[i].key
    }

    fn link(&self, i: usize, l: usize) -> (r: Option<usize>)
        requires
            i < self.nodes@.len(),
        ensures
            r == self.spec_link(i as int, l as int),
    {
        if l < self.nodes[i].fwd.len() {
            self.nodes[i].fwd[l]
        } else {
            None
        }
    }

    /// Advance along one height while the next node's key is below the
    /// target, exactly the skip-list descent step.
    fn walk_level(&self, start: usize, lvl: usize, key: u64) -> (r: usize)
        requires
            self.wf(),
            self.cur_ok(start, key),
            lvl < MAX_HEIGHT,
        ensures
            self.cur_ok(r, key),
            self.stop_ok(r, lvl as int, key),
    {
        let mut cur = start;
        let mut go = true;
        while go
            invariant
                self.wf(),
                self.cur_ok(cur, key),
                cur < self.nodes@.len(),
                lvl < MAX_HEIGHT,
                !go ==> self.stop_ok(cur, lvl as int, key),
            decreases self.chain@.len() - self.rank(cur), if go { 1int } else { 0int },
        {
            proof {
                if cur != 0 {
                    self.lemma_pos(cur);
                }
            }
            let nx = self.link(cur, lvl);
            match nx {
                Some(t) => {
                    let advance = t != 0 && self.node_live(t) && self.node_key(t) < key && (cur
                        == 0 || self.node_key(t) > self.node_key(cur));
                    if advance {
                        proof {
                            self.lemma_rank_advance(cur, t, key);
                        }
                        cur = t;
                    } else {
                        go = false;
                    }
                },
                None => {
                    go = false;
                },
            }
        }
        cur
    }

    /// Full descent: from the highest height down to level 0, recording per
    /// height the last node visited before overshoot (the update array).
    fn find_update(&self, key: u64) -> (up: Vec<usize>)
        requires
            self.wf(),
        ensures
            up@.len() == MAX_HEIGHT,
            forall|l: int| 0 <= l < MAX_HEIGHT ==> self.cur_ok(#[trigger] up@[l], key),
            forall|l: int| 0 <= l < MAX_HEIGHT ==> #[trigger] up@[l] < self.nodes@.len(),
            self.pred_exact(up@[0], key),
    {
        let mut up: Vec<usize> = vec![0; MAX_HEIGHT];
        let mut cur: usize = 0;
        let mut lvl: usize = MAX_HEIGHT;
        while lvl > 0
            invariant
                self.wf(),
                self.cur_ok(cur, key),
                lvl <= MAX_HEIGHT,
                up@.len() == MAX_HEIGHT,
                forall|l: int| 0 <= l < MAX_HEIGHT ==> self.cur_ok(#[trigger] up@[l], key),
                lvl == 0 ==> up@[0] == cur && self.stop_ok(cur, 0, key),
            decreases lvl,
        {
            lvl -= 1;
            cur = self.walk_level(cur, lvl, key);
            up[lvl] = cur;
        }
        proof {
            self.lemma_stop0_pred(cur, key);
            assert forall|l: int| 0 <= l < MAX_HEIGHT implies #[trigger] up@[l]
                < self.nodes@.len() by {
                if up@[l] != 0 {
                    assert(self.chain@.contains(up@[l]));
                }
            }
        }
        up
    }

    /// At level 0 the walk stops exactly at the sorted predecessor.
    proof fn lemma_stop0_pred(&self, cur: usize, key: u64)
        requires
            self.wf(),
            self.cur_ok(cur, key),
            self.stop_ok(cur, 0, key),
        ensures
            self.pred_exact(cur, key),
    {
        let c = self.chain@;
        let ns = self.nodes@;
        if cur == 0 {
            if c.len() > 0 {
                assert(ns[0].fwd@[0] == Some(c[0]));
                assert(ns[c[0] as int].live);
                assert(c[0] != 0);
            }
        } else {
            self.lemma_pos(cur);
            let p = self.pos_of(cur);
            if p + 1 < c.len() {
                assert(ns[c[p] as int].fwd@[0] == Some(c[p + 1]));
                assert(ns[c[p + 1] as int].live);
                assert(ns[c[p + 1] as int].key > ns[c[p] as int].key);
            }
        }
    }

    /// Everything strictly before the predecessor's successor has a key
    /// below `key`; everything from the successor on has a key at or above
    /// it. `nxt` is the index (in the chain) of the predecessor's successor.
    proof fn lemma_pred_split(&self, cur: usize, key: u64) -> (nxt: int)
        requires
            self.wf(),
            self.cur_ok(cur, key),
            self.pred_exact(cur, key),
        ensures
            0 <= nxt <= self.chain@.len(),
            forall|q: int| 0 <= q < nxt ==> self.nodes@[#[trigger] self.chain@[q] as int].key < key,
            forall|q: int|
                nxt <= q < self.chain@.len() ==> self.nodes@[#[trigger] self.chain@[q] as int].key
                    >= key,
            self.spec_link(cur as int, 0) == (if nxt < self.chain@.len() {
                Some(self.chain@[nxt])
            } else {
                None::<usize>
            }),
            cur == 0 ==> nxt == 0,
            cur != 0 ==> nxt == self.pos_of(cur) + 1,
    {
        let c = self.chain@;
        let ns = self.nodes@;
        if cur == 0 {
            assert forall|q: int| 0 <= q < c.len() implies ns[#[trigger] c[q] as int].key >= key by {
                if q > 0 {
                    assert(ns[c[0] as int].key < ns[c[q] as int].key);
                }
            }
            0
        } else {
            self.lemma_pos(cur);
            let p = self.pos_of(cur);
            assert forall|q: int| 0 <= q < p + 1 implies ns[#[trigger] c[q] as int].key < key by {
                if q < p {
                    assert(ns[c[q] as int].key < ns[c[p] as int].key);
                }
            }
            assert forall|q: int| p + 1 <= q < c.len() implies ns[#[trigger] c[q] as int].key >= key by {
                if q > p + 1 {
                    assert(ns[c[p + 1] as int].key < ns[c[q] as int].key);
                }
            }
            p + 1
        }
    }

    /// Pseudo-random geometric height in 1..=MAX_HEIGHT: repeated coin
    /// flips with success probability 1/2, capped. Structure-independent.
    fn random_height(&mut self) -> (h: usize)
        ensures
            1 <= h <= MAX_HEIGHT,
            final(self).nodes == old(self).nodes,
            final(self).length == old(self).length,
            final(self).chain == old(self).chain,
    {
        let x = self.rng.wrapping_mul(6364136223846793005).wrapping_add(1442695040888963407);
        self.rng = x;
        let bits = x >> 32;
        let mut h: usize = 1;
        while h < MAX_HEIGHT && (bits >> (h - 1)) & 1 == 1
            invariant
                1 <= h <= MAX_HEIGHT,
            decreases MAX_HEIGHT - h,
        {
            h += 1;
        }
        h
    }

    fn node_height(&self, i: usize) -> (r: usize)
        requires
            i < self.nodes@.len(),
        ensures
            r == self.nodes@[i as int].fwd@.len(),
    {
        self.nodes[i].fwd.len()
    }

    /// Rewires one forward link; everything else is untouched.
    fn set_link(&mut self, i: usize, l: usize, v: Option<usize>)
        requires
            i < old(self).nodes@.len(),
            l < old(self).nodes@[i as int].fwd@.len(),
        ensures
            final(self).nodes@.len() == old(self).nodes@.len(),
            final(self).nodes@[i as int].fwd@ == old(self).nodes@[i as int].fwd@.update(
                l as int,
                v,
            ),
            final(self).nodes@[i as int].key == old(self).nodes@[i as int].key,
            final(self).nodes@[i as int].live == old(self).nodes@[i as int].live,
            final(self).nodes@[i as int].value == old(self).nodes@[i as int].value,
            forall|j: int|
                0 <= j < old(self).nodes@.len() && j != i ==> final(self).nodes@[j] == old(
                    self,
                ).nodes@[j],
            final(self).length == old(self).length,
            final(self).rng == old(self).rng,
            final(self).chain == old(self).chain,
    {
        self.nodes[i].fwd[l] = v;
    }

    /// Splices a new level into the index at its sorted position. Duplicate
    /// keys are rejected and handed back: callers mutate the existing level
    /// in place instead.
    pub fn insert(&mut self, level: PriceLevel) -> (r: Result<(), PriceLevel>)
        requires
            old(self).wf(),
        ensures
            final(self).wf(),
            contains_key(old(self)@, level.price) ==> (r matches Err(l) && l.price == level.price
                && l.orders@ == level.orders@ && final(self)@ == old(self)@),
            !contains_key(old(self)@, level.price) ==> (r is Ok && final(self)@ == spec_insert(
                old(self)@,
                level.price,
                level.orders@,
            )),
    {
        let key = level.price;
        let up = self.find_update(key);
        let ghost nxt = self.lemma_pred_split(up@[0], key);
        let nx = self.link(up[0], 0);
        let dup = match nx {
            Some(t) => self.node_key(t) == key,
            None => false,
        };
        if dup {
            proof {
                assert(self@[nxt].0 == key);
            }
            return Err(level);
        }
        proof {
            self.lemma_split_absent(nxt, key);
            self.lemma_view_sorted();
        }
        let ghost pre = *self;
        let ghost oldview = self@;
        let h = self.random_height();
        let new_idx = self.nodes.len();
        let mut fwd: Vec<Option<usize>> = Vec::new();
        let mut l: usize = 0;
        while l < h
            invariant
                self.nodes == pre.nodes,
                self.length == pre.length,
                self.chain == pre.chain,
                pre.wf(),
                l <= h,
                1 <= h <= MAX_HEIGHT,
                fwd@.len() == l,
                up@.len() == MAX_HEIGHT,
                forall|m: int| 0 <= m < MAX_HEIGHT ==> #[trigger] up@[m] < pre.nodes@.len(),
                forall|m: int| 0 <= m < l ==> #[trigger] fwd@[m] == pre.spec_link(
                    up@[m] as int,
                    m,
                ),
            decreases h - l,
        {
            let lk = self.link(up[l], l);
            fwd.push(lk);
            l += 1;
        }
        let node = Node { key, value: level, live: true, fwd };
        self.nodes.push(node);
        let ghost ns0 = self.nodes@;
        let mut l: usize = 0;
        while l < h
            invariant
                self.length == pre.length,
                self.chain == pre.chain,
                pre.wf(),
                ns0.len() == pre.nodes@.len() + 1,
                forall|j: int| 0 <= j < pre.nodes@.len() ==> #[trigger] ns0[j] == pre.nodes@[j],
                ns0[new_idx as int].key == key,
                ns0[new_idx as int].live == true,
                ns0[new_idx as int].value.price == key,
                ns0[new_idx as int].value.orders@ == level.orders@,
                ns0[new_idx as int].fwd@.len() == h,
                forall|m: int|
                    0 <= m < h ==> #[trigger] ns0[new_idx as int].fwd@[m] == pre.spec_link(
                        up@[m] as int,
                        m,
                    ),
                new_idx == pre.nodes@.len(),
                l <= h,
                1 <= h <= MAX_HEIGHT,
                up@.len() == MAX_HEIGHT,
                forall|m: int| 0 <= m < MAX_HEIGHT ==> #[trigger] up@[m] < pre.nodes@.len(),
                self.nodes@.len() == ns0.len(),
                self.nodes@[new_idx as int] == ns0[new_idx as int],
                forall|j: int|
                    0 <= j < ns0.len() ==> (#[trigger] self.nodes@[j]).key == ns0[j].key
                        && self.nodes@[j].live == ns0[j].live && self.nodes@[j].value
                        == ns0[j].value && self.nodes@[j].fwd@.len() == ns0[j].fwd@.len(),
                forall|j: int, m: int|
                    0 <= j < ns0.len() && 0 <= m < ns0[j].fwd@.len() && (m >= l || up@[m] != j)
                        ==> (#[trigger] self.nodes@[j].fwd@[m]) == ns0[j].fwd@[m],
                forall|m: int|
                    0 <= m < l && m < ns0[up@[m] as int].fwd@.len()
                        ==> (#[trigger] self.nodes@[up@[m] as int].fwd@[m]) == Some(new_idx),
            decreases h - l,
        {
            if l < self.node_height(up[l]) {
                self.set_link(up[l], l, Some(new_idx));
            }
            l += 1;
        }
        self.length = self.length + 1;
        proof {
            self.chain@ = pre.chain@.take(nxt) + seq![new_idx] + pre.chain@.skip(nxt);
        }
        proof {
            self.lemma_insert_restores(pre, oldview, nxt, new_idx, key, level.orders@, h, up@, ns0);
            self.lemma_insert_view(pre, oldview, nxt, new_idx, key, level.orders@, h, up@, ns0);
        }
        Ok(())
    }

    /// Membership and sortedness of the new chain, after the insert splice.
    #[verifier::rlimit(100)]
    proof fn lemma_insert_chain_facts(
        &self,
        pre: SkipList,
        oldview: LevelsView,
        nxt: int,
        new_idx: usize,
        key: u64,
        orders: Seq<LimitOrder>,
        h: usize,
        up: Seq<usize>,
        ns0: Seq<Node>,
    )
        requires
            pre.wf(),
            oldview == pre.view(),
            !contains_key(oldview, key),
            0 <= nxt <= pre.chain@.len(),
            forall|q: int| 0 <= q < nxt ==> pre.nodes@[#[trigger] pre.chain@[q] as int].key < key,
            forall|q: int|
                nxt <= q < pre.chain@.len() ==> pre.nodes@[#[trigger] pre.chain@[q] as int].key
                    >= key,
            pre.spec_link(up[0] as int, 0) == (if nxt < pre.chain@.len() {
                Some(pre.chain@[nxt])
            } else {
                None::<usize>
            }),
            up[0] as int == 0 ==> nxt == 0,
            up[0] as int != 0 ==> pre.cur_ok(up[0], key) && nxt == pre.pos_of(up[0]) + 1,
            forall|m: int| 0 <= m < MAX_HEIGHT ==> pre.cur_ok(#[trigger] up[m], key),
            forall|m: int| 0 <= m < MAX_HEIGHT ==> #[trigger] up[m] < pre.nodes@.len(),
            up.len() == MAX_HEIGHT,
            1 <= h <= MAX_HEIGHT,
            new_idx == pre.nodes@.len(),
            ns0.len() == pre.nodes@.len() + 1,
            forall|j: int| 0 <= j < pre.nodes@.len() ==> #[trigger] ns0[j] == pre.nodes@[j],
            ns0[new_idx as int].key == key,
            ns0[new_idx as int].live == true,
            ns0[new_idx as int].value.price == key,
            ns0[new_idx as int].value.orders@ == orders,
            ns0[new_idx as int].fwd@.len() == h,
            forall|m: int|
                0 <= m < h ==> #[trigger] ns0[new_idx as int].fwd@[m] == pre.spec_link(
                    up[m] as int,
                    m,
                ),
            self.nodes@.len() == ns0.len(),
            self.nodes@[new_idx as int] == ns0[new_idx as int],
            forall|j: int|
                0 <= j < ns0.len() ==> (#[trigger] self.nodes@[j]).key == ns0[j].key
                    && self.nodes@[j].live == ns0[j].live && self.nodes@[j].value == ns0[j].value
                    && self.nodes@[j].fwd@.len() == ns0[j].fwd@.len(),
            forall|j: int, m: int|
                0 <= j < ns0.len() && 0 <= m < ns0[j].fwd@.len() && (m >= h || up[m] != j)
                    ==> (#[trigger] self.nodes@[j].fwd@[m]) == ns0[j].fwd@[m],
            forall|m: int|
                0 <= m < h && m < ns0[up[m] as int].fwd@.len()
                    ==> (#[trigger] self.nodes@[up[m] as int].fwd@[m]) == Some(new_idx),
            self.length == pre.length + 1,
            self.chain@ == pre.chain@.take(nxt) + seq![new_idx] + pre.chain@.skip(nxt),
        ensures
            forall|i: int|
                1 <= i < self.nodes@.len() && (#[trigger] self.nodes@[i].live)
                    ==> self.chain@.contains(i as usize),
            forall|ci: int, cj: int|
                0 <= ci < cj < self.chain@.len() ==> self.nodes@[#[trigger] self.chain@[ci] as int].key
                    < self.nodes@[#[trigger] self.chain@[cj] as int].key,
    {
        let ns = self.nodes@;
        let c = self.chain@;
        let c0 = pre.chain@;
        let n0 = pre.nodes@;
        assert(c.len() == c0.len() + 1);
        assert(forall|q: int| 0 <= q < nxt ==> #[trigger] c[q] == c0[q]);
        assert(c[nxt] == new_idx);
        assert(forall|q: int| nxt < q < c.len() ==> #[trigger] c[q] == c0[q - 1]);
        // live nodes are in the chain
        assert forall|i: int|
            1 <= i < ns.len() && (#[trigger] ns[i].live) implies c.contains(i as usize) by {
            if i == new_idx {
                assert(c[nxt] == i as usize);
            } else {
                assert(n0[i].live);
                assert(c0.contains(i as usize));
                let q = choose|q: int| 0 <= q < c0.len() && c0[q] == i as usize;
                if q < nxt {
                    assert(c[q] == i as usize);
                } else {
                    assert(c[q + 1] == i as usize);
                }
            }
        }
        // sorted keys
        assert forall|ci: int, cj: int|
            0 <= ci < cj < c.len() implies ns[#[trigger] c[ci] as int].key
            < ns[#[trigger] c[cj] as int].key by {
            if cj < nxt {
                assert(n0[c0[ci] as int].key < n0[c0[cj] as int].key);
            } else if ci > nxt {
                assert(n0[c0[ci - 1] as int].key < n0[c0[cj - 1] as int].key);
            } else if ci < nxt && cj == nxt {
                assert(n0[c0[ci] as int].key < key);
            } else if ci == nxt && cj > nxt {
                assert(n0[c0[cj - 1] as int].key >= key);
                assert(n0[c0[cj - 1] as int].key != key) by {
                    if n0[c0[cj - 1] as int].key == key {
                        assert(oldview[cj - 1].0 == key);
                        assert(contains_key(oldview, key));
                    }
                }
            } else {
                assert(ci < nxt && cj > nxt);
                assert(n0[c0[ci] as int].key < key);
                assert(n0[c0[cj - 1] as int].key >= key);
                assert(n0[c0[cj - 1] as int].key != key) by {
                    if n0[c0[cj - 1] as int].key == key {
                        assert(oldview[cj - 1].0 == key);
                        assert(contains_key(oldview, key));
                    }
                }
            }
        }
    }

    /// One level-0 link of the new chain, after the insert splice.
    #[verifier::rlimit(100)]
    proof fn lemma_insert_link_at(
        &self,
        pre: SkipList,
        oldview: LevelsView,
        nxt: int,
        new_idx: usize,
        key: u64,
        orders: Seq<LimitOrder>,
        h: usize,
        up: Seq<usize>,
        ns0: Seq<Node>,
        ci: int,
    )
        requires
            pre.wf(),
            oldview == pre.view(),
            !contains_key(oldview, key),
            0 <= nxt <= pre.chain@.len(),
            forall|q: int| 0 <= q < nxt ==> pre.nodes@[#[trigger] pre.chain@[q] as int].key < key,
            forall|q: int|
                nxt <= q < pre.chain@.len() ==> pre.nodes@[#[trigger] pre.chain@[q] as int].key
                    >= key,
            pre.spec_link(up[0] as int, 0) == (if nxt < pre.chain@.len() {
                Some(pre.chain@[nxt])
            } else {
                None::<usize>
            }),
            up[0] as int == 0 ==> nxt == 0,
            up[0] as int != 0 ==> pre.cur_ok(up[0], key) && nxt == pre.pos_of(up[0]) + 1,
            forall|m: int| 0 <= m < MAX_HEIGHT ==> pre.cur_ok(#[trigger] up[m], key),
            forall|m: int| 0 <= m < MAX_HEIGHT ==> #[trigger] up[m] < pre.nodes@.len(),
            up.len() == MAX_HEIGHT,
            1 <= h <= MAX_HEIGHT,
            new_idx == pre.nodes@.len(),
            ns0.len() == pre.nodes@.len() + 1,
            forall|j: int| 0 <= j < pre.nodes@.len() ==> #[trigger] ns0[j] == pre.nodes@[j],
            ns0[new_idx as int].key == key,
            ns0[new_idx as int].live == true,
            ns0[new_idx as int].value.price == key,
            ns0[new_idx as int].value.orders@ == orders,
            ns0[new_idx as int].fwd@.len() == h,
            forall|m: int|
                0 <= m < h ==> #[trigger] ns0[new_idx as int].fwd@[m] == pre.spec_link(
                    up[m] as int,
                    m,
                ),
            self.nodes@.len() == ns0.len(),
            self.nodes@[new_idx as int] == ns0[new_idx as int],
            forall|j: int|
                0 <= j < ns0.len() ==> (#[trigger] self.nodes@[j]).key == ns0[j].key
                    && self.nodes@[j].live == ns0[j].live && self.nodes@[j].value == ns0[j].value
                    && self.nodes@[j].fwd@.len() == ns0[j].fwd@.len(),
            forall|j: int, m: int|
                0 <= j < ns0.len() && 0 <= m < ns0[j].fwd@.len() && (m >= h || up[m] != j)
                    ==> (#[trigger] self.nodes@[j].fwd@[m]) == ns0[j].fwd@[m],
            forall|m: int|
                0 <= m < h && m < ns0[up[m] as int].fwd@.len()
                    ==> (#[trigger] self.nodes@[up[m] as int].fwd@[m]) == Some(new_idx),
            self.length == pre.length + 1,
            self.chain@ == pre.chain@.take(nxt) + seq![new_idx] + pre.chain@.skip(nxt),
            0 <= ci < self.chain@.len(),
        ensures
            self.nodes@[self.chain@[ci] as int].fwd@[0] == (if ci + 1 < self.chain@.len() {
                Some(self.chain@[ci + 1])
            } else {
                None::<usize>
            }),
    {
        let ns = self.nodes@;
        let c = self.chain@;
        let c0 = pre.chain@;
        let n0 = pre.nodes@;
        assert(c.len() == c0.len() + 1);
        assert(forall|q: int| 0 <= q < nxt ==> #[trigger] c[q] == c0[q]);
        assert(c[nxt] == new_idx);
        assert(forall|q: int| nxt < q < c.len() ==> #[trigger] c[q] == c0[q - 1]);
        assert forall|q1: int, q2: int|
            0 <= q1 < q2 < c0.len() implies #[trigger] c0[q1] != #[trigger] c0[q2] by {
            assert(n0[c0[q1] as int].key < n0[c0[q2] as int].key);
        }
        if nxt > 0 {
            pre.lemma_pos(up[0]);
            assert(c0[nxt - 1] == up[0]);
        }
        assert(0 < ns0[up[0] as int].fwd@.len()) by {
            if up[0] as int != 0 {
                assert(n0[up[0] as int].live);
            }
        }
        assert(ns[up[0] as int].fwd@[0] == Some(new_idx));
        if ci == nxt {
            // the new node: its level-0 link is the old successor
            assert(ns[c[ci] as int].fwd@[0] == pre.spec_link(up[0] as int, 0));
        } else if ci == nxt - 1 {
            // the predecessor was rewired to the new node
            assert(c[ci] == up[0]);
            assert(ns[up[0] as int].fwd@[0] == Some(new_idx));
        } else if ci < nxt - 1 {
            // untouched: not the predecessor, not the head
            assert(c[ci] == c0[ci]);
            assert(c0[ci] != up[0]) by {
                if nxt > 0 {
                    assert(c0[nxt - 1] == up[0]);
                }
            }
            assert(ns[c0[ci] as int].fwd@[0] == n0[c0[ci] as int].fwd@[0]) by {
                if 0 < h && up[0int] == c0[ci] {
                    assert(false);
                }
            }
            assert(n0[c0[ci] as int].fwd@[0] == Some(c0[ci + 1]));
            assert(c[ci + 1] == c0[ci + 1]);
        } else {
            // strictly after the new node: untouched
            assert(c[ci] == c0[ci - 1]);
            assert(c0[ci - 1] != up[0]) by {
                if nxt > 0 {
                    assert(c0[nxt - 1] == up[0]);
                }
                if up[0] as int == 0 {
                    assert(1 <= c0[ci - 1]);
                }
            }
            assert(ns[c0[ci - 1] as int].fwd@[0] == n0[c0[ci - 1] as int].fwd@[0]) by {
                if 0 < h && up[0int] == c0[ci - 1] {
                    assert(false);
                }
            }
            if ci + 1 < c.len() {
                assert(n0[c0[ci - 1] as int].fwd@[0] == Some(c0[ci]));
                assert(c[ci + 1] == c0[ci]);
            }
        }
    }

    /// After the splice, the structural invariant holds again and the view
    /// is the sorted insertion into the old view.
    #[verifier::rlimit(100)]
    proof fn lemma_insert_restores(
        &self,
        pre: SkipList,
        oldview: LevelsView,
        nxt: int,
        new_idx: usize,
        key: u64,
        orders: Seq<LimitOrder>,
        h: usize,
        up: Seq<usize>,
        ns0: Seq<Node>,
    )
        requires
            pre.wf(),
            oldview == pre.view(),
            !contains_key(oldview, key),
            0 <= nxt <= pre.chain@.len(),
            forall|q: int| 0 <= q < nxt ==> pre.nodes@[#[trigger] pre.chain@[q] as int].key < key,
            forall|q: int|
                nxt <= q < pre.chain@.len() ==> pre.nodes@[#[trigger] pre.chain@[q] as int].key
                    >= key,
            pre.spec_link(up[0] as int, 0) == (if nxt < pre.chain@.len() {
                Some(pre.chain@[nxt])
            } else {
                None::<usize>
            }),
            up[0] as int == 0 ==> nxt == 0,
            up[0] as int != 0 ==> pre.cur_ok(up[0], key) && nxt == pre.pos_of(up[0]) + 1,
            forall|m: int| 0 <= m < MAX_HEIGHT ==> pre.cur_ok(#[trigger] up[m], key),
            forall|m: int| 0 <= m < MAX_HEIGHT ==> #[trigger] up[m] < pre.nodes@.len(),
            up.len() == MAX_HEIGHT,
            1 <= h <= MAX_HEIGHT,
            new_idx == pre.nodes@.len(),
            ns0.len() == pre.nodes@.len() + 1,
            forall|j: int| 0 <= j < pre.nodes@.len() ==> #[trigger] ns0[j] == pre.nodes@[j],
            ns0[new_idx as int].key == key,
            ns0[new_idx as int].live == true,
            ns0[new_idx as int].value.price == key,
            ns0[new_idx as int].value.orders@ == orders,
            ns0[new_idx as int].fwd@.len() == h,
            forall|m: int|
                0 <= m < h ==> #[trigger] ns0[new_idx as int].fwd@[m] == pre.spec_link(
                    up[m] as int,
                    m,
                ),
            self.nodes@.len() == ns0.len(),
            self.nodes@[new_idx as int] == ns0[new_idx as int],
            forall|j: int|
                0 <= j < ns0.len() ==> (#[trigger] self.nodes@[j]).key == ns0[j].key
                    && self.nodes@[j].live == ns0[j].live && self.nodes@[j].value == ns0[j].value
                    && self.nodes@[j].fwd@.len() == ns0[j].fwd@.len(),
            forall|j: int, m: int|
                0 <= j < ns0.len() && 0 <= m < ns0[j].fwd@.len() && (m >= h || up[m] != j)
                    ==> (#[trigger] self.nodes@[j].fwd@[m]) == ns0[j].fwd@[m],
            forall|m: int|
                0 <= m < h && m < ns0[up[m] as int].fwd@.len()
                    ==> (#[trigger] self.nodes@[up[m] as int].fwd@[m]) == Some(new_idx),
            self.length == pre.length + 1,
            self.chain@ == pre.chain@.take(nxt) + seq![new_idx] + pre.chain@.skip(nxt),
        ensures
            self.wf(),
    {
        let ns = self.nodes@;
        let c = self.chain@;
        let c0 = pre.chain@;
        let n0 = pre.nodes@;
        // chain element mapping
        assert(c.len() == c0.len() + 1);
        assert(forall|q: int| 0 <= q < nxt ==> #[trigger] c[q] == c0[q]);
        assert(c[nxt] == new_idx);
        assert(forall|q: int| nxt < q < c.len() ==> #[trigger] c[q] == c0[q - 1]);
        // distinct chain keys in pre imply distinct node indices
        assert(forall|q1: int, q2: int|
            0 <= q1 < q2 < c0.len() ==> #[trigger] c0[q1] != #[trigger] c0[q2]) by {
            assert forall|q1: int, q2: int|
                0 <= q1 < q2 < c0.len() implies #[trigger] c0[q1] != #[trigger] c0[q2] by {
                assert(n0[c0[q1] as int].key < n0[c0[q2] as int].key);
            }
        }
        // the old predecessor in the chain, if any
        if nxt > 0 {
            pre.lemma_pos(up[0]);
            assert(c0[nxt - 1] == up[0]);
        }
        // bounds
        assert forall|ci: int| 0 <= ci < c.len() implies 1 <= #[trigger] c[ci] < ns.len() by {
            if ci < nxt || ci > nxt {
            }
        }
        // live flags
        assert forall|ci: int| 0 <= ci < c.len() implies ns[#[trigger] c[ci] as int].live by {}
        self.lemma_insert_chain_facts(pre, oldview, nxt, new_idx, key, orders, h, up, ns0);
        assert(forall|i: int|
            1 <= i < ns.len() && (#[trigger] ns[i].live) ==> c.contains(i as usize));
        assert(forall|ci: int, cj: int|
            0 <= ci < cj < c.len() ==> ns[#[trigger] c[ci] as int].key
                < ns[#[trigger] c[cj] as int].key);
        // level-0 links thread the new chain
        assert(0 < ns0[up[0] as int].fwd@.len()) by {
            if up[0] as int != 0 {
                assert(n0[up[0] as int].live);
            }
        }
        assert(ns[up[0] as int].fwd@[0] == Some(new_idx));
        assert(ns[0].fwd@[0] == (if c.len() > 0 {
            Some(c[0])
        } else {
            None::<usize>
        })) by {
            if nxt == 0 {
                if up[0] as int == 0 {
                }
                assert(up[0] as int == 0 || nxt > 0);
            } else {
                assert(up[0] as int != 0 || nxt == 0);
                assert(0 != up[0]);
                assert(ns[0].fwd@[0] == ns0[0].fwd@[0]) by {
                    if 0 < h && up[0int] == 0usize {
                        assert(false);
                    }
                }
                assert(c[0] == c0[0]);
            }
        }
        assert forall|ci: int|
            0 <= ci < c.len() implies ns[#[trigger] c[ci] as int].fwd@[0] == (if ci + 1 < c.len() {
                Some(c[ci + 1])
            } else {
                None::<usize>
            }) by {
            self.lemma_insert_link_at(pre, oldview, nxt, new_idx, key, orders, h, up, ns0, ci);
        }
        // every forward link still lands in the arena
        assert forall|i: int, l: int|
            0 <= i < ns.len() && 0 <= l < ns[i].fwd@.len() && (#[trigger] ns[i].fwd@[l]) is Some
                implies 1 <= ns[i].fwd@[l]->Some_0 < ns.len() by {
            if i == new_idx {
                assert(ns[i].fwd@[l] == pre.spec_link(up[l] as int, l));
            } else if 0 <= l < h && up[l] == i as usize && l < ns0[i].fwd@.len() {
                assert(ns[i].fwd@[l] == Some(new_idx));
            } else {
                assert(ns[i].fwd@[l] == ns0[i].fwd@[l]);
            }
        }
        assert(self.wf());
    }

    /// After the splice, the view is the sorted insertion into the old view.
    #[verifier::rlimit(100)]
    proof fn lemma_insert_view(
        &self,
        pre: SkipList,
        oldview: LevelsView,
        nxt: int,
        new_idx: usize,
        key: u64,
        orders: Seq<LimitOrder>,
        h: usize,
        up: Seq<usize>,
        ns0: Seq<Node>,
    )
        requires
            pre.wf(),
            oldview == pre.view(),
            !contains_key(oldview, key),
            0 <= nxt <= pre.chain@.len(),
            forall|q: int| 0 <= q < nxt ==> pre.nodes@[#[trigger] pre.chain@[q] as int].key < key,
            forall|q: int|
                nxt <= q < pre.chain@.len() ==> pre.nodes@[#[trigger] pre.chain@[q] as int].key
                    >= key,
            new_idx == pre.nodes@.len(),
            ns0.len() == pre.nodes@.len() + 1,
            forall|j: int| 0 <= j < pre.nodes@.len() ==> #[trigger] ns0[j] == pre.nodes@[j],
            ns0[new_idx as int].key == key,
            ns0[new_idx as int].value.orders@ == orders,
            self.nodes@.len() == ns0.len(),
            self.nodes@[new_idx as int] == ns0[new_idx as int],
            forall|j: int|
                0 <= j < ns0.len() ==> (#[trigger] self.nodes@[j]).key == ns0[j].key
                    && self.nodes@[j].value == ns0[j].value,
            self.chain@ == pre.chain@.take(nxt) + seq![new_idx] + pre.chain@.skip(nxt),
        ensures
            self.view() == spec_insert(oldview, key, orders),
    {
        let ns = self.nodes@;
        let c = self.chain@;
        let c0 = pre.chain@;
        let n0 = pre.nodes@;
        assert(c.len() == c0.len() + 1);
        assert(forall|q: int| 0 <= q < nxt ==> #[trigger] c[q] == c0[q]);
        assert(c[nxt] == new_idx);
        assert(forall|q: int| nxt < q < c.len() ==> #[trigger] c[q] == c0[q - 1]);
        assert(self.view() =~= oldview.take(nxt) + seq![(key, orders)] + oldview.skip(nxt)) by {
            assert forall|q: int| 0 <= q < c.len() implies self.view()[q] == (oldview.take(nxt)
                + seq![(key, orders)] + oldview.skip(nxt))[q] by {
                if q < nxt {
                    assert(self.view()[q] == (ns[c0[q] as int].key, ns[c0[q] as int].value.orders@));
                    assert(oldview[q] == (n0[c0[q] as int].key, n0[c0[q] as int].value.orders@));
                } else if q > nxt {
                    assert(self.view()[q] == (
                        ns[c0[q - 1] as int].key,
                        ns[c0[q - 1] as int].value.orders@,
                    ));
                    assert(oldview[q - 1] == (
                        n0[c0[q - 1] as int].key,
                        n0[c0[q - 1] as int].value.orders@,
                    ));
                }
            }
        }
        assert forall|i: int| 0 <= i < nxt implies (#[trigger] oldview[i]).0 < key by {}
        assert(nxt < oldview.len() ==> oldview[nxt].0 > key) by {
            if nxt < oldview.len() {
                assert(oldview[nxt].0 >= key);
                if oldview[nxt].0 == key {
                    assert(contains_key(oldview, key));
                }
            }
        }
        pre.lemma_view_sorted();
        lemma_spec_insert_at(oldview, key, orders, nxt);
    }

    /// View keys are sorted and count the live levels: the level-0 traversal
    /// yields strictly increasing keys.
    pub proof fn lemma_view_sorted(&self)
        requires
            self.wf(),
        ensures
            keys_sorted(self@),
    {
    }

    /// An empty index, with the head sentinel only. `seed` drives the
    /// injectable height randomness, for reproducible runs.
    pub fn new(seed: u64) -> (r: SkipList)
        ensures
            r.wf(),
            r@ == Seq::<(u64, Seq<LimitOrder>)>::empty(),
    {
        let mut fwd: Vec<Option<usize>> = Vec::new();
        let mut l: usize = 0;
        while l < MAX_HEIGHT
            invariant
                l <= MAX_HEIGHT,
                fwd@.len() == l,
                forall|i: int| 0 <= i < l ==> fwd@[i] is None,
            decreases MAX_HEIGHT - l,
        {
            fwd.push(None);
            l += 1;
        }
        let head = Node { key: 0, value: PriceLevel::new(0), live: false, fwd };
        let mut nodes: Vec<Node> = Vec::new();
        nodes.push(head);
        let r = SkipList { nodes, length: 0, rng: if seed == 0 { 1 } else { seed }, chain: Ghost(Seq::empty()) };
        proof {
            assert(r@ =~= Seq::<(u64, Seq<LimitOrder>)>::empty());
        }
        r
    }

    /// Count of stored price levels.
    pub fn len(&self) -> (r: usize)
        requires
            self.wf(),
        ensures
            r == self@.len(),
    {
        self.length
    }

    /// Expected-logarithmic lookup of the level with exactly this key.
    pub fn search(&self, key: u64) -> (r: Option<&PriceLevel>)
        requires
            self.wf(),
        ensures
            match r {
                Some(p) => contains_key(self@, key) && p.price == key && p.orders@ == orders_at(
                    self@,
                    key,
                ),
                None => !contains_key(self@, key),
            },
    {
        let up = self.find_update(key);
        let pred = up[0];
        let ghost nxt = self.lemma_pred_split(pred, key);
        let nx = self.link(pred, 0);
        match nx {
            Some(t) => {
                proof {
                    assert(nxt < self.chain@.len() && self.chain@[nxt] == t);
                }
                if self.node_key(t) == key {
                    proof {
                        assert(self@[nxt] == (
                            self.nodes@[self.chain@[nxt] as int].key,
                            self.nodes@[self.chain@[nxt] as int].value.orders@,
                        ));
                        lemma_orders_at_index(self@, nxt, key);
                    }
                    Some(&self.nodes[t].value)
                } else {
                    proof {
                        self.lemma_split_absent(nxt, key);
                    }
                    None
                }
            },
            None => {
                proof {
                    self.lemma_split_absent(nxt, key);
                }
                None
            },
        }
    }

    /// If every chain key below `nxt` is under `key` and the key at `nxt`
    /// (if any) is not `key`, then `key` is absent.
    proof fn lemma_split_absent(&self, nxt: int, key: u64)
        requires
            self.wf(),
            0 <= nxt <= self.chain@.len(),
            forall|q: int| 0 <= q < nxt ==> self.nodes@[#[trigger] self.chain@[q] as int].key < key,
            forall|q: int|
                nxt <= q < self.chain@.len() ==> self.nodes@[#[trigger] self.chain@[q] as int].key
                    >= key,
            nxt < self.chain@.len() ==> self.nodes@[self.chain@[nxt] as int].key != key,
        ensures
            !contains_key(self@, key),
    {
        let c = self.chain@;
        let ns = self.nodes@;
        assert forall|i: int| 0 <= i < self@.len() implies (#[trigger] self@[i]).0 != key by {
            if i >= nxt && i > nxt {
                assert(ns[c[nxt] as int].key < ns[c[i] as int].key);
            }
        }
    }

    /// Best level under the ascending-key convention: the level-0 successor
    /// of the head sentinel.
    pub fn min(&self) -> (r: Option<u64>)
        requires
            self.wf(),
        ensures
            r == (if self@.len() == 0 {
                None::<u64>
            } else {
                Some(self@[0].0)
            }),
    {
        let nx = self.link(0, 0);
        match nx {
            Some(t) => {
                proof {
                    assert(self.chain@.len() > 0 && self.chain@[0] == t);
                    assert(self@[0] == (
                        self.nodes@[self.chain@[0] as int].key,
                        self.nodes@[self.chain@[0] as int].value.orders@,
                    ));
                }
                Some(self.node_key(t))
            },
            None => None,
        }
    }

    /// Looks up a level and hands back a copy of it, keyed by price.
    pub fn search_by_price(&self, price: u64) -> (r: Option<PriceLevel>)
        requires
            self.wf(),
        ensures
            match r {
                Some(p) => contains_key(self@, price) && p.price == price && p.orders@
                    == orders_at(self@, price),
                None => !contains_key(self@, price),
            },
    {
        match self.search(price) {
            Some(lvl) => Some(lvl.clone()),
            None => None,
        }
    }

    /// The level-0 traversal: every stored key, in strictly increasing
    /// order.
    pub fn keys_in_order(&self) -> (r: Vec<u64>)
        requires
            self.wf(),
        ensures
            r@.len() == self@.len(),
            forall|i: int| 0 <= i < self@.len() ==> r@[i] == (#[trigger] self@[i]).0,
    {
        let mut out: Vec<u64> = Vec::new();
        let mut cur: usize = 0;
        let mut go = true;
        while go
            invariant
                self.wf(),
                out@.len() <= self.chain@.len(),
                forall|i: int| 0 <= i < out@.len() ==> #[trigger] out@[i] == self@[i].0,
                if out@.len() == 0 {
                    cur == 0
                } else {
                    cur == self.chain@[out@.len() - 1]
                },
                cur < self.nodes@.len(),
                !go ==> out@.len() == self.chain@.len(),
            decreases self.chain@.len() - out@.len(), if go { 1int } else { 0int },
        {
            let nx = self.link(cur, 0);
            match nx {
                Some(tt) => {
                    proof {
                        assert(out@.len() < self.chain@.len() && self.chain@[out@.len() as int]
                            == tt);
                        assert(self@[out@.len() as int].0 == self.nodes@[tt as int].key);
                    }
                    out.push(self.node_key(tt));
                    cur = tt;
                },
                None => {
                    go = false;
                },
            }
        }
        out
    }

    /// Greatest key: the terminal node of the level-0 list, reached by the
    /// same descent with an unreachable target.
    pub fn max(&self) -> (r: Option<u64>)
        requires
            self.wf(),
        ensures
            r == (if self@.len() == 0 {
                None::<u64>
            } else {
                Some(self@[self@.len() - 1].0)
            }),
    {
        let up = self.find_update(u64::MAX);
        let ghost nxt = self.lemma_pred_split(up@[0], u64::MAX);
        let nx = self.link(up[0], 0);
        match nx {
            Some(t) => {
                proof {
                    assert(nxt < self.chain@.len() && self.chain@[nxt] == t);
                    assert(self.nodes@[t as int].key >= u64::MAX);
                    if nxt + 1 < self.chain@.len() {
                        assert(self.nodes@[self.chain@[nxt] as int].key
                            < self.nodes@[self.chain@[nxt + 1] as int].key);
                        assert(false);
                    }
                    assert(self@[nxt].0 == self.nodes@[t as int].key);
                }
                Some(self.node_key(t))
            },
            None => {
                if up[0] == 0 {
                    proof {
                        assert(nxt == 0 && nxt == self.chain@.len());
                    }
                    None
                } else {
                    proof {
                        assert(nxt == self.chain@.len());
                        self.lemma_pos(up@[0]);
                        assert(self.chain@[nxt - 1] == up@[0]);
                        assert(self@[nxt - 1].0 == self.nodes@[up@[0] as int].key);
                    }
                    Some(self.node_key(up[0]))
                }
            },
        }
    }

    fn set_dead(&mut self, i: usize)
        requires
            i < old(self).nodes@.len(),
        ensures
            final(self).nodes@.len() == old(self).nodes@.len(),
            final(self).nodes@[i as int].fwd == old(self).nodes@[i as int].fwd,
            final(self).nodes@[i as int].key == old(self).nodes@[i as int].key,
            final(self).nodes@[i as int].live == false,
            final(self).nodes@[i as int].value == old(self).nodes@[i as int].value,
            forall|j: int|
                0 <= j < old(self).nodes@.len() && j != i ==> final(self).nodes@[j] == old(
                    self,
                ).nodes@[j],
            final(self).length == old(self).length,
            final(self).rng == old(self).rng,
            final(self).chain == old(self).chain,
    {
        self.nodes[i].live = false;
    }

    /// Moves the stored level out of a node, leaving an empty placeholder.
    fn take_value(&mut self, i: usize, key: u64) -> (r: PriceLevel)
        requires
            i < old(self).nodes@.len(),
        ensures
            r == old(self).nodes@[i as int].value,
            final(self).nodes@.len() == old(self).nodes@.len(),
            final(self).nodes@[i as int].fwd == old(self).nodes@[i as int].fwd,
            final(self).nodes@[i as int].key == old(self).nodes@[i as int].key,
            final(self).nodes@[i as int].live == old(self).nodes@[i as int].live,
            forall|j: int|
                0 <= j < old(self).nodes@.len() && j != i ==> final(self).nodes@[j] == old(
                    self,
                ).nodes@[j],
            final(self).length == old(self).length,
            final(self).rng == old(self).rng,
            final(self).chain == old(self).chain,
    {
        let mut tmp = PriceLevel::new(key);
        core::mem::swap(&mut self.nodes[i].value, &mut tmp);
        tmp
    }

    /// Unlinks the level with this key at every height where an update
    /// node's successor is that level's node; no-op if the key is absent.
    /// Returns the removed level.
    pub fn delete(&mut self, key: u64) -> (r: Option<PriceLevel>)
        requires
            old(self).wf(),
        ensures
            final(self).wf(),
            contains_key(old(self)@, key) ==> (r matches Some(lvl) && lvl.price == key
                && lvl.orders@ == orders_at(old(self)@, key) && final(self)@ == spec_remove(
                old(self)@,
                key,
            )),
            !contains_key(old(self)@, key) ==> (r is None && final(self)@ == old(self)@),
    {
        let up = self.find_update(key);
        let ghost nxt = self.lemma_pred_split(up@[0], key);
        let nx = self.link(up[0], 0);
        let (hit, t) = match nx {
            Some(t2) => (self.node_key(t2) == key, t2),
            None => (false, 0usize),
        };
        if !hit {
            proof {
                self.lemma_split_absent(nxt, key);
            }
            return None;
        }
        proof {
            assert(nxt < self.chain@.len() && self.chain@[nxt] == t);
            assert(self@[nxt].0 == key);
            self.lemma_view_sorted();
            lemma_orders_at_index(self@, nxt, key);
            assert forall|m: int| 0 <= m < MAX_HEIGHT implies #[trigger] up@[m] != t by {
                if up@[m] != 0 {
                    assert(self.nodes@[up@[m] as int].key < key);
                }
            }
        }
        let ghost pre = *self;
        let ghost oldview = self@;
        let mut l: usize = 0;
        while l < MAX_HEIGHT
            invariant
                pre.wf(),
                l <= MAX_HEIGHT,
                up@.len() == MAX_HEIGHT,
                forall|m: int| 0 <= m < MAX_HEIGHT ==> pre.cur_ok(#[trigger] up@[m], key),
                forall|m: int| 0 <= m < MAX_HEIGHT ==> #[trigger] up@[m] < pre.nodes@.len(),
                forall|m: int| 0 <= m < MAX_HEIGHT ==> #[trigger] up@[m] != t,
                0 <= nxt < pre.chain@.len(),
                t == pre.chain@[nxt],
                1 <= t < pre.nodes@.len(),
                pre.nodes@[t as int].key == key,
                self.length == pre.length,
                self.chain == pre.chain,
                self.nodes@.len() == pre.nodes@.len(),
                forall|j: int|
                    0 <= j < pre.nodes@.len() ==> (#[trigger] self.nodes@[j]).key
                        == pre.nodes@[j].key && self.nodes@[j].live == pre.nodes@[j].live
                        && self.nodes@[j].value == pre.nodes@[j].value
                        && self.nodes@[j].fwd@.len() == pre.nodes@[j].fwd@.len(),
                forall|j: int, m: int|
                    0 <= j < pre.nodes@.len() && 0 <= m < pre.nodes@[j].fwd@.len() && !(m < l && j
                        == up@[m] && pre.nodes@[j].fwd@[m] == Some(t)) ==> (
                    #[trigger] self.nodes@[j].fwd@[m]) == pre.nodes@[j].fwd@[m],
                forall|m: int|
                    0 <= m < l && m < pre.nodes@[up@[m] as int].fwd@.len()
                        && pre.nodes@[up@[m] as int].fwd@[m] == Some(t) ==> (
                    #[trigger] self.nodes@[up@[m] as int].fwd@[m]) == pre.spec_link(t as int, m),
            decreases MAX_HEIGHT - l,
        {
            if l < self.node_height(up[l]) {
                let cl = self.link(up[l], l);
                let is_target = match cl {
                    Some(x) => x == t,
                    None => false,
                };
                if is_target {
                    let tl = self.link(t, l);
                    proof {
                        assert(self.nodes@[t as int].fwd@ == pre.nodes@[t as int].fwd@) by {
                            assert forall|m: int|
                                0 <= m < pre.nodes@[t as int].fwd@.len() implies (
                            #[trigger] self.nodes@[t as int].fwd@[m]) == pre.nodes@[t
                                as int].fwd@[m] by {}
                            assert(self.nodes@[t as int].fwd@ =~= pre.nodes@[t as int].fwd@);
                        }
                    }
                    self.set_link(up[l], l, tl);
                }
            }
            l += 1;
        }
        self.set_dead(t);
        let out = self.take_value(t, key);
        self.length = self.length - 1;
        proof {
            self.chain@ = pre.chain@.take(nxt) + pre.chain@.skip(nxt + 1);
        }
        proof {
            self.lemma_delete_restores(pre, oldview, nxt, t, key, up@);
            self.lemma_delete_view(pre, oldview, nxt, t, key);
        }
        Some(out)
    }

    /// After the unlink, the structural invariant holds again.
    #[verifier::rlimit(100)]
    proof fn lemma_delete_restores(
        &self,
        pre: SkipList,
        oldview: LevelsView,
        nxt: int,
        t: usize,
        key: u64,
        up: Seq<usize>,
    )
        requires
            pre.wf(),
            oldview == pre.view(),
            0 <= nxt < pre.chain@.len(),
            t == pre.chain@[nxt],
            1 <= t < pre.nodes@.len(),
            pre.nodes@[t as int].key == key,
            up.len() == MAX_HEIGHT,
            forall|m: int| 0 <= m < MAX_HEIGHT ==> pre.cur_ok(#[trigger] up[m], key),
            forall|m: int| 0 <= m < MAX_HEIGHT ==> #[trigger] up[m] < pre.nodes@.len(),
            forall|m: int| 0 <= m < MAX_HEIGHT ==> #[trigger] up[m] != t,
            up[0] as int == 0 ==> nxt == 0,
            up[0] as int != 0 ==> pre.cur_ok(up[0], key) && nxt == pre.pos_of(up[0]) + 1,
            forall|q: int| 0 <= q < nxt ==> pre.nodes@[#[trigger] pre.chain@[q] as int].key < key,
            self.nodes@.len() == pre.nodes@.len(),
            forall|j: int|
                0 <= j < pre.nodes@.len() ==> (#[trigger] self.nodes@[j]).key
                    == pre.nodes@[j].key && self.nodes@[j].fwd@.len() == pre.nodes@[j].fwd@.len(),
            forall|j: int|
                0 <= j < pre.nodes@.len() && j != t ==> (#[trigger] self.nodes@[j]).live
                    == pre.nodes@[j].live && self.nodes@[j].value == pre.nodes@[j].value,
            self.nodes@[t as int].live == false,
            forall|j: int, m: int|
                0 <= j < pre.nodes@.len() && 0 <= m < pre.nodes@[j].fwd@.len() && !(m < MAX_HEIGHT
                    && j == up[m] && pre.nodes@[j].fwd@[m] == Some(t)) ==> (
                #[trigger] self.nodes@[j].fwd@[m]) == pre.nodes@[j].fwd@[m],
            forall|m: int|
                0 <= m < MAX_HEIGHT && m < pre.nodes@[up[m] as int].fwd@.len()
                    && pre.nodes@[up[m] as int].fwd@[m] == Some(t) ==> (
                #[trigger] self.nodes@[up[m] as int].fwd@[m]) == pre.spec_link(t as int, m),
            self.length == pre.length - 1,
            self.chain@ == pre.chain@.take(nxt) + pre.chain@.skip(nxt + 1),
        ensures
            self.wf(),
    {
        vstd::std_specs::vec::axiom_spec_len(&self.nodes);
        let ns = self.nodes@;
        let c = self.chain@;
        let c0 = pre.chain@;
        let n0 = pre.nodes@;
        assert(c.len() == c0.len() - 1);
        assert(forall|q: int| 0 <= q < nxt ==> #[trigger] c[q] == c0[q]);
        assert(forall|q: int| nxt <= q < c.len() ==> #[trigger] c[q] == c0[q + 1]);
        assert forall|q1: int, q2: int|
            0 <= q1 < q2 < c0.len() implies #[trigger] c0[q1] != #[trigger] c0[q2] by {
            assert(n0[c0[q1] as int].key < n0[c0[q2] as int].key);
        }
        if nxt > 0 {
            pre.lemma_pos(up[0]);
            assert(c0[nxt - 1] == up[0]);
        }
        // live flags and membership
        assert forall|ci: int| 0 <= ci < c.len() implies ns[#[trigger] c[ci] as int].live by {
            if ci < nxt {
                assert(c0[ci] != c0[nxt]);
            } else {
                assert(c0[ci + 1] != c0[nxt]);
            }
        }
        assert forall|i: int|
            1 <= i < ns.len() && (#[trigger] ns[i].live) implies c.contains(i as usize) by {
            assert(i != t);
            assert(n0[i].live);
            assert(c0.contains(i as usize));
            let q = choose|q: int| 0 <= q < c0.len() && c0[q] == i as usize;
            assert(q != nxt);
            if q < nxt {
                assert(c[q] == i as usize);
            } else {
                assert(c[q - 1] == i as usize);
            }
        }
        // the only level-0 in-pointer to t is its chain predecessor
        assert(0 < n0[up[0] as int].fwd@.len()) by {
            if up[0] as int != 0 {
                assert(n0[up[0] as int].live);
            }
        }
        assert(pre.spec_link(up[0] as int, 0) == Some(t)) by {
            if up[0] as int == 0 {
                assert(n0[0].fwd@[0] == Some(c0[0]));
            } else {
                assert(n0[c0[nxt - 1] as int].fwd@[0] == Some(c0[nxt]));
            }
        }
        assert(ns[up[0] as int].fwd@[0] == pre.spec_link(t as int, 0));
        // level-0 links thread the shorter chain
        assert(ns[0].fwd@[0] == (if c.len() > 0 {
            Some(c[0])
        } else {
            None::<usize>
        })) by {
            if nxt == 0 {
                assert(up[0] as int == 0 || nxt > 0);
                assert(ns[0].fwd@[0] == pre.spec_link(t as int, 0));
                if c.len() > 0 {
                    assert(n0[t as int].fwd@[0] == Some(c0[1]));
                    assert(c[0] == c0[1]);
                } else {
                    assert(n0[t as int].fwd@[0] == None::<usize>);
                }
            } else {
                assert(c0[nxt - 1] != 0usize) by {
                    assert(1 <= c0[nxt - 1]);
                }
                assert(ns[0].fwd@[0] == n0[0].fwd@[0]) by {
                    if 0 < MAX_HEIGHT && up[0int] == 0usize && n0[0].fwd@[0] == Some(t) {
                        assert(n0[0].fwd@[0] == Some(c0[0]));
                        assert(c0[0] == t);
                        assert(c0[nxt] == t);
                        assert(false);
                    }
                }
                assert(n0[0].fwd@[0] == Some(c0[0]));
                assert(c[0] == c0[0]);
            }
        }
        assert forall|ci: int|
            0 <= ci < c.len() implies ns[#[trigger] c[ci] as int].fwd@[0] == (if ci + 1 < c.len() {
                Some(c[ci + 1])
            } else {
                None::<usize>
            }) by {
            self.lemma_delete_link_at(pre, oldview, nxt, t, key, up, ci);
        }

        // every forward link still lands in the arena
        assert forall|i: int, l: int|
            0 <= i < ns.len() && 0 <= l < ns[i].fwd@.len() && (#[trigger] ns[i].fwd@[l]) is Some
                implies 1 <= ns[i].fwd@[l]->Some_0 < ns.len() by {
            if 0 <= l < MAX_HEIGHT && up[l] == i as usize && l < n0[i].fwd@.len() && n0[i].fwd@[l]
                == Some(t) {
                assert(up[l] as int == i);
                assert(self.nodes@[up[l] as int].fwd@[l] == pre.spec_link(t as int, l));
            } else {
                assert(ns[i].fwd@[l] == n0[i].fwd@[l]);
            }
        }
        assert(self.wf());
    }

    /// One level-0 link of the shorter chain, after the unlink.
    #[verifier::rlimit(100)]
    proof fn lemma_delete_link_at(
        &self,
        pre: SkipList,
        oldview: LevelsView,
        nxt: int,
        t: usize,
        key: u64,
        up: Seq<usize>,
        ci: int,
    )
        requires
            pre.wf(),
            oldview == pre.view(),
            0 <= nxt < pre.chain@.len(),
            t == pre.chain@[nxt],
            1 <= t < pre.nodes@.len(),
            pre.nodes@[t as int].key == key,
            up.len() == MAX_HEIGHT,
            forall|m: int| 0 <= m < MAX_HEIGHT ==> pre.cur_ok(#[trigger] up[m], key),
            forall|m: int| 0 <= m < MAX_HEIGHT ==> #[trigger] up[m] < pre.nodes@.len(),
            forall|m: int| 0 <= m < MAX_HEIGHT ==> #[trigger] up[m] != t,
            up[0] as int == 0 ==> nxt == 0,
            up[0] as int != 0 ==> pre.cur_ok(up[0], key) && nxt == pre.pos_of(up[0]) + 1,
            forall|q: int| 0 <= q < nxt ==> pre.nodes@[#[trigger] pre.chain@[q] as int].key < key,
            self.nodes@.len() == pre.nodes@.len(),
            forall|j: int|
                0 <= j < pre.nodes@.len() ==> (#[trigger] self.nodes@[j]).key
                    == pre.nodes@[j].key && self.nodes@[j].fwd@.len() == pre.nodes@[j].fwd@.len(),
            forall|j: int|
                0 <= j < pre.nodes@.len() && j != t ==> (#[trigger] self.nodes@[j]).live
                    == pre.nodes@[j].live && self.nodes@[j].value == pre.nodes@[j].value,
            self.nodes@[t as int].live == false,
            forall|j: int, m: int|
                0 <= j < pre.nodes@.len() && 0 <= m < pre.nodes@[j].fwd@.len() && !(m < MAX_HEIGHT
                    && j == up[m] && pre.nodes@[j].fwd@[m] == Some(t)) ==> (
                #[trigger] self.nodes@[j].fwd@[m]) == pre.nodes@[j].fwd@[m],
            forall|m: int|
                0 <= m < MAX_HEIGHT && m < pre.nodes@[up[m] as int].fwd@.len()
                    && pre.nodes@[up[m] as int].fwd@[m] == Some(t) ==> (
                #[trigger] self.nodes@[up[m] as int].fwd@[m]) == pre.spec_link(t as int, m),
            self.length == pre.length - 1,
            self.chain@ == pre.chain@.take(nxt) + pre.chain@.skip(nxt + 1),
            0 <= ci < self.chain@.len(),
        ensures
            self.nodes@[self.chain@[ci] as int].fwd@[0] == (if ci + 1 < self.chain@.len() {
                Some(self.chain@[ci + 1])
            } else {
                None::<usize>
            }),
    {
        let ns = self.nodes@;
        let c = self.chain@;
        let c0 = pre.chain@;
        let n0 = pre.nodes@;
        assert(c.len() == c0.len() - 1);
        assert(forall|q: int| 0 <= q < nxt ==> #[trigger] c[q] == c0[q]);
        assert(forall|q: int| nxt <= q < c.len() ==> #[trigger] c[q] == c0[q + 1]);
        assert forall|q1: int, q2: int|
            0 <= q1 < q2 < c0.len() implies #[trigger] c0[q1] != #[trigger] c0[q2] by {
            assert(n0[c0[q1] as int].key < n0[c0[q2] as int].key);
        }
        if nxt > 0 {
            pre.lemma_pos(up[0]);
            assert(c0[nxt - 1] == up[0]);
        }
        assert(0 < n0[up[0] as int].fwd@.len()) by {
            if up[0] as int != 0 {
                assert(n0[up[0] as int].live);
            }
        }
        assert(pre.spec_link(up[0] as int, 0) == Some(t)) by {
            if up[0] as int == 0 {
                assert(n0[0].fwd@[0] == Some(c0[0]));
            } else {
                assert(n0[c0[nxt - 1] as int].fwd@[0] == Some(c0[nxt]));
            }
        }
        assert(ns[up[0] as int].fwd@[0] == pre.spec_link(t as int, 0));
            if ci == nxt - 1 {
                // the predecessor now links past t
                assert(c[ci] == c0[ci] && c0[ci] == up[0]);
                assert(ns[up[0] as int].fwd@[0] == pre.spec_link(t as int, 0));
                if ci + 1 < c.len() {
                    assert(n0[t as int].fwd@[0] == Some(c0[nxt + 1]));
                    assert(c[ci + 1] == c0[nxt + 1]);
                } else {
                    assert(n0[t as int].fwd@[0] == None::<usize>);
                }
            } else if ci < nxt - 1 {
                assert(c[ci] == c0[ci]);
                assert(c0[ci] != up[0]) by {
                    if nxt > 0 {
                        assert(c0[nxt - 1] == up[0]);
                    }
                }
                assert(ns[c0[ci] as int].fwd@[0] == n0[c0[ci] as int].fwd@[0]) by {
                    if up[0int] == c0[ci] && n0[c0[ci] as int].fwd@[0] == Some(t) {
                        assert(false);
                    }
                    assert(n0[c0[ci] as int].fwd@[0] == Some(c0[ci + 1]));
                    if n0[c0[ci] as int].fwd@[0] == Some(t) {
                        assert(c0[ci + 1] == c0[nxt]);
                        assert(false);
                    }
                }
                assert(n0[c0[ci] as int].fwd@[0] == Some(c0[ci + 1]));
                assert(c[ci + 1] == c0[ci + 1]);
            } else {
                // strictly after the removed node
                assert(ci >= nxt);
                assert(c[ci] == c0[ci + 1]);
                assert(c0[ci + 1] != up[0]) by {
                    if nxt > 0 {
                        assert(c0[nxt - 1] == up[0]);
                    }
                    if up[0] as int == 0 {
                        assert(1 <= c0[ci + 1]);
                    }
                }
                assert(ns[c0[ci + 1] as int].fwd@[0] == n0[c0[ci + 1] as int].fwd@[0]) by {
                    if up[0int] == c0[ci + 1] && n0[c0[ci + 1] as int].fwd@[0] == Some(t) {
                        assert(false);
                    }
                    if n0[c0[ci + 1] as int].fwd@[0] == Some(t) {
                        if ci + 2 < c0.len() {
                            assert(n0[c0[ci + 1] as int].fwd@[0] == Some(c0[ci + 2]));
                            assert(c0[ci + 2] == c0[nxt]);
                            assert(false);
                        } else {
                            assert(n0[c0[ci + 1] as int].fwd@[0] == None::<usize>);
                            assert(false);
                        }
                    }
                }
                if ci + 1 < c.len() {
                    assert(n0[c0[ci + 1] as int].fwd@[0] == Some(c0[ci + 2]));
                    assert(c[ci + 1] == c0[ci + 2]);
                } else {
                    assert(n0[c0[ci + 1] as int].fwd@[0] == None::<usize>);
                }
            }
    }

    /// After the unlink, the view is the old view without the removed key.
    #[verifier::rlimit(100)]
    proof fn lemma_delete_view(
        &self,
        pre: SkipList,
        oldview: LevelsView,
        nxt: int,
        t: usize,
        key: u64,
    )
        requires
            pre.wf(),
            oldview == pre.view(),
            0 <= nxt < pre.chain@.len(),
            t == pre.chain@[nxt],
            pre.nodes@[t as int].key == key,
            self.nodes@.len() == pre.nodes@.len(),
            forall|j: int|
                0 <= j < pre.nodes@.len() ==> (#[trigger] self.nodes@[j]).key
                    == pre.nodes@[j].key,
            forall|j: int|
                0 <= j < pre.nodes@.len() && j != t ==> (#[trigger] self.nodes@[j]).value
                    == pre.nodes@[j].value,
            self.chain@ == pre.chain@.take(nxt) + pre.chain@.skip(nxt + 1),
        ensures
            self.view() == spec_remove(oldview, key),
    {
        let ns = self.nodes@;
        let c = self.chain@;
        let c0 = pre.chain@;
        let n0 = pre.nodes@;
        assert(c.len() == c0.len() - 1);
        assert(forall|q: int| 0 <= q < nxt ==> #[trigger] c[q] == c0[q]);
        assert(forall|q: int| nxt <= q < c.len() ==> #[trigger] c[q] == c0[q + 1]);
        assert forall|q1: int, q2: int|
            0 <= q1 < q2 < c0.len() implies #[trigger] c0[q1] != #[trigger] c0[q2] by {
            assert(n0[c0[q1] as int].key < n0[c0[q2] as int].key);
        }
        assert(self.view() =~= oldview.take(nxt) + oldview.skip(nxt + 1)) by {
            assert forall|q: int| 0 <= q < c.len() implies self.view()[q] == (oldview.take(nxt)
                + oldview.skip(nxt + 1))[q] by {
                if q < nxt {
                    assert(c0[q] != c0[nxt]);
                    assert(self.view()[q] == (ns[c0[q] as int].key, ns[c0[q] as int].value.orders@));
                    assert(oldview[q] == (n0[c0[q] as int].key, n0[c0[q] as int].value.orders@));
                } else {
                    assert(c0[q + 1] != c0[nxt]);
                    assert(self.view()[q] == (
                        ns[c0[q + 1] as int].key,
                        ns[c0[q + 1] as int].value.orders@,
                    ));
                    assert(oldview[q + 1] == (
                        n0[c0[q + 1] as int].key,
                        n0[c0[q + 1] as int].value.orders@,
                    ));
                }
            }
        }
        pre.lemma_view_sorted();
        assert(oldview[nxt].0 == key);
        lemma_spec_remove_at(oldview, key, nxt);
    }
}

/// Dropping the first level keeps the keys sorted.
pub proof fn lemma_sorted_skip(v: LevelsView)
    requires
        keys_sorted(v),
        v.len() > 0,
    ensures
        keys_sorted(v.skip(1)),
{
    assert forall|i: int, j: int|
        0 <= i < j < v.skip(1).len() implies (#[trigger] v.skip(1)[i]).0
        < (#[trigger] v.skip(1)[j]).0 by {
        assert(v.skip(1)[i] == v[i + 1]);
        assert(v.skip(1)[j] == v[j + 1]);
    }
}

/// The recursive sorted insertion is the splice at the first position whose
/// key is not below the new key.
pub proof fn lemma_spec_insert_at(v: LevelsView, key: u64, orders: Seq<LimitOrder>, p: int)
    requires
        keys_sorted(v),
        0 <= p <= v.len(),
        forall|i: int| 0 <= i < p ==> (#[trigger] v[i]).0 < key,
        p < v.len() ==> v[p].0 > key,
    ensures
        spec_insert(v, key, orders) == v.take(p) + seq![(key, orders)] + v.skip(p),
    decreases v.len(),
{
    if v.len() == 0 {
        assert(spec_insert(v, key, orders) =~= v.take(p) + seq![(key, orders)] + v.skip(p));
    } else if v[0].0 < key {
        assert(p > 0) by {
            if p == 0 {
                assert(v[0].0 > key);
            }
        }
        lemma_sorted_skip(v);
        assert forall|i: int| 0 <= i < p - 1 implies (#[trigger] v.skip(1)[i]).0 < key by {
            assert(v.skip(1)[i] == v[i + 1]);
        }
        assert(p - 1 < v.skip(1).len() ==> v.skip(1)[p - 1].0 > key) by {
            if p - 1 < v.skip(1).len() {
                assert(v.skip(1)[p - 1] == v[p]);
            }
        }
        lemma_spec_insert_at(v.skip(1), key, orders, p - 1);
        assert(spec_insert(v, key, orders) =~= v.take(p) + seq![(key, orders)] + v.skip(p)) by {
            assert(spec_insert(v, key, orders) == seq![v[0]] + (v.skip(1).take(p - 1) + seq![
                (key, orders),
            ] + v.skip(1).skip(p - 1)));
            assert forall|i: int| 0 <= i < v.len() + 1 implies (seq![v[0]] + (v.skip(1).take(p - 1)
                + seq![(key, orders)] + v.skip(1).skip(p - 1)))[i] == (v.take(p) + seq![
                (key, orders),
            ] + v.skip(p))[i] by {
                if 1 <= i < p {
                    assert(v.skip(1).take(p - 1)[i - 1] == v[i]);
                }
                if i > p {
                    assert(v.skip(1).skip(p - 1)[i - p - 1] == v[i - 1]);
                    assert(v.skip(p)[i - p - 1] == v[i - 1]);
                }
            }
        }
    } else {
        assert(p == 0) by {
            if p > 0 {
                assert(v[0].0 < key);
            }
        }
        assert(spec_insert(v, key, orders) =~= v.take(p) + seq![(key, orders)] + v.skip(p));
    }
}

/// In a sorted view, the queue found by a first-match scan for `key` is the
/// queue stored at any position whose key equals `key`.
pub proof fn lemma_orders_at_index(v: LevelsView, q: int, key: u64)
    requires
        keys_sorted(v),
        0 <= q < v.len(),
        v[q].0 == key,
    ensures
        orders_at(v, key) == v[q].1,
    decreases v.len(),
{
    if q == 0 {
    } else {
        assert(v[0].0 < v[q].0);
        assert(v.skip(1)[q - 1] == v[q]);
        assert(keys_sorted(v.skip(1))) by {
            assert forall|i: int, j: int|
                0 <= i < j < v.skip(1).len() implies (#[trigger] v.skip(1)[i]).0
                < (#[trigger] v.skip(1)[j]).0 by {
                assert(v.skip(1)[i] == v[i + 1]);
                assert(v.skip(1)[j] == v[j + 1]);
            }
        }
        lemma_orders_at_index(v.skip(1), q - 1, key);
    }
}

/// The recursive removal is the splice that drops the position holding the
/// key.
pub proof fn lemma_spec_remove_at(v: LevelsView, key: u64, q: int)
    requires
        keys_sorted(v),
        0 <= q < v.len(),
        v[q].0 == key,
    ensures
        spec_remove(v, key) == v.take(q) + v.skip(q + 1),
    decreases v.len(),
{
    if q == 0 {
        assert(spec_remove(v, key) =~= v.take(0int) + v.skip(1));
    } else {
        assert(v[0].0 < v[q].0);
        lemma_sorted_skip(v);
        assert(v.skip(1)[q - 1] == v[q]);
        lemma_spec_remove_at(v.skip(1), key, q - 1);
        let lhs = seq![v[0]] + (v.skip(1).take(q - 1) + v.skip(1).skip(q));
        let rhs = v.take(q) + v.skip(q + 1);
        assert(spec_remove(v, key) == lhs);
        assert forall|i: int| 0 <= i < v.len() - 1 implies #[trigger] lhs[i] == rhs[i] by {
            if 1 <= i < q {
                assert(v.skip(1).take(q - 1)[i - 1] == v[i]);
            }
            if i >= q {
                assert(v.skip(1).skip(q)[i - q] == v[i + 1]);
                assert(v.skip(q + 1)[i - q] == v[i + 1]);
            }
        }
        assert(lhs =~= rhs);
    }
}

/// Inserting a level at a fresh key and then deleting that key restores the
/// index to a state indistinguishable, by traversal and length, from the
/// state before the insert.
pub proof fn lemma_insert_delete_inverse(v: LevelsView, key: u64, orders: Seq<LimitOrder>)
    requires
        keys_sorted(v),
        !contains_key(v, key),
    ensures
        spec_remove(spec_insert(v, key, orders), key) == v,
    decreases v.len(),
{
    if v.len() == 0 {
        assert(spec_remove(spec_insert(v, key, orders), key) =~= v);
    } else if v[0].0 < key {
        lemma_sorted_skip(v);
        assert(!contains_key(v.skip(1), key)) by {
            if contains_key(v.skip(1), key) {
                let i = choose|i: int| 0 <= i < v.skip(1).len() && (#[trigger] v.skip(1)[i]).0
                    == key;
                assert(v[i + 1].0 == key);
            }
        }
        lemma_insert_delete_inverse(v.skip(1), key, orders);
        let w = seq![v[0]] + spec_insert(v.skip(1), key, orders);
        assert(spec_insert(v, key, orders) == w);
        assert(w[0] == v[0] && w[0].0 != key);
        assert(w.skip(1) =~= spec_insert(v.skip(1), key, orders));
        assert(spec_remove(w, key) == seq![w[0]] + spec_remove(w.skip(1), key));
        assert(seq![v[0]] + v.skip(1) =~= v);
    } else {
        assert(v[0].0 != key) by {
            if v[0].0 == key {
                assert(contains_key(v, key));
            }
        }
        assert((seq![(key, orders)] + v).skip(1) =~= v);
        assert(spec_remove(spec_insert(v, key, orders), key) == v);
    }
}

} // verus!
