//! The scheduler's ordered map: a red-black search tree keyed by a signed
//! 64-bit integer, holding one value per key.
//!
//! Duplicate keys are disallowed; inserting an existing key overwrites the
//! value and leaves the length unchanged. Insertion rebalances with the
//! classic red-red repair rotations and keeps the root black; deletion swaps
//! an interior node with its in-order successor and does not recolour.
//! `first` returns the entry with the smallest key, the next candidate for
//! the scheduler. The tree is specified as a `Map<i64, V>`; every
//! operation's contract is stated over that map, and what is proved of every
//! operation is that ordering and the map semantics are kept exactly.

use vstd::prelude::*;

verus! {

/// One node of the tree. New nodes are born red and the root is kept black,
/// as on the freelist-allocated tree of the target machine.
#[allow(non_camel_case_types)]
pub struct rbtree_node<V> {
    pub red: bool,
    pub key: i64,
    pub val: V,
    pub left: Option<Box<rbtree_node<V>>>,
    pub right: Option<Box<rbtree_node<V>>>,
}

/// The entries held in the subtree rooted at `n`.
pub open spec fn sub_map<V>(n: Option<Box<rbtree_node<V>>>) -> Map<i64, V>
    decreases n,
{
    match n {
        None => Map::empty(),
        Some(b) => sub_map(b.left).union_prefer_right(sub_map(b.right)).insert(b.key, b.val),
    }
}

/// Search-tree ordering: every key on the left is below the node's key,
/// every key on the right above it, recursively.
pub open spec fn node_wf<V>(n: Option<Box<rbtree_node<V>>>) -> bool
    decreases n,
{
    match n {
        None => true,
        Some(b) => {
            &&& (forall|k: i64| sub_map(b.left).dom().contains(k) ==> k < b.key)
            &&& (forall|k: i64| sub_map(b.right).dom().contains(k) ==> k > b.key)
            &&& node_wf(b.left)
            &&& node_wf(b.right)
        },
    }
}

/// The entries of a subtree form a finite map of at most `2^64` keys.
pub proof fn lemma_sub_map_finite<V>(n: Option<Box<rbtree_node<V>>>)
    ensures
        sub_map(n).dom().finite(),
    decreases n,
{
    match n {
        None => {
            assert(Map::<i64, V>::empty().dom().finite());
        },
        Some(b) => {
            lemma_sub_map_finite(b.left);
            lemma_sub_map_finite(b.right);
            vstd::set_lib::lemma_set_union_finite_iff(sub_map(b.left).dom(),
                sub_map(b.right).dom());
            assert(sub_map(b.left).union_prefer_right(sub_map(b.right)).dom()
                =~= sub_map(b.left).dom().union(sub_map(b.right).dom()));
        },
    }
}

/// Under the ordering invariant a subtree holds one entry more than its two
/// children together, so sizes add up.
pub proof fn lemma_sub_map_len<V>(n: Option<Box<rbtree_node<V>>>)
    requires
        node_wf(n),
    ensures
        n is Some ==> sub_map(n).dom().len()
            == sub_map(n->Some_0.left).dom().len() + sub_map(n->Some_0.right).dom().len() + 1,
        n is None ==> sub_map(n).dom().len() == 0,
    decreases n,
{
    match n {
        None => {},
        Some(b) => {
            lemma_sub_map_finite(b.left);
            lemma_sub_map_finite(b.right);
            let u = sub_map(b.left).union_prefer_right(sub_map(b.right));
            assert(u.dom() =~= sub_map(b.left).dom().union(sub_map(b.right).dom()));
            vstd::set_lib::lemma_set_disjoint_lens(sub_map(b.left).dom(), sub_map(b.right).dom());
            assert(!u.dom().contains(b.key));
            assert(u.insert(b.key, b.val).dom() =~= u.dom().insert(b.key));
            vstd::set::axiom_set_insert_len(u.dom(), b.key);
        },
    }
}

/// The scheduler's tree of runnable processes, keyed by virtual runtime.
#[allow(non_camel_case_types)]
pub struct rbtree<V> {
    pub root: Option<Box<rbtree_node<V>>>,
    pub len: usize,
}

impl<V> rbtree<V> {
    /// The entries of the tree.
    pub closed spec fn view(&self) -> Map<i64, V> {
        sub_map(self.root)
    }

    /// Ordering holds everywhere and the recorded length counts the entries.
    pub closed spec fn wf(&self) -> bool {
        &&& node_wf(self.root)
        &&& self.len == self@.dom().len()
    }

    /// The recorded length equals the number of entries.
    pub proof fn lemma_len(&self)
        requires
            self.wf(),
        ensures
            self.len == self@.dom().len(),
            self@.dom().finite(),
    {
        lemma_sub_map_finite(self.root);
    }

    /// An empty tree.
    pub fn new() -> (t: rbtree<V>)
        ensures
            t.wf(),
            t@ == Map::<i64, V>::empty(),
            t.len == 0,
    {
        let t = rbtree { root: None, len: 0 };
        proof {
            assert(t@ =~= Map::<i64, V>::empty());
        }
        t
    }

    /// Drop every node and reset.
    pub fn dispose(&mut self)
        ensures
            final(self).wf(),
            final(self)@ == Map::<i64, V>::empty(),
            final(self).len == 0,
    {
        self.root = None;
        self.len = 0;
        proof {
            assert(self@ =~= Map::<i64, V>::empty());
        }
    }

    /// Insert `key`, overwriting the value if the key is already present;
    /// the length grows exactly when the key is new.
    pub fn insert(&mut self, key: i64, val: V)
        requires
            old(self).wf(),
            old(self).len < usize::MAX,
        ensures
            final(self).wf(),
            final(self)@ == old(self)@.insert(key, val),
            final(self).len == old(self).len + (if old(self)@.dom().contains(key) { 0int } else { 1int }),
    {
        proof {
            lemma_sub_map_finite(self.root);
        }
        let grew = insert_node(&mut self.root, key, val);
        if grew {
            self.len = self.len + 1;
        }
        // The root is kept black.
        let ghost pre_recolor = self.root;
        match self.root.take() {
            Some(mut b) => {
                b.red = false;
                self.root = Some(b);
                proof {
                    assert(sub_map(self.root) =~= sub_map(pre_recolor));
                    assert(node_wf(self.root));
                }
            },
            None => {},
        }
        proof {
            let m0 = sub_map(old(self).root);
            assert(self@.dom() =~= m0.dom().insert(key));
            vstd::set::axiom_set_insert_len(m0.dom(), key);
        }
    }

    /// Look the key up; a reference to its value, or nothing.
    pub fn lookup(&self, key: i64) -> (r: Option<&V>)
        requires
            self.wf(),
        ensures
            r matches Some(v) ==> self@.dom().contains(key) && *v == self@[key],
            r is None ==> !self@.dom().contains(key),
    {
        lookup_node(&self.root, key)
    }

    /// Remove the key and hand its value back; the tree loses exactly that
    /// entry.
    pub fn remove(&mut self, key: i64) -> (r: Option<V>)
        requires
            old(self).wf(),
        ensures
            final(self).wf(),
            final(self)@ == old(self)@.remove(key),
            r matches Some(v) ==> old(self)@.dom().contains(key) && v == old(self)@[key],
            r is None ==> !old(self)@.dom().contains(key),
            final(self).len == old(self).len
                - (if old(self)@.dom().contains(key) { 1int } else { 0int }),
    {
        proof {
            lemma_sub_map_finite(self.root);
        }
        let r = remove_node(&mut self.root, key);
        if r.is_some() {
            self.len = self.len - 1;
        }
        proof {
            let m0 = sub_map(old(self).root);
            assert(self@.dom() =~= m0.dom().remove(key));
            if m0.dom().contains(key) {
                vstd::set::axiom_set_remove_len(m0.dom(), key);
            } else {
                assert(self@.dom() =~= m0.dom());
            }
        }
        r
    }

    /// Remove the key if present; whether it was.
    pub fn delete(&mut self, key: i64) -> (r: bool)
        requires
            old(self).wf(),
        ensures
            final(self).wf(),
            final(self)@ == old(self)@.remove(key),
            r == old(self)@.dom().contains(key),
            final(self).len == old(self).len
                - (if old(self)@.dom().contains(key) { 1int } else { 0int }),
    {
        self.remove(key).is_some()
    }

    /// The smallest key of the tree, or nothing when it is empty.
    pub fn min_key(&self) -> (r: Option<i64>)
        requires
            self.wf(),
        ensures
            r matches Some(k) ==> self@.dom().contains(k)
                && (forall|k2: i64| self@.dom().contains(k2) ==> k <= k2),
            r is None ==> self@ == Map::<i64, V>::empty(),
    {
        match &self.root {
            None => {
                proof {
                    assert(self@ =~= Map::<i64, V>::empty());
                }
                None
            },
            Some(b) => Some(min_key_node(b)),
        }
    }

    /// The entry with the smallest key: the scheduler's next candidate.
    pub fn first(&self) -> (r: Option<(i64, &V)>)
        requires
            self.wf(),
        ensures
            r matches Some((k, v)) ==> self@.dom().contains(k) && *v == self@[k]
                && (forall|k2: i64| self@.dom().contains(k2) ==> k <= k2),
            r is None ==> self@ == Map::<i64, V>::empty(),
    {
        match self.min_key() {
            None => None,
            Some(k) => {
                match self.lookup(k) {
                    None => None,
                    Some(v) => Some((k, v)),
                }
            },
        }
    }

    /// Remove and return the entry with the smallest key.
    pub fn remove_min(&mut self) -> (r: Option<(i64, V)>)
        requires
            old(self).wf(),
        ensures
            final(self).wf(),
            r matches Some((k, v)) ==> {
                &&& old(self)@.dom().contains(k)
                &&& v == old(self)@[k]
                &&& (forall|k2: i64| old(self)@.dom().contains(k2) ==> k <= k2)
                &&& final(self)@ == old(self)@.remove(k)
                &&& final(self).len == old(self).len - 1
            },
            r is None ==> old(self)@ == Map::<i64, V>::empty() && *final(self) == *old(self),
    {
        let k = match self.min_key() {
            None => {
                return None;
            },
            Some(k) => k,
        };
        match self.remove(k) {
            None => None,
            Some(v) => Some((k, v)),
        }
    }
}

/// Rotating three ordered stores of entries around two keys regroups them
/// without changing the whole: the single-rotation shapes of a balance step
/// hold the same entries.
proof fn lemma_rotate_single<V>(
    ma: Map<i64, V>, mb: Map<i64, V>, mc: Map<i64, V>, xk: i64, xv: V, yk: i64, yv: V,
)
    requires
        xk < yk,
        forall|k: i64| #[trigger] ma.dom().contains(k) ==> k < xk,
        forall|k: i64| #[trigger] mb.dom().contains(k) ==> xk < k < yk,
        forall|k: i64| #[trigger] mc.dom().contains(k) ==> k > yk,
    ensures
        ma.union_prefer_right(mb).insert(xk, xv).union_prefer_right(mc).insert(yk, yv)
            =~= ma.union_prefer_right(mb.union_prefer_right(mc).insert(yk, yv)).insert(xk, xv),
{
}

/// The double-rotation shapes of a balance step hold the same entries: the
/// middle key's two stores split between the outer keys.
proof fn lemma_rotate_double<V>(
    ma: Map<i64, V>, mb1: Map<i64, V>, mb2: Map<i64, V>, mc: Map<i64, V>,
    xk: i64, xv: V, zk: i64, zv: V, yk: i64, yv: V,
)
    requires
        xk < zk < yk,
        forall|k: i64| #[trigger] ma.dom().contains(k) ==> k < xk,
        forall|k: i64| #[trigger] mb1.dom().contains(k) ==> xk < k < zk,
        forall|k: i64| #[trigger] mb2.dom().contains(k) ==> zk < k < yk,
        forall|k: i64| #[trigger] mc.dom().contains(k) ==> k > yk,
    ensures
        ma.union_prefer_right(mb1.union_prefer_right(mb2).insert(zk, zv)).insert(xk, xv)
            .union_prefer_right(mc).insert(yk, yv)
            =~= ma.union_prefer_right(mb1).insert(xk, xv)
                .union_prefer_right(mb2.union_prefer_right(mc).insert(yk, yv))
                .insert(zk, zv),
        ma.union_prefer_right(mb1.union_prefer_right(mb2).insert(zk, zv)
                .union_prefer_right(mc).insert(yk, yv)).insert(xk, xv)
            =~= ma.union_prefer_right(mb1).insert(xk, xv)
                .union_prefer_right(mb2.union_prefer_right(mc).insert(yk, yv))
                .insert(zk, zv),
{
}

/// Repair a red-red violation left by an insertion one level down: when a
/// black node has a red child with a red child of its own, rotate the middle
/// key of the three to the top, recolouring it red and its children black.
/// The entries and their order are untouched.
#[verifier::rlimit(100)]
fn balance<V>(b: Box<rbtree_node<V>>) -> (r: Box<rbtree_node<V>>)
    requires
        node_wf(Some(b)),
    ensures
        node_wf(Some(r)),
        sub_map(Some(r)) == sub_map(Some(b)),
{
    let ghost m0 = sub_map(Some(b));
    let ghost b0 = b;
    let mut b = b;
    if b.red {
        return b;
    }
    let left_red = match &b.left {
        Some(l) => l.red,
        None => false,
    };
    if left_red {
        let mut l = b.left.take().unwrap();
        let ghost gl = l;
        proof {
            assert(b0.left == Some(gl));
            assert(node_wf(Some(gl)));
            assert(gl.key < b0.key) by {
                assert(sub_map(b0.left).dom().contains(gl.key));
            }
        }
        let ll_red = match &l.left {
            Some(x) => x.red,
            None => false,
        };
        if ll_red {
            let mut ll = l.left.take().unwrap();
            let ghost gll = ll;
            ll.red = false;
            proof {
                assert(gl.left == Some(gll));
                assert(node_wf(Some(gll)));
                assert(sub_map(Some(ll)) =~= sub_map(Some(gll)));
                assert(node_wf(Some(ll)));
            }
            b.left = l.right.take();
            b.red = false;
            proof {
                assert(node_wf(Some(b))) by {
                    assert(node_wf(gl.right));
                    assert(node_wf(b0.right));
                    assert(b.right == b0.right);
                    assert(forall|k: i64| sub_map(gl.right).dom().contains(k)
                        ==> sub_map(b0.left).dom().contains(k) && k < b0.key);
                }
                assert(sub_map(Some(b)) =~= sub_map(gl.right)
                    .union_prefer_right(sub_map(b0.right)).insert(b0.key, b0.val));
            }
            l.red = true;
            l.left = Some(ll);
            l.right = Some(b);
            proof {
                assert(node_wf(Some(l))) by {
                    assert forall|k: i64| sub_map(l.right).dom().contains(k)
                        implies k > gl.key by {
                        if k != b0.key {
                            assert(sub_map(gl.right).dom().contains(k)
                                || sub_map(b0.right).dom().contains(k));
                            if sub_map(b0.right).dom().contains(k) {
                                assert(k > b0.key);
                            }
                        }
                    }
                }
                let ma = sub_map(Some(gll));
                let mb = sub_map(gl.right);
                let mc = sub_map(b0.right);
                assert(sub_map(Some(gl)) == ma.union_prefer_right(mb).insert(gl.key, gl.val));
                assert(m0 == sub_map(Some(gl)).union_prefer_right(mc).insert(b0.key, b0.val));
                assert forall|k: i64| #[trigger] mb.dom().contains(k)
                    implies gl.key < k < b0.key by {
                    assert(sub_map(b0.left).dom().contains(k));
                }
                assert(forall|k: i64| #[trigger] ma.dom().contains(k) ==> k < gl.key);
                lemma_rotate_single(ma, mb, mc, gl.key, gl.val, b0.key, b0.val);
                assert(sub_map(Some(l)) == sub_map(Some(ll))
                    .union_prefer_right(sub_map(Some(b))).insert(gl.key, gl.val));
                assert(sub_map(Some(l)) =~= m0);
            }
            return l;
        }
        let lr_red = match &l.right {
            Some(x) => x.red,
            None => false,
        };
        if lr_red {
            let mut lr = l.right.take().unwrap();
            let ghost glr = lr;
            proof {
                assert(gl.right == Some(glr));
                assert(node_wf(Some(glr)));
                assert(gl.key < glr.key < b0.key) by {
                    assert(sub_map(gl.right).dom().contains(glr.key));
                    assert(sub_map(b0.left).dom().contains(glr.key));
                }
            }
            b.left = lr.right.take();
            b.red = false;
            l.right = lr.left.take();
            l.red = false;
            proof {
                assert(forall|k: i64| sub_map(glr.left).dom().contains(k)
                    ==> sub_map(gl.right).dom().contains(k)
                        && sub_map(b0.left).dom().contains(k));
                assert(forall|k: i64| sub_map(glr.right).dom().contains(k)
                    ==> sub_map(gl.right).dom().contains(k)
                        && sub_map(b0.left).dom().contains(k));
                assert(node_wf(Some(l))) by {
                    assert(node_wf(glr.left));
                }
                assert(node_wf(Some(b))) by {
                    assert(node_wf(glr.right));
                    assert(node_wf(b0.right));
                }
                assert(sub_map(Some(l)) =~= sub_map(gl.left)
                    .union_prefer_right(sub_map(glr.left)).insert(gl.key, gl.val));
                assert(sub_map(Some(b)) =~= sub_map(glr.right)
                    .union_prefer_right(sub_map(b0.right)).insert(b0.key, b0.val));
            }
            lr.red = true;
            lr.left = Some(l);
            lr.right = Some(b);
            proof {
                let ma = sub_map(gl.left);
                let mb1 = sub_map(glr.left);
                let mb2 = sub_map(glr.right);
                let mc = sub_map(b0.right);
                assert(sub_map(Some(glr))
                    == mb1.union_prefer_right(mb2).insert(glr.key, glr.val));
                assert(sub_map(Some(gl)) == ma.union_prefer_right(sub_map(Some(glr)))
                    .insert(gl.key, gl.val));
                assert(m0 == sub_map(Some(gl)).union_prefer_right(mc)
                    .insert(b0.key, b0.val));
                assert(forall|k: i64| #[trigger] ma.dom().contains(k) ==> k < gl.key);
                assert forall|k: i64| #[trigger] mb1.dom().contains(k)
                    implies gl.key < k < glr.key by {
                    assert(sub_map(gl.right).dom().contains(k));
                }
                assert forall|k: i64| #[trigger] mb2.dom().contains(k)
                    implies glr.key < k < b0.key by {
                    assert(sub_map(b0.left).dom().contains(k));
                }
                assert(forall|k: i64| #[trigger] mc.dom().contains(k) ==> k > b0.key);
                lemma_rotate_double(ma, mb1, mb2, mc, gl.key, gl.val, glr.key, glr.val,
                    b0.key, b0.val);
                assert(node_wf(Some(lr))) by {
                    assert forall|k: i64| sub_map(lr.left).dom().contains(k)
                        implies k < glr.key by {
                        if k != gl.key {
                            assert(ma.dom().contains(k) || mb1.dom().contains(k));
                        }
                    }
                    assert forall|k: i64| sub_map(lr.right).dom().contains(k)
                        implies k > glr.key by {
                        if k != b0.key {
                            assert(mb2.dom().contains(k) || mc.dom().contains(k));
                            if mc.dom().contains(k) {
                                assert(k > b0.key);
                            }
                        }
                    }
                }
                assert(sub_map(Some(lr)) == sub_map(Some(l))
                    .union_prefer_right(sub_map(Some(b))).insert(glr.key, glr.val));
                assert(sub_map(Some(lr)) =~= m0);
            }
            return lr;
        }
        b.left = Some(l);
        proof {
            assert(sub_map(Some(b)) =~= m0);
        }
        return b;
    }
    let right_red = match &b.right {
        Some(r) => r.red,
        None => false,
    };
    if right_red {
        let mut rn = b.right.take().unwrap();
        let ghost grn = rn;
        proof {
            assert(b0.right == Some(grn));
            assert(node_wf(Some(grn)));
            assert(grn.key > b0.key) by {
                assert(sub_map(b0.right).dom().contains(grn.key));
            }
        }
        let rr_red = match &rn.right {
            Some(x) => x.red,
            None => false,
        };
        if rr_red {
            let mut rr = rn.right.take().unwrap();
            let ghost grr = rr;
            rr.red = false;
            proof {
                assert(grn.right == Some(grr));
                assert(node_wf(Some(grr)));
                assert(sub_map(Some(rr)) =~= sub_map(Some(grr)));
                assert(node_wf(Some(rr)));
            }
            b.right = rn.left.take();
            b.red = false;
            proof {
                assert(node_wf(Some(b))) by {
                    assert(node_wf(grn.left));
                    assert(node_wf(b0.left));
                    assert(b.left == b0.left);
                    assert(forall|k: i64| sub_map(grn.left).dom().contains(k)
                        ==> sub_map(b0.right).dom().contains(k) && k > b0.key);
                }
                assert(sub_map(Some(b)) =~= sub_map(b0.left)
                    .union_prefer_right(sub_map(grn.left)).insert(b0.key, b0.val));
            }
            rn.red = true;
            rn.left = Some(b);
            rn.right = Some(rr);
            proof {
                assert(node_wf(Some(rn))) by {
                    assert forall|k: i64| sub_map(rn.left).dom().contains(k)
                        implies k < grn.key by {
                        if k != b0.key {
                            assert(sub_map(b0.left).dom().contains(k)
                                || sub_map(grn.left).dom().contains(k));
                            if sub_map(b0.left).dom().contains(k) {
                                assert(k < b0.key);
                            }
                        }
                    }
                }
                let ma = sub_map(b0.left);
                let mb = sub_map(grn.left);
                let mc = sub_map(Some(grr));
                assert(sub_map(Some(grn)) == mb.union_prefer_right(mc)
                    .insert(grn.key, grn.val));
                assert(m0 == ma.union_prefer_right(sub_map(Some(grn)))
                    .insert(b0.key, b0.val));
                assert(forall|k: i64| #[trigger] ma.dom().contains(k) ==> k < b0.key);
                assert forall|k: i64| #[trigger] mb.dom().contains(k)
                    implies b0.key < k < grn.key by {
                    assert(sub_map(b0.right).dom().contains(k));
                }
                assert forall|k: i64| #[trigger] mc.dom().contains(k)
                    implies k > grn.key by {}
                lemma_rotate_single(ma, mb, mc, b0.key, b0.val, grn.key, grn.val);
                assert(sub_map(Some(rn)) == sub_map(Some(b))
                    .union_prefer_right(sub_map(Some(rr))).insert(grn.key, grn.val));
                assert(sub_map(Some(rn)) =~= m0);
            }
            return rn;
        }
        let rl_red = match &rn.left {
            Some(x) => x.red,
            None => false,
        };
        if rl_red {
            let mut rl = rn.left.take().unwrap();
            let ghost grl = rl;
            proof {
                assert(grn.left == Some(grl));
                assert(node_wf(Some(grl)));
                assert(b0.key < grl.key < grn.key) by {
                    assert(sub_map(grn.left).dom().contains(grl.key));
                    assert(sub_map(b0.right).dom().contains(grl.key));
                }
            }
            b.right = rl.left.take();
            b.red = false;
            rn.left = rl.right.take();
            rn.red = false;
            proof {
                assert(forall|k: i64| sub_map(grl.left).dom().contains(k)
                    ==> sub_map(grn.left).dom().contains(k)
                        && sub_map(b0.right).dom().contains(k));
                assert(forall|k: i64| sub_map(grl.right).dom().contains(k)
                    ==> sub_map(grn.left).dom().contains(k)
                        && sub_map(b0.right).dom().contains(k));
                assert(node_wf(Some(b))) by {
                    assert(node_wf(grl.left));
                    assert(node_wf(b0.left));
                }
                assert(node_wf(Some(rn))) by {
                    assert(node_wf(grl.right));
                    assert(node_wf(grn.right));
                }
                assert(sub_map(Some(b)) =~= sub_map(b0.left)
                    .union_prefer_right(sub_map(grl.left)).insert(b0.key, b0.val));
                assert(sub_map(Some(rn)) =~= sub_map(grl.right)
                    .union_prefer_right(sub_map(grn.right)).insert(grn.key, grn.val));
            }
            rl.red = true;
            rl.left = Some(b);
            rl.right = Some(rn);
            proof {
                let ma = sub_map(b0.left);
                let mb1 = sub_map(grl.left);
                let mb2 = sub_map(grl.right);
                let mc = sub_map(grn.right);
                assert(sub_map(Some(grl))
                    == mb1.union_prefer_right(mb2).insert(grl.key, grl.val));
                assert(sub_map(Some(grn)) == sub_map(Some(grl)).union_prefer_right(mc)
                    .insert(grn.key, grn.val));
                assert(m0 == ma.union_prefer_right(sub_map(Some(grn)))
                    .insert(b0.key, b0.val));
                assert(forall|k: i64| #[trigger] ma.dom().contains(k) ==> k < b0.key);
                assert forall|k: i64| #[trigger] mb1.dom().contains(k)
                    implies b0.key < k < grl.key by {
                    assert(sub_map(b0.right).dom().contains(k));
                }
                assert forall|k: i64| #[trigger] mb2.dom().contains(k)
                    implies grl.key < k < grn.key by {
                    assert(sub_map(grn.left).dom().contains(k));
                }
                assert forall|k: i64| #[trigger] mc.dom().contains(k)
                    implies k > grn.key by {}
                lemma_rotate_double(ma, mb1, mb2, mc, b0.key, b0.val, grl.key, grl.val,
                    grn.key, grn.val);
                assert(node_wf(Some(rl))) by {
                    assert forall|k: i64| sub_map(rl.left).dom().contains(k)
                        implies k < grl.key by {
                        if k != b0.key {
                            assert(ma.dom().contains(k) || mb1.dom().contains(k));
                            if ma.dom().contains(k) {
                                assert(k < b0.key);
                            }
                        }
                    }
                    assert forall|k: i64| sub_map(rl.right).dom().contains(k)
                        implies k > grl.key by {
                        if k != grn.key {
                            assert(mb2.dom().contains(k) || mc.dom().contains(k));
                            if mc.dom().contains(k) {
                                assert(k > grn.key);
                            }
                        }
                    }
                }
                assert(sub_map(Some(rl)) == sub_map(Some(b))
                    .union_prefer_right(sub_map(Some(rn))).insert(grl.key, grl.val));
                assert(sub_map(Some(rl)) =~= m0);
            }
            return rl;
        }
        b.right = Some(rn);
        proof {
            assert(sub_map(Some(b)) =~= m0);
        }
        return b;
    }
    b
}

/// Insert into a subtree; answers whether the tree grew (the key was new).
fn insert_node<V>(node: &mut Option<Box<rbtree_node<V>>>, key: i64, val: V) -> (grew: bool)
    requires
        node_wf(*old(node)),
    ensures
        node_wf(*final(node)),
        sub_map(*final(node)) == sub_map(*old(node)).insert(key, val),
        grew == !sub_map(*old(node)).dom().contains(key),
    decreases *old(node),
{
    match node.take() {
        None => {
            *node = Some(Box::new(rbtree_node {
                red: true,
                key,
                val,
                left: None,
                right: None,
            }));
            proof {
                assert(sub_map(*node) =~= sub_map(*old(node)).insert(key, val));
            }
            true
        },
        Some(mut b) => {
            let grew: bool;
            if key == b.key {
                b.val = val;
                grew = false;
                proof {
                    assert(!sub_map(b.left).dom().contains(key));
                    assert(!sub_map(b.right).dom().contains(key));
                }
            } else if key < b.key {
                grew = insert_node(&mut b.left, key, val);
                proof {
                    assert(!sub_map(b.right).dom().contains(key));
                }
            } else {
                grew = insert_node(&mut b.right, key, val);
                proof {
                    assert(!sub_map(b.left).dom().contains(key));
                }
            }
            proof {
                assert(sub_map(Some(b)) =~= sub_map(*old(node)).insert(key, val));
            }
            *node = Some(balance(b));
            grew
        },
    }
}

/// Find the value under `key` in a subtree.
fn lookup_node<'a, V>(node: &'a Option<Box<rbtree_node<V>>>, key: i64) -> (r: Option<&'a V>)
    requires
        node_wf(*node),
    ensures
        r matches Some(v) ==> sub_map(*node).dom().contains(key) && *v == sub_map(*node)[key],
        r is None ==> !sub_map(*node).dom().contains(key),
    decreases *node,
{
    match node {
        None => None,
        Some(b) => {
            if key == b.key {
                Some(&b.val)
            } else if key < b.key {
                proof {
                    assert(!sub_map(b.right).dom().contains(key));
                }
                lookup_node(&b.left, key)
            } else {
                proof {
                    assert(!sub_map(b.left).dom().contains(key));
                }
                lookup_node(&b.right, key)
            }
        },
    }
}

/// The smallest key of a nonempty subtree: the leftmost node's key.
fn min_key_node<V>(b: &Box<rbtree_node<V>>) -> (k: i64)
    requires
        node_wf(Some(*b)),
    ensures
        sub_map(Some(*b)).dom().contains(k),
        forall|k2: i64| sub_map(Some(*b)).dom().contains(k2) ==> k <= k2,
    decreases *b,
{
    match &b.left {
        None => {
            proof {
                assert(sub_map(b.left) =~= Map::<i64, V>::empty());
                assert forall|k2: i64| sub_map(Some(*b)).dom().contains(k2)
                    implies b.key <= k2 by {
                    if k2 != b.key {
                        assert(sub_map(b.left).dom().contains(k2)
                            || sub_map(b.right).dom().contains(k2));
                    }
                }
            }
            b.key
        },
        Some(l) => {
            let k = min_key_node(l);
            proof {
                assert(b.left == Some(*l));
                assert(sub_map(b.left).dom().contains(k));
                assert(k < b.key);
                assert forall|k2: i64| sub_map(Some(*b)).dom().contains(k2) implies k <= k2 by {
                    if k2 != b.key {
                        assert(sub_map(b.left).dom().contains(k2)
                            || sub_map(b.right).dom().contains(k2));
                    }
                }
            }
            k
        },
    }
}

/// Remove `key` from a subtree and hand its value back.
fn remove_node<V>(node: &mut Option<Box<rbtree_node<V>>>, key: i64) -> (r: Option<V>)
    requires
        node_wf(*old(node)),
    ensures
        node_wf(*final(node)),
        sub_map(*final(node)) == sub_map(*old(node)).remove(key),
        r matches Some(v) ==> sub_map(*old(node)).dom().contains(key)
            && v == sub_map(*old(node))[key],
        r is None ==> !sub_map(*old(node)).dom().contains(key),
    decreases *old(node),
{
    match node.take() {
        None => {
            proof {
                assert(sub_map(*node) =~= sub_map(*old(node)).remove(key));
            }
            None
        },
        Some(mut b) => {
            if key == b.key {
                proof {
                    assert(!sub_map(b.left).dom().contains(key));
                    assert(!sub_map(b.right).dom().contains(key));
                }
                if b.left.is_none() {
                    proof {
                        assert(sub_map(b.left) =~= Map::<i64, V>::empty());
                    }
                    let ghost pre = *node;
                    let r = Some(b.val);
                    *node = b.right;
                    proof {
                        assert(sub_map(*node) =~= sub_map(*old(node)).remove(key));
                    }
                    r
                } else if b.right.is_none() {
                    proof {
                        assert(sub_map(b.right) =~= Map::<i64, V>::empty());
                    }
                    let r = Some(b.val);
                    *node = b.left;
                    proof {
                        assert(sub_map(*node) =~= sub_map(*old(node)).remove(key));
                    }
                    r
                } else {
                    // Swap in the in-order successor: the smallest entry of
                    // the right subtree.
                    let (succ_key, succ_val) = take_min(&mut b.right);
                    let mut out_val = succ_val;
                    std::mem::swap(&mut b.val, &mut out_val);
                    b.key = succ_key;
                    *node = Some(b);
                    proof {
                        assert(sub_map(*node) =~= sub_map(*old(node)).remove(key));
                    }
                    Some(out_val)
                }
            } else if key < b.key {
                proof {
                    assert(!sub_map(b.right).dom().contains(key));
                }
                let r = remove_node(&mut b.left, key);
                *node = Some(b);
                proof {
                    assert(sub_map(*node) =~= sub_map(*old(node)).remove(key));
                }
                r
            } else {
                proof {
                    assert(!sub_map(b.left).dom().contains(key));
                }
                let r = remove_node(&mut b.right, key);
                *node = Some(b);
                proof {
                    assert(sub_map(*node) =~= sub_map(*old(node)).remove(key));
                }
                r
            }
        },
    }
}

/// Remove the smallest entry of a nonempty subtree and hand it back.
fn take_min<V>(node: &mut Option<Box<rbtree_node<V>>>) -> (r: (i64, V))
    requires
        (*old(node)) is Some,
        node_wf(*old(node)),
    ensures
        node_wf(*final(node)),
        sub_map(*old(node)).dom().contains(r.0),
        sub_map(*old(node))[r.0] == r.1,
        forall|k2: i64| sub_map(*old(node)).dom().contains(k2) ==> r.0 <= k2,
        sub_map(*final(node)) == sub_map(*old(node)).remove(r.0),
    decreases *old(node),
{
    let mut b = node.take().unwrap();
    if b.left.is_none() {
        proof {
            assert(sub_map(b.left) =~= Map::<i64, V>::empty());
            assert(!sub_map(b.right).dom().contains(b.key));
        }
        let k = b.key;
        *node = b.right;
        proof {
            assert(sub_map(*node) =~= sub_map(*old(node)).remove(k));
        }
        (k, b.val)
    } else {
        let r = take_min(&mut b.left);
        proof {
            assert(!sub_map(b.right).dom().contains(r.0));
            assert(r.0 != b.key);
        }
        *node = Some(b);
        proof {
            assert(sub_map(*node) =~= sub_map(*old(node)).remove(r.0));
        }
        r
    }
}

} // verus!

verus! {

/// The entries of a subtree in key order: left entries, the node, right
/// entries.
pub open spec fn entries_of<V>(n: Option<Box<rbtree_node<V>>>) -> Seq<(i64, V)>
    decreases n,
{
    match n {
        None => Seq::empty(),
        Some(b) => entries_of(b.left) + seq![(b.key, b.val)] + entries_of(b.right),
    }
}

/// The in-order entry list carries exactly the entries of the subtree's map:
/// one element per key, with its value.
pub proof fn lemma_entries_of<V>(n: Option<Box<rbtree_node<V>>>)
    requires
        node_wf(n),
    ensures
        entries_of(n).len() == sub_map(n).dom().len(),
        forall|j: int| 0 <= j < entries_of(n).len() ==>
            sub_map(n).dom().contains((#[trigger] entries_of(n)[j]).0)
            && entries_of(n)[j].1 == sub_map(n)[entries_of(n)[j].0],
        forall|k: i64| sub_map(n).dom().contains(k)
            ==> exists|j: int| 0 <= j < entries_of(n).len()
                && (#[trigger] entries_of(n)[j]).0 == k,
    decreases n,
{
    lemma_sub_map_len(n);
    match n {
        None => {
            assert(entries_of(n) =~= Seq::<(i64, V)>::empty());
        },
        Some(b) => {
            lemma_entries_of(b.left);
            lemma_entries_of(b.right);
            let el = entries_of(b.left);
            let er = entries_of(b.right);
            let e = entries_of(n);
            let m = sub_map(n);
            assert(e == el + seq![(b.key, b.val)] + er);
            assert(e.len() == el.len() + 1 + er.len());
            assert forall|j: int| 0 <= j < e.len() implies
                m.dom().contains((#[trigger] e[j]).0) && e[j].1 == m[e[j].0] by {
                if j < el.len() {
                    assert(e[j] == el[j]);
                    let k = el[j].0;
                    assert(sub_map(b.left).dom().contains(k));
                    assert(k < b.key);
                    assert(!sub_map(b.right).dom().contains(k));
                    assert(m[k] == sub_map(b.left)[k]);
                } else if j == el.len() {
                    assert(e[j] == (b.key, b.val));
                    assert(m[b.key] == b.val);
                } else {
                    assert(e[j] == er[j - el.len() - 1]);
                    let k = er[j - el.len() - 1].0;
                    assert(sub_map(b.right).dom().contains(k));
                    assert(k > b.key);
                    assert(m[k] == sub_map(b.right)[k]);
                }
            }
            assert forall|k: i64| m.dom().contains(k) implies
                exists|j: int| 0 <= j < e.len() && (#[trigger] e[j]).0 == k by {
                if k == b.key {
                    assert(e[el.len() as int].0 == k);
                } else {
                    assert(sub_map(b.left).dom().contains(k)
                        || sub_map(b.right).dom().contains(k));
                    if sub_map(b.left).dom().contains(k) {
                        let j0 = choose|j0: int| 0 <= j0 < el.len()
                            && (#[trigger] el[j0]).0 == k;
                        assert(e[j0].0 == k);
                    } else {
                        let j0 = choose|j0: int| 0 <= j0 < er.len()
                            && (#[trigger] er[j0]).0 == k;
                        assert(e[el.len() + 1 + j0].0 == k);
                    }
                }
            }
        },
    }
}

/// Append a subtree's entries in key order.
fn push_entries<V: Copy>(node: &Option<Box<rbtree_node<V>>>, out: &mut Vec<(i64, V)>)
    requires
        node_wf(*node),
    ensures
        final(out)@ == old(out)@ + entries_of(*node),
    decreases *node,
{
    match node {
        None => {
            proof {
                assert(out@ =~= old(out)@ + entries_of(*node));
            }
        },
        Some(b) => {
            push_entries(&b.left, out);
            out.push((b.key, b.val));
            push_entries(&b.right, out);
            proof {
                assert(node == Some(*b));
                assert(out@ =~= old(out)@ + entries_of(*node));
            }
        },
    }
}

impl<V: Copy> rbtree<V> {
    /// Every entry of the tree, in ascending key order: the snapshot a
    /// console dump of the tree prints, and the scheduler's process listing.
    pub fn entries(&self) -> (r: Vec<(i64, V)>)
        requires
            self.wf(),
        ensures
            r@ == entries_of(self.root),
            r@.len() == self@.dom().len(),
            forall|j: int| 0 <= j < r@.len() ==>
                self@.dom().contains((#[trigger] r@[j]).0) && r@[j].1 == self@[r@[j].0],
            forall|k: i64| self@.dom().contains(k)
                ==> exists|j: int| 0 <= j < r@.len() && (#[trigger] r@[j]).0 == k,
    {
        let mut out: Vec<(i64, V)> = Vec::new();
        push_entries(&self.root, &mut out);
        proof {
            lemma_entries_of(self.root);
            assert(out@ =~= entries_of(self.root));
        }
        out
    }
}

} // verus!
