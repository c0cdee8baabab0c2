//! An ordered tree of price levels for one side of the book, keyed by price.
//!
//! Each node maps a price to the handle of its level. The tree is a binary
//! search tree whose nodes carry their subtree height; insertion and removal
//! re-balance the path they touch by AVL rotations.
use vstd::prelude::*;
use crate::types::Price;

verus! {

/// A node of the price tree: one price, the handle of its level, two subtrees.
#[derive(Debug)]
pub struct AvlNode {
    /// Price of the level.
    pub price: Price,
    /// Handle of the level in the book's level arena.
    pub limit: usize,
    /// Subtree of lower prices.
    pub left_child: Option<Box<AvlNode>>,
    /// Subtree of higher prices.
    pub right_child: Option<Box<AvlNode>>,
    /// Height of the subtree rooted here (a leaf has height 1).
    pub height: u64,
}

/// The prices of a subtree mapped to their level handles.
pub open spec fn map_of(t: Option<Box<AvlNode>>) -> Map<Price, usize>
    decreases t,
{
    match t {
        None => Map::empty(),
        Some(n) => map_of(n.left_child).union_prefer_right(map_of(n.right_child)).insert(
            n.price,
            n.limit,
        ),
    }
}

/// Search-tree order: every price on the left is lower than the node's,
/// every price on the right higher, recursively.
pub open spec fn ordered(t: Option<Box<AvlNode>>) -> bool
    decreases t,
{
    match t {
        None => true,
        Some(n) => {
            &&& ordered(n.left_child)
            &&& ordered(n.right_child)
            &&& forall|k: Price| #[trigger] map_of(n.left_child).contains_key(k) ==> k < n.price
            &&& forall|k: Price| #[trigger] map_of(n.right_child).contains_key(k) ==> k > n.price
        },
    }
}

/// The larger of two naturals.
pub open spec fn max_nat(a: nat, b: nat) -> nat {
    if a > b { a } else { b }
}

/// The height of a subtree: the number of nodes on its longest path from the root.
pub open spec fn ht(t: Option<Box<AvlNode>>) -> nat
    decreases t,
{
    match t {
        None => 0,
        Some(n) => 1 + max_nat(ht(n.left_child), ht(n.right_child)),
    }
}

/// AVL balance: at every node the stored height is the subtree's height and
/// the heights of the two subtrees differ by at most one.
pub open spec fn balanced(t: Option<Box<AvlNode>>) -> bool
    decreases t,
{
    match t {
        None => true,
        Some(n) => {
            &&& balanced(n.left_child)
            &&& balanced(n.right_child)
            &&& n.height == ht(t)
            &&& ht(n.left_child) <= ht(n.right_child) + 1
            &&& ht(n.right_child) <= ht(n.left_child) + 1
        },
    }
}

/// The height stored at the root of a subtree (zero when absent).
pub open spec fn stored_height(t: Option<Box<AvlNode>>) -> u64 {
    match t {
        None => 0,
        Some(n) => n.height,
    }
}

/// One more than the larger of two heights, saturating.
pub open spec fn fresh_height(a: u64, b: u64) -> u64 {
    let m = if a > b { a } else { b };
    if m < u64::MAX { (m + 1) as u64 } else { m }
}

/// `r` lists a pair whose key is `k`.
pub open spec fn lists<V>(r: Seq<(Price, V)>, k: Price) -> bool {
    exists|i: int| 0 <= i < r.len() && (#[trigger] r[i]).0 == k
}

/// `r` holds the `n` highest keys of `m` (all of them if there are fewer),
/// each with its value, in strictly descending key order.
pub open spec fn top_desc<V>(r: Seq<(Price, V)>, m: Map<Price, V>, n: nat) -> bool {
    &&& r.len() <= n
    &&& forall|i: int, j: int| 0 <= i < j < r.len() ==> (#[trigger] r[i]).0 > (#[trigger] r[j]).0
    &&& forall|i: int| 0 <= i < r.len() ==> m.contains_key((#[trigger] r[i]).0) && m[r[i].0] == r[i].1
    &&& forall|k: Price| #[trigger] m.contains_key(k) && !lists(r, k) ==> {
        &&& r.len() == n
        &&& forall|i: int| 0 <= i < r.len() ==> k < (#[trigger] r[i]).0
    }
}

/// `r` holds the `n` lowest keys of `m` (all of them if there are fewer),
/// each with its value, in strictly ascending key order.
pub open spec fn top_asc<V>(r: Seq<(Price, V)>, m: Map<Price, V>, n: nat) -> bool {
    &&& r.len() <= n
    &&& forall|i: int, j: int| 0 <= i < j < r.len() ==> (#[trigger] r[i]).0 < (#[trigger] r[j]).0
    &&& forall|i: int| 0 <= i < r.len() ==> m.contains_key((#[trigger] r[i]).0) && m[r[i].0] == r[i].1
    &&& forall|k: Price| #[trigger] m.contains_key(k) && !lists(r, k) ==> {
        &&& r.len() == n
        &&& forall|i: int| 0 <= i < r.len() ==> k > (#[trigger] r[i]).0
    }
}

impl AvlNode {
    /// A leaf node for `price` and level handle `limit`.
    pub fn new(price: Price, limit: usize) -> (r: AvlNode)
        ensures
            r.price == price,
            r.limit == limit,
            r.left_child.is_none(),
            r.right_child.is_none(),
            r.height == 1,
    {
        AvlNode { price, limit, left_child: None, right_child: None, height: 1 }
    }

    /// No child.
    pub fn is_leaf(&self) -> (r: bool)
        ensures
            r == (self.left_child.is_none() && self.right_child.is_none()),
    {
        self.left_child.is_none() && self.right_child.is_none()
    }

    /// A left child and no right child.
    pub fn has_only_left_child(&self) -> (r: bool)
        ensures
            r == (self.left_child.is_some() && self.right_child.is_none()),
    {
        self.left_child.is_some() && self.right_child.is_none()
    }

    /// A right child and no left child.
    pub fn has_only_right_child(&self) -> (r: bool)
        ensures
            r == (self.left_child.is_none() && self.right_child.is_some()),
    {
        self.left_child.is_none() && self.right_child.is_some()
    }

    /// Both children.
    pub fn has_both_children(&self) -> (r: bool)
        ensures
            r == (self.left_child.is_some() && self.right_child.is_some()),
    {
        self.left_child.is_some() && self.right_child.is_some()
    }
}

/// Height of an optional subtree (zero when absent).
fn height_of(t: &Option<Box<AvlNode>>) -> (r: u64)
    ensures
        r == stored_height(*t),
{
    match t {
        Some(n) => n.height,
        None => 0,
    }
}

/// Recomputes a node's height from its children's heights, saturating.
fn refresh_height(n: &mut AvlNode)
    ensures
        final(n).price == old(n).price,
        final(n).limit == old(n).limit,
        final(n).left_child == old(n).left_child,
        final(n).right_child == old(n).right_child,
        final(n).height == fresh_height(stored_height(old(n).left_child), stored_height(old(n).right_child)),
{
    let hl = height_of(&n.left_child);
    let hr = height_of(&n.right_child);
    let h = if hl > hr { hl } else { hr };
    n.height = if h < u64::MAX { h + 1 } else { h };
}

/// Unfolds `map_of` and `ordered` at a node.
proof fn lemma_node(n: Box<AvlNode>)
    ensures
        map_of(Some(n)) == map_of(n.left_child).union_prefer_right(map_of(n.right_child)).insert(
            n.price,
            n.limit,
        ),
        ordered(Some(n)) == {
            &&& ordered(n.left_child)
            &&& ordered(n.right_child)
            &&& forall|k: Price| #[trigger] map_of(n.left_child).contains_key(k) ==> k < n.price
            &&& forall|k: Price| #[trigger] map_of(n.right_child).contains_key(k) ==> k > n.price
        },
{
}

/// Unfolds `ht` and `balanced` at a node.
proof fn lemma_shape(n: Box<AvlNode>)
    ensures
        ht(Some(n)) == 1 + max_nat(ht(n.left_child), ht(n.right_child)),
        balanced(Some(n)) == {
            &&& balanced(n.left_child)
            &&& balanced(n.right_child)
            &&& n.height == ht(Some(n))
            &&& ht(n.left_child) <= ht(n.right_child) + 1
            &&& ht(n.right_child) <= ht(n.left_child) + 1
        },
{
}

/// A balanced subtree stores its true height at the root.
proof fn lemma_stored(t: Option<Box<AvlNode>>)
    requires
        balanced(t),
    ensures
        stored_height(t) == ht(t),
{
    if t.is_some() {
        lemma_shape(t.unwrap());
    }
}

/// An ordered subtree holds finitely many prices, at least as many as its height.
proof fn lemma_height_bound(t: Option<Box<AvlNode>>)
    requires
        ordered(t),
    ensures
        map_of(t).dom().finite(),
        ht(t) <= map_of(t).dom().len(),
    decreases t,
{
    match t {
        None => {
            assert(map_of(t).dom() =~= Set::<Price>::empty());
        },
        Some(n) => {
            lemma_node(n);
            lemma_height_bound(n.left_child);
            lemma_height_bound(n.right_child);
            let a = map_of(n.left_child).dom();
            let b = map_of(n.right_child).dom();
            let u = map_of(n.left_child).union_prefer_right(map_of(n.right_child));
            assert(u.dom() =~= a.union(b));
            vstd::set_lib::lemma_len_union_ind(a, b);
            assert(!u.dom().contains(n.price));
            assert(map_of(t).dom() =~= u.dom().insert(n.price));
        },
    }
}

/// Right rotation: the left child becomes the root of the subtree.
fn rotate_right(n: Box<AvlNode>) -> (r: Box<AvlNode>)
    requires
        ordered(Some(n)),
        n.left_child.is_some(),
    ensures
        ordered(Some(r)),
        map_of(Some(r)) == map_of(Some(n)),
        ({
            let l = n.left_child.unwrap();
            &&& r.price == l.price
            &&& r.limit == l.limit
            &&& r.left_child == l.left_child
            &&& r.right_child.is_some()
            &&& r.right_child.unwrap().price == n.price
            &&& r.right_child.unwrap().limit == n.limit
            &&& r.right_child.unwrap().left_child == l.right_child
            &&& r.right_child.unwrap().right_child == n.right_child
            &&& r.right_child.unwrap().height == fresh_height(stored_height(l.right_child), stored_height(n.right_child))
            &&& r.height == fresh_height(stored_height(l.left_child), r.right_child.unwrap().height)
        }),
{
    let ghost g = n;
    let mut n = n;
    let mut l = n.left_child.take().unwrap();
    proof {
        lemma_node(g);
        lemma_node(l);
        assert(g.left_child == Some(l));
        assert forall|k: Price| #[trigger] map_of(l.right_child).contains_key(k) implies k
            < g.price by {
            assert(map_of(g.left_child).contains_key(k));
        }
    }
    n.left_child = l.right_child.take();
    refresh_height(&mut n);
    proof {
        lemma_node(n);
    }
    let ghost n2 = n;
    l.right_child = Some(n);
    refresh_height(&mut l);
    proof {
        lemma_node(l);
        assert(map_of(l.right_child) == map_of(Some(n2)));
        assert forall|k: Price| #[trigger] map_of(l.right_child).contains_key(k) implies k
            > l.price by {
            if k != n2.price && !map_of(n2.left_child).contains_key(k) {
                assert(map_of(n2.right_child).contains_key(k));
                assert(map_of(g.left_child).contains_key(l.price));
            }
        }
        assert(map_of(Some(l)) =~= map_of(Some(g)));
    }
    l
}

/// Left rotation: the right child becomes the root of the subtree.
fn rotate_left(n: Box<AvlNode>) -> (r: Box<AvlNode>)
    requires
        ordered(Some(n)),
        n.right_child.is_some(),
    ensures
        ordered(Some(r)),
        map_of(Some(r)) == map_of(Some(n)),
        ({
            let rc = n.right_child.unwrap();
            &&& r.price == rc.price
            &&& r.limit == rc.limit
            &&& r.right_child == rc.right_child
            &&& r.left_child.is_some()
            &&& r.left_child.unwrap().price == n.price
            &&& r.left_child.unwrap().limit == n.limit
            &&& r.left_child.unwrap().right_child == rc.left_child
            &&& r.left_child.unwrap().left_child == n.left_child
            &&& r.left_child.unwrap().height == fresh_height(stored_height(n.left_child), stored_height(rc.left_child))
            &&& r.height == fresh_height(r.left_child.unwrap().height, stored_height(rc.right_child))
        }),
{
    let ghost g = n;
    let mut n = n;
    let mut rc = n.right_child.take().unwrap();
    proof {
        lemma_node(g);
        lemma_node(rc);
        assert(g.right_child == Some(rc));
        assert forall|k: Price| #[trigger] map_of(rc.left_child).contains_key(k) implies k
            > g.price by {
            assert(map_of(g.right_child).contains_key(k));
        }
    }
    n.right_child = rc.left_child.take();
    refresh_height(&mut n);
    proof {
        lemma_node(n);
    }
    let ghost n2 = n;
    rc.left_child = Some(n);
    refresh_height(&mut rc);
    proof {
        lemma_node(rc);
        assert(map_of(rc.left_child) == map_of(Some(n2)));
        assert forall|k: Price| #[trigger] map_of(rc.left_child).contains_key(k) implies k
            < rc.price by {
            if k != n2.price && !map_of(n2.right_child).contains_key(k) {
                assert(map_of(n2.left_child).contains_key(k));
                assert(map_of(g.right_child).contains_key(rc.price));
            }
        }
        assert(map_of(Some(rc)) =~= map_of(Some(g)));
    }
    rc
}

/// Restores the AVL balance of a node whose two subtrees are balanced and
/// differ in height by at most two, by one single or double rotation.
/// Without a rotation the subtree's height is one more than its taller
/// child's; with one it is at most that.
fn rebalance(n: Box<AvlNode>) -> (r: Box<AvlNode>)
    requires
        ordered(Some(n)),
        balanced(n.left_child),
        balanced(n.right_child),
        ht(n.left_child) <= ht(n.right_child) + 2,
        ht(n.right_child) <= ht(n.left_child) + 2,
        ht(n.left_child) < u64::MAX,
        ht(n.right_child) < u64::MAX,
    ensures
        ordered(Some(r)),
        map_of(Some(r)) == map_of(Some(n)),
        balanced(Some(r)),
        max_nat(ht(n.left_child), ht(n.right_child)) <= ht(Some(r)),
        ht(Some(r)) <= max_nat(ht(n.left_child), ht(n.right_child)) + 1,
        ht(n.left_child) <= ht(n.right_child) + 1 && ht(n.right_child) <= ht(n.left_child) + 1
            ==> ht(Some(r)) == max_nat(ht(n.left_child), ht(n.right_child)) + 1,
{
    let ghost g = n;
    let mut n = n;
    refresh_height(&mut n);
    let hl = height_of(&n.left_child);
    let hr = height_of(&n.right_child);
    proof {
        lemma_node(n);
        lemma_shape(n);
        lemma_stored(n.left_child);
        lemma_stored(n.right_child);
    }
    if hl > 1 && hl - 1 > hr {
        let l = n.left_child.take().unwrap();
        proof {
            lemma_node(l);
            lemma_shape(l);
            lemma_stored(l.left_child);
            lemma_stored(l.right_child);
        }
        let l = if height_of(&l.right_child) > height_of(&l.left_child) {
            let ghost l0 = l;
            proof {
                let m = l.right_child.unwrap();
                lemma_shape(m);
                lemma_stored(m.left_child);
                lemma_stored(m.right_child);
            }
            let x = rotate_left(l);
            proof {
                let m = l0.right_child.unwrap();
                let xl = x.left_child.unwrap();
                lemma_shape(xl);
                lemma_shape(x);
                assert(balanced(Some(xl)));
            }
            x
        } else {
            l
        };
        n.left_child = Some(l);
        proof {
            lemma_node(n);
            assert(map_of(n.left_child) == map_of(g.left_child));
        }
        let ghost n1 = n;
        let r = rotate_right(n);
        proof {
            let x = n1.left_child.unwrap();
            let y = r.right_child.unwrap();
            lemma_shape(x);
            lemma_shape(y);
            lemma_shape(r);
            if x.left_child.is_some() {
                lemma_shape(x.left_child.unwrap());
            }
            lemma_stored(x.left_child);
            lemma_stored(x.right_child);
            assert(balanced(Some(y)));
        }
        r
    } else if hr > 1 && hr - 1 > hl {
        let rc = n.right_child.take().unwrap();
        proof {
            lemma_node(rc);
            lemma_shape(rc);
            lemma_stored(rc.left_child);
            lemma_stored(rc.right_child);
        }
        let rc = if height_of(&rc.left_child) > height_of(&rc.right_child) {
            let ghost r0 = rc;
            proof {
                let m = rc.left_child.unwrap();
                lemma_shape(m);
                lemma_stored(m.left_child);
                lemma_stored(m.right_child);
            }
            let x = rotate_right(rc);
            proof {
                let xr = x.right_child.unwrap();
                lemma_shape(xr);
                lemma_shape(x);
                assert(balanced(Some(xr)));
            }
            x
        } else {
            rc
        };
        n.right_child = Some(rc);
        proof {
            lemma_node(n);
            assert(map_of(n.right_child) == map_of(g.right_child));
        }
        let ghost n1 = n;
        let r = rotate_left(n);
        proof {
            let x = n1.right_child.unwrap();
            let y = r.left_child.unwrap();
            lemma_shape(x);
            lemma_shape(y);
            lemma_shape(r);
            if x.right_child.is_some() {
                lemma_shape(x.right_child.unwrap());
            }
            lemma_stored(x.left_child);
            lemma_stored(x.right_child);
            assert(balanced(Some(y)));
        }
        r
    } else {
        n
    }
}

/// Inserts `price` with level handle `limit`; a price already present is left as it is.
fn insert_at(t: &mut Option<Box<AvlNode>>, price: Price, limit: usize)
    requires
        ordered(*old(t)),
        balanced(*old(t)),
        ht(*old(t)) < u64::MAX,
    ensures
        ordered(*final(t)),
        balanced(*final(t)),
        ht(*old(t)) <= ht(*final(t)) <= ht(*old(t)) + 1,
        map_of(*final(t)) == (if map_of(*old(t)).contains_key(price) {
            map_of(*old(t))
        } else {
            map_of(*old(t)).insert(price, limit)
        }),
    decreases *old(t),
{
    match t.take() {
        None => {
            *t = Some(Box::new(AvlNode::new(price, limit)));
            proof {
                lemma_node(t.unwrap());
                lemma_shape(t.unwrap());
                assert(map_of(*t) =~= Map::<Price, usize>::empty().insert(price, limit));
            }
        },
        Some(n) => {
            let ghost g = n;
            let mut n = n;
            proof {
                lemma_node(g);
                lemma_shape(g);
            }
            if price < n.price {
                insert_at(&mut n.left_child, price, limit);
                proof {
                    lemma_node(n);
                    assert(!map_of(g.right_child).contains_key(price));
                    assert(map_of(Some(n)) =~= (if map_of(Some(g)).contains_key(price) {
                        map_of(Some(g))
                    } else {
                        map_of(Some(g)).insert(price, limit)
                    }));
                }
            } else if price > n.price {
                insert_at(&mut n.right_child, price, limit);
                proof {
                    lemma_node(n);
                    assert(!map_of(g.left_child).contains_key(price));
                    assert(map_of(Some(n)) =~= (if map_of(Some(g)).contains_key(price) {
                        map_of(Some(g))
                    } else {
                        map_of(Some(g)).insert(price, limit)
                    }));
                }
            }
            *t = Some(rebalance(n));
        },
    }
}

/// Removes the lowest price of a non-empty subtree and returns it with its handle.
fn remove_min(t: &mut Option<Box<AvlNode>>) -> (r: (Price, usize))
    requires
        old(t).is_some(),
        ordered(*old(t)),
        balanced(*old(t)),
    ensures
        ordered(*final(t)),
        balanced(*final(t)),
        ht(*final(t)) <= ht(*old(t)) <= ht(*final(t)) + 1,
        map_of(*old(t)).contains_key(r.0),
        map_of(*old(t))[r.0] == r.1,
        forall|k: Price| #[trigger] map_of(*old(t)).contains_key(k) ==> r.0 <= k,
        map_of(*final(t)) == map_of(*old(t)).remove(r.0),
    decreases *old(t),
{
    let n = t.take().unwrap();
    let ghost g = n;
    let mut n = n;
    proof {
        lemma_node(g);
        lemma_shape(g);
        lemma_stored(Some(g));
    }
    if n.left_child.is_none() {
        *t = n.right_child.take();
        proof {
            assert(map_of(g.left_child) =~= Map::<Price, usize>::empty());
            assert(map_of(*t) =~= map_of(Some(g)).remove(g.price));
        }
        (n.price, n.limit)
    } else {
        let r = remove_min(&mut n.left_child);
        proof {
            lemma_node(n);
            assert(!map_of(g.right_child).contains_key(r.0));
            assert(map_of(Some(n)) =~= map_of(Some(g)).remove(r.0));
        }
        *t = Some(rebalance(n));
        r
    }
}

/// Removes `price` if present.
fn remove_at(t: &mut Option<Box<AvlNode>>, price: Price)
    requires
        ordered(*old(t)),
        balanced(*old(t)),
    ensures
        ordered(*final(t)),
        balanced(*final(t)),
        ht(*final(t)) <= ht(*old(t)) <= ht(*final(t)) + 1,
        map_of(*final(t)) == map_of(*old(t)).remove(price),
    decreases *old(t),
{
    match t.take() {
        None => {
            proof {
                assert(map_of(*old(t)) =~= map_of(*old(t)).remove(price));
            }
        },
        Some(n) => {
            let ghost g = n;
            let mut n = n;
            proof {
                lemma_node(g);
                lemma_shape(g);
                lemma_stored(Some(g));
            }
            if price < n.price {
                remove_at(&mut n.left_child, price);
                proof {
                    lemma_node(n);
                    assert(!map_of(g.right_child).contains_key(price));
                    assert(map_of(Some(n)) =~= map_of(Some(g)).remove(price));
                }
                *t = Some(rebalance(n));
            } else if price > n.price {
                remove_at(&mut n.right_child, price);
                proof {
                    lemma_node(n);
                    assert(!map_of(g.left_child).contains_key(price));
                    assert(map_of(Some(n)) =~= map_of(Some(g)).remove(price));
                }
                *t = Some(rebalance(n));
            } else if n.left_child.is_none() {
                *t = n.right_child.take();
                proof {
                    assert(map_of(*t) =~= map_of(Some(g)).remove(price));
                }
            } else if n.right_child.is_none() {
                *t = n.left_child.take();
                proof {
                    assert(map_of(*t) =~= map_of(Some(g)).remove(price));
                }
            } else {
                let (k, v) = remove_min(&mut n.right_child);
                n.price = k;
                n.limit = v;
                proof {
                    lemma_node(n);
                    assert forall|j: Price| #[trigger] map_of(n.left_child).contains_key(j) implies j
                        < n.price by {
                        assert(map_of(g.right_child).contains_key(k));
                    }
                    assert(map_of(Some(n)) =~= map_of(Some(g)).remove(price));
                }
                *t = Some(rebalance(n));
            }
        },
    }
}

/// The highest price of a subtree with its handle, if any.
fn max_entry(t: &Option<Box<AvlNode>>) -> (r: Option<(Price, usize)>)
    requires
        ordered(*t),
    ensures
        r.is_none() == (map_of(*t) == Map::<Price, usize>::empty()),
        r.is_some() ==> {
            &&& map_of(*t).contains_key(r.unwrap().0)
            &&& map_of(*t)[r.unwrap().0] == r.unwrap().1
            &&& forall|k: Price| #[trigger] map_of(*t).contains_key(k) ==> k <= r.unwrap().0
        },
    decreases t,
{
    match t {
        None => None,
        Some(n) => {
            proof {
                lemma_node(*n);
                assert(map_of(*t).contains_key(n.price));
            }
            match max_entry(&n.right_child) {
                None => {
                    proof {
                        assert(map_of(n.right_child) =~= Map::<Price, usize>::empty());
                    }
                    Some((n.price, n.limit))
                },
                Some(e) => Some(e),
            }
        },
    }
}

/// The lowest price of a subtree with its handle, if any.
fn min_entry(t: &Option<Box<AvlNode>>) -> (r: Option<(Price, usize)>)
    requires
        ordered(*t),
    ensures
        r.is_none() == (map_of(*t) == Map::<Price, usize>::empty()),
        r.is_some() ==> {
            &&& map_of(*t).contains_key(r.unwrap().0)
            &&& map_of(*t)[r.unwrap().0] == r.unwrap().1
            &&& forall|k: Price| #[trigger] map_of(*t).contains_key(k) ==> k >= r.unwrap().0
        },
    decreases t,
{
    match t {
        None => None,
        Some(n) => {
            proof {
                lemma_node(*n);
                assert(map_of(*t).contains_key(n.price));
            }
            match min_entry(&n.left_child) {
                None => {
                    proof {
                        assert(map_of(n.left_child) =~= Map::<Price, usize>::empty());
                    }
                    Some((n.price, n.limit))
                },
                Some(e) => Some(e),
            }
        },
    }
}

/// Joins the listing of a node's higher subtree, the node, and the listing of
/// its lower subtree into the descending listing of the whole subtree.
proof fn lemma_join_desc(
    hi: Seq<(Price, usize)>,
    lo: Seq<(Price, usize)>,
    k: Price,
    v: usize,
    m_hi: Map<Price, usize>,
    m_lo: Map<Price, usize>,
    n: nat,
)
    requires
        top_desc(hi, m_hi, n),
        hi.len() < n,
        top_desc(lo, m_lo, (n - hi.len() - 1) as nat),
        forall|j: Price| #[trigger] m_hi.contains_key(j) ==> j > k,
        forall|j: Price| #[trigger] m_lo.contains_key(j) ==> j < k,
    ensures
        top_desc(hi.push((k, v)) + lo, m_lo.union_prefer_right(m_hi).insert(k, v), n),
{
    let s = hi.push((k, v)) + lo;
    let m = m_lo.union_prefer_right(m_hi).insert(k, v);
    let h = hi.len() as int;
    assert(forall|i: int| 0 <= i < h ==> s[i] == hi[i]);
    assert(s[h] == (k, v));
    assert(forall|i: int| h < i < s.len() ==> s[i] == lo[i - h - 1]);
    assert forall|i: int, j: int| 0 <= i < j < s.len() implies (#[trigger] s[i]).0 > (
    #[trigger] s[j]).0 by {
        if i < h {
            assert(m_hi.contains_key(hi[i].0));
            if j > h {
                assert(m_lo.contains_key(lo[j - h - 1].0));
            }
        } else if i == h {
            assert(m_lo.contains_key(lo[j - h - 1].0));
        } else {
            assert(s[i] == lo[i - h - 1] && s[j] == lo[j - h - 1]);
        }
    }
    assert forall|i: int| 0 <= i < s.len() implies m.contains_key((#[trigger] s[i]).0) && m[s[i].0]
        == s[i].1 by {
        if i < h {
            assert(m_hi.contains_key(hi[i].0));
        } else if i > h {
            assert(s[i] == lo[i - h - 1]);
            assert(m_lo.contains_key(lo[i - h - 1].0));
            assert(!m_hi.contains_key(lo[i - h - 1].0));
        }
    }
    assert forall|j: Price| #[trigger] m.contains_key(j) && !lists(s, j) implies {
        &&& s.len() == n
        &&& forall|i: int| 0 <= i < s.len() ==> j < (#[trigger] s[i]).0
    } by {
        if m_hi.contains_key(j) {
            if lists(hi, j) {
                let i = choose|i: int| 0 <= i < hi.len() && (#[trigger] hi[i]).0 == j;
                assert(s[i].0 == j);
            }
        } else if j == k {
            assert(s[h].0 == j);
        } else {
            assert(m_lo.contains_key(j));
            if lists(lo, j) {
                let i = choose|i: int| 0 <= i < lo.len() && (#[trigger] lo[i]).0 == j;
                assert(s[i + h + 1].0 == j);
            }
            assert forall|i: int| 0 <= i < s.len() implies j < (#[trigger] s[i]).0 by {
                if i < h {
                    assert(m_hi.contains_key(hi[i].0));
                } else if i > h {
                    assert(s[i] == lo[i - h - 1]);
                }
            }
        }
    }
}

/// A full descending listing of a node's higher subtree is also the listing
/// of the whole subtree.
proof fn lemma_full_desc(
    hi: Seq<(Price, usize)>,
    k: Price,
    v: usize,
    m_hi: Map<Price, usize>,
    m_lo: Map<Price, usize>,
    n: nat,
)
    requires
        top_desc(hi, m_hi, n),
        hi.len() == n,
        forall|j: Price| #[trigger] m_hi.contains_key(j) ==> j > k,
        forall|j: Price| #[trigger] m_lo.contains_key(j) ==> j < k,
    ensures
        top_desc(hi, m_lo.union_prefer_right(m_hi).insert(k, v), n),
{
    let m = m_lo.union_prefer_right(m_hi).insert(k, v);
    assert forall|i: int| 0 <= i < hi.len() implies m.contains_key((#[trigger] hi[i]).0) && m[hi[i].0]
        == hi[i].1 by {
        assert(m_hi.contains_key(hi[i].0));
    }
    assert forall|j: Price| #[trigger] m.contains_key(j) && !lists(hi, j) implies {
        &&& hi.len() == n
        &&& forall|i: int| 0 <= i < hi.len() ==> j < (#[trigger] hi[i]).0
    } by {
        if !m_hi.contains_key(j) {
            assert forall|i: int| 0 <= i < hi.len() implies j < (#[trigger] hi[i]).0 by {
                assert(m_hi.contains_key(hi[i].0));
            }
        }
    }
}

/// Joins the listing of a node's lower subtree, the node, and the listing of
/// its higher subtree into the ascending listing of the whole subtree.
proof fn lemma_join_asc(
    lo: Seq<(Price, usize)>,
    hi: Seq<(Price, usize)>,
    k: Price,
    v: usize,
    m_hi: Map<Price, usize>,
    m_lo: Map<Price, usize>,
    n: nat,
)
    requires
        top_asc(lo, m_lo, n),
        lo.len() < n,
        top_asc(hi, m_hi, (n - lo.len() - 1) as nat),
        forall|j: Price| #[trigger] m_hi.contains_key(j) ==> j > k,
        forall|j: Price| #[trigger] m_lo.contains_key(j) ==> j < k,
    ensures
        top_asc(lo.push((k, v)) + hi, m_lo.union_prefer_right(m_hi).insert(k, v), n),
{
    let s = lo.push((k, v)) + hi;
    let m = m_lo.union_prefer_right(m_hi).insert(k, v);
    let h = lo.len() as int;
    assert(forall|i: int| 0 <= i < h ==> s[i] == lo[i]);
    assert(s[h] == (k, v));
    assert(forall|i: int| h < i < s.len() ==> s[i] == hi[i - h - 1]);
    assert forall|i: int, j: int| 0 <= i < j < s.len() implies (#[trigger] s[i]).0 < (
    #[trigger] s[j]).0 by {
        if i < h {
            assert(m_lo.contains_key(lo[i].0));
            if j > h {
                assert(m_hi.contains_key(hi[j - h - 1].0));
            }
        } else if i == h {
            assert(m_hi.contains_key(hi[j - h - 1].0));
        } else {
            assert(s[i] == hi[i - h - 1] && s[j] == hi[j - h - 1]);
        }
    }
    assert forall|i: int| 0 <= i < s.len() implies m.contains_key((#[trigger] s[i]).0) && m[s[i].0]
        == s[i].1 by {
        if i < h {
            assert(m_lo.contains_key(lo[i].0));
            assert(!m_hi.contains_key(lo[i].0));
        } else if i > h {
            assert(s[i] == hi[i - h - 1]);
            assert(m_hi.contains_key(hi[i - h - 1].0));
        }
    }
    assert forall|j: Price| #[trigger] m.contains_key(j) && !lists(s, j) implies {
        &&& s.len() == n
        &&& forall|i: int| 0 <= i < s.len() ==> j > (#[trigger] s[i]).0
    } by {
        if m_hi.contains_key(j) {
            if lists(hi, j) {
                let i = choose|i: int| 0 <= i < hi.len() && (#[trigger] hi[i]).0 == j;
                assert(s[i + h + 1].0 == j);
            }
            assert forall|i: int| 0 <= i < s.len() implies j > (#[trigger] s[i]).0 by {
                if i < h {
                    assert(m_lo.contains_key(lo[i].0));
                } else if i > h {
                    assert(s[i] == hi[i - h - 1]);
                }
            }
        } else if j == k {
            assert(s[h].0 == j);
        } else {
            assert(m_lo.contains_key(j));
            if lists(lo, j) {
                let i = choose|i: int| 0 <= i < lo.len() && (#[trigger] lo[i]).0 == j;
                assert(s[i].0 == j);
            }
        }
    }
}

/// A full ascending listing of a node's lower subtree is also the listing
/// of the whole subtree.
proof fn lemma_full_asc(
    lo: Seq<(Price, usize)>,
    k: Price,
    v: usize,
    m_hi: Map<Price, usize>,
    m_lo: Map<Price, usize>,
    n: nat,
)
    requires
        top_asc(lo, m_lo, n),
        lo.len() == n,
        forall|j: Price| #[trigger] m_hi.contains_key(j) ==> j > k,
        forall|j: Price| #[trigger] m_lo.contains_key(j) ==> j < k,
    ensures
        top_asc(lo, m_lo.union_prefer_right(m_hi).insert(k, v), n),
{
    let m = m_lo.union_prefer_right(m_hi).insert(k, v);
    assert forall|i: int| 0 <= i < lo.len() implies m.contains_key((#[trigger] lo[i]).0) && m[lo[i].0]
        == lo[i].1 by {
        assert(m_lo.contains_key(lo[i].0));
        assert(!m_hi.contains_key(lo[i].0));
    }
    assert forall|j: Price| #[trigger] m.contains_key(j) && !lists(lo, j) implies {
        &&& lo.len() == n
        &&& forall|i: int| 0 <= i < lo.len() ==> j > (#[trigger] lo[i]).0
    } by {
        if !m_lo.contains_key(j) {
            assert forall|i: int| 0 <= i < lo.len() implies j > (#[trigger] lo[i]).0 by {
                assert(m_lo.contains_key(lo[i].0));
            }
        }
    }
}

/// Appends the elements of `b` to `a`.
fn append_all(a: &mut Vec<(Price, usize)>, b: &Vec<(Price, usize)>)
    ensures
        final(a)@ == old(a)@ + b@,
{
    let mut i: usize = 0;
    while i < b.len()
        invariant
            i <= b.len(),
            a@ == old(a)@ + b@.subrange(0, i as int),
        decreases b.len() - i,
    {
        a.push(b[i]);
        i = i + 1;
        proof {
            assert(a@ =~= old(a)@ + b@.subrange(0, i as int));
        }
    }
    proof {
        assert(b@.subrange(0, b@.len() as int) =~= b@);
    }
}

/// The `n` highest prices of a subtree with their handles, highest first.
fn collect_desc(t: &Option<Box<AvlNode>>, n: usize) -> (r: Vec<(Price, usize)>)
    requires
        ordered(*t),
    ensures
        top_desc(r@, map_of(*t), n as nat),
    decreases t,
{
    match t {
        None => {
            let r: Vec<(Price, usize)> = Vec::new();
            proof {
                assert(r@.len() == 0);
            }
            r
        },
        Some(node) => {
            proof {
                lemma_node(*node);
            }
            let mut r = collect_desc(&node.right_child, n);
            if r.len() < n {
                let ghost hi = r@;
                r.push((node.price, node.limit));
                let lo = collect_desc(&node.left_child, n - r.len());
                append_all(&mut r, &lo);
                proof {
                    lemma_join_desc(
                        hi,
                        lo@,
                        node.price,
                        node.limit,
                        map_of(node.right_child),
                        map_of(node.left_child),
                        n as nat,
                    );
                }
            } else {
                proof {
                    lemma_full_desc(
                        r@,
                        node.price,
                        node.limit,
                        map_of(node.right_child),
                        map_of(node.left_child),
                        n as nat,
                    );
                }
            }
            r
        },
    }
}

/// The `n` lowest prices of a subtree with their handles, lowest first.
fn collect_asc(t: &Option<Box<AvlNode>>, n: usize) -> (r: Vec<(Price, usize)>)
    requires
        ordered(*t),
    ensures
        top_asc(r@, map_of(*t), n as nat),
    decreases t,
{
    match t {
        None => {
            let r: Vec<(Price, usize)> = Vec::new();
            proof {
                assert(r@.len() == 0);
            }
            r
        },
        Some(node) => {
            proof {
                lemma_node(*node);
            }
            let mut r = collect_asc(&node.left_child, n);
            if r.len() < n {
                let ghost lo = r@;
                r.push((node.price, node.limit));
                let hi = collect_asc(&node.right_child, n - r.len());
                append_all(&mut r, &hi);
                proof {
                    lemma_join_asc(
                        lo,
                        hi@,
                        node.price,
                        node.limit,
                        map_of(node.right_child),
                        map_of(node.left_child),
                        n as nat,
                    );
                }
            } else {
                proof {
                    lemma_full_asc(
                        r@,
                        node.price,
                        node.limit,
                        map_of(node.right_child),
                        map_of(node.left_child),
                        n as nat,
                    );
                }
            }
            r
        },
    }
}

/// The ordered tree of one side's levels.
#[derive(Debug)]
pub struct PriceTree {
    /// The root node, if the tree holds a price.
    pub root: Option<Box<AvlNode>>,
}

impl View for PriceTree {
    type V = Map<Price, usize>;

    closed spec fn view(&self) -> Map<Price, usize> {
        map_of(self.root)
    }
}

impl PriceTree {
    /// The tree is a search tree and AVL-balanced: at every node the stored
    /// height is the true height and the subtrees' heights differ by at most one.
    pub open spec fn wf(self) -> bool {
        ordered(self.root) && balanced(self.root)
    }

    /// An empty tree.
    pub fn new() -> (r: PriceTree)
        ensures
            r.wf(),
            r@ == Map::<Price, usize>::empty(),
    {
        PriceTree { root: None }
    }

    /// True when the tree holds no price.
    pub fn is_empty(&self) -> (r: bool)
        ensures
            r == (self@ == Map::<Price, usize>::empty()),
    {
        proof {
            if self.root.is_some() {
                assert(self@.contains_key(self.root.unwrap().price));
            }
        }
        self.root.is_none()
    }
    /// Adds `price` with level handle `limit`; a price already present is left as it is.
    pub fn insert(&mut self, price: Price, limit: usize)
        requires
            old(self).wf(),
            old(self)@.len() < usize::MAX,
        ensures
            final(self).wf(),
            final(self)@ == (if old(self)@.contains_key(price) {
                old(self)@
            } else {
                old(self)@.insert(price, limit)
            }),
    {
        proof {
            lemma_height_bound(self.root);
        }
        insert_at(&mut self.root, price, limit);
    }

    /// Removes `price` if present.
    pub fn remove(&mut self, price: Price)
        requires
            old(self).wf(),
        ensures
            final(self).wf(),
            final(self)@ == old(self)@.remove(price),
    {
        remove_at(&mut self.root, price);
    }

    /// The highest price with its handle, or `None` for an empty tree.
    pub fn max(&self) -> (r: Option<(Price, usize)>)
        requires
            self.wf(),
        ensures
            r.is_none() == (self@ == Map::<Price, usize>::empty()),
            r.is_some() ==> {
                &&& self@.contains_key(r.unwrap().0)
                &&& self@[r.unwrap().0] == r.unwrap().1
                &&& forall|k: Price| #[trigger] self@.contains_key(k) ==> k <= r.unwrap().0
            },
    {
        max_entry(&self.root)
    }

    /// The lowest price with its handle, or `None` for an empty tree.
    pub fn min(&self) -> (r: Option<(Price, usize)>)
        requires
            self.wf(),
        ensures
            r.is_none() == (self@ == Map::<Price, usize>::empty()),
            r.is_some() ==> {
                &&& self@.contains_key(r.unwrap().0)
                &&& self@[r.unwrap().0] == r.unwrap().1
                &&& forall|k: Price| #[trigger] self@.contains_key(k) ==> k >= r.unwrap().0
            },
    {
        min_entry(&self.root)
    }

    /// The `n` highest prices with their handles, highest first.
    pub fn highest(&self, n: usize) -> (r: Vec<(Price, usize)>)
        requires
            self.wf(),
        ensures
            top_desc(r@, self@, n as nat),
    {
        collect_desc(&self.root, n)
    }

    /// The `n` lowest prices with their handles, lowest first.
    pub fn lowest(&self, n: usize) -> (r: Vec<(Price, usize)>)
        requires
            self.wf(),
        ensures
            top_asc(r@, self@, n as nat),
    {
        collect_asc(&self.root, n)
    }
}

} // verus!
