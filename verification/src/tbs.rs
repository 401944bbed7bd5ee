//! The kernel heap: per-arena interval trees over fixed 2 MiB spans, with
//! demand-mapped backing frames.
//!
//! Intervals are kept in an AVL tree keyed by base address. In the running
//! kernel the nodes live inside their arena's first pages; here the tree is
//! held as an owned structure, which is what those bytes encode.

use vstd::prelude::*;
use vstd::pervasive::unreached;
use crate::db::Database;
use crate::{pmm, vmm};
use crate::vmm::AddressSpaceHandle;

verus! {

pub const CACHE_LINE_SIZE: usize = 64;

/// Max number of arenas; one per CPU in the design.
pub const MAX_ARENAS: usize = 8;

pub const ARENA_DEFAULT_SIZE: usize = 2097152;

pub const ARENA_DEFAULT_BASE: usize = 0x1000_0000;

pub const ARENA_DEFAULT_SPACING: usize = 0x1000_0000;

/// One heap interval: a span of the arena, free or in use.
#[derive(Debug, Clone, Copy, PartialEq, Eq, Structural)]
pub struct Interval {
    pub base: usize,
    pub length: usize,
    pub is_free: bool,
}

/// One node of the interval tree.
#[derive(Debug)]
pub struct IntrusiveIntervalNode {
    pub base: usize,
    pub length: usize,
    pub is_free: bool,
    pub height: usize,
    pub left: Option<Box<IntrusiveIntervalNode>>,
    pub right: Option<Box<IntrusiveIntervalNode>>,
}

pub open spec fn spec_height(t: Option<Box<IntrusiveIntervalNode>>) -> nat
    decreases t,
{
    match t {
        None => 0,
        Some(n) => 1 + if spec_height(n.left) > spec_height(n.right) {
            spec_height(n.left)
        } else {
            spec_height(n.right)
        },
    }
}

/// The intervals in base order.
pub open spec fn inorder(t: Option<Box<IntrusiveIntervalNode>>) -> Seq<Interval>
    decreases t,
{
    match t {
        None => Seq::empty(),
        Some(n) => inorder(n.left) + seq![
            Interval { base: n.base, length: n.length, is_free: n.is_free },
        ] + inorder(n.right),
    }
}

/// The height fields match the real heights.
pub open spec fn heights_ok(t: Option<Box<IntrusiveIntervalNode>>) -> bool
    decreases t,
{
    match t {
        None => true,
        Some(n) => n.height == spec_height(Some(n)) && heights_ok(n.left) && heights_ok(n.right),
    }
}

/// Every node's balance factor is −1, 0 or 1.
pub open spec fn balanced(t: Option<Box<IntrusiveIntervalNode>>) -> bool
    decreases t,
{
    match t {
        None => true,
        Some(n) => {
            let hl = spec_height(n.left) as int;
            let hr = spec_height(n.right) as int;
            &&& -1 <= hl - hr <= 1
            &&& balanced(n.left)
            &&& balanced(n.right)
        },
    }
}

/// Every base lies strictly between the bounds, in search-tree order.
pub open spec fn bounded(t: Option<Box<IntrusiveIntervalNode>>, lo: int, hi: int) -> bool
    decreases t,
{
    match t {
        None => true,
        Some(n) => lo < n.base < hi && bounded(n.left, lo, n.base as int) && bounded(
            n.right,
            n.base as int,
            hi,
        ),
    }
}

/// A sound AVL interval tree between the bounds.
pub open spec fn tree_wf(t: Option<Box<IntrusiveIntervalNode>>, lo: int, hi: int) -> bool {
    heights_ok(t) && balanced(t) && bounded(t, lo, hi)
}

pub open spec fn has_base(t: Option<Box<IntrusiveIntervalNode>>, base: usize) -> bool
    decreases t,
{
    match t {
        None => false,
        Some(n) => n.base == base || has_base(n.left, base) || has_base(n.right, base),
    }
}

/// A bounded tree only holds bases inside its bounds.
pub proof fn lemma_has_base_in_bounds(t: Option<Box<IntrusiveIntervalNode>>, lo: int, hi: int, b: usize)
    requires
        bounded(t, lo, hi),
        has_base(t, b),
    ensures
        lo < b < hi,
    decreases t,
{
    match t {
        None => {},
        Some(n) => {
            if n.base != b {
                if has_base(n.left, b) {
                    lemma_has_base_in_bounds(n.left, lo, n.base as int, b);
                } else {
                    lemma_has_base_in_bounds(n.right, n.base as int, hi, b);
                }
            }
        },
    }
}

/// Bases in order: the in-order walk of a bounded tree is strictly
/// ascending, and stays inside the bounds.
pub proof fn lemma_inorder_sorted(t: Option<Box<IntrusiveIntervalNode>>, lo: int, hi: int)
    requires
        bounded(t, lo, hi),
    ensures
        forall|i: int, j: int| 0 <= i < j < inorder(t).len() ==> (#[trigger] inorder(t)[i]).base
            < (#[trigger] inorder(t)[j]).base,
        forall|i: int| 0 <= i < inorder(t).len() ==> lo < (#[trigger] inorder(t)[i]).base < hi,
    decreases t,
{
    match t {
        None => {},
        Some(n) => {
            lemma_inorder_sorted(n.left, lo, n.base as int);
            lemma_inorder_sorted(n.right, n.base as int, hi);
            let s = inorder(Some(n));
            let l = inorder(n.left);
            let m = seq![Interval { base: n.base, length: n.length, is_free: n.is_free }];
            let r = inorder(n.right);
            assert(s == l + m + r);
            assert forall|i: int| 0 <= i < s.len() implies lo < (#[trigger] s[i]).base < hi by {
                if i < l.len() {
                    assert(s[i] == l[i]);
                } else if i == l.len() {
                    assert(s[i] == m[0]);
                } else {
                    assert(s[i] == r[i - l.len() - 1]);
                }
            }
            assert forall|i: int, j: int| 0 <= i < j < s.len() implies (#[trigger] s[i]).base < (
            #[trigger] s[j]).base by {
                if i < l.len() {
                    assert(s[i] == l[i]);
                } else if i == l.len() {
                    assert(s[i] == m[0]);
                } else {
                    assert(s[i] == r[i - l.len() - 1]);
                }
                if j < l.len() {
                    assert(s[j] == l[j]);
                } else if j == l.len() {
                    assert(s[j] == m[0]);
                } else {
                    assert(s[j] == r[j - l.len() - 1]);
                }
            }
        },
    }
}

/// The height field of a sound subtree, read without walking it.
fn node_height(t: &Option<Box<IntrusiveIntervalNode>>) -> (r: usize)
    requires
        heights_ok(*t),
    ensures
        r == spec_height(*t),
{
    match t {
        None => 0,
        Some(n) => n.height,
    }
}

/// Rebuilds a node from its parts, fixing its height field.
fn mk_node(
    base: usize,
    length: usize,
    is_free: bool,
    left: Option<Box<IntrusiveIntervalNode>>,
    right: Option<Box<IntrusiveIntervalNode>>,
) -> (r: Box<IntrusiveIntervalNode>)
    requires
        heights_ok(left),
        heights_ok(right),
        spec_height(left) < usize::MAX,
        spec_height(right) < usize::MAX,
    ensures
        r.base == base && r.length == length && r.is_free == is_free,
        r.left == left && r.right == right,
        heights_ok(Some(r)),
        spec_height(Some(r)) == 1 + if spec_height(left) > spec_height(right) {
            spec_height(left)
        } else {
            spec_height(right)
        },
{
    let hl = node_height(&left);
    let hr = node_height(&right);
    let h = if hl > hr {
        hl
    } else {
        hr
    };
    Box::new(IntrusiveIntervalNode { base, length, is_free, height: h + 1, left, right })
}

/// Rotating right preserves the walk, the bounds and the contents.
fn right_rotate(y: Box<IntrusiveIntervalNode>, Ghost(lo): Ghost<int>, Ghost(hi): Ghost<int>) -> (r:
    Box<IntrusiveIntervalNode>)
    requires
        heights_ok(Some(y)),
        bounded(Some(y), lo, hi),
        y.left is Some,
        spec_height(Some(y)) < usize::MAX,
    ensures
        heights_ok(Some(r)),
        bounded(Some(r), lo, hi),
        inorder(Some(r)) == inorder(Some(y)),
        r.left == y.left.unwrap().left,
        r.base == y.left.unwrap().base,
        r.right is Some,
        r.right.unwrap().left == y.left.unwrap().right,
        r.right.unwrap().right == y.right,
        spec_height(r.right) == 1 + if spec_height(y.left.unwrap().right) > spec_height(y.right) {
            spec_height(y.left.unwrap().right)
        } else {
            spec_height(y.right)
        },
{
    let ghost y0 = *y;
    proof {
        assert(heights_ok(y0.left) && heights_ok(y0.right));
        assert(spec_height(y0.left) < spec_height(Some(y)) && spec_height(y0.right)
            < spec_height(Some(y)));
        assert(bounded(y0.left, lo, y0.base as int) && bounded(y0.right, y0.base as int, hi));
        let x0 = y0.left.unwrap();
        assert(y0.left == Some(x0));
        assert(heights_ok(Some(x0)) && bounded(Some(x0), lo, y0.base as int));
        assert(heights_ok(x0.left) && heights_ok(x0.right));
        assert(spec_height(x0.left) < spec_height(y0.left) && spec_height(x0.right)
            < spec_height(y0.left));
        assert(bounded(x0.left, lo, x0.base as int) && bounded(x0.right, x0.base as int,
            y0.base as int));
        assert(lo < x0.base < y0.base < hi);
    }
    let yv = *y;
    let IntrusiveIntervalNode { base: yb, length: ylen, is_free: yfree, height: _, left: yleft, right: yright } = yv;
    let x = match yleft {
        Some(x) => x,
        None => {
            proof {
                assert(false);
            }
            unreached()
        },
    };
    let xv = *x;
    let IntrusiveIntervalNode { base: xb, length: xlen, is_free: xfree, height: _, left: xleft, right: xright } = xv;
    let new_right = mk_node(yb, ylen, yfree, xright, yright);
    let r = mk_node(xb, xlen, xfree, xleft, Some(new_right));
    proof {
        let a = inorder(r.left);
        let bx = seq![Interval { base: r.base, length: r.length, is_free: r.is_free }];
        let c = inorder(new_right.left);
        let by = seq![
            Interval { base: new_right.base, length: new_right.length, is_free: new_right.is_free },
        ];
        let d = inorder(new_right.right);
        assert(inorder(Some(new_right)) == c + by + d);
        assert(r.right == Some(new_right));
        assert(inorder(Some(r)) == a + bx + inorder(Some(new_right)));
        assert(inorder(Some(r)) =~= a + bx + (c + by + d));
        let x0 = y0.left.unwrap();
        assert(inorder(Some(x0)) == a + bx + c);
        assert(inorder(Some(y)) == inorder(Some(x0)) + by + d);
        assert(inorder(Some(r)) =~= inorder(Some(y)));
        assert(bounded(Some(new_right), r.base as int, hi)) by {
            assert(bounded(new_right.left, r.base as int, new_right.base as int));
            assert(bounded(new_right.right, new_right.base as int, hi));
        }
        assert(bounded(Some(r), lo, hi)) by {
            assert(bounded(r.left, lo, r.base as int));
            assert(bounded(r.right, r.base as int, hi));
        }
    }
    r
}

/// Rotating left preserves the walk, the bounds and the contents.
fn left_rotate(x: Box<IntrusiveIntervalNode>, Ghost(lo): Ghost<int>, Ghost(hi): Ghost<int>) -> (r:
    Box<IntrusiveIntervalNode>)
    requires
        heights_ok(Some(x)),
        bounded(Some(x), lo, hi),
        x.right is Some,
        spec_height(Some(x)) < usize::MAX,
    ensures
        heights_ok(Some(r)),
        bounded(Some(r), lo, hi),
        inorder(Some(r)) == inorder(Some(x)),
        r.right == x.right.unwrap().right,
        r.base == x.right.unwrap().base,
        r.left is Some,
        r.left.unwrap().left == x.left,
        r.left.unwrap().right == x.right.unwrap().left,
        spec_height(r.left) == 1 + if spec_height(x.left) > spec_height(x.right.unwrap().left) {
            spec_height(x.left)
        } else {
            spec_height(x.right.unwrap().left)
        },
{
    let ghost x0 = *x;
    proof {
        assert(heights_ok(x0.left) && heights_ok(x0.right));
        assert(spec_height(x0.left) < spec_height(Some(x)) && spec_height(x0.right)
            < spec_height(Some(x)));
        assert(bounded(x0.left, lo, x0.base as int) && bounded(x0.right, x0.base as int, hi));
        let y0 = x0.right.unwrap();
        assert(x0.right == Some(y0));
        assert(heights_ok(Some(y0)) && bounded(Some(y0), x0.base as int, hi));
        assert(heights_ok(y0.left) && heights_ok(y0.right));
        assert(spec_height(y0.left) < spec_height(x0.right) && spec_height(y0.right)
            < spec_height(x0.right));
        assert(bounded(y0.left, x0.base as int, y0.base as int) && bounded(y0.right,
            y0.base as int, hi));
        assert(lo < x0.base < y0.base < hi);
    }
    let xv = *x;
    let IntrusiveIntervalNode { base: xb, length: xlen, is_free: xfree, height: _, left: xleft, right: xright } = xv;
    let y = match xright {
        Some(y) => y,
        None => {
            proof {
                assert(false);
            }
            unreached()
        },
    };
    let yv = *y;
    let IntrusiveIntervalNode { base: yb, length: ylen, is_free: yfree, height: _, left: yleft, right: yright } = yv;
    let new_left = mk_node(xb, xlen, xfree, xleft, yleft);
    let r = mk_node(yb, ylen, yfree, Some(new_left), yright);
    proof {
        let a = inorder(new_left.left);
        let bx = seq![
            Interval { base: new_left.base, length: new_left.length, is_free: new_left.is_free },
        ];
        let c = inorder(new_left.right);
        let by = seq![Interval { base: r.base, length: r.length, is_free: r.is_free }];
        let d = inorder(r.right);
        assert(inorder(Some(new_left)) == a + bx + c);
        assert(r.left == Some(new_left));
        assert(inorder(Some(r)) == inorder(Some(new_left)) + by + d);
        assert(inorder(Some(r)) =~= (a + bx + c) + by + d);
        let y0 = x0.right.unwrap();
        assert(inorder(Some(y0)) == c + by + d);
        assert(inorder(Some(x)) == a + bx + inorder(Some(y0)));
        assert(inorder(Some(r)) =~= inorder(Some(x)));
        assert(bounded(Some(new_left), lo, r.base as int)) by {
            assert(bounded(new_left.left, lo, new_left.base as int));
            assert(bounded(new_left.right, new_left.base as int, r.base as int));
        }
        assert(bounded(Some(r), lo, hi)) by {
            assert(bounded(r.left, lo, r.base as int));
            assert(bounded(r.right, r.base as int, hi));
        }
    }
    r
}

/// Real heights never exceed what a height field can hold.
proof fn lemma_height_bound(t: Option<Box<IntrusiveIntervalNode>>)
    requires
        heights_ok(t),
    ensures
        spec_height(t) <= usize::MAX,
    decreases t,
{
    match t {
        None => {},
        Some(n) => {
            assert(n.height == spec_height(Some(n)));
        },
    }
}

/// AVL insert: keeps the tree sound and balanced, and splices the new
/// interval into the walk at its sorted position. An existing base is left
/// untouched.
#[verifier::rlimit(100)]
#[verifier::spinoff_prover]
fn insert_node(
    t: Option<Box<IntrusiveIntervalNode>>,
    base: usize,
    length: usize,
    is_free: bool,
    Ghost(lo): Ghost<int>,
    Ghost(hi): Ghost<int>,
) -> (r: Option<Box<IntrusiveIntervalNode>>)
    requires
        tree_wf(t, lo, hi),
        lo < base < hi,
        spec_height(t) + 4 < usize::MAX,
    ensures
        tree_wf(r, lo, hi),
        spec_height(t) <= spec_height(r) <= spec_height(t) + 1,
        has_base(t, base) ==> inorder(r) == inorder(t),
        !has_base(t, base) ==> exists|j: int|
            0 <= j <= inorder(t).len() && inorder(r) == #[trigger] inorder(t).take(j) + seq![
                Interval { base, length, is_free },
            ] + inorder(t).skip(j),
    decreases t,
{
    let ghost item = Interval { base, length, is_free };
    match t {
        None => {
            let n = Box::new(
                IntrusiveIntervalNode { base, length, is_free, height: 1, left: None, right: None },
            );
            proof {
                let e = Seq::<Interval>::empty();
                assert(inorder(n.left) == e && inorder(n.right) == e);
                assert(spec_height(n.left) == 0 && spec_height(n.right) == 0);
                assert(inorder(Some(n)) =~= e.take(0) + seq![item] + e.skip(0));
                assert(0 <= 0 <= e.len() && inorder(Some(n)) == e.take(0) + seq![item] + e.skip(
                    0,
                ));
                assert(spec_height(Some(n)) == 1);
                assert(heights_ok(n.left) && heights_ok(n.right) && balanced(n.left) && balanced(
                    n.right,
                ) && bounded(n.left, lo, base as int) && bounded(n.right, base as int, hi));
                assert(heights_ok(Some(n)) && balanced(Some(n)) && bounded(Some(n), lo, hi));
            }
            Some(n)
        },
        Some(n) => {
            let ghost t0 = Some(n);
            let ghost n0 = *n;
            let nv = *n;
            let IntrusiveIntervalNode {
                base: nb,
                length: nlen,
                is_free: nfree,
                height: _,
                left: nleft,
                right: nright,
            } = nv;
            let ghost l_in = inorder(n0.left);
            let ghost r_in = inorder(n0.right);
            let ghost mid = seq![Interval { base: n0.base, length: n0.length, is_free: n0.is_free }];
            proof {
                assert(inorder(t0) == l_in + mid + r_in);
                assert(heights_ok(n0.left) && heights_ok(n0.right));
                assert(spec_height(n0.left) < spec_height(t0) && spec_height(n0.right)
                    < spec_height(t0));
            }
            if base < nb {
                let new_left = insert_node(
                    nleft,
                    base,
                    length,
                    is_free,
                    Ghost(lo),
                    Ghost(nb as int),
                );
                proof {
                    assert(spec_height(n0.left) <= spec_height(n0.right) + 1 && spec_height(
                        n0.right,
                    ) <= spec_height(n0.left) + 1);
                    assert(spec_height(new_left) <= spec_height(n0.left) + 1);
                    assert(spec_height(new_left) + 3 < usize::MAX && spec_height(n0.right) + 3
                        < usize::MAX);
                }
                let r = rebuild(nb, nlen, nfree, new_left, nright, Ghost(lo), Ghost(hi));
                proof {
                    assert(spec_height(t0) <= spec_height(r) <= spec_height(t0) + 1) by {
                        assert(spec_height(t0) == 1 + if spec_height(n0.left) > spec_height(
                            n0.right,
                        ) {
                            spec_height(n0.left)
                        } else {
                            spec_height(n0.right)
                        });
                        assert(spec_height(nleft) <= spec_height(new_left));
                    }
                    if has_base(t0, base) {
                        assert(has_base(n0.left, base)) by {
                            if has_base(n0.right, base) {
                                lemma_has_base_in_bounds(n0.right, n0.base as int, hi, base);
                            }
                        }
                    }
                    assert(inorder(r) == inorder(new_left) + mid + r_in);
                    if has_base(n0.left, base) {
                        assert(inorder(r) == inorder(t0));
                    } else {
                        let j = choose|j: int|
                            0 <= j <= l_in.len() && inorder(new_left) == #[trigger] l_in.take(j)
                                + seq![item] + l_in.skip(j);
                        assert(inorder(t0).take(j) =~= l_in.take(j));
                        assert(inorder(t0).skip(j) =~= l_in.skip(j) + mid + r_in);
                        assert(inorder(r) =~= inorder(t0).take(j) + seq![item] + inorder(
                            t0,
                        ).skip(j));
                        assert(0 <= j <= inorder(t0).len() && inorder(r) == inorder(t0).take(j)
                            + seq![item] + inorder(t0).skip(j));
                    }
                    assert(!has_base(t0, base) ==> !has_base(n0.left, base));
                }
                r
            } else if base > nb {
                let new_right = insert_node(
                    nright,
                    base,
                    length,
                    is_free,
                    Ghost(nb as int),
                    Ghost(hi),
                );
                proof {
                    assert(spec_height(n0.left) <= spec_height(n0.right) + 1 && spec_height(
                        n0.right,
                    ) <= spec_height(n0.left) + 1);
                    assert(spec_height(new_right) <= spec_height(n0.right) + 1);
                    assert(spec_height(new_right) + 3 < usize::MAX && spec_height(n0.left) + 3
                        < usize::MAX);
                }
                let r = rebuild(nb, nlen, nfree, nleft, new_right, Ghost(lo), Ghost(hi));
                proof {
                    assert(spec_height(t0) <= spec_height(r) <= spec_height(t0) + 1) by {
                        assert(spec_height(t0) == 1 + if spec_height(n0.left) > spec_height(
                            n0.right,
                        ) {
                            spec_height(n0.left)
                        } else {
                            spec_height(n0.right)
                        });
                        assert(spec_height(nright) <= spec_height(new_right));
                    }
                    if has_base(t0, base) {
                        assert(has_base(n0.right, base)) by {
                            if has_base(n0.left, base) {
                                lemma_has_base_in_bounds(n0.left, lo, n0.base as int, base);
                            }
                        }
                    }
                    assert(inorder(r) == l_in + mid + inorder(new_right));
                    if has_base(n0.right, base) {
                        assert(inorder(r) == inorder(t0));
                    } else {
                        let j = choose|j: int|
                            0 <= j <= r_in.len() && inorder(new_right) == #[trigger] r_in.take(j)
                                + seq![item] + r_in.skip(j);
                        let j2 = l_in.len() + 1 + j;
                        assert(inorder(t0).take(j2) =~= l_in + mid + r_in.take(j));
                        assert(inorder(t0).skip(j2) =~= r_in.skip(j));
                        assert(inorder(r) =~= inorder(t0).take(j2) + seq![item] + inorder(
                            t0,
                        ).skip(j2));
                        assert(0 <= j2 <= inorder(t0).len() && inorder(r) == inorder(t0).take(j2)
                            + seq![item] + inorder(t0).skip(j2));
                    }
                    assert(!has_base(t0, base) ==> !has_base(n0.right, base));
                }
                r
            } else {
                let r = mk_node(nb, nlen, nfree, nleft, nright);
                proof {
                    assert(inorder(Some(r)) == inorder(t0));
                    assert(spec_height(Some(r)) == spec_height(t0));
                    assert(has_base(t0, base));
                }
                Some(r)
            }
        },
    }
}

/// Joins two subtrees under a key and restores the AVL shape with at most
/// two rotations.
#[verifier::rlimit(100)]
#[verifier::spinoff_prover]
fn rebuild(
    base: usize,
    length: usize,
    is_free: bool,
    left: Option<Box<IntrusiveIntervalNode>>,
    right: Option<Box<IntrusiveIntervalNode>>,
    Ghost(lo): Ghost<int>,
    Ghost(hi): Ghost<int>,
) -> (r: Option<Box<IntrusiveIntervalNode>>)
    requires
        heights_ok(left),
        heights_ok(right),
        balanced(left),
        balanced(right),
        bounded(left, lo, base as int),
        bounded(right, base as int, hi),
        lo < base < hi,
        spec_height(left) <= spec_height(right) + 2,
        spec_height(right) <= spec_height(left) + 2,
        spec_height(left) + 3 < usize::MAX,
        spec_height(right) + 3 < usize::MAX,
    ensures
        tree_wf(r, lo, hi),
        inorder(r) == inorder(left) + seq![Interval { base, length, is_free }] + inorder(right),
        r is Some,
        ({
            let hmax = if spec_height(left) > spec_height(right) {
                spec_height(left)
            } else {
                spec_height(right)
            };
            &&& hmax <= spec_height(r) <= hmax + 1
            &&& (spec_height(left) <= spec_height(right) + 1 && spec_height(right)
                <= spec_height(left) + 1 ==> spec_height(r) == hmax + 1)
        }),
{
    let hl = node_height(&left);
    let hr = node_height(&right);
    if hl > hr + 1 {
        // left heavy by two: rotate right, after straightening a zig-zag
        let x = match left {
            Some(x) => x,
            None => {
                proof {
                    assert(false);
                }
                unreached()
            },
        };
        let hxl = node_height(&x.left);
        let hxr = node_height(&x.right);
        proof {
            assert(hl == hr + 2);
            assert(hl == 1 + if spec_height(x.left) > spec_height(x.right) {
                spec_height(x.left)
            } else {
                spec_height(x.right)
            });
            assert(balanced(x.left) && balanced(x.right));
        }
        if hxl >= hxr {
            proof {
                assert(hxl == hr + 1);
                assert(hr <= hxr as int <= hr + 1);
            }
            let node = mk_node(base, length, is_free, Some(x), right);
            let r = right_rotate(node, Ghost(lo), Ghost(hi));
            proof {
                assert(spec_height(r.left) == hxl);
                assert(spec_height(r.right) == 1 + if hxr > hr {
                    hxr as nat
                } else {
                    hr as nat
                });
                assert(balanced(Some(r))) by {
                    assert(balanced(r.left));
                    assert(balanced(r.right)) by {
                        assert(balanced(r.right.unwrap().left) && balanced(
                            r.right.unwrap().right,
                        ));
                    }
                }
                assert(spec_height(Some(r)) == 1 + if spec_height(r.left) > spec_height(
                    r.right,
                ) {
                    spec_height(r.left)
                } else {
                    spec_height(r.right)
                });
            }
            Some(r)
        } else {
            proof {
                assert(hxr == hr + 1);
                assert(hxl == hr);
            }
            let ghost x0 = *x;
            let xv = *x;
            let IntrusiveIntervalNode {
                base: xb,
                length: xlen,
                is_free: xfree,
                height: _,
                left: xleft,
                right: xright,
            } = xv;
            let y = match xright {
                Some(y) => y,
                None => {
                    proof {
                        assert(false);
                    }
                    unreached()
                },
            };
            proof {
                assert(heights_ok(x0.left) && heights_ok(x0.right));
                assert(bounded(x0.left, lo, x0.base as int) && bounded(x0.right, x0.base as int,
                    base as int));
                assert(x0.right == Some(y));
                assert(heights_ok(Some(y)) && balanced(Some(y)));
                assert(spec_height(Some(y)) == hr + 1);
                assert(hr <= 1 + spec_height(y.left) && hr <= 1 + spec_height(y.right));
                assert(spec_height(y.left) <= hr && spec_height(y.right) <= hr);
                assert(balanced(y.left) && balanced(y.right));
            }
            let x2 = mk_node(xb, xlen, xfree, xleft, Some(y));
            let straight = left_rotate(x2, Ghost(lo), Ghost(base as int));
            let node = mk_node(base, length, is_free, Some(straight), right);
            let r = right_rotate(node, Ghost(lo), Ghost(hi));
            proof {
                assert(inorder(Some(x2)) == inorder(x0.left) + seq![
                    Interval { base: x0.base, length: x0.length, is_free: x0.is_free },
                ] + inorder(x0.right));
                assert(spec_height(straight.left) == 1 + if spec_height(x0.left) > spec_height(
                    y.left,
                ) {
                    spec_height(x0.left)
                } else {
                    spec_height(y.left)
                });
                assert(straight.right == y.right);
                assert(r.left == straight.left && r.right.unwrap().left == straight.right
                    && r.right.unwrap().right == right);
                assert(spec_height(r.right) == 1 + if spec_height(y.right) > spec_height(
                    right,
                ) {
                    spec_height(y.right)
                } else {
                    spec_height(right)
                });
                assert(balanced(Some(r))) by {
                    assert(balanced(r.left)) by {
                        assert(balanced(r.left.unwrap().left) && balanced(r.left.unwrap().right));
                    }
                    assert(balanced(r.right)) by {
                        assert(balanced(r.right.unwrap().left) && balanced(
                            r.right.unwrap().right,
                        ));
                    }
                }
                assert(spec_height(Some(r)) == 1 + if spec_height(r.left) > spec_height(
                    r.right,
                ) {
                    spec_height(r.left)
                } else {
                    spec_height(r.right)
                });
            }
            Some(r)
        }
    } else if hr > hl + 1 {
        // right heavy by two: the mirror image
        let y = match right {
            Some(y) => y,
            None => {
                proof {
                    assert(false);
                }
                unreached()
            },
        };
        let hyl = node_height(&y.left);
        let hyr = node_height(&y.right);
        proof {
            assert(hr == hl + 2);
            assert(hr == 1 + if spec_height(y.left) > spec_height(y.right) {
                spec_height(y.left)
            } else {
                spec_height(y.right)
            });
            assert(balanced(y.left) && balanced(y.right));
        }
        if hyr >= hyl {
            proof {
                assert(hyr == hl + 1);
                assert(hl <= hyl as int <= hl + 1);
            }
            let node = mk_node(base, length, is_free, left, Some(y));
            let r = left_rotate(node, Ghost(lo), Ghost(hi));
            proof {
                assert(spec_height(r.right) == hyr);
                assert(spec_height(r.left) == 1 + if hl > hyl {
                    hl as nat
                } else {
                    hyl as nat
                });
                assert(balanced(Some(r))) by {
                    assert(balanced(r.right));
                    assert(balanced(r.left)) by {
                        assert(balanced(r.left.unwrap().left) && balanced(
                            r.left.unwrap().right,
                        ));
                    }
                }
                assert(spec_height(Some(r)) == 1 + if spec_height(r.left) > spec_height(
                    r.right,
                ) {
                    spec_height(r.left)
                } else {
                    spec_height(r.right)
                });
            }
            Some(r)
        } else {
            proof {
                assert(hyl == hl + 1);
                assert(hyr == hl);
            }
            let ghost y0 = *y;
            let yv = *y;
            let IntrusiveIntervalNode {
                base: yb,
                length: ylen,
                is_free: yfree,
                height: _,
                left: yleft,
                right: yright,
            } = yv;
            let x = match yleft {
                Some(x) => x,
                None => {
                    proof {
                        assert(false);
                    }
                    unreached()
                },
            };
            proof {
                assert(heights_ok(y0.left) && heights_ok(y0.right));
                assert(bounded(y0.left, base as int, y0.base as int) && bounded(y0.right,
                    y0.base as int, hi));
                assert(y0.left == Some(x));
                assert(heights_ok(Some(x)) && balanced(Some(x)));
                assert(spec_height(Some(x)) == hl + 1);
                assert(spec_height(x.left) <= hl && spec_height(x.right) <= hl);
                assert(balanced(x.left) && balanced(x.right));
            }
            let y2 = mk_node(yb, ylen, yfree, Some(x), yright);
            let straight = right_rotate(y2, Ghost(base as int), Ghost(hi));
            let node = mk_node(base, length, is_free, left, Some(straight));
            let r = left_rotate(node, Ghost(lo), Ghost(hi));
            proof {
                assert(inorder(Some(y2)) == inorder(y0.left) + seq![
                    Interval { base: y0.base, length: y0.length, is_free: y0.is_free },
                ] + inorder(y0.right));
                assert(spec_height(straight.right) == 1 + if spec_height(x.right) > spec_height(
                    y0.right,
                ) {
                    spec_height(x.right)
                } else {
                    spec_height(y0.right)
                });
                assert(straight.left == x.left);
                assert(r.right == straight.right && r.left.unwrap().right == straight.left
                    && r.left.unwrap().left == left);
                assert(spec_height(r.left) == 1 + if spec_height(left) > spec_height(x.left) {
                    spec_height(left)
                } else {
                    spec_height(x.left)
                });
                assert(balanced(Some(r))) by {
                    assert(balanced(r.left)) by {
                        assert(balanced(r.left.unwrap().left) && balanced(r.left.unwrap().right));
                    }
                    assert(balanced(r.right)) by {
                        assert(balanced(r.right.unwrap().left) && balanced(
                            r.right.unwrap().right,
                        ));
                    }
                }
                assert(spec_height(Some(r)) == 1 + if spec_height(r.left) > spec_height(
                    r.right,
                ) {
                    spec_height(r.left)
                } else {
                    spec_height(r.right)
                });
            }
            Some(r)
        }
    } else {
        let r = mk_node(base, length, is_free, left, right);
        Some(r)
    }
}

/// Finds and rewrites the payload (length, free bit) of the node holding
/// `target`; the tree's shape, keys and heights are untouched.
fn update_node(
    t: Option<Box<IntrusiveIntervalNode>>,
    target: usize,
    new_length: usize,
    new_free: bool,
    Ghost(lo): Ghost<int>,
    Ghost(hi): Ghost<int>,
) -> (r: Option<Box<IntrusiveIntervalNode>>)
    requires
        tree_wf(t, lo, hi),
        has_base(t, target),
    ensures
        tree_wf(r, lo, hi),
        spec_height(r) == spec_height(t),
        exists|k: int|
            0 <= k < inorder(t).len() && (#[trigger] inorder(t)[k]).base == target && inorder(r)
                == inorder(t).update(k, Interval { base: target, length: new_length, is_free: new_free }),
    decreases t,
{
    let ghost t0 = t;
    match t {
        None => {
            proof {
                assert(false);
            }
            unreached()
        },
        Some(n) => {
            let ghost n0 = *n;
            let nv = *n;
            let IntrusiveIntervalNode {
                base: nb,
                length: nlen,
                is_free: nfree,
                height: nh,
                left: nleft,
                right: nright,
            } = nv;
            let ghost l_in = inorder(n0.left);
            let ghost r_in = inorder(n0.right);
            let ghost mid = seq![Interval { base: n0.base, length: n0.length, is_free: n0.is_free }];
            proof {
                assert(inorder(t0) == l_in + mid + r_in);
                assert(heights_ok(n0.left) && heights_ok(n0.right));
            }
            if target == nb {
                let r = Box::new(
                    IntrusiveIntervalNode {
                        base: nb,
                        length: new_length,
                        is_free: new_free,
                        height: nh,
                        left: nleft,
                        right: nright,
                    },
                );
                proof {
                    let k = l_in.len() as int;
                    assert(inorder(Some(r)) =~= inorder(t0).update(
                        k,
                        Interval { base: target, length: new_length, is_free: new_free },
                    ));
                    assert(0 <= k < inorder(t0).len() && inorder(t0)[k].base == target
                        && inorder(Some(r)) == inorder(t0).update(
                        k,
                        Interval { base: target, length: new_length, is_free: new_free },
                    ));
                    assert(spec_height(Some(r)) == spec_height(t0));
                    assert(heights_ok(Some(r)) && balanced(Some(r)) && bounded(Some(r), lo, hi));
                }
                Some(r)
            } else if target < nb {
                proof {
                    if !has_base(n0.left, target) {
                        if has_base(n0.right, target) {
                            lemma_has_base_in_bounds(n0.right, n0.base as int, hi, target);
                        }
                        assert(false);
                    }
                }
                let new_left = update_node(
                    nleft,
                    target,
                    new_length,
                    new_free,
                    Ghost(lo),
                    Ghost(nb as int),
                );
                let r = Box::new(
                    IntrusiveIntervalNode {
                        base: nb,
                        length: nlen,
                        is_free: nfree,
                        height: nh,
                        left: new_left,
                        right: nright,
                    },
                );
                proof {
                    let k = choose|k: int|
                        0 <= k < l_in.len() && (#[trigger] l_in[k]).base == target && inorder(
                            r.left,
                        ) == l_in.update(
                            k,
                            Interval { base: target, length: new_length, is_free: new_free },
                        );
                    assert(inorder(Some(r)) =~= inorder(t0).update(
                        k,
                        Interval { base: target, length: new_length, is_free: new_free },
                    ));
                    assert(inorder(t0)[k] == l_in[k]);
                    assert(0 <= k < inorder(t0).len() && inorder(t0)[k].base == target
                        && inorder(Some(r)) == inorder(t0).update(
                        k,
                        Interval { base: target, length: new_length, is_free: new_free },
                    ));
                    assert(spec_height(Some(r)) == spec_height(t0));
                    assert(heights_ok(Some(r)) && balanced(Some(r)) && bounded(Some(r), lo, hi));
                }
                Some(r)
            } else {
                proof {
                    if !has_base(n0.right, target) {
                        if has_base(n0.left, target) {
                            lemma_has_base_in_bounds(n0.left, lo, n0.base as int, target);
                        }
                        assert(false);
                    }
                }
                let new_right = update_node(
                    nright,
                    target,
                    new_length,
                    new_free,
                    Ghost(nb as int),
                    Ghost(hi),
                );
                let r = Box::new(
                    IntrusiveIntervalNode {
                        base: nb,
                        length: nlen,
                        is_free: nfree,
                        height: nh,
                        left: nleft,
                        right: new_right,
                    },
                );
                proof {
                    let k = choose|k: int|
                        0 <= k < r_in.len() && (#[trigger] r_in[k]).base == target && inorder(
                            r.right,
                        ) == r_in.update(
                            k,
                            Interval { base: target, length: new_length, is_free: new_free },
                        );
                    let k2 = l_in.len() + 1 + k;
                    assert(inorder(Some(r)) =~= inorder(t0).update(
                        k2,
                        Interval { base: target, length: new_length, is_free: new_free },
                    ));
                    assert(inorder(t0)[k2] == r_in[k]);
                    assert(0 <= k2 < inorder(t0).len() && inorder(t0)[k2].base == target
                        && inorder(Some(r)) == inorder(t0).update(
                        k2,
                        Interval { base: target, length: new_length, is_free: new_free },
                    ));
                    assert(spec_height(Some(r)) == spec_height(t0));
                    assert(heights_ok(Some(r)) && balanced(Some(r)) && bounded(Some(r), lo, hi));
                }
                Some(r)
            }
        },
    }
}

/// Pre-order search for any free interval of at least `length` bytes.
fn find_free_node(t: &Option<Box<IntrusiveIntervalNode>>, length: usize) -> (r: Option<
    (usize, usize),
>)
    ensures
        match r {
            Some(p) => inorder(*t).contains(
                Interval { base: p.0, length: p.1, is_free: true },
            ) && p.1 >= length,
            None => forall|k: int| 0 <= k < inorder(*t).len() ==> !((#[trigger] inorder(
                *t,
            )[k]).is_free && inorder(*t)[k].length >= length),
        },
    decreases *t,
{
    match t {
        None => None,
        Some(n) => {
            let ghost l_in = inorder(n.left);
            let ghost r_in = inorder(n.right);
            let ghost mid = seq![Interval { base: n.base, length: n.length, is_free: n.is_free }];
            proof {
                assert(inorder(Some(*n)) == l_in + mid + r_in);
            }
            if n.length >= length && n.is_free {
                proof {
                    assert(inorder(Some(*n))[l_in.len() as int] == Interval {
                        base: n.base,
                        length: n.length,
                        is_free: true,
                    });
                }
                return Some((n.base, n.length));
            }
            if let Some(found) = find_free_node(&n.left, length) {
                proof {
                    let k = choose|k: int|
                        0 <= k < l_in.len() && l_in[k] == Interval {
                            base: found.0,
                            length: found.1,
                            is_free: true,
                        };
                    assert(inorder(Some(*n))[k] == l_in[k]);
                }
                return Some(found);
            }
            if let Some(found) = find_free_node(&n.right, length) {
                proof {
                    let k = choose|k: int|
                        0 <= k < r_in.len() && r_in[k] == Interval {
                            base: found.0,
                            length: found.1,
                            is_free: true,
                        };
                    assert(inorder(Some(*n))[l_in.len() + 1 + k] == r_in[k]);
                }
                return Some(found);
            }
            proof {
                assert forall|k: int| 0 <= k < inorder(Some(*n)).len() implies !((
                #[trigger] inorder(Some(*n))[k]).is_free && inorder(Some(*n))[k].length
                    >= length) by {
                    if k < l_in.len() {
                        assert(inorder(Some(*n))[k] == l_in[k]);
                    } else if k == l_in.len() {
                        assert(inorder(Some(*n))[k] == mid[0]);
                    } else {
                        assert(inorder(Some(*n))[k] == r_in[k - l_in.len() - 1]);
                    }
                }
            }
            None
        },
    }
}

/// The intrusive AVL interval tree of one arena. Node 0 of the in-arena
/// encoding is the null sentinel; here absence is an absent child.
#[derive(Debug)]
pub struct IntrusiveIntervalTree {
    pub root: Option<Box<IntrusiveIntervalNode>>,
}

impl IntrusiveIntervalTree {
    /// Sound, balanced, and every base a nonzero address.
    pub open spec fn wf(&self) -> bool {
        tree_wf(self.root, 0, usize::MAX + 1)
    }

    pub open spec fn intervals(&self) -> Seq<Interval> {
        inorder(self.root)
    }

    pub fn new() -> (r: Self)
        ensures
            r.wf(),
            r.intervals() == Seq::<Interval>::empty(),
    {
        IntrusiveIntervalTree { root: None }
    }

    /// Resets the tree to one free interval covering the whole arena.
    pub fn init(&mut self, root_base: usize, root_length: usize)
        requires
            root_base > 0,
        ensures
            final(self).wf(),
            final(self).intervals() == seq![
                Interval { base: root_base, length: root_length, is_free: true },
            ],
    {
        let n = Box::new(
            IntrusiveIntervalNode {
                base: root_base,
                length: root_length,
                is_free: true,
                height: 1,
                left: None,
                right: None,
            },
        );
        proof {
            assert(inorder(n.left) == Seq::<Interval>::empty());
            assert(inorder(n.right) == Seq::<Interval>::empty());
            assert(spec_height(n.left) == 0 && spec_height(n.right) == 0);
            assert(spec_height(Some(n)) == 1);
            assert(heights_ok(n.left) && heights_ok(n.right) && balanced(n.left) && balanced(
                n.right,
            ) && bounded(n.left, 0, root_base as int) && bounded(
                n.right,
                root_base as int,
                usize::MAX + 1,
            ));
            assert(inorder(Some(n)) =~= seq![
                Interval { base: root_base, length: root_length, is_free: true },
            ]);
        }
        self.root = Some(n);
    }

    /// AVL insert on the `base` key; an existing base is left untouched.
    pub fn insert(&mut self, base: usize, length: usize, is_free: bool)
        requires
            old(self).wf(),
            base > 0,
            spec_height(old(self).root) + 4 < usize::MAX,
        ensures
            final(self).wf(),
            spec_height(old(self).root) <= spec_height(final(self).root) <= spec_height(
                old(self).root,
            ) + 1,
            has_base(old(self).root, base) ==> final(self).intervals() == old(self).intervals(),
            !has_base(old(self).root, base) ==> exists|j: int|
                0 <= j <= old(self).intervals().len() && final(self).intervals() == #[trigger] old(
                    self,
                ).intervals().take(j) + seq![Interval { base, length, is_free }] + old(
                    self,
                ).intervals().skip(j),
    {
        let mut root = None;
        core::mem::swap(&mut root, &mut self.root);
        let ghost r0 = root;
        let new_root = insert_node(
            root,
            base,
            length,
            is_free,
            Ghost(0),
            Ghost(usize::MAX + 1),
        );
        self.root = new_root;
        proof {
            if !has_base(r0, base) {
                let j = choose|j: int|
                    0 <= j <= inorder(r0).len() && inorder(new_root) == #[trigger] inorder(
                        r0,
                    ).take(j) + seq![Interval { base, length, is_free }] + inorder(r0).skip(j);
                assert(0 <= j <= old(self).intervals().len() && self.intervals() == old(
                    self,
                ).intervals().take(j) + seq![Interval { base, length, is_free }] + old(
                    self,
                ).intervals().skip(j));
            }
        }
    }

    /// Any free interval of at least `length` bytes, if one exists.
    pub fn find_free(&self, length: usize) -> (r: Option<(usize, usize)>)
        ensures
            match r {
                Some(p) => self.intervals().contains(
                    Interval { base: p.0, length: p.1, is_free: true },
                ) && p.1 >= length,
                None => forall|k: int| 0 <= k < self.intervals().len() ==> !((
                #[trigger] self.intervals()[k]).is_free && self.intervals()[k].length >= length),
            },
    {
        find_free_node(&self.root, length)
    }

    /// The intervals in base order.
    pub fn items(&self) -> (r: Vec<Interval>)
        ensures
            r@ == self.intervals(),
    {
        let mut out: Vec<Interval> = Vec::new();
        items_node(&self.root, &mut out);
        out
    }

    /// The length of the interval at `base`, if the tree holds one.
    pub fn length_of(&self, base: usize) -> (r: Option<usize>)
        ensures
            r is Some <==> has_base(self.root, base),
            r matches Some(l) ==> exists|k: int|
                0 <= k < self.intervals().len() && (#[trigger] self.intervals()[k]).base == base
                    && self.intervals()[k].length == l,
    {
        let r = length_of_node(&self.root, base);
        proof {
            match r {
                Some(l) => {
                    let k = choose|k: int|
                        0 <= k < inorder(self.root).len() && (#[trigger] inorder(
                            self.root,
                        )[k]).base == base && inorder(self.root)[k].length == l;
                    assert(0 <= k < self.intervals().len() && self.intervals()[k].base == base
                        && self.intervals()[k].length == l);
                },
                None => {},
            }
        }
        r
    }

    /// Rewrites the payload of the interval at `base`.
    pub fn update_interval(&mut self, base: usize, new_length: usize, new_free: bool)
        requires
            old(self).wf(),
            has_base(old(self).root, base),
        ensures
            final(self).wf(),
            spec_height(final(self).root) == spec_height(old(self).root),
            exists|k: int|
                0 <= k < old(self).intervals().len() && (#[trigger] old(self).intervals()[k]).base
                    == base && final(self).intervals() == old(self).intervals().update(
                    k,
                    Interval { base, length: new_length, is_free: new_free },
                ),
    {
        let mut root = None;
        core::mem::swap(&mut root, &mut self.root);
        let ghost r0 = root;
        let new_root = update_node(
            root,
            base,
            new_length,
            new_free,
            Ghost(0),
            Ghost(usize::MAX + 1),
        );
        self.root = new_root;
        proof {
            let k = choose|k: int|
                0 <= k < inorder(r0).len() && (#[trigger] inorder(r0)[k]).base == base && inorder(
                    new_root,
                ) == inorder(r0).update(
                    k,
                    Interval { base, length: new_length, is_free: new_free },
                );
            assert(0 <= k < old(self).intervals().len() && old(self).intervals()[k].base == base
                && self.intervals() == old(self).intervals().update(
                k,
                Interval { base, length: new_length, is_free: new_free },
            ));
        }
    }
}

/// One heap arena: a fixed virtual span whose intervals the tree tracks. In
/// the running kernel the tree nodes live at the arena's own base.
#[derive(Debug)]
pub struct Arena {
    pub base: usize,
    pub length: usize,
    pub tree: IntrusiveIntervalTree,
}

impl Arena {
    pub open spec fn spec_base(&self) -> usize {
        self.base
    }

    pub open spec fn spec_length(&self) -> usize {
        self.length
    }

    pub fn new(base: usize, length: usize) -> (r: Self)
        ensures
            r.spec_base() == base,
            r.spec_length() == length,
            r.tree.wf(),
            r.tree.intervals() == Seq::<Interval>::empty(),
    {
        Arena { base, length, tree: IntrusiveIntervalTree::new() }
    }

    pub fn get_base_ptr(&self) -> (r: usize)
        ensures
            r == self.spec_base(),
    {
        self.base
    }

    pub fn get_base_mut(&mut self) -> (r: usize)
        ensures
            r == old(self).spec_base(),
            *final(self) == *old(self),
    {
        self.base
    }

    pub fn is_present(&self) -> (r: bool)
        ensures
            r == (self.spec_base() != 0),
    {
        self.base != 0
    }
}

/// Every interval ends inside the address space.
pub open spec fn intervals_bounded(a: &TbsAllocator) -> bool {
    forall|i: int, k: int|
        0 <= i < a.arenas@.len() && 0 <= k < (#[trigger] a.arenas@[i]).tree.intervals().len()
            ==> (#[trigger] a.arenas@[i].tree.intervals()[k]).base
            + a.arenas@[i].tree.intervals()[k].length <= usize::MAX

}

/// Every interval starts and sizes on a cache line.
pub open spec fn intervals_aligned(a: &TbsAllocator) -> bool {
    forall|i: int, k: int|
        0 <= i < a.arenas@.len() && 0 <= k < (#[trigger] a.arenas@[i]).tree.intervals().len()
            ==> (#[trigger] a.arenas@[i].tree.intervals()[k]).base % 64 == 0
            && a.arenas@[i].tree.intervals()[k].length % 64 == 0
}

/// In base order the intervals never overlap: each ends at or before the
/// next one's base.
pub open spec fn intervals_disjoint(a: &TbsAllocator) -> bool {
    forall|i: int, k: int|
        0 <= i < a.arenas@.len() && 0 <= k && k + 1 < (
        #[trigger] a.arenas@[i]).tree.intervals().len() ==> (
        #[trigger] a.arenas@[i].tree.intervals()[k]).base
            + a.arenas@[i].tree.intervals()[k].length <= a.arenas@[i].tree.intervals()[k + 1].base
}

/// A held base appears in the in-order walk.
proof fn lemma_has_base_index(t: Option<Box<IntrusiveIntervalNode>>, b: usize)
    requires
        has_base(t, b),
    ensures
        exists|k: int| 0 <= k < inorder(t).len() && (#[trigger] inorder(t)[k]).base == b,
    decreases t,
{
    match t {
        None => {},
        Some(n) => {
            let l = inorder(n.left);
            let m = seq![Interval { base: n.base, length: n.length, is_free: n.is_free }];
            let r = inorder(n.right);
            assert(inorder(t) == l + m + r);
            if n.base == b {
                assert(inorder(t)[l.len() as int] == m[0]);
                assert((inorder(t)[l.len() as int]).base == b);
            } else if has_base(n.left, b) {
                lemma_has_base_index(n.left, b);
                let k = choose|k: int| 0 <= k < l.len() && (#[trigger] l[k]).base == b;
                assert(inorder(t)[k] == l[k]);
            } else {
                lemma_has_base_index(n.right, b);
                let k = choose|k: int| 0 <= k < r.len() && (#[trigger] r[k]).base == b;
                assert(inorder(t)[l.len() + 1 + k] == r[k]);
            }
        },
    }
}

/// Carving a block out of one free interval keeps every arena's intervals
/// bounded, cache-line aligned and pairwise disjoint, and yields an aligned
/// block.
proof fn lemma_alloc_predicates(
    s0: TbsAllocator,
    s1: TbsAllocator,
    i: int,
    k: int,
    fb: usize,
    fl: usize,
    a64: usize,
    new_ptr: usize,
)
    requires
        s0.arenas@.len() == MAX_ARENAS,
        s1.arenas@.len() == MAX_ARENAS,
        intervals_bounded(&s0),
        intervals_aligned(&s0),
        intervals_disjoint(&s0),
        0 <= i < MAX_ARENAS,
        0 <= k < s0.arenas@[i].tree.intervals().len(),
        s0.arenas@[i].tree.intervals()[k] == (Interval { base: fb, length: fl, is_free: true }),
        forall|jj: int| 0 <= jj < MAX_ARENAS && jj != i ==> s1.arenas@[jj] == s0.arenas@[jj],
        a64 % 64 == 0,
        64 <= a64 <= fl,
        fb + fl <= usize::MAX,
        new_ptr == fb + fl - a64,
        fl == a64 ==> s1.arenas@[i].tree.intervals() == s0.arenas@[i].tree.intervals().update(
            k,
            Interval { base: fb, length: fl, is_free: false },
        ),
        fl > a64 ==> s1.arenas@[i].tree.intervals() == s0.arenas@[i].tree.intervals().update(
            k,
            Interval { base: fb, length: (fl - a64) as usize, is_free: true },
        ).take(k + 1) + seq![Interval { base: new_ptr, length: a64, is_free: false }]
            + s0.arenas@[i].tree.intervals().update(
            k,
            Interval { base: fb, length: (fl - a64) as usize, is_free: true },
        ).skip(k + 1),
    ensures
        intervals_bounded(&s1),
        intervals_aligned(&s1),
        intervals_disjoint(&s1),
        new_ptr % 64 == 0,
{
    let iv0 = s0.arenas@[i].tree.intervals();
    let ivf = s1.arenas@[i].tree.intervals();
    let n0 = iv0.len() as int;
    let shrunk = Interval { base: fb, length: (fl - a64) as usize, is_free: true };
    let used = Interval { base: new_ptr, length: a64, is_free: false };
    let ivp = iv0.update(k, shrunk);
    assert(fb % 64 == 0 && fl % 64 == 0);
    lemma_aligned_carve(fb as int, fl as int, a64 as int);
    assert(new_ptr % 64 == 0);
    vstd::arithmetic::div_mod::lemma_sub_mod_noop(fl as int, a64 as int, 64);
    assert((fl - a64) % 64 == 0);
    if fl > a64 {
        assert(ivf == ivp.take(k + 1) + seq![used] + ivp.skip(k + 1));
        assert(ivp.take(k + 1).len() == k + 1);
        assert(ivp.skip(k + 1).len() == n0 - k - 1);
        assert(ivf.len() == n0 + 1);
        assert forall|t: int| 0 <= t <= k implies #[trigger] ivf[t] == ivp[t] by {
            assert(ivf[t] == ivp.take(k + 1)[t]);
        }
        assert(ivf[k + 1] == used);
        assert forall|t: int| k + 2 <= t <= n0 implies #[trigger] ivf[t] == ivp[t - 1] by {
            assert(ivf[t] == ivp.skip(k + 1)[t - k - 2]);
        }
    }
    assert forall|ii: int, kk: int|
        0 <= ii < s1.arenas@.len() && 0 <= kk < (
        #[trigger] s1.arenas@[ii]).tree.intervals().len() implies ((
    #[trigger] s1.arenas@[ii].tree.intervals()[kk]).base
        + s1.arenas@[ii].tree.intervals()[kk].length <= usize::MAX
        && s1.arenas@[ii].tree.intervals()[kk].base % 64 == 0
        && s1.arenas@[ii].tree.intervals()[kk].length % 64 == 0) by {
        if ii == i {
            if fl == a64 {
                if kk != k {
                    assert(s1.arenas@[ii].tree.intervals()[kk] == iv0[kk]);
                }
            } else {
                if kk <= k {
                    assert(ivf[kk] == ivp[kk]);
                    if kk != k {
                        assert(ivp[kk] == iv0[kk]);
                    }
                } else if kk == k + 1 {
                    assert(ivf[kk] == used);
                } else {
                    assert(ivf[kk] == ivp[kk - 1]);
                    assert(ivp[kk - 1] == iv0[kk - 1]);
                }
            }
        } else {
            assert(s1.arenas@[ii] == s0.arenas@[ii]);
        }
    }
    assert forall|ii: int, kk: int|
        0 <= ii < s1.arenas@.len() && 0 <= kk && kk + 1 < (
        #[trigger] s1.arenas@[ii]).tree.intervals().len() implies (
    #[trigger] s1.arenas@[ii].tree.intervals()[kk]).base
        + s1.arenas@[ii].tree.intervals()[kk].length <= s1.arenas@[ii].tree.intervals()[kk
        + 1].base by {
        if ii == i {
            if fl == a64 {
                assert(ivf[kk].base == iv0[kk].base && ivf[kk].length == iv0[kk].length);
                assert(ivf[kk + 1].base == iv0[kk + 1].base);
            } else {
                if kk + 1 <= k {
                    assert(ivf[kk] == ivp[kk] && ivf[kk + 1] == ivp[kk + 1]);
                    if kk + 1 != k {
                        assert(ivp[kk] == iv0[kk] && ivp[kk + 1] == iv0[kk + 1]);
                    } else {
                        assert(ivp[kk] == iv0[kk]);
                    }
                } else if kk == k {
                    assert(ivf[kk] == ivp[k] && ivf[kk + 1] == used);
                } else if kk == k + 1 {
                    assert(ivf[kk] == used);
                    assert(ivf[kk + 1] == ivp[kk] && ivp[kk] == iv0[kk]);
                    assert(iv0[k].base + iv0[k].length <= iv0[k + 1].base);
                } else {
                    assert(ivf[kk] == ivp[kk - 1] && ivp[kk - 1] == iv0[kk - 1]);
                    assert(ivf[kk + 1] == ivp[kk] && ivp[kk] == iv0[kk]);
                }
            }
        } else {
            assert(s1.arenas@[ii] == s0.arenas@[ii]);
        }
    }
}

/// A carve from the high end of an aligned interval stays aligned.
proof fn lemma_aligned_carve(base: int, len: int, a: int)
    requires
        base % 64 == 0,
        len % 64 == 0,
        a % 64 == 0,
        0 <= a <= len,
        0 <= base,
    ensures
        (base + len - a) % 64 == 0,
{
    vstd::arithmetic::div_mod::lemma_add_mod_noop(base, len, 64);
    vstd::arithmetic::div_mod::lemma_sub_mod_noop(base + len, a, 64);
}

/// The kernel's general-purpose allocator: up to eight arenas, used in order.
#[derive(Debug)]
pub struct TbsAllocator {
    pub arenas: Vec<Arena>,
}

impl TbsAllocator {
    pub open spec fn wf(&self) -> bool {
        &&& self.arenas@.len() == MAX_ARENAS
        &&& forall|i: int| 0 <= i < self.arenas@.len() ==> (#[trigger] self.arenas@[i]).tree.wf()
    }

    /// Eight absent arenas.
    pub fn new() -> (r: Self)
        ensures
            r.wf(),
            forall|i: int| 0 <= i < MAX_ARENAS ==> (#[trigger] r.arenas@[i]).spec_base() == 0,
            forall|i: int| 0 <= i < MAX_ARENAS ==> (#[trigger] r.arenas@[i]).tree.intervals()
                == Seq::<Interval>::empty(),
            intervals_bounded(&r),
            intervals_aligned(&r),
            intervals_disjoint(&r),
    {
        let mut arenas: Vec<Arena> = Vec::new();
        let mut i: usize = 0;
        while i < MAX_ARENAS
            invariant
                i <= MAX_ARENAS,
                arenas@.len() == i,
                forall|k: int| 0 <= k < i ==> (#[trigger] arenas@[k]).spec_base() == 0
                    && arenas@[k].tree.wf(),
                forall|k: int| 0 <= k < i ==> (#[trigger] arenas@[k]).tree.intervals()
                    == Seq::<Interval>::empty(),
            decreases MAX_ARENAS - i,
        {
            arenas.push(Arena::new(0, 0));
            i = i + 1;
        }
        TbsAllocator { arenas }
    }

    /// Brings up the first arena at the default base: maps one backing frame
    /// for the tree span and starts the tree as one free interval covering
    /// the arena.
    pub fn init(&mut self, db: &mut Database, aspace: vmm::AddressSpaceHandle)
        requires
            old(self).wf(),
            vmm::tables_wf(old(db)),
            vmm::aspace_ok(old(db), aspace),
            pmm::free_frames(old(db).phys.arenas()) >= 4,
            intervals_bounded(old(self)),
            intervals_aligned(old(self)),
            intervals_disjoint(old(self)),
        ensures
            final(self).wf(),
            intervals_bounded(final(self)),
            intervals_aligned(final(self)),
            intervals_disjoint(final(self)),
            vmm::tables_wf(final(db)),
            final(self).arenas@[0].spec_base() == ARENA_DEFAULT_BASE,
            final(self).arenas@[0].spec_length() == ARENA_DEFAULT_SIZE,
            final(self).arenas@[0].tree.intervals() == seq![
                Interval { base: ARENA_DEFAULT_BASE, length: ARENA_DEFAULT_SIZE, is_free: true },
            ],
            forall|i: int| 1 <= i < MAX_ARENAS ==> final(self).arenas@[i] == old(self).arenas@[i],
            vmm::mapping_present(
                final(db).page_tables@,
                vmm::spec_root_base(final(db), aspace),
                ARENA_DEFAULT_BASE as u64,
            ),
            final(db).workers@ == old(db).workers@,
            final(db).policy_rule@ == old(db).policy_rule@,
            final(db).vfs_nodes@ == old(db).vfs_nodes@,
            final(db).vfs_providers@ == old(db).vfs_providers@,
            final(db).users@ == old(db).users@,
            final(db).groups@ == old(db).groups@,
            final(db).aspaces@ == old(db).aspaces@,
    {
        let mut arena = Arena::new(ARENA_DEFAULT_BASE, ARENA_DEFAULT_SIZE);
        arena.tree.init(ARENA_DEFAULT_BASE, ARENA_DEFAULT_SIZE);
        let a = self.arenas.remove(0);
        let _ = a;
        self.arenas.insert(0, arena);
        let ghost ar0 = db.phys.arenas();
        let handle = pmm::Manager::alloc_page(&mut db.phys);
        proof {
            let ar1 = db.phys.arenas();
            let ts = db.page_tables@;
            assert forall|i: int| 0 <= i < ts.len() implies exists|h2: int|
                0 <= h2 < pmm::total_pages(ar1) && pmm::spec_allocated(ar1, h2)
                    && pmm::spec_handle_base(ar1, h2) == (#[trigger] ts[i]).base by {
                let h2 = choose|h2: int|
                    0 <= h2 < pmm::total_pages(ar0) && pmm::spec_allocated(ar0, h2)
                        && pmm::spec_handle_base(ar0, h2) == ts[i].base;
                assert(0 <= h2 < pmm::total_pages(ar1) && pmm::spec_allocated(ar1, h2)
                    && pmm::spec_handle_base(ar1, h2) == ts[i].base);
            }
            assert(vmm::tables_wf(db));
            vmm::lemma_handle_base_aligned(ar1, handle.0 as int);
            assert(vmm::Page::PRESENT | vmm::Page::READ_WRITE == 3u64 && 3u64 & !0xfffu64 == 0
                && 3u64 & 0x1u64 != 0) by (bit_vector);
        }
        vmm::Manager::map(
            db,
            aspace,
            handle.get(&db.phys) as u64,
            ARENA_DEFAULT_BASE as u64,
            1,
            vmm::Page::PRESENT | vmm::Page::READ_WRITE,
        );
        proof {
            assert(vmm::mapping_present(
                db.page_tables@,
                vmm::spec_root_base(db, aspace),
                (ARENA_DEFAULT_BASE as u64 + 0 * 4096) as u64,
            ));
            assert((ARENA_DEFAULT_BASE as u64 + 0 * 4096) as u64 == ARENA_DEFAULT_BASE as u64);
            let s1 = seq![
                Interval { base: ARENA_DEFAULT_BASE, length: ARENA_DEFAULT_SIZE, is_free: true },
            ];
            assert(self.arenas@[0].tree.intervals() == s1);
            assert(intervals_bounded(self)) by {
                assert forall|i: int, k: int|
                    0 <= i < self.arenas@.len() && 0 <= k < (
                    #[trigger] self.arenas@[i]).tree.intervals().len() implies (
                #[trigger] self.arenas@[i].tree.intervals()[k]).base
                    + self.arenas@[i].tree.intervals()[k].length <= usize::MAX by {
                    if i == 0 {
                        assert(self.arenas@[0].tree.intervals()[k] == s1[0]);
                    } else {
                        assert(self.arenas@[i] == old(self).arenas@[i]);
                    }
                }
            }
            assert(intervals_aligned(self)) by {
                assert forall|i: int, k: int|
                    0 <= i < self.arenas@.len() && 0 <= k < (
                    #[trigger] self.arenas@[i]).tree.intervals().len() implies (
                #[trigger] self.arenas@[i].tree.intervals()[k]).base % 64 == 0
                    && self.arenas@[i].tree.intervals()[k].length % 64 == 0 by {
                    if i == 0 {
                        assert(self.arenas@[0].tree.intervals()[k] == s1[0]);
                    } else {
                        assert(self.arenas@[i] == old(self).arenas@[i]);
                    }
                }
            }
            assert(intervals_disjoint(self)) by {
                assert forall|i: int, k: int|
                    0 <= i < self.arenas@.len() && 0 <= k && k + 1 < (
                    #[trigger] self.arenas@[i]).tree.intervals().len() implies (
                #[trigger] self.arenas@[i].tree.intervals()[k]).base
                    + self.arenas@[i].tree.intervals()[k].length
                    <= self.arenas@[i].tree.intervals()[k + 1].base by {
                    if i == 0 {
                        assert(false);
                    } else {
                        assert(self.arenas@[i] == old(self).arenas@[i]);
                    }
                }
            }
        }
    }

    /// Serves one allocation from the first live arena: rounds the size up
    /// to a cache line, carves the block out of a free interval (shrinking it
    /// from the high end unless it fits exactly), and demand-maps the page
    /// holding the block's start. `None` when no arena has a fitting free
    /// interval; alignments above a cache line are a kernel fault.
    #[verifier::rlimit(100)]
    #[verifier::spinoff_prover]
    pub fn alloc_in(&mut self, db: &mut Database, size: usize, align: usize) -> (r: Option<usize>)
        requires
            old(self).wf(),
            vmm::tables_wf(old(db)),
            vmm::aspace_ok(old(db), AddressSpaceHandle(1u16)),
            pmm::free_frames(old(db).phys.arenas()) >= 4,
            0 < size <= usize::MAX - 64,
            0 < align <= CACHE_LINE_SIZE,
            intervals_bounded(old(self)),
            intervals_aligned(old(self)),
            intervals_disjoint(old(self)),
            forall|i: int| 0 <= i < MAX_ARENAS ==> spec_height(
                (#[trigger] old(self).arenas@[i]).tree.root,
            ) + 4 < usize::MAX,
        ensures
            final(self).wf(),
            intervals_bounded(final(self)),
            intervals_aligned(final(self)),
            intervals_disjoint(final(self)),
            vmm::tables_wf(final(db)),
            vmm::aspace_ok(final(db), AddressSpaceHandle(1u16)),
            final(db).workers@ == old(db).workers@,
            final(db).policy_rule@ == old(db).policy_rule@,
            final(db).vfs_nodes@ == old(db).vfs_nodes@,
            final(db).vfs_providers@ == old(db).vfs_providers@,
            final(db).users@ == old(db).users@,
            final(db).groups@ == old(db).groups@,
            final(db).aspaces@ == old(db).aspaces@,
            match r {
                Some(p) => {
                    &&& p % 64 == 0
                    &&& exists|i: int, k: int|
                        #![trigger old(self).arenas@[i].tree.intervals()[k]]
                        {
                            let iv0 = old(self).arenas@[i].tree.intervals();
                            let iv1 = final(self).arenas@[i].tree.intervals();
                            let a64 = (size + 63) / 64 * 64;
                            &&& 0 <= i < MAX_ARENAS
                            &&& 0 <= k < iv0.len()
                            &&& iv0[k].is_free
                            &&& iv0[k].length >= a64
                            &&& (forall|j: int|
                                0 <= j < MAX_ARENAS && j != i ==> final(self).arenas@[j] == old(
                                    self,
                                ).arenas@[j])
                            &&& final(self).arenas@[i].spec_base() == old(
                                self,
                            ).arenas@[i].spec_base()
                            &&& final(self).arenas@[i].spec_length() == old(
                                self,
                            ).arenas@[i].spec_length()
                            &&& (iv0[k].length == a64 ==> p == iv0[k].base && iv1 == iv0.update(
                                k,
                                Interval { base: iv0[k].base, length: iv0[k].length, is_free: false },
                            ))
                            &&& (iv0[k].length > a64 ==> {
                                let shrunk = Interval {
                                    base: iv0[k].base,
                                    length: (iv0[k].length - a64) as usize,
                                    is_free: true,
                                };
                                let used = Interval { base: p, length: a64 as usize, is_free: false };
                                &&& p == iv0[k].base + iv0[k].length - a64
                                &&& iv1 == iv0.update(k, shrunk).take(k + 1) + seq![used]
                                    + iv0.update(k, shrunk).skip(k + 1)
                            })
                        }
                    &&& vmm::mapping_present(
                        final(db).page_tables@,
                        vmm::spec_root_base(final(db), AddressSpaceHandle(1u16)),
                        (p as u64) & !0xfffu64,
                    )
                    &&& (!vmm::mapping_present(
                        old(db).page_tables@,
                        vmm::spec_root_base(old(db), AddressSpaceHandle(1u16)),
                        (p as u64) & !0xfffu64,
                    ) ==> exists|f: u64|
                        f & !0xfffu64 == f && vmm::leaf_pte(
                            final(db).page_tables@,
                            vmm::spec_root_base(final(db), AddressSpaceHandle(1u16)),
                            (p as u64) & !0xfffu64,
                        ) == Some(f | (vmm::Page::PRESENT | vmm::Page::READ_WRITE)))
                },
                None => {
                    &&& *final(self) == *old(self)
                    &&& *final(db) == *old(db)
                    &&& forall|i: int| 0 <= i < MAX_ARENAS ==> ((#[trigger] old(
                        self,
                    ).arenas@[i]).spec_base() != 0 ==> forall|k: int|
                        0 <= k < old(self).arenas@[i].tree.intervals().len() ==> !((#[trigger] old(
                            self,
                        ).arenas@[i].tree.intervals()[k]).is_free && old(
                            self,
                        ).arenas@[i].tree.intervals()[k].length >= (size + 63) / 64 * 64))
                },
            },
    {
        let aligned_size = (size + 63) / 64 * 64;
        let _ = align;
        proof {
            let q = (size + 63) as int / 64;
            vstd::arithmetic::div_mod::lemma_div_is_ordered(64int, (size + 63) as int, 64);
            vstd::arithmetic::div_mod::lemma_mod_multiples_vanish(q, 0int, 64);
            assert(aligned_size == 64 * q);
            assert(aligned_size % 64 == 0 && aligned_size >= 64);
        }
        let mut i: usize = 0;
        while i < MAX_ARENAS
            invariant
                self.wf(),
                *self == *old(self),
                *db == *old(db),
                vmm::tables_wf(db),
                vmm::aspace_ok(db, AddressSpaceHandle(1u16)),
                pmm::free_frames(db.phys.arenas()) >= 4,
                i <= MAX_ARENAS,
                0 < size <= usize::MAX - 64,
                aligned_size == (size + 63) / 64 * 64,
                aligned_size % 64 == 0,
                aligned_size >= 64,
                self.arenas@ == old(self).arenas@,
                intervals_bounded(old(self)),
                intervals_aligned(old(self)),
                intervals_disjoint(old(self)),
                db.workers@ == old(db).workers@,
                db.policy_rule@ == old(db).policy_rule@,
                db.vfs_nodes@ == old(db).vfs_nodes@,
                db.vfs_providers@ == old(db).vfs_providers@,
                db.users@ == old(db).users@,
                db.groups@ == old(db).groups@,
                db.aspaces@ == old(db).aspaces@,
                forall|ii: int| 0 <= ii < MAX_ARENAS ==> spec_height(
                    (#[trigger] old(self).arenas@[ii]).tree.root,
                ) + 4 < usize::MAX,
                forall|ii: int| 0 <= ii < i ==> ((#[trigger] old(self).arenas@[ii]).spec_base()
                    != 0 ==> forall|k: int|
                    0 <= k < old(self).arenas@[ii].tree.intervals().len() ==> !((#[trigger] old(
                        self,
                    ).arenas@[ii].tree.intervals()[k]).is_free && old(
                        self,
                    ).arenas@[ii].tree.intervals()[k].length >= aligned_size)),
            decreases MAX_ARENAS - i,
        {
            let present = match self.arenas.get(i) {
                Some(a) => a.is_present(),
                None => {
                    proof {
                        assert(false);
                    }
                    false
                },
            };
            if present {
                let found = match self.arenas.get(i) {
                    Some(a) => a.tree.find_free(aligned_size),
                    None => {
                        proof {
                            assert(false);
                        }
                        None
                    },
                };
                match found {
                    Some((fb, fl)) => {
                        let ghost iv0 = old(self).arenas@[i as int].tree.intervals();
                        let ghost k = choose|k: int|
                            0 <= k < iv0.len() && #[trigger] iv0[k] == Interval {
                                base: fb,
                                length: fl,
                                is_free: true,
                            };
                        let ghost n0 = iv0.len() as int;
                        let new_ptr;
                        {
                            let a = vec_arena_at_mut(&mut self.arenas, i);
                            proof {
                                let item = Interval { base: fb, length: fl, is_free: true };
                                assert(iv0.contains(item));
                                assert(iv0[k] == item);
                                lemma_has_base_at(a.tree.root, 0, usize::MAX + 1, k);
                                lemma_inorder_sorted(a.tree.root, 0, usize::MAX + 1);
                                assert(fb > 0);
                                assert(old(self).arenas@[i as int].tree.intervals()[k] == item);
                                assert(0 <= (i as int) && (i as int) < old(self).arenas@.len());
                                assert(0 <= k < old(self).arenas@[i as int].tree.intervals().len());
                                assert((old(self).arenas@[i as int].tree.intervals()[k]).base
                                    + old(self).arenas@[i as int].tree.intervals()[k].length
                                    <= usize::MAX);
                                assert(fb + fl <= usize::MAX);
                                assert(forall|x: int, y: int|
                                    0 <= x < y < n0 ==> (#[trigger] iv0[x]).base < (
                                    #[trigger] iv0[y]).base);
                                assert(fb % 64 == 0 && fl % 64 == 0);
                            }
                            if fl == aligned_size {
                                new_ptr = fb;
                                a.tree.update_interval(fb, aligned_size, false);
                                proof {
                                    let k2 = choose|k2: int|
                                        0 <= k2 < iv0.len() && (#[trigger] iv0[k2]).base == fb
                                            && a.tree.intervals() == iv0.update(
                                            k2,
                                            Interval {
                                                base: fb,
                                                length: aligned_size,
                                                is_free: false,
                                            },
                                        );
                                    assert(k2 == k);
                                    assert(a.tree.intervals() == iv0.update(
                                        k,
                                        Interval { base: fb, length: fl, is_free: false },
                                    ));
                                }
                            } else {
                                new_ptr = fb + fl - aligned_size;
                                let ghost shrunk = Interval {
                                    base: fb,
                                    length: (fl - aligned_size) as usize,
                                    is_free: true,
                                };
                                a.tree.update_interval(fb, fl - aligned_size, true);
                                proof {
                                    assert(spec_height(a.tree.root) + 4 < usize::MAX);
                                    let k2 = choose|k2: int|
                                        0 <= k2 < iv0.len() && (#[trigger] iv0[k2]).base == fb
                                            && a.tree.intervals() == iv0.update(k2, shrunk);
                                    assert(k2 == k);
                                    assert(a.tree.intervals() == iv0.update(k, shrunk));
                                }
                                let ghost ivp = iv0.update(k, shrunk);
                                let ghost r1 = a.tree.root;
                                proof {
                                    assert(inorder(r1) == ivp);
                                    assert(k + 1 < n0 ==> iv0[k].base + iv0[k].length <= iv0[k
                                        + 1].base);
                                    assert(!has_base(r1, new_ptr)) by {
                                        if has_base(r1, new_ptr) {
                                            lemma_has_base_index(r1, new_ptr);
                                            let kb = choose|kb: int|
                                                0 <= kb < inorder(r1).len() && (
                                                #[trigger] inorder(r1)[kb]).base == new_ptr;
                                            assert(ivp[kb].base == new_ptr);
                                            if kb <= k {
                                                assert(kb < k ==> iv0[kb].base < fb);
                                                assert(ivp[kb].base <= fb);
                                                assert(false);
                                            } else {
                                                assert(ivp[kb] == iv0[kb]);
                                                assert(kb > k + 1 ==> iv0[k + 1].base
                                                    < iv0[kb].base);
                                                assert(iv0[kb].base >= fb + fl);
                                                assert(false);
                                            }
                                        }
                                    }
                                }
                                a.tree.insert(new_ptr, aligned_size, false);
                                proof {
                                    let used = Interval {
                                        base: new_ptr,
                                        length: aligned_size,
                                        is_free: false,
                                    };
                                    let j = choose|j: int|
                                        0 <= j <= ivp.len() && a.tree.intervals()
                                            == #[trigger] ivp.take(j) + seq![used] + ivp.skip(j);
                                    lemma_inorder_sorted(a.tree.root, 0, usize::MAX + 1);
                                    let iv1 = a.tree.intervals();
                                    assert(iv1 == ivp.take(j) + seq![used] + ivp.skip(j));
                                    assert(ivp.take(j).len() == j && ivp.skip(j).len() == n0 - j);
                                    assert(iv1.len() == n0 + 1);
                                    if j <= k {
                                        assert(iv1[j] == used);
                                        assert(iv1[k + 1] == ivp.skip(j)[k - j]);
                                        assert(ivp.skip(j)[k - j] == ivp[k]);
                                        assert(iv1[j].base < iv1[k + 1].base);
                                        assert(false);
                                    }
                                    if j > k + 1 {
                                        assert(iv1[k + 1] == ivp.take(j)[k + 1]);
                                        assert(ivp.take(j)[k + 1] == ivp[k + 1]);
                                        assert(ivp[k + 1] == iv0[k + 1]);
                                        assert(iv1[j] == used);
                                        assert(iv1[k + 1].base < iv1[j].base);
                                        assert(iv0[k + 1].base >= fb + fl);
                                        assert(false);
                                    }
                                    assert(j == k + 1);
                                    assert(iv1 == ivp.take(k + 1) + seq![used] + ivp.skip(k + 1));
                                }
                            }
                        }
                        // demand-map the page holding the block's start
                        let page = (new_ptr as u64) & !0xfffu64;
                        if !vmm::Manager::has_mapping_present(db, AddressSpaceHandle(1), page) {
                            let ghost ar0 = db.phys.arenas();
                            let handle = pmm::Manager::alloc_page(&mut db.phys);
                            proof {
                                let ar1 = db.phys.arenas();
                                let ts = db.page_tables@;
                                assert forall|ii: int| 0 <= ii < ts.len() implies exists|h2: int|
                                    0 <= h2 < pmm::total_pages(ar1) && pmm::spec_allocated(
                                        ar1,
                                        h2,
                                    ) && pmm::spec_handle_base(ar1, h2) == (
                                    #[trigger] ts[ii]).base by {
                                    let h2 = choose|h2: int|
                                        0 <= h2 < pmm::total_pages(ar0) && pmm::spec_allocated(
                                            ar0,
                                            h2,
                                        ) && pmm::spec_handle_base(ar0, h2) == ts[ii].base;
                                    assert(0 <= h2 < pmm::total_pages(ar1)
                                        && pmm::spec_allocated(ar1, h2) && pmm::spec_handle_base(
                                        ar1,
                                        h2,
                                    ) == ts[ii].base);
                                }
                                assert(vmm::tables_wf(db));
                                vmm::lemma_handle_base_aligned(ar1, handle.0 as int);
                                assert(vmm::Page::PRESENT | vmm::Page::READ_WRITE == 3u64
                                    && 3u64 & !0xfffu64 == 0 && 3u64 & 0x1u64 != 0) by (bit_vector);
                            }
                            let frame = handle.get(&db.phys) as u64;
                            vmm::Manager::map_single(
                                db,
                                AddressSpaceHandle(1),
                                frame,
                                page,
                                vmm::Page::PRESENT | vmm::Page::READ_WRITE,
                            );
                            proof {
                                assert(frame & !0xfffu64 == frame) by (bit_vector)
                                    requires
                                        frame % 4096 == 0,
                                ;
                                assert(vmm::leaf_pte(
                                    db.page_tables@,
                                    vmm::spec_root_base(db, AddressSpaceHandle(1u16)),
                                    page,
                                ) == Some(frame | (vmm::Page::PRESENT | vmm::Page::READ_WRITE)));
                                assert(vmm::mapping_present(
                                    db.page_tables@,
                                    vmm::spec_root_base(db, AddressSpaceHandle(1u16)),
                                    page,
                                ));
                            }
                        }
                        proof {
                            let a64 = aligned_size as int;
                            let ivf = self.arenas@[i as int].tree.intervals();
                            let shrunk = Interval {
                                base: fb,
                                length: (fl - aligned_size) as usize,
                                is_free: true,
                            };
                            let used = Interval {
                                base: new_ptr,
                                length: aligned_size,
                                is_free: false,
                            };
                            let ivp = iv0.update(k, shrunk);
                            assert(forall|jj: int|
                                0 <= jj < MAX_ARENAS && jj != i ==> self.arenas@[jj] == old(
                                    self,
                                ).arenas@[jj]);
                            assert(self.arenas@[i as int].spec_base() == old(
                                self,
                            ).arenas@[i as int].spec_base());
                            assert(self.arenas@[i as int].spec_length() == old(
                                self,
                            ).arenas@[i as int].spec_length());
                            lemma_alloc_predicates(
                                *old(self),
                                *self,
                                i as int,
                                k,
                                fb,
                                fl,
                                aligned_size,
                                new_ptr,
                            );
                            assert(intervals_bounded(self));
                            assert(intervals_aligned(self));
                            assert(intervals_disjoint(self));
                            assert(0 <= i < MAX_ARENAS && 0 <= k < iv0.len() && iv0[k].is_free
                                && iv0[k].length >= a64);
                            if fl == aligned_size {
                                assert(new_ptr == iv0[k].base && ivf == iv0.update(
                                    k,
                                    Interval {
                                        base: iv0[k].base,
                                        length: iv0[k].length,
                                        is_free: false,
                                    },
                                ));
                            } else {
                                assert(new_ptr == iv0[k].base + iv0[k].length - a64);
                                assert(ivf == iv0.update(k, shrunk).take(k + 1) + seq![used]
                                    + iv0.update(k, shrunk).skip(k + 1));
                            }
                        }
                        return Some(new_ptr);
                    },
                    None => {},
                }
            }
            i = i + 1;
        }
        None
    }

    /// Releases the block at `ptr`: marks its interval free again. The open
    /// question of merging adjacent free intervals is left as in the design.
    pub fn dealloc(&mut self, ptr: usize)
        requires
            old(self).wf(),
            intervals_bounded(old(self)),
            intervals_aligned(old(self)),
            intervals_disjoint(old(self)),
        ensures
            final(self).wf(),
            intervals_bounded(final(self)),
            intervals_aligned(final(self)),
            intervals_disjoint(final(self)),
    {
        let mut i: usize = 0;
        while i < MAX_ARENAS
            invariant
                self.wf(),
                *self == *old(self),
                intervals_bounded(old(self)),
                intervals_aligned(old(self)),
                intervals_disjoint(old(self)),
                i <= MAX_ARENAS,
            decreases MAX_ARENAS - i,
        {
            let hit = match self.arenas.get(i) {
                Some(a) => a.is_present() && a.tree.length_of(ptr).is_some(),
                None => {
                    proof {
                        assert(false);
                    }
                    false
                },
            };
            if hit {
                let ghost iv0 = old(self).arenas@[i as int].tree.intervals();
                let a = vec_arena_at_mut(&mut self.arenas, i);
                if let Some(l) = a.tree.length_of(ptr) {
                    proof {
                        assert(has_base(a.tree.root, ptr));
                        lemma_inorder_sorted(a.tree.root, 0, usize::MAX + 1);
                        assert(forall|x: int, y: int|
                            0 <= x < y < iv0.len() ==> (#[trigger] iv0[x]).base < (
                            #[trigger] iv0[y]).base);
                    }
                    let ghost k3 = choose|k3: int|
                        0 <= k3 < iv0.len() && (#[trigger] iv0[k3]).base == ptr && iv0[k3].length
                            == l;
                    a.tree.update_interval(ptr, l, true);
                    proof {
                        let k2 = choose|k2: int|
                            0 <= k2 < iv0.len() && (#[trigger] iv0[k2]).base == ptr
                                && a.tree.intervals() == iv0.update(
                                k2,
                                Interval { base: ptr, length: l, is_free: true },
                            );
                        assert(k2 == k3);
                        assert(a.tree.intervals().len() == iv0.len());
                        assert(forall|kk: int|
                            0 <= kk < iv0.len() ==> (#[trigger] a.tree.intervals()[kk]).base
                                == iv0[kk].base && a.tree.intervals()[kk].length
                                == iv0[kk].length);
                    }
                } else {
                    proof {
                        assert(false);
                    }
                }
                proof {
                    let ivf = self.arenas@[i as int].tree.intervals();
                    assert(ivf.len() == iv0.len());
                    assert(forall|kk: int| 0 <= kk < iv0.len() ==> (#[trigger] ivf[kk]).base
                        == iv0[kk].base && ivf[kk].length == iv0[kk].length);
                    assert forall|ii: int, kk: int|
                        0 <= ii < self.arenas@.len() && 0 <= kk < (
                        #[trigger] self.arenas@[ii]).tree.intervals().len() implies ((
                    #[trigger] self.arenas@[ii].tree.intervals()[kk]).base
                        + self.arenas@[ii].tree.intervals()[kk].length <= usize::MAX
                        && self.arenas@[ii].tree.intervals()[kk].base % 64 == 0
                        && self.arenas@[ii].tree.intervals()[kk].length % 64 == 0) by {
                        if ii != i as int {
                            assert(self.arenas@[ii] == old(self).arenas@[ii]);
                        }
                    }
                    assert forall|ii: int, kk: int|
                        0 <= ii < self.arenas@.len() && 0 <= kk && kk + 1 < (
                        #[trigger] self.arenas@[ii]).tree.intervals().len() implies (
                    #[trigger] self.arenas@[ii].tree.intervals()[kk]).base
                        + self.arenas@[ii].tree.intervals()[kk].length
                        <= self.arenas@[ii].tree.intervals()[kk + 1].base by {
                        if ii != i as int {
                            assert(self.arenas@[ii] == old(self).arenas@[ii]);
                        }
                    }
                    assert(intervals_bounded(self));
                    assert(intervals_aligned(self));
                    assert(intervals_disjoint(self));
                }
                return ;
            }
            i = i + 1;
        }
    }
}

fn items_node(t: &Option<Box<IntrusiveIntervalNode>>, out: &mut Vec<Interval>)
    ensures
        final(out)@ == old(out)@ + inorder(*t),
    decreases *t,
{
    match t {
        None => {
            proof {
                assert(old(out)@ + inorder(*t) =~= old(out)@);
            }
        },
        Some(n) => {
            items_node(&n.left, out);
            out.push(Interval { base: n.base, length: n.length, is_free: n.is_free });
            items_node(&n.right, out);
            proof {
                assert(final(out)@ =~= old(out)@ + inorder(*t));
            }
        },
    }
}

fn length_of_node(t: &Option<Box<IntrusiveIntervalNode>>, base: usize) -> (r: Option<usize>)
    ensures
        r is Some <==> has_base(*t, base),
        r matches Some(l) ==> exists|k: int|
            0 <= k < inorder(*t).len() && (#[trigger] inorder(*t)[k]).base == base && inorder(
                *t,
            )[k].length == l,
    decreases *t,
{
    match t {
        None => None,
        Some(n) => {
            let ghost lseq = inorder(n.left);
            let ghost m = seq![Interval { base: n.base, length: n.length, is_free: n.is_free }];
            let ghost rseq = inorder(n.right);
            proof {
                assert(inorder(*t) == lseq + m + rseq);
            }
            if n.base == base {
                proof {
                    assert(inorder(*t)[lseq.len() as int] == m[0]);
                }
                Some(n.length)
            } else if let Some(l) = length_of_node(&n.left, base) {
                proof {
                    let k = choose|k: int|
                        0 <= k < lseq.len() && (#[trigger] lseq[k]).base == base && lseq[k].length
                            == l;
                    assert(inorder(*t)[k] == lseq[k]);
                }
                Some(l)
            } else {
                let r2 = length_of_node(&n.right, base);
                proof {
                    match r2 {
                        Some(l) => {
                            let k = choose|k: int|
                                0 <= k < rseq.len() && (#[trigger] rseq[k]).base == base
                                    && rseq[k].length == l;
                            assert(inorder(*t)[lseq.len() + 1 + k] == rseq[k]);
                        },
                        None => {},
                    }
                }
                r2
            }
        },
    }
}

/// Mutable access to one arena.
fn vec_arena_at_mut(v: &mut Vec<Arena>, i: usize) -> (r: &mut Arena)
    requires
        i < old(v)@.len(),
    ensures
        *r == old(v)@[i as int],
        final(v)@ == old(v)@.update(i as int, *final(r)),
{
    &mut v[i]
}

/// An interval at position `k` of the walk gives the tree its base.
proof fn lemma_has_base_at(t: Option<Box<IntrusiveIntervalNode>>, lo: int, hi: int, k: int)
    requires
        0 <= k < inorder(t).len(),
    ensures
        has_base(t, inorder(t)[k].base),
    decreases t,
{
    match t {
        None => {},
        Some(n) => {
            let l = inorder(n.left);
            let m = seq![Interval { base: n.base, length: n.length, is_free: n.is_free }];
            let r = inorder(n.right);
            assert(inorder(t) == l + m + r);
            if k < l.len() {
                assert(inorder(t)[k] == l[k]);
                lemma_has_base_at(n.left, lo, n.base as int, k);
            } else if k == l.len() {
                assert(inorder(t)[k] == m[0]);
            } else {
                assert(inorder(t)[k] == r[k - l.len() - 1]);
                lemma_has_base_at(n.right, n.base as int, hi, k - l.len() - 1);
            }
        },
    }
}

} // verus!
