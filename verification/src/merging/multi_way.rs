//! Merging up to `K` adjacent sorted runs of a slice into one, by a
//! tournament among the heads of the runs.

use vstd::prelude::*;
use vstd::string::StringExecFns;
use crate::merging::two_way::{decimal, decimal_text};
use crate::order::{le, less, less_eq, lt, total_order};
use crate::pointer_range::{uninit_copy_prefix_and_advance, PointerRange};
use crate::sequences::{
    class_of,
    lemma_class_of_add,
    lemma_class_of_none,
    lemma_class_of_one,
    lemma_stable_is_permutation,
    permutation,
    sorted,
    stable_rearrangement,
};

verus! {

/// Each of the `k` runs has its head at or before its end, within the
/// buffer.
pub open spec fn cursors_valid(buffer_len: nat, heads: Seq<usize>, ends: Seq<usize>, k: nat) -> bool {
    &&& heads.len() == k
    &&& ends.len() == k
    &&& forall|r: int| 0 <= r < k ==> heads[r] <= #[trigger] ends[r] <= buffer_len
}

/// The run `a` comes before the run `b` in the tournament: `b` is used up,
/// or the head of `a` is strictly before the head of `b`, or the heads
/// compare equal and `a` is not the later run.
pub open spec fn before<T: Ord>(
    buffer: Seq<T>,
    heads: Seq<usize>,
    ends: Seq<usize>,
    a: int,
    b: int,
) -> bool {
    heads[b] >= ends[b] || (heads[a] < ends[a] && (lt(
        buffer[heads[a] as int],
        buffer[heads[b] as int],
    ) || (le(buffer[heads[a] as int], buffer[heads[b] as int]) && a <= b)))
}

/// Of two runs, one comes before the other.
proof fn lemma_before_total<T: Ord>(
    buffer: Seq<T>,
    heads: Seq<usize>,
    ends: Seq<usize>,
    a: int,
    b: int,
)
    requires
        total_order::<T>(),
    ensures
        before(buffer, heads, ends, a, b) || before(buffer, heads, ends, b, a),
        before(buffer, heads, ends, a, a),
{
    crate::order::lemma_le_total(buffer[heads[a] as int], buffer[heads[b] as int]);
    crate::order::lemma_le_refl(buffer[heads[a] as int]);
}

/// Coming before is transitive.
proof fn lemma_before_trans<T: Ord>(
    buffer: Seq<T>,
    heads: Seq<usize>,
    ends: Seq<usize>,
    a: int,
    b: int,
    c: int,
)
    requires
        total_order::<T>(),
        before(buffer, heads, ends, a, b),
        before(buffer, heads, ends, b, c),
    ensures
        before(buffer, heads, ends, a, c),
{
    if heads[c] < ends[c] {
        let x = buffer[heads[a] as int];
        let y = buffer[heads[b] as int];
        let z = buffer[heads[c] as int];
        crate::order::lemma_le_total(x, y);
        crate::order::lemma_le_total(y, z);
        if lt(x, y) {
            crate::order::lemma_lt_le_trans(x, y, z);
        } else if lt(y, z) {
            crate::order::lemma_le_lt_trans(x, y, z);
        } else {
            crate::order::lemma_le_trans(x, y, z);
        }
    }
}

/// Whether the run `a` comes before the run `b`.
fn run_before<T: Ord>(buffer: &[T], heads: &Vec<usize>, ends: &Vec<usize>, a: usize, b: usize) -> (r:
    bool)
    requires
        total_order::<T>(),
        cursors_valid(buffer@.len(), heads@, ends@, heads@.len()),
        a < heads@.len(),
        b < heads@.len(),
    ensures
        r == before(buffer@, heads@, ends@, a as int, b as int),
{
    if heads[b] >= ends[b] {
        true
    } else if heads[a] >= ends[a] {
        false
    } else {
        let x = &buffer[heads[a]];
        let y = &buffer[heads[b]];
        less(x, y) || (a <= b && less_eq(x, y))
    }
}

/// The run that wins at the node `c` of the tree over `k` runs: the run of a
/// leaf, or what the tree holds for an inner node.
pub open spec fn winner_of(tree: Seq<usize>, k: int, c: int) -> int {
    if c >= k {
        c - k
    } else {
        tree[c] as int
    }
}

/// The node `x` lies on the way from the node `c` up to the root.
pub open spec fn on_path(x: int, c: int) -> bool
    decreases c,
{
    c >= 1 && (x == c || (c > 1 && on_path(x, c / 2)))
}

/// The inner node `x` holds the run that comes first of the winners of its
/// two children, and stands above the leaf of that run.
pub open spec fn node_ok<T: Ord>(
    buffer: Seq<T>,
    heads: Seq<usize>,
    ends: Seq<usize>,
    tree: Seq<usize>,
    k: int,
    x: int,
) -> bool {
    let a = winner_of(tree, k, 2 * x);
    let b = winner_of(tree, k, 2 * x + 1);
    &&& 0 <= tree[x] < k
    &&& tree[x] == a || tree[x] == b
    &&& before(buffer, heads, ends, tree[x] as int, a)
    &&& before(buffer, heads, ends, tree[x] as int, b)
    &&& on_path(x, k + tree[x])
}

/// Every inner node is in order, but for those on the way up from `pending`.
pub open spec fn tree_ok<T: Ord>(
    buffer: Seq<T>,
    heads: Seq<usize>,
    ends: Seq<usize>,
    tree: Seq<usize>,
    k: int,
    pending: int,
) -> bool {
    &&& tree.len() == k
    &&& forall|x: int|
        1 <= x < k ==> #[trigger] node_ok(buffer, heads, ends, tree, k, x) || on_path(x, pending)
}

/// A node on the way up from `c` is not below `c`.
proof fn lemma_on_path_above(x: int, c: int)
    requires
        on_path(x, c),
    ensures
        1 <= x <= c,
    decreases c,
{
    if x != c {
        lemma_on_path_above(x, c / 2);
    }
}

/// The parent of a node on the way up from `c` is on that way too.
proof fn lemma_on_path_parent(x: int, c: int)
    requires
        on_path(x, c),
        x > 1,
    ensures
        on_path(x / 2, c),
    decreases c,
{
    if x == c {
        assert(on_path(c / 2, c / 2));
    } else {
        lemma_on_path_parent(x, c / 2);
    }
}

/// The winner at a node stands below it, or is its leaf.
proof fn lemma_winner_below<T: Ord>(
    buffer: Seq<T>,
    heads: Seq<usize>,
    ends: Seq<usize>,
    tree: Seq<usize>,
    k: int,
    c: int,
)
    requires
        k >= 1,
        1 <= c < 2 * k,
        c < k ==> node_ok(buffer, heads, ends, tree, k, c),
    ensures
        0 <= winner_of(tree, k, c) < k,
        on_path(c, k + winner_of(tree, k, c)),
{
}

/// The run at the root comes before the winner at every node.
proof fn lemma_root_wins<T: Ord>(
    buffer: Seq<T>,
    heads: Seq<usize>,
    ends: Seq<usize>,
    tree: Seq<usize>,
    k: int,
    c: int,
)
    requires
        total_order::<T>(),
        k >= 2,
        tree_ok(buffer, heads, ends, tree, k, 0),
        1 <= c < 2 * k,
    ensures
        before(buffer, heads, ends, tree[1] as int, winner_of(tree, k, c)),
    decreases c,
{
    if c == 1 {
        lemma_before_total(buffer, heads, ends, tree[1] as int, tree[1] as int);
    } else {
        let parent = c / 2;
        lemma_root_wins(buffer, heads, ends, tree, k, parent);
        assert(node_ok(buffer, heads, ends, tree, k, parent));
        lemma_before_trans(
            buffer,
            heads,
            ends,
            tree[1] as int,
            tree[parent] as int,
            winner_of(tree, k, c),
        );
    }
}

/// Set the node `node` to the run that comes first of the winners of its
/// children.
fn play<T: Ord>(
    buffer: &[T],
    heads: &Vec<usize>,
    ends: &Vec<usize>,
    tree: &mut Vec<usize>,
    node: usize,
)
    requires
        total_order::<T>(),
        cursors_valid(buffer@.len(), heads@, ends@, heads@.len()),
        1 <= node < heads@.len(),
        2 * heads@.len() <= usize::MAX,
        tree_ok(buffer@, heads@, ends@, old(tree)@, heads@.len() as int, node as int),
    ensures
        tree_ok(buffer@, heads@, ends@, final(tree)@, heads@.len() as int, node as int / 2),
{
    let k: usize = heads.len();
    let ghost before_tree = tree@;
    let left: usize = 2 * node;
    let right: usize = 2 * node + 1;
    let a: usize = if left >= k {
        left - k
    } else {
        tree[left]
    };
    let b: usize = if right >= k {
        right - k
    } else {
        tree[right]
    };
    proof {
        // the children are in order: they are not on the way up from `node`
        if left < k {
            if on_path(left as int, node as int) {
                lemma_on_path_above(left as int, node as int);
            }
            assert(node_ok(buffer@, heads@, ends@, before_tree, k as int, left as int));
        }
        if right < k {
            if on_path(right as int, node as int) {
                lemma_on_path_above(right as int, node as int);
            }
            assert(node_ok(buffer@, heads@, ends@, before_tree, k as int, right as int));
        }
        lemma_winner_below(buffer@, heads@, ends@, before_tree, k as int, left as int);
        lemma_winner_below(buffer@, heads@, ends@, before_tree, k as int, right as int);
        lemma_on_path_parent(left as int, k + a);
        lemma_on_path_parent(right as int, k + b);
        lemma_before_total(buffer@, heads@, ends@, a as int, b as int);
        lemma_before_total(buffer@, heads@, ends@, b as int, b as int);
    }
    let winner: usize = if run_before(buffer, heads, ends, a, b) {
        a
    } else {
        b
    };
    tree[node] = winner;
    proof {
        let after = tree@;
        assert(node_ok(buffer@, heads@, ends@, after, k as int, node as int));
        assert forall|x: int| 1 <= x < k implies #[trigger] node_ok(
            buffer@,
            heads@,
            ends@,
            after,
            k as int,
            x,
        ) || on_path(x, node as int / 2) by {
            if x == node {
            } else if x == node / 2 {
                assert(on_path(x, node as int / 2));
            } else {
                if node_ok(buffer@, heads@, ends@, before_tree, k as int, x) {
                    assert(winner_of(after, k as int, 2 * x) == winner_of(
                        before_tree,
                        k as int,
                        2 * x,
                    ));
                    assert(winner_of(after, k as int, 2 * x + 1) == winner_of(
                        before_tree,
                        k as int,
                        2 * x + 1,
                    ));
                } else {
                    assert(on_path(x, node as int));
                }
            }
        }
    }
}

/// Play the nodes from `node` up to the root.
fn replay<T: Ord>(
    buffer: &[T],
    heads: &Vec<usize>,
    ends: &Vec<usize>,
    tree: &mut Vec<usize>,
    node: usize,
)
    requires
        total_order::<T>(),
        cursors_valid(buffer@.len(), heads@, ends@, heads@.len()),
        node < heads@.len(),
        2 * heads@.len() <= usize::MAX,
        tree_ok(buffer@, heads@, ends@, old(tree)@, heads@.len() as int, node as int),
    ensures
        tree_ok(buffer@, heads@, ends@, final(tree)@, heads@.len() as int, 0),
{
    let mut node: usize = node;
    while node >= 1
        invariant
            total_order::<T>(),
            2 * heads@.len() <= usize::MAX,
            cursors_valid(buffer@.len(), heads@, ends@, heads@.len()),
            node < heads@.len(),
            tree_ok(buffer@, heads@, ends@, tree@, heads@.len() as int, node as int),
        decreases node,
    {
        play(buffer, heads, ends, tree, node);
        node = node / 2;
    }
}

/// The tree over the heads of the runs, played from the leaves up.
fn build_tree<T: Ord>(buffer: &[T], heads: &Vec<usize>, ends: &Vec<usize>) -> (tree: Vec<usize>)
    requires
        total_order::<T>(),
        cursors_valid(buffer@.len(), heads@, ends@, heads@.len()),
        2 * heads@.len() <= usize::MAX,
    ensures
        tree_ok(buffer@, heads@, ends@, tree@, heads@.len() as int, 0),
{
    let k: usize = heads.len();
    let mut tree: Vec<usize> = vec![0; k];
    let mut node: usize = k;
    while node > 1
        invariant
            total_order::<T>(),
            2 * k <= usize::MAX,
            cursors_valid(buffer@.len(), heads@, ends@, heads@.len()),
            k == heads@.len(),
            tree@.len() == k,
            node <= k,
            forall|x: int| node <= x < k ==> #[trigger] node_ok(buffer@, heads@, ends@, tree@, k as int, x),
        decreases node,
    {
        node -= 1;
        let ghost before_tree = tree@;
        let left: usize = 2 * node;
        let right: usize = 2 * node + 1;
        let a: usize = if left >= k {
            left - k
        } else {
            tree[left]
        };
        let b: usize = if right >= k {
            right - k
        } else {
            tree[right]
        };
        proof {
            lemma_winner_below(buffer@, heads@, ends@, before_tree, k as int, left as int);
            lemma_winner_below(buffer@, heads@, ends@, before_tree, k as int, right as int);
            lemma_on_path_parent(left as int, k + a);
            lemma_on_path_parent(right as int, k + b);
            lemma_before_total(buffer@, heads@, ends@, a as int, b as int);
            lemma_before_total(buffer@, heads@, ends@, b as int, b as int);
        }
        let winner: usize = if run_before(buffer, heads, ends, a, b) {
            a
        } else {
            b
        };
        tree[node] = winner;
        proof {
            let after = tree@;
            assert forall|x: int| node <= x < k implies #[trigger] node_ok(
                buffer@,
                heads@,
                ends@,
                after,
                k as int,
                x,
            ) by {
                if x > node {
                    assert(node_ok(buffer@, heads@, ends@, before_tree, k as int, x));
                    assert(winner_of(after, k as int, 2 * x) == winner_of(
                        before_tree,
                        k as int,
                        2 * x,
                    ));
                    assert(winner_of(after, k as int, 2 * x + 1) == winner_of(
                        before_tree,
                        k as int,
                        2 * x + 1,
                    ));
                }
            }
        }
    }
    tree
}

/// A head that moves leaves the nodes in order that are not on the way up
/// from the leaf of its run.
proof fn lemma_head_moved<T: Ord>(
    buffer: Seq<T>,
    heads: Seq<usize>,
    ends: Seq<usize>,
    tree: Seq<usize>,
    k: int,
    w: int,
)
    requires
        k >= 1,
        heads.len() == k,
        0 <= w < k,
        heads[w] < usize::MAX,
        tree_ok(buffer, heads, ends, tree, k, 0),
    ensures
        tree_ok(buffer, heads.update(w, (heads[w] + 1) as usize), ends, tree, k, (k + w) / 2),
{
    let moved = heads.update(w, (heads[w] + 1) as usize);
    assert forall|x: int| 1 <= x < k implies #[trigger] node_ok(buffer, moved, ends, tree, k, x)
        || on_path(x, (k + w) / 2) by {
        if !on_path(x, (k + w) / 2) {
            assert(node_ok(buffer, heads, ends, tree, k, x));
            assert(!on_path(x, k + w));
            let left = 2 * x;
            let right = 2 * x + 1;
            if left < k {
                assert(node_ok(buffer, heads, ends, tree, k, left) || on_path(left, 0));
            }
            if right < k {
                assert(node_ok(buffer, heads, ends, tree, k, right) || on_path(right, 0));
            }
            lemma_winner_below(buffer, heads, ends, tree, k, left);
            lemma_winner_below(buffer, heads, ends, tree, k, right);
            if winner_of(tree, k, left) == w {
                lemma_on_path_parent(left, k + w);
            }
            if winner_of(tree, k, right) == w {
                lemma_on_path_parent(right, k + w);
            }
        }
    }
}

/// The number of elements that the first `r` runs have given so far.
pub open spec fn consumed_total(starts: Seq<usize>, heads: Seq<usize>, r: nat) -> int
    decreases r,
{
    if r == 0 {
        0
    } else {
        consumed_total(starts, heads, (r - 1) as nat) + heads[r - 1] - starts[r - 1]
    }
}

/// One element more from the run `w`.
proof fn lemma_consumed_one_more(starts: Seq<usize>, heads: Seq<usize>, w: int, r: nat)
    requires
        0 <= w < heads.len(),
        r <= heads.len(),
        heads[w] < usize::MAX,
    ensures
        consumed_total(starts, heads.update(w, (heads[w] + 1) as usize), r) == consumed_total(
            starts,
            heads,
            r,
        ) + (if w < r {
            1int
        } else {
            0int
        }),
    decreases r,
{
    if r > 0 {
        lemma_consumed_one_more(starts, heads, w, (r - 1) as nat);
    }
}

/// Runs that have given as much as they hold are used up, each of them.
proof fn lemma_all_consumed(starts: Seq<usize>, heads: Seq<usize>, ends: Seq<usize>, r: nat)
    requires
        r <= heads.len(),
        heads.len() == ends.len(),
        forall|i: int| 0 <= i < r ==> #[trigger] heads[i] <= ends[i],
        consumed_total(starts, heads, r) == consumed_total(starts, ends, r),
    ensures
        forall|i: int| 0 <= i < r ==> #[trigger] heads[i] == ends[i],
    decreases r,
{
    if r > 0 {
        lemma_consumed_at_most(starts, heads, ends, (r - 1) as nat);
        lemma_all_consumed(starts, heads, ends, (r - 1) as nat);
    }
}

/// Runs have given no more than they hold.
proof fn lemma_consumed_at_most(starts: Seq<usize>, heads: Seq<usize>, ends: Seq<usize>, r: nat)
    requires
        r <= heads.len(),
        heads.len() == ends.len(),
        forall|i: int| 0 <= i < r ==> #[trigger] heads[i] <= ends[i],
    ensures
        consumed_total(starts, heads, r) <= consumed_total(starts, ends, r),
    decreases r,
{
    if r > 0 {
        lemma_consumed_at_most(starts, heads, ends, (r - 1) as nat);
    }
}

/// The classes of `x` in what the first `r` runs have given, one run behind
/// the other.
pub open spec fn classes_upto<T: Ord>(
    buffer: Seq<T>,
    starts: Seq<usize>,
    heads: Seq<usize>,
    x: T,
    r: nat,
) -> Seq<T>
    decreases r,
{
    if r == 0 {
        Seq::empty()
    } else {
        classes_upto(buffer, starts, heads, x, (r - 1) as nat) + class_of(
            buffer.subrange(starts[r - 1] as int, heads[r - 1] as int),
            x,
        )
    }
}

/// The `k` runs lie one behind the other in the first `n` elements of the
/// buffer, each is sorted, and its head is within it.
pub open spec fn runs_laid_out<T: Ord>(
    buffer: Seq<T>,
    starts: Seq<usize>,
    heads: Seq<usize>,
    ends: Seq<usize>,
    k: nat,
    n: nat,
) -> bool {
    &&& k >= 1
    &&& n <= buffer.len()
    &&& starts.len() == k
    &&& cursors_valid(buffer.len(), heads, ends, k)
    &&& starts[0] == 0
    &&& ends[k - 1] == n
    &&& forall|r: int|
        0 <= r < k ==> #[trigger] starts[r] <= heads[r] && ends[r] <= n && sorted(
            buffer.subrange(starts[r] as int, ends[r] as int),
        )
    &&& forall|r: int, q: int|
        0 <= r < k && q == r + 1 && q < k ==> #[trigger] ends[r] == #[trigger] starts[q]
}

/// What of a later run was given already is strictly before the head of
/// every earlier run.
pub open spec fn given_before_earlier_heads<T: Ord>(
    buffer: Seq<T>,
    starts: Seq<usize>,
    heads: Seq<usize>,
    ends: Seq<usize>,
    k: nat,
) -> bool {
    forall|j: int, r: int, t: int|
        #![trigger buffer[t], starts[j], ends[r]]
        0 <= r < j < k && starts[j] <= t < heads[j] && heads[r] < ends[r] ==> lt(
            buffer[t],
            buffer[heads[r] as int],
        )
}

/// No element of the output is behind the head of a run.
pub open spec fn output_below_heads<T: Ord>(
    buffer: Seq<T>,
    heads: Seq<usize>,
    ends: Seq<usize>,
    out: Seq<T>,
    k: nat,
) -> bool {
    forall|i: int, r: int|
        #![trigger out[i], ends[r]]
        0 <= i < out.len() && 0 <= r < k && heads[r] < ends[r] ==> le(
            out[i],
            buffer[heads[r] as int],
        )
}

/// The output holds, class by class, what the runs have given, the runs one
/// behind the other.
pub open spec fn output_classes<T: Ord>(
    buffer: Seq<T>,
    starts: Seq<usize>,
    heads: Seq<usize>,
    out: Seq<T>,
    k: nat,
) -> bool {
    forall|x: T| #[trigger] class_of(out, x) == classes_upto(buffer, starts, heads, x, k)
}

/// Where a merge by tournament stands.
pub open spec fn tournament_state<T: Ord>(
    buffer: Seq<T>,
    starts: Seq<usize>,
    heads: Seq<usize>,
    ends: Seq<usize>,
    out: Seq<T>,
    k: nat,
    n: nat,
) -> bool {
    &&& runs_laid_out(buffer, starts, heads, ends, k, n)
    &&& out.len() == consumed_total(starts, heads, k)
    &&& sorted(out)
    &&& given_before_earlier_heads(buffer, starts, heads, ends, k)
    &&& output_below_heads(buffer, heads, ends, out, k)
    &&& output_classes(buffer, starts, heads, out, k)
}

/// Runs that have given, class by class, the same have the same classes.
proof fn lemma_classes_pointwise<T: Ord>(
    buffer: Seq<T>,
    starts: Seq<usize>,
    one: Seq<usize>,
    other: Seq<usize>,
    x: T,
    r: nat,
)
    requires
        forall|j: int|
            0 <= j < r ==> class_of(buffer.subrange(starts[j] as int, #[trigger] one[j] as int), x)
                == class_of(buffer.subrange(starts[j] as int, other[j] as int), x),
    ensures
        classes_upto(buffer, starts, one, x, r) == classes_upto(buffer, starts, other, x, r),
    decreases r,
{
    if r > 0 {
        lemma_classes_pointwise(buffer, starts, one, other, x, (r - 1) as nat);
        assert(class_of(buffer.subrange(starts[r - 1] as int, one[r - 1] as int), x) == class_of(
            buffer.subrange(starts[r - 1] as int, other[r - 1] as int),
            x,
        ));
    }
}

/// Runs that have given nothing of a class add nothing to it.
proof fn lemma_classes_tail<T: Ord>(
    buffer: Seq<T>,
    starts: Seq<usize>,
    heads: Seq<usize>,
    x: T,
    from: nat,
    r: nat,
)
    requires
        from <= r,
        forall|j: int|
            from <= j < r ==> class_of(
                buffer.subrange(starts[j] as int, #[trigger] heads[j] as int),
                x,
            ) == Seq::<T>::empty(),
    ensures
        classes_upto(buffer, starts, heads, x, r) == classes_upto(buffer, starts, heads, x, from),
    decreases r,
{
    if r > from {
        lemma_classes_tail(buffer, starts, heads, x, from, (r - 1) as nat);
        assert(class_of(buffer.subrange(starts[r - 1] as int, heads[r - 1] as int), x)
            == Seq::<T>::empty());
        assert(classes_upto(buffer, starts, heads, x, (r - 1) as nat) + Seq::<T>::empty()
            =~= classes_upto(buffer, starts, heads, x, (r - 1) as nat));
    }
}

/// The order of the output and of the heads after the winner has given its
/// head.
proof fn lemma_emit_order<T: Ord>(
    buffer: Seq<T>,
    starts: Seq<usize>,
    heads: Seq<usize>,
    ends: Seq<usize>,
    out: Seq<T>,
    k: nat,
    n: nat,
    w: int,
)
    requires
        total_order::<T>(),
        tournament_state(buffer, starts, heads, ends, out, k, n),
        0 <= w < k,
        heads[w] < ends[w],
        forall|r: int| 0 <= r < k ==> before(buffer, heads, ends, w, r),
    ensures
        runs_laid_out(buffer, starts, heads.update(w, (heads[w] + 1) as usize), ends, k, n),
        sorted(out.push(buffer[heads[w] as int])),
        given_before_earlier_heads(
            buffer,
            starts,
            heads.update(w, (heads[w] + 1) as usize),
            ends,
            k,
        ),
        output_below_heads(
            buffer,
            heads.update(w, (heads[w] + 1) as usize),
            ends,
            out.push(buffer[heads[w] as int]),
            k,
        ),
        out.push(buffer[heads[w] as int]).len() == consumed_total(
            starts,
            heads.update(w, (heads[w] + 1) as usize),
            k,
        ),
{
    let moved = heads.update(w, (heads[w] + 1) as usize);
    let e = buffer[heads[w] as int];
    let grown = out.push(e);
    let run = buffer.subrange(starts[w] as int, ends[w] as int);
    assert(ends[w] <= buffer.len());
    lemma_consumed_one_more(starts, heads, w, k);
    assert forall|r: int| 0 <= r < k implies heads.update(w, (heads[w] + 1) as usize)[r]
        <= #[trigger] ends[r] <= buffer.len() by {}
    assert forall|r: int| 0 <= r < k implies #[trigger] starts[r] <= moved[r] && ends[r] <= n
        && sorted(buffer.subrange(starts[r] as int, ends[r] as int)) by {
        assert(starts[r] <= heads[r]);
    }
    // the head that was given is not behind the head that follows it
    if heads[w] + 1 < ends[w] {
        assert(run[heads[w] - starts[w]] == e);
        assert(run[heads[w] + 1 - starts[w]] == buffer[heads[w] + 1]);
        assert(starts[w] <= heads[w]);
        assert(le(e, buffer[heads[w] + 1]));
    }
    assert forall|i: int, j: int| 0 <= i < j < grown.len() implies le(
        #[trigger] grown[i],
        #[trigger] grown[j],
    ) by {
        if j < out.len() {
        } else {
            assert(le(out[i], buffer[heads[w] as int]));
        }
    }
    assert forall|i: int, r: int|
        #![trigger grown[i], ends[r]]
        0 <= i < grown.len() && 0 <= r < k && moved[r] < ends[r] implies le(
        grown[i],
        buffer[moved[r] as int],
    ) by {
        let head = buffer[moved[r] as int];
        if r == w {
            if i < out.len() {
                assert(le(out[i], buffer[heads[w] as int]));
                crate::order::lemma_le_trans(out[i], e, head);
            }
        } else {
            if i < out.len() {
                assert(le(out[i], buffer[heads[r] as int]));
            } else {
                assert(before(buffer, heads, ends, w, r));
                crate::order::lemma_le_total(e, head);
            }
        }
    }
    assert forall|j: int, r: int, t: int|
        #![trigger buffer[t], starts[j], ends[r]]
        0 <= r < j < k && starts[j] <= t < moved[j] && moved[r] < ends[r] implies lt(
        buffer[t],
        buffer[moved[r] as int],
    ) by {
        let head = buffer[moved[r] as int];
        if j == w && t == heads[w] {
            assert(before(buffer, heads, ends, w, r));
        } else if r == w {
            assert(lt(buffer[t], buffer[heads[w] as int]));
            crate::order::lemma_lt_le_trans(buffer[t], e, head);
        } else {
            assert(lt(buffer[t], buffer[heads[r] as int]));
        }
    }
}

/// The classes of the output after the winner has given its head.
proof fn lemma_emit_classes<T: Ord>(
    buffer: Seq<T>,
    starts: Seq<usize>,
    heads: Seq<usize>,
    ends: Seq<usize>,
    out: Seq<T>,
    k: nat,
    n: nat,
    w: int,
)
    requires
        total_order::<T>(),
        tournament_state(buffer, starts, heads, ends, out, k, n),
        0 <= w < k,
        heads[w] < ends[w],
    ensures
        output_classes(
            buffer,
            starts,
            heads.update(w, (heads[w] + 1) as usize),
            out.push(buffer[heads[w] as int]),
            k,
        ),
{
    let moved = heads.update(w, (heads[w] + 1) as usize);
    let e = buffer[heads[w] as int];
    let grown = out.push(e);
    let given = buffer.subrange(starts[w] as int, heads[w] as int);
    assert(ends[w] <= buffer.len());
    assert(starts[w] <= heads[w]);
    assert(buffer.subrange(starts[w] as int, heads[w] + 1) =~= given + seq![e]);
    assert(grown =~= out + seq![e]);
    assert forall|x: T| #[trigger] class_of(grown, x) == classes_upto(
        buffer,
        starts,
        moved,
        x,
        k,
    ) by {
        assert(class_of(out, x) == classes_upto(buffer, starts, heads, x, k));
        lemma_class_of_add(out, seq![e], x);
        lemma_class_of_add(given, seq![e], x);
        lemma_class_of_one(e, x);
        if crate::order::equiv(x, e) {
            assert forall|j: int| w + 1 <= j < k implies class_of(
                buffer.subrange(starts[j] as int, #[trigger] heads[j] as int),
                x,
            ) == Seq::<T>::empty() by {
                let part = buffer.subrange(starts[j] as int, heads[j] as int);
                assert(heads[j] <= ends[j]);
                assert forall|i: int| 0 <= i < part.len() implies !crate::order::equiv(
                    x,
                    #[trigger] part[i],
                ) by {
                    let t = starts[j] + i;
                    assert(part[i] == buffer[t]);
                    assert(lt(buffer[t], buffer[heads[w] as int]));
                    if crate::order::equiv(x, part[i]) {
                        crate::order::lemma_le_trans(e, x, part[i]);
                    }
                }
                lemma_class_of_none(part, x);
            }
            assert forall|j: int| w + 1 <= j < k implies class_of(
                buffer.subrange(starts[j] as int, #[trigger] moved[j] as int),
                x,
            ) == Seq::<T>::empty() by {
                assert(moved[j] == heads[j]);
            }
            lemma_classes_tail(buffer, starts, heads, x, (w + 1) as nat, k);
            lemma_classes_tail(buffer, starts, moved, x, (w + 1) as nat, k);
            lemma_classes_pointwise(buffer, starts, moved, heads, x, w as nat);
            assert((classes_upto(buffer, starts, heads, x, w as nat) + class_of(given, x))
                + seq![e] =~= classes_upto(buffer, starts, heads, x, w as nat) + (class_of(
                given,
                x,
            ) + seq![e]));
        } else {
            assert(class_of(given + seq![e], x) =~= class_of(given, x));
            assert(class_of(out + seq![e], x) =~= class_of(out, x));
            assert forall|j: int| 0 <= j < k implies class_of(
                buffer.subrange(starts[j] as int, #[trigger] moved[j] as int),
                x,
            ) == class_of(buffer.subrange(starts[j] as int, heads[j] as int), x) by {}
            lemma_classes_pointwise(buffer, starts, moved, heads, x, k);
        }
    }
}

/// What the first `r` runs hold, and the classes in it.
proof fn lemma_classes_whole<T: Ord>(
    buffer: Seq<T>,
    starts: Seq<usize>,
    ends: Seq<usize>,
    k: nat,
    n: nat,
    x: T,
    r: nat,
)
    requires
        runs_laid_out(buffer, starts, ends, ends, k, n),
        1 <= r <= k,
    ensures
        consumed_total(starts, ends, r) == ends[r - 1],
        classes_upto(buffer, starts, ends, x, r) == class_of(
            buffer.subrange(0, ends[r - 1] as int),
            x,
        ),
    decreases r,
{
    let last = buffer.subrange(starts[r - 1] as int, ends[r - 1] as int);
    assert(starts[r - 1] <= ends[r - 1] <= n);
    if r == 1 {
        assert(consumed_total(starts, ends, 0) == 0);
        assert(starts[0] == 0);
        assert(classes_upto(buffer, starts, ends, x, 0) + class_of(last, x) =~= class_of(last, x));
    } else {
        lemma_classes_whole(buffer, starts, ends, k, n, x, (r - 1) as nat);
        assert(ends[r - 2] == starts[r - 1]);
        lemma_class_of_add(buffer.subrange(0, ends[r - 2] as int), last, x);
        assert(buffer.subrange(0, ends[r - 2] as int) + last =~= buffer.subrange(
            0,
            ends[r - 1] as int,
        ));
    }
}

/// A tournament that has given as many elements as the runs hold has sorted
/// them stably.
proof fn lemma_tournament_done<T: Ord>(
    buffer: Seq<T>,
    starts: Seq<usize>,
    heads: Seq<usize>,
    ends: Seq<usize>,
    out: Seq<T>,
    k: nat,
    n: nat,
)
    requires
        total_order::<T>(),
        tournament_state(buffer, starts, heads, ends, out, k, n),
        out.len() == n,
    ensures
        sorted(out),
        stable_rearrangement(out, buffer.take(n as int)),
        permutation(out, buffer.take(n as int)),
{
    assert forall|r: int| 0 <= r < k implies #[trigger] starts[r] <= ends[r] && ends[r] <= n
        && sorted(buffer.subrange(starts[r] as int, ends[r] as int)) by {
        assert(starts[r] <= heads[r] <= ends[r]);
    }
    assert(runs_laid_out(buffer, starts, ends, ends, k, n));
    assert forall|x: T| #[trigger] class_of(out, x) == class_of(buffer.take(n as int), x) by {
        lemma_classes_whole(buffer, starts, ends, k, n, x, k);
        lemma_all_consumed(starts, heads, ends, k);
        assert(heads =~= ends);
        assert(class_of(out, x) == classes_upto(buffer, starts, heads, x, k));
        assert(buffer.subrange(0, n as int) =~= buffer.take(n as int));
    }
    lemma_stable_is_permutation(out, buffer.take(n as int));
}

/// While elements are left to give, the winner of the tournament has one.
proof fn lemma_winner_has_head<T: Ord>(
    buffer: Seq<T>,
    starts: Seq<usize>,
    heads: Seq<usize>,
    ends: Seq<usize>,
    out: Seq<T>,
    k: nat,
    n: nat,
    w: int,
)
    requires
        tournament_state(buffer, starts, heads, ends, out, k, n),
        out.len() < n,
        0 <= w < k,
        forall|r: int| 0 <= r < k ==> before(buffer, heads, ends, w, r),
    ensures
        heads[w] < ends[w],
{
    if heads[w] >= ends[w] {
        assert forall|r: int| 0 <= r < k implies #[trigger] heads[r] == ends[r] by {
            assert(before(buffer, heads, ends, w, r));
            assert(heads[r] <= ends[r]);
        }
        assert(heads =~= ends);
        assert forall|r: int| 0 <= r < k implies #[trigger] starts[r] <= ends[r] && ends[r] <= n
            && sorted(buffer.subrange(starts[r] as int, ends[r] as int)) by {
            assert(starts[r] <= heads[r]);
        }
        assert(buffer.len() > 0 || n == 0);
        if n > 0 {
            lemma_classes_whole(buffer, starts, ends, k, n, buffer[0], k);
        }
    }
}

/// Where the run `r` starts: the sum of the lengths of the runs before it.
pub open spec fn run_start(lengths: Seq<usize>, r: nat) -> nat
    decreases r,
{
    if r == 0 {
        0
    } else {
        (run_start(lengths, (r - 1) as nat) + lengths[r - 1]) as nat
    }
}

/// The run `r` of `s` is sorted.
pub open spec fn run_sorted<T: Ord>(s: Seq<T>, lengths: Seq<usize>, r: nat) -> bool {
    sorted(s.subrange(run_start(lengths, r) as int, run_start(lengths, r + 1) as int))
}

/// `s` is made of at most `k` sorted runs: one of each of the lengths given,
/// and one more of what is left behind them.
pub open spec fn runs_sorted<T: Ord>(s: Seq<T>, lengths: Seq<usize>, k: nat) -> bool {
    &&& lengths.len() <= k
    &&& run_start(lengths, lengths.len()) <= s.len()
    &&& lengths.len() == k ==> run_start(lengths, lengths.len()) == s.len()
    &&& forall|r: nat| r < lengths.len() ==> #[trigger] run_sorted(s, lengths, r)
    &&& sorted(s.skip(run_start(lengths, lengths.len()) as int))
}

/// Runs start in the order of their numbers.
pub proof fn lemma_run_start_monotone(lengths: Seq<usize>, r: nat, q: nat)
    requires
        r <= q,
    ensures
        run_start(lengths, r) <= run_start(lengths, q),
    decreases q,
{
    if r < q {
        lemma_run_start_monotone(lengths, r, (q - 1) as nat);
    }
}

/// Where the run `r` of `k` runs over `n` elements starts.
pub open spec fn cursor_start(lengths: Seq<usize>, n: nat, r: nat) -> nat {
    if r <= lengths.len() {
        run_start(lengths, r)
    } else {
        n
    }
}

/// Where the run `r` of `k` runs over `n` elements ends.
pub open spec fn cursor_end(lengths: Seq<usize>, n: nat, r: nat) -> nat {
    if r < lengths.len() {
        run_start(lengths, r + 1)
    } else {
        n
    }
}

/// The starts and the ends of `k` runs over `n` elements.
fn run_cursors(run_lengths: &[usize], k: usize, n: usize) -> (cursors: (Vec<usize>, Vec<usize>))
    requires
        run_lengths@.len() <= k,
        run_start(run_lengths@, run_lengths@.len()) <= n,
    ensures
        cursors.0@.len() == k,
        cursors.1@.len() == k,
        forall|r: int|
            0 <= r < k ==> #[trigger] cursors.0@[r] == cursor_start(run_lengths@, n as nat, r as nat),
        forall|r: int|
            0 <= r < k ==> #[trigger] cursors.1@[r] == cursor_end(run_lengths@, n as nat, r as nat),
{
    let mut starts: Vec<usize> = Vec::new();
    let mut ends: Vec<usize> = Vec::new();
    let count: usize = run_lengths.len();
    let mut run_end: usize = 0;
    let mut r: usize = 0;
    while r < k
        invariant
            r <= k,
            count == run_lengths@.len(),
            count <= k,
            run_start(run_lengths@, count as nat) <= n,
            run_end == cursor_start(run_lengths@, n as nat, r as nat),
            starts@.len() == r,
            ends@.len() == r,
            forall|q: int|
                0 <= q < r ==> #[trigger] starts@[q] == cursor_start(
                    run_lengths@,
                    n as nat,
                    q as nat,
                ),
            forall|q: int|
                0 <= q < r ==> #[trigger] ends@[q] == cursor_end(run_lengths@, n as nat, q as nat),
        decreases k - r,
    {
        let run_begin: usize = run_end;
        if r < count {
            proof {
                lemma_run_start_monotone(run_lengths@, (r + 1) as nat, count as nat);
            }
            run_end = run_begin + run_lengths[r];
        } else {
            run_end = n;
        }
        starts.push(run_begin);
        ends.push(run_end);
        r += 1;
    }
    (starts, ends)
}

/// A way to merge up to `K` adjacent sorted runs of a slice, given a buffer.
pub trait MultiMergingMethod<const K: usize> {
    /// Whether elements that compare equal keep their order.
    spec fn stable() -> bool;

    /// Whether the merging method is stable.
    fn is_stable() -> (r: bool)
        ensures
            r == Self::stable(),
    ;

    /// The name of this merging method, with its parameters.
    spec fn name() -> Seq<char>;

    /// A name for this merging method.
    fn display() -> (r: String)
        ensures
            r@ == Self::name(),
    ;

    /// The buffer length that this method asks for to merge slices of at most
    /// `size` elements.
    spec fn capacity_for(size: nat) -> nat;

    /// A buffer length that suffices to merge any slice of at most `size`
    /// elements.
    fn required_capacity(size: usize) -> (r: usize)
        ensures
            r == Self::capacity_for(size as nat),
            r >= size,
    ;

    /// Merge the sorted runs of `slice` into one sorted run: a run of each
    /// of the lengths in `run_lengths`, one behind the other, and one more
    /// of the elements behind them.
    fn merge<T: Ord + Copy>(slice: &mut [T], run_lengths: &[usize], buffer: &mut [T])
        requires
            total_order::<T>(),
            1 <= K <= usize::MAX / 2,
            old(slice)@.len() > 0 ==> runs_sorted(old(slice)@, run_lengths@, K as nat),
            old(slice)@.len() > 0 ==> old(buffer)@.len() >= old(slice)@.len(),
        ensures
            final(slice)@.len() == old(slice)@.len(),
            final(buffer)@.len() == old(buffer)@.len(),
            sorted(final(slice)@),
            permutation(final(slice)@, old(slice)@),
            Self::stable() ==> stable_rearrangement(final(slice)@, old(slice)@),
    ;
}

/// Merging by a tournament tree: the heads of the runs are the leaves, every
/// node above them holds the run that wins among the leaves below it, and
/// after the winner at the root has given its head only the nodes above its
/// leaf are played again.
#[derive(Debug, Clone, Copy)]
pub struct TournamentTree;

impl<const K: usize> MultiMergingMethod<K> for TournamentTree {
    open spec fn stable() -> bool {
        true
    }

    open spec fn capacity_for(size: nat) -> nat {
        size
    }

    open spec fn name() -> Seq<char> {
        "tournament-tree-"@ + decimal(K as nat)
    }

    fn is_stable() -> (r: bool) {
        true
    }

    fn display() -> (r: String) {
        let mut text: String = String::from_str("tournament-tree-");
        let digits: String = decimal_text(K);
        text.append(digits.as_str());
        text
    }

    fn required_capacity(size: usize) -> (r: usize) {
        size
    }

    fn merge<T: Ord + Copy>(slice: &mut [T], run_lengths: &[usize], buffer: &mut [T]) {
        if slice.is_empty() {
            proof {
                crate::sequences::lemma_stable_refl(slice@);
            }
            return ;
        }
        let n: usize = slice.len();

        // the buffer takes the runs, the slice becomes the output
        let mut whole = PointerRange::new(0, n);
        let mut target = PointerRange::new(0, n);
        uninit_copy_prefix_and_advance(slice, &mut whole, buffer, &mut target, n);
        assert(buffer@.take(n as int) =~= old(slice)@);

        let (starts, ends) = run_cursors(run_lengths, K, n);
        let mut heads: Vec<usize> = starts.clone();
        proof {
            assert(heads@ =~= starts@);
            lemma_tournament_start(
                old(slice)@,
                buffer@,
                run_lengths@,
                starts@,
                ends@,
                K as nat,
                n as nat,
            );
        }
        let mut tree: Vec<usize> = build_tree(buffer, &heads, &ends);
        let mut count: usize = 0;
        assert(slice@.take(0) =~= Seq::<T>::empty());

        while count < n
            invariant
                total_order::<T>(),
                1 <= K <= usize::MAX / 2,
                n == slice@.len() == old(slice)@.len(),
                count <= n,
                buffer@.len() == old(buffer)@.len(),
                buffer@.take(n as int) == old(slice)@,
                heads@.len() == K,
                tournament_state(
                    buffer@,
                    starts@,
                    heads@,
                    ends@,
                    slice@.take(count as int),
                    K as nat,
                    n as nat,
                ),
                tree_ok(buffer@, heads@, ends@, tree@, K as int, 0),
            decreases n - count,
        {
            let winner: usize = if K == 1 {
                0
            } else {
                tree[1]
            };
            let ghost out = slice@.take(count as int);
            let ghost heads_before = heads@;
            proof {
                assert forall|r: int| 0 <= r < K implies before(
                    buffer@,
                    heads@,
                    ends@,
                    winner as int,
                    r,
                ) by {
                    if K == 1 {
                        lemma_before_total(buffer@, heads@, ends@, 0, 0);
                    } else {
                        lemma_root_wins(buffer@, heads@, ends@, tree@, K as int, K + r);
                        assert(node_ok(buffer@, heads@, ends@, tree@, K as int, 1));
                    }
                }
                if K > 1 {
                    assert(node_ok(buffer@, heads@, ends@, tree@, K as int, 1));
                }
                lemma_winner_has_head(
                    buffer@,
                    starts@,
                    heads@,
                    ends@,
                    out,
                    K as nat,
                    n as nat,
                    winner as int,
                );
                assert(ends@[winner as int] <= buffer@.len());
                lemma_emit_order(
                    buffer@,
                    starts@,
                    heads@,
                    ends@,
                    out,
                    K as nat,
                    n as nat,
                    winner as int,
                );
                lemma_emit_classes(
                    buffer@,
                    starts@,
                    heads@,
                    ends@,
                    out,
                    K as nat,
                    n as nat,
                    winner as int,
                );
                lemma_head_moved(buffer@, heads@, ends@, tree@, K as int, winner as int);
            }
            let head: usize = heads[winner];
            slice[count] = buffer[head];
            heads[winner] = head + 1;
            proof {
                assert(heads@ =~= heads_before.update(winner as int, (head + 1) as usize));
                assert(slice@.take(count + 1) =~= out.push(buffer@[head as int]));
            }
            replay(buffer, &heads, &ends, &mut tree, (K + winner) / 2);
            count += 1;
        }
        proof {
            lemma_tournament_done(
                buffer@,
                starts@,
                heads@,
                ends@,
                slice@.take(count as int),
                K as nat,
                n as nat,
            );
            assert(slice@.take(n as int) =~= slice@);
        }
    }
}

/// Where a merge by tournament starts: the runs are laid out in the buffer,
/// and nothing is given yet.
proof fn lemma_tournament_start<T: Ord>(
    s: Seq<T>,
    buffer: Seq<T>,
    lengths: Seq<usize>,
    starts: Seq<usize>,
    ends: Seq<usize>,
    k: nat,
    n: nat,
)
    requires
        k >= 1,
        n == s.len(),
        n <= buffer.len(),
        buffer.take(n as int) == s,
        runs_sorted(s, lengths, k),
        starts.len() == k,
        ends.len() == k,
        forall|r: int| 0 <= r < k ==> #[trigger] starts[r] == cursor_start(lengths, n, r as nat),
        forall|r: int| 0 <= r < k ==> #[trigger] ends[r] == cursor_end(lengths, n, r as nat),
    ensures
        tournament_state(buffer, starts, starts, ends, Seq::<T>::empty(), k, n),
{
    let m = lengths.len();
    assert forall|r: int| 0 <= r < k implies starts[r] <= #[trigger] ends[r] <= n && sorted(
        buffer.subrange(starts[r] as int, ends[r] as int),
    ) by {
        assert(starts[r] == cursor_start(lengths, n, r as nat));
        if r < m {
            lemma_run_start_monotone(lengths, (r + 1) as nat, m);
            assert(run_sorted(s, lengths, r as nat));
            assert(buffer.subrange(starts[r] as int, ends[r] as int) =~= s.subrange(
                run_start(lengths, r as nat) as int,
                run_start(lengths, (r + 1) as nat) as int,
            ));
        } else if r == m {
            assert(buffer.subrange(starts[r] as int, ends[r] as int) =~= s.skip(
                run_start(lengths, m) as int,
            ));
        } else {
            assert(buffer.subrange(starts[r] as int, ends[r] as int) =~= Seq::<T>::empty());
        }
    }
    assert forall|r: int| 0 <= r < k implies #[trigger] starts[r] <= starts[r] && ends[r] <= n
        && sorted(buffer.subrange(starts[r] as int, ends[r] as int)) by {
        assert(starts[r] <= ends[r] <= n);
    }
    assert forall|r: int, q: int| 0 <= r < k && q == r + 1 && q < k implies #[trigger] ends[r]
        == #[trigger] starts[q] by {
        assert(ends[r] == cursor_end(lengths, n, r as nat));
        assert(starts[q] == cursor_start(lengths, n, q as nat));
    }
    assert(starts[0] == cursor_start(lengths, n, 0));
    assert(ends[k - 1] == cursor_end(lengths, n, (k - 1) as nat));
    assert forall|r: int| 0 <= r < k implies starts[r] <= #[trigger] ends[r] <= buffer.len() by {
        assert(starts[r] <= ends[r] <= n);
    }
    lemma_nothing_given(starts, k);
    assert forall|x: T| #[trigger] class_of(Seq::<T>::empty(), x) == classes_upto(
        buffer,
        starts,
        starts,
        x,
        k,
    ) by {
        assert forall|j: int| 0 <= j < k implies class_of(
            buffer.subrange(starts[j] as int, #[trigger] starts[j] as int),
            x,
        ) == Seq::<T>::empty() by {
            lemma_class_of_none(buffer.subrange(starts[j] as int, starts[j] as int), x);
        }
        lemma_classes_tail(buffer, starts, starts, x, 0, k);
        lemma_class_of_none(Seq::<T>::empty(), x);
    }
}

/// Runs whose heads are at their starts have given nothing.
proof fn lemma_nothing_given(starts: Seq<usize>, r: nat)
    requires
        r <= starts.len(),
    ensures
        consumed_total(starts, starts, r) == 0,
    decreases r,
{
    if r > 0 {
        lemma_nothing_given(starts, (r - 1) as nat);
    }
}

/// Merging by the stable sort of std, which finds the runs by itself.
#[derive(Debug, Clone, Copy)]
pub struct DynamicTournamentTree;

impl<const K: usize> MultiMergingMethod<K> for DynamicTournamentTree {
    open spec fn stable() -> bool {
        true
    }

    open spec fn capacity_for(size: nat) -> nat {
        size
    }

    open spec fn name() -> Seq<char> {
        "dynamic-tournament-tree"@
    }

    fn is_stable() -> (r: bool) {
        true
    }

    fn display() -> (r: String) {
        String::from_str("dynamic-tournament-tree")
    }

    fn required_capacity(size: usize) -> (r: usize) {
        size
    }

    fn merge<T: Ord + Copy>(slice: &mut [T], run_lengths: &[usize], buffer: &mut [T]) {
        crate::algorithms::std_sort(slice);
    }
}

} // verus!
