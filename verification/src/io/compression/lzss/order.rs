//! The order of the trees. The nodes of a tree are ordered by their keys,
//! the `LZSS_MATCH_MAX` bytes that start at each: whatever hangs on the left
//! of a node has a smaller key, whatever hangs on its right a larger one.
//! From this follows that a search meets a longest match of the whole tree.

use crate::io::compression::lzss::format::{LZSS_MATCH_MAX, LZSS_NODE_NULL, LZSS_WINDOW_SIZE};
use crate::io::compression::lzss::tree::{
    agree_len, is_root, lemma_agree_len, root_of, same_at, Dictionary,
};
use vstd::prelude::*;

verus! {

/// Whether the key at `a` comes before the key at `b`: at the first place
/// where they differ, the byte of `a` is the smaller.
pub open spec fn key_less(text: Seq<u8>, a: int, b: int) -> bool {
    let i = agree_len(text, a, b, 0);
    i < LZSS_MATCH_MAX && text[a + i] < text[b + i]
}

/// The agreed length of two keys is the one place up to which they agree
/// and at which, if it is short of the longest, they differ.
pub proof fn lemma_agree_unique(text: Seq<u8>, a: int, b: int, i: int)
    requires
        0 <= i <= LZSS_MATCH_MAX,
        forall|k: int| 0 <= k < i ==> #[trigger] same_at(text, a, b, k),
        i < LZSS_MATCH_MAX ==> !same_at(text, a, b, i),
    ensures
        agree_len(text, a, b, 0) == i,
{
    lemma_agree_len(text, a, b, 0);
    let r = agree_len(text, a, b, 0);
    if r < i {
        assert(same_at(text, a, b, r));
    } else if i < r {
        assert(same_at(text, a, b, i));
    }
}

/// Keys that begin with the same byte agree from the second place on as
/// far as they agree from the first.
pub proof fn lemma_agree_first(text: Seq<u8>, a: int, b: int)
    requires
        text[a] == text[b],
    ensures
        agree_len(text, a, b, 0) == agree_len(text, a, b, 1),
{
    lemma_agree_len(text, a, b, 1);
    let i = agree_len(text, a, b, 1);
    assert forall|k: int| 0 <= k < i implies #[trigger] same_at(text, a, b, k) by {
        if k == 0 {
            assert(same_at(text, a, b, 0));
        }
    }
    lemma_agree_unique(text, a, b, i);
}

/// The agreed length does not depend on which key comes first.
pub proof fn lemma_agree_swap(text: Seq<u8>, a: int, b: int)
    ensures
        agree_len(text, a, b, 0) == agree_len(text, b, a, 0),
{
    lemma_agree_len(text, a, b, 0);
    let i = agree_len(text, a, b, 0);
    assert forall|k: int| 0 <= k < i implies #[trigger] same_at(text, b, a, k) by {
        assert(same_at(text, a, b, k));
    }
    if i < LZSS_MATCH_MAX {
        assert(!same_at(text, a, b, i));
    }
    lemma_agree_unique(text, b, a, i);
}

/// The keys are in a strict order: of two keys one comes before the other,
/// unless they agree throughout, and never both.
pub proof fn lemma_key_order(text: Seq<u8>, a: int, b: int)
    ensures
        !key_less(text, a, a),
        !(key_less(text, a, b) && key_less(text, b, a)),
        key_less(text, a, b) || key_less(text, b, a) || agree_len(text, a, b, 0)
            == LZSS_MATCH_MAX,
        agree_len(text, a, b, 0) == LZSS_MATCH_MAX ==> !key_less(text, a, b) && !key_less(
            text,
            b,
            a,
        ),
{
    lemma_agree_swap(text, a, b);
    lemma_agree_len(text, a, b, 0);
    lemma_agree_len(text, a, a, 0);
    let i = agree_len(text, a, b, 0);
    if i < LZSS_MATCH_MAX {
        assert(!same_at(text, a, b, i));
    }
}

/// The order of the keys carries over: a key before a key that is before a
/// third is before the third.
pub proof fn lemma_key_chain(text: Seq<u8>, a: int, b: int, c: int)
    requires
        key_less(text, a, b),
        key_less(text, b, c),
    ensures
        key_less(text, a, c),
{
    lemma_agree_len(text, a, b, 0);
    lemma_agree_len(text, b, c, 0);
    let i = agree_len(text, a, b, 0);
    let j = agree_len(text, b, c, 0);
    let m = if i < j {
        i
    } else {
        j
    };
    assert forall|k: int| 0 <= k < m implies #[trigger] same_at(text, a, c, k) by {
        assert(same_at(text, a, b, k));
        assert(same_at(text, b, c, k));
    }
    if i < j {
        assert(same_at(text, b, c, i));
    } else if j < i {
        assert(same_at(text, a, b, j));
    }
    assert(!same_at(text, a, c, m));
    lemma_agree_unique(text, a, c, m);
}

/// A key agrees no further with a key beyond its neighbour than with the
/// neighbour: where `a` lies between `k` and `y`, the keys of `k` and `y`
/// agree at most as far as those of `k` and `a`.
pub proof fn lemma_key_between(text: Seq<u8>, k: int, a: int, y: int)
    requires
        (key_less(text, k, a) && key_less(text, a, y)) || (key_less(text, y, a) && key_less(
            text,
            a,
            k,
        )),
    ensures
        agree_len(text, k, y, 0) <= agree_len(text, k, a, 0),
{
    lemma_agree_swap(text, k, a);
    lemma_agree_swap(text, a, y);
    lemma_agree_len(text, k, a, 0);
    lemma_agree_len(text, a, y, 0);
    lemma_agree_len(text, k, y, 0);
    let i = agree_len(text, k, a, 0);
    let r = agree_len(text, k, y, 0);
    let j = agree_len(text, a, y, 0);
    if r > i {
        // `k` and `y` agree at place `i`, where `a` differs from `k`
        assert(same_at(text, k, y, i));
        assert(!same_at(text, k, a, i));
        if j < i {
            assert(same_at(text, k, a, j));
            assert(same_at(text, k, y, j));
            assert(!same_at(text, a, y, j));
        } else if j > i {
            assert(same_at(text, a, y, i));
        } else {
            assert(!same_at(text, a, y, i));
        }
    }
}

/// Keys that agree throughout stand alike to every other key.
pub proof fn lemma_key_same(text: Seq<u8>, a: int, b: int, c: int)
    requires
        agree_len(text, a, b, 0) == LZSS_MATCH_MAX,
    ensures
        agree_len(text, a, c, 0) == agree_len(text, b, c, 0),
        key_less(text, a, c) == key_less(text, b, c),
        key_less(text, c, a) == key_less(text, c, b),
{
    lemma_agree_len(text, a, b, 0);
    lemma_agree_len(text, a, c, 0);
    let i = agree_len(text, a, c, 0);
    assert forall|k: int| 0 <= k < i implies #[trigger] same_at(text, b, c, k) by {
        assert(same_at(text, a, b, k));
        assert(same_at(text, a, c, k));
    }
    if i < LZSS_MATCH_MAX {
        assert(same_at(text, a, b, i));
        assert(!same_at(text, a, c, i));
    }
    lemma_agree_unique(text, b, c, i);
    lemma_agree_swap(text, a, c);
    lemma_agree_swap(text, b, c);
}

/// Keys whose bytes are the same in two windows agree and compare alike in
/// both.
pub proof fn lemma_key_frame(text: Seq<u8>, other: Seq<u8>, a: int, b: int)
    requires
        forall|k: int| 0 <= k < LZSS_MATCH_MAX ==> #[trigger] other[a + k] == text[a + k],
        forall|k: int| 0 <= k < LZSS_MATCH_MAX ==> #[trigger] other[b + k] == text[b + k],
    ensures
        agree_len(other, a, b, 0) == agree_len(text, a, b, 0),
        key_less(other, a, b) == key_less(text, a, b),
{
    lemma_agree_len(text, a, b, 0);
    let i = agree_len(text, a, b, 0);
    assert forall|k: int| 0 <= k < i implies #[trigger] same_at(other, a, b, k) by {
        assert(same_at(text, a, b, k));
        assert(other[a + k] == text[a + k]);
        assert(other[b + k] == text[b + k]);
    }
    if i < LZSS_MATCH_MAX {
        assert(!same_at(text, a, b, i));
        assert(other[a + i] == text[a + i]);
        assert(other[b + i] == text[b + i]);
    }
    lemma_agree_unique(other, a, b, i);
}

impl Dictionary {
    /// What a pair of the relation "`y` is in the subtree of `a`" demands:
    /// `y` is a node; `a` is a node or a root slot; and a node has a larger
    /// rank than the other nodes of its subtree.
    pub open spec fn holds(self, u: Set<(int, int)>, a: int, y: int) -> bool {
        u.contains((a, y)) ==> {
            &&& self.contains(y)
            &&& is_root(a) || self.contains(a)
            &&& self.contains(a) && y != a ==> self.rank[y] < self.rank[a]
        }
    }

    /// The subtree of a node is the node, with the subtrees of its two
    /// children.
    pub open spec fn splits(self, u: Set<(int, int)>, x: int, y: int) -> bool {
        self.contains(x) ==> (u.contains((x, y)) <==> (y == x || u.contains(
            (self.left[x] as int, y),
        ) || u.contains((self.right[x] as int, y))))
    }

    /// What is in the left subtree of a node has a smaller key, what is in
    /// its right subtree a larger one.
    pub open spec fn sorts(self, u: Set<(int, int)>, x: int, y: int) -> bool {
        self.contains(x) ==> {
            &&& u.contains((self.left[x] as int, y)) ==> key_less(self.text, y, x)
            &&& u.contains((self.right[x] as int, y)) ==> key_less(self.text, x, y)
        }
    }

    /// The subtree of a root slot is the subtree of the node on its right.
    pub open spec fn hangs(self, u: Set<(int, int)>, t: int, y: int) -> bool {
        is_root(t) ==> (u.contains((t, y)) <==> u.contains((self.right[t] as int, y)))
    }

    /// Whether `u` is the relation "`y` is in the subtree of `a`" of these
    /// trees, and the trees are ordered by their keys: every node is in the
    /// tree of its first byte, and stands in it between the nodes of its
    /// left subtree and those of its right subtree.
    pub open spec fn ordered_by(self, u: Set<(int, int)>) -> bool {
        &&& forall|a: int, y: int| #[trigger] self.holds(u, a, y)
        &&& forall|x: int, y: int| #[trigger] self.splits(u, x, y)
        &&& forall|x: int, y: int| #[trigger] self.sorts(u, x, y)
        &&& forall|t: int, y: int| #[trigger] self.hangs(u, t, y)
        &&& forall|y: int| #[trigger] self.contains(y) ==> u.contains((root_of(self.text[y]), y))
    }

    /// Whether the trees are ordered by their keys.
    pub open spec fn is_ordered(self) -> bool {
        exists|u: Set<(int, int)>| self.ordered_by(u)
    }

    /// Nothing is in the subtree of the null index.
    pub proof fn lemma_under_null(self, u: Set<(int, int)>, y: int)
        requires
            self.ordered_by(u),
        ensures
            !u.contains((LZSS_NODE_NULL as int, y)),
    {
        assert(self.holds(u, LZSS_NODE_NULL as int, y));
    }

    /// A node is in its own subtree, and in no subtree of its children.
    pub proof fn lemma_under_self(self, u: Set<(int, int)>, x: int)
        requires
            self.ordered_by(u),
            self.contains(x),
        ensures
            u.contains((x, x)),
            !u.contains((self.left[x] as int, x)),
            !u.contains((self.right[x] as int, x)),
    {
        assert(self.splits(u, x, x));
        assert(self.sorts(u, x, x));
    }

    /// What is in a subtree, and is not its top, has its parent there too.
    pub proof fn lemma_under_up(self, u: Set<(int, int)>, z: int, c: int)
        requires
            self.wf(),
            self.ordered_by(u),
            u.contains((z, c)),
            z != c,
            z != self.parent[c],
        ensures
            u.contains((z, self.parent[c] as int)),
        decreases
                (if is_root(z) {
                    1int
                } else {
                    0int
                }),
                self.rank[z],
    {
        assert(self.holds(u, z, c));
        self.lemma_under_null(u, c);
        let above = self.parent[c] as int;
        let below = if is_root(z) || u.contains((self.right[z] as int, c)) {
            self.right[z] as int
        } else {
            self.left[z] as int
        };
        if is_root(z) {
            assert(self.hangs(u, z, c));
            assert(self.hangs(u, z, above));
            self.lemma_wf_root(z);
        } else {
            assert(self.splits(u, z, c));
            assert(self.splits(u, z, above));
            assert(self.splits(u, z, below));
            self.lemma_wf_node(z);
        }
        assert(u.contains((below, c)));
        self.lemma_under_self(u, below);
        assert(self.holds(u, z, below));
        if below != c {
            if below != above {
                self.lemma_under_up(u, below, c);
            }
        }
    }

    /// Clearing the links of a position outside the trees keeps the order.
    pub proof fn lemma_cleared_ordered(self, u: Set<(int, int)>, node: int)
        requires
            self.wf(),
            self.ordered_by(u),
            0 <= node < LZSS_WINDOW_SIZE,
            !self.contains(node),
        ensures
            self.cleared(node).ordered_by(u),
    {
        let after = self.cleared(node);
        self.lemma_wf_root(LZSS_WINDOW_SIZE + 1);
        assert forall|a: int, y: int| #[trigger] after.holds(u, a, y) by {
            assert(self.holds(u, a, y));
        }
        assert forall|x: int, y: int| #[trigger] after.splits(u, x, y) by {
            assert(self.splits(u, x, y));
        }
        assert forall|x: int, y: int| #[trigger] after.sorts(u, x, y) by {
            assert(self.sorts(u, x, y));
        }
        assert forall|t: int, y: int| #[trigger] after.hangs(u, t, y) by {
            assert(self.hangs(u, t, y));
        }
        assert forall|y: int| #[trigger] after.contains(y) implies u.contains(
            (root_of(after.text[y]), y),
        ) by {
            assert(self.contains(y));
        }
    }

    /// Whether no key of a node reaches the window position `at`, or its
    /// mirror behind the window.
    pub open spec fn keys_clear_of(self, at: int) -> bool {
        forall|x: int, k: int|
            self.contains(x) && 0 <= k < LZSS_MATCH_MAX ==> !#[trigger] reaches(x, k, at)
    }

    /// Writing a byte that no key reaches keeps the order.
    pub proof fn lemma_store_ordered(self, u: Set<(int, int)>, at: int, c: u8)
        requires
            self.wf(),
            self.ordered_by(u),
            0 <= at < LZSS_WINDOW_SIZE,
            self.keys_clear_of(at),
        ensures
            self.store(at, c).ordered_by(u),
    {
        let after = self.store(at, c);
        self.lemma_wf_root(LZSS_WINDOW_SIZE + 1);
        assert forall|x: int, k: int|
            self.contains(x) && 0 <= k < LZSS_MATCH_MAX implies #[trigger] after.text[x + k]
            == self.text[x + k] by {
            assert(!reaches(x, k, at));
        }
        assert forall|a: int, y: int| #[trigger] after.holds(u, a, y) by {
            assert(self.holds(u, a, y));
        }
        assert forall|x: int, y: int| #[trigger] after.splits(u, x, y) by {
            assert(self.splits(u, x, y));
        }
        assert forall|x: int, y: int| #[trigger] after.sorts(u, x, y) by {
            assert(self.sorts(u, x, y));
            if self.contains(x) {
                assert(self.holds(u, self.left[x] as int, y));
                assert(self.holds(u, self.right[x] as int, y));
                if self.contains(y) {
                    lemma_key_frame(self.text, after.text, x, y);
                    lemma_key_frame(self.text, after.text, y, x);
                }
            }
        }
        assert forall|t: int, y: int| #[trigger] after.hangs(u, t, y) by {
            assert(self.hangs(u, t, y));
        }
        assert forall|y: int| #[trigger] after.contains(y) implies u.contains(
            (root_of(after.text[y]), y),
        ) by {
            assert(after.text[y + 0] == self.text[y + 0]);
        }
    }

    /// What a search that stands at `p`, to go on to the given side, has
    /// found of node `a`: if `p` is on the left of `a`, or `a` is `p` and
    /// the search goes left, the key of `node` comes before that of `a`;
    /// and after it on the right.
    pub open spec fn passed(
        self,
        u: Set<(int, int)>,
        node: int,
        a: int,
        p: int,
        is_right: bool,
    ) -> bool {
        self.contains(a) ==> {
            &&& u.contains((self.left[a] as int, p)) || (a == p && !is_right) ==> key_less(
                self.text,
                node,
                a,
            )
            &&& u.contains((self.right[a] as int, p)) || (a == p && is_right) ==> key_less(
                self.text,
                a,
                node,
            )
        }
    }

    /// What a search that stands at `p`, to go on to the given side, has
    /// found of the nodes of the tree below `top` that it leaves aside:
    /// none agrees with `node` further than `length`.
    pub open spec fn aside(
        self,
        u: Set<(int, int)>,
        node: int,
        top: int,
        p: int,
        is_right: bool,
        length: int,
        y: int,
    ) -> bool {
        u.contains((top, y)) && !u.contains((self.child(p, is_right) as int, y)) ==> agree_len(
            self.text,
            node,
            y,
            0,
        ) <= length
    }

    /// A search through ordered trees ends with a match that is a longest
    /// one of the whole tree, and in a place where `node` stands in order.
    pub proof fn lemma_search_ordered(
        self,
        u: Set<(int, int)>,
        node: int,
        p: int,
        is_right: bool,
        length: int,
        position: int,
    )
        requires
            self.wf(),
            self.ordered_by(u),
            0 <= node < LZSS_WINDOW_SIZE,
            !self.contains(node),
            self.search_at(node, p, is_right),
            0 <= length < LZSS_MATCH_MAX,
            forall|a: int| #[trigger] self.passed(u, node, a, p, is_right),
            forall|y: int|
                #[trigger] self.aside(u, node, root_of(self.text[node]), p, is_right, length, y),
        ensures
            ({
                let found = self.search(node, p, is_right, length, position);
                &&& forall|y: int|
                    u.contains((root_of(self.text[node]), y)) ==> #[trigger] agree_len(
                        self.text,
                        node,
                        y,
                        0,
                    ) <= found.length
                &&& found.attached ==> forall|a: int| #[trigger]
                    self.passed(u, node, a, found.place, found.is_right)
                &&& !found.attached ==> agree_len(self.text, node, found.place, 0)
                    == LZSS_MATCH_MAX
            }),
        decreases
                (if is_root(p) {
                    1int
                } else {
                    0int
                }),
                self.rank[p],
    {
        let top = root_of(self.text[node]);
        let next = self.child(p, is_right) as int;
        let found = self.search(node, p, is_right, length, position);
        if next == LZSS_NODE_NULL {
            assert forall|y: int| u.contains((top, y)) implies #[trigger] agree_len(
                self.text,
                node,
                y,
                0,
            ) <= found.length by {
                assert(self.aside(u, node, top, p, is_right, length, y));
                self.lemma_under_null(u, y);
            }
        } else {
            if self.contains(p) {
                self.lemma_wf_node(p);
            } else {
                self.lemma_wf_root(p);
            }
            self.lemma_wf_node(next);
            lemma_agree_first(self.text, node, next);
            lemma_agree_len(self.text, node, next, 0);
            let agree = agree_len(self.text, node, next, 1);
            if agree >= LZSS_MATCH_MAX {
                assert forall|y: int| u.contains((top, y)) implies #[trigger] agree_len(
                    self.text,
                    node,
                    y,
                    0,
                ) <= found.length by {
                    lemma_agree_len(self.text, node, y, 0);
                }
            } else {
                let go = self.text[node + agree] > self.text[next + agree];
                let better = if agree > length {
                    agree
                } else {
                    length
                };
                let spot = if agree > length {
                    next
                } else {
                    position
                };
                assert(!same_at(self.text, node, next, agree));
                lemma_agree_swap(self.text, node, next);
                assert(go ==> key_less(self.text, next, node));
                assert(!go ==> key_less(self.text, node, next));
                assert forall|a: int| #[trigger] self.passed(u, node, a, next, go) by {
                    if self.contains(a) {
                        self.lemma_wf_node(a);
                        assert(self.passed(u, node, a, p, is_right));
                        let l = self.left[a] as int;
                        let r = self.right[a] as int;
                        if u.contains((l, next)) && l != next {
                            if l != p {
                                self.lemma_under_up(u, l, next);
                            } else {
                                self.lemma_under_self(u, p);
                            }
                        }
                        if u.contains((r, next)) && r != next {
                            if r != p {
                                self.lemma_under_up(u, r, next);
                            } else {
                                self.lemma_under_self(u, p);
                            }
                        }
                    }
                }
                assert forall|y: int| #[trigger] self.aside(u, node, top, next, go, better, y) by {
                    assert(self.aside(u, node, top, p, is_right, length, y));
                    assert(self.splits(u, next, y));
                    assert(self.sorts(u, next, y));
                    if u.contains((top, y)) && !u.contains((self.child(next, go) as int, y))
                        && u.contains((next, y)) && y != next {
                        if go {
                            lemma_key_between(self.text, node, next, y);
                        } else {
                            lemma_key_between(self.text, node, next, y);
                        }
                    }
                }
                self.lemma_search_ordered(u, node, next, go, better, spot);
            }
        }
    }

    /// The relation "`y` is in the subtree of `a`" after `node` has been
    /// hung on `p`: `node` is in its own subtree, and in every subtree that
    /// holds `p`.
    pub open spec fn attach_under(u: Set<(int, int)>, node: int, p: int) -> Set<(int, int)> {
        Set::new(
            |pair: (int, int)|
                u.contains(pair) || (pair.1 == node && (pair.0 == node || pair.0 == p
                    || u.contains((pair.0, p)))),
        )
    }

    /// Hanging a node where a search has ended keeps the order.
    pub proof fn lemma_attach_ordered(
        self,
        u: Set<(int, int)>,
        node: int,
        p: int,
        is_right: bool,
    )
        requires
            self.wf(),
            self.ordered_by(u),
            0 <= node < LZSS_WINDOW_SIZE,
            !self.contains(node),
            self.left[node] == LZSS_NODE_NULL,
            self.right[node] == LZSS_NODE_NULL,
            self.search_at(node, p, is_right),
            self.child(p, is_right) == LZSS_NODE_NULL,
            forall|a: int| #[trigger] self.passed(u, node, a, p, is_right),
        ensures
            self.attach(node, p, is_right).ordered_by(Self::attach_under(u, node, p)),
    {
        let after = self.attach(node, p, is_right);
        let v = Self::attach_under(u, node, p);
        self.lemma_wf_root(LZSS_WINDOW_SIZE + 1);
        if self.contains(p) {
            self.lemma_under_self(u, p);
        }
        assert forall|a: int, y: int| #[trigger] after.holds(v, a, y) by {
            assert(self.holds(u, a, y));
            assert(self.holds(u, a, p));
        }
        assert forall|x: int, y: int| #[trigger] after.splits(v, x, y) by {
            if after.contains(x) {
                assert(self.holds(u, node, y));
                self.lemma_under_null(u, y);
                if x != node {
                    self.lemma_wf_node(x);
                    assert(self.splits(u, x, y));
                    assert(self.splits(u, x, p));
                }
            }
        }
        assert forall|x: int, y: int| #[trigger] after.sorts(v, x, y) by {
            if after.contains(x) {
                assert(self.holds(u, node, y));
                self.lemma_under_null(u, y);
                self.lemma_under_null(u, p);
                if x != node {
                    self.lemma_wf_node(x);
                    assert(self.sorts(u, x, y));
                    assert(self.passed(u, node, x, p, is_right));
                }
            }
        }
        assert forall|t: int, y: int| #[trigger] after.hangs(v, t, y) by {
            if is_root(t) {
                self.lemma_wf_root(t);
                assert(self.hangs(u, t, y));
                assert(self.hangs(u, t, p));
                assert(self.holds(u, node, y));
                self.lemma_under_null(u, y);
            }
        }
        assert forall|y: int| #[trigger] after.contains(y) implies v.contains(
            (root_of(after.text[y]), y),
        ) by {
            if y != node {
                assert(self.contains(y));
            }
        }
    }

    /// The relation "`y` is in the subtree of `a`" after `node` has taken
    /// the place of `p`.
    pub open spec fn replace_under(u: Set<(int, int)>, node: int, p: int) -> Set<(int, int)> {
        Set::new(
            |pair: (int, int)|
                pair.0 != p && pair.1 != p && u.contains(
                    (
                        if pair.0 == node {
                            p
                        } else {
                            pair.0
                        },
                        if pair.1 == node {
                            p
                        } else {
                            pair.1
                        },
                    ),
                ),
        )
    }

    /// Putting a node in the place of a node with the same key keeps the
    /// order.
    pub proof fn lemma_replace_ordered(self, u: Set<(int, int)>, node: int, p: int)
        requires
            self.wf(),
            self.ordered_by(u),
            0 <= node < LZSS_WINDOW_SIZE,
            !self.contains(node),
            self.contains(p),
            agree_len(self.text, node, p, 0) == LZSS_MATCH_MAX,
        ensures
            self.replace(node, p).ordered_by(Self::replace_under(u, node, p)),
    {
        let after = self.replace(node, p);
        let v = Self::replace_under(u, node, p);
        self.lemma_wf_root(LZSS_WINDOW_SIZE + 1);
        self.lemma_wf_node(p);
        lemma_agree_len(self.text, node, p, 0);
        assert(same_at(self.text, node, p, 0));
        assert forall|a: int, y: int| #[trigger] after.holds(v, a, y) by {
            let a0 = if a == node {
                p
            } else {
                a
            };
            let y0 = if y == node {
                p
            } else {
                y
            };
            assert(self.holds(u, a0, y0));
        }
        assert forall|x: int, y: int| #[trigger] after.splits(v, x, y) by {
            if after.contains(x) {
                let x0 = if x == node {
                    p
                } else {
                    x
                };
                let y0 = if y == node {
                    p
                } else {
                    y
                };
                self.lemma_wf_node(x0);
                assert(self.splits(u, x0, y0));
            }
        }
        assert forall|x: int, y: int| #[trigger] after.sorts(v, x, y) by {
            if after.contains(x) {
                let x0 = if x == node {
                    p
                } else {
                    x
                };
                let y0 = if y == node {
                    p
                } else {
                    y
                };
                self.lemma_wf_node(x0);
                assert(self.sorts(u, x0, y0));
                lemma_key_same(self.text, node, p, x0);
                lemma_key_same(self.text, node, p, y0);
            }
        }
        assert forall|t: int, y: int| #[trigger] after.hangs(v, t, y) by {
            if is_root(t) {
                let y0 = if y == node {
                    p
                } else {
                    y
                };
                self.lemma_wf_root(t);
                assert(self.hangs(u, t, y0));
            }
        }
        assert forall|y: int| #[trigger] after.contains(y) implies v.contains(
            (root_of(after.text[y]), y),
        ) by {
            if y != node {
                assert(self.contains(y));
            }
        }
    }

    /// Nothing is in both subtrees of a node.
    pub proof fn lemma_sides_apart(self, u: Set<(int, int)>, x: int, y: int)
        requires
            self.ordered_by(u),
            self.contains(x),
        ensures
            !(u.contains((self.left[x] as int, y)) && u.contains((self.right[x] as int, y))),
    {
        assert(self.sorts(u, x, y));
        lemma_key_order(self.text, x, y);
    }

    /// The rightmost node below `x` is in the subtree of `x`, and has the
    /// largest key of that subtree.
    pub proof fn lemma_rightmost_max(self, u: Set<(int, int)>, x: int, y: int)
        requires
            self.wf(),
            self.ordered_by(u),
            self.contains(x),
        ensures
            u.contains((x, self.rightmost(x))),
            u.contains((x, y)) && y != self.rightmost(x) ==> key_less(
                self.text,
                y,
                self.rightmost(x),
            ),
        decreases self.rank[x],
    {
        let q = self.rightmost(x);
        let next = self.right[x] as int;
        self.lemma_wf_node(x);
        self.lemma_under_null(u, y);
        assert(self.splits(u, x, y));
        assert(self.splits(u, x, q));
        assert(self.sorts(u, x, y));
        assert(self.sorts(u, x, q));
        if next != LZSS_NODE_NULL {
            self.lemma_wf_node(next);
            self.lemma_rightmost_max(u, next, y);
            if u.contains((x, y)) && y != q && !u.contains((next, y)) {
                // `y` is `x` or on its left: before `x`, which is before `q`
                if y != x {
                    lemma_key_chain(self.text, y, x, q);
                }
            }
        }
    }

    /// Of two subtrees that hold the same node, one holds the top of the
    /// other.
    pub proof fn lemma_under_nested(self, u: Set<(int, int)>, a: int, z: int, c: int)
        requires
            self.wf(),
            self.ordered_by(u),
            u.contains((a, c)),
            u.contains((z, c)),
            self.contains(z),
        ensures
            u.contains((a, z)) || u.contains((z, a)),
        decreases self.rank[z] - self.rank[c],
    {
        assert(self.holds(u, z, c));
        if c != z && c != a {
            let above = self.parent[c] as int;
            self.lemma_wf_node(c);
            assert(self.contains(above)) by {
                if is_root(above) {
                    // only root slots hold the node on a root slot
                    self.lemma_under_up_top(u, z, c);
                }
            }
            self.lemma_under_self(u, above);
            if z != above {
                self.lemma_under_up(u, z, c);
            }
            if a != above {
                self.lemma_under_up(u, a, c);
            }
            assert(self.holds(u, z, above));
            self.lemma_under_nested(u, a, z, above);
        }
    }

    /// A node whose parent is a root slot is in the subtree of no other
    /// node.
    pub proof fn lemma_under_up_top(self, u: Set<(int, int)>, z: int, c: int)
        requires
            self.wf(),
            self.ordered_by(u),
            self.contains(z),
            self.contains(c),
            u.contains((z, c)),
            is_root(self.parent[c] as int),
        ensures
            z == c,
    {
        if z != c {
            self.lemma_under_up(u, z, c);
            assert(self.holds(u, z, self.parent[c] as int));
        }
    }

    /// A subtree that holds a node holds the children of the node.
    pub proof fn lemma_under_down(self, u: Set<(int, int)>, a: int, x: int, c: int)
        requires
            self.wf(),
            self.ordered_by(u),
            u.contains((a, x)),
            self.contains(c),
            c == self.left[x] || c == self.right[x],
        ensures
            u.contains((a, c)),
        decreases
                (if is_root(a) {
                    1int
                } else {
                    0int
                }),
                self.rank[a],
    {
        assert(self.holds(u, a, x));
        self.lemma_under_self(u, c);
        self.lemma_under_null(u, x);
        if is_root(a) {
            self.lemma_wf_root(a);
            assert(self.hangs(u, a, x));
            assert(self.hangs(u, a, c));
            let top = self.right[a] as int;
            self.lemma_under_down(u, top, x, c);
        } else {
            self.lemma_wf_node(a);
            assert(self.splits(u, a, x));
            assert(self.splits(u, a, c));
            if x != a {
                let below = if u.contains((self.left[a] as int, x)) {
                    self.left[a] as int
                } else {
                    self.right[a] as int
                };
                self.lemma_under_self(u, below);
                assert(self.splits(u, a, below));
                assert(self.holds(u, a, below));
                self.lemma_under_down(u, below, x, c);
            }
        }
    }

    /// A subtree that holds a node holds the subtree of the node.
    pub proof fn lemma_under_trans(self, u: Set<(int, int)>, a: int, b: int, c: int)
        requires
            self.wf(),
            self.ordered_by(u),
            u.contains((a, b)),
            u.contains((b, c)),
            self.contains(b),
        ensures
            u.contains((a, c)),
        decreases self.rank[b] - self.rank[c],
    {
        assert(self.holds(u, b, c));
        if c != b {
            let above = self.parent[c] as int;
            self.lemma_wf_node(c);
            if above != b {
                self.lemma_under_up(u, b, c);
                assert(self.holds(u, b, above));
                self.lemma_under_trans(u, a, b, above);
            }
            self.lemma_under_down(u, a, above, c);
        }
    }

    /// The relation "`y` is in the subtree of `a`" without `node`.
    pub open spec fn drop_under(u: Set<(int, int)>, node: int) -> Set<(int, int)> {
        Set::new(|pair: (int, int)| pair.0 != node && pair.1 != node && u.contains(pair))
    }

    /// Removing a node that has at most one child keeps the order.
    pub proof fn lemma_remove_single_ordered(self, u: Set<(int, int)>, node: int, q: int)
        requires
            self.wf(),
            self.ordered_by(u),
            self.contains(node),
            (self.right[node] == LZSS_NODE_NULL && q == self.left[node]) || (self.left[node]
                == LZSS_NODE_NULL && q == self.right[node]),
        ensures
            self.relink(node, q).ordered_by(Self::drop_under(u, node)),
    {
        let after = self.relink(node, q);
        let v = Self::drop_under(u, node);
        self.lemma_wf_root(LZSS_WINDOW_SIZE + 1);
        self.lemma_wf_node(node);
        assert forall|a: int, y: int| #[trigger] after.holds(v, a, y) by {
            assert(self.holds(u, a, y));
        }
        assert forall|x: int, y: int| #[trigger] after.splits(v, x, y) by {
            if after.contains(x) {
                self.lemma_wf_node(x);
                self.lemma_under_null(u, y);
                assert(self.splits(u, x, y));
                assert(self.splits(u, node, y));
            }
        }
        assert forall|x: int, y: int| #[trigger] after.sorts(v, x, y) by {
            if after.contains(x) {
                assert(self.sorts(u, x, y));
                assert(self.splits(u, node, y));
            }
        }
        assert forall|t: int, y: int| #[trigger] after.hangs(v, t, y) by {
            if is_root(t) {
                self.lemma_wf_root(t);
                self.lemma_under_null(u, y);
                assert(self.hangs(u, t, y));
                assert(self.splits(u, node, y));
            }
        }
        assert forall|y: int| #[trigger] after.contains(y) implies v.contains(
            (root_of(after.text[y]), y),
        ) by {
            assert(self.contains(y));
        }
    }

    /// The relation "`y` is in the subtree of `a`" after `q`, the rightmost
    /// node below `first`, the left child of `node`, has taken the place of
    /// `node`: the subtree of `q` is what the subtree of `node` was, without
    /// `node`; and `q` has left the subtrees of the nodes that stood between
    /// `node` and `q`.
    pub open spec fn lift_under(u: Set<(int, int)>, node: int, q: int, first: int) -> Set<
        (int, int),
    > {
        Set::new(
            |pair: (int, int)|
                pair.0 != node && pair.1 != node && (if pair.0 == q {
                    u.contains((node, pair.1))
                } else if u.contains((first, pair.0)) && u.contains((pair.0, q)) {
                    u.contains(pair) && pair.1 != q
                } else {
                    u.contains(pair)
                }),
        )
    }

    /// Removing a node with two children whose left child has no right
    /// child keeps the order.
    pub proof fn lemma_remove_near_ordered(self, u: Set<(int, int)>, node: int)
        requires
            self.wf(),
            self.ordered_by(u),
            self.contains(node),
            self.right[node] != LZSS_NODE_NULL,
            self.left[node] != LZSS_NODE_NULL,
            self.right[self.left[node] as int] == LZSS_NODE_NULL,
        ensures
            self.adopt_right(node, self.left[node] as int).relink(
                node,
                self.left[node] as int,
            ).ordered_by(Self::lift_under(u, node, self.left[node] as int, self.left[node] as int)),
    {
        let q = self.left[node] as int;
        let other = self.right[node] as int;
        let after = self.adopt_right(node, q).relink(node, q);
        let v = Self::lift_under(u, node, q, q);
        self.lemma_wf_root(LZSS_WINDOW_SIZE + 1);
        self.lemma_wf_node(node);
        self.lemma_under_self(u, q);
        assert(self.sorts(u, node, q));
        // nothing but `q` stands between `q` and itself
        assert forall|a: int| u.contains((q, a)) && u.contains((a, q)) implies a == q by {
            assert(self.holds(u, q, a));
            assert(self.holds(u, a, q));
        }
        assert forall|a: int, y: int| #[trigger] after.holds(v, a, y) by {
            assert(self.holds(u, a, y));
            assert(self.holds(u, node, y));
            if v.contains((a, y)) && a != q && y == q {
                // `a` holds `q` and is not `node`: it holds `node`
                if self.contains(a) {
                    self.lemma_under_up(u, a, q);
                    assert(self.holds(u, a, node));
                }
            }
        }
        assert forall|x: int, y: int| #[trigger] after.splits(v, x, y) by {
            if after.contains(x) {
                self.lemma_wf_node(x);
                self.lemma_under_null(u, y);
                assert(self.splits(u, x, y));
                assert(self.splits(u, node, y));
            }
        }
        assert forall|x: int, y: int| #[trigger] after.sorts(v, x, y) by {
            if after.contains(x) {
                self.lemma_wf_node(x);
                assert(self.sorts(u, x, y));
                assert(self.sorts(u, node, y));
                if x == q && u.contains((other, y)) {
                    lemma_key_chain(self.text, q, node, y);
                }
            }
        }
        assert forall|t: int, y: int| #[trigger] after.hangs(v, t, y) by {
            if is_root(t) {
                self.lemma_wf_root(t);
                assert(self.hangs(u, t, y));
            }
        }
        assert forall|y: int| #[trigger] after.contains(y) implies v.contains(
            (root_of(after.text[y]), y),
        ) by {
            assert(self.contains(y));
        }
    }

    /// Whether `a` stands between `first` and `q`: in the subtree of
    /// `first`, with `q` in its own subtree, and not `q` itself.
    pub open spec fn between(u: Set<(int, int)>, first: int, q: int, a: int) -> bool {
        a != q && u.contains((first, a)) && u.contains((a, q))
    }

    /// What stands between a node and the rightmost node below it has that
    /// node on its right, and its own right child stands between them too,
    /// or is that node.
    pub proof fn lemma_between(self, u: Set<(int, int)>, first: int, a: int)
        requires
            self.wf(),
            self.ordered_by(u),
            self.contains(first),
            Self::between(u, first, self.rightmost(first), a),
        ensures
            self.contains(a),
            self.right[a] != LZSS_NODE_NULL,
            u.contains((self.right[a] as int, self.rightmost(first))),
            !u.contains((self.left[a] as int, self.rightmost(first))),
            u.contains((first, self.right[a] as int)),
            self.rank[a] <= self.rank[first],
    {
        let q = self.rightmost(first);
        assert(self.holds(u, first, a));
        self.lemma_wf_node(a);
        self.lemma_rightmost_max(u, first, a);
        self.lemma_under_null(u, q);
        assert(self.splits(u, a, q));
        assert(self.sorts(u, a, q));
        lemma_key_order(self.text, a, q);
        self.lemma_under_down(u, first, a, self.right[a] as int);
    }

    /// Removing a node with two children whose left child has a right
    /// child keeps the order.
    pub proof fn lemma_remove_far_ordered(self, u: Set<(int, int)>, node: int)
        requires
            self.wf(),
            self.ordered_by(u),
            self.contains(node),
            self.right[node] != LZSS_NODE_NULL,
            self.left[node] != LZSS_NODE_NULL,
            self.right[self.left[node] as int] != LZSS_NODE_NULL,
        ensures
            self.detach(node, self.rightmost(self.left[node] as int)).adopt_right(
                node,
                self.rightmost(self.left[node] as int),
            ).relink(node, self.rightmost(self.left[node] as int)).ordered_by(
                Self::lift_under(
                    u,
                    node,
                    self.rightmost(self.left[node] as int),
                    self.left[node] as int,
                ),
            ),
    {
        let first = self.left[node] as int;
        let other = self.right[node] as int;
        let q = self.rightmost(first);
        let over = self.parent[q] as int;
        let after = self.detach(node, q).adopt_right(node, q).relink(node, q);
        let v = Self::lift_under(u, node, q, first);
        self.lemma_wf_root(LZSS_WINDOW_SIZE + 1);
        self.lemma_wf_node(node);
        self.lemma_rightmost(first);
        self.lemma_rightmost_max(u, first, first);
        self.lemma_wf_node(q);
        self.lemma_under_self(u, first);
        self.lemma_under_self(u, q);
        assert(self.splits(u, node, q));
        assert(self.splits(u, over, q));
        if over != first {
            self.lemma_under_up(u, first, q);
        }
        assert(Self::between(u, first, q, over));
        assert(Self::between(u, first, q, first));
        assert forall|a: int, y: int| #[trigger] after.holds(v, a, y) by {
            assert(self.holds(u, a, y));
            assert(self.holds(u, node, y));
            if v.contains((a, y)) && a != q && y == q && self.contains(a) {
                // `a` holds `q` and does not stand between: it holds `node`
                self.lemma_under_nested(u, a, node, q);
                if u.contains((node, a)) {
                    assert(self.splits(u, node, a));
                    if u.contains((other, a)) {
                        self.lemma_under_trans(u, other, a, q);
                        self.lemma_sides_apart(u, node, q);
                    }
                }
                assert(self.holds(u, a, node));
            }
        }
        assert forall|x: int, y: int| #[trigger] after.splits(v, x, y) by {
            if after.contains(x) {
                self.lemma_remove_far_at(u, node, x, y);
            }
        }
        assert forall|x: int, y: int| #[trigger] after.sorts(v, x, y) by {
            if after.contains(x) {
                self.lemma_remove_far_at(u, node, x, y);
            }
        }
        assert forall|t: int, y: int| #[trigger] after.hangs(v, t, y) by {
            if is_root(t) {
                self.lemma_wf_root(t);
                assert(self.hangs(u, t, y));
                assert(self.holds(u, first, t));
                if self.right[t] != node && self.right[t] != LZSS_NODE_NULL {
                    let top = self.right[t] as int;
                    if u.contains((first, top)) {
                        self.lemma_under_up(u, first, top);
                    }
                }
            }
        }
        assert forall|y: int| #[trigger] after.contains(y) implies v.contains(
            (root_of(after.text[y]), y),
        ) by {
            assert(self.contains(y));
            assert(self.holds(u, first, root_of(self.text[y])));
        }
    }

    /// The subtree of `x`, and the order at `x`, after the rightmost node
    /// below the left child of `node` has taken the place of `node`.
    proof fn lemma_remove_far_at(self, u: Set<(int, int)>, node: int, x: int, y: int)
        requires
            self.wf(),
            self.ordered_by(u),
            self.contains(node),
            self.right[node] != LZSS_NODE_NULL,
            self.left[node] != LZSS_NODE_NULL,
            self.right[self.left[node] as int] != LZSS_NODE_NULL,
            self.contains(x),
            x != node,
        ensures
            ({
                let q = self.rightmost(self.left[node] as int);
                let after = self.detach(node, q).adopt_right(node, q).relink(node, q);
                let v = Self::lift_under(u, node, q, self.left[node] as int);
                after.splits(v, x, y) && after.sorts(v, x, y)
            }),
    {
        let first = self.left[node] as int;
        let other = self.right[node] as int;
        let q = self.rightmost(first);
        self.lemma_wf_root(LZSS_WINDOW_SIZE + 1);
        self.lemma_wf_node(node);
        self.lemma_wf_node(first);
        self.lemma_wf_node(x);
        self.lemma_rightmost(first);
        self.lemma_rightmost_max(u, first, y);
        self.lemma_wf_node(q);
        self.lemma_under_self(u, first);
        self.lemma_under_self(u, q);
        self.lemma_under_null(u, y);
        assert(self.splits(u, node, y));
        assert(self.splits(u, x, y));
        assert(self.splits(u, q, y));
        assert(self.sorts(u, node, y));
        assert(self.sorts(u, node, q));
        assert(self.sorts(u, x, y));
        let l = self.left[x] as int;
        let r = self.right[x] as int;
        if Self::between(u, first, q, x) {
            self.lemma_between(u, first, x);
        }
        if x == q {
            // the new children of `q` are `first` and `other`
            if u.contains((other, y)) {
                lemma_key_chain(self.text, q, node, y);
            }
        } else {
            // a child of `x` stands between `first` and `q` only on the
            // right of an `x` that stands between them
            if l != LZSS_NODE_NULL && u.contains((first, l)) && l != first && x != first {
                self.lemma_under_up(u, first, l);
            }
            if r != LZSS_NODE_NULL && u.contains((first, r)) && r != first && x != first {
                self.lemma_under_up(u, first, r);
            }
        }
    }

    /// Longest match: inserting a position into ordered trees keeps them
    /// ordered, and the match that the search reports is a longest one: no
    /// node that begins with the same byte agrees with the position over
    /// more places.
    pub proof fn lemma_insert_ordered(self, node: int, position: int)
        requires
            self.wf(),
            self.is_ordered(),
            0 <= node < LZSS_WINDOW_SIZE,
            !self.contains(node),
        ensures
            self.insert(node, self.find(node, position)).is_ordered(),
            self.longest(node, self.find(node, position).length),
    {
        let u = choose|u: Set<(int, int)>| self.ordered_by(u);
        let base = self.cleared(node);
        let top = root_of(self.text[node]);
        let found = self.find(node, position);
        self.lemma_cleared(node);
        self.lemma_cleared_ordered(u, node);
        self.lemma_wf_root(top);
        assert forall|a: int| #[trigger] base.passed(u, node, a, top, true) by {
            assert(base.holds(u, base.left[a] as int, top));
            assert(base.holds(u, base.right[a] as int, top));
        }
        assert forall|y: int| #[trigger] base.aside(u, node, top, top, true, 0, y) by {
            assert(base.hangs(u, top, y));
        }
        base.lemma_search(node, top, true, 0, position);
        base.lemma_search_ordered(u, node, top, true, 0, position);
        if found.attached {
            base.lemma_attach_ordered(u, node, found.place, found.is_right);
            assert(self.insert(node, found).ordered_by(
                Self::attach_under(u, node, found.place),
            ));
        } else {
            base.lemma_replace_ordered(u, node, found.place);
            assert(self.insert(node, found).ordered_by(
                Self::replace_under(u, node, found.place),
            ));
        }
        assert forall|y: int|
            self.contains(y) && self.text[y] == self.text[node] implies #[trigger] agree_len(
            self.text,
            node,
            y,
            1,
        ) <= found.length by {
            assert(base.contains(y));
            lemma_agree_first(self.text, node, y);
            assert(agree_len(base.text, node, y, 0) <= found.length);
        }
    }

    /// Two nodes of one subtree have different keys.
    pub proof fn lemma_apart(self, u: Set<(int, int)>, z: int, x: int, y: int)
        requires
            self.wf(),
            self.ordered_by(u),
            u.contains((z, x)),
            u.contains((z, y)),
            x != y,
        ensures
            key_less(self.text, x, y) || key_less(self.text, y, x),
        decreases
                (if is_root(z) {
                    1int
                } else {
                    0int
                }),
                self.rank[z],
    {
        assert(self.holds(u, z, x));
        self.lemma_under_null(u, x);
        if is_root(z) {
            let top = self.right[z] as int;
            self.lemma_wf_root(z);
            assert(self.hangs(u, z, x));
            assert(self.hangs(u, z, y));
            self.lemma_apart(u, top, x, y);
        } else {
            let l = self.left[z] as int;
            let r = self.right[z] as int;
            self.lemma_wf_node(z);
            assert(self.splits(u, z, x));
            assert(self.splits(u, z, y));
            assert(self.sorts(u, z, x));
            assert(self.sorts(u, z, y));
            if u.contains((l, x)) && u.contains((l, y)) {
                self.lemma_under_self(u, l);
                assert(self.splits(u, z, l));
                assert(self.holds(u, z, l));
                self.lemma_apart(u, l, x, y);
            } else if u.contains((r, x)) && u.contains((r, y)) {
                self.lemma_under_self(u, r);
                assert(self.splits(u, z, r));
                assert(self.holds(u, z, r));
                self.lemma_apart(u, r, x, y);
            } else if x != z && y != z {
                if u.contains((l, x)) {
                    lemma_key_chain(self.text, x, z, y);
                } else {
                    lemma_key_chain(self.text, y, z, x);
                }
            }
        }
    }

    /// One node for each key: no two nodes of ordered trees agree
    /// throughout.
    pub proof fn lemma_keys_differ(self, x: int, y: int)
        requires
            self.wf(),
            self.is_ordered(),
            self.contains(x),
            self.contains(y),
            x != y,
        ensures
            agree_len(self.text, x, y, 0) < LZSS_MATCH_MAX,
    {
        let u = choose|u: Set<(int, int)>| self.ordered_by(u);
        lemma_agree_len(self.text, x, y, 0);
        if self.text[x] != self.text[y] {
            assert(!same_at(self.text, x, y, 0));
        } else {
            self.lemma_apart(u, root_of(self.text[x]), x, y);
            lemma_key_order(self.text, x, y);
        }
    }

    /// Removing a node from ordered trees keeps them ordered.
    pub proof fn lemma_remove_ordered(self, node: int)
        requires
            self.wf(),
            self.is_ordered(),
            0 <= node < LZSS_WINDOW_SIZE,
        ensures
            self.remove(node).is_ordered(),
    {
        let u = choose|u: Set<(int, int)>| self.ordered_by(u);
        if !self.contains(node) {
        } else if self.right[node] == LZSS_NODE_NULL {
            self.lemma_remove_single_ordered(u, node, self.left[node] as int);
            assert(self.remove(node).ordered_by(Self::drop_under(u, node)));
        } else if self.left[node] == LZSS_NODE_NULL {
            self.lemma_remove_single_ordered(u, node, self.right[node] as int);
            assert(self.remove(node).ordered_by(Self::drop_under(u, node)));
        } else {
            let first = self.left[node] as int;
            if self.right[first] == LZSS_NODE_NULL {
                self.lemma_remove_near_ordered(u, node);
                assert(self.remove(node).ordered_by(Self::lift_under(u, node, first, first)));
            } else {
                self.lemma_remove_far_ordered(u, node);
                assert(self.remove(node).ordered_by(
                    Self::lift_under(u, node, self.rightmost(first), first),
                ));
            }
        }
    }

    /// Writing a byte that no key reaches into the window of ordered trees
    /// keeps them ordered.
    pub proof fn lemma_store_keeps_order(self, at: int, c: u8)
        requires
            self.wf(),
            self.is_ordered(),
            0 <= at < LZSS_WINDOW_SIZE,
            self.keys_clear_of(at),
        ensures
            self.store(at, c).is_ordered(),
    {
        let u = choose|u: Set<(int, int)>| self.ordered_by(u);
        self.lemma_store_ordered(u, at, c);
        assert(self.store(at, c).ordered_by(u));
    }
}

/// Whether place `k` of the key at `x` is the window position `at`, or its
/// mirror behind the window.
pub open spec fn reaches(x: int, k: int, at: int) -> bool {
    x + k == at || x + k == at + LZSS_WINDOW_SIZE
}

/// Trees without nodes are ordered.
pub proof fn lemma_blank_ordered(d: Dictionary)
    requires
        forall|x: int| !d.contains(x),
        forall|t: int| is_root(t) ==> d.right[t] == LZSS_NODE_NULL,
    ensures
        d.ordered_by(Set::empty()),
        d.is_ordered(),
{
    let u = Set::<(int, int)>::empty();
    assert forall|a: int, y: int| #[trigger] d.holds(u, a, y) by {}
    assert forall|x: int, y: int| #[trigger] d.splits(u, x, y) by {}
    assert forall|x: int, y: int| #[trigger] d.sorts(u, x, y) by {}
    assert forall|t: int, y: int| #[trigger] d.hangs(u, t, y) by {}
    assert(d.ordered_by(u));
}

} // verus!
