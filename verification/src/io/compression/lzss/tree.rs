//! The compressor's dictionary: the window, and binary search trees over the
//! window positions that can still be referred to.
//!
//! A node is a window position; its key is the `LZSS_MATCH_MAX` bytes that
//! start there. Positions that begin with the same byte form one tree, which
//! hangs on the right link of a root slot of its own. Links are indices, and
//! `LZSS_NODE_NULL` stands for "none".

use crate::io::compression::lzss::format::{
    LZSS_BUFFER_SIZE, LZSS_FILL, LZSS_MATCH_MAX, LZSS_NODE_NULL, LZSS_WINDOW_SIZE,
};
use crate::io::compression::lzss::order::lemma_blank_ordered;
use vstd::prelude::*;

verus! {

/// Length of the `left` and `parent` link arrays: one entry for each window
/// position and one for the null index.
pub const LZSS_LINK_SIZE: usize = 0x1001;

/// Length of the `right` link array, which also holds the 256 root slots.
pub const LZSS_ROOT_SIZE: usize = 0x1101;

/// What the compressor keeps between two tokens: the window, the trees
/// over its positions, and the match that the last insertion found.
pub struct LzssContext {
    /// The window, with its first `LZSS_MATCH_MAX - 1` bytes once more
    /// behind its end, so that a key can be read straight on.
    pub text_buffer: [u8; LZSS_BUFFER_SIZE],
    /// The left child of each node.
    pub left: [u32; LZSS_LINK_SIZE],
    /// The right child of each node and, from index `LZSS_WINDOW_SIZE + 1`
    /// on, the top node of the tree of each first byte.
    pub right: [u32; LZSS_ROOT_SIZE],
    /// The parent of each node; `LZSS_NODE_NULL` for a position that is in
    /// no tree.
    pub parent: [u32; LZSS_LINK_SIZE],
    /// The node of the longest match that the last insertion met.
    pub match_position: u32,
    /// The length of that match; zero if the insertion met no node.
    pub match_length: u32,
    /// A height for each node, larger than that of its children: the trees
    /// have no cycles.
    pub rank: Ghost<Map<int, nat>>,
}

/// Whether `i` is the index of a root slot.
pub open spec fn is_root(i: int) -> bool {
    LZSS_WINDOW_SIZE < i <= LZSS_WINDOW_SIZE + 256
}

/// The root slot of the tree for positions that begin with `c`.
pub open spec fn root_of(c: u8) -> int {
    LZSS_WINDOW_SIZE + 1 + c as int
}

/// Whether the bytes of `text` that lie `k` places after `a` and after `b`
/// are equal.
pub open spec fn same_at(text: Seq<u8>, a: int, b: int, k: int) -> bool {
    text[a + k] == text[b + k]
}

/// Whether the bytes of `text` at `a` and at `b` agree over `len` places.
pub open spec fn common_prefix(text: Seq<u8>, a: int, b: int, len: int) -> bool {
    forall|k: int| 0 <= k < len ==> #[trigger] same_at(text, a, b, k)
}

/// The first place from `from` on, and before `LZSS_MATCH_MAX`, at which the
/// bytes of `text` after `a` and after `b` differ; `LZSS_MATCH_MAX` if there
/// is none.
pub open spec fn agree_len(text: Seq<u8>, a: int, b: int, from: int) -> int
    decreases LZSS_MATCH_MAX - from,
{
    if from >= LZSS_MATCH_MAX {
        LZSS_MATCH_MAX as int
    } else if text[a + from] != text[b + from] {
        from
    } else {
        agree_len(text, a, b, from + 1)
    }
}

/// Where a search for the place of a new node ends.
pub struct Found {
    /// The node or root slot that the new node is hung on, or the node that
    /// it replaces.
    pub place: int,
    /// Whether the new node is hung on the right link of `place`.
    pub is_right: bool,
    /// Whether the new node is hung on `place`, rather than put in its
    /// place.
    pub attached: bool,
    /// The length of the longest match met.
    pub length: int,
    /// The first node met that agrees with the new one over that length.
    pub position: int,
}

/// The state of a context as sequences: the window and the three link
/// tables, with the rank of each node.
pub struct Dictionary {
    pub text: Seq<u8>,
    pub left: Seq<u32>,
    pub right: Seq<u32>,
    pub parent: Seq<u32>,
    pub rank: Map<int, nat>,
}

/// The dictionary with the window `text` and no node.
pub open spec fn blank(text: Seq<u8>) -> Dictionary {
    Dictionary {
        text,
        left: Seq::new(LZSS_LINK_SIZE as nat, |i: int| LZSS_NODE_NULL),
        right: Seq::new(LZSS_ROOT_SIZE as nat, |i: int| LZSS_NODE_NULL),
        parent: Seq::new(LZSS_LINK_SIZE as nat, |i: int| LZSS_NODE_NULL),
        rank: Map::total(|k: int| 0nat),
    }
}

/// A dictionary without nodes is well formed.
pub proof fn lemma_blank(text: Seq<u8>)
    requires
        text.len() == LZSS_BUFFER_SIZE,
    ensures
        blank(text).wf(),
        forall|x: int| !blank(text).contains(x),
{
    let d = blank(text);
    assert forall|t: int| is_root(t) implies #[trigger] d.link_ok(t, d.right[t] as int) by {
        assert(d.right[t] == LZSS_NODE_NULL);
    }
}

impl Dictionary {
    /// Whether window position `x` is a node of a tree.
    pub open spec fn contains(self, x: int) -> bool {
        0 <= x < LZSS_WINDOW_SIZE && self.parent[x] != LZSS_NODE_NULL
    }

    /// The link of `p` on the given side.
    pub open spec fn child(self, p: int, is_right: bool) -> u32 {
        if is_right {
            self.right[p]
        } else {
            self.left[p]
        }
    }

    /// The link above node `x` is sound: its parent is the root slot of its
    /// first byte, or a node with the same first byte and a larger rank;
    /// either way the parent links back.
    pub open spec fn up_ok(self, x: int) -> bool {
        let above = self.parent[x] as int;
        if is_root(above) {
            self.right[above] == x && root_of(self.text[x]) == above
        } else {
            &&& self.contains(above)
            &&& self.left[above] == x || self.right[above] == x
            &&& self.text[x] == self.text[above]
            &&& self.rank[above] > self.rank[x]
        }
    }

    /// A link below `p` is sound: it is null, or a node whose parent is `p`.
    pub open spec fn link_ok(self, p: int, c: int) -> bool {
        c == LZSS_NODE_NULL || (self.contains(c) && self.parent[c] == p)
    }

    /// The links below node `x` are sound, and differ unless both are null.
    pub open spec fn down_ok(self, x: int) -> bool {
        &&& self.link_ok(x, self.left[x] as int)
        &&& self.link_ok(x, self.right[x] as int)
        &&& self.left[x] == self.right[x] ==> self.left[x] == LZSS_NODE_NULL
    }

    /// The trees are well formed: every link is answered by the link in the
    /// other direction, and ranks fall from parent to child.
    pub closed spec fn wf(self) -> bool {
        &&& self.text.len() == LZSS_BUFFER_SIZE
        &&& self.left.len() == LZSS_LINK_SIZE
        &&& self.right.len() == LZSS_ROOT_SIZE
        &&& self.parent.len() == LZSS_LINK_SIZE
        &&& forall|x: int| #[trigger] self.contains(x) ==> self.up_ok(x) && self.down_ok(x)
        &&& forall|t: int| is_root(t) ==> #[trigger] self.link_ok(t, self.right[t] as int)
    }

    /// Whether `length` is the length of a longest match for `node`: no
    /// node that begins with the same byte agrees with `node` over more
    /// places.
    pub open spec fn longest(self, node: int, length: int) -> bool {
        forall|y: int|
            self.contains(y) && self.text[y] == self.text[node] ==> #[trigger] agree_len(
                self.text,
                node,
                y,
                1,
            ) <= length
    }

    /// What well-formed trees hold of a node: the link above it and the
    /// links below it are sound.
    pub proof fn lemma_wf_node(self, x: int)
        requires
            self.wf(),
            self.contains(x),
        ensures
            self.up_ok(x),
            self.down_ok(x),
    {
    }

    /// What well-formed trees hold of a root slot: the link on its right is
    /// sound.
    pub proof fn lemma_wf_root(self, t: int)
        requires
            self.wf(),
            is_root(t),
        ensures
            self.link_ok(t, self.right[t] as int),
            self.text.len() == LZSS_BUFFER_SIZE,
            self.left.len() == LZSS_LINK_SIZE,
            self.right.len() == LZSS_ROOT_SIZE,
            self.parent.len() == LZSS_LINK_SIZE,
    {
    }

    /// Whether the search for the place of `node` may stand at `p` and go on
    /// to the given side: `p` is the root slot of the first byte of `node`,
    /// whose tree hangs on its right, or a node with that first byte.
    pub open spec fn search_at(self, node: int, p: int, is_right: bool) -> bool {
        ||| p == root_of(self.text[node]) && is_right
        ||| self.contains(p) && self.text[p] == self.text[node]
    }

    /// The dictionary with both links below `node` set to null.
    pub open spec fn cleared(self, node: int) -> Dictionary {
        Dictionary {
            text: self.text,
            left: self.left.update(node, LZSS_NODE_NULL),
            right: self.right.update(node, LZSS_NODE_NULL),
            parent: self.parent,
            rank: self.rank,
        }
    }

    /// The dictionary with `node` hung below `p` on the given side, as a
    /// node of rank zero under ranks that have all been raised by one.
    pub open spec fn attach(self, node: int, p: int, is_right: bool) -> Dictionary {
        Dictionary {
            text: self.text,
            left: if is_right {
                self.left
            } else {
                self.left.update(p, node as u32)
            },
            right: if is_right {
                self.right.update(p, node as u32)
            } else {
                self.right
            },
            parent: self.parent.update(node, p as u32),
            rank: Map::total(
                |k: int|
                    if k == node {
                        0nat
                    } else {
                        (self.rank[k] + 1) as nat
                    },
            ),
        }
    }

    /// The dictionary with `node` in the place of `p`: `node` takes the
    /// parent, the children and the rank of `p`, and `p` leaves the tree.
    pub open spec fn replace(self, node: int, p: int) -> Dictionary {
        let above = self.parent[p] as int;
        let below_left = self.left[p];
        let below_right = self.right[p];
        let on_right = self.right[above] == p;
        Dictionary {
            text: self.text,
            left: if on_right {
                self.left.update(node, below_left)
            } else {
                self.left.update(node, below_left).update(above, node as u32)
            },
            right: if on_right {
                self.right.update(node, below_right).update(above, node as u32)
            } else {
                self.right.update(node, below_right)
            },
            parent: self.parent.update(node, above as u32).update(
                below_left as int,
                node as u32,
            ).update(below_right as int, node as u32).update(p, LZSS_NODE_NULL),
            rank: self.rank.insert(node, self.rank[p]),
        }
    }

    /// Clearing the links of a position outside the trees changes no tree.
    pub proof fn lemma_cleared(self, node: int)
        requires
            self.wf(),
            0 <= node < LZSS_WINDOW_SIZE,
            !self.contains(node),
        ensures
            self.cleared(node).wf(),
    {
        let after = self.cleared(node);
        assert forall|x: int| #[trigger] after.contains(x) implies after.up_ok(x)
            && after.down_ok(x) by {
            assert(self.contains(x));
            assert(self.up_ok(x) && self.down_ok(x));
        }
        assert forall|t: int| is_root(t) implies #[trigger] after.link_ok(
            t,
            after.right[t] as int,
        ) by {
            assert(self.link_ok(t, self.right[t] as int));
        }
    }

    /// Hanging a new leaf on an empty link keeps the trees well formed.
    pub proof fn lemma_attach(self, node: int, p: int, is_right: bool)
        requires
            self.wf(),
            0 <= node < LZSS_WINDOW_SIZE,
            !self.contains(node),
            self.left[node] == LZSS_NODE_NULL,
            self.right[node] == LZSS_NODE_NULL,
            self.search_at(node, p, is_right),
            self.child(p, is_right) == LZSS_NODE_NULL,
        ensures
            self.attach(node, p, is_right).wf(),
    {
        let after = self.attach(node, p, is_right);
        assert forall|x: int| #[trigger] after.contains(x) implies after.up_ok(x)
            && after.down_ok(x) by {
            if x != node {
                assert(self.contains(x));
                assert(self.up_ok(x) && self.down_ok(x));
            }
        }
        assert forall|t: int| is_root(t) implies #[trigger] after.link_ok(
            t,
            after.right[t] as int,
        ) by {
            assert(self.link_ok(t, self.right[t] as int));
        }
    }

    /// Putting a new position in the place of a node with the same first
    /// byte keeps the trees well formed.
    pub proof fn lemma_replace(self, node: int, p: int)
        requires
            self.wf(),
            0 <= node < LZSS_WINDOW_SIZE,
            !self.contains(node),
            self.contains(p),
            self.text[p] == self.text[node],
        ensures
            self.replace(node, p).wf(),
            forall|x: int|
                x != node ==> (#[trigger] self.replace(node, p).contains(x) <==> self.contains(x)
                    && x != p),
            self.replace(node, p).contains(node),
    {
        let after = self.replace(node, p);
        let above = self.parent[p] as int;
        assert(self.up_ok(p) && self.down_ok(p));
        if !is_root(above) {
            assert(self.contains(above));
            assert(self.down_ok(above));
        } else {
            assert(self.link_ok(above, self.right[above] as int));
        }
        assert forall|x: int| #[trigger] after.contains(x) implies after.up_ok(x)
            && after.down_ok(x) by {
            if x != node {
                assert(self.contains(x));
                assert(self.up_ok(x) && self.down_ok(x));
            }
        }
        assert forall|t: int| is_root(t) implies #[trigger] after.link_ok(
            t,
            after.right[t] as int,
        ) by {
            assert(self.link_ok(t, self.right[t] as int));
        }
    }

    /// The search for the place of `node`, from `p` on to the given side,
    /// with the best match so far. At an empty link the search ends and
    /// `node` is to be hung there. Else the node at the link is compared: it
    /// becomes the best match if it agrees with `node` over more places than
    /// the one before; if it agrees throughout, the search ends and `node`
    /// is to replace it; else the search goes on from it, to the right if
    /// the first differing byte of `node` is the larger.
    pub open spec fn search(
        self,
        node: int,
        p: int,
        is_right: bool,
        length: int,
        position: int,
    ) -> Found
        decreases
                (if is_root(p) {
                    1int
                } else {
                    0int
                }),
                self.rank[p],
        when self.wf() && self.search_at(node, p, is_right)
    {
        let next = self.child(p, is_right) as int;
        if next == LZSS_NODE_NULL {
            Found { place: p, is_right, attached: true, length, position }
        } else {
            let agree = agree_len(self.text, node, next, 1);
            if agree >= LZSS_MATCH_MAX {
                Found { place: next, is_right, attached: false, length: agree, position: next }
            } else {
                proof {
                    if self.contains(p) {
                        assert(self.down_ok(p));
                    } else {
                        assert(self.link_ok(p, self.right[p] as int));
                    }
                    assert(self.contains(next));
                    assert(self.up_ok(next));
                }
                self.search(
                    node,
                    next,
                    self.text[node + agree] > self.text[next + agree],
                    if agree > length {
                        agree
                    } else {
                        length
                    },
                    if agree > length {
                        next
                    } else {
                        position
                    },
                )
            }
        }
    }

    /// The search for the place of `node` from the root slot of its first
    /// byte, where `position` is the match position before the search.
    pub open spec fn find(self, node: int, position: int) -> Found {
        self.cleared(node).search(node, root_of(self.text[node]), true, 0, position)
    }

    /// The dictionary with `node` put where the search for it ended.
    pub open spec fn insert(self, node: int, found: Found) -> Dictionary {
        if found.attached {
            self.cleared(node).attach(node, found.place, found.is_right)
        } else {
            self.cleared(node).replace(node, found.place)
        }
    }

    /// The last node on the way down the right links from `q`.
    pub open spec fn rightmost(self, q: int) -> int
        decreases self.rank[q],
        when self.wf() && self.contains(q)
    {
        if self.right[q] == LZSS_NODE_NULL {
            q
        } else {
            proof {
                assert(self.down_ok(q));
                assert(self.contains(self.right[q] as int));
                assert(self.up_ok(self.right[q] as int));
            }
            self.rightmost(self.right[q] as int)
        }
    }

    /// The dictionary after `q`, the rightmost node below the left child of
    /// `node`, has been taken out of its place and given the left subtree of
    /// `node`: the left child of `q` moves up into the place of `q`.
    pub open spec fn detach(self, node: int, q: int) -> Dictionary {
        Dictionary {
            text: self.text,
            left: self.left.update(q, self.left[node]),
            right: self.right.update(self.parent[q] as int, self.left[q]),
            parent: self.parent.update(self.left[q] as int, self.parent[q]).update(
                self.left[node] as int,
                q as u32,
            ),
            rank: self.rank,
        }
    }

    /// The dictionary after `q` has been given the right subtree of `node`,
    /// and its rank.
    pub open spec fn adopt_right(self, node: int, q: int) -> Dictionary {
        Dictionary {
            text: self.text,
            left: self.left,
            right: self.right.update(q, self.right[node]),
            parent: self.parent.update(self.right[node] as int, q as u32),
            rank: self.rank.insert(q, self.rank[node]),
        }
    }

    /// The dictionary after `q` has been put below the parent of `node`, on
    /// the side where `node` was, and `node` has been marked as outside the
    /// trees.
    pub open spec fn relink(self, node: int, q: int) -> Dictionary {
        let above = self.parent[node] as int;
        Dictionary {
            text: self.text,
            left: if self.right[above] == node {
                self.left
            } else {
                self.left.update(above, q as u32)
            },
            right: if self.right[above] == node {
                self.right.update(above, q as u32)
            } else {
                self.right
            },
            parent: self.parent.update(q, above as u32).update(node, LZSS_NODE_NULL),
            rank: self.rank,
        }
    }

    /// The dictionary without `node`. A node with at most one child gives
    /// its place to that child, or to nothing. A node with two children
    /// gives it to the rightmost node of its left subtree, which takes over
    /// both subtrees.
    pub open spec fn remove(self, node: int) -> Dictionary {
        if !self.contains(node) {
            self
        } else if self.right[node] == LZSS_NODE_NULL {
            self.relink(node, self.left[node] as int)
        } else if self.left[node] == LZSS_NODE_NULL {
            self.relink(node, self.right[node] as int)
        } else {
            let first = self.left[node] as int;
            if self.right[first] == LZSS_NODE_NULL {
                self.adopt_right(node, first).relink(node, first)
            } else {
                let q = self.rightmost(first);
                self.detach(node, q).adopt_right(node, q).relink(node, q)
            }
        }
    }

    /// The rightmost node below `q` is a node with no right child, of the
    /// same first byte; where it is not `q` itself, it is the right child of
    /// a node of rank at most that of `q`.
    pub proof fn lemma_rightmost(self, q: int)
        requires
            self.wf(),
            self.contains(q),
        ensures
            self.contains(self.rightmost(q)),
            self.right[self.rightmost(q)] == LZSS_NODE_NULL,
            self.text[self.rightmost(q)] == self.text[q],
            self.rank[self.rightmost(q)] <= self.rank[q],
            self.rightmost(q) != q ==> {
                let above = self.parent[self.rightmost(q)] as int;
                &&& self.contains(above)
                &&& self.right[above] == self.rightmost(q)
                &&& self.rank[self.rightmost(q)] < self.rank[above] <= self.rank[q]
            },
            (self.rightmost(q) == q) == (self.right[q] == LZSS_NODE_NULL),
        decreases self.rank[q],
    {
        if self.right[q] != LZSS_NODE_NULL {
            let next = self.right[q] as int;
            assert(self.down_ok(q));
            assert(self.contains(next));
            assert(self.up_ok(next));
            self.lemma_rightmost(next);
            let last = self.rightmost(next);
            assert(self.up_ok(last));
        }
    }

    /// What removing `node` must leave: well-formed trees with the same
    /// window, without `node`, and with every other node.
    pub open spec fn is_removal(self, node: int, after: Dictionary) -> bool {
        &&& after.wf()
        &&& after.text == self.text
        &&& !after.contains(node)
        &&& forall|x: int| x != node ==> (#[trigger] after.contains(x) <==> self.contains(x))
    }

    /// Removing a node that has at most one child.
    proof fn lemma_remove_single(self, node: int, q: int)
        requires
            self.wf(),
            self.contains(node),
            (self.right[node] == LZSS_NODE_NULL && q == self.left[node]) || (self.left[node]
                == LZSS_NODE_NULL && q == self.right[node]),
        ensures
            self.is_removal(node, self.relink(node, q)),
    {
        let after = self.relink(node, q);
        let above = self.parent[node] as int;
        assert(self.up_ok(node) && self.down_ok(node));
        if !is_root(above) {
            assert(self.contains(above));
            assert(self.down_ok(above));
        } else {
            assert(self.link_ok(above, self.right[above] as int));
        }
        assert forall|x: int| #[trigger] after.contains(x) implies after.up_ok(x)
            && after.down_ok(x) by {
            assert(self.contains(x));
            assert(self.up_ok(x) && self.down_ok(x));
        }
        assert forall|t: int| is_root(t) implies #[trigger] after.link_ok(
            t,
            after.right[t] as int,
        ) by {
            assert(self.link_ok(t, self.right[t] as int));
        }
    }

    /// Removing a node with two children whose left child has no right
    /// child: the left child moves up.
    proof fn lemma_remove_near(self, node: int)
        requires
            self.wf(),
            self.contains(node),
            self.right[node] != LZSS_NODE_NULL,
            self.left[node] != LZSS_NODE_NULL,
            self.right[self.left[node] as int] == LZSS_NODE_NULL,
        ensures
            self.is_removal(
                node,
                self.adopt_right(node, self.left[node] as int).relink(node, self.left[node] as int),
            ),
    {
        let q = self.left[node] as int;
        let after = self.adopt_right(node, q).relink(node, q);
        let above = self.parent[node] as int;
        assert(self.up_ok(node) && self.down_ok(node));
        if !is_root(above) {
            assert(self.contains(above));
            assert(self.down_ok(above));
        } else {
            assert(self.link_ok(above, self.right[above] as int));
        }
        assert(self.contains(q));
        assert(self.up_ok(q) && self.down_ok(q));
        assert forall|x: int| #[trigger] after.contains(x) implies after.up_ok(x)
            && after.down_ok(x) by {
            assert(self.contains(x));
            assert(self.up_ok(x) && self.down_ok(x));
        }
        assert forall|t: int| is_root(t) implies #[trigger] after.link_ok(
            t,
            after.right[t] as int,
        ) by {
            assert(self.link_ok(t, self.right[t] as int));
        }
    }

    /// Removing a node with two children whose left child has a right
    /// child: the rightmost node of the left subtree moves up.
    #[verifier::rlimit(20)]
    proof fn lemma_remove_far(self, node: int)
        requires
            self.wf(),
            self.contains(node),
            self.right[node] != LZSS_NODE_NULL,
            self.left[node] != LZSS_NODE_NULL,
            self.right[self.left[node] as int] != LZSS_NODE_NULL,
        ensures
            self.is_removal(
                node,
                self.detach(node, self.rightmost(self.left[node] as int)).adopt_right(
                    node,
                    self.rightmost(self.left[node] as int),
                ).relink(node, self.rightmost(self.left[node] as int)),
            ),
    {
        let first = self.left[node] as int;
        let q = self.rightmost(first);
        let after = self.detach(node, q).adopt_right(node, q).relink(node, q);
        let above = self.parent[node] as int;
        assert(self.up_ok(node) && self.down_ok(node));
        if !is_root(above) {
            assert(self.contains(above));
            assert(self.down_ok(above));
        } else {
            assert(self.link_ok(above, self.right[above] as int));
        }
        assert(self.contains(first));
        assert(self.up_ok(first) && self.down_ok(first));
        self.lemma_rightmost(first);
        assert(self.up_ok(q) && self.down_ok(q));
        let over = self.parent[q] as int;
        assert(self.up_ok(over) && self.down_ok(over));
        assert forall|x: int| #[trigger] after.contains(x) implies after.up_ok(x)
            && after.down_ok(x) by {
            assert(self.contains(x));
            assert(self.up_ok(x) && self.down_ok(x));
        }
        assert forall|t: int| is_root(t) implies #[trigger] after.link_ok(
            t,
            after.right[t] as int,
        ) by {
            assert(self.link_ok(t, self.right[t] as int));
        }
    }

    /// Removing a node keeps the trees well formed, and takes out that node
    /// and no other.
    pub proof fn lemma_remove(self, node: int)
        requires
            self.wf(),
            0 <= node < LZSS_WINDOW_SIZE,
        ensures
            self.is_removal(node, self.remove(node)),
    {
        if !self.contains(node) {
        } else if self.right[node] == LZSS_NODE_NULL {
            self.lemma_remove_single(node, self.left[node] as int);
        } else if self.left[node] == LZSS_NODE_NULL {
            self.lemma_remove_single(node, self.right[node] as int);
        } else if self.right[self.left[node] as int] == LZSS_NODE_NULL {
            self.lemma_remove_near(node);
        } else {
            self.lemma_remove_far(node);
        }
    }

    /// The dictionary with byte `c` written at window position `at`, and at
    /// its mirror behind the window where `at` is one of the first
    /// `LZSS_MATCH_MAX - 1` positions.
    pub open spec fn store(self, at: int, c: u8) -> Dictionary {
        Dictionary {
            text: if at < LZSS_MATCH_MAX - 1 {
                self.text.update(at, c).update(at + LZSS_WINDOW_SIZE, c)
            } else {
                self.text.update(at, c)
            },
            left: self.left,
            right: self.right,
            parent: self.parent,
            rank: self.rank,
        }
    }

    /// Writing to a position that is in no tree changes no tree.
    pub proof fn lemma_store(self, at: int, c: u8)
        requires
            self.wf(),
            0 <= at < LZSS_WINDOW_SIZE,
            !self.contains(at),
        ensures
            self.store(at, c).wf(),
    {
        let after = self.store(at, c);
        assert forall|x: int| #[trigger] after.contains(x) implies after.up_ok(x)
            && after.down_ok(x) by {
            assert(self.contains(x));
            assert(self.up_ok(x) && self.down_ok(x));
        }
        assert forall|t: int| is_root(t) implies #[trigger] after.link_ok(
            t,
            after.right[t] as int,
        ) by {
            assert(self.link_ok(t, self.right[t] as int));
        }
    }

    /// What a search may start from: a match length below the longest, and,
    /// where it is not zero, a node that agrees with `node` over that
    /// length.
    pub open spec fn match_ok(self, node: int, length: int, position: int) -> bool {
        &&& 0 <= length <= LZSS_MATCH_MAX
        &&& length > 0 ==> self.contains(position) && common_prefix(
            self.text,
            node,
            position,
            length,
        )
    }

    /// A search ends at an empty link below a node of the first byte of
    /// `node`, or at a node that agrees with `node` throughout; and the
    /// match it reports is a node that agrees with `node` over the reported
    /// length.
    pub proof fn lemma_search(
        self,
        node: int,
        p: int,
        is_right: bool,
        length: int,
        position: int,
    )
        requires
            self.wf(),
            0 <= node < LZSS_WINDOW_SIZE,
            self.search_at(node, p, is_right),
            self.match_ok(node, length, position),
            length < LZSS_MATCH_MAX,
        ensures
            ({
                let found = self.search(node, p, is_right, length, position);
                &&& self.match_ok(node, found.length, found.position)
                &&& found.attached ==> {
                    &&& self.search_at(node, found.place, found.is_right)
                    &&& self.child(found.place, found.is_right) == LZSS_NODE_NULL
                    &&& found.length < LZSS_MATCH_MAX
                }
                &&& !found.attached ==> {
                    &&& self.contains(found.place)
                    &&& self.text[found.place] == self.text[node]
                    &&& found.length == LZSS_MATCH_MAX
                    &&& found.position == found.place
                }
            }),
        decreases
                (if is_root(p) {
                    1int
                } else {
                    0int
                }),
                self.rank[p],
    {
        let next = self.child(p, is_right) as int;
        if next != LZSS_NODE_NULL {
            if self.contains(p) {
                assert(self.down_ok(p));
            } else {
                assert(self.link_ok(p, self.right[p] as int));
            }
            assert(self.contains(next));
            assert(self.up_ok(next));
            lemma_agree_len(self.text, node, next, 1);
            let agree = agree_len(self.text, node, next, 1);
            assert(same_at(self.text, node, next, 0));
            if agree < LZSS_MATCH_MAX {
                self.lemma_search(
                    node,
                    next,
                    self.text[node + agree] > self.text[next + agree],
                    if agree > length {
                        agree
                    } else {
                        length
                    },
                    if agree > length {
                        next
                    } else {
                        position
                    },
                );
            }
        }
    }

    /// Inserting a position that is in no tree keeps the trees well formed
    /// and the window as it is. The position joins the trees; a node leaves
    /// them only where the match is of the full length, and then it is the
    /// matched node. A match that is reported is a node of the trees as
    /// they were, and agrees with the position over the reported length.
    pub proof fn lemma_insert(self, node: int, position: int)
        requires
            self.wf(),
            0 <= node < LZSS_WINDOW_SIZE,
            !self.contains(node),
        ensures
            ({
                let found = self.find(node, position);
                let after = self.insert(node, found);
                &&& after.wf()
                &&& after.text == self.text
                &&& after.contains(node)
                &&& 0 <= found.length <= LZSS_MATCH_MAX
                &&& found.length > 0 ==> {
                    &&& self.contains(found.position)
                    &&& common_prefix(self.text, node, found.position, found.length)
                }
                &&& forall|x: int|
                    x != node ==> (#[trigger] after.contains(x) <==> self.contains(x) && !(
                    found.length == LZSS_MATCH_MAX && x == found.position))
            }),
    {
        let base = self.cleared(node);
        self.lemma_cleared(node);
        base.lemma_search(node, root_of(self.text[node]), true, 0, position);
        let found = self.find(node, position);
        if found.attached {
            base.lemma_attach(node, found.place, found.is_right);
        } else {
            base.lemma_replace(node, found.place);
        }
    }
}

/// The places from `from` up to the agreed length hold equal bytes, and the
/// place at the agreed length, where it is short of the longest, does not.
pub proof fn lemma_agree_len(text: Seq<u8>, a: int, b: int, from: int)
    requires
        0 <= from <= LZSS_MATCH_MAX,
    ensures
        from <= agree_len(text, a, b, from) <= LZSS_MATCH_MAX,
        forall|k: int|
            from <= k < agree_len(text, a, b, from) ==> #[trigger] same_at(text, a, b, k),
        agree_len(text, a, b, from) < LZSS_MATCH_MAX ==> !same_at(
            text,
            a,
            b,
            agree_len(text, a, b, from),
        ),
    decreases LZSS_MATCH_MAX - from,
{
    if from < LZSS_MATCH_MAX && text[a + from] == text[b + from] {
        lemma_agree_len(text, a, b, from + 1);
    }
}

impl View for LzssContext {
    type V = Dictionary;

    open spec fn view(&self) -> Dictionary {
        Dictionary {
            text: self.text_buffer@,
            left: self.left@,
            right: self.right@,
            parent: self.parent@,
            rank: self.rank@,
        }
    }
}

impl LzssContext {
    /// A context with a window of fill bytes and no nodes.
    pub fn new() -> (ctx: Self)
        ensures
            ctx@ == blank(Seq::new(LZSS_BUFFER_SIZE as nat, |i: int| LZSS_FILL)),
            ctx@.wf(),
            ctx@.is_ordered(),
            forall|x: int| !ctx@.contains(x),
            ctx.match_position == 0,
            ctx.match_length == 0,
    {
        let ctx = Self {
            text_buffer: [LZSS_FILL; LZSS_BUFFER_SIZE],
            left: [LZSS_NODE_NULL; LZSS_LINK_SIZE],
            right: [LZSS_NODE_NULL; LZSS_ROOT_SIZE],
            parent: [LZSS_NODE_NULL; LZSS_LINK_SIZE],
            match_position: 0,
            match_length: 0,
            rank: Ghost(Map::total(|k: int| 0nat)),
        };
        proof {
            let text = Seq::new(LZSS_BUFFER_SIZE as nat, |i: int| LZSS_FILL);
            lemma_blank(text);
            lemma_blank_ordered(blank(text));
            assert(ctx@.text =~= text);
            assert(ctx@.left =~= blank(text).left);
            assert(ctx@.right =~= blank(text).right);
            assert(ctx@.parent =~= blank(text).parent);
            assert(ctx@.rank =~= blank(text).rank);
        }
        ctx
    }

    /// One step of the search for the place of `node`. Where `p` has a child
    /// on the given side, moves `p` there and returns `false`. Where it has
    /// none, hangs `node` there as a leaf and returns `true`.
    pub fn insertion_should_return(&mut self, node: u32, p: &mut u32, is_right: bool) -> (attached:
        bool)
        requires
            old(self)@.wf(),
            node < LZSS_WINDOW_SIZE,
            !old(self)@.contains(node as int),
            old(self)@.left[node as int] == LZSS_NODE_NULL,
            old(self)@.right[node as int] == LZSS_NODE_NULL,
            old(self)@.search_at(node as int, *old(p) as int, is_right),
        ensures
            attached == (old(self)@.child(*old(p) as int, is_right) == LZSS_NODE_NULL),
            final(self).match_position == old(self).match_position,
            final(self).match_length == old(self).match_length,
            !attached ==> {
                &&& final(self)@ == old(self)@
                &&& *final(p) == old(self)@.child(*old(p) as int, is_right)
                &&& final(self)@.search_at(node as int, *final(p) as int, is_right)
                &&& final(self)@.contains(*final(p) as int)
                &&& old(self)@.contains(*old(p) as int) ==> final(self)@.rank[*final(p) as int]
                    < final(self)@.rank[*old(p) as int]
            },
            attached ==> {
                &&& *final(p) == *old(p)
                &&& final(self)@ == old(self)@.attach(node as int, *old(p) as int, is_right)
                &&& final(self)@.wf()
            },
    {
        let at = *p;
        proof {
            if self@.contains(at as int) {
                assert(self@.down_ok(at as int));
            } else {
                assert(self@.link_ok(at as int, self@.right[at as int] as int));
            }
        }
        let next = if is_right {
            self.right[at as usize]
        } else {
            self.left[at as usize]
        };
        if next != LZSS_NODE_NULL {
            *p = next;
            proof {
                assert(self@.up_ok(next as int));
            }
            return false;
        }
        if is_right {
            self.right[at as usize] = node;
        } else {
            self.left[at as usize] = node;
        }
        self.parent[node as usize] = at;
        proof {
            let before = old(self)@;
            self.rank@ = before.attach(node as int, at as int, is_right).rank;
            before.lemma_attach(node as int, at as int, is_right);
            assert(self@ =~= before.attach(node as int, at as int, is_right));
        }
        true
    }

    /// Inserts window position `node` into the tree of its first byte and
    /// records the longest match met on the way down.
    ///
    /// The search starts at the root slot and at each node compares the
    /// bytes after the first: it notes the node if it agrees with `node`
    /// over more places than any before it, and goes right where the first
    /// differing byte of `node` is the larger, left where it is the smaller.
    /// At an empty link `node` becomes a leaf. A node that agrees over all
    /// `LZSS_MATCH_MAX` places is replaced: `node` takes over its parent and
    /// its children, and the older position leaves the tree.
    pub fn insert_node(&mut self, node: u32)
        requires
            old(self)@.wf(),
            node < LZSS_WINDOW_SIZE,
            !old(self)@.contains(node as int),
        ensures
            final(self)@ == old(self)@.insert(
                node as int,
                old(self)@.find(node as int, old(self).match_position as int),
            ),
            final(self).match_length == old(self)@.find(
                node as int,
                old(self).match_position as int,
            ).length,
            final(self).match_position == old(self)@.find(
                node as int,
                old(self).match_position as int,
            ).position,
            final(self)@.wf(),
            final(self)@.text == old(self)@.text,
            final(self)@.contains(node as int),
            final(self).match_length <= LZSS_MATCH_MAX,
            final(self).match_length > 0 ==> {
                &&& old(self)@.contains(final(self).match_position as int)
                &&& common_prefix(
                    final(self)@.text,
                    node as int,
                    final(self).match_position as int,
                    final(self).match_length as int,
                )
            },
            forall|x: int|
                x != node ==> (#[trigger] final(self)@.contains(x) <==> old(self)@.contains(x) && !(
                final(self).match_length == LZSS_MATCH_MAX && x == final(self).match_position)),
            old(self)@.is_ordered() ==> final(self)@.is_ordered() && old(self)@.longest(
                node as int,
                final(self).match_length as int,
            ),
    {
        let mut go_right = true;
        self.match_length = 0;
        let mut p: u32 = LZSS_WINDOW_SIZE + 1 + self.text_buffer[node as usize] as u32;
        self.right[node as usize] = LZSS_NODE_NULL;
        self.left[node as usize] = LZSS_NODE_NULL;
        let ghost base = self@;
        let ghost target = old(self)@.find(node as int, old(self).match_position as int);
        proof {
            if old(self)@.is_ordered() {
                old(self)@.lemma_insert_ordered(node as int, old(self).match_position as int);
            }
            old(self)@.lemma_cleared(node as int);
            assert(base =~= old(self)@.cleared(node as int));
        }
        loop
            invariant_except_break
                base.search_at(node as int, p as int, go_right),
                self.match_length < LZSS_MATCH_MAX,
                base.search(
                    node as int,
                    p as int,
                    go_right,
                    self.match_length as int,
                    self.match_position as int,
                ) == target,
            invariant
                self@ == base,
                node < LZSS_WINDOW_SIZE,
                target == old(self)@.find(node as int, old(self).match_position as int),
                old(self)@.is_ordered() ==> old(self)@.insert(node as int, target).is_ordered()
                    && old(self)@.longest(node as int, target.length),
                base.wf(),
                base == old(self)@.cleared(node as int),
                !base.contains(node as int),
                self.match_length > 0 ==> {
                    &&& base.contains(self.match_position as int)
                    &&& common_prefix(
                        base.text,
                        node as int,
                        self.match_position as int,
                        self.match_length as int,
                    )
                },
            ensures
                target == (Found {
                    place: p as int,
                    is_right: go_right,
                    attached: false,
                    length: LZSS_MATCH_MAX as int,
                    position: p as int,
                }),
                base.contains(p as int),
                base.text[p as int] == base.text[node as int],
                self.match_position == p,
                self.match_length == LZSS_MATCH_MAX,
                common_prefix(base.text, node as int, p as int, LZSS_MATCH_MAX as int),
            decreases
                    (if is_root(p as int) {
                        1int
                    } else {
                        0int
                    }),
                    base.rank[p as int],
        {
            let ghost from = p as int;
            let ghost side = go_right;
            assert(base.search(
                node as int,
                from,
                side,
                self.match_length as int,
                self.match_position as int,
            ) == target);
            if self.insertion_should_return(node, &mut p, go_right) {
                return ;
            }
            let mut i: u32 = 1;
            while i < LZSS_MATCH_MAX && self.text_buffer[(node + i) as usize]
                == self.text_buffer[(p + i) as usize]
                invariant
                    1 <= i <= LZSS_MATCH_MAX,
                    node < LZSS_WINDOW_SIZE,
                    p < LZSS_WINDOW_SIZE,
                    self@ == base,
                    base.text[p as int] == base.text[node as int],
                    agree_len(base.text, node as int, p as int, i as int) == agree_len(
                        base.text,
                        node as int,
                        p as int,
                        1,
                    ),
                    forall|k: int|
                        0 <= k < i ==> #[trigger] same_at(base.text, node as int, p as int, k),
                decreases LZSS_MATCH_MAX - i,
            {
                proof {
                    assert(same_at(base.text, node as int, p as int, i as int));
                }
                i += 1;
            }
            assert(i == agree_len(base.text, node as int, p as int, 1));
            if i < LZSS_MATCH_MAX {
                go_right = self.text_buffer[(node + i) as usize] > self.text_buffer[(p
                    + i) as usize];
            }
            if i > self.match_length {
                self.match_position = p;
                self.match_length = i;
                if i >= LZSS_MATCH_MAX {
                    break ;
                }
            }
        }
        let above = self.parent[p as usize];
        let below_left = self.left[p as usize];
        let below_right = self.right[p as usize];
        proof {
            assert(base.up_ok(p as int) && base.down_ok(p as int));
            if !is_root(above as int) {
                assert(base.contains(above as int));
            }
        }
        self.parent[node as usize] = above;
        self.left[node as usize] = below_left;
        self.right[node as usize] = below_right;
        self.parent[below_left as usize] = node;
        self.parent[below_right as usize] = node;
        if self.right[above as usize] == p {
            self.right[above as usize] = node;
        } else {
            self.left[above as usize] = node;
        }
        self.parent[p as usize] = LZSS_NODE_NULL;
        proof {
            self.rank@ = base.replace(node as int, p as int).rank;
            base.lemma_replace(node as int, p as int);
            assert(self@ =~= base.replace(node as int, p as int));
        }
    }

    /// Takes window position `node` out of its tree; a position that is in
    /// no tree is left alone.
    pub fn delete_node(&mut self, node: u32)
        requires
            old(self)@.wf(),
            node < LZSS_WINDOW_SIZE,
        ensures
            final(self)@ == old(self)@.remove(node as int),
            final(self)@.wf(),
            final(self).match_position == old(self).match_position,
            final(self).match_length == old(self).match_length,
            !final(self)@.contains(node as int),
            forall|x: int|
                x != node ==> (#[trigger] final(self)@.contains(x) <==> old(self)@.contains(x)),
            old(self)@.is_ordered() ==> final(self)@.is_ordered(),
    {
        let ghost base = self@;
        proof {
            base.lemma_remove(node as int);
            if base.is_ordered() {
                base.lemma_remove_ordered(node as int);
            }
        }
        if self.parent[node as usize] == LZSS_NODE_NULL {
            return ;
        }
        proof {
            assert(base.up_ok(node as int) && base.down_ok(node as int));
            if !is_root(base.parent[node as int] as int) {
                assert(base.contains(base.parent[node as int] as int));
            }
        }
        let mut q: u32;
        if self.right[node as usize] == LZSS_NODE_NULL {
            q = self.left[node as usize];
        } else if self.left[node as usize] == LZSS_NODE_NULL {
            q = self.right[node as usize];
        } else {
            q = self.left[node as usize];
            let ghost first = q as int;
            proof {
                assert(base.contains(first));
                assert(base.up_ok(first) && base.down_ok(first));
                base.lemma_rightmost(first);
            }
            if self.right[q as usize] != LZSS_NODE_NULL {
                loop
                    invariant_except_break
                        base.right[q as int] != LZSS_NODE_NULL,
                    invariant
                        self@ == base,
                        base.wf(),
                        base.contains(q as int),
                        base.rightmost(q as int) == base.rightmost(first),
                    ensures
                        q == base.rightmost(first),
                    decreases base.rank[q as int],
                {
                    proof {
                        assert(base.down_ok(q as int));
                        assert(base.up_ok(base.right[q as int] as int));
                    }
                    q = self.right[q as usize];
                    if self.right[q as usize] == LZSS_NODE_NULL {
                        break ;
                    }
                }
                proof {
                    assert(base.up_ok(q as int) && base.down_ok(q as int));
                }
                let over = self.parent[q as usize];
                let under = self.left[q as usize];
                self.right[over as usize] = under;
                self.parent[under as usize] = over;
                let first_left = self.left[node as usize];
                self.left[q as usize] = first_left;
                self.parent[first_left as usize] = q;
                assert(self@ =~= base.detach(node as int, q as int));
            }
            let first_right = self.right[node as usize];
            self.right[q as usize] = first_right;
            self.parent[first_right as usize] = q;
            proof {
                self.rank@ = self.rank@.insert(q as int, self.rank@[node as int]);
            }
        }
        let ghost middle = self@;
        let above = self.parent[node as usize];
        self.parent[q as usize] = above;
        if self.right[above as usize] == node {
            self.right[above as usize] = q;
        } else {
            self.left[above as usize] = q;
        }
        self.parent[node as usize] = LZSS_NODE_NULL;
        assert(self@ =~= middle.relink(node as int, q as int));
    }
}

} // verus!
