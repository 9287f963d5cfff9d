//! Arena tree with streaming aggregation.
//!
//! Nodes live in one vector indexed by the scanner's dense ids. Each node
//! links to its parent, its first child and its next sibling. Directories
//! carry aggregates: the bytes and node count of their whole subtree.
//!
//! The model behind the contracts: a slot is *live* when it holds a node
//! linked into the tree (the root, or a node with a parent). Every live node
//! has a depth (the root's is 0, a child's is its parent's plus one), the
//! bytes attributed to the node itself (`own_size`), and the ordered list of
//! its children. `under(n, m)` says that `n` is `m` or one of its ancestors.
//! A node's `size` is the sum of `own_size` over the live nodes under it,
//! `allocated` likewise, and `items` counts the live nodes strictly below it.

use vstd::prelude::*;
use vstd::string::StringSliceAdditionalSpecFns;
use vstd::utf8::*;

use crate::entry::{EntryBatch, EntryFlags, FileEntry, name_bytes, name_range_ok};
use crate::interner::{NameInterner, NameRef, ref_bytes, ref_ok};
use crate::sums::{lemma_sum_add, lemma_sum_count_bound, lemma_sum_ext, lemma_sum_le, lemma_sum_nonneg, lemma_sum_point, lemma_sum_single, lemma_sum_zero, lemma_sum_zero_tail, sum_to};
use crate::text::bytes_of;

verus! {

pub type NodeId = u32;

/// The absent link.
pub const NONE: u32 = 4294967295;

/// 48 bytes; directories carry aggregates, files carry their own size.
#[derive(Clone, Copy, Debug)]
pub struct Node {
    pub name_off: u32,
    pub name_len: u16,
    pub flags: EntryFlags,
    pub parent: u32,
    pub first_child: u32,
    pub next_sibling: u32,
    /// Directories: descendant count. Files: 0.
    pub items: u32,
    pub size: u64,
    pub allocated: u64,
    pub mtime: i64,
}

impl Node {
    /// An empty slot: no name, no flags, no links, zero totals.
    pub open spec fn spec_vacant() -> Node {
        Node {
            name_off: 0,
            name_len: 0,
            flags: EntryFlags(0),
            parent: NONE,
            first_child: NONE,
            next_sibling: NONE,
            items: 0,
            size: 0,
            allocated: 0,
            mtime: 0,
        }
    }

    fn vacant() -> (r: Node)
        ensures
            r == Node::spec_vacant(),
    {
        Node {
            name_off: 0,
            name_len: 0,
            flags: EntryFlags(0),
            parent: NONE,
            first_child: NONE,
            next_sibling: NONE,
            items: 0,
            size: 0,
            allocated: 0,
            mtime: 0,
        }
    }

    pub open spec fn name_ref(&self) -> NameRef {
        NameRef { off: self.name_off, len: self.name_len }
    }

    pub fn is_dir(&self) -> (r: bool)
        ensures
            r == self.flags.spec_is_dir(),
    {
        self.flags.is_dir()
    }

    pub fn parent(&self) -> (r: Option<NodeId>)
        ensures
            r == (if self.parent == NONE { None } else { Some(self.parent) }),
    {
        if self.parent != NONE {
            Some(self.parent)
        } else {
            None
        }
    }

    fn get_name_ref(&self) -> (r: NameRef)
        ensures
            r == self.name_ref(),
    {
        NameRef { off: self.name_off, len: self.name_len }
    }
}

/// Totals freed by removing a subtree.
#[derive(Clone, Copy, Debug, Default, PartialEq, Eq, Structural)]
pub struct Removed {
    pub size: u64,
    pub allocated: u64,
    pub files: u64,
    pub dirs: u64,
}

impl Removed {
    pub fn nodes(&self) -> (r: u64)
        requires
            self.files + self.dirs <= u64::MAX,
        ensures
            r == self.files + self.dirs,
    {
        self.files + self.dirs
    }
}

pub struct Tree {
    nodes: Vec<Node>,
    names: NameInterner,
    /// Bytes attributed to each slot itself: a file's size; for a directory,
    /// its entry's size plus that of directory entries removed below it.
    own: Ghost<Seq<nat>>,
    own_alloc: Ghost<Seq<nat>>,
    depth: Ghost<Seq<nat>>,
    /// The children of each slot, in list order.
    kids: Ghost<Seq<Seq<u32>>>,
}

impl Tree {
    pub const ROOT: NodeId = 0;

    // ----- the model -----

    pub closed spec fn slots(&self) -> nat {
        self.nodes@.len()
    }

    pub closed spec fn node_view(&self, m: int) -> Node {
        self.nodes@[m]
    }

    /// Slot `m` holds a node linked into the tree.
    pub closed spec fn live(&self, m: int) -> bool {
        0 <= m < self.nodes@.len() && (m == 0 || self.nodes@[m].parent != NONE)
    }

    pub closed spec fn parent_of(&self, m: int) -> int {
        self.nodes@[m].parent as int
    }

    pub closed spec fn depth_of(&self, m: int) -> nat {
        self.depth@[m]
    }

    pub closed spec fn own_size(&self, m: int) -> nat {
        self.own@[m]
    }

    pub closed spec fn own_allocated(&self, m: int) -> nat {
        self.own_alloc@[m]
    }

    pub closed spec fn children_of(&self, m: int) -> Seq<u32> {
        self.kids@[m]
    }

    /// The stored name of slot `m`, as bytes.
    pub closed spec fn name_view(&self, m: int) -> Seq<u8> {
        ref_bytes(self.names.bytes_view(), self.nodes@[m].name_ref())
    }

    pub closed spec fn name_bytes_view(&self) -> Seq<u8> {
        self.names.bytes_view()
    }

    /// The name lookup: name hash to the references stored under it.
    pub closed spec fn name_table(&self) -> Map<u64, Vec<NameRef>> {
        self.names.table()
    }

    /// The names the lookup knows, each with its reference.
    pub closed spec fn name_index(&self) -> Map<Seq<u8>, NameRef> {
        self.names.index_view()
    }

    pub open spec fn is_dir_at(&self, m: int) -> bool {
        self.node_view(m).flags.spec_is_dir()
    }

    /// `m`'s ancestor `j` levels up.
    pub closed spec fn up(&self, m: int, j: nat) -> int
        decreases j,
    {
        if j == 0 {
            m
        } else {
            self.up(self.nodes@[m].parent as int, (j - 1) as nat)
        }
    }

    /// `n` is the live node `m` or one of its ancestors.
    pub open spec fn under(&self, n: int, m: int) -> bool {
        &&& self.live(m)
        &&& self.depth_of(n) <= self.depth_of(m)
        &&& self.up(m, (self.depth_of(m) - self.depth_of(n)) as nat) == n
    }

    pub open spec fn size_term(&self, n: int) -> spec_fn(int) -> int {
        |m: int| if self.under(n, m) { self.own_size(m) as int } else { 0 }
    }

    pub open spec fn alloc_term(&self, n: int) -> spec_fn(int) -> int {
        |m: int| if self.under(n, m) { self.own_allocated(m) as int } else { 0 }
    }

    pub open spec fn count_term(&self, n: int) -> spec_fn(int) -> int {
        |m: int| if self.under(n, m) { 1int } else { 0 }
    }

    /// Bytes of the subtree at `n`.
    pub open spec fn subtree_size(&self, n: int) -> int {
        sum_to(self.size_term(n), self.slots() as int)
    }

    pub open spec fn subtree_allocated(&self, n: int) -> int {
        sum_to(self.alloc_term(n), self.slots() as int)
    }

    /// Live nodes in the subtree at `n`, `n` included.
    pub open spec fn subtree_count(&self, n: int) -> int {
        sum_to(self.count_term(n), self.slots() as int)
    }

    /// Bytes of the whole tree.
    pub open spec fn total_size(&self) -> int {
        sum_to(|m: int| self.own_size(m) as int, self.slots() as int)
    }

    pub open spec fn total_allocated(&self) -> int {
        sum_to(|m: int| self.own_allocated(m) as int, self.slots() as int)
    }

    // ----- the invariant -----

    spec fn link_ok(&self, m: int) -> bool {
        let p = self.nodes@[m].parent as int;
        &&& p < self.nodes@.len()
        &&& self.live(p)
        &&& self.nodes@[p].flags.spec_is_dir()
        &&& self.depth@[m] == self.depth@[p] + 1
        &&& self.kids@[p].contains(m as u32)
    }

    /// A vacant slot: all fields empty, but for error marks left on it.
    spec fn vacant_ok(&self, m: int) -> bool {
        &&& (Node { flags: EntryFlags(0), ..self.nodes@[m] }) == Node::spec_vacant()
        &&& !self.nodes@[m].flags.spec_is_dir()
        &&& self.own@[m] == 0
        &&& self.own_alloc@[m] == 0
        &&& self.kids@[m].len() == 0
    }

    /// Slot `m` is consistent: linked under a live directory, or vacant.
    spec fn slot_ok(&self, m: int) -> bool {
        &&& ref_ok(self.names.bytes_view(), self.nodes@[m].name_ref())
        &&& (m != 0 ==> if self.nodes@[m].parent != NONE { self.link_ok(m) } else { self.vacant_ok(m) })
    }

    /// The child list of `p` is the chain first_child -> next_sibling.
    spec fn list_ok(&self, p: int) -> bool {
        let ks = self.kids@[p];
        &&& self.nodes@[p].first_child == (if ks.len() == 0 { NONE } else { ks[0] })
        &&& ks.no_duplicates()
        &&& forall|i: int| 0 <= i < ks.len() ==> #[trigger] self.kid_ok(p, ks, i)
    }

    spec fn kid_ok(&self, p: int, ks: Seq<u32>, i: int) -> bool {
        let c = ks[i] as int;
        &&& 0 < c < self.nodes@.len()
        &&& self.nodes@[c].parent == p
        &&& self.nodes@[c].next_sibling == (if i + 1 < ks.len() { ks[i + 1] } else { NONE })
    }

    /// Everything but the aggregates.
    spec fn structure_ok(&self) -> bool {
        let len = self.nodes@.len();
        &&& len <= NONE
        &&& self.names.wf()
        &&& self.own@.len() == len
        &&& self.own_alloc@.len() == len
        &&& self.depth@.len() == len
        &&& self.kids@.len() == len
        &&& len > 0 ==> {
            &&& self.nodes@[0].parent == NONE
            &&& self.nodes@[0].next_sibling == NONE
            &&& self.depth@[0] == 0
        }
        &&& forall|m: int| 0 <= m < len ==> #[trigger] self.slot_ok(m)
        &&& forall|p: int| self.live(p) ==> #[trigger] self.list_ok(p)
    }

    /// `n`'s stored totals equal its subtree's.
    spec fn agg_ok(&self, n: int) -> bool {
        &&& self.nodes@[n].size == self.subtree_size(n)
        &&& self.nodes@[n].allocated == self.subtree_allocated(n)
        &&& self.nodes@[n].items + 1 == self.subtree_count(n)
    }

    pub closed spec fn wf(&self) -> bool {
        &&& self.structure_ok()
        &&& forall|n: int| self.live(n) ==> #[trigger] self.agg_ok(n)
    }

    // ----- lemmas on ancestry -----

    proof fn lemma_up_last(&self, m: int, j: nat)
        ensures
            self.up(m, j + 1) == self.nodes@[self.up(m, j)].parent as int,
        decreases j,
    {
        let p = self.nodes@[m].parent as int;
        assert(self.up(m, j + 1) == self.up(p, j));
        if j > 0 {
            self.lemma_up_last(p, (j - 1) as nat);
            assert(self.up(m, j) == self.up(p, (j - 1) as nat));
            assert((j - 1) as nat + 1 == j);
        } else {
            assert(self.up(p, 0) == p);
        }
    }

    proof fn lemma_up_add(&self, m: int, i: nat, j: nat)
        ensures
            self.up(m, i + j) == self.up(self.up(m, i), j),
        decreases i,
    {
        if i > 0 {
            self.lemma_up_add(self.nodes@[m].parent as int, (i - 1) as nat, j);
        }
    }

    /// The ancestors of a live node are live, one level shallower each step.
    proof fn lemma_up_live(&self, m: int, j: nat)
        requires
            self.structure_ok(),
            self.live(m),
            j <= self.depth@[m],
        ensures
            self.live(self.up(m, j)),
            self.depth@[self.up(m, j)] == self.depth@[m] - j,
        decreases j,
    {
        if j > 0 {
            assert(self.slot_ok(m));
            if m == 0 {
                assert(false);
            }
            self.lemma_up_live(self.nodes@[m].parent as int, (j - 1) as nat);
        }
    }

    /// A live node of depth 0 is the root.
    proof fn lemma_depth_zero(&self, m: int)
        requires
            self.structure_ok(),
            self.live(m),
            self.depth@[m] == 0,
        ensures
            m == 0,
    {
        if m != 0 {
            assert(self.slot_ok(m));
        }
    }

    proof fn lemma_under_self(&self, n: int)
        requires
            self.live(n),
        ensures
            self.under(n, n),
    {
    }

    /// The root is above every live node.
    proof fn lemma_under_root(&self, m: int)
        requires
            self.structure_ok(),
            self.live(m),
        ensures
            self.under(0, m),
    {
        self.lemma_up_live(m, self.depth@[m]);
        self.lemma_depth_zero(self.up(m, self.depth@[m]));
    }

    proof fn lemma_under_live(&self, n: int, m: int)
        requires
            self.structure_ok(),
            self.under(n, m),
        ensures
            self.live(n),
    {
        self.lemma_up_live(m, (self.depth@[m] - self.depth@[n]) as nat);
    }

    proof fn lemma_under_trans(&self, a: int, b: int, c: int)
        requires
            self.structure_ok(),
            self.under(a, b),
            self.under(b, c),
        ensures
            self.under(a, c),
    {
        let db = self.depth@[b];
        let dc = self.depth@[c];
        let da = self.depth@[a];
        self.lemma_up_add(c, (dc - db) as nat, (db - da) as nat);
        assert((dc - db) as nat + (db - da) as nat == (dc - da) as nat);
    }

    /// Two nodes above a third are comparable.
    proof fn lemma_under_comparable(&self, a: int, b: int, c: int)
        requires
            self.structure_ok(),
            self.under(a, c),
            self.under(b, c),
        ensures
            self.under(a, b) || self.under(b, a),
    {
        let da = self.depth@[a];
        let db = self.depth@[b];
        let dc = self.depth@[c];
        if da <= db {
            self.lemma_up_add(c, (dc - db) as nat, (db - da) as nat);
            assert((dc - db) as nat + (db - da) as nat == (dc - da) as nat);
            self.lemma_under_live(b, c);
        } else {
            self.lemma_up_add(c, (dc - da) as nat, (da - db) as nat);
            assert((dc - da) as nat + (da - db) as nat == (dc - db) as nat);
            self.lemma_under_live(a, c);
        }
    }

    /// A node's parent is above it.
    proof fn lemma_under_parent(&self, m: int)
        requires
            self.structure_ok(),
            self.live(m),
            m != 0,
        ensures
            self.under(self.nodes@[m].parent as int, m),
    {
        assert(self.slot_ok(m));
        assert(self.up(m, 1) == self.up(self.nodes@[m].parent as int, 0));
    }

    /// Anything strictly above `m` is above its parent.
    proof fn lemma_under_strict(&self, n: int, m: int)
        requires
            self.structure_ok(),
            self.under(n, m),
            n != m,
        ensures
            m != 0,
            self.under(n, self.nodes@[m].parent as int),
    {
        if m == 0 {
            self.lemma_up_live(m, 0);
            assert(self.depth@[m] == 0) by {
                assert(self.depth@[0] == 0);
            }
        }
        assert(self.slot_ok(m));
        let d = (self.depth@[m] - self.depth@[n]) as nat;
        assert(d > 0);
        assert(self.up(m, d) == self.up(self.nodes@[m].parent as int, (d - 1) as nat));
    }

    // ----- two trees of the same shape -----

    /// Every node live in `self` is live in `t`, with the same parent and depth.
    spec fn shape_kept(&self, t: &Tree) -> bool {
        forall|x: int| #[trigger] self.live(x) ==> {
            &&& t.live(x)
            &&& t.nodes@[x].parent == self.nodes@[x].parent
            &&& t.depth@[x] == self.depth@[x]
        }
    }

    proof fn lemma_up_stable(&self, t: &Tree, m: int, j: nat)
        requires
            self.structure_ok(),
            self.shape_kept(t),
            self.live(m),
            j <= self.depth@[m],
        ensures
            t.up(m, j) == self.up(m, j),
        decreases j,
    {
        if j > 0 {
            assert(self.slot_ok(m));
            if m == 0 {
                assert(false);
            }
            assert(self.live(m));
            self.lemma_up_stable(t, self.nodes@[m].parent as int, (j - 1) as nat);
        }
    }

    /// Ancestry among nodes live in `self` reads the same in `t`.
    proof fn lemma_under_stable(&self, t: &Tree, n: int, m: int)
        requires
            self.structure_ok(),
            self.shape_kept(t),
            self.live(m),
        ensures
            t.under(n, m) == self.under(n, m),
    {
        assert(self.live(m));
        let dm = self.depth@[m];
        if self.live(n) {
            assert(self.live(n));
            if self.depth@[n] <= dm {
                self.lemma_up_stable(t, m, (dm - self.depth@[n]) as nat);
            }
        } else {
            if t.depth@[n] <= dm {
                let k = (dm - t.depth@[n]) as nat;
                self.lemma_up_stable(t, m, k);
                self.lemma_up_live(m, k);
            }
            if self.under(n, m) {
                self.lemma_under_live(n, m);
            }
        }
    }

    /// `t` differs from `self` at most in the totals of live nodes.
    spec fn totals_only(&self, t: &Tree) -> bool {
        &&& t.nodes@.len() == self.nodes@.len()
        &&& t.names == self.names
        &&& t.own == self.own
        &&& t.own_alloc == self.own_alloc
        &&& t.depth == self.depth
        &&& t.kids == self.kids
        &&& forall|m: int| 0 <= m < self.nodes@.len() ==> #[trigger] self.same_but_totals(t, m)
    }

    spec fn same_but_totals(&self, t: &Tree, m: int) -> bool {
        let a = self.nodes@[m];
        let b = t.nodes@[m];
        &&& b.name_off == a.name_off
        &&& b.name_len == a.name_len
        &&& b.flags == a.flags
        &&& b.parent == a.parent
        &&& b.first_child == a.first_child
        &&& b.next_sibling == a.next_sibling
        &&& b.mtime == a.mtime
        &&& !self.live(m) ==> b == a
    }

    proof fn lemma_totals_only(&self, t: &Tree)
        requires
            self.structure_ok(),
            self.totals_only(t),
        ensures
            t.structure_ok(),
            self.shape_kept(t),
            t.shape_kept(self),
            forall|m: int| #[trigger] t.live(m) == self.live(m),
            forall|n: int| #[trigger] t.subtree_size(n) == self.subtree_size(n),
            forall|n: int| #[trigger] t.subtree_allocated(n) == self.subtree_allocated(n),
            forall|n: int| #[trigger] t.subtree_count(n) == self.subtree_count(n),
            t.total_size() == self.total_size(),
            t.total_allocated() == self.total_allocated(),
    {
        let len = self.nodes@.len();
        assert forall|m: int| #[trigger] t.live(m) == self.live(m) by {
            if 0 <= m < len {
                assert(self.same_but_totals(t, m));
            }
        }
        assert forall|m: int| 0 <= m < len implies #[trigger] t.slot_ok(m) by {
            assert(self.slot_ok(m));
            assert(self.same_but_totals(t, m));
            if m != 0 && self.nodes@[m].parent != NONE {
                let p = self.nodes@[m].parent as int;
                assert(self.same_but_totals(t, p));
            }
        }
        assert forall|p: int| t.live(p) implies #[trigger] t.list_ok(p) by {
            assert(self.live(p));
            assert(self.list_ok(p));
            assert(self.same_but_totals(t, p));
            let ks = self.kids@[p];
            assert forall|i: int| 0 <= i < ks.len() implies #[trigger] t.kid_ok(p, ks, i) by {
                assert(self.kid_ok(p, ks, i));
                assert(self.same_but_totals(t, ks[i] as int));
            }
        }
        if len > 0 {
            assert(self.same_but_totals(t, 0));
        }
        assert(t.structure_ok());
        assert forall|x: int| #[trigger] self.live(x) implies t.live(x) && t.nodes@[x].parent == self.nodes@[x].parent
            && t.depth@[x] == self.depth@[x] by {
            assert(self.same_but_totals(t, x));
        }
        assert forall|x: int| #[trigger] t.live(x) implies self.live(x) && self.nodes@[x].parent == t.nodes@[x].parent
            && self.depth@[x] == t.depth@[x] by {
            assert(self.same_but_totals(t, x));
        }
        assert forall|n: int| #[trigger] t.subtree_size(n) == self.subtree_size(n) by {
            self.lemma_same_sums(t, n);
        }
        assert forall|n: int| #[trigger] t.subtree_allocated(n) == self.subtree_allocated(n) by {
            self.lemma_same_sums(t, n);
        }
        assert forall|n: int| #[trigger] t.subtree_count(n) == self.subtree_count(n) by {
            self.lemma_same_sums(t, n);
        }
        lemma_sum_ext(|m: int| t.own_size(m) as int, |m: int| self.own_size(m) as int, len as int);
        lemma_sum_ext(|m: int| t.own_allocated(m) as int, |m: int| self.own_allocated(m) as int, len as int);
    }

    /// With the same shape and own sizes, subtree sums agree.
    proof fn lemma_same_sums(&self, t: &Tree, n: int)
        requires
            self.structure_ok(),
            self.shape_kept(t),
            t.shape_kept(self),
            t.nodes@.len() == self.nodes@.len(),
            t.own == self.own,
            t.own_alloc == self.own_alloc,
            forall|m: int| #[trigger] t.live(m) == self.live(m),
        ensures
            t.subtree_size(n) == self.subtree_size(n),
            t.subtree_allocated(n) == self.subtree_allocated(n),
            t.subtree_count(n) == self.subtree_count(n),
    {
        let len = self.nodes@.len();
        assert forall|m: int| 0 <= m < len implies #[trigger] t.under(n, m) == self.under(n, m) by {
            if self.live(m) {
                self.lemma_under_stable(t, n, m);
            } else {
                assert(!t.live(m));
            }
        }
        assert forall|m: int| 0 <= m < len implies #[trigger] (t.size_term(n))(m) == (self.size_term(n))(m) by {
            assert(t.under(n, m) == self.under(n, m));
        }
        lemma_sum_ext(t.size_term(n), self.size_term(n), len as int);
        assert forall|m: int| 0 <= m < len implies #[trigger] (t.alloc_term(n))(m) == (self.alloc_term(n))(m) by {
            assert(t.under(n, m) == self.under(n, m));
        }
        lemma_sum_ext(t.alloc_term(n), self.alloc_term(n), len as int);
        assert forall|m: int| 0 <= m < len implies #[trigger] (t.count_term(n))(m) == (self.count_term(n))(m) by {
            assert(t.under(n, m) == self.under(n, m));
        }
        lemma_sum_ext(t.count_term(n), self.count_term(n), len as int);
    }

    /// A live node's subtree lies within the root's.
    proof fn lemma_subtree_le_root(&self, n: int)
        requires
            self.structure_ok(),
            self.live(n),
        ensures
            self.subtree_size(n) <= self.total_size(),
            self.subtree_allocated(n) <= self.total_allocated(),
            self.subtree_count(n) <= self.slots(),
            self.subtree_count(n) >= 1,
    {
        let len = self.nodes@.len() as int;
        lemma_sum_le(self.size_term(n), |m: int| self.own_size(m) as int, len);
        lemma_sum_le(self.alloc_term(n), |m: int| self.own_allocated(m) as int, len);
        lemma_sum_count_bound(self.count_term(n), len);
        assert forall|m: int| 0 <= m < len implies (#[trigger] (self.count_term(n))(m)) >= 0 by {}
        lemma_sum_nonneg(self.count_term(n), len);
        assert(self.under(n, n));
        let f = self.count_term(n);
        assert(f(n) == 1);
        let g = |m: int| if m == n { 0int } else { f(m) };
        lemma_sum_point(g, f, n, len);
        assert forall|m: int| 0 <= m < len implies #[trigger] g(m) >= 0 by {}
        lemma_sum_nonneg(g, len);
    }

    // ----- reading -----

    fn new() -> (t: Tree)
        ensures
            t.wf(),
            t.slots() == 0,
            t.name_bytes_view() == Seq::<u8>::empty(),
    {
        Tree {
            nodes: Vec::new(),
            names: NameInterner::new(),
            own: Ghost(Seq::empty()),
            own_alloc: Ghost(Seq::empty()),
            depth: Ghost(Seq::empty()),
            kids: Ghost(Seq::empty()),
        }
    }

    pub fn len(&self) -> (r: usize)
        ensures
            r == self.slots(),
    {
        self.nodes.len()
    }

    pub fn is_empty(&self) -> (r: bool)
        ensures
            r == (self.slots() == 0),
    {
        self.nodes.len() == 0
    }

    pub fn node(&self, id: NodeId) -> (r: &Node)
        requires
            id < self.slots(),
        ensures
            *r == self.node_view(id as int),
    {
        &self.nodes[id as usize]
    }

    /// True for nodes currently linked into the tree; stale ids fail.
    /// (A childless root has all links absent and is still live.)
    pub fn is_live(&self, id: NodeId) -> (r: bool)
        ensures
            r == self.live(id as int),
    {
        let i = id as usize;
        if i < self.nodes.len() {
            id == Self::ROOT || self.nodes[i].parent != NONE
        } else {
            false
        }
    }

    pub fn name(&self, id: NodeId) -> (r: &str)
        requires
            self.wf(),
            id < self.slots(),
        ensures
            r.spec_bytes() == self.name_view(id as int),
    {
        proof {
            assert(self.slot_ok(id as int));
        }
        self.names.get(self.nodes[id as usize].get_name_ref())
    }

    /// Total bytes of unique name data stored.
    pub fn name_bytes_used(&self) -> (r: usize)
        ensures
            r == self.name_bytes_view().len(),
    {
        self.names.bytes_used()
    }

    // ----- growing -----

    /// Totals pending on the ancestors of `p` (those of depth at most `d`):
    /// each of them still lacks `s` bytes, `a` allocated bytes and one item.
    spec fn agg_upto(&self, t0: &Tree, n: int, p: int, s: int, a: int, d: int) -> bool {
        let hit = t0.under(n, p) && t0.depth@[n] <= d;
        &&& self.nodes@[n].size + (if hit { s } else { 0 }) == t0.subtree_size(n)
        &&& self.nodes@[n].allocated + (if hit { a } else { 0 }) == t0.subtree_allocated(n)
        &&& self.nodes@[n].items + 1 + (if hit { 1int } else { 0 }) == t0.subtree_count(n)
    }

    /// Adds one node's totals to `p` and each of its ancestors.
    fn propagate(&mut self, p: u32, s: u64, a: u64)
        requires
            old(self).structure_ok(),
            old(self).live(p as int),
            forall|n: int| old(self).live(n) ==> #[trigger] old(self).agg_upto(old(self), n, p as int, s as int, a as int, old(self).depth@[p as int] as int),
            old(self).total_size() <= u64::MAX,
            old(self).total_allocated() <= u64::MAX,
        ensures
            final(self).wf(),
            old(self).totals_only(final(self)),
    {
        let ghost t0: Tree = *self;
        let mut cur = p;
        proof {
            assert forall|m: int| 0 <= m < t0.nodes@.len() implies #[trigger] t0.same_but_totals(self, m) by {}
            t0.lemma_under_self(p as int);
        }
        loop
            invariant_except_break
                forall|n: int| t0.live(n) ==> #[trigger] self.agg_upto(&t0, n, p as int, s as int, a as int, t0.depth@[cur as int] as int),
            invariant
                t0.structure_ok(),
                t0.totals_only(self),
                t0.live(cur as int),
                t0.under(cur as int, p as int),
                t0.total_size() <= u64::MAX,
                t0.total_allocated() <= u64::MAX,
            ensures
                t0.totals_only(self),
                forall|n: int| t0.live(n) ==> #[trigger] self.agg_upto(&t0, n, p as int, s as int, a as int, -1),
            decreases t0.depth@[cur as int],
        {
            let ghost before: Tree = *self;
            let ci = cur as usize;
            let mut n = self.nodes[ci];
            proof {
                assert(self.agg_upto(&t0, cur as int, p as int, s as int, a as int, t0.depth@[cur as int] as int));
                t0.lemma_subtree_le_root(cur as int);
                assert(t0.same_but_totals(self, cur as int));
            }
            n.size = n.size + s;
            n.allocated = n.allocated + a;
            n.items = n.items + 1;
            self.nodes.set(ci, n);
            let ghost dnew: int = t0.depth@[cur as int] - 1;
            proof {
                assert forall|m: int| 0 <= m < t0.nodes@.len() implies #[trigger] t0.same_but_totals(self, m) by {
                    assert(t0.same_but_totals(&before, m));
                }
                assert forall|x: int| t0.live(x) implies #[trigger] self.agg_upto(&t0, x, p as int, s as int, a as int, dnew) by {
                    assert(before.agg_upto(&t0, x, p as int, s as int, a as int, t0.depth@[cur as int] as int));
                    if x != cur && t0.under(x, p as int) && t0.depth@[x] == t0.depth@[cur as int] {
                        t0.lemma_under_comparable(x, cur as int, p as int);
                    }
                }
            }
            if n.parent == NONE {
                proof {
                    assert(t0.same_but_totals(self, cur as int));
                    if cur != 0 {
                        assert(t0.live(cur as int));
                    }
                    assert(t0.depth@[0] == 0);
                }
                break;
            }
            proof {
                assert(t0.same_but_totals(self, cur as int));
                t0.lemma_under_parent(cur as int);
                t0.lemma_under_trans(n.parent as int, cur as int, p as int);
                assert(t0.slot_ok(cur as int));
            }
            cur = n.parent;
        }
        proof {
            t0.lemma_totals_only(self);
            assert forall|x: int| self.live(x) implies #[trigger] self.agg_ok(x) by {
                assert(self.agg_upto(&t0, x, p as int, s as int, a as int, -1));
            }
        }
    }

    /// `t` is `self` with vacant slots appended.
    proof fn lemma_grow(&self, t: &Tree)
        requires
            self.wf(),
            self.nodes@.len() <= t.nodes@.len() <= NONE,
            t.names == self.names,
            t.own@.len() == t.nodes@.len(),
            t.own_alloc@.len() == t.nodes@.len(),
            t.depth@.len() == t.nodes@.len(),
            t.kids@.len() == t.nodes@.len(),
            forall|i: int| 0 <= i < self.nodes@.len() ==> {
                &&& #[trigger] t.nodes@[i] == self.nodes@[i]
                &&& t.own@[i] == self.own@[i]
                &&& t.own_alloc@[i] == self.own_alloc@[i]
                &&& t.depth@[i] == self.depth@[i]
                &&& t.kids@[i] == self.kids@[i]
            },
            forall|i: int| self.nodes@.len() <= i < t.nodes@.len() ==> {
                &&& #[trigger] t.nodes@[i] == Node::spec_vacant()
                &&& t.own@[i] == 0
                &&& t.own_alloc@[i] == 0
                &&& t.depth@[i] == 0
                &&& t.kids@[i] == Seq::<u32>::empty()
            },
        ensures
            t.wf(),
            forall|m: int| #[trigger] t.live(m) == (self.live(m) || (m == 0 && t.nodes@.len() > 0)),
            t.total_size() == self.total_size(),
            t.total_allocated() == self.total_allocated(),
    {
        let len0 = self.nodes@.len() as int;
        let len = t.nodes@.len() as int;
        assert forall|m: int| #[trigger] t.live(m) == (self.live(m) || (m == 0 && t.nodes@.len() > 0)) by {
            if 0 <= m < len0 {
                assert(t.nodes@[m] == self.nodes@[m]);
            } else if len0 <= m < len {
                assert(t.nodes@[m] == Node::spec_vacant());
            }
        }
        assert(t.names.wf());
        assert forall|m: int| 0 <= m < len implies #[trigger] t.slot_ok(m) by {
            if m < len0 {
                assert(self.slot_ok(m));
                assert(t.nodes@[m] == self.nodes@[m]);
                if m != 0 && self.nodes@[m].parent != NONE {
                    let p = self.nodes@[m].parent as int;
                    assert(t.nodes@[p] == self.nodes@[p]);
                }
            } else {
                assert(t.nodes@[m] == Node::spec_vacant());
                EntryFlags::lemma_empty_not_dir();
                assert(ref_ok(t.names.bytes_view(), NameRef { off: 0, len: 0 }));
            }
        }
        assert forall|p: int| t.live(p) implies #[trigger] t.list_ok(p) by {
            if p < len0 {
                assert(self.list_ok(p));
                assert(t.nodes@[p] == self.nodes@[p]);
                let ks = self.kids@[p];
                assert forall|i: int| 0 <= i < ks.len() implies #[trigger] t.kid_ok(p, ks, i) by {
                    assert(self.kid_ok(p, ks, i));
                    assert(t.nodes@[ks[i] as int] == self.nodes@[ks[i] as int]);
                }
            } else {
                assert(t.nodes@[p] == Node::spec_vacant());
            }
        }
        if len > 0 {
            if len0 > 0 {
                assert(t.nodes@[0] == self.nodes@[0]);
            } else {
                assert(t.nodes@[0] == Node::spec_vacant());
            }
        }
        assert(t.structure_ok());
        assert forall|x: int| #[trigger] self.live(x) implies t.live(x) && t.nodes@[x].parent == self.nodes@[x].parent
            && t.depth@[x] == self.depth@[x] by {
            assert(t.nodes@[x] == self.nodes@[x]);
        }
        assert forall|n: int| t.live(n) implies #[trigger] t.agg_ok(n) by {
            if len0 == 0 {
                assert(n == 0);
                assert(t.nodes@[0] == Node::spec_vacant());
                assert forall|m: int| 0 <= m < len && m != 0 implies #[trigger] (t.size_term(0))(m) == 0 by {
                    assert(t.nodes@[m] == Node::spec_vacant());
                }
                lemma_sum_single(t.size_term(0), 0, len);
                assert forall|m: int| 0 <= m < len && m != 0 implies #[trigger] (t.alloc_term(0))(m) == 0 by {
                    assert(t.nodes@[m] == Node::spec_vacant());
                }
                lemma_sum_single(t.alloc_term(0), 0, len);
                assert forall|m: int| 0 <= m < len && m != 0 implies #[trigger] (t.count_term(0))(m) == 0 by {
                    assert(t.nodes@[m] == Node::spec_vacant());
                }
                lemma_sum_single(t.count_term(0), 0, len);
            } else {
                assert(self.live(n));
                assert(self.agg_ok(n));
                assert(t.nodes@[n] == self.nodes@[n]);
                assert forall|m: int| 0 <= m < len0 implies #[trigger] t.under(n, m) == self.under(n, m) by {
                    assert(t.nodes@[m] == self.nodes@[m]);
                    if self.live(m) {
                        self.lemma_under_stable(t, n, m);
                    }
                }
                assert forall|m: int| len0 <= m < len implies !#[trigger] t.live(m) by {
                    assert(t.nodes@[m] == Node::spec_vacant());
                }
                assert forall|m: int| 0 <= m < len0 implies #[trigger] (t.size_term(n))(m) == (self.size_term(n))(m) by {
                    assert(t.under(n, m) == self.under(n, m));
                }
                lemma_sum_ext(t.size_term(n), self.size_term(n), len0);
                assert forall|m: int| len0 <= m < len implies #[trigger] (t.size_term(n))(m) == 0 by {
                    assert(!t.live(m));
                }
                lemma_sum_zero_tail(t.size_term(n), len0, len);
                assert forall|m: int| 0 <= m < len0 implies #[trigger] (t.alloc_term(n))(m) == (self.alloc_term(n))(m) by {
                    assert(t.under(n, m) == self.under(n, m));
                }
                lemma_sum_ext(t.alloc_term(n), self.alloc_term(n), len0);
                assert forall|m: int| len0 <= m < len implies #[trigger] (t.alloc_term(n))(m) == 0 by {
                    assert(!t.live(m));
                }
                lemma_sum_zero_tail(t.alloc_term(n), len0, len);
                assert forall|m: int| 0 <= m < len0 implies #[trigger] (t.count_term(n))(m) == (self.count_term(n))(m) by {
                    assert(t.under(n, m) == self.under(n, m));
                }
                lemma_sum_ext(t.count_term(n), self.count_term(n), len0);
                assert forall|m: int| len0 <= m < len implies #[trigger] (t.count_term(n))(m) == 0 by {
                    assert(!t.live(m));
                }
                lemma_sum_zero_tail(t.count_term(n), len0, len);
            }
        }
        let f = |m: int| t.own_size(m) as int;
        let g = |m: int| self.own_size(m) as int;
        assert forall|m: int| 0 <= m < len0 implies #[trigger] f(m) == g(m) by {
            assert(t.nodes@[m] == self.nodes@[m]);
        }
        lemma_sum_ext(f, g, len0);
        assert forall|m: int| len0 <= m < len implies #[trigger] f(m) == 0 by {
            assert(t.nodes@[m] == Node::spec_vacant());
        }
        lemma_sum_zero_tail(f, len0, len);
        let fa = |m: int| t.own_allocated(m) as int;
        let ga = |m: int| self.own_allocated(m) as int;
        assert forall|m: int| 0 <= m < len0 implies #[trigger] fa(m) == ga(m) by {
            assert(t.nodes@[m] == self.nodes@[m]);
        }
        lemma_sum_ext(fa, ga, len0);
        assert forall|m: int| len0 <= m < len implies #[trigger] fa(m) == 0 by {
            assert(t.nodes@[m] == Node::spec_vacant());
        }
        lemma_sum_zero_tail(fa, len0, len);
    }

    /// The node a fresh entry becomes.
    pub open spec fn entry_node(name: NameRef, e: FileEntry, parent: u32, next: u32) -> Node {
        Node {
            name_off: name.off,
            name_len: name.len,
            flags: e.flags,
            parent: parent,
            first_child: NONE,
            next_sibling: next,
            items: 0,
            size: e.size,
            allocated: e.allocated_size,
            mtime: e.mtime,
        }
    }

    /// `t` is `self` with the vacant slot `id` linked as the first child of
    /// the live directory `p`; the totals of `p` and its ancestors still lack
    /// the new node's.
    proof fn lemma_link(&self, t: &Tree, id: int, p: int, name: NameRef, e: FileEntry)
        requires
            self.wf(),
            self.live(p),
            self.nodes@[p].flags.spec_is_dir(),
            0 < id < self.nodes@.len(),
            !self.live(id),
            ref_ok(self.names.bytes_view(), name),
            t.names == self.names,
            t.nodes@.len() == self.nodes@.len(),
            t.nodes@[id] == Tree::entry_node(name, e, p as u32, self.nodes@[p].first_child),
            t.nodes@[p] == (Node { first_child: id as u32, ..self.nodes@[p] }),
            forall|m: int| 0 <= m < self.nodes@.len() && m != id && m != p ==> #[trigger] t.nodes@[m] == self.nodes@[m],
            t.own@ == self.own@.update(id, e.size as nat),
            t.own_alloc@ == self.own_alloc@.update(id, e.allocated_size as nat),
            t.depth@ == self.depth@.update(id, self.depth@[p] + 1),
            t.kids@ == self.kids@.update(p, seq![id as u32] + self.kids@[p]),
        ensures
            t.structure_ok(),
            t.live(p),
            forall|m: int| #[trigger] t.live(m) == (self.live(m) || m == id),
            self.shape_kept(t),
            forall|n: int| t.live(n) ==> #[trigger] t.agg_upto(t, n, p, e.size as int, e.allocated_size as int, t.depth@[p] as int),
            t.total_size() == self.total_size() + e.size,
            t.total_allocated() == self.total_allocated() + e.allocated_size,
    {
        let len = self.nodes@.len() as int;
        assert(self.slot_ok(id));
        assert forall|m: int| #[trigger] t.live(m) == (self.live(m) || m == id) by {
            if 0 <= m < len && m != id && m != p {
                assert(t.nodes@[m] == self.nodes@[m]);
            }
        }
        assert forall|x: int| #[trigger] self.live(x) implies t.live(x) && t.nodes@[x].parent == self.nodes@[x].parent
            && t.depth@[x] == self.depth@[x] by {
            if x != p {
                assert(t.nodes@[x] == self.nodes@[x]);
            }
        }
        // structure
        assert forall|m: int| 0 <= m < len implies #[trigger] t.slot_ok(m) by {
            assert(self.slot_ok(m));
            if m == id {
                assert(t.kids@[p].contains(id as u32)) by {
                    assert(t.kids@[p][0] == id as u32);
                }
            } else if m != p {
                assert(t.nodes@[m] == self.nodes@[m]);
                if m != 0 && self.nodes@[m].parent != NONE {
                    let q = self.nodes@[m].parent as int;
                    assert(self.live(q));
                    if q != p {
                        assert(t.nodes@[q] == self.nodes@[q]);
                    } else {
                        let k = choose|k: int| 0 <= k < self.kids@[p].len() && self.kids@[p][k] == m as u32;
                        assert(t.kids@[p][k + 1] == m as u32);
                    }
                } else if m != 0 {
                    assert(m != p);
                }
            } else {
                if m != 0 {
                    let q = self.nodes@[m].parent as int;
                    assert(self.live(q));
                    assert(q != p);
                    assert(q != id);
                    assert(t.nodes@[q] == self.nodes@[q]);
                }
            }
        }
        assert forall|q: int| t.live(q) implies #[trigger] t.list_ok(q) by {
            if q == id {
                assert(t.kids@[id] == self.kids@[id]);
            } else {
                assert(self.live(q));
                assert(self.list_ok(q));
                let ks = self.kids@[q];
                if q == p {
                    let ks2 = t.kids@[p];
                    assert(ks2 == seq![id as u32] + ks);
                    assert forall|i: int| 0 <= i < ks.len() implies self.nodes@[#[trigger] ks[i] as int].parent == p && ks[i] != id as u32 by {
                        assert(self.kid_ok(p, ks, i));
                    }
                    assert(!ks.contains(id as u32)) by {
                        if ks.contains(id as u32) {
                            let k = choose|k: int| 0 <= k < ks.len() && ks[k] == id as u32;
                            assert(ks[k] != id as u32);
                        }
                    }
                    assert(ks2.no_duplicates()) by {
                        assert forall|i: int, j: int| 0 <= i < ks2.len() && 0 <= j < ks2.len() && i != j implies ks2[i] != ks2[j] by {
                            if i == 0 && j > 0 {
                                assert(ks2[j] == ks[j - 1]);
                            } else if j == 0 && i > 0 {
                                assert(ks2[i] == ks[i - 1]);
                            } else if i > 0 && j > 0 {
                                assert(ks2[i] == ks[i - 1]);
                                assert(ks2[j] == ks[j - 1]);
                            }
                        }
                    }
                    assert forall|i: int| 0 <= i < ks2.len() implies #[trigger] t.kid_ok(p, ks2, i) by {
                        if i == 0 {
                            if ks.len() > 0 {
                                assert(ks2[1] == ks[0]);
                            }
                        } else {
                            assert(ks2[i] == ks[i - 1]);
                            assert(self.kid_ok(p, ks, i - 1));
                            let c = ks[i - 1] as int;
                            assert(c != id);
                            if c == p {
                                assert(self.slot_ok(p));
                                assert(false);
                            }
                            assert(t.nodes@[c] == self.nodes@[c]);
                            if i + 1 < ks2.len() {
                                assert(ks2[i + 1] == ks[i]);
                            }
                        }
                    }
                } else {
                    assert(t.kids@[q] == ks);
                    assert(t.nodes@[q] == self.nodes@[q]);
                    assert forall|i: int| 0 <= i < ks.len() implies #[trigger] t.kid_ok(q, ks, i) by {
                        assert(self.kid_ok(q, ks, i));
                        let c = ks[i] as int;
                        if c == p {
                            assert(t.nodes@[p].parent == self.nodes@[p].parent);
                        } else {
                            assert(c != id);
                            assert(t.nodes@[c] == self.nodes@[c]);
                        }
                    }
                }
            }
        }
        assert(t.nodes@[0].parent == NONE && t.nodes@[0].next_sibling == NONE) by {
            if p != 0 {
                assert(t.nodes@[0] == self.nodes@[0]);
            }
        }
        assert(t.structure_ok());
        // sums
        assert forall|n: int| t.live(n) implies #[trigger] t.agg_upto(t, n, p, e.size as int, e.allocated_size as int, t.depth@[p] as int) by {
            if n == id {
                assert forall|m: int| 0 <= m < len && m != id implies !#[trigger] t.under(id, m) by {
                    if t.live(m) {
                        self.lemma_under_stable(t, id, m);
                        if self.under(id, m) {
                            self.lemma_under_live(id, m);
                        }
                    }
                }
                assert forall|m: int| 0 <= m < len && m != id implies #[trigger] (t.size_term(id))(m) == 0 by {
                    assert(!t.under(id, m));
                }
                lemma_sum_single(t.size_term(id), id, len);
                assert forall|m: int| 0 <= m < len && m != id implies #[trigger] (t.alloc_term(id))(m) == 0 by {
                    assert(!t.under(id, m));
                }
                lemma_sum_single(t.alloc_term(id), id, len);
                assert forall|m: int| 0 <= m < len && m != id implies #[trigger] (t.count_term(id))(m) == 0 by {
                    assert(!t.under(id, m));
                }
                lemma_sum_single(t.count_term(id), id, len);
                assert(!t.under(id, p));
            } else {
                assert(self.live(n));
                assert(self.agg_ok(n));
                assert(t.nodes@[n].size == self.nodes@[n].size);
                self.lemma_under_stable(t, n, p);
                let hit = self.under(n, p);
                assert forall|m: int| 0 <= m < len && m != id implies #[trigger] t.under(n, m) == self.under(n, m) by {
                    if self.live(m) {
                        self.lemma_under_stable(t, n, m);
                    } else {
                        assert(!t.live(m));
                    }
                }
                // the new node sits below exactly the ancestors of p
                assert(t.under(n, id) == hit) by {
                    let dn = t.depth@[n];
                    let did = t.depth@[id];
                    assert(did == self.depth@[p] + 1);
                    assert(dn == self.depth@[n]);
                    if dn <= did {
                        let k = (did - dn) as nat;
                        if k > 0 {
                            assert(t.up(id, k) == t.up(p, (k - 1) as nat));
                            self.lemma_up_stable(t, p, (k - 1) as nat);
                        } else {
                            assert(t.up(id, 0) == id);
                        }
                    }
                }
                assert forall|m: int| 0 <= m < len && m != id implies #[trigger] (self.size_term(n))(m) == (t.size_term(n))(m) by {
                    assert(t.under(n, m) == self.under(n, m));
                }
                lemma_sum_point(self.size_term(n), t.size_term(n), id, len);
                assert forall|m: int| 0 <= m < len && m != id implies #[trigger] (self.alloc_term(n))(m) == (t.alloc_term(n))(m) by {
                    assert(t.under(n, m) == self.under(n, m));
                }
                lemma_sum_point(self.alloc_term(n), t.alloc_term(n), id, len);
                assert forall|m: int| 0 <= m < len && m != id implies #[trigger] (self.count_term(n))(m) == (t.count_term(n))(m) by {
                    assert(t.under(n, m) == self.under(n, m));
                }
                lemma_sum_point(self.count_term(n), t.count_term(n), id, len);
                if hit {
                    self.lemma_under_live(n, p);
                }
            }
        }
        let f = |m: int| self.own_size(m) as int;
        let g = |m: int| t.own_size(m) as int;
        assert forall|m: int| 0 <= m < len && m != id implies #[trigger] f(m) == g(m) by {}
        lemma_sum_point(f, g, id, len);
        let fa = |m: int| self.own_allocated(m) as int;
        let ga = |m: int| t.own_allocated(m) as int;
        assert forall|m: int| 0 <= m < len && m != id implies #[trigger] fa(m) == ga(m) by {}
        lemma_sum_point(fa, ga, id, len);
    }

    /// `t` is the one-slot tree holding the root entry.
    proof fn lemma_set_root(&self, t: &Tree, name: NameRef, e: FileEntry)
        requires
            self.wf(),
            self.nodes@.len() == 1,
            ref_ok(self.names.bytes_view(), name),
            t.names == self.names,
            t.nodes@ == seq![Tree::entry_node(name, e, NONE, NONE)],
            t.own@ == seq![e.size as nat],
            t.own_alloc@ == seq![e.allocated_size as nat],
            t.depth@ == seq![0nat],
            t.kids@ == seq![Seq::<u32>::empty()],
        ensures
            t.wf(),
            forall|m: int| #[trigger] t.live(m) == (m == 0),
            t.total_size() == e.size,
            t.total_allocated() == e.allocated_size,
    {
        assert(t.slot_ok(0));
        assert(t.list_ok(0));
        assert(t.structure_ok());
        assert(t.under(0, 0));
        assert(t.subtree_size(0) == e.size) by {
            reveal_with_fuel(sum_to, 2);
        }
        assert(t.subtree_allocated(0) == e.allocated_size) by {
            reveal_with_fuel(sum_to, 2);
        }
        assert(t.subtree_count(0) == 1) by {
            reveal_with_fuel(sum_to, 2);
        }
        assert(t.agg_ok(0));
        assert(t.total_size() == e.size) by {
            reveal_with_fuel(sum_to, 2);
        }
        assert(t.total_allocated() == e.allocated_size) by {
            reveal_with_fuel(sum_to, 2);
        }
    }

    /// `self` is `old` with entry `e` (named by `name`) inserted.
    spec fn added(&self, old: &Tree, name: NameRef, e: FileEntry) -> bool {
        let id = e.path_id as int;
        let len0 = old.nodes@.len() as int;
        &&& self.names == old.names
        &&& self.nodes@.len() == (if id < len0 { len0 } else { id + 1 })
        &&& self.live(id)
        &&& self.nodes@[id].parent == (if id == 0 { NONE } else { e.parent_id })
        &&& self.nodes@[id].flags == e.flags
        &&& self.nodes@[id].mtime == e.mtime
        &&& self.nodes@[id].name_ref() == name
        &&& self.own@[id] == e.size
        &&& self.own_alloc@[id] == e.allocated_size
        &&& self.kids@[id] == Seq::<u32>::empty()
        &&& forall|m: int| 0 <= m < self.nodes@.len() && m != id ==> #[trigger] self.kept_from(old, m, e)
        &&& self.total_size() == old.total_size() + e.size
        &&& self.total_allocated() == old.total_allocated() + e.allocated_size
    }

    spec fn kept_from(&self, old: &Tree, m: int, e: FileEntry) -> bool {
        let old_kids = if m < old.nodes@.len() { old.kids@[m] } else { Seq::<u32>::empty() };
        &&& self.live(m) == old.live(m)
        &&& m < old.nodes@.len() ==> {
            &&& self.nodes@[m].parent == old.nodes@[m].parent
            &&& self.nodes@[m].flags == old.nodes@[m].flags
            &&& self.nodes@[m].mtime == old.nodes@[m].mtime
            &&& self.nodes@[m].name_ref() == old.nodes@[m].name_ref()
            &&& self.own@[m] == old.own@[m]
            &&& self.own_alloc@[m] == old.own_alloc@[m]
        }
        &&& self.kids@[m] == (if e.path_id != 0 && m == e.parent_id { seq![e.path_id] + old_kids } else { old_kids })
    }

    /// Inserts one entry whose name is already interned as `name`, linking
    /// it as the first child of its parent and adding its totals to every
    /// ancestor.
    fn add_entry(&mut self, name: NameRef, e: &FileEntry)
        requires
            old(self).wf(),
            ref_ok(old(self).names.bytes_view(), name),
            e.path_id < NONE,
            !old(self).live(e.path_id as int),
            e.path_id != 0 ==> old(self).live(e.parent_id as int) && old(self).is_dir_at(e.parent_id as int),
            old(self).total_size() + e.size <= u64::MAX,
            old(self).total_allocated() + e.allocated_size <= u64::MAX,
        ensures
            final(self).wf(),
            final(self).added(old(self), name, *e),
    {
        let ghost t0: Tree = *self;
        let id = e.path_id as usize;
        if id >= self.nodes.len() {
            self.nodes.resize(id + 1, Node::vacant());
            proof {
                let extra = (id + 1 - t0.nodes@.len()) as nat;
                self.own@ = self.own@ + Seq::new(extra, |i: int| 0nat);
                self.own_alloc@ = self.own_alloc@ + Seq::new(extra, |i: int| 0nat);
                self.depth@ = self.depth@ + Seq::new(extra, |i: int| 0nat);
                self.kids@ = self.kids@ + Seq::new(extra, |i: int| Seq::<u32>::empty());
                assert forall|i: int| 0 <= i < t0.nodes@.len() implies #[trigger] self.nodes@[i] == t0.nodes@[i] by {
                    assert(self.nodes@.subrange(0, t0.nodes@.len() as int)[i] == self.nodes@[i]);
                }
                t0.lemma_grow(self);
            }
        }
        let ghost t1: Tree = *self;
        proof {
            if id < t0.nodes@.len() {
                assert(t1 == t0);
            }
            assert(t1.wf());
            assert(!t1.live(id as int) || id == 0);
        }
        if e.path_id == 0 {
            proof {
                assert(t0.nodes@.len() == 0) by {
                    if t0.nodes@.len() > 0 {
                        assert(t0.live(0));
                    }
                }
            }
            let n = Node {
                name_off: name.off,
                name_len: name.len,
                flags: e.flags,
                parent: NONE,
                first_child: NONE,
                next_sibling: NONE,
                items: 0,
                size: e.size,
                allocated: e.allocated_size,
                mtime: e.mtime,
            };
            self.nodes.set(0, n);
            proof {
                self.own@ = seq![e.size as nat];
                self.own_alloc@ = seq![e.allocated_size as nat];
                self.depth@ = seq![0nat];
                self.kids@ = seq![Seq::<u32>::empty()];
                assert(t1.nodes@.len() == 1);
                assert(self.nodes@ =~= seq![Tree::entry_node(name, *e, NONE, NONE)]);
                t1.lemma_set_root(self, name, *e);
                assert(t0.total_size() == 0) by {
                    reveal_with_fuel(sum_to, 1);
                }
                assert(t0.total_allocated() == 0) by {
                    reveal_with_fuel(sum_to, 1);
                }
            }
            return;
        }
        let pi = e.parent_id as usize;
        proof {
            assert(t1.live(pi as int));
            assert(t1.nodes@[pi as int] == t0.nodes@[pi as int]);
        }
        let mut pn = self.nodes[pi];
        let prev_first = pn.first_child;
        pn.first_child = e.path_id;
        self.nodes.set(pi, pn);
        let n = Node {
            name_off: name.off,
            name_len: name.len,
            flags: e.flags,
            parent: e.parent_id,
            first_child: NONE,
            next_sibling: prev_first,
            items: 0,
            size: e.size,
            allocated: e.allocated_size,
            mtime: e.mtime,
        };
        self.nodes.set(id, n);
        proof {
            let p = pi as int;
            self.own@ = self.own@.update(id as int, e.size as nat);
            self.own_alloc@ = self.own_alloc@.update(id as int, e.allocated_size as nat);
            self.depth@ = self.depth@.update(id as int, t1.depth@[p] + 1);
            self.kids@ = self.kids@.update(p, seq![e.path_id] + t1.kids@[p]);
            assert(id as int != p);
            t1.lemma_link(self, id as int, p, name, *e);
            t1.lemma_subtree_le_root(p);
        }
        let ghost t2: Tree = *self;
        self.propagate(e.parent_id, e.size, e.allocated_size);
        proof {
            t2.lemma_totals_only(self);
            assert forall|m: int| 0 <= m < self.nodes@.len() && m != id implies #[trigger] self.kept_from(&t0, m, *e) by {
                assert(t2.same_but_totals(self, m));
                if m < t0.nodes@.len() {
                    if m != pi {
                        assert(t1.nodes@[m] == t0.nodes@[m]);
                    } else {
                        assert(t1.nodes@[m] == t0.nodes@[m]);
                    }
                    assert(t1.live(m) == t0.live(m));
                } else {
                    assert(t1.live(m) == t0.live(m));
                }
            }
            assert(t2.same_but_totals(self, id as int));
            assert(t1.slot_ok(id as int));
            let ee = *e;
            let idi = id as int;
            let len0 = t0.nodes@.len() as int;
            assert(self.names == t0.names);
            assert(self.nodes@.len() == (if idi < len0 { len0 } else { idi + 1 }));
            assert(self.live(idi));
            assert(self.nodes@[idi].parent == (if idi == 0 { NONE } else { ee.parent_id }));
            assert(self.nodes@[idi].flags == ee.flags);
            assert(self.nodes@[idi].name_ref() == name);
            assert(self.own@[idi] == ee.size);
            assert(self.kids@[idi] == Seq::<u32>::empty());
            assert(self.total_size() == t0.total_size() + ee.size);
            assert(self.total_allocated() == t0.total_allocated() + ee.allocated_size);
        }
    }

    /// `t` is `self` after new names were interned: the same nodes over a
    /// name buffer that only grew.
    proof fn lemma_names_grow(&self, t: &Tree, extra: Seq<u8>)
        requires
            self.wf(),
            t.names.wf(),
            t.names.bytes_view() == self.names.bytes_view() || t.names.bytes_view() == self.names.bytes_view() + extra,
            valid_utf8(extra),
            t.nodes == self.nodes,
            t.own == self.own,
            t.own_alloc == self.own_alloc,
            t.depth == self.depth,
            t.kids == self.kids,
        ensures
            t.wf(),
            forall|m: int| #[trigger] t.live(m) == self.live(m),
            forall|m: int| 0 <= m < self.nodes@.len() ==> #[trigger] t.name_view(m) == self.name_view(m),
            t.total_size() == self.total_size(),
            t.total_allocated() == self.total_allocated(),
    {
        let len = self.nodes@.len();
        self.names.lemma_index();
        let b = self.names.bytes_view();
        assert forall|m: int| 0 <= m < len implies #[trigger] t.name_view(m) == self.name_view(m)
            && ref_ok(t.names.bytes_view(), t.nodes@[m].name_ref()) by {
            assert(self.slot_ok(m));
            if t.names.bytes_view() != b {
                crate::interner::lemma_ref_extend(b, extra, self.nodes@[m].name_ref());
            }
        }
        assert forall|m: int| 0 <= m < len implies #[trigger] t.slot_ok(m) by {
            assert(self.slot_ok(m));
            assert(ref_ok(t.names.bytes_view(), t.nodes@[m].name_ref()));
        }
        assert forall|p: int| t.live(p) implies #[trigger] t.list_ok(p) by {
            assert(self.list_ok(p));
            let ks = self.kids@[p];
            assert forall|i: int| 0 <= i < ks.len() implies #[trigger] t.kid_ok(p, ks, i) by {
                assert(self.kid_ok(p, ks, i));
            }
        }
        assert(t.structure_ok());
        assert forall|x: int| #[trigger] self.live(x) implies t.live(x) && t.nodes@[x].parent == self.nodes@[x].parent
            && t.depth@[x] == self.depth@[x] by {}
        assert forall|x: int| #[trigger] t.live(x) implies self.live(x) && self.nodes@[x].parent == t.nodes@[x].parent
            && self.depth@[x] == t.depth@[x] by {}
        assert forall|n: int| t.live(n) implies #[trigger] t.agg_ok(n) by {
            self.lemma_same_sums(t, n);
            assert(self.agg_ok(n));
        }
        lemma_sum_ext(|m: int| t.own_size(m) as int, |m: int| self.own_size(m) as int, len as int);
        lemma_sum_ext(|m: int| t.own_allocated(m) as int, |m: int| self.own_allocated(m) as int, len as int);
    }

    /// A slot that is not live has no children.
    proof fn lemma_dead_no_kids(&self, m: int)
        requires
            self.wf(),
            0 <= m < self.nodes@.len(),
            !self.live(m),
        ensures
            self.kids@[m] == Seq::<u32>::empty(),
    {
        assert(self.slot_ok(m));
    }

    // ----- what a batch may hold -----

    /// Entry `k` of `es` can be inserted once the ones before it are: its id
    /// is fresh, and its parent is a live directory or an earlier directory
    /// entry of the batch.
    pub open spec fn entry_fits(&self, es: Seq<FileEntry>, k: int) -> bool {
        let e = es[k];
        &&& e.path_id < NONE
        &&& !self.live(e.path_id as int)
        &&& forall|j: int| 0 <= j < k ==> (#[trigger] es[j]).path_id != e.path_id
        &&& e.path_id != 0 ==> {
            ||| self.live(e.parent_id as int) && self.is_dir_at(e.parent_id as int)
            ||| exists|j: int| 0 <= j < k && (#[trigger] es[j]).path_id == e.parent_id && es[j].flags.spec_is_dir()
        }
    }

    /// Every entry of `es` fits in order.
    pub open spec fn accepts(&self, es: Seq<FileEntry>) -> bool {
        forall|k: int| 0 <= k < es.len() ==> #[trigger] self.entry_fits(es, k)
    }

    /// Entry `e`, named `name`, stands in its slot.
    pub open spec fn placed(&self, e: FileEntry, name: Seq<u8>) -> bool {
        let m = e.path_id as int;
        &&& self.live(m)
        &&& self.parent_of(m) == (if m == 0 { NONE as int } else { e.parent_id as int })
        &&& self.node_view(m).flags == e.flags
        &&& self.node_view(m).mtime == e.mtime
        &&& self.own_size(m) == e.size
        &&& self.own_allocated(m) == e.allocated_size
        &&& self.name_view(m) == name
    }

    /// Slot `m` holds the same node in `self` as in `old`.
    pub open spec fn keeps(&self, old: &Tree, m: int) -> bool {
        &&& self.live(m) == old.live(m)
        &&& self.parent_of(m) == old.parent_of(m)
        &&& self.node_view(m).flags == old.node_view(m).flags
        &&& self.node_view(m).mtime == old.node_view(m).mtime
        &&& self.own_size(m) == old.own_size(m)
        &&& self.own_allocated(m) == old.own_allocated(m)
        &&& self.name_view(m) == old.name_view(m)
    }

    // ----- laws -----

    /// A live node's stored totals are those of its subtree: `size` is the
    /// sum of the bytes of every live node under it (itself included),
    /// `allocated` likewise, and `items` counts the live nodes strictly below.
    pub proof fn lemma_aggregates(&self, n: int)
        requires
            self.wf(),
            self.live(n),
        ensures
            self.node_view(n).size == self.subtree_size(n),
            self.node_view(n).allocated == self.subtree_allocated(n),
            self.node_view(n).items + 1 == self.subtree_count(n),
    {
        assert(self.agg_ok(n));
    }

    /// Slot numbers are node ids: there are at most `NONE` of them.
    /// Two trees with the same live nodes and parents give each live node
    /// the same depth.
    proof fn lemma_same_depth(&self, t: &Tree, m: int)
        requires
            self.wf(),
            t.wf(),
            self.slots() == t.slots(),
            forall|x: int| 0 <= x < self.slots() ==> #[trigger] self.live(x) == t.live(x),
            forall|x: int| #[trigger] self.live(x) ==> self.parent_of(x) == t.parent_of(x),
            self.live(m),
        ensures
            self.depth@[m] == t.depth@[m],
        decreases self.depth@[m],
    {
        assert(self.slot_ok(m));
        assert(t.slot_ok(m));
        if m != 0 {
            let p = self.nodes@[m].parent as int;
            assert(self.live(p));
            self.lemma_same_depth(t, p);
        }
    }

    /// ... and the same ancestors.
    proof fn lemma_same_up(&self, t: &Tree, m: int, j: nat)
        requires
            self.wf(),
            t.wf(),
            self.slots() == t.slots(),
            forall|x: int| 0 <= x < self.slots() ==> #[trigger] self.live(x) == t.live(x),
            forall|x: int| #[trigger] self.live(x) ==> self.parent_of(x) == t.parent_of(x),
            self.live(m),
            j <= self.depth@[m],
        ensures
            self.up(m, j) == t.up(m, j),
        decreases j,
    {
        if j > 0 {
            assert(self.slot_ok(m));
            if m == 0 {
                assert(self.depth@[0] == 0);
            }
            let p = self.nodes@[m].parent as int;
            assert(self.live(p) && self.depth@[m] == self.depth@[p] + 1);
            self.lemma_same_up(t, p, (j - 1) as nat);
        }
    }

    /// Totals depend only on the tree's shape and what each node holds
    /// itself: two trees with the same live nodes, the same parents and
    /// the same own sizes carry the same size, allocated size and item
    /// count at every live node, however the nodes were linked in. So
    /// batches added in either order leave the same totals.
    pub proof fn lemma_same_facts_same_totals(&self, t: &Tree)
        requires
            self.wf(),
            t.wf(),
            self.slots() == t.slots(),
            forall|x: int| 0 <= x < self.slots() ==> #[trigger] self.live(x) == t.live(x),
            forall|x: int| #[trigger] self.live(x) ==> self.parent_of(x) == t.parent_of(x),
            forall|x: int| 0 <= x < self.slots() ==> #[trigger] self.own_size(x) == t.own_size(x),
            forall|x: int| 0 <= x < self.slots() ==> #[trigger] self.own_allocated(x) == t.own_allocated(x),
        ensures
            forall|n: int| #[trigger] self.live(n) ==> {
                &&& self.node_view(n).size == t.node_view(n).size
                &&& self.node_view(n).allocated == t.node_view(n).allocated
                &&& self.node_view(n).items == t.node_view(n).items
            },
    {
        let len = self.slots() as int;
        assert forall|n: int| #[trigger] self.live(n) implies {
            &&& self.node_view(n).size == t.node_view(n).size
            &&& self.node_view(n).allocated == t.node_view(n).allocated
            &&& self.node_view(n).items == t.node_view(n).items
        } by {
            assert(self.agg_ok(n));
            assert(t.agg_ok(n));
            assert forall|m: int| 0 <= m < len implies #[trigger] self.under(n, m) == t.under(n, m) by {
                if self.live(m) {
                    self.lemma_same_depth(t, m);
                    self.lemma_same_depth(t, n);
                    if self.depth@[n] <= self.depth@[m] {
                        self.lemma_same_up(t, m, (self.depth@[m] - self.depth@[n]) as nat);
                    }
                }
            }
            crate::sums::lemma_sum_ext(self.size_term(n), t.size_term(n), len);
            crate::sums::lemma_sum_ext(self.alloc_term(n), t.alloc_term(n), len);
            crate::sums::lemma_sum_ext(self.count_term(n), t.count_term(n), len);
        }
    }

    /// The children of a live node are exactly the live nodes whose parent
    /// it is (the root is no one's child), each listed once.
    pub proof fn lemma_children_exact(&self, p: int)
        requires
            self.wf(),
            self.live(p),
        ensures
            self.children_of(p).no_duplicates(),
            forall|i: int| 0 <= i < self.children_of(p).len() ==> (#[trigger] self.children_of(p)[i]) < self.slots(),
            forall|c: int| 0 <= c < self.slots() ==> (#[trigger] self.children_of(p).contains(c as u32)
                <==> (c != 0 && self.live(c) && self.parent_of(c) == p)),
    {
        assert(self.list_ok(p));
        let ks = self.kids@[p];
        assert forall|i: int| 0 <= i < ks.len() implies (#[trigger] ks[i]) < self.slots() by {
            assert(self.kid_ok(p, ks, i));
        }
        assert forall|c: int| 0 <= c < self.slots() implies (#[trigger] ks.contains(c as u32)
            <==> (c != 0 && self.live(c) && self.parent_of(c) == p)) by {
            if ks.contains(c as u32) {
                let i = choose|i: int| 0 <= i < ks.len() && ks[i] == c as u32;
                assert(self.kid_ok(p, ks, i));
            }
            if c != 0 && self.live(c) && self.parent_of(c) == p {
                assert(self.slot_ok(c));
            }
        }
    }

    /// The root's path is its name; a child's path is its parent's path
    /// joined with the child's name.
    pub proof fn lemma_child_path(&self, p: int, i: int, sep: char)
        requires
            self.wf(),
            self.live(p),
            0 <= i < self.children_of(p).len(),
        ensures
            ({
                let c = self.children_of(p)[i] as int;
                &&& 0 < c < self.slots()
                &&& self.live(c)
                &&& self.parent_of(c) == p
                &&& self.path_view(c, sep) == join_path(self.path_view(p, sep), self.name_chars(c), sep)
            }),
            self.path_view(0, sep) == self.name_chars(0),
    {
        let ks = self.kids@[p];
        assert(self.list_ok(p));
        assert(self.kid_ok(p, ks, i));
        let c = ks[i] as int;
        assert(self.slot_ok(c));
        assert(self.nodes@[c].parent != NONE);
        assert(self.link_ok(c));
        assert(self.depth@[c] == self.depth@[p] + 1);
        assert(self.path_view(c, sep) == join_path(self.path_from(p, self.depth@[p], sep), self.name_chars(c), sep));
        assert(self.depth@[0] == 0);
    }

    /// The root of a non-empty tree is live, and its path is its name.
    pub proof fn lemma_root_path(&self, sep: char)
        requires
            self.wf(),
            self.slots() > 0,
        ensures
            self.live(0),
            self.path_view(0, sep) == self.name_chars(0),
    {
        assert(self.depth@[0] == 0);
    }

    /// A live node has a slot.
    pub proof fn lemma_live_slot(&self, m: int)
        requires
            self.live(m),
        ensures
            0 <= m < self.slots(),
    {
    }

    pub proof fn lemma_slots_bound(&self)
        requires
            self.wf(),
        ensures
            self.slots() <= NONE,
    {
    }

    /// A directory slot is live, lies less than `slots()` levels below the
    /// root, and its children are live slots one level deeper.
    pub proof fn lemma_dir_depth(&self, m: int)
        requires
            self.wf(),
            0 <= m < self.slots(),
            self.is_dir_at(m),
        ensures
            self.live(m),
            self.depth_of(m) < self.slots(),
            self.children_of(m).no_duplicates(),
            forall|i: int| 0 <= i < self.children_of(m).len() ==> {
                let c = #[trigger] self.children_of(m)[i] as int;
                &&& 0 < c < self.slots()
                &&& self.live(c)
                &&& self.depth_of(c) == self.depth_of(m) + 1
                &&& self.node_view(c).parent as int == m
            },
    {
        assert(self.slot_ok(m));
        let d = self.depth@[m];
        let chain = Seq::new((d + 1) as nat, |j: int| self.up(m, j as nat));
        assert forall|j: int| 0 <= j < chain.len() implies self.live(#[trigger] chain[j]) && self.depth@[chain[j]] == d - j by {
            self.lemma_up_live(m, j as nat);
        }
        assert(chain.no_duplicates()) by {
            assert forall|a: int, b: int| 0 <= a < chain.len() && 0 <= b < chain.len() && a != b implies chain[a] != chain[b] by {
                assert(self.depth@[chain[a]] == d - a);
                assert(self.depth@[chain[b]] == d - b);
            }
        }
        chain.unique_seq_to_set();
        vstd::set_lib::lemma_int_range(0, self.slots() as int);
        assert(chain.to_set().subset_of(vstd::set_lib::set_int_range(0, self.slots() as int)));
        vstd::set_lib::lemma_len_subset(chain.to_set(), vstd::set_lib::set_int_range(0, self.slots() as int));
        assert(self.list_ok(m));
        assert forall|i: int| 0 <= i < self.children_of(m).len() implies {
            let c = #[trigger] self.children_of(m)[i] as int;
            &&& 0 < c < self.slots()
            &&& self.live(c)
            &&& self.depth_of(c) == self.depth_of(m) + 1
            &&& self.node_view(c).parent as int == m
        } by {
            let ks = self.kids@[m];
            assert(self.kid_ok(m, ks, i));
            let c = ks[i] as int;
            assert(self.slot_ok(c));
        }
    }

    /// Whatever a child of directory `p` reaches, `p` reaches.
    pub proof fn lemma_reaches_through_child(&self, p: int, i: int, x: int)
        requires
            self.wf(),
            0 <= p < self.slots(),
            self.is_dir_at(p),
            0 <= i < self.children_of(p).len(),
            self.reaches(self.children_of(p)[i] as int, x, false),
        ensures
            self.reaches(p, x, false),
    {
        self.lemma_dir_depth(p);
        let c = self.children_of(p)[i] as int;
        assert(self.live(c));
        assert(self.nodes@[c].parent as int == p);
        self.lemma_under_parent(c);
        if x != p {
            if x == c {
                assert(self.under(p, c));
            } else {
                self.lemma_under_trans(p, c, x);
            }
        }
    }

    /// A slot that is not a directory (a file, or an empty slot) holds its
    /// own bytes only, and the whole tree's bytes fit in a `u64`.
    pub proof fn lemma_leaf_size(&self, m: int)
        requires
            self.wf(),
            0 <= m < self.slots(),
            !self.is_dir_at(m),
        ensures
            self.node_view(m).size == self.own_size(m),
            self.total_size() <= u64::MAX,
    {
        if self.live(m) {
            self.lemma_file_totals(m);
        } else {
            assert(m != 0);
            assert(self.slot_ok(m));
        }
        self.lemma_root_totals();
    }

    /// A sum of terms each at most the slot's own bytes stays within the
    /// tree's total.
    pub proof fn lemma_within_total(&self, f: spec_fn(int) -> int)
        requires
            self.wf(),
            forall|m: int| 0 <= m < self.slots() ==> #[trigger] f(m) <= self.own_size(m),
        ensures
            sum_to(f, self.slots() as int) <= self.total_size(),
    {
        lemma_sum_le(f, |m: int| self.own_size(m) as int, self.slots() as int);
    }

    /// The root's totals are the whole tree's.
    pub proof fn lemma_root_totals(&self)
        requires
            self.wf(),
            self.slots() > 0,
        ensures
            self.node_view(0).size == self.total_size(),
            self.node_view(0).allocated == self.total_allocated(),
            self.node_view(0).items + 1 == self.live_count(),
    {
        let len = self.nodes@.len() as int;
        assert(self.live(0));
        assert(self.agg_ok(0));
        assert forall|m: int| 0 <= m < len implies #[trigger] (self.size_term(0))(m) == self.own_size(m) as int by {
            if self.live(m) {
                self.lemma_under_root(m);
            } else if m != 0 {
                assert(self.slot_ok(m));
            }
        }
        lemma_sum_ext(self.size_term(0), |m: int| self.own_size(m) as int, len);
        assert forall|m: int| 0 <= m < len implies #[trigger] (self.alloc_term(0))(m) == self.own_allocated(m) as int by {
            if self.live(m) {
                self.lemma_under_root(m);
            } else if m != 0 {
                assert(self.slot_ok(m));
            }
        }
        lemma_sum_ext(self.alloc_term(0), |m: int| self.own_allocated(m) as int, len);
        assert forall|m: int| 0 <= m < len implies #[trigger] (self.count_term(0))(m) == (if self.live(m) { 1int } else { 0 }) by {
            if self.live(m) {
                self.lemma_under_root(m);
            }
        }
        lemma_sum_ext(self.count_term(0), |m: int| if self.live(m) { 1int } else { 0 }, len);
    }

    /// Live nodes in the tree.
    pub open spec fn live_count(&self) -> int {
        sum_to(|m: int| if self.live(m) { 1int } else { 0 }, self.slots() as int)
    }

    /// Nothing lies below a file: its totals are its own.
    pub proof fn lemma_file_totals(&self, n: int)
        requires
            self.wf(),
            self.live(n),
            !self.is_dir_at(n),
        ensures
            self.node_view(n).size == self.own_size(n),
            self.node_view(n).allocated == self.own_allocated(n),
            self.node_view(n).items == 0,
    {
        let len = self.nodes@.len() as int;
        assert(self.agg_ok(n));
        assert forall|m: int| 0 <= m < len && m != n implies !#[trigger] self.under(n, m) by {
            if self.under(n, m) {
                self.lemma_under_strict(n, m);
                let q = self.nodes@[m].parent as int;
                assert(self.slot_ok(m));
                self.lemma_under_live(n, q);
                if n == q {
                } else {
                    let d = (self.depth@[q] - self.depth@[n]) as nat;
                    self.lemma_up_live(q, d);
                    self.lemma_under_strict(n, q);
                    // the node just below n on the path has n as its parent
                    let c = self.up(m, (self.depth@[m] - self.depth@[n] - 1) as nat);
                    self.lemma_up_live(m, (self.depth@[m] - self.depth@[n] - 1) as nat);
                    self.lemma_up_last(m, (self.depth@[m] - self.depth@[n] - 1) as nat);
                    assert(((self.depth@[m] - self.depth@[n] - 1) as nat + 1) as nat == (self.depth@[m] - self.depth@[n]) as nat);
                    assert(self.nodes@[c].parent as int == n);
                    assert(c != 0) by {
                        if c == 0 {
                            assert(self.depth@[0] == 0);
                        }
                    }
                    assert(self.slot_ok(c));
                }
            }
        }
        assert forall|m: int| 0 <= m < len && m != n implies #[trigger] (self.size_term(n))(m) == 0 by {}
        lemma_sum_single(self.size_term(n), n, len);
        assert forall|m: int| 0 <= m < len && m != n implies #[trigger] (self.alloc_term(n))(m) == 0 by {}
        lemma_sum_single(self.alloc_term(n), n, len);
        assert forall|m: int| 0 <= m < len && m != n implies #[trigger] (self.count_term(n))(m) == 0 by {}
        lemma_sum_single(self.count_term(n), n, len);
    }

    // ----- error marks -----

    /// `self` is `old` with `flags` set on slot `id`, all else equal.
    pub open spec fn reflagged(&self, old: &Tree, id: int, flags: EntryFlags) -> bool {
        &&& self.slots() == old.slots()
        &&& self.name_bytes_view() == old.name_bytes_view()
        &&& forall|m: int| 0 <= m < self.slots() ==> {
            &&& #[trigger] self.live(m) == old.live(m)
            &&& self.own_size(m) == old.own_size(m)
            &&& self.own_allocated(m) == old.own_allocated(m)
            &&& self.children_of(m) == old.children_of(m)
            &&& self.name_view(m) == old.name_view(m)
            &&& self.node_view(m) == (if m == id { Node { flags: flags, ..old.node_view(m) } } else { old.node_view(m) })
        }
    }

    fn set_flags(&mut self, id: usize, flags: EntryFlags)
        requires
            old(self).wf(),
            id < old(self).slots(),
            flags.spec_is_dir() == old(self).node_view(id as int).flags.spec_is_dir(),
        ensures
            final(self).wf(),
            final(self).reflagged(old(self), id as int, flags),
            final(self).depth == old(self).depth,
    {
        let ghost t0: Tree = *self;
        let mut n = self.nodes[id];
        n.flags = flags;
        self.nodes.set(id, n);
        proof {
            let len = t0.nodes@.len();
            let i = id as int;
            assert forall|m: int| #[trigger] self.live(m) == t0.live(m) by {}
            assert forall|m: int| 0 <= m < len implies #[trigger] self.slot_ok(m) by {
                assert(t0.slot_ok(m));
                if m != 0 && t0.nodes@[m].parent != NONE {
                    let q = t0.nodes@[m].parent as int;
                }
            }
            assert forall|q: int| self.live(q) implies #[trigger] self.list_ok(q) by {
                assert(t0.list_ok(q));
                let ks = t0.kids@[q];
                assert forall|j: int| 0 <= j < ks.len() implies #[trigger] self.kid_ok(q, ks, j) by {
                    assert(t0.kid_ok(q, ks, j));
                }
            }
            assert(self.structure_ok());
            assert forall|x: int| #[trigger] t0.live(x) implies self.live(x) && self.nodes@[x].parent == t0.nodes@[x].parent
                && self.depth@[x] == t0.depth@[x] by {}
            assert forall|x: int| #[trigger] self.live(x) implies t0.live(x) && t0.nodes@[x].parent == self.nodes@[x].parent
                && t0.depth@[x] == self.depth@[x] by {}
            assert forall|x: int| self.live(x) implies #[trigger] self.agg_ok(x) by {
                t0.lemma_same_sums(self, x);
                assert(t0.agg_ok(x));
            }
            assert(self.nodes@[i] == Node { flags: flags, ..t0.nodes@[i] });
        }
    }

    /// The error flag on `flags`, keeping every other bit.
    proof fn lemma_error_keeps_dir(f: EntryFlags)
        ensures
            EntryFlags(f.0 | 4).spec_is_dir() == f.spec_is_dir(),
    {
        let x = f.0;
        assert((x | 4u16) & 1u16 == x & 1u16) by (bit_vector);
    }

    // ----- removal -----

    pub open spec fn file_size_term(&self, n: int) -> spec_fn(int) -> int {
        |m: int| if self.under(n, m) && !self.is_dir_at(m) { self.own_size(m) as int } else { 0 }
    }

    pub open spec fn file_alloc_term(&self, n: int) -> spec_fn(int) -> int {
        |m: int| if self.under(n, m) && !self.is_dir_at(m) { self.own_allocated(m) as int } else { 0 }
    }

    pub open spec fn dir_size_term(&self, n: int) -> spec_fn(int) -> int {
        |m: int| if self.under(n, m) && self.is_dir_at(m) { self.own_size(m) as int } else { 0 }
    }

    pub open spec fn dir_alloc_term(&self, n: int) -> spec_fn(int) -> int {
        |m: int| if self.under(n, m) && self.is_dir_at(m) { self.own_allocated(m) as int } else { 0 }
    }

    pub open spec fn file_count_term(&self, n: int) -> spec_fn(int) -> int {
        |m: int| if self.under(n, m) && !self.is_dir_at(m) { 1int } else { 0 }
    }

    pub open spec fn dir_count_term(&self, n: int) -> spec_fn(int) -> int {
        |m: int| if self.under(n, m) && self.is_dir_at(m) { 1int } else { 0 }
    }

    /// Bytes of the files in the subtree at `n`.
    pub open spec fn files_size(&self, n: int) -> int {
        sum_to(self.file_size_term(n), self.slots() as int)
    }

    pub open spec fn files_allocated(&self, n: int) -> int {
        sum_to(self.file_alloc_term(n), self.slots() as int)
    }

    /// Bytes attributed to the directories of the subtree at `n` themselves.
    pub open spec fn dirs_size(&self, n: int) -> int {
        sum_to(self.dir_size_term(n), self.slots() as int)
    }

    pub open spec fn dirs_allocated(&self, n: int) -> int {
        sum_to(self.dir_alloc_term(n), self.slots() as int)
    }

    pub open spec fn file_count(&self, n: int) -> int {
        sum_to(self.file_count_term(n), self.slots() as int)
    }

    pub open spec fn dir_count(&self, n: int) -> int {
        sum_to(self.dir_count_term(n), self.slots() as int)
    }

    /// A subtree splits into its files and its directories.
    proof fn lemma_split(&self, n: int)
        ensures
            self.subtree_size(n) == self.files_size(n) + self.dirs_size(n),
            self.subtree_allocated(n) == self.files_allocated(n) + self.dirs_allocated(n),
            self.subtree_count(n) == self.file_count(n) + self.dir_count(n),
            self.files_size(n) >= 0,
            self.files_allocated(n) >= 0,
            self.file_count(n) >= 0,
            self.dirs_size(n) >= 0,
            self.dirs_allocated(n) >= 0,
            self.dir_count(n) >= 0,
    {
        let len = self.slots() as int;
        assert forall|m: int| 0 <= m < len implies #[trigger] (self.size_term(n))(m) == (self.file_size_term(n))(m) + (self.dir_size_term(n))(m) by {}
        lemma_sum_add(self.file_size_term(n), self.dir_size_term(n), self.size_term(n), len);
        assert forall|m: int| 0 <= m < len implies #[trigger] (self.alloc_term(n))(m) == (self.file_alloc_term(n))(m) + (self.dir_alloc_term(n))(m) by {}
        lemma_sum_add(self.file_alloc_term(n), self.dir_alloc_term(n), self.alloc_term(n), len);
        assert forall|m: int| 0 <= m < len implies #[trigger] (self.count_term(n))(m) == (self.file_count_term(n))(m) + (self.dir_count_term(n))(m) by {}
        lemma_sum_add(self.file_count_term(n), self.dir_count_term(n), self.count_term(n), len);
        assert forall|m: int| 0 <= m < len implies #[trigger] (self.file_size_term(n))(m) >= 0 by {}
        lemma_sum_nonneg(self.file_size_term(n), len);
        assert forall|m: int| 0 <= m < len implies #[trigger] (self.file_alloc_term(n))(m) >= 0 by {}
        lemma_sum_nonneg(self.file_alloc_term(n), len);
        assert forall|m: int| 0 <= m < len implies #[trigger] (self.file_count_term(n))(m) >= 0 by {}
        lemma_sum_nonneg(self.file_count_term(n), len);
        assert forall|m: int| 0 <= m < len implies #[trigger] (self.dir_size_term(n))(m) >= 0 by {}
        lemma_sum_nonneg(self.dir_size_term(n), len);
        assert forall|m: int| 0 <= m < len implies #[trigger] (self.dir_alloc_term(n))(m) >= 0 by {}
        lemma_sum_nonneg(self.dir_alloc_term(n), len);
        assert forall|m: int| 0 <= m < len implies #[trigger] (self.dir_count_term(n))(m) >= 0 by {}
        lemma_sum_nonneg(self.dir_count_term(n), len);
    }

    /// A node strictly below `c` hangs under one of `c`'s children.
    proof fn lemma_below_child(&self, c: int, m: int) -> (k: int)
        requires
            self.wf(),
            self.under(c, m),
            c != m,
        ensures
            0 <= k < self.kids@[c].len(),
            self.under(self.kids@[c][k] as int, m),
    {
        let d = (self.depth@[m] - self.depth@[c] - 1) as nat;
        let x = self.up(m, d);
        self.lemma_up_live(m, d);
        self.lemma_up_last(m, d);
        assert((d + 1) as nat == (self.depth@[m] - self.depth@[c]) as nat);
        assert(self.nodes@[x].parent as int == c);
        assert(x != 0) by {
            if x == 0 {
                assert(self.depth@[0] == 0);
            }
        }
        assert(self.slot_ok(x));
        let k = choose|k: int| 0 <= k < self.kids@[c].len() && self.kids@[c][k] == x as u32;
        k
    }

    /// Iteratively vacates the subtree at `id` and tallies its files.
    fn detach_subtree(&mut self, id: u32, Ghost(t0): Ghost<Tree>) -> (removed: Removed)
        requires
            t0.wf(),
            t0.live(id as int),
            id != 0,
            old(self).nodes@.len() == t0.nodes@.len(),
            forall|m: int| #[trigger] t0.under(id as int, m) ==> old(self).nodes@[m] == t0.nodes@[m],
        ensures
            final(self).nodes@.len() == old(self).nodes@.len(),
            forall|m: int| 0 <= m < old(self).nodes@.len() ==> #[trigger] final(self).nodes@[m] == (if t0.under(id as int, m) {
                Node::spec_vacant()
            } else {
                old(self).nodes@[m]
            }),
            final(self).names == old(self).names,
            final(self).own == old(self).own,
            final(self).own_alloc == old(self).own_alloc,
            final(self).depth == old(self).depth,
            final(self).kids == old(self).kids,
            removed.size == t0.files_size(id as int),
            removed.allocated == t0.files_allocated(id as int),
            removed.files == t0.file_count(id as int),
            removed.dirs == t0.dir_count(id as int),
    {
        let ghost root = id as int;
        let ghost len = t0.nodes@.len() as int;
        let ghost orig: Seq<Node> = self.nodes@;
        let mut removed = Removed { size: 0, allocated: 0, files: 0, dirs: 0 };
        let mut stack: Vec<u32> = Vec::new();
        stack.push(id);
        proof {
            t0.lemma_split(root);
            t0.lemma_subtree_le_root(root);
            assert(t0.agg_ok(root));
            assert forall|m: int| 0 <= m < len implies #[trigger] t0.file_size_term(root)(m) <= t0.size_term(root)(m) by {}
            assert forall|m: int| #[trigger] t0.under(root, m) implies self.nodes@[m].parent != NONE by {
                assert(self.nodes@[m] == t0.nodes@[m]);
                t0.lemma_under_live(root, m);
                if m == 0 {
                    assert(t0.depth@[0] == 0);
                    t0.lemma_depth_zero(root);
                }
            }
            assert forall|m: int| 0 <= m < len implies #[trigger] (done_size_term(t0, root, self.nodes@))(m) == 0 by {}
            lemma_sum_zero(done_size_term(t0, root, self.nodes@), len);
            assert forall|m: int| 0 <= m < len implies #[trigger] (done_alloc_term(t0, root, self.nodes@))(m) == 0 by {}
            lemma_sum_zero(done_alloc_term(t0, root, self.nodes@), len);
            assert forall|m: int| 0 <= m < len implies #[trigger] (done_file_term(t0, root, self.nodes@))(m) == 0 by {}
            lemma_sum_zero(done_file_term(t0, root, self.nodes@), len);
            assert forall|m: int| 0 <= m < len implies #[trigger] (done_dir_term(t0, root, self.nodes@))(m) == 0 by {}
            lemma_sum_zero(done_dir_term(t0, root, self.nodes@), len);
            assert(stack@ == seq![id]);
            assert forall|m: int| 0 <= m < len implies #[trigger] self.nodes@[m] == (if done_at(t0, root, self.nodes@, m) { Node::spec_vacant() } else { orig[m] }) by {}
            assert forall|m: int| t0.under(root, m) && self.nodes@[m].parent != NONE implies exists|i: int| 0 <= i < stack@.len() && #[trigger] t0.under(stack@[i] as int, m) by {
                assert(stack@[0] == id);
            }
            assert(dfs_inv(t0, root, orig, self.nodes@, stack@));
        }
        while stack.len() > 0
            invariant
                t0.wf(),
                t0.live(root),
                root == id as int,
                root != 0,
                len == t0.nodes@.len(),
                orig == old(self).nodes@,
                forall|m: int| #[trigger] t0.under(root, m) ==> orig[m] == t0.nodes@[m],
                self.names == old(self).names,
                self.own == old(self).own,
                self.own_alloc == old(self).own_alloc,
                self.depth == old(self).depth,
                self.kids == old(self).kids,
                dfs_inv(t0, root, orig, self.nodes@, stack@),
                removed.size == sum_to(done_size_term(t0, root, self.nodes@), len),
                removed.allocated == sum_to(done_alloc_term(t0, root, self.nodes@), len),
                removed.files == sum_to(done_file_term(t0, root, self.nodes@), len),
                removed.dirs == sum_to(done_dir_term(t0, root, self.nodes@), len),
            decreases sum_to(left_term(t0, root, self.nodes@), len),
        {
            let ghost nodes0 = self.nodes@;
            let ghost stack0 = stack@;
            let cur = stack.pop().unwrap();
            let ghost c = cur as int;
            let ghost base = stack@;
            proof {
                assert(stack0[stack0.len() - 1] == cur);
                assert(base =~= stack0.drop_last());
                assert(t0.under(root, c));
                t0.lemma_under_live(root, c);
                t0.lemma_under_self(c);
                assert(nodes0[c].parent != NONE);
                assert(nodes0[c] == orig[c]);
                assert(t0.list_ok(c));
                assert forall|m: int| t0.under(c, m) implies #[trigger] nodes0[m] == t0.nodes@[m] by {
                    assert(t0.under(stack0[stack0.len() - 1] as int, m));
                    assert(nodes0[m].parent != NONE);
                    t0.lemma_under_trans(root, c, m);
                    assert(nodes0[m] == (if done_at(t0, root, nodes0, m) { Node::spec_vacant() } else { orig[m] }));
                }
            }
            let n = self.nodes[cur as usize];
            let mut child = n.first_child;
            let ghost ks = t0.kids@[c];
            let ghost mut j: int = 0;
            proof {
                assert(base + ks.subrange(0, 0) =~= base);
            }
            while child != NONE
                invariant
                    t0.wf(),
                    t0.live(c),
                    ks == t0.kids@[c],
                    t0.list_ok(c),
                    self.nodes@ == nodes0,
                    nodes0.len() == len,
                    len == t0.nodes@.len(),
                    forall|m: int| t0.under(c, m) ==> #[trigger] nodes0[m] == t0.nodes@[m],
                    0 <= j <= ks.len(),
                    child == (if j < ks.len() { ks[j] } else { NONE }),
                    stack@ == base + ks.subrange(0, j),
                decreases ks.len() - j,
            {
                proof {
                    assert(j < ks.len()) by {
                        if j >= ks.len() {
                            assert(child == NONE);
                        }
                    }
                    assert(t0.kid_ok(c, ks, j));
                    t0.lemma_under_parent(child as int);
                    assert(nodes0[child as int] == t0.nodes@[child as int]);
                }
                stack.push(child);
                child = self.nodes[child as usize].next_sibling;
                proof {
                    assert(stack@ =~= base + ks.subrange(0, j + 1));
                    j = j + 1;
                }
            }
            proof {
                if j < ks.len() {
                    assert(t0.kid_ok(c, ks, j));
                }
                assert(j == ks.len());
                assert(stack@ =~= base + ks);
                t0.lemma_split(root);
                t0.lemma_subtree_le_root(root);
                assert(t0.agg_ok(root));
            }
            let ghost nodes1 = nodes0.update(c, Node::spec_vacant());
            proof {
                lemma_dfs_step(t0, root, orig, nodes0, stack0, nodes1, stack@, c);
            }
            if n.is_dir() {
                removed.dirs = removed.dirs + 1;
            } else {
                proof {
                    t0.lemma_file_totals(c);
                }
                removed.files = removed.files + 1;
                removed.size = removed.size + n.size;
                removed.allocated = removed.allocated + n.allocated;
            }
            self.nodes.set(cur as usize, Node::vacant());
            proof {
                assert(self.nodes@ == nodes1);
            }
        }
        proof {
            lemma_dfs_done(t0, root, orig, self.nodes@);
        }
        removed
    }

    /// `m` is `n` itself, or a live node below `n` where (when hiding
    /// system entries) nothing from `m` up to, not including, `n` carries
    /// the system flag.
    pub open spec fn reaches(&self, n: int, m: int, hide_system: bool) -> bool {
        ||| (m == n && 0 <= n < self.slots())
        ||| (m != n && self.under(n, m) && (hide_system ==> forall|j: nat| j < self.depth_of(m) - self.depth_of(n)
            ==> !(#[trigger] self.node_view(self.up(m, j))).flags.has(EntryFlags::spec_system())))
    }

    /// Whether `m` is reached from `n`; see `reaches`.
    pub fn reaches_from(&self, n: NodeId, m: NodeId, hide_system: bool) -> (r: bool)
        requires
            self.wf(),
            n < self.slots(),
            m < self.slots(),
        ensures
            r == self.reaches(n as int, m as int, hide_system),
    {
        if m == n {
            return true;
        }
        if !self.is_live(m) {
            return false;
        }
        let ghost start = m as int;
        let mut cur = m;
        let ghost mut k: nat = 0;
        while cur != n && self.nodes[cur as usize].parent != NONE
            invariant
                self.wf(),
                0 <= n < self.slots(),
                0 <= start < self.slots(),
                start == m as int,
                start != n,
                self.live(start),
                k <= self.depth@[start],
                cur as int == self.up(start, k),
                self.live(cur as int),
                self.depth@[cur as int] == self.depth@[start] - k,
                forall|i: nat| i < k ==> self.up(start, i) != n,
                hide_system ==> forall|i: nat| i < k ==> !(#[trigger] self.node_view(self.up(start, i))).flags.has(EntryFlags::spec_system()),
            decreases self.depth@[start] - k,
        {
            if hide_system && self.nodes[cur as usize].flags.contains(EntryFlags::system()) {
                proof {
                    assert(self.node_view(self.up(start, k)).flags.has(EntryFlags::spec_system()));
                    if self.under(n as int, start) {
                        assert(k < self.depth@[start] - self.depth@[n as int]) by {
                            if k >= self.depth@[start] - self.depth@[n as int] {
                                let d = (self.depth@[start] - self.depth@[n as int]) as nat;
                                assert(self.up(start, d) == n);
                                if d < k {
                                    assert(false);
                                }
                                assert(d == k);
                            }
                        }
                        let kk: nat = k;
                        assert(kk < self.depth_of(start) - self.depth_of(n as int));
                        assert(self.node_view(self.up(start, kk)).flags.has(EntryFlags::spec_system()));
                        assert(!(forall|j: nat| j < self.depth_of(start) - self.depth_of(n as int)
                            ==> !(#[trigger] self.node_view(self.up(start, j))).flags.has(EntryFlags::spec_system())));
                    }
                    assert(!self.reaches(n as int, start, hide_system));
                }
                return false;
            }
            let p = self.nodes[cur as usize].parent;
            proof {
                assert(self.slot_ok(cur as int));
                if cur == 0 {
                    assert(false);
                }
                self.lemma_up_last(start, k);
                self.lemma_up_live(start, k + 1);
                k = k + 1;
            }
            cur = p;
        }
        proof {
            if cur != n {
                assert(self.slot_ok(cur as int));
                if cur != 0 {
                    assert(false);
                }
                self.lemma_up_live(start, k);
                // the chain reached the root without meeting `n`
                if self.under(n as int, start) {
                    let d = (self.depth@[start] - self.depth@[n as int]) as nat;
                    assert(self.up(start, d) == n);
                    assert(d <= k);
                    if d < k {
                        assert(false);
                    }
                    assert(self.depth@[0] == 0);
                    assert(false);
                }
            } else {
                assert(self.depth@[n as int] == self.depth@[start] - k);
                assert((self.depth@[start] - self.depth@[n as int]) as nat == k);
            }
        }
        cur == n
    }

    /// Iterates the direct children of `id`, most recently added first.
    pub fn children(&self, id: NodeId) -> (r: ChildIter<'_>)
        requires
            self.wf(),
            id < self.slots(),
        ensures
            r.wf(),
            r.remaining() == self.children_of(id as int),
            r.tree_view() == *self,
    {
        proof {
            let p = id as int;
            if self.live(p) {
                assert(self.list_ok(p));
            } else {
                assert(self.slot_ok(p));
            }
            assert(self.kids@[p].subrange(0, self.kids@[p].len() as int) =~= self.kids@[p]);
        }
        ChildIter { tree: self, next: self.nodes[id as usize].first_child, parent: Ghost(id as int), pos: Ghost(0) }
    }

    /// The path of `m`: the names from the root down to `m`, joined by `sep`
    /// (no separator is added after a name that already ends with one).
    pub open spec fn path_view(&self, m: int, sep: char) -> Seq<char> {
        self.path_from(m, self.depth_of(m), sep)
    }

    pub open spec fn name_chars(&self, m: int) -> Seq<char> {
        decode_utf8(self.name_view(m))
    }

    pub open spec fn path_from(&self, m: int, fuel: nat, sep: char) -> Seq<char>
        decreases fuel,
    {
        if fuel == 0 || self.parent_of(m) == NONE as int {
            self.name_chars(m)
        } else {
            join_path(self.path_from(self.parent_of(m), (fuel - 1) as nat, sep), self.name_chars(m), sep)
        }
    }

    /// The chain from the root down to the live node `id`: entry `j` is
    /// its ancestor `depth - j` levels up, so the root comes first and `id`
    /// last.
    pub fn ancestry(&self, id: NodeId) -> (r: Vec<NodeId>)
        requires
            self.wf(),
            self.live(id as int),
        ensures
            r@.len() == self.depth_of(id as int) + 1,
            forall|j: int| 0 <= j < r@.len() ==> #[trigger] r@[j] as int == self.up(id as int, (self.depth_of(id as int) - j) as nat),
            forall|j: int| 0 <= j < r@.len() ==> self.live(#[trigger] r@[j] as int),
    {
        let ghost start = id as int;
        let mut up_ids: Vec<NodeId> = Vec::new();
        up_ids.push(id);
        let mut cur = id;
        let ghost mut k: nat = 0;
        while self.nodes[cur as usize].parent != NONE
            invariant
                self.wf(),
                self.live(start),
                0 <= cur < self.slots(),
                k <= self.depth@[start],
                cur as int == self.up(start, k),
                self.live(cur as int),
                self.depth@[cur as int] == self.depth@[start] - k,
                up_ids@.len() == k + 1,
                forall|j: int| 0 <= j <= k ==> (#[trigger] up_ids@[j]) as int == self.up(start, j as nat) && self.live(up_ids@[j] as int),
            decreases self.depth@[start] - k,
        {
            let p = self.nodes[cur as usize].parent;
            proof {
                assert(self.slot_ok(cur as int));
                if cur == 0 {
                    assert(false);
                }
                self.lemma_up_last(start, k);
            }
            up_ids.push(p);
            cur = p;
            proof {
                k = k + 1;
            }
        }
        proof {
            assert(self.slot_ok(cur as int));
            if cur != 0 {
                assert(false);
            }
            assert(self.depth@[0] == 0);
            assert(k == self.depth@[start]);
        }
        let mut r: Vec<NodeId> = Vec::new();
        let mut i = up_ids.len();
        while i > 0
            invariant
                i <= up_ids@.len(),
                up_ids@.len() == k + 1,
                k == self.depth@[start],
                r@.len() == up_ids@.len() - i,
                forall|j: int| 0 <= j < r@.len() ==> #[trigger] r@[j] == up_ids@[k - j],
            decreases i,
        {
            i = i - 1;
            r.push(up_ids[i]);
        }
        proof {
            assert forall|j: int| 0 <= j < r@.len() implies #[trigger] r@[j] as int == self.up(start, (self.depth_of(start) - j) as nat) by {
                assert(r@[j] == up_ids@[k - j]);
            }
            assert forall|j: int| 0 <= j < r@.len() implies self.live(#[trigger] r@[j] as int) by {
                assert(r@[j] == up_ids@[k - j]);
            }
        }
        r
    }

    /// The full path of `id`, with the platform's separator (`/` or `\\`).
    pub fn path(&self, id: NodeId) -> (r: String)
        requires
            self.wf(),
            id < self.slots(),
        ensures
            r@ == self.path_view(id as int, '/') || r@ == self.path_view(id as int, '\\'),
    {
        let sep = main_separator();
        self.path_with(id, sep)
    }

    /// The full path of `id`, with `sep` between names.
    pub fn path_with(&self, id: NodeId, sep: char) -> (r: String)
        requires
            self.wf(),
            id < self.slots(),
            sep == '/' || sep == '\\',
        ensures
            r@ == self.path_view(id as int, sep),
    {
        let ghost start = id as int;
        let mut parts: Vec<&str> = Vec::new();
        parts.push(self.name(id));
        let mut cur = id;
        let ghost mut k: nat = 0;
        proof {
            if !self.live(start) {
                assert(self.slot_ok(start));
            }
        }
        while self.nodes[cur as usize].parent != NONE
            invariant
                self.wf(),
                0 <= start < self.slots(),
                0 <= cur < self.slots(),
                self.live(start) ==> k <= self.depth@[start] && cur as int == self.up(start, k) && self.live(cur as int)
                    && self.depth@[cur as int] == self.depth@[start] - k,
                !self.live(start) ==> k == 0 && cur as int == start && self.nodes@[start].parent == NONE,
                parts@.len() == k + 1,
                forall|j: int| 0 <= j <= k ==> (#[trigger] parts@[j]).spec_bytes() == self.name_view(self.up(start, j as nat)),
            decreases (if self.live(start) { self.depth@[start] - k } else { 0 }),
        {
            let p = self.nodes[cur as usize].parent;
            proof {
                assert(self.live(start));
                assert(self.slot_ok(cur as int));
                if cur == 0 {
                    assert(false);
                }
                self.lemma_up_last(start, k);
            }
            parts.push(self.name(p));
            cur = p;
            proof {
                k = k + 1;
            }
        }
        proof {
            if self.live(start) {
                assert(self.slot_ok(cur as int));
                if cur != 0 {
                    assert(false);
                }
                assert(self.depth@[0] == 0);
                assert(k == self.depth@[start]);
            }
        }
        // join from the root down
        let mut out = String::new();
        let mut ends_sep = false;
        let mut i = parts.len();
        proof {
            self.lemma_path_top(start, k, sep);
        }
        while i > 0
            invariant
                self.wf(),
                0 <= start < self.slots(),
                i <= parts@.len(),
                parts@.len() == k + 1,
                forall|j: int| 0 <= j <= k ==> (#[trigger] parts@[j]).spec_bytes() == self.name_view(self.up(start, j as nat)),
                self.live(start) ==> k == self.depth@[start],
                !self.live(start) ==> k == 0,
                i == parts@.len() ==> out@ == Seq::<char>::empty(),
                i < parts@.len() ==> out@ == self.path_from(self.up(start, i as nat), (k - i) as nat, sep),
                ends_sep == (out@.len() > 0 && out@.last() == sep),
                sep == '/' || sep == '\\',
            decreases i,
        {
            i = i - 1;
            let part = parts[i];
            let ghost before = out@;
            proof {
                encode_utf8_decode_utf8(part@);
            }
            if i + 1 < parts.len() && !ends_sep {
                if sep == '/' {
                    proof {
                        reveal_strlit("/");
                    }
                    out.append("/");
                } else {
                    proof {
                        reveal_strlit("\\");
                    }
                    out.append("\\");
                }
                ends_sep = true;
            }
            out.append(part);
            let n = part.unicode_len();
            if n > 0 {
                ends_sep = part.get_char(n - 1) == sep;
            }
            proof {
                self.lemma_path_step(start, k, i as nat, sep);
                if i + 1 < parts@.len() {
                    assert(out@ == join_path(before, self.name_chars(self.up(start, i as nat)), sep));
                } else {
                    assert(out@ =~= self.name_chars(self.up(start, i as nat)));
                }
            }
        }
        proof {
            assert(self.up(start, 0) == start);
            if self.live(start) {
            } else {
                assert(self.path_view(start, sep) == self.name_chars(start));
            }
        }
        out
    }

    /// Where the joining loop starts: the topmost name is the root's.
    proof fn lemma_path_top(&self, start: int, k: nat, sep: char)
        requires
            self.wf(),
            0 <= start < self.slots(),
            self.live(start) ==> k == self.depth@[start],
            !self.live(start) ==> k == 0 && self.nodes@[start].parent == NONE,
        ensures
            self.path_from(self.up(start, k), 0, sep) == self.name_chars(self.up(start, k)),
    {
    }

    /// One joining step: the path of the node `i` levels above `start`
    /// extends that of its parent by its name.
    proof fn lemma_path_step(&self, start: int, k: nat, i: nat, sep: char)
        requires
            self.wf(),
            0 <= start < self.slots(),
            i <= k,
            self.live(start) ==> k == self.depth@[start],
            !self.live(start) ==> k == 0,
        ensures
            i < k ==> self.path_from(self.up(start, i), (k - i) as nat, sep) == join_path(
                self.path_from(self.up(start, i + 1), (k - i - 1) as nat, sep),
                self.name_chars(self.up(start, i)),
                sep,
            ),
            i == k ==> self.path_from(self.up(start, i), 0, sep) == self.name_chars(self.up(start, i)),
    {
        if i < k {
            assert(self.live(start));
            self.lemma_up_live(start, i);
            let m = self.up(start, i);
            assert(self.slot_ok(m));
            if m == 0 {
                assert(self.depth@[0] == 0);
            }
            self.lemma_up_last(start, i);
        }
    }

    /// A subtree lies within the subtree of any node above it.
    proof fn lemma_subtree_mono(&self, a: int, n: int)
        requires
            self.wf(),
            self.under(a, n),
        ensures
            self.subtree_size(n) <= self.subtree_size(a),
            self.subtree_allocated(n) <= self.subtree_allocated(a),
            a != n ==> self.subtree_count(n) + 1 <= self.subtree_count(a),
    {
        let len = self.slots() as int;
        assert forall|m: int| 0 <= m < len implies #[trigger] (self.size_term(n))(m) <= (self.size_term(a))(m) by {
            if self.under(n, m) {
                self.lemma_under_trans(a, n, m);
            }
        }
        lemma_sum_le(self.size_term(n), self.size_term(a), len);
        assert forall|m: int| 0 <= m < len implies #[trigger] (self.alloc_term(n))(m) <= (self.alloc_term(a))(m) by {
            if self.under(n, m) {
                self.lemma_under_trans(a, n, m);
            }
        }
        lemma_sum_le(self.alloc_term(n), self.alloc_term(a), len);
        if a != n {
            self.lemma_under_live(a, n);
            let f = self.count_term(n);
            let g = |m: int| if m == a { 0int } else { f(m) };
            lemma_sum_point(g, f, a, len);
            assert(!self.under(n, a)) by {
                if self.under(n, a) {
                    assert(self.depth@[a] == self.depth@[n]);
                }
            }
            let h = |m: int| if m == a { 1int } else { f(m) };
            lemma_sum_point(g, h, a, len);
            assert forall|m: int| 0 <= m < len implies #[trigger] h(m) <= (self.count_term(a))(m) by {
                if m == a {
                    self.lemma_under_self(a);
                } else if self.under(n, m) {
                    self.lemma_under_trans(a, n, m);
                }
            }
            lemma_sum_le(h, self.count_term(a), len);
        }
    }

    /// Removes a subtree after a filesystem delete and returns the freed
    /// totals: the bytes and allocation of its files, and its file and
    /// directory counts. The root and stale ids are refused.
    pub fn remove_subtree(&mut self, id: NodeId) -> (r: Option<Removed>)
        requires
            old(self).wf(),
        ensures
            final(self).wf(),
            final(self).slots() == old(self).slots(),
            !(old(self).live(id as int) && id != 0) ==> r is None && *final(self) == *old(self),
            old(self).live(id as int) && id != 0 ==> (r matches Some(rm) && old(self).removed_by(final(self), id as int, rm)),
    {
        let idx = id as usize;
        if idx >= self.nodes.len() {
            return None;
        }
        let parent = self.nodes[idx].parent;
        if parent == NONE {
            return None;
        }
        let ghost t0: Tree = *self;
        let ghost i = id as int;
        let ghost p = parent as int;
        let ghost ks = t0.kids@[p];
        proof {
            assert(t0.live(i));
            assert(t0.slot_ok(i));
            assert(t0.list_ok(p));
        }
        let ghost pos: int = choose|k: int| 0 <= k < ks.len() && ks[k] == id;
        let next = self.nodes[idx].next_sibling;
        let pi = parent as usize;
        proof {
            assert(t0.kid_ok(p, ks, pos));
        }
        if self.nodes[pi].first_child == id {
            proof {
                assert(pos == 0) by {
                    if pos != 0 {
                        assert(ks[0] == ks[pos]);
                    }
                }
            }
            let mut pn = self.nodes[pi];
            pn.first_child = next;
            self.nodes.set(pi, pn);
        } else {
            let mut prev = self.nodes[pi].first_child;
            let ghost mut j: int = 0;
            proof {
                assert(pos > 0);
            }
            loop
                invariant_except_break
                    0 <= j < pos,
                    prev == ks[j],
                    self.nodes@ == t0.nodes@,
                invariant
                    t0.wf(),
                    t0.list_ok(p),
                    ks == t0.kids@[p],
                    self.names == t0.names,
                    self.own == t0.own,
                    self.own_alloc == t0.own_alloc,
                    self.depth == t0.depth,
                    self.kids == t0.kids,
                    next == t0.nodes@[i].next_sibling,
                    id == i,
                    0 < pos < ks.len(),
                    ks[pos] == id,
                    ks.no_duplicates(),
                ensures
                    self.nodes@ == t0.nodes@.update(ks[pos - 1] as int, Node { next_sibling: next, ..t0.nodes@[ks[pos - 1] as int] }),
                decreases pos - j,
            {
                proof {
                    assert(t0.kid_ok(p, ks, j));
                }
                let sib = self.nodes[prev as usize].next_sibling;
                if sib == id {
                    proof {
                        assert(ks[j + 1] == ks[pos]);
                        assert(j + 1 == pos);
                    }
                    let mut pn = self.nodes[prev as usize];
                    pn.next_sibling = next;
                    self.nodes.set(prev as usize, pn);
                    break;
                }
                proof {
                    assert(j + 1 < pos) by {
                        if j + 1 == pos {
                            assert(ks[j + 1] == id);
                        }
                    }
                    j = j + 1;
                }
                prev = sib;
            }
        }
        let ghost ta: Seq<Node> = self.nodes@;
        proof {
            if pos > 0 {
                assert(t0.kid_ok(p, ks, pos - 1));
            }
            assert(ta == Tree::unlinked(t0.nodes@, ks, i, p, pos));
            // the unlinked slots lie outside the removed subtree
            assert forall|m: int| #[trigger] t0.under(i, m) implies self.nodes@[m] == t0.nodes@[m] by {
                assert(m != p) by {
                    if m == p {
                        t0.lemma_under_parent(i);
                        assert(t0.depth@[p] < t0.depth@[i]);
                    }
                }
                if pos > 0 {
                    let q = ks[pos - 1] as int;
                    assert(t0.kid_ok(p, ks, pos - 1));
                    assert(m != q) by {
                        if m == q {
                            assert(t0.slot_ok(q));
                            assert(t0.depth@[q] == t0.depth@[i]);
                            assert(ks[pos - 1] != ks[pos]);
                        }
                    }
                }
            }
        }
        let removed = self.detach_subtree(id, Ghost(t0));
        let ghost tb: Seq<Node> = self.nodes@;
        proof {
            t0.lemma_split(i);
            t0.lemma_subtree_le_root(i);
            assert(t0.agg_ok(i));
            assert(t0.subtree_count(i) <= t0.slots());
            assert(removed.files + removed.dirs <= u32::MAX);
            assert forall|m: int| 0 <= m < t0.slots() && !t0.under(i, m) implies #[trigger] same_totals(tb[m], t0.nodes@[m]) by {
                assert(tb[m] == ta[m]);
            }
        }
        let node_count = removed.nodes() as u32;
        let mut anc = parent;
        proof {
            t0.lemma_under_parent(i);
            t0.lemma_under_live(p, i);
            t0.lemma_under_self(p);
        }
        loop
            invariant_except_break
                forall|m: int| 0 <= m < t0.slots() ==> #[trigger] self.nodes@[m] == Tree::lowered(tb[m], removed,
                    t0.under(m, p) && t0.depth@[m] > t0.depth@[anc as int]),
            invariant
                t0.wf(),
                t0.live(anc as int),
                t0.under(anc as int, p),
                self.names == t0.names,
                self.depth == t0.depth,
                removed.files == t0.file_count(i),
                removed.dirs == t0.dir_count(i),
                node_count as int == removed.files + removed.dirs,
                t0.under(p, i),
                p != i,
                self.nodes@.len() == t0.slots(),
                tb.len() == t0.slots(),
                forall|m: int| 0 <= m < t0.slots() && !t0.under(i, m) ==> #[trigger] same_totals(tb[m], t0.nodes@[m]),
                removed.size == t0.files_size(i),
                removed.allocated == t0.files_allocated(i),
                node_count == t0.subtree_count(i),
                t0.subtree_count(i) == t0.file_count(i) + t0.dir_count(i),
                t0.subtree_size(i) == t0.files_size(i) + t0.dirs_size(i),
                t0.subtree_allocated(i) == t0.files_allocated(i) + t0.dirs_allocated(i),
                t0.dirs_size(i) >= 0,
                t0.dirs_allocated(i) >= 0,
            ensures
                forall|m: int| 0 <= m < t0.slots() ==> #[trigger] self.nodes@[m] == Tree::lowered(tb[m], removed, t0.under(m, p)),
            decreases t0.depth@[anc as int],
        {
            let ghost before: Seq<Node> = self.nodes@;
            let ai = anc as usize;
            proof {
                let a = anc as int;
                t0.lemma_under_trans(a, p, i);
                t0.lemma_subtree_mono(a, i);
                assert(t0.agg_ok(a));
                assert(!t0.under(i, a)) by {
                    if t0.under(i, a) {
                        assert(t0.depth@[a] == t0.depth@[i]);
                    }
                }
                assert(same_totals(tb[a], t0.nodes@[a]));
                assert(before[a] == tb[a]);
            }
            let mut n = self.nodes[ai];
            n.size = n.size - removed.size;
            n.allocated = n.allocated - removed.allocated;
            n.items = n.items - node_count;
            self.nodes.set(ai, n);
            proof {
                let a = anc as int;
                assert forall|m: int| 0 <= m < t0.slots() implies #[trigger] self.nodes@[m] == Tree::lowered(tb[m], removed,
                    t0.under(m, p) && t0.depth@[m] > t0.depth@[a] - 1) by {
                    if m != a {
                        assert(before[m] == Tree::lowered(tb[m], removed, t0.under(m, p) && t0.depth@[m] > t0.depth@[a]));
                        if t0.under(m, p) && t0.depth@[m] == t0.depth@[a] {
                            t0.lemma_under_comparable(m, a, p);
                        }
                    }
                }
            }
            if n.parent == NONE {
                proof {
                    let a = anc as int;
                    assert(same_totals(tb[a], t0.nodes@[a]));
                    if a != 0 {
                        assert(t0.live(a));
                    }
                    assert(t0.depth@[0] == 0);
                }
                break;
            }
            proof {
                let a = anc as int;
                assert(same_totals(tb[a], t0.nodes@[a]));
                assert(t0.slot_ok(a));
                t0.lemma_under_parent(a);
                t0.lemma_under_trans(n.parent as int, a, p);
            }
            anc = n.parent;
        }
        proof {
            let ds = t0.dirs_size(i);
            let da = t0.dirs_allocated(i);
            self.own@ = Seq::new(t0.own@.len(), |m: int| if t0.under(i, m) { 0nat } else if m == p { (t0.own@[p] + ds) as nat } else { t0.own@[m] });
            self.own_alloc@ = Seq::new(t0.own_alloc@.len(), |m: int| if t0.under(i, m) { 0nat } else if m == p { (t0.own_alloc@[p] + da) as nat } else { t0.own_alloc@[m] });
            self.kids@ = Seq::new(t0.kids@.len(), |m: int| if t0.under(i, m) { Seq::<u32>::empty() } else if m == p { ks.remove(pos) } else { t0.kids@[m] });
            t0.lemma_removed(self, i, p, pos, removed, ta, tb);
        }
        Some(removed)
    }

    /// The node slots after unlinking `i`, entry `pos` of `ks`, from `p`.
    spec fn unlinked(nodes: Seq<Node>, ks: Seq<u32>, i: int, p: int, pos: int) -> Seq<Node> {
        if pos == 0 {
            nodes.update(p, Node { first_child: nodes[i].next_sibling, ..nodes[p] })
        } else {
            nodes.update(ks[pos - 1] as int, Node { next_sibling: nodes[i].next_sibling, ..nodes[ks[pos - 1] as int] })
        }
    }

    proof fn lemma_remove_no_dup(ks: Seq<u32>, pos: int)
        requires
            ks.no_duplicates(),
            0 <= pos < ks.len(),
        ensures
            ks.remove(pos).no_duplicates(),
            ks.remove(pos).len() == ks.len() - 1,
            forall|j: int| 0 <= j < ks.len() - 1 ==> #[trigger] ks.remove(pos)[j] == (if j < pos { ks[j] } else { ks[j + 1] }),
            ks.index_of(ks[pos]) == pos,
    {
        let r = ks.remove(pos);
        assert forall|j: int| 0 <= j < ks.len() - 1 implies #[trigger] r[j] == (if j < pos { ks[j] } else { ks[j + 1] }) by {}
        assert forall|a: int, b: int| 0 <= a < r.len() && 0 <= b < r.len() && a != b implies r[a] != r[b] by {
            let a2 = if a < pos { a } else { a + 1 };
            let b2 = if b < pos { b } else { b + 1 };
            assert(r[a] == ks[a2]);
            assert(r[b] == ks[b2]);
        }
        let k = ks.index_of(ks[pos]);
        assert(0 <= k < ks.len() && ks[k] == ks[pos]);
    }

    /// The tree after `remove_subtree(i)` is well formed, and stands in the
    /// stated relation to the tree before.
    #[verifier::spinoff_prover]
    proof fn lemma_removed(&self, t: &Tree, i: int, p: int, pos: int, rm: Removed, ta: Seq<Node>, tb: Seq<Node>)
        requires
            self.wf(),
            self.live(i),
            i != 0,
            p == self.nodes@[i].parent as int,
            0 <= pos < self.kids@[p].len(),
            self.kids@[p][pos] == i as u32,
            ta == Tree::unlinked(self.nodes@, self.kids@[p], i, p, pos),
            tb.len() == self.nodes@.len(),
            forall|m: int| 0 <= m < self.nodes@.len() ==> #[trigger] tb[m] == (if self.under(i, m) { Node::spec_vacant() } else { ta[m] }),
            t.nodes@.len() == self.nodes@.len(),
            forall|m: int| 0 <= m < self.nodes@.len() ==> #[trigger] t.nodes@[m] == Tree::lowered(tb[m], rm, self.under(m, p)),
            rm.size == self.files_size(i),
            rm.allocated == self.files_allocated(i),
            rm.files == self.file_count(i),
            rm.dirs == self.dir_count(i),
            t.names == self.names,
            t.depth == self.depth,
            t.own@ == Seq::new(self.own@.len(), |m: int| if self.under(i, m) { 0nat } else if m == p { (self.own@[p] + self.dirs_size(i)) as nat } else { self.own@[m] }),
            t.own_alloc@ == Seq::new(self.own_alloc@.len(), |m: int| if self.under(i, m) { 0nat } else if m == p { (self.own_alloc@[p] + self.dirs_allocated(i)) as nat } else { self.own_alloc@[m] }),
            t.kids@ == Seq::new(self.kids@.len(), |m: int| if self.under(i, m) { Seq::<u32>::empty() } else if m == p { self.kids@[p].remove(pos) } else { self.kids@[m] }),
        ensures
            t.wf(),
            self.removed_by(t, i, rm),
    {
        let len = self.nodes@.len() as int;
        let ks = self.kids@[p];
        let ks2 = ks.remove(pos);
        assert(self.slot_ok(i));
        assert(self.live(p));
        assert(self.list_ok(p));
        assert(self.kid_ok(p, ks, pos));
        Tree::lemma_remove_no_dup(ks, pos);
        self.lemma_split(i);
        self.lemma_under_parent(i);
        assert(!self.under(i, p)) by {
            if self.under(i, p) {
                assert(self.depth@[p] < self.depth@[i]);
            }
        }
        // which slots the unlink touched
        let prev = if pos > 0 { ks[pos - 1] as int } else { -1 };
        if pos > 0 {
            assert(self.kid_ok(p, ks, pos - 1));
            assert(self.slot_ok(prev));
            assert(!self.under(i, prev)) by {
                if self.under(i, prev) {
                    assert(ks[pos - 1] != ks[pos]);
                }
            }
        }
        assert forall|m: int| 0 <= m < len implies #[trigger] ta[m] == (if m == p && pos == 0 {
            Node { first_child: self.nodes@[i].next_sibling, ..self.nodes@[m] }
        } else if m == prev {
            Node { next_sibling: self.nodes@[i].next_sibling, ..self.nodes@[m] }
        } else {
            self.nodes@[m]
        }) by {}
        // nodes below i are never ancestors of p
        assert forall|m: int| #[trigger] self.under(i, m) implies !self.under(m, p) by {
            if self.under(m, p) {
                self.lemma_under_trans(i, m, p);
            }
        }
        // liveness
        assert forall|m: int| #[trigger] t.live(m) == (self.live(m) && !self.under(i, m)) by {
            if 0 <= m < len {
                if self.under(i, m) {
                    assert(t.nodes@[m] == Node::spec_vacant());
                    assert(m != 0) by {
                        if m == 0 {
                            self.lemma_under_live(i, m);
                            assert(self.depth@[0] == 0);
                            self.lemma_depth_zero(i);
                        }
                    }
                } else {
                    assert(t.nodes@[m].parent == self.nodes@[m].parent);
                }
            }
        }
        // structure
        assert forall|m: int| 0 <= m < len implies #[trigger] t.slot_ok(m) by {
            assert(self.slot_ok(m));
            if self.under(i, m) {
                assert(t.nodes@[m] == Node::spec_vacant());
                EntryFlags::lemma_empty_not_dir();
            } else {
                assert(t.nodes@[m].name_ref() == self.nodes@[m].name_ref());
                if m != 0 && self.nodes@[m].parent != NONE {
                    let q = self.nodes@[m].parent as int;
                    assert(self.live(m));
                    self.lemma_under_parent(m);
                    assert(!self.under(i, q)) by {
                        if self.under(i, q) {
                            self.lemma_under_trans(i, q, m);
                        }
                    }
                    assert(t.live(q));
                    assert(t.nodes@[q].flags == self.nodes@[q].flags);
                    if q == p {
                        let k = choose|k: int| 0 <= k < ks.len() && ks[k] == m as u32;
                        assert(k != pos);
                        if k < pos {
                            assert(ks2[k] == ks[k]);
                        } else {
                            assert(ks2[k - 1] == ks[k]);
                        }
                        assert(t.kids@[p] == ks2);
                    }
                } else if m != 0 {
                    assert(m != p && m != prev);
                    assert(!self.under(m, p)) by {
                        if self.under(m, p) {
                            self.lemma_under_live(m, p);
                        }
                    }
                }
            }
        }
        assert forall|q: int| t.live(q) implies #[trigger] t.list_ok(q) by {
            assert(self.live(q));
            assert(!self.under(i, q));
            assert(self.list_ok(q));
            if q == p {
                assert(t.kids@[p] == ks2);
                assert(t.nodes@[p].first_child == (if ks2.len() == 0 { NONE } else { ks2[0] })) by {
                    if pos == 0 {
                        if ks.len() > 1 {
                            assert(ks2[0] == ks[1]);
                        }
                    } else {
                        assert(ks2[0] == ks[0]);
                    }
                }
                assert forall|j: int| 0 <= j < ks2.len() implies #[trigger] t.kid_ok(p, ks2, j) by {
                    let j2 = if j < pos { j } else { j + 1 };
                    assert(ks2[j] == ks[j2]);
                    assert(self.kid_ok(p, ks, j2));
                    let c = ks[j2] as int;
                    assert(self.slot_ok(c));
                    assert(!self.under(i, c)) by {
                        if self.under(i, c) {
                            assert(ks[j2] != ks[pos]);
                        }
                    }
                    assert(!self.under(c, p)) by {
                        if self.under(c, p) {
                            assert(self.depth@[c] == self.depth@[p] + 1);
                        }
                    }
                    if j + 1 < ks2.len() {
                        let j3 = if j + 1 < pos { j + 1 } else { j + 2 };
                        assert(ks2[j + 1] == ks[j3]);
                    }
                    if c == prev {
                        assert(j2 == pos - 1) by {
                            assert(ks[j2] == ks[pos - 1]);
                        }
                    } else {
                        assert(c != p);
                    }
                }
            } else {
                assert(t.kids@[q] == ks.remove(pos) || t.kids@[q] == self.kids@[q]);
                assert(t.kids@[q] == self.kids@[q]);
                let kq = self.kids@[q];
                assert(t.nodes@[q].first_child == self.nodes@[q].first_child);
                assert forall|j: int| 0 <= j < kq.len() implies #[trigger] t.kid_ok(q, kq, j) by {
                    assert(self.kid_ok(q, kq, j));
                    let c = kq[j] as int;
                    assert(self.slot_ok(c));
                    assert(!self.under(i, c)) by {
                        if self.under(i, c) {
                            if c == i {
                                assert(q == p);
                            } else {
                                self.lemma_under_strict(i, c);
                            }
                        }
                    }
                    assert(c != prev) by {
                        if c == prev {
                            assert(self.kid_ok(p, ks, pos - 1));
                        }
                    }
                }
            }
        }
        assert(t.nodes@[0].parent == NONE && t.nodes@[0].next_sibling == NONE) by {
            assert(!self.under(i, 0)) by {
                if self.under(i, 0) {
                    self.lemma_under_live(i, 0);
                    assert(self.depth@[0] == 0);
                    self.lemma_depth_zero(i);
                }
            }
            assert(0 != prev) by {
                if pos > 0 {
                    assert(self.kid_ok(p, ks, pos - 1));
                }
            }
        }
        assert(t.structure_ok());
        assert forall|x: int| #[trigger] t.live(x) implies self.live(x) && self.nodes@[x].parent == t.nodes@[x].parent
            && self.depth@[x] == t.depth@[x] by {}
        assert(t.shape_kept(self));
        // totals
        assert forall|n: int| t.live(n) implies #[trigger] t.agg_ok(n) by {
            self.lemma_removed_sums(t, i, p, rm, tb, n);
        }
        // the stated relation
        assert(ks.index_of(i as u32) == pos);
        assert(self.parent_of(i) == p);
        assert forall|m: int| 0 <= m < len implies #[trigger] self.removed_at(t, i, rm, m) by {
            if !self.under(i, m) && self.under(m, p) {
                self.lemma_under_trans(m, p, i);
                self.lemma_subtree_mono(m, i);
                assert(self.agg_ok(m)) by {
                    self.lemma_under_live(m, p);
                }
            }
        }
        assert(ks.index_of(i as u32) == pos);
        assert(rm.size == self.files_size(i));
        assert(t.slots() == self.slots());
        assert(t.name_bytes_view() == self.name_bytes_view());
        assert(self.parent_of(i) == p);
        assert(rm.allocated == self.files_allocated(i));
        assert(rm.files == self.file_count(i));
        assert(rm.dirs == self.dir_count(i));
    }

    /// The totals of a node left live by the removal of the subtree at `i`.
    proof fn lemma_removed_sums(&self, t: &Tree, i: int, p: int, rm: Removed, tb: Seq<Node>, n: int)
        requires
            self.wf(),
            self.live(i),
            i != 0,
            p == self.nodes@[i].parent as int,
            self.under(p, i),
            t.structure_ok(),
            t.shape_kept(self),
            t.nodes@.len() == self.nodes@.len(),
            forall|m: int| #[trigger] t.live(m) == (self.live(m) && !self.under(i, m)),
            tb.len() == self.nodes@.len(),
            forall|m: int| 0 <= m < self.nodes@.len() && !self.under(i, m) ==> #[trigger] same_totals(tb[m], self.nodes@[m]),
            forall|m: int| 0 <= m < self.nodes@.len() ==> #[trigger] t.nodes@[m] == Tree::lowered(tb[m], rm, self.under(m, p)),
            rm.size == self.files_size(i),
            rm.allocated == self.files_allocated(i),
            rm.files + rm.dirs == self.subtree_count(i),
            self.subtree_size(i) == self.files_size(i) + self.dirs_size(i),
            self.subtree_allocated(i) == self.files_allocated(i) + self.dirs_allocated(i),
            t.own@ == Seq::new(self.own@.len(), |m: int| if self.under(i, m) { 0nat } else if m == p { (self.own@[p] + self.dirs_size(i)) as nat } else { self.own@[m] }),
            t.own_alloc@ == Seq::new(self.own_alloc@.len(), |m: int| if self.under(i, m) { 0nat } else if m == p { (self.own_alloc@[p] + self.dirs_allocated(i)) as nat } else { self.own_alloc@[m] }),
            t.live(n),
        ensures
            t.agg_ok(n),
    {
        let len = self.nodes@.len() as int;
        assert(self.slot_ok(i));
        assert(self.live(n) && !self.under(i, n));
        assert(self.agg_ok(n));
        let hit = self.under(n, i);
        assert forall|m: int| 0 <= m < len implies #[trigger] t.under(n, m) == (self.under(n, m) && !self.under(i, m)) by {
            if t.live(m) {
                t.lemma_under_stable(self, n, m);
            } else if self.under(n, m) && !self.under(i, m) {
                assert(self.live(m));
            }
        }
        if hit {
            self.lemma_under_strict(n, i);
        } else {
            assert(!self.under(n, p)) by {
                if self.under(n, p) {
                    self.lemma_under_trans(n, p, i);
                }
            }
        }
        assert(t.under(n, p) == self.under(n, p)) by {
            self.lemma_under_live(p, i);
            assert(!self.under(i, p)) by {
                if self.under(i, p) {
                    assert(self.depth@[p] < self.depth@[i]);
                }
            }
        }
        // below n, the removed subtree is either wholly or not at all
        assert forall|m: int| 0 <= m < len && self.under(i, m) implies #[trigger] self.under(n, m) == hit by {
            if hit {
                self.lemma_under_trans(n, i, m);
            } else if self.under(n, m) {
                self.lemma_under_comparable(n, i, m);
            }
        }
        let c_size = |m: int| if self.under(n, m) && !self.under(i, m) { self.own_size(m) as int } else { 0 };
        let c_alloc = |m: int| if self.under(n, m) && !self.under(i, m) { self.own_allocated(m) as int } else { 0 };
        let c_count = |m: int| if self.under(n, m) && !self.under(i, m) { 1int } else { 0 };
        // t's terms are the kept ones, plus the directory bytes moved onto p
        assert forall|m: int| 0 <= m < len && m != p implies #[trigger] c_size(m) == (t.size_term(n))(m) by {}
        lemma_sum_point(c_size, t.size_term(n), p, len);
        assert forall|m: int| 0 <= m < len && m != p implies #[trigger] c_alloc(m) == (t.alloc_term(n))(m) by {}
        lemma_sum_point(c_alloc, t.alloc_term(n), p, len);
        assert forall|m: int| 0 <= m < len implies #[trigger] c_count(m) == (t.count_term(n))(m) by {}
        lemma_sum_ext(c_count, t.count_term(n), len);
        self.lemma_split(i);
        assert forall|m: int| 0 <= m < len implies #[trigger] c_size(m) >= 0 by {}
        lemma_sum_nonneg(c_size, len);
        assert forall|m: int| 0 <= m < len implies #[trigger] c_alloc(m) >= 0 by {}
        lemma_sum_nonneg(c_alloc, len);
        assert(same_totals(tb[n], self.nodes@[n]));
        assert(t.own@[p] == self.own@[p] + self.dirs_size(i));
        assert(t.own_alloc@[p] == self.own_alloc@[p] + self.dirs_allocated(i));
        if hit {
            assert forall|m: int| 0 <= m < len implies #[trigger] (self.size_term(n))(m) == c_size(m) + (self.size_term(i))(m) by {}
            lemma_sum_add(c_size, self.size_term(i), self.size_term(n), len);
            assert forall|m: int| 0 <= m < len implies #[trigger] (self.alloc_term(n))(m) == c_alloc(m) + (self.alloc_term(i))(m) by {}
            lemma_sum_add(c_alloc, self.alloc_term(i), self.alloc_term(n), len);
            assert forall|m: int| 0 <= m < len implies #[trigger] (self.count_term(n))(m) == c_count(m) + (self.count_term(i))(m) by {}
            lemma_sum_add(c_count, self.count_term(i), self.count_term(n), len);
            assert(self.under(n, p));
            assert(t.subtree_size(n) == sum_to(c_size, len) + self.dirs_size(i));
            assert(t.nodes@[n].size == tb[n].size - rm.size);
            assert(t.nodes@[n].allocated == tb[n].allocated - rm.allocated);
            let one = |m: int| if m == n { 1int } else { 0 };
            assert forall|m: int| 0 <= m < len && m != n implies #[trigger] one(m) == 0 by {}
            lemma_sum_single(one, n, len);
            assert forall|m: int| 0 <= m < len implies #[trigger] one(m) <= c_count(m) by {
                if m == n {
                    self.lemma_under_self(n);
                }
            }
            lemma_sum_le(one, c_count, len);
            assert(t.nodes@[n].items == tb[n].items - (rm.files + rm.dirs));
        } else {
            assert forall|m: int| 0 <= m < len implies #[trigger] (self.size_term(n))(m) == c_size(m) by {}
            lemma_sum_ext(self.size_term(n), c_size, len);
            assert forall|m: int| 0 <= m < len implies #[trigger] (self.alloc_term(n))(m) == c_alloc(m) by {}
            lemma_sum_ext(self.alloc_term(n), c_alloc, len);
            assert forall|m: int| 0 <= m < len implies #[trigger] (self.count_term(n))(m) == c_count(m) by {}
            lemma_sum_ext(self.count_term(n), c_count, len);
        }
    }

    /// `n` with the freed totals taken off when `hit`.
    pub open spec fn lowered(n: Node, rm: Removed, hit: bool) -> Node {
        if hit {
            Node {
                size: (n.size - rm.size) as u64,
                allocated: (n.allocated - rm.allocated) as u64,
                items: (n.items - (rm.files + rm.dirs)) as u32,
                ..n
            }
        } else {
            n
        }
    }

    /// `t` is `self` after removing the subtree at `id`, which freed `rm`.
    pub open spec fn removed_by(&self, t: &Tree, id: int, rm: Removed) -> bool {
        &&& rm.size == self.files_size(id)
        &&& rm.allocated == self.files_allocated(id)
        &&& rm.files == self.file_count(id)
        &&& rm.dirs == self.dir_count(id)
        &&& t.slots() == self.slots()
        &&& t.name_bytes_view() == self.name_bytes_view()
        &&& forall|m: int| 0 <= m < self.slots() ==> #[trigger] self.removed_at(t, id, rm, m)
    }

    /// A removal is determined by the tree and the id: two outcomes of
    /// removing `id` from `self` (say by `TreeBuilder::remove` and by
    /// `Tree::remove_subtree`) report the same freed totals and leave the
    /// same live nodes, with the same parents, names, flags, totals and
    /// children.
    pub proof fn lemma_removal_determined(&self, t1: &Tree, t2: &Tree, id: int, rm1: Removed, rm2: Removed)
        requires
            self.removed_by(t1, id, rm1),
            self.removed_by(t2, id, rm2),
        ensures
            rm1 == rm2,
            t1.slots() == t2.slots(),
            t1.name_bytes_view() == t2.name_bytes_view(),
            forall|m: int| 0 <= m < t1.slots() ==> {
                &&& #[trigger] t1.live(m) == t2.live(m)
                &&& t1.live(m) ==> t1.parent_of(m) == t2.parent_of(m)
                    && t1.name_view(m) == t2.name_view(m)
                    && t1.node_view(m).flags == t2.node_view(m).flags
                    && t1.node_view(m).mtime == t2.node_view(m).mtime
                    && t1.node_view(m).size == t2.node_view(m).size
                    && t1.node_view(m).allocated == t2.node_view(m).allocated
                    && t1.node_view(m).items == t2.node_view(m).items
                    && t1.children_of(m) == t2.children_of(m)
            },
    {
        assert forall|m: int| 0 <= m < t1.slots() implies {
            &&& #[trigger] t1.live(m) == t2.live(m)
            &&& t1.live(m) ==> t1.parent_of(m) == t2.parent_of(m)
                && t1.name_view(m) == t2.name_view(m)
                && t1.node_view(m).flags == t2.node_view(m).flags
                && t1.node_view(m).mtime == t2.node_view(m).mtime
                && t1.node_view(m).size == t2.node_view(m).size
                && t1.node_view(m).allocated == t2.node_view(m).allocated
                && t1.node_view(m).items == t2.node_view(m).items
                && t1.children_of(m) == t2.children_of(m)
        } by {
            assert(self.removed_at(t1, id, rm1, m));
            assert(self.removed_at(t2, id, rm2, m));
        }
    }

    /// Slot `m` after the removal: vacated if it was in the subtree; else the
    /// same node, where every former ancestor lost exactly the freed totals.
    pub open spec fn removed_at(&self, t: &Tree, id: int, rm: Removed, m: int) -> bool {
        let p = self.parent_of(id);
        &&& t.live(m) == (self.live(m) && !self.under(id, m))
        &&& self.under(id, m) ==> t.node_view(m) == Node::spec_vacant()
        &&& !self.under(id, m) ==> {
            &&& t.parent_of(m) == self.parent_of(m)
            &&& t.node_view(m).flags == self.node_view(m).flags
            &&& t.node_view(m).mtime == self.node_view(m).mtime
            &&& t.name_view(m) == self.name_view(m)
            &&& t.node_view(m).size == self.node_view(m).size - (if self.under(m, p) { rm.size as int } else { 0 })
            &&& t.node_view(m).allocated == self.node_view(m).allocated - (if self.under(m, p) { rm.allocated as int } else { 0 })
            &&& t.node_view(m).items == self.node_view(m).items - (if self.under(m, p) { rm.files + rm.dirs } else { 0 })
            &&& t.children_of(m) == (if m == p { self.children_of(p).remove(self.children_of(p).index_of(id as u32)) } else { self.children_of(m) })
            &&& t.own_size(m) == self.own_size(m) + (if m == p { self.dirs_size(id) } else { 0 })
            &&& t.own_allocated(m) == self.own_allocated(m) + (if m == p { self.dirs_allocated(id) } else { 0 })
        }
    }
}

/// `a` and `b` agree in their totals and parent link.
pub open spec fn same_totals(a: Node, b: Node) -> bool {
    &&& a.size == b.size
    &&& a.allocated == b.allocated
    &&& a.items == b.items
    &&& a.parent == b.parent
}

/// Slot `m` of the subtree at `root` has been vacated.
pub open spec fn done_at(t0: Tree, root: int, nodes: Seq<Node>, m: int) -> bool {
    t0.under(root, m) && nodes[m].parent == NONE
}

pub open spec fn done_size_term(t0: Tree, root: int, nodes: Seq<Node>) -> spec_fn(int) -> int {
    |m: int| if done_at(t0, root, nodes, m) && !t0.is_dir_at(m) { t0.own_size(m) as int } else { 0 }
}

pub open spec fn done_alloc_term(t0: Tree, root: int, nodes: Seq<Node>) -> spec_fn(int) -> int {
    |m: int| if done_at(t0, root, nodes, m) && !t0.is_dir_at(m) { t0.own_allocated(m) as int } else { 0 }
}

pub open spec fn done_file_term(t0: Tree, root: int, nodes: Seq<Node>) -> spec_fn(int) -> int {
    |m: int| if done_at(t0, root, nodes, m) && !t0.is_dir_at(m) { 1int } else { 0 }
}

pub open spec fn done_dir_term(t0: Tree, root: int, nodes: Seq<Node>) -> spec_fn(int) -> int {
    |m: int| if done_at(t0, root, nodes, m) && t0.is_dir_at(m) { 1int } else { 0 }
}

pub open spec fn left_term(t0: Tree, root: int, nodes: Seq<Node>) -> spec_fn(int) -> int {
    |m: int| if t0.under(root, m) && nodes[m].parent != NONE { 1int } else { 0 }
}

/// The state of the depth-first detach of the subtree at `root`: vacated
/// slots and intact ones, and a stack whose subtrees cover what is left.
pub open spec fn dfs_inv(t0: Tree, root: int, orig: Seq<Node>, nodes: Seq<Node>, stack: Seq<u32>) -> bool {
    let len = t0.slots() as int;
    &&& nodes.len() == len
    &&& orig.len() == len
    &&& forall|m: int| 0 <= m < len ==> #[trigger] nodes[m] == (if done_at(t0, root, nodes, m) { Node::spec_vacant() } else { orig[m] })
    &&& forall|i: int| 0 <= i < stack.len() ==> t0.under(root, #[trigger] stack[i] as int)
    &&& forall|i: int, m: int| 0 <= i < stack.len() && t0.under(#[trigger] stack[i] as int, m) ==> #[trigger] nodes[m].parent != NONE
    &&& forall|i: int, j: int| 0 <= i < stack.len() && 0 <= j < stack.len() && i != j ==> !t0.under(#[trigger] stack[i] as int, #[trigger] stack[j] as int)
    &&& forall|m: int| t0.under(root, m) && nodes[m].parent != NONE ==> exists|i: int| 0 <= i < stack.len() && #[trigger] t0.under(stack[i] as int, m)
}

/// One step of the detach: pop `c`, push its children, vacate it.
proof fn lemma_dfs_step(t0: Tree, root: int, orig: Seq<Node>, nodes0: Seq<Node>, stack0: Seq<u32>, nodes1: Seq<Node>, stack1: Seq<u32>, c: int)
    requires
        t0.wf(),
        t0.live(root),
        root != 0,
        forall|m: int| #[trigger] t0.under(root, m) ==> orig[m] == t0.nodes@[m],
        dfs_inv(t0, root, orig, nodes0, stack0),
        stack0.len() > 0,
        stack0[stack0.len() - 1] as int == c,
        nodes1 == nodes0.update(c, Node::spec_vacant()),
        stack1 == stack0.drop_last() + t0.kids@[c],
    ensures
        dfs_inv(t0, root, orig, nodes1, stack1),
        sum_to(done_size_term(t0, root, nodes1), t0.slots() as int) == sum_to(done_size_term(t0, root, nodes0), t0.slots() as int)
            + (if t0.is_dir_at(c) { 0 } else { t0.own_size(c) as int }),
        sum_to(done_alloc_term(t0, root, nodes1), t0.slots() as int) == sum_to(done_alloc_term(t0, root, nodes0), t0.slots() as int)
            + (if t0.is_dir_at(c) { 0 } else { t0.own_allocated(c) as int }),
        sum_to(done_file_term(t0, root, nodes1), t0.slots() as int) == sum_to(done_file_term(t0, root, nodes0), t0.slots() as int)
            + (if t0.is_dir_at(c) { 0int } else { 1 }),
        sum_to(done_dir_term(t0, root, nodes1), t0.slots() as int) == sum_to(done_dir_term(t0, root, nodes0), t0.slots() as int)
            + (if t0.is_dir_at(c) { 1int } else { 0 }),
        sum_to(left_term(t0, root, nodes1), t0.slots() as int) == sum_to(left_term(t0, root, nodes0), t0.slots() as int) - 1,
        sum_to(left_term(t0, root, nodes1), t0.slots() as int) >= 0,
        sum_to(done_size_term(t0, root, nodes1), t0.slots() as int) <= t0.files_size(root),
        sum_to(done_alloc_term(t0, root, nodes1), t0.slots() as int) <= t0.files_allocated(root),
        sum_to(done_file_term(t0, root, nodes1), t0.slots() as int) <= t0.file_count(root),
        sum_to(done_dir_term(t0, root, nodes1), t0.slots() as int) <= t0.dir_count(root),
{
    let len = t0.slots() as int;
    let last = stack0.len() - 1;
    let base = stack0.drop_last();
    let ks = t0.kids@[c];
    assert(t0.under(root, c));
    t0.lemma_under_live(root, c);
    t0.lemma_under_self(c);
    assert(nodes0[c].parent != NONE);
    assert(!done_at(t0, root, nodes0, c));
    assert(nodes0[c] == orig[c]);
    assert(0 <= c < len);
    assert(t0.list_ok(c));
    // done-ness changes exactly at c
    assert forall|m: int| 0 <= m < len && m != c implies #[trigger] done_at(t0, root, nodes1, m) == done_at(t0, root, nodes0, m) by {}
    assert(done_at(t0, root, nodes1, c));
    // children of c: below c, distinct, at one depth
    assert forall|k: int| 0 <= k < ks.len() implies #[trigger] t0.under(c, ks[k] as int) && ks[k] as int != c
        && t0.nodes@[ks[k] as int].parent as int == c && t0.live(ks[k] as int) by {
        assert(t0.kid_ok(c, ks, k));
        let x = ks[k] as int;
        assert(t0.live(x));
        t0.lemma_under_parent(x);
        assert(t0.slot_ok(x));
    }
    let inv_nodes = forall|m: int| 0 <= m < len ==> #[trigger] nodes1[m] == (if done_at(t0, root, nodes1, m) { Node::spec_vacant() } else { orig[m] });
    assert(inv_nodes) by {
        assert forall|m: int| 0 <= m < len implies #[trigger] nodes1[m] == (if done_at(t0, root, nodes1, m) { Node::spec_vacant() } else { orig[m] }) by {
            if m != c {
                assert(nodes0[m] == (if done_at(t0, root, nodes0, m) { Node::spec_vacant() } else { orig[m] }));
            }
        }
    }
    assert forall|i: int| 0 <= i < stack1.len() implies t0.under(root, #[trigger] stack1[i] as int) by {
        if i < base.len() {
            assert(stack1[i] == stack0[i]);
        } else {
            let k = i - base.len();
            assert(stack1[i] == ks[k]);
            assert(t0.under(c, ks[k] as int));
            t0.lemma_under_trans(root, c, ks[k] as int);
        }
    }
    assert forall|i: int, m: int| 0 <= i < stack1.len() && t0.under(#[trigger] stack1[i] as int, m) implies #[trigger] nodes1[m].parent != NONE by {
        if i < base.len() {
            assert(stack1[i] == stack0[i]);
            assert(nodes0[m].parent != NONE);
            if m == c {
                assert(stack0[last] as int == c);
                assert(!t0.under(stack0[i] as int, stack0[last] as int));
            }
        } else {
            let k = i - base.len();
            assert(stack1[i] == ks[k]);
            let s = ks[k] as int;
            assert(t0.under(c, s));
            t0.lemma_under_trans(c, s, m);
            assert(t0.under(stack0[last] as int, m));
            assert(nodes0[m].parent != NONE);
            if m == c {
                assert(t0.depth@[s] == t0.depth@[c] + 1) by {
                    assert(t0.kid_ok(c, ks, k));
                    assert(t0.slot_ok(s));
                }
            }
        }
    }
    assert forall|i: int, j: int| 0 <= i < stack1.len() && 0 <= j < stack1.len() && i != j implies !t0.under(#[trigger] stack1[i] as int, #[trigger] stack1[j] as int) by {
        let a = stack1[i] as int;
        let b = stack1[j] as int;
        if i < base.len() && j < base.len() {
            assert(stack1[i] == stack0[i]);
            assert(stack1[j] == stack0[j]);
        } else if i >= base.len() && j >= base.len() {
            let ki = i - base.len();
            let kj = j - base.len();
            assert(stack1[i] == ks[ki]);
            assert(stack1[j] == ks[kj]);
            assert(ks[ki] != ks[kj]);
            assert(t0.kid_ok(c, ks, ki));
            assert(t0.kid_ok(c, ks, kj));
            assert(t0.slot_ok(a));
            assert(t0.slot_ok(b));
        } else if i < base.len() {
            // a is an old stack entry, b a child of c
            assert(stack1[i] == stack0[i]);
            let kj = j - base.len();
            assert(stack1[j] == ks[kj]);
            assert(!t0.under(stack0[i] as int, stack0[last] as int));
            if t0.under(a, b) {
                if a == b {
                    assert(t0.under(c, a));
                    assert(t0.under(stack0[last] as int, stack0[i] as int));
                } else {
                    t0.lemma_under_strict(a, b);
                    assert(t0.kid_ok(c, ks, kj));
                }
            }
        } else {
            // a a child of c, b an old stack entry
            let ki = i - base.len();
            assert(stack1[i] == ks[ki]);
            assert(stack1[j] == stack0[j]);
            assert(!t0.under(stack0[last] as int, stack0[j] as int));
            if t0.under(a, b) {
                t0.lemma_under_trans(c, a, b);
            }
        }
    }
    assert forall|m: int| t0.under(root, m) && nodes1[m].parent != NONE implies exists|i: int| 0 <= i < stack1.len() && #[trigger] t0.under(stack1[i] as int, m) by {
        assert(m != c);
        assert(nodes0[m].parent != NONE);
        let i = choose|i: int| 0 <= i < stack0.len() && #[trigger] t0.under(stack0[i] as int, m);
        if i < last {
            assert(stack1[i] == stack0[i]);
        } else {
            assert(stack0[i] as int == c);
            let k = t0.lemma_below_child(c, m);
            assert(stack1[base.len() + k] == ks[k]);
        }
    }
    // tallies
    t0.lemma_split(root);
    lemma_sum_point(done_size_term(t0, root, nodes0), done_size_term(t0, root, nodes1), c, len);
    lemma_sum_point(done_alloc_term(t0, root, nodes0), done_alloc_term(t0, root, nodes1), c, len);
    lemma_sum_point(done_file_term(t0, root, nodes0), done_file_term(t0, root, nodes1), c, len);
    lemma_sum_point(done_dir_term(t0, root, nodes0), done_dir_term(t0, root, nodes1), c, len);
    lemma_sum_point(left_term(t0, root, nodes0), left_term(t0, root, nodes1), c, len);
    assert forall|m: int| 0 <= m < len implies #[trigger] (left_term(t0, root, nodes1))(m) >= 0 by {}
    lemma_sum_nonneg(left_term(t0, root, nodes1), len);
    assert forall|m: int| 0 <= m < len implies #[trigger] (done_size_term(t0, root, nodes1))(m) <= (t0.file_size_term(root))(m) by {}
    lemma_sum_le(done_size_term(t0, root, nodes1), t0.file_size_term(root), len);
    assert forall|m: int| 0 <= m < len implies #[trigger] (done_alloc_term(t0, root, nodes1))(m) <= (t0.file_alloc_term(root))(m) by {}
    lemma_sum_le(done_alloc_term(t0, root, nodes1), t0.file_alloc_term(root), len);
    assert forall|m: int| 0 <= m < len implies #[trigger] (done_file_term(t0, root, nodes1))(m) <= (t0.file_count_term(root))(m) by {}
    lemma_sum_le(done_file_term(t0, root, nodes1), t0.file_count_term(root), len);
    assert forall|m: int| 0 <= m < len implies #[trigger] (done_dir_term(t0, root, nodes1))(m) <= (t0.dir_count_term(root))(m) by {}
    lemma_sum_le(done_dir_term(t0, root, nodes1), t0.dir_count_term(root), len);
}

/// With the stack empty, the whole subtree has been vacated.
proof fn lemma_dfs_done(t0: Tree, root: int, orig: Seq<Node>, nodes: Seq<Node>)
    requires
        t0.wf(),
        dfs_inv(t0, root, orig, nodes, Seq::<u32>::empty()),
    ensures
        forall|m: int| 0 <= m < t0.slots() ==> #[trigger] nodes[m] == (if t0.under(root, m) { Node::spec_vacant() } else { orig[m] }),
        sum_to(done_size_term(t0, root, nodes), t0.slots() as int) == t0.files_size(root),
        sum_to(done_alloc_term(t0, root, nodes), t0.slots() as int) == t0.files_allocated(root),
        sum_to(done_file_term(t0, root, nodes), t0.slots() as int) == t0.file_count(root),
        sum_to(done_dir_term(t0, root, nodes), t0.slots() as int) == t0.dir_count(root),
{
    let len = t0.slots() as int;
    assert forall|m: int| t0.under(root, m) implies #[trigger] nodes[m].parent == NONE by {
        if nodes[m].parent != NONE {
            let i = choose|i: int| 0 <= i < 0 && #[trigger] t0.under(Seq::<u32>::empty()[i] as int, m);
        }
    }
    assert forall|m: int| 0 <= m < len implies #[trigger] nodes[m] == (if t0.under(root, m) { Node::spec_vacant() } else { orig[m] }) by {
        if t0.under(root, m) {
            assert(nodes[m].parent == NONE);
        }
    }
    assert forall|m: int| 0 <= m < len implies #[trigger] (done_size_term(t0, root, nodes))(m) == (t0.file_size_term(root))(m) by {
        if t0.under(root, m) {
            assert(nodes[m].parent == NONE);
        }
    }
    lemma_sum_ext(done_size_term(t0, root, nodes), t0.file_size_term(root), len);
    assert forall|m: int| 0 <= m < len implies #[trigger] (done_alloc_term(t0, root, nodes))(m) == (t0.file_alloc_term(root))(m) by {
        if t0.under(root, m) {
            assert(nodes[m].parent == NONE);
        }
    }
    lemma_sum_ext(done_alloc_term(t0, root, nodes), t0.file_alloc_term(root), len);
    assert forall|m: int| 0 <= m < len implies #[trigger] (done_file_term(t0, root, nodes))(m) == (t0.file_count_term(root))(m) by {
        if t0.under(root, m) {
            assert(nodes[m].parent == NONE);
        }
    }
    lemma_sum_ext(done_file_term(t0, root, nodes), t0.file_count_term(root), len);
    assert forall|m: int| 0 <= m < len implies #[trigger] (done_dir_term(t0, root, nodes))(m) == (t0.dir_count_term(root))(m) by {
        if t0.under(root, m) {
            assert(nodes[m].parent == NONE);
        }
    }
    lemma_sum_ext(done_dir_term(t0, root, nodes), t0.dir_count_term(root), len);
}

/// `prefix`, then `sep` unless `prefix` already ends with it, then `part`.
pub open spec fn join_path(prefix: Seq<char>, part: Seq<char>, sep: char) -> Seq<char> {
    if prefix.len() > 0 && prefix.last() == sep {
        prefix + part
    } else {
        prefix.push(sep) + part
    }
}

/// `std::path::MAIN_SEPARATOR`: the separator of path components on this
/// platform, which std documents as `/` on Unix and `\` on Windows.
#[verifier::external_body]
pub(crate) fn main_separator() -> (c: char)
    ensures
        c == '/' || c == '\\',
{
    std::path::MAIN_SEPARATOR
}

/// Iterates a node's children, following the sibling links.
pub struct ChildIter<'a> {
    tree: &'a Tree,
    next: u32,
    parent: Ghost<int>,
    pos: Ghost<int>,
}

impl<'a> ChildIter<'a> {
    pub closed spec fn tree_view(&self) -> Tree {
        *self.tree
    }

    /// The children not yet returned, in order.
    pub closed spec fn remaining(&self) -> Seq<u32> {
        let ks = self.tree.kids@[self.parent@];
        ks.subrange(self.pos@, ks.len() as int)
    }

    pub closed spec fn wf(&self) -> bool {
        let ks = self.tree.kids@[self.parent@];
        &&& self.tree.wf()
        &&& 0 <= self.parent@ < self.tree.nodes@.len()
        &&& 0 <= self.pos@ <= ks.len()
        &&& self.next == (if self.pos@ < ks.len() { ks[self.pos@] } else { NONE })
        &&& self.tree.live(self.parent@) || ks.len() == 0
    }

    pub fn next(&mut self) -> (r: Option<NodeId>)
        requires
            old(self).wf(),
        ensures
            final(self).wf(),
            final(self).tree_view() == old(self).tree_view(),
            old(self).remaining().len() == 0 ==> r is None && final(self).remaining() == old(self).remaining(),
            old(self).remaining().len() > 0 ==> r == Some(old(self).remaining()[0]) && final(self).remaining()
                == old(self).remaining().drop_first(),
    {
        let ghost ks = self.tree.kids@[self.parent@];
        if self.next == NONE {
            proof {
                if self.pos@ < ks.len() {
                    assert(self.tree.list_ok(self.parent@));
                    assert(self.tree.kid_ok(self.parent@, ks, self.pos@));
                }
            }
            return None;
        }
        let id = self.next;
        proof {
            assert(self.tree.list_ok(self.parent@));
            assert(self.tree.kid_ok(self.parent@, ks, self.pos@));
        }
        self.next = self.tree.nodes[id as usize].next_sibling;
        proof {
            self.pos@ = self.pos@ + 1;
            assert(ks.subrange(self.pos@, ks.len() as int) =~= ks.subrange(self.pos@ - 1, ks.len() as int).drop_first());
        }
        Some(id)
    }
}

/// The ids of a batch, in order.
pub open spec fn holds_id(es: Seq<FileEntry>, m: int) -> bool {
    exists|k: int| 0 <= k < es.len() && (#[trigger] es[k]).path_id == m
}

/// The children a batch links under `p`, most recent first.
pub open spec fn new_children(es: Seq<FileEntry>, p: int) -> Seq<u32>
    decreases es.len(),
{
    if es.len() == 0 {
        Seq::empty()
    } else {
        let e = es.last();
        let rest = new_children(es.drop_last(), p);
        if e.path_id != 0 && e.parent_id == p {
            seq![e.path_id] + rest
        } else {
            rest
        }
    }
}

/// The slot count after a batch: it grows to hold the largest id.
pub open spec fn slots_after(len: nat, es: Seq<FileEntry>) -> nat
    decreases es.len(),
{
    if es.len() == 0 {
        len
    } else {
        let l = slots_after(len, es.drop_last());
        if (es.last().path_id as nat) < l {
            l
        } else {
            es.last().path_id as nat + 1
        }
    }
}

pub open spec fn batch_size(es: Seq<FileEntry>) -> int
    decreases es.len(),
{
    if es.len() == 0 {
        0
    } else {
        batch_size(es.drop_last()) + es.last().size
    }
}

pub open spec fn batch_allocated(es: Seq<FileEntry>) -> int
    decreases es.len(),
{
    if es.len() == 0 {
        0
    } else {
        batch_allocated(es.drop_last()) + es.last().allocated_size
    }
}

pub open spec fn batch_name_bytes(es: Seq<FileEntry>) -> int
    decreases es.len(),
{
    if es.len() == 0 {
        0
    } else {
        batch_name_bytes(es.drop_last()) + es.last().name_len
    }
}

proof fn lemma_batch_prefix(es: Seq<FileEntry>, k: int)
    requires
        0 <= k <= es.len(),
    ensures
        batch_size(es.take(k)) <= batch_size(es),
        batch_allocated(es.take(k)) <= batch_allocated(es),
        batch_name_bytes(es.take(k)) <= batch_name_bytes(es),
    decreases es.len() - k,
{
    if k < es.len() {
        lemma_batch_prefix(es, k + 1);
        assert(es.take(k + 1).drop_last() =~= es.take(k));
    } else {
        assert(es.take(k) =~= es);
    }
}

impl Tree {
    /// Whether `add_batch` takes `batch`: every entry takes a free slot
    /// below `NONE` that no earlier entry of the batch took and, but for the
    /// root, hangs under a live directory or a directory earlier in the
    /// batch; the byte totals stay within `u64` and the name bytes within
    /// `u32`.
    pub fn accepts_batch(&self, batch: &EntryBatch) -> (r: bool)
        requires
            self.wf(),
        ensures
            r == (self.accepts(batch.entries@) && self.total_size() + batch_size(batch.entries@) <= u64::MAX
                && self.total_allocated() + batch_allocated(batch.entries@) <= u64::MAX && self.name_bytes_view().len()
                + batch_name_bytes(batch.entries@) <= u32::MAX),
    {
        broadcast use vstd::std_specs::hash::group_hash_axioms;

        let ghost es = batch.entries@;
        let n = batch.entries.len();
        let (ts, ta) = if self.nodes.len() > 0 {
            proof {
                self.lemma_root_totals();
            }
            (self.nodes[0].size, self.nodes[0].allocated)
        } else {
            (0u64, 0u64)
        };
        let mut sz: u128 = ts as u128;
        let mut al: u128 = ta as u128;
        let mut nb: u128 = self.name_bytes_used() as u128;
        if nb > 0xFFFF_FFFF {
            proof {
                lemma_batch_prefix(es, 0);
                assert(es.take(0) =~= Seq::<FileEntry>::empty());
            }
            return false;
        }
        let mut seen: std::collections::HashMap<u32, bool> = std::collections::HashMap::new();
        let mut k: usize = 0;
        proof {
            assert(es.take(0) =~= Seq::<FileEntry>::empty());
        }
        while k < n
            invariant
                self.wf(),
                es == batch.entries@,
                n == es.len(),
                k <= n,
                sz == self.total_size() + batch_size(es.take(k as int)),
                al == self.total_allocated() + batch_allocated(es.take(k as int)),
                nb == self.name_bytes_view().len() + batch_name_bytes(es.take(k as int)),
                sz <= u64::MAX,
                al <= u64::MAX,
                nb <= u32::MAX,
                forall|j: int| 0 <= j < k ==> #[trigger] self.entry_fits(es, j),
                forall|id: u32| #[trigger] seen@.contains_key(id) <==> exists|j: int| 0 <= j < k && (#[trigger] es[j]).path_id == id,
                forall|j: int| 0 <= j < k ==> #[trigger] seen@[es[j].path_id] == es[j].flags.spec_is_dir(),
            decreases n - k,
        {
            let e = &batch.entries[k];
            let ghost ki = k as int;
            proof {
                assert(es.take(ki + 1).drop_last() =~= es.take(ki));
                assert(es.take(ki + 1).last() == es[ki]);
            }
            if e.path_id >= NONE || self.is_live(e.path_id) || seen.contains_key(&e.path_id) {
                proof {
                    if seen@.contains_key(e.path_id) {
                        let j = choose|j: int| 0 <= j < ki && (#[trigger] es[j]).path_id == e.path_id;
                    }
                    assert(!self.entry_fits(es, ki));
                }
                return false;
            }
            if e.path_id != 0 {
                let p = e.parent_id;
                let in_tree = self.is_live(p) && self.nodes[p as usize].is_dir();
                let in_batch = match seen.get(&p) {
                    Some(d) => *d,
                    None => false,
                };
                if !in_tree && !in_batch {
                    proof {
                        if exists|j: int| 0 <= j < ki && (#[trigger] es[j]).path_id == e.parent_id && es[j].flags.spec_is_dir() {
                            let j = choose|j: int| 0 <= j < ki && (#[trigger] es[j]).path_id == e.parent_id && es[j].flags.spec_is_dir();
                            assert(seen@.contains_key(p));
                        }
                        assert(!self.entry_fits(es, ki));
                    }
                    return false;
                }
                proof {
                    if in_batch {
                        assert(seen@.contains_key(p));
                        let j = choose|j: int| 0 <= j < ki && (#[trigger] es[j]).path_id == p;
                        assert(seen@[es[j].path_id] == es[j].flags.spec_is_dir());
                    }
                }
            }
            proof {
                assert(self.entry_fits(es, ki));
            }
            sz = sz + e.size as u128;
            al = al + e.allocated_size as u128;
            nb = nb + e.name_len as u128;
            if sz > 0xFFFF_FFFF_FFFF_FFFF || al > 0xFFFF_FFFF_FFFF_FFFF || nb > 0xFFFF_FFFF {
                proof {
                    lemma_batch_prefix(es, ki + 1);
                }
                return false;
            }
            let ghost before = seen@;
            seen.insert(e.path_id, e.flags.is_dir());
            proof {
                assert forall|id: u32| #[trigger] seen@.contains_key(id) <==> exists|j: int| 0 <= j < ki + 1 && (#[trigger] es[j]).path_id == id by {
                    if seen@.contains_key(id) && id != e.path_id {
                        assert(before.contains_key(id));
                    }
                    if id == e.path_id {
                        assert(es[ki].path_id == id);
                    }
                }
                assert forall|j: int| 0 <= j < ki + 1 implies #[trigger] seen@[es[j].path_id] == es[j].flags.spec_is_dir() by {
                    if j < ki {
                        assert(es[j].path_id != e.path_id);
                    }
                }
            }
            k = k + 1;
        }
        proof {
            assert(es.take(n as int) =~= es);
        }
        true
    }
}

/// Consumes scanner batches and maintains the tree incrementally.
/// Scanner contract: a parent entry is emitted before its children (root is
/// entry 0 with `parent_id == 0`); sibling batches may arrive in any order.
pub struct TreeBuilder {
    tree: Tree,
}

impl TreeBuilder {
    pub closed spec fn tree_view(&self) -> Tree {
        self.tree
    }

    pub fn new() -> (r: TreeBuilder)
        ensures
            r.tree_view().wf(),
            r.tree_view().slots() == 0,
            r.tree_view().name_bytes_view() == Seq::<u8>::empty(),
    {
        TreeBuilder { tree: Tree::new() }
    }

    pub fn tree(&self) -> (r: &Tree)
        ensures
            *r == self.tree_view(),
    {
        &self.tree
    }

    pub fn finish(self) -> (r: Tree)
        ensures
            r == self.tree_view(),
    {
        self.tree
    }

    /// Marks a directory that could not be read. Out-of-range ids are ignored.
    pub fn mark_error(&mut self, id: NodeId)
        requires
            old(self).tree_view().wf(),
        ensures
            final(self).tree_view().wf(),
            (id as int) < old(self).tree_view().slots() ==> final(self).tree_view().reflagged(
                &old(self).tree_view(),
                id as int,
                EntryFlags(old(self).tree_view().node_view(id as int).flags.0 | 4),
            ),
            (id as int) >= old(self).tree_view().slots() ==> final(self).tree_view() == old(self).tree_view(),
    {
        if (id as usize) < self.tree.nodes.len() {
            let mut f = self.tree.nodes[id as usize].flags;
            f.insert(EntryFlags::error());
            proof {
                Tree::lemma_error_keeps_dir(self.tree.nodes@[id as int].flags);
            }
            self.tree.set_flags(id as usize, f);
        }
    }

    /// Removes the subtree at `id`; see `Tree::remove_subtree`.
    pub fn remove(&mut self, id: NodeId) -> (r: Option<Removed>)
        requires
            old(self).tree_view().wf(),
        ensures
            final(self).tree_view().wf(),
            final(self).tree_view().slots() == old(self).tree_view().slots(),
            !(old(self).tree_view().live(id as int) && id != 0) ==> r is None && final(self).tree_view() == old(self).tree_view(),
            old(self).tree_view().live(id as int) && id != 0 ==> (r matches Some(rm) && old(self).tree_view().removed_by(
                &final(self).tree_view(),
                id as int,
                rm,
            )),
    {
        self.tree.remove_subtree(id)
    }

    /// Detaches the insertion-only name lookup while keeping names
    /// readable; the detached table is handed back to be dropped elsewhere.
    pub fn release_name_index(&mut self) -> (dead: std::collections::HashMap<u64, Vec<NameRef>>)
        requires
            old(self).tree_view().wf(),
        ensures
            final(self).tree_view().wf(),
            final(self).tree_view().slots() == old(self).tree_view().slots(),
            final(self).tree_view().name_bytes_view() == old(self).tree_view().name_bytes_view(),
            dead@ == old(self).tree_view().name_table(),
            final(self).tree_view().name_table() == Map::<u64, Vec<NameRef>>::empty(),
            final(self).tree_view().name_index() == Map::<Seq<u8>, NameRef>::empty(),
            forall|m: int| 0 <= m < final(self).tree_view().slots() ==> #[trigger] final(self).tree_view().keeps(&old(self).tree_view(), m)
                && final(self).tree_view().node_view(m) == old(self).tree_view().node_view(m)
                && final(self).tree_view().children_of(m) == old(self).tree_view().children_of(m),
    {
        let ghost t0: Tree = self.tree;
        let dead = self.tree.names.release_index();
        proof {
            t0.lemma_names_grow(&self.tree, Seq::<u8>::empty());
        }
        dead
    }

    /// Inserts every entry of `batch`, in order, and adds each one's totals
    /// to all of its ancestors.
    pub fn add_batch(&mut self, batch: &EntryBatch)
        requires
            old(self).tree_view().wf(),
            batch.wf(),
            old(self).tree_view().accepts(batch.entries@),
            old(self).tree_view().total_size() + batch_size(batch.entries@) <= u64::MAX,
            old(self).tree_view().total_allocated() + batch_allocated(batch.entries@) <= u64::MAX,
            old(self).tree_view().name_bytes_view().len() + batch_name_bytes(batch.entries@) <= u32::MAX,
        ensures
            final(self).tree_view().wf(),
            final(self).tree_view().slots() == slots_after(old(self).tree_view().slots(), batch.entries@),
            forall|m: int| #[trigger] final(self).tree_view().live(m) == (old(self).tree_view().live(m) || holds_id(batch.entries@, m)),
            forall|k: int| 0 <= k < batch.entries@.len() ==> final(self).tree_view().placed(
                #[trigger] batch.entries@[k],
                name_bytes(bytes_of(batch.names@), batch.entries@[k]),
            ),
            forall|m: int| 0 <= m < old(self).tree_view().slots() && !holds_id(batch.entries@, m)
                ==> #[trigger] final(self).tree_view().keeps(&old(self).tree_view(), m),
            forall|p: int| 0 <= p < final(self).tree_view().slots() ==> #[trigger] final(self).tree_view().children_of(p)
                == new_children(batch.entries@, p) + (if p < old(self).tree_view().slots() { old(self).tree_view().children_of(p) } else { Seq::<u32>::empty() }),
            final(self).tree_view().total_size() == old(self).tree_view().total_size() + batch_size(batch.entries@),
            final(self).tree_view().total_allocated() == old(self).tree_view().total_allocated() + batch_allocated(batch.entries@),
    {
        let ghost t0: Tree = self.tree;
        let ghost es = batch.entries@;
        let mut k: usize = 0;
        proof {
            assert(es.take(0) =~= Seq::<FileEntry>::empty());
        }
        while k < batch.entries.len()
            invariant
                0 <= k <= es.len(),
                es == batch.entries@,
                batch.wf(),
                t0.wf(),
                t0.accepts(es),
                t0.total_size() + batch_size(es) <= u64::MAX,
                t0.total_allocated() + batch_allocated(es) <= u64::MAX,
                t0.name_bytes_view().len() + batch_name_bytes(es) <= u32::MAX,
                self.tree.wf(),
                self.tree.slots() == slots_after(t0.slots(), es.take(k as int)),
                forall|m: int| #[trigger] self.tree.live(m) == (t0.live(m) || holds_id(es.take(k as int), m)),
                forall|j: int| 0 <= j < k ==> self.tree.placed(#[trigger] es[j], name_bytes(bytes_of(batch.names@), es[j])),
                forall|m: int| 0 <= m < t0.slots() && !holds_id(es.take(k as int), m) ==> #[trigger] self.tree.keeps(&t0, m),
                forall|p: int| 0 <= p < self.tree.slots() ==> #[trigger] self.tree.children_of(p)
                    == new_children(es.take(k as int), p) + (if p < t0.slots() { t0.children_of(p) } else { Seq::<u32>::empty() }),
                self.tree.total_size() == t0.total_size() + batch_size(es.take(k as int)),
                self.tree.total_allocated() == t0.total_allocated() + batch_allocated(es.take(k as int)),
                self.tree.name_bytes_view().len() <= t0.name_bytes_view().len() + batch_name_bytes(es.take(k as int)),
            decreases es.len() - k,
        {
            let e = &batch.entries[k];
            let ghost ki = k as int;
            let ghost before: Tree = self.tree;
            let ghost tk = es.take(ki);
            let ghost tk1 = es.take(ki + 1);
            proof {
                assert(tk1.drop_last() =~= tk);
                assert(tk1.last() == *e);
                lemma_batch_prefix(es, ki + 1);
                assert(name_range_ok(bytes_of(batch.names@), *e));
            }
            let s = batch.name_of(e);
            proof {
                self.tree.names.lemma_index();
            }
            let r = self.tree.names.intern(s);
            let ghost renamed: Tree = self.tree;
            proof {
                encode_utf8_valid_utf8(s@);
                before.lemma_names_grow(&renamed, s.spec_bytes());
                // the entry's requirements, in the tree as it stands
                assert(t0.entry_fits(es, ki));
                assert(!holds_id(tk, e.path_id as int)) by {
                    if holds_id(tk, e.path_id as int) {
                        let j = choose|j: int| 0 <= j < tk.len() && (#[trigger] tk[j]).path_id == e.path_id as int;
                        assert(es[j] == tk[j]);
                    }
                }
                assert(!renamed.live(e.path_id as int));
                if e.path_id != 0 {
                    let q = e.parent_id as int;
                    if t0.live(q) && t0.is_dir_at(q) {
                        assert(!holds_id(tk, q)) by {
                            if holds_id(tk, q) {
                                let j = choose|j: int| 0 <= j < tk.len() && (#[trigger] tk[j]).path_id == q;
                                assert(es[j] == tk[j]);
                                assert(t0.entry_fits(es, j));
                            }
                        }
                        assert(before.keeps(&t0, q));
                    } else {
                        let j = choose|j: int| 0 <= j < ki && (#[trigger] es[j]).path_id == e.parent_id && es[j].flags.spec_is_dir();
                        assert(before.placed(es[j], name_bytes(bytes_of(batch.names@), es[j])));
                    }
                }
            }
            self.tree.add_entry(r, e);
            proof {
                let t = self.tree;
                let id = e.path_id as int;
                assert(t.added(&renamed, r, *e));
                assert forall|m: int| #[trigger] t.live(m) == (t0.live(m) || holds_id(tk1, m)) by {
                    if m == id {
                        assert(tk1[ki] == *e);
                        assert(holds_id(tk1, m));
                    } else {
                        assert(holds_id(tk1, m) == holds_id(tk, m)) by {
                            if holds_id(tk1, m) {
                                let j = choose|j: int| 0 <= j < tk1.len() && (#[trigger] tk1[j]).path_id == m;
                                if j == ki {
                                    assert(tk1[ki] == *e);
                                }
                                assert(tk[j] == tk1[j]);
                            }
                            if holds_id(tk, m) {
                                let j = choose|j: int| 0 <= j < tk.len() && (#[trigger] tk[j]).path_id == m;
                                assert(tk1[j] == tk[j]);
                            }
                        }
                        assert(before.live(m) == (t0.live(m) || holds_id(tk, m)));
                        assert(renamed.live(m) == before.live(m));
                        if 0 <= m < t.nodes@.len() {
                            assert(t.kept_from(&renamed, m, *e));
                        } else {
                            assert(!t.live(m));
                            assert(!renamed.live(m));
                        }
                    }
                }
                assert forall|j: int| 0 <= j <= ki implies t.placed(#[trigger] es[j], name_bytes(bytes_of(batch.names@), es[j])) by {
                    if j < ki {
                        let m = es[j].path_id as int;
                        assert(before.placed(es[j], name_bytes(bytes_of(batch.names@), es[j])));
                        assert(t0.entry_fits(es, ki));
                        assert(m != id);
                        assert(renamed.live(m));
                        assert(t.kept_from(&renamed, m, *e));
                        assert(renamed.name_view(m) == before.name_view(m));
                    } else {
                        assert(es[j] == *e);
                    }
                }
                lemma_slots_after_ge(t0.slots(), tk);
                assert forall|m: int| 0 <= m < t0.slots() && !holds_id(tk1, m) implies #[trigger] t.keeps(&t0, m) by {
                    assert(!holds_id(tk, m)) by {
                        if holds_id(tk, m) {
                            let j = choose|j: int| 0 <= j < tk.len() && (#[trigger] tk[j]).path_id == m;
                            assert(tk1[j] == tk[j]);
                        }
                    }
                    assert(m != id) by {
                        if m == id {
                            assert(tk1[ki].path_id == m);
                        }
                    }
                    assert(before.keeps(&t0, m));
                    assert(t.kept_from(&renamed, m, *e));
                    assert(renamed.name_view(m) == before.name_view(m));
                }
                assert forall|p: int| 0 <= p < t.slots() implies #[trigger] t.children_of(p)
                    == new_children(tk1, p) + (if p < t0.slots() { t0.children_of(p) } else { Seq::<u32>::empty() }) by {
                    let old_k = if p < t0.slots() { t0.children_of(p) } else { Seq::<u32>::empty() };
                    assert(new_children(tk1, p) == (if e.path_id != 0 && e.parent_id == p { seq![e.path_id] + new_children(tk, p) } else { new_children(tk, p) }));
                    if p == id {
                        assert(t.kids@[id] == Seq::<u32>::empty());
                        lemma_no_children_yet(t0, es, ki, id);
                        assert(new_children(tk, p) == Seq::<u32>::empty());
                        if p < t0.slots() {
                            assert(!t0.live(p));
                            t0.lemma_dead_no_kids(p);
                        }
                        assert(e.parent_id != p || e.path_id == 0) by {
                            if e.path_id != 0 && e.parent_id == p {
                                assert(t0.entry_fits(es, ki));
                                if t0.live(p) {
                                } else {
                                    let j = choose|j: int| 0 <= j < ki && (#[trigger] es[j]).path_id == e.parent_id && es[j].flags.spec_is_dir();
                                }
                            }
                        }
                        assert(new_children(tk1, p) + old_k =~= Seq::<u32>::empty());
                    } else {
                        assert(t.kept_from(&renamed, p, *e));
                        if p < before.nodes@.len() {
                            assert(before.children_of(p) == new_children(tk, p) + old_k);
                            assert(renamed.kids@[p] == before.kids@[p]);
                        } else {
                            assert(p >= t0.slots());
                            lemma_no_children_beyond(t0, es, ki, p);
                        }
                        if e.path_id != 0 && e.parent_id == p {
                            assert(seq![e.path_id] + (new_children(tk, p) + old_k) =~= (seq![e.path_id] + new_children(tk, p)) + old_k);
                        }
                    }
                }
            }
            k = k + 1;
        }
        proof {
            assert(es.take(es.len() as int) =~= es);
        }
    }
}

proof fn lemma_slots_after_ge(len: nat, es: Seq<FileEntry>)
    ensures
        slots_after(len, es) >= len,
    decreases es.len(),
{
    if es.len() > 0 {
        lemma_slots_after_ge(len, es.drop_last());
    }
}

/// Before entry `k`, no earlier entry names the fresh id `id` as its parent.
proof fn lemma_no_children_yet(t0: Tree, es: Seq<FileEntry>, k: int, id: int)
    requires
        t0.accepts(es),
        0 <= k < es.len(),
        es[k].path_id == id,
    ensures
        new_children(es.take(k), id) == Seq::<u32>::empty(),
{
    assert(t0.entry_fits(es, k));
    lemma_children_from(t0, es, k, k, id);
}

proof fn lemma_children_from(t0: Tree, es: Seq<FileEntry>, k: int, i: int, id: int)
    requires
        t0.accepts(es),
        0 <= i <= k < es.len(),
        es[k].path_id == id,
    ensures
        new_children(es.take(i), id) == Seq::<u32>::empty(),
    decreases i,
{
    if i > 0 {
        lemma_children_from(t0, es, k, i - 1, id);
        assert(es.take(i).drop_last() =~= es.take(i - 1));
        let e = es[i - 1];
        assert(t0.entry_fits(es, k));
        assert(t0.entry_fits(es, i - 1));
        if e.path_id != 0 && e.parent_id == id {
            assert(es[k].path_id != es[i - 1].path_id || i - 1 == k);
            if t0.live(id) {
                assert(false);
            } else {
                let j = choose|j: int| 0 <= j < i - 1 && (#[trigger] es[j]).path_id == e.parent_id && es[j].flags.spec_is_dir();
                assert(es[j].path_id != es[k].path_id);
            }
        }
    }
}

/// Slots beyond both the old tree and the batch so far have no new children.
proof fn lemma_no_children_beyond(t0: Tree, es: Seq<FileEntry>, k: int, p: int)
    requires
        t0.accepts(es),
        0 <= k <= es.len(),
        !t0.live(p),
        !holds_id(es.take(k), p),
    ensures
        new_children(es.take(k), p) == Seq::<u32>::empty(),
    decreases k,
{
    if k > 0 {
        let tk = es.take(k);
        assert(tk.drop_last() =~= es.take(k - 1));
        assert(!holds_id(es.take(k - 1), p)) by {
            if holds_id(es.take(k - 1), p) {
                let j = choose|j: int| 0 <= j < k - 1 && (#[trigger] es.take(k - 1)[j]).path_id == p;
                assert(tk[j] == es.take(k - 1)[j]);
            }
        }
        lemma_no_children_beyond(t0, es, k - 1, p);
        let e = es[k - 1];
        assert(t0.entry_fits(es, k - 1));
        if e.path_id != 0 && e.parent_id == p {
            if !t0.live(p) {
                let j = choose|j: int| 0 <= j < k - 1 && (#[trigger] es[j]).path_id == e.parent_id && es[j].flags.spec_is_dir();
                assert(tk[j] == es[j]);
            }
        }
    }
}

} // verus!
