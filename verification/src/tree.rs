use vstd::prelude::*;

use crate::algebra::Transform;
use crate::algebra::compose;
use crate::algebra::identity;
use crate::algebra::invert_transform;
use crate::algebra::is_identity;
use crate::algebra::spec_compose;
use crate::algebra::spec_invert;

verus! {

/// Why an operation on the tree was refused. Every failure is returned
/// explicitly; no failure is swallowed.
#[derive(Debug)]
pub enum TfError {
    /// `add_frame` was given an id that is already registered.
    DuplicateFrame(String),
    /// `add_frame` was given a parent id that is not registered.
    ParentNotFound(String),
    /// A chain walk revisited an id. Defensive only: the registry invariant
    /// proves the walks terminate, so this variant is never produced.
    CycleDetected(String),
    /// The named frame is not registered.
    FrameNotFound(String),
    /// `remove_frame` was asked to remove a frame that still has children.
    HasChildren(String),
    /// `get_transform` was asked about two frames whose ancestor chains
    /// share no id.
    DisconnectedFrames(String, String),
    /// A batch or snapshot carried input that could not be decoded.
    MalformedInput,
}

/// The mathematical record of one frame: its parent link and its local
/// transform (its pose relative to the parent, or to world if it is a root).
pub ghost struct FrameModel {
    pub parent: Option<Seq<char>>,
    pub local: Transform,
}

/// The sequence of abstract ids behind a sequence of id strings.
pub open spec fn seq_views(s: Seq<String>) -> Seq<Seq<char>> {
    s.map_values(|x: String| x@)
}

pub open spec fn opt_view(o: Option<String>) -> Option<Seq<char>> {
    match o {
        Option::Some(s) => Option::Some(s@),
        Option::None => Option::None,
    }
}

/// One entry of a batch update: the frame to retarget and its new local
/// transform.
#[derive(Clone)]
pub struct FrameUpdate {
    pub id: String,
    pub transform: Transform,
}

/// The sequence of abstract ids named by a batch.
pub open spec fn update_ids(s: Seq<FrameUpdate>) -> Seq<Seq<char>> {
    s.map_values(|u: FrameUpdate| u.id@)
}

/// The registry after a batch has been applied in order: each named frame
/// keeps its parent and takes the transform of its last occurrence.
pub open spec fn apply_updates_map(
    m: Map<Seq<char>, FrameModel>,
    s: Seq<FrameUpdate>,
) -> Map<Seq<char>, FrameModel>
    decreases s.len(),
{
    if s.len() == 0 {
        m
    } else {
        let m2 = apply_updates_map(m, s.drop_last());
        let u = s.last();
        if m2.dom().contains(u.id@) {
            m2.insert(u.id@, FrameModel { parent: m2[u.id@].parent, local: u.transform })
        } else {
            m2
        }
    }
}

/// One frame of the snapshot exchange format: its id, its parent link and
/// its local transform.
#[derive(Clone)]
pub struct SnapshotEntry {
    pub id: String,
    pub parent_id: Option<String>,
    pub transform: Transform,
}

/// The registry a snapshot describes, built front to back.
pub open spec fn snapshot_map(s: Seq<SnapshotEntry>) -> Map<Seq<char>, FrameModel>
    decreases s.len(),
{
    if s.len() == 0 {
        Map::empty()
    } else {
        snapshot_map(s.drop_last()).insert(
            s.last().id@,
            FrameModel { parent: opt_view(s.last().parent_id), local: s.last().transform },
        )
    }
}

/// Entry `j` of a snapshot is new and names a parent that some earlier
/// entry introduced.
pub open spec fn snapshot_entry_ok(s: Seq<SnapshotEntry>, j: int) -> bool {
    &&& !snapshot_map(s.take(j)).dom().contains(s[j].id@)
    &&& match s[j].parent_id {
        Option::Some(p) => snapshot_map(s.take(j)).dom().contains(p@),
        Option::None => true,
    }
}

/// A snapshot decodes cleanly when each of its entries does.
pub open spec fn snapshot_ok(s: Seq<SnapshotEntry>) -> bool {
    forall|j: int| 0 <= j < s.len() ==> #[trigger] snapshot_entry_ok(s, j)
}

/// One stored frame: the canonical record plus the lazily cached world
/// transform (`world`) and its staleness flag (`dirty`).
struct FrameEntry {
    id: String,
    parent_id: Option<String>,
    local: Transform,
    world: Option<Transform>,
    dirty: bool,
}

impl FrameEntry {
    spec fn model(self) -> FrameModel {
        FrameModel { parent: opt_view(self.parent_id), local: self.local }
    }
}

/// A hierarchy of named coordinate frames, each with a rigid-body pose
/// relative to its parent. Parent links form a forest; world transforms are
/// memoized and invalidated per subtree on every write. The children
/// relation is read off the parent links, so the two can never disagree.
pub struct TfTree {
    entries: Vec<FrameEntry>,
    /// Where each registered id sits in `entries`.
    index: Ghost<Map<Seq<char>, int>>,
    /// Distance of each frame from its root; witnesses acyclicity.
    depth: Ghost<Map<Seq<char>, nat>>,
}

impl TfTree {
    /// The registry: each registered id mapped to its parent link and local
    /// transform.
    pub closed spec fn frames(self) -> Map<Seq<char>, FrameModel> {
        Map::new(
            |k: Seq<char>| self.index@.dom().contains(k),
            |k: Seq<char>| self.entries@[self.index@[k]].model(),
        )
    }

    /// The ids whose cached world transform is stale.
    pub closed spec fn dirty(self) -> Set<Seq<char>> {
        Set::new(
            |k: Seq<char>| self.index@.dom().contains(k) && self.entries@[self.index@[k]].dirty,
        )
    }

    /// The memoized world transforms.
    pub closed spec fn cache(self) -> Map<Seq<char>, Transform> {
        Map::new(
            |k: Seq<char>| self.index@.dom().contains(k) && self.entries@[self.index@[k]].world
                is Some,
            |k: Seq<char>| match self.entries@[self.index@[k]].world {
                Option::Some(w) => w,
                Option::None => self.entries@[self.index@[k]].local,
            },
        )
    }

    spec fn entry_ok(self, i: int) -> bool {
        let e = self.entries@[i];
        &&& self.index@.dom().contains(e.id@)
        &&& self.index@[e.id@] == i
        &&& self.depth@.dom().contains(e.id@)
        &&& match e.parent_id {
            Option::Some(p) => {
                &&& self.index@.dom().contains(p@)
                &&& self.index@[p@] < i
                &&& self.depth@[e.id@] == self.depth@[p@] + 1
            },
            Option::None => self.depth@[e.id@] == 0,
        }
    }

    /// Structural well-formedness: ids are unique, every parent link points
    /// at an earlier entry, and `depth` decreases strictly along parent
    /// links, which rules out cycles.
    pub closed spec fn inv_base(self) -> bool {
        &&& self.index@.dom().finite()
        &&& forall|k: Seq<char>| #[trigger] self.index@.dom().contains(k) ==> 0 <= self.index@[k]
            < self.entries@.len() && self.entries@[self.index@[k]].id@ == k
        &&& forall|i: int| 0 <= i < self.entries@.len() ==> #[trigger] self.entry_ok(i)
    }

    /// How far `x` stands from its root: the length of its parent chain.
    pub closed spec fn depth_of(self, x: Seq<char>) -> nat {
        self.depth@[x]
    }

    /// The world transform of `x`: its own local transform if it is a root,
    /// else the parent's world transform composed with `x`'s local transform.
    pub closed spec fn world_of(self, x: Seq<char>) -> Transform
        decreases self.depth_of(x),
        when self.inv_base() && self.frames().dom().contains(x)
        via Self::world_of_decreases
    {
        match self.frames()[x].parent {
            Option::None => self.frames()[x].local,
            Option::Some(p) => spec_compose(self.world_of(p), self.frames()[x].local),
        }
    }

    #[via_fn]
    proof fn world_of_decreases(self, x: Seq<char>) {
        self.lemma_parent_step(x);
    }

    /// `x` lies in the subtree rooted at `root`: `root` stands on `x`'s
    /// parent chain (possibly `x` itself).
    pub closed spec fn in_subtree(self, root: Seq<char>, x: Seq<char>) -> bool
        decreases self.depth_of(x),
        when self.inv_base()
        via Self::in_subtree_decreases
    {
        if self.frames().dom().contains(x) {
            x == root || (match self.frames()[x].parent {
                Option::Some(p) => self.in_subtree(root, p),
                Option::None => false,
            })
        } else {
            false
        }
    }

    #[via_fn]
    proof fn in_subtree_decreases(self, root: Seq<char>, x: Seq<char>) {
        if self.frames().dom().contains(x) {
            self.lemma_parent_step(x);
        }
    }

    /// Two frames are connected when their ancestor chains share an id.
    pub open spec fn connected(self, a: Seq<char>, b: Seq<char>) -> bool {
        exists|c: Seq<char>| self.in_subtree(c, a) && self.in_subtree(c, b)
    }

    /// Under the structural invariant, a registered frame's parent is
    /// registered, and sits strictly closer to the root.
    proof fn lemma_parent_step(self, x: Seq<char>)
        requires
            self.inv_base(),
            self.frames().dom().contains(x),
        ensures
            self.depth@.dom().contains(x),
            match self.frames()[x].parent {
                Option::Some(p) => {
                    &&& self.frames().dom().contains(p)
                    &&& self.depth@.dom().contains(p)
                    &&& self.depth@[x] == self.depth@[p] + 1
                },
                Option::None => self.depth@[x] == 0,
            },
    {
        let i = self.index@[x];
        assert(self.entry_ok(i));
        let e = self.entries@[i];
        match e.parent_id {
            Option::Some(p) => {
                let j = self.index@[p@];
                assert(self.entry_ok(j));
            },
            Option::None => {},
        }
    }

    /// A registered frame lies in its own subtree.
    proof fn lemma_in_subtree_self(self, x: Seq<char>)
        requires
            self.inv_base(),
            self.frames().dom().contains(x),
        ensures
            self.in_subtree(x, x),
    {
    }

    /// Both ends of a subtree relation are registered, and the root stands
    /// at most as deep as the member.
    proof fn lemma_in_subtree_dom(self, r: Seq<char>, x: Seq<char>)
        requires
            self.inv_base(),
            self.in_subtree(r, x),
        ensures
            self.frames().dom().contains(x),
            self.frames().dom().contains(r),
            self.depth@[r] <= self.depth@[x],
            r != x ==> self.depth@[r] < self.depth@[x],
        decreases self.depth_of(x),
    {
        if x != r {
            self.lemma_parent_step(x);
            match self.frames()[x].parent {
                Option::Some(p) => {
                    self.lemma_in_subtree_dom(r, p);
                },
                Option::None => {},
            }
        }
    }

    /// Subtree membership is transitive along the ancestor order.
    proof fn lemma_in_subtree_trans(self, a: Seq<char>, b: Seq<char>, c: Seq<char>)
        requires
            self.inv_base(),
            self.in_subtree(a, b),
            self.in_subtree(b, c),
        ensures
            self.in_subtree(a, c),
        decreases self.depth_of(c),
    {
        if c != b {
            self.lemma_parent_step(c);
            match self.frames()[c].parent {
                Option::Some(p) => {
                    self.lemma_in_subtree_trans(a, b, p);
                },
                Option::None => {},
            }
        }
    }

    /// A strict subtree member is reached through some child of the root.
    proof fn lemma_subtree_step(self, r: Seq<char>, x: Seq<char>)
        requires
            self.inv_base(),
            self.in_subtree(r, x),
            x != r,
        ensures
            exists|c: Seq<char>|
                #[trigger] self.frames().dom().contains(c) && self.frames()[c].parent
                    == Option::Some(r) && self.in_subtree(c, x),
        decreases self.depth_of(x),
    {
        self.lemma_parent_step(x);
        match self.frames()[x].parent {
            Option::Some(p) => {
                if p == r {
                    assert(self.frames().dom().contains(x) && self.frames()[x].parent
                        == Option::Some(r) && self.in_subtree(x, x));
                } else {
                    self.lemma_subtree_step(r, p);
                    let c = choose|c: Seq<char>|
                        #[trigger] self.frames().dom().contains(c) && self.frames()[c].parent
                            == Option::Some(r) && self.in_subtree(c, p);
                    assert(self.frames().dom().contains(c) && self.frames()[c].parent
                        == Option::Some(r) && self.in_subtree(c, x));
                }
            },
            Option::None => {},
        }
    }

    /// The world transform of a frame depends only on the records along its
    /// parent chain: two trees that agree there agree on the world transform
    /// and on subtree membership.
    proof fn lemma_same_chain(t1: Self, t2: Self, x: Seq<char>)
        requires
            t1.inv_base(),
            t2.inv_base(),
            t1.frames().dom().contains(x),
            forall|y: Seq<char>| #[trigger] t1.in_subtree(y, x) ==> t2.frames().dom().contains(y)
                && t2.frames()[y] == t1.frames()[y],
        ensures
            t2.frames().dom().contains(x),
            t2.world_of(x) == t1.world_of(x),
            forall|y: Seq<char>| t1.in_subtree(y, x) <==> t2.in_subtree(y, x),
        decreases t1.depth_of(x),
    {
        t1.lemma_in_subtree_self(x);
        assert(t2.frames().dom().contains(x) && t2.frames()[x] == t1.frames()[x]);
        match t1.frames()[x].parent {
            Option::None => {
                assert forall|y: Seq<char>| t1.in_subtree(y, x) <==> t2.in_subtree(y, x) by {
                    assert(t1.in_subtree(y, x) == (x == y));
                    assert(t2.in_subtree(y, x) == (x == y));
                }
            },
            Option::Some(p) => {
                t1.lemma_parent_step(x);
                assert forall|y: Seq<char>| #[trigger] t1.in_subtree(y, p) implies t2.frames()
                    .dom().contains(y) && t2.frames()[y] == t1.frames()[y] by {
                    assert(t1.in_subtree(y, x));
                }
                Self::lemma_same_chain(t1, t2, p);
                assert forall|y: Seq<char>| t1.in_subtree(y, x) <==> t2.in_subtree(y, x) by {
                    assert(t1.in_subtree(y, x) == (x == y || t1.in_subtree(y, p)));
                    assert(t2.in_subtree(y, x) == (x == y || t2.in_subtree(y, p)));
                }
            },
        }
    }

    /// Subtree membership depends only on the parent links along the chain:
    /// two trees that agree there agree on membership, whatever the local
    /// transforms are.
    proof fn lemma_same_parents(t1: Self, t2: Self, x: Seq<char>)
        requires
            t1.inv_base(),
            t2.inv_base(),
            t1.frames().dom().contains(x),
            forall|y: Seq<char>| #[trigger] t1.in_subtree(y, x) ==> t2.frames().dom().contains(y)
                && t2.frames()[y].parent == t1.frames()[y].parent,
        ensures
            t2.frames().dom().contains(x),
            forall|y: Seq<char>| t1.in_subtree(y, x) <==> t2.in_subtree(y, x),
        decreases t1.depth_of(x),
    {
        t1.lemma_in_subtree_self(x);
        match t1.frames()[x].parent {
            Option::None => {
                assert forall|y: Seq<char>| t1.in_subtree(y, x) <==> t2.in_subtree(y, x) by {
                    assert(t1.in_subtree(y, x) == (x == y));
                    assert(t2.in_subtree(y, x) == (x == y));
                }
            },
            Option::Some(p) => {
                t1.lemma_parent_step(x);
                assert forall|y: Seq<char>| #[trigger] t1.in_subtree(y, p) implies t2.frames()
                    .dom().contains(y) && t2.frames()[y].parent == t1.frames()[y].parent by {
                    assert(t1.in_subtree(y, x));
                }
                Self::lemma_same_parents(t1, t2, p);
                assert forall|y: Seq<char>| t1.in_subtree(y, x) <==> t2.in_subtree(y, x) by {
                    assert(t1.in_subtree(y, x) == (x == y || t1.in_subtree(y, p)));
                    assert(t2.in_subtree(y, x) == (x == y || t2.in_subtree(y, p)));
                }
            },
        }
    }

    /// Some batch member other than `c` stands on `c`'s ancestor chain.
    spec fn proper_batch_anc(self, bs: Seq<Seq<char>>, c: Seq<char>) -> bool {
        exists|a: Seq<char>| bs.contains(a) && a != c && self.in_subtree(a, c)
    }

    /// `x` lies in the subtree of a member of the first `k` updates that has
    /// no other batch member above it.
    spec fn covered_prefix(self, updates: Seq<FrameUpdate>, k: int, x: Seq<char>) -> bool {
        exists|j: int| 0 <= j < k && !self.proper_batch_anc(update_ids(updates), updates[j].id@)
            && self.in_subtree(#[trigger] updates[j].id@, x)
    }

    /// `x` lies in the subtree of some member of `bs`.
    pub open spec fn covered(self, bs: Seq<Seq<char>>, x: Seq<char>) -> bool {
        exists|a: Seq<char>| bs.contains(a) && self.in_subtree(a, x)
    }

    /// Every batch member is covered by a batch member that itself has no
    /// batch member strictly above it.
    proof fn lemma_batch_cover(self, bs: Seq<Seq<char>>, c: Seq<char>)
        requires
            self.inv_base(),
            bs.contains(c),
            forall|k: int| 0 <= k < bs.len() ==> self.frames().dom().contains(#[trigger] bs[k]),
        ensures
            exists|k: Seq<char>| bs.contains(k) && !self.proper_batch_anc(bs, k)
                && #[trigger] self.in_subtree(k, c),
        decreases self.depth@[c],
    {
        let ci = bs.index_of(c);
        assert(self.frames().dom().contains(c));
        if self.proper_batch_anc(bs, c) {
            let a = choose|a: Seq<char>| bs.contains(a) && a != c && self.in_subtree(a, c);
            self.lemma_in_subtree_dom(a, c);
            self.lemma_batch_cover(bs, a);
            let k = choose|k: Seq<char>| bs.contains(k) && !self.proper_batch_anc(bs, k)
                && #[trigger] self.in_subtree(k, a);
            self.lemma_in_subtree_trans(k, a, c);
            assert(self.in_subtree(k, c));
        } else {
            self.lemma_in_subtree_self(c);
            assert(self.in_subtree(c, c));
        }
    }

    /// Cache coherence away from `s`: every clean cached entry outside `s`
    /// holds its true world transform.
    spec fn coh_at(self, i: int, s: Set<Seq<char>>) -> bool {
        let e = self.entries@[i];
        (!e.dirty && e.world is Some) ==> (s.contains(e.id@) || e.world == Option::Some(
            self.world_of(e.id@),
        ))
    }

    spec fn coh_except(self, s: Set<Seq<char>>) -> bool {
        forall|i: int| 0 <= i < self.entries@.len() ==> #[trigger] self.coh_at(i, s)
    }

    /// The full invariant: structure plus cache coherence. A cached world
    /// transform is usable output exactly when its frame is not dirty.
    pub closed spec fn inv(self) -> bool {
        self.inv_base() && self.coh_except(Set::empty())
    }

    /// An empty tree: no frames, nothing cached, nothing dirty.
    pub fn new() -> (r: TfTree)
        ensures
            r.inv(),
            r.frames() == Map::<Seq<char>, FrameModel>::empty(),
            r.dirty() == Set::<Seq<char>>::empty(),
            r.cache() == Map::<Seq<char>, Transform>::empty(),
    {
        let r = TfTree {
            entries: Vec::new(),
            index: Ghost(Map::empty()),
            depth: Ghost(Map::empty()),
        };
        proof {
            assert(r.frames() =~= Map::<Seq<char>, FrameModel>::empty());
            assert(r.dirty() =~= Set::<Seq<char>>::empty());
            assert(r.cache() =~= Map::<Seq<char>, Transform>::empty());
        }
        r
    }

    /// Where `key` sits in `entries`, if it is registered.
    fn find(&self, key: &String) -> (r: Option<usize>)
        requires
            self.inv_base(),
        ensures
            match r {
                Option::Some(i) => {
                    &&& i < self.entries@.len()
                    &&& self.entries@[i as int].id@ == key@
                    &&& self.index@.dom().contains(key@)
                    &&& self.index@[key@] == i as int
                },
                Option::None => !self.frames().dom().contains(key@),
            },
    {
        let n = self.entries.len();
        let mut i: usize = 0;
        while i < n
            invariant
                n == self.entries@.len(),
                i <= n,
                self.inv_base(),
                forall|j: int| 0 <= j < i ==> self.entries@[j].id@ != key@,
            decreases n - i,
        {
            if self.entries[i].id == *key {
                proof {
                    assert(self.entry_ok(i as int));
                }
                return Option::Some(i);
            }
            i += 1;
        }
        proof {
            if self.index@.dom().contains(key@) {
                assert(self.entries@[self.index@[key@]].id@ == key@);
                assert(false);
            }
        }
        Option::None
    }

    /// Whether `id` is registered. No side effects.
    pub fn has_frame(&self, id: &str) -> (r: bool)
        requires
            self.inv(),
        ensures
            r == self.frames().dom().contains(id@),
    {
        let key = id.to_owned();
        match self.find(&key) {
            Option::Some(_) => true,
            Option::None => false,
        }
    }

    /// Whether `id` has at least one registered child. No side effects.
    pub fn has_children(&self, id: &str) -> (r: bool)
        requires
            self.inv(),
        ensures
            r == exists|c: Seq<char>|
                #[trigger] self.frames().dom().contains(c) && self.frames()[c].parent
                    == Option::Some(id@),
    {
        let key = id.to_owned();
        let n = self.entries.len();
        let mut i: usize = 0;
        while i < n
            invariant
                n == self.entries@.len(),
                i <= n,
                self.inv_base(),
                key@ == id@,
                forall|j: int| 0 <= j < i ==> opt_view(self.entries@[j].parent_id)
                    != Option::Some(id@),
            decreases n - i,
        {
            let found = match &self.entries[i].parent_id {
                Option::Some(p) => *p == key,
                Option::None => false,
            };
            if found {
                proof {
                    assert(self.entry_ok(i as int));
                    let c = self.entries@[i as int].id@;
                    assert(self.frames().dom().contains(c));
                    assert(self.frames()[c].parent == Option::Some(id@));
                }
                return true;
            }
            i += 1;
        }
        proof {
            if exists|c: Seq<char>|
                #[trigger] self.frames().dom().contains(c) && self.frames()[c].parent
                    == Option::Some(id@) {
                let c = choose|c: Seq<char>|
                    #[trigger] self.frames().dom().contains(c) && self.frames()[c].parent
                        == Option::Some(id@);
                let j = self.index@[c];
                assert(self.entry_ok(j));
                assert(opt_view(self.entries@[j].parent_id) == Option::Some(id@));
            }
        }
        false
    }

    /// Register a new frame with the given parent link and local transform.
    ///
    /// Fails with `DuplicateFrame` when `id` is taken, `ParentNotFound` when
    /// the parent is unknown. The cycle guard walks the candidate parent's
    /// ancestor chain; the registry invariant proves it never meets `id`, so
    /// registration cannot create a cycle. Atomic: any failure leaves the
    /// tree unchanged. On success the new frame is dirty and nothing is
    /// evicted from the cache.
    pub fn add_frame(&mut self, id: &str, parent_id: Option<String>, transform: Transform) -> (r:
        Result<(), TfError>)
        requires
            old(self).inv(),
        ensures
            final(self).inv(),
            r is Ok <==> (!old(self).frames().dom().contains(id@) && (parent_id matches Option::Some(
                p,
            ) ==> old(self).frames().dom().contains(p@))),
            r is Ok ==> {
                &&& final(self).frames() == old(self).frames().insert(
                    id@,
                    (FrameModel { parent: opt_view(parent_id), local: transform }),
                )
                &&& final(self).dirty() == old(self).dirty().insert(id@)
                &&& final(self).cache() == old(self).cache()
            },
            r is Err ==> *final(self) == *old(self),
            old(self).frames().dom().contains(id@) ==> (r matches Result::Err(
                TfError::DuplicateFrame(s),
            ) && s@ == id@),
            parent_id matches Option::Some(p) ==> ((!old(self).frames().dom().contains(id@)
                && !old(self).frames().dom().contains(p@)) ==> (r matches Result::Err(
                TfError::ParentNotFound(s),
            ) && s@ == p@)),
    {
        let key = id.to_owned();
        if let Option::Some(_) = self.find(&key) {
            return Result::Err(TfError::DuplicateFrame(key));
        }
        let mut parent_depth: Ghost<nat> = Ghost(0);
        match &parent_id {
            Option::Some(p) => {
                match self.find(p) {
                    Option::None => {
                        return Result::Err(TfError::ParentNotFound(p.clone()));
                    },
                    Option::Some(pi) => {
                        proof {
                            parent_depth@ = self.depth@[p@];
                        }
                        // Cycle guard: walk the parent chain looking for `id`.
                        let mut cur: usize = pi;
                        loop
                            invariant
                                self.inv_base(),
                                cur < self.entries@.len(),
                                !self.frames().dom().contains(key@),
                            decreases self.depth@[self.entries@[cur as int].id@],
                        {
                            proof {
                                assert(self.entry_ok(cur as int));
                            }
                            if self.entries[cur].id == key {
                                proof {
                                    assert(false);
                                }
                                return Result::Err(TfError::CycleDetected(key));
                            }
                            let next = match &self.entries[cur].parent_id {
                                Option::Some(p2) => self.find(p2),
                                Option::None => Option::None,
                            };
                            match next {
                                Option::Some(j) => {
                                    cur = j;
                                },
                                Option::None => {
                                    break;
                                },
                            }
                        }
                    },
                }
            },
            Option::None => {},
        }
        let ghost pre = *self;
        let ghost n = self.entries@.len() as int;
        let ghost nd: nat = match opt_view(parent_id) {
            Option::Some(p) => (pre.depth@[p] + 1) as nat,
            Option::None => 0,
        };
        let entry = FrameEntry {
            id: key,
            parent_id: parent_id,
            local: transform,
            world: Option::None,
            dirty: true,
        };
        self.entries.push(entry);
        proof {
            self.index@ = pre.index@.insert(id@, n);
            self.depth@ = pre.depth@.insert(id@, nd);
        }
        proof {
            assert forall|i: int| 0 <= i < self.entries@.len() implies #[trigger] self.entry_ok(
                i,
            ) by {
                if i < n {
                    assert(pre.entry_ok(i));
                    assert(self.entries@[i] == pre.entries@[i]);
                    assert(pre.entries@[i].id@ != id@);
                    match pre.entries@[i].parent_id {
                        Option::Some(p) => {
                            assert(pre.index@.dom().contains(p@));
                            assert(p@ != id@);
                        },
                        Option::None => {},
                    }
                } else {
                    assert(self.entries@[i].id@ == id@);
                }
            }
            assert(self.inv_base());
            assert(self.frames() =~= pre.frames().insert(
                id@,
                FrameModel { parent: opt_view(parent_id), local: transform },
            ));
            assert(self.dirty() =~= pre.dirty().insert(id@));
            assert(self.cache() =~= pre.cache());
            assert forall|i: int| 0 <= i < self.entries@.len() implies #[trigger] self.coh_at(
                i,
                Set::empty(),
            ) by {
                if i < n {
                    let e = self.entries@[i];
                    assert(e == pre.entries@[i]);
                    assert(pre.entry_ok(i));
                    assert(pre.coh_at(i, Set::empty()));
                    if !e.dirty && e.world is Some {
                        assert(pre.frames().dom().contains(e.id@));
                        assert forall|y: Seq<char>| #[trigger] pre.in_subtree(y, e.id@) implies
                            self.frames().dom().contains(y) && self.frames()[y] == pre.frames()[y]
                            by {
                            pre.lemma_in_subtree_dom(y, e.id@);
                        }
                        Self::lemma_same_chain(pre, *self, e.id@);
                    }
                }
            }
        }
        Result::Ok(())
    }

    /// Whether the frame stored at `i` lies in the subtree rooted at the
    /// frame named `root`, by walking its parent chain.
    fn descends_from(&self, i: usize, root: &String) -> (r: bool)
        requires
            self.inv_base(),
            i < self.entries@.len(),
        ensures
            r == self.in_subtree(root@, self.entries@[i as int].id@),
    {
        let mut cur: usize = i;
        loop
            invariant
                self.inv_base(),
                cur < self.entries@.len(),
                self.in_subtree(root@, self.entries@[i as int].id@) == self.in_subtree(
                    root@,
                    self.entries@[cur as int].id@,
                ),
            decreases self.depth@[self.entries@[cur as int].id@],
        {
            proof {
                assert(self.entry_ok(cur as int));
            }
            let ghost cur_id = self.entries@[cur as int].id@;
            if self.entries[cur].id == *root {
                proof {
                    assert(self.in_subtree(root@, cur_id));
                }
                return true;
            }
            match &self.entries[cur].parent_id {
                Option::Some(p2) => {
                    let next = self.find(p2);
                    proof {
                        assert(self.frames().dom().contains(cur_id));
                        assert(self.frames()[cur_id].parent == Option::Some(p2@));
                        assert(self.in_subtree(root@, cur_id) == self.in_subtree(root@, p2@));
                    }
                    match next {
                        Option::Some(j) => {
                            cur = j;
                        },
                        Option::None => {
                            proof {
                                assert(false);
                            }
                            return false;
                        },
                    }
                },
                Option::None => {
                    proof {
                        assert(self.frames().dom().contains(cur_id));
                        assert(self.frames()[cur_id].parent is None);
                        assert(!self.in_subtree(root@, cur_id));
                    }
                    return false;
                },
            }
        }
    }

    /// Every frame in the subtree rooted at `root`, `root` itself included.
    /// Order is unspecified; only the set of ids matters.
    fn collect_subtree(&self, root: &String) -> (r: Vec<String>)
        requires
            self.inv_base(),
        ensures
            seq_views(r@).no_duplicates(),
            forall|x: Seq<char>| seq_views(r@).contains(x) <==> self.in_subtree(root@, x),
    {
        let n = self.entries.len();
        let mut r: Vec<String> = Vec::new();
        let mut i: usize = 0;
        while i < n
            invariant
                self.inv_base(),
                n == self.entries@.len(),
                i <= n,
                seq_views(r@).no_duplicates(),
                forall|x: Seq<char>| seq_views(r@).contains(x) <==> (self.in_subtree(root@, x)
                    && self.index@.dom().contains(x) && self.index@[x] < i),
            decreases n - i,
        {
            proof {
                assert(self.entry_ok(i as int));
            }
            let ghost prev = r@;
            let ghost cur_id = self.entries@[i as int].id@;
            if self.descends_from(i, root) {
                r.push(self.entries[i].id.clone());
                proof {
                    assert(seq_views(r@) =~= seq_views(prev).push(cur_id));
                    assert(!seq_views(prev).contains(cur_id));
                    assert forall|x: Seq<char>| seq_views(r@).contains(x) implies (
                        self.in_subtree(root@, x) && self.index@.dom().contains(x)
                            && self.index@[x] < i + 1) by {
                        if x != cur_id {
                            assert(seq_views(prev).contains(x));
                        }
                    }
                    assert forall|x: Seq<char>| (self.in_subtree(root@, x)
                        && self.index@.dom().contains(x) && self.index@[x] < i + 1) implies
                        seq_views(r@).contains(x) by {
                        if self.index@[x] < i {
                            assert(seq_views(prev).contains(x));
                            assert(seq_views(r@)[seq_views(prev).index_of(x)] == x);
                        } else {
                            assert(x == cur_id);
                            assert(seq_views(r@)[seq_views(prev).len() as int] == x);
                        }
                    }
                }
            } else {
                proof {
                    assert forall|x: Seq<char>| seq_views(r@).contains(x) implies (
                        self.in_subtree(root@, x) && self.index@.dom().contains(x)
                            && self.index@[x] < i + 1) by {}
                    assert forall|x: Seq<char>| (self.in_subtree(root@, x)
                        && self.index@.dom().contains(x) && self.index@[x] < i + 1) implies
                        seq_views(r@).contains(x) by {
                        if self.index@[x] == i {
                            assert(x == cur_id);
                            assert(false);
                        }
                    }
                }
            }
            i += 1;
        }
        proof {
            assert forall|x: Seq<char>| self.in_subtree(root@, x) implies seq_views(r@).contains(
                x,
            ) by {
                self.lemma_in_subtree_dom(root@, x);
            }
        }
        r
    }

    /// Mark every id in `ids` stale: evict its cached world transform and
    /// add it to the dirty set.
    fn apply_dirty(&mut self, ids: &Vec<String>)
        requires
            old(self).inv_base(),
            forall|k: int| 0 <= k < ids@.len() ==> old(self).frames().dom().contains(ids@[k]@),
            old(self).coh_except(seq_views(ids@).to_set()),
        ensures
            final(self).inv(),
            final(self).frames() == old(self).frames(),
            final(self).index@ == old(self).index@,
            final(self).depth@ == old(self).depth@,
            final(self).dirty() == old(self).dirty().union(seq_views(ids@).to_set()),
            final(self).cache() == old(self).cache().remove_keys(seq_views(ids@).to_set()),
    {
        let ghost pre = *self;
        let m = ids.len();
        let mut k: usize = 0;
        while k < m
            invariant
                pre.inv_base(),
                m == ids@.len(),
                k <= m,
                forall|j: int| 0 <= j < ids@.len() ==> pre.frames().dom().contains(ids@[j]@),
                self.inv_base(),
                self.index == pre.index,
                self.depth == pre.depth,
                self.entries@.len() == pre.entries@.len(),
                forall|j: int| 0 <= j < self.entries@.len() ==> {
                    let e = #[trigger] self.entries@[j];
                    let oe = pre.entries@[j];
                    &&& e.id == oe.id
                    &&& e.parent_id == oe.parent_id
                    &&& e.local == oe.local
                    &&& (if seq_views(ids@.take(k as int)).contains(e.id@) {
                        e.world is None && e.dirty
                    } else {
                        e == oe
                    })
                },
            decreases m - k,
        {
            let ghost mid = *self;
            let idx = match self.find(&ids[k]) {
                Option::Some(idx) => idx,
                Option::None => {
                    proof {
                        assert(mid.inv_base());
                        assert(pre.frames().dom().contains(ids@[k as int]@));
                        assert(false);
                    }
                    0
                },
            };
            self.entries[idx].world = Option::None;
            self.entries[idx].dirty = true;
            proof {
                assert(seq_views(ids@.take(k + 1)) =~= seq_views(ids@.take(k as int)).push(
                    ids@[k as int]@,
                ));
                assert forall|j: int| 0 <= j < self.entries@.len() implies {
                    let e = #[trigger] self.entries@[j];
                    let oe = pre.entries@[j];
                    &&& e.id == oe.id
                    &&& e.parent_id == oe.parent_id
                    &&& e.local == oe.local
                    &&& (if seq_views(ids@.take(k + 1)).contains(e.id@) {
                        e.world is None && e.dirty
                    } else {
                        e == oe
                    })
                } by {
                    if j != idx {
                        assert(self.entries@[j] == mid.entries@[j]);
                        if seq_views(ids@.take(k as int)).contains(self.entries@[j].id@) {
                            let ii = seq_views(ids@.take(k as int)).index_of(
                                self.entries@[j].id@,
                            );
                            assert(seq_views(ids@.take(k + 1))[ii] == self.entries@[j].id@);
                            assert(seq_views(ids@.take(k + 1)).contains(self.entries@[j].id@));
                        }
                        if seq_views(ids@.take(k + 1)).contains(self.entries@[j].id@)
                            && !seq_views(ids@.take(k as int)).contains(self.entries@[j].id@) {
                            assert(self.entries@[j].id@ == ids@[k as int]@);
                            assert(mid.entry_ok(j));
                            assert(mid.entry_ok(idx as int));
                            assert(false);
                        }
                    } else {
                        assert(self.entries@[j].id == mid.entries@[j].id);
                        assert(self.entries@[j].world is None && self.entries@[j].dirty);
                        assert(self.entries@[j].id@ == ids@[k as int]@);
                        assert(seq_views(ids@.take(k + 1)).last() == ids@[k as int]@);
                        assert(seq_views(ids@.take(k + 1)).contains(self.entries@[j].id@));
                    }
                }
                assert(self.inv_base()) by {
                    assert forall|j: int| 0 <= j < self.entries@.len() implies
                        #[trigger] self.entry_ok(j) by {
                        assert(mid.entry_ok(j));
                    }
                    assert forall|kk: Seq<char>| #[trigger] self.index@.dom().contains(
                        kk,
                    ) implies 0 <= self.index@[kk] < self.entries@.len()
                        && self.entries@[self.index@[kk]].id@ == kk by {
                        assert(mid.entries@[mid.index@[kk]].id@ == kk);
                    }
                }
            }
            k += 1;
        }
        proof {
            assert(self.inv_base()) by {
                assert forall|j: int| 0 <= j < self.entries@.len() implies #[trigger] self.entry_ok(
                    j,
                ) by {
                    assert(pre.entry_ok(j));
                }
                assert forall|kk: Seq<char>| #[trigger] self.index@.dom().contains(kk) implies 0
                    <= self.index@[kk] < self.entries@.len() && self.entries@[self.index@[kk]].id@
                    == kk by {
                    assert(pre.entries@[pre.index@[kk]].id@ == kk);
                }
            }
            assert(self.frames() =~= pre.frames());
            assert(seq_views(ids@.take(ids@.len() as int)) =~= seq_views(ids@));
            assert(self.dirty() =~= pre.dirty().union(seq_views(ids@).to_set())) by {
                assert forall|x: Seq<char>| self.dirty().contains(x) == (pre.dirty().contains(x)
                    || (pre.frames().dom().contains(x) && seq_views(ids@).to_set().contains(
                    x,
                ))) by {
                    if self.index@.dom().contains(x) {
                        assert(pre.entry_ok(self.index@[x]));
                    }
                }
                assert forall|x: Seq<char>| seq_views(ids@).to_set().contains(x) implies
                    pre.frames().dom().contains(x) by {
                    let j = choose|j: int| 0 <= j < ids@.len() && seq_views(ids@)[j] == x;
                    assert(pre.frames().dom().contains(ids@[j]@));
                }
            }
            assert(self.cache() =~= pre.cache().remove_keys(seq_views(ids@).to_set()));
            assert forall|j: int| 0 <= j < self.entries@.len() implies #[trigger] self.coh_at(
                j,
                Set::empty(),
            ) by {
                let e = self.entries@[j];
                if !e.dirty && e.world is Some {
                    assert(e == pre.entries@[j]);
                    assert(pre.coh_at(j, seq_views(ids@).to_set()));
                    assert(!seq_views(ids@).to_set().contains(e.id@));
                    assert(pre.entry_ok(j));
                    assert forall|y: Seq<char>| #[trigger] pre.in_subtree(y, e.id@) implies
                        self.frames().dom().contains(y) && self.frames()[y] == pre.frames()[y] by {
                        pre.lemma_in_subtree_dom(y, e.id@);
                    }
                    Self::lemma_same_chain(pre, *self, e.id@);
                }
            }
        }
    }

    /// Replace the local transform of `id`. Fails with `FrameNotFound` when
    /// `id` is unknown, and then changes nothing. On success returns exactly
    /// the ids whose world transform went stale: `id` and every descendant;
    /// their cache entries are evicted, everything else is untouched.
    pub fn update_frame(&mut self, id: &str, transform: Transform) -> (r: Result<
        Vec<String>,
        TfError,
    >)
        requires
            old(self).inv(),
        ensures
            final(self).inv(),
            r is Ok <==> old(self).frames().dom().contains(id@),
            r is Err ==> *final(self) == *old(self) && (r matches Result::Err(
                TfError::FrameNotFound(s),
            ) && s@ == id@),
            r matches Result::Ok(v) ==> {
                &&& final(self).frames() == old(self).frames().insert(
                    id@,
                    (FrameModel { parent: old(self).frames()[id@].parent, local: transform }),
                )
                &&& seq_views(v@).no_duplicates()
                &&& (forall|x: Seq<char>| seq_views(v@).contains(x) <==> old(self).in_subtree(
                    id@,
                    x,
                ))
                &&& final(self).dirty() == old(self).dirty().union(
                    Set::new(|x: Seq<char>| old(self).in_subtree(id@, x)),
                )
                &&& final(self).cache() == old(self).cache().remove_keys(
                    Set::new(|x: Seq<char>| old(self).in_subtree(id@, x)),
                )
            },
    {
        let key = id.to_owned();
        let i = match self.find(&key) {
            Option::None => {
                return Result::Err(TfError::FrameNotFound(key));
            },
            Option::Some(i) => i,
        };
        let subtree = self.collect_subtree(&key);
        let ghost pre = *self;
        self.entries[i].local = transform;
        proof {
            assert forall|j: int| 0 <= j < self.entries@.len() implies #[trigger] self.entry_ok(
                j,
            ) by {
                assert(pre.entry_ok(j));
            }
            assert forall|kk: Seq<char>| #[trigger] self.index@.dom().contains(kk) implies 0
                <= self.index@[kk] < self.entries@.len() && self.entries@[self.index@[kk]].id@
                == kk by {
                assert(pre.entries@[pre.index@[kk]].id@ == kk);
            }
            assert(self.inv_base());
            assert(self.frames() =~= pre.frames().insert(
                id@,
                FrameModel { parent: pre.frames()[id@].parent, local: transform },
            ));
            pre.lemma_in_subtree_self(id@);
            assert forall|j: int| 0 <= j < self.entries@.len() implies #[trigger] self.coh_at(
                j,
                seq_views(subtree@).to_set(),
            ) by {
                let e = self.entries@[j];
                if !e.dirty && e.world is Some && !seq_views(subtree@).to_set().contains(e.id@) {
                    assert(e == pre.entries@[j]);
                    assert(pre.coh_at(j, Set::empty()));
                    assert(pre.entry_ok(j));
                    assert(!pre.in_subtree(id@, e.id@));
                    assert forall|y: Seq<char>| #[trigger] pre.in_subtree(y, e.id@) implies
                        self.frames().dom().contains(y) && self.frames()[y] == pre.frames()[y] by {
                        pre.lemma_in_subtree_dom(y, e.id@);
                        if y == id@ {
                            pre.lemma_in_subtree_trans(id@, e.id@, e.id@);
                            assert(false);
                        }
                    }
                    Self::lemma_same_chain(pre, *self, e.id@);
                }
            }
            assert forall|k: int| 0 <= k < subtree@.len() implies self.frames().dom().contains(
                subtree@[k]@,
            ) by {
                assert(seq_views(subtree@)[k] == subtree@[k]@);
                assert(seq_views(subtree@).contains(subtree@[k]@));
            }
        }
        self.apply_dirty(&subtree);
        proof {
            assert(seq_views(subtree@).to_set() =~= Set::new(
                |x: Seq<char>| pre.in_subtree(id@, x),
            ));
        }
        Result::Ok(subtree)
    }

    /// Remove a registered frame. Fails with `FrameNotFound` when `id` is
    /// unknown and with `HasChildren` when some frame still names it as
    /// parent; either failure changes nothing. On success the frame's
    /// record, cache entry and dirty flag are all gone.
    pub fn remove_frame(&mut self, id: &str) -> (r: Result<(), TfError>)
        requires
            old(self).inv(),
        ensures
            final(self).inv(),
            r is Ok <==> (old(self).frames().dom().contains(id@) && !(exists|c: Seq<char>|
                #[trigger] old(self).frames().dom().contains(c) && old(self).frames()[c].parent
                    == Option::Some(id@))),
            !old(self).frames().dom().contains(id@) ==> (r matches Result::Err(
                TfError::FrameNotFound(s),
            ) && s@ == id@),
            (old(self).frames().dom().contains(id@) && (exists|c: Seq<char>|
                #[trigger] old(self).frames().dom().contains(c) && old(self).frames()[c].parent
                    == Option::Some(id@))) ==> (r matches Result::Err(TfError::HasChildren(s))
                && s@ == id@),
            r is Err ==> *final(self) == *old(self),
            r is Ok ==> {
                &&& final(self).frames() == old(self).frames().remove(id@)
                &&& final(self).dirty() == old(self).dirty().remove(id@)
                &&& final(self).cache() == old(self).cache().remove(id@)
            },
    {
        let key = id.to_owned();
        let i = match self.find(&key) {
            Option::None => {
                return Result::Err(TfError::FrameNotFound(key));
            },
            Option::Some(i) => i,
        };
        let n = self.entries.len();
        let mut j: usize = 0;
        while j < n
            invariant
                *self == *old(self),
                self.inv(),
                self.inv_base(),
                n == self.entries@.len(),
                j <= n,
                key@ == id@,
                forall|jj: int| 0 <= jj < j ==> opt_view(self.entries@[jj].parent_id)
                    != Option::Some(id@),
            decreases n - j,
        {
            let is_child = match &self.entries[j].parent_id {
                Option::Some(p) => *p == key,
                Option::None => false,
            };
            if is_child {
                proof {
                    assert(self.entry_ok(j as int));
                    let c = self.entries@[j as int].id@;
                    assert(self.frames().dom().contains(c) && self.frames()[c].parent
                        == Option::Some(id@));
                }
                return Result::Err(TfError::HasChildren(key));
            }
            j += 1;
        }
        proof {
            if exists|c: Seq<char>|
                #[trigger] self.frames().dom().contains(c) && self.frames()[c].parent
                    == Option::Some(id@) {
                let c = choose|c: Seq<char>|
                    #[trigger] self.frames().dom().contains(c) && self.frames()[c].parent
                        == Option::Some(id@);
                assert(self.entry_ok(self.index@[c]));
                assert(false);
            }
        }
        let ghost pre = *self;
        self.entries.remove(i);
        proof {
            self.index@ = Map::new(
                |k: Seq<char>| pre.index@.dom().contains(k) && k != id@,
                |k: Seq<char>|
                    if pre.index@[k] < i {
                        pre.index@[k]
                    } else {
                        pre.index@[k] - 1
                    },
            );
            self.depth@ = pre.depth@.remove(id@);
            assert(pre.entry_ok(i as int));
            assert forall|jj: int| 0 <= jj < self.entries@.len() implies #[trigger] self.entry_ok(
                jj,
            ) by {
                let oj: int = if jj < i { jj } else { jj + 1 };
                assert(self.entries@[jj] == pre.entries@[oj]);
                assert(pre.entry_ok(oj));
                let e = pre.entries@[oj];
                assert(e.id@ != id@);
                match e.parent_id {
                    Option::Some(p) => {
                        assert(p@ != id@) by {
                            if p@ == id@ {
                                assert(opt_view(pre.entries@[oj].parent_id) == Option::Some(id@));
                            }
                        }
                        assert(pre.index@[p@] != i);
                    },
                    Option::None => {},
                }
            }
            assert forall|kk: Seq<char>| #[trigger] self.index@.dom().contains(kk) implies 0
                <= self.index@[kk] < self.entries@.len() && self.entries@[self.index@[kk]].id@
                == kk by {
                assert(pre.entries@[pre.index@[kk]].id@ == kk);
                assert(pre.index@[kk] != i);
            }
            assert(self.index@.dom() =~= pre.index@.dom().remove(id@));
            assert(self.inv_base());
            assert(self.frames() =~= pre.frames().remove(id@)) by {
                assert forall|kk: Seq<char>| self.index@.dom().contains(kk) implies self.entries@[
                    self.index@[kk]
                ].model() == pre.entries@[pre.index@[kk]].model() by {
                    assert(pre.index@[kk] != i);
                }
            }
            assert(self.dirty() =~= pre.dirty().remove(id@)) by {
                assert forall|kk: Seq<char>| self.index@.dom().contains(kk) implies self.entries@[
                    self.index@[kk]
                ] == pre.entries@[pre.index@[kk]] by {
                    assert(pre.index@[kk] != i);
                }
            }
            assert(self.cache() =~= pre.cache().remove(id@)) by {
                assert forall|kk: Seq<char>| self.index@.dom().contains(kk) implies self.entries@[
                    self.index@[kk]
                ] == pre.entries@[pre.index@[kk]] by {
                    assert(pre.index@[kk] != i);
                }
            }
            assert forall|jj: int| 0 <= jj < self.entries@.len() implies #[trigger] self.coh_at(
                jj,
                Set::empty(),
            ) by {
                let oj: int = if jj < i { jj } else { jj + 1 };
                assert(self.entries@[jj] == pre.entries@[oj]);
                let e = pre.entries@[oj];
                if !e.dirty && e.world is Some {
                    assert(pre.coh_at(oj, Set::empty()));
                    assert(pre.entry_ok(oj));
                    assert forall|y: Seq<char>| #[trigger] pre.in_subtree(y, e.id@) implies
                        self.frames().dom().contains(y) && self.frames()[y] == pre.frames()[y] by {
                        pre.lemma_in_subtree_dom(y, e.id@);
                        if y == id@ {
                            pre.lemma_subtree_step(id@, e.id@);
                            let c = choose|c: Seq<char>|
                                #[trigger] pre.frames().dom().contains(c) && pre.frames()[c].parent
                                    == Option::Some(id@) && pre.in_subtree(c, e.id@);
                            assert(false);
                        }
                    }
                    Self::lemma_same_chain(pre, *self, e.id@);
                }
            }
        }
        Result::Ok(())
    }

    /// Return the world transform of the frame stored at `i`, recomputing
    /// and caching it (and any stale ancestors) when it is dirty.
    fn compute_world(&mut self, i: usize) -> (w: Transform)
        requires
            old(self).inv(),
            i < old(self).entries@.len(),
        ensures
            final(self).inv(),
            final(self).frames() == old(self).frames(),
            final(self).index@ == old(self).index@,
            final(self).depth@ == old(self).depth@,
            final(self).entries@.len() == old(self).entries@.len(),
            forall|j: int| 0 <= j < final(self).entries@.len() ==> {
                let e = #[trigger] final(self).entries@[j];
                let oe = old(self).entries@[j];
                e.id == oe.id && e.parent_id == oe.parent_id && e.local == oe.local
            },
            forall|x: Seq<char>| final(self).dirty().contains(x) ==> old(self).dirty().contains(
                x,
            ),
            w == old(self).world_of(old(self).entries@[i as int].id@),
        decreases old(self).depth@[old(self).entries@[i as int].id@],
    {
        proof {
            assert(self.entry_ok(i as int));
        }
        let ghost pre = *self;
        let ghost myid = self.entries@[i as int].id@;
        if !self.entries[i].dirty {
            if let Option::Some(w) = &self.entries[i].world {
                proof {
                    assert(self.coh_at(i as int, Set::empty()));
                }
                return *w;
            }
        }
        let w: Transform = match &self.entries[i].parent_id {
            Option::None => {
                proof {
                    assert(self.frames()[myid].parent is None);
                }
                self.entries[i].local
            },
            Option::Some(p) => {
                let pi = match self.find(p) {
                    Option::Some(pi) => pi,
                    Option::None => {
                        proof {
                            assert(false);
                        }
                        0
                    },
                };
                let ghost pid = self.entries@[pi as int].id@;
                let pw = self.compute_world(pi);
                proof {
                    assert(self.entries@[i as int].id == pre.entries@[i as int].id);
                    assert(self.entries@[i as int].local == pre.entries@[i as int].local);
                    assert forall|y: Seq<char>| #[trigger] pre.in_subtree(y, pid) implies
                        self.frames().dom().contains(y) && self.frames()[y] == pre.frames()[y] by {
                        pre.lemma_in_subtree_dom(y, pid);
                    }
                    Self::lemma_same_chain(pre, *self, pid);
                    assert(pre.frames()[myid].parent == Option::Some(pid));
                }
                compose(&pw, &self.entries[i].local)
            },
        };
        let ghost mid = *self;
        self.entries[i].world = Option::Some(w);
        self.entries[i].dirty = false;
        proof {
            assert forall|j: int| 0 <= j < self.entries@.len() implies #[trigger] self.entry_ok(
                j,
            ) by {
                assert(mid.entry_ok(j));
            }
            assert forall|kk: Seq<char>| #[trigger] self.index@.dom().contains(kk) implies 0
                <= self.index@[kk] < self.entries@.len() && self.entries@[self.index@[kk]].id@
                == kk by {
                assert(mid.entries@[mid.index@[kk]].id@ == kk);
            }
            assert(self.inv_base());
            assert(self.frames() =~= mid.frames());
            assert(self.frames() =~= pre.frames());
            assert forall|y: Seq<char>| #[trigger] pre.in_subtree(y, myid) implies self.frames()
                .dom().contains(y) && self.frames()[y] == pre.frames()[y] by {
                pre.lemma_in_subtree_dom(y, myid);
            }
            Self::lemma_same_chain(pre, *self, myid);
            assert(w == self.world_of(myid));
            assert forall|j: int| 0 <= j < self.entries@.len() implies #[trigger] self.coh_at(
                j,
                Set::empty(),
            ) by {
                let e = self.entries@[j];
                if j != i {
                    assert(e == mid.entries@[j]);
                    assert(mid.coh_at(j, Set::empty()));
                    if !e.dirty && e.world is Some {
                        assert(mid.entry_ok(j));
                        assert forall|y: Seq<char>| #[trigger] mid.in_subtree(y, e.id@) implies
                            self.frames().dom().contains(y) && self.frames()[y] == mid.frames()[y]
                            by {
                            mid.lemma_in_subtree_dom(y, e.id@);
                        }
                        Self::lemma_same_chain(mid, *self, e.id@);
                    }
                }
            }
            assert forall|x: Seq<char>| self.dirty().contains(x) implies pre.dirty().contains(
                x,
            ) by {
                if self.index@.dom().contains(x) {
                    assert(mid.entry_ok(self.index@[x]));
                }
            }
        }
        w
    }

    /// The accumulated world transform of `id`: its local transforms
    /// composed from its root down to itself. Fails with `FrameNotFound`
    /// when `id` is unknown. Only cache state changes: the registry is
    /// untouched and nothing becomes dirty.
    pub fn get_world_transform(&mut self, id: &str) -> (r: Result<Transform, TfError>)
        requires
            old(self).inv(),
        ensures
            final(self).inv(),
            final(self).frames() == old(self).frames(),
            forall|x: Seq<char>| final(self).dirty().contains(x) ==> old(self).dirty().contains(
                x,
            ),
            r is Ok <==> old(self).frames().dom().contains(id@),
            r matches Result::Ok(w) ==> w == old(self).world_of(id@),
            r is Err ==> *final(self) == *old(self) && (r matches Result::Err(
                TfError::FrameNotFound(s),
            ) && s@ == id@),
    {
        let key = id.to_owned();
        match self.find(&key) {
            Option::None => Result::Err(TfError::FrameNotFound(key)),
            Option::Some(i) => Result::Ok(self.compute_world(i)),
        }
    }

    /// The chain of ids from the frame stored at `start` up to its root:
    /// exactly its ancestors, itself included.
    fn chain_to_root(&self, start: usize) -> (r: Vec<String>)
        requires
            self.inv_base(),
            start < self.entries@.len(),
        ensures
            forall|x: Seq<char>| seq_views(r@).contains(x) <==> self.in_subtree(
                x,
                self.entries@[start as int].id@,
            ),
    {
        let ghost start_id = self.entries@[start as int].id@;
        let mut r: Vec<String> = Vec::new();
        let mut cur: usize = start;
        loop
            invariant
                self.inv_base(),
                start < self.entries@.len(),
                start_id == self.entries@[start as int].id@,
                cur < self.entries@.len(),
                forall|x: Seq<char>| (seq_views(r@).contains(x) || self.in_subtree(
                    x,
                    self.entries@[cur as int].id@,
                )) <==> self.in_subtree(x, start_id),
                forall|x: Seq<char>| seq_views(r@).contains(x) ==> !self.in_subtree(
                    x,
                    self.entries@[cur as int].id@,
                ),
            decreases self.depth@[self.entries@[cur as int].id@],
        {
            proof {
                assert(self.entry_ok(cur as int));
            }
            let ghost prev = r@;
            let ghost cur_id = self.entries@[cur as int].id@;
            r.push(self.entries[cur].id.clone());
            proof {
                assert(seq_views(r@) =~= seq_views(prev).push(cur_id));
                self.lemma_in_subtree_self(cur_id);
                assert(seq_views(r@).last() == cur_id);
                assert forall|x: Seq<char>| seq_views(r@).contains(x) implies (seq_views(
                    prev,
                ).contains(x) || x == cur_id) by {}
            }
            match &self.entries[cur].parent_id {
                Option::Some(p) => {
                    let next = self.find(p);
                    proof {
                        assert(self.frames()[cur_id].parent == Option::Some(p@));
                        self.lemma_parent_step(cur_id);
                        assert forall|x: Seq<char>| seq_views(r@).contains(x) implies
                            !self.in_subtree(x, p@) by {
                            if x == cur_id {
                                if self.in_subtree(cur_id, p@) {
                                    self.lemma_in_subtree_dom(cur_id, p@);
                                    assert(false);
                                }
                            } else {
                                assert(seq_views(prev).contains(x));
                                if self.in_subtree(x, p@) {
                                    assert(self.in_subtree(x, cur_id));
                                }
                            }
                        }
                        assert forall|x: Seq<char>| (seq_views(r@).contains(x)
                            || self.in_subtree(x, p@)) <==> self.in_subtree(x, start_id) by {
                            assert(self.in_subtree(x, cur_id) == (x == cur_id || self.in_subtree(
                                x,
                                p@,
                            )));
                            if seq_views(r@).contains(x) && x != cur_id {
                                assert(seq_views(prev).contains(x));
                            }
                            if seq_views(prev).contains(x) {
                                let k = seq_views(prev).index_of(x);
                                assert(seq_views(r@)[k] == x);
                                assert(seq_views(r@).contains(x));
                            }
                        }
                    }
                    match next {
                        Option::Some(j) => {
                            cur = j;
                        },
                        Option::None => {
                            proof {
                                assert(false);
                            }
                            return r;
                        },
                    }
                },
                Option::None => {
                    proof {
                        assert(self.frames()[cur_id].parent is None);
                        assert forall|x: Seq<char>| seq_views(r@).contains(x) <==>
                            self.in_subtree(x, self.entries@[start as int].id@) by {
                            assert(self.in_subtree(x, cur_id) == (x == cur_id));
                            if seq_views(r@).contains(x) && x != cur_id {
                                assert(seq_views(prev).contains(x));
                            }
                            if seq_views(prev).contains(x) {
                                let k = seq_views(prev).index_of(x);
                                assert(seq_views(r@)[k] == x);
                                assert(seq_views(r@).contains(x));
                            }
                            if self.in_subtree(x, start_id) && !seq_views(r@).contains(x) {
                                assert(self.in_subtree(x, cur_id));
                            }
                        }
                    }
                    return r;
                },
            }
        }
    }

    /// Whether the two id sequences share an id.
    fn chains_intersect(a: &Vec<String>, b: &Vec<String>) -> (r: bool)
        ensures
            r == exists|x: Seq<char>| seq_views(a@).contains(x) && seq_views(b@).contains(x),
    {
        let n = a.len();
        let m = b.len();
        let mut ci: usize = 0;
        while ci < n
            invariant
                n == a@.len(),
                m == b@.len(),
                ci <= n,
                forall|ii: int, jj: int| 0 <= ii < ci && 0 <= jj < m ==> a@[ii]@ != b@[jj]@,
            decreases n - ci,
        {
            let mut cj: usize = 0;
            while cj < m
                invariant
                    n == a@.len(),
                    m == b@.len(),
                    ci < n,
                    cj <= m,
                    forall|jj: int| 0 <= jj < cj ==> a@[ci as int]@ != b@[jj]@,
                decreases m - cj,
            {
                if a[ci] == b[cj] {
                    proof {
                        assert(seq_views(a@)[ci as int] == a@[ci as int]@);
                        assert(seq_views(b@)[cj as int] == b@[cj as int]@);
                        assert(seq_views(a@).contains(a@[ci as int]@));
                        assert(seq_views(b@).contains(a@[ci as int]@));
                    }
                    return true;
                }
                cj += 1;
            }
            ci += 1;
        }
        proof {
            if exists|x: Seq<char>| seq_views(a@).contains(x) && seq_views(b@).contains(x) {
                let x = choose|x: Seq<char>| seq_views(a@).contains(x) && seq_views(b@).contains(
                    x,
                );
                let ii = seq_views(a@).index_of(x);
                let jj = seq_views(b@).index_of(x);
                assert(a@[ii]@ == b@[jj]@);
                assert(false);
            }
        }
        false
    }

    /// The transform that re-expresses points of frame `from` in frame `to`:
    /// `compose(invert(world(from)), world(to))`. Equal frames short-circuit
    /// to the identity with no tree walk. Fails with `FrameNotFound` when
    /// either id is unknown (`from` is checked first) and with
    /// `DisconnectedFrames` when the two ancestor chains share no id; any
    /// failure leaves the tree unchanged. The registry itself never changes
    /// and nothing becomes dirty.
    pub fn get_transform(&mut self, from: &str, to: &str) -> (r: Result<Transform, TfError>)
        requires
            old(self).inv(),
        ensures
            final(self).inv(),
            final(self).frames() == old(self).frames(),
            forall|x: Seq<char>| final(self).dirty().contains(x) ==> old(self).dirty().contains(
                x,
            ),
            r is Ok <==> (old(self).frames().dom().contains(from@) && old(self).frames().dom()
                .contains(to@) && old(self).connected(from@, to@)),
            !old(self).frames().dom().contains(from@) ==> *final(self) == *old(self) && (
            r matches Result::Err(TfError::FrameNotFound(s)) && s@ == from@),
            (old(self).frames().dom().contains(from@) && !old(self).frames().dom().contains(to@))
                ==> *final(self) == *old(self) && (r matches Result::Err(TfError::FrameNotFound(s))
                && s@ == to@),
            (old(self).frames().dom().contains(from@) && old(self).frames().dom().contains(to@)
                && from@ == to@) ==> *final(self) == *old(self) && (r matches Result::Ok(t)
                && is_identity(t)),
            (old(self).frames().dom().contains(from@) && old(self).frames().dom().contains(to@)
                && !old(self).connected(from@, to@)) ==> *final(self) == *old(self) && (
            r matches Result::Err(TfError::DisconnectedFrames(sa, sb)) && sa@ == from@ && sb@
                == to@),
            (old(self).frames().dom().contains(from@) && old(self).frames().dom().contains(to@)
                && from@ != to@ && old(self).connected(from@, to@)) ==> (r matches Result::Ok(t)
                && t == spec_compose(spec_invert(old(self).world_of(from@)), old(self).world_of(
                to@,
            ))),
    {
        let key_from = from.to_owned();
        let key_to = to.to_owned();
        let fi = match self.find(&key_from) {
            Option::None => {
                return Result::Err(TfError::FrameNotFound(key_from));
            },
            Option::Some(i) => i,
        };
        let ti = match self.find(&key_to) {
            Option::None => {
                return Result::Err(TfError::FrameNotFound(key_to));
            },
            Option::Some(i) => i,
        };
        if key_from == key_to {
            proof {
                self.lemma_in_subtree_self(from@);
                assert(self.in_subtree(from@, from@) && self.in_subtree(from@, to@));
            }
            return Result::Ok(identity());
        }
        let from_chain = self.chain_to_root(fi);
        let to_chain = self.chain_to_root(ti);
        if !Self::chains_intersect(&from_chain, &to_chain) {
            proof {
                if self.connected(from@, to@) {
                    let c = choose|c: Seq<char>| self.in_subtree(c, from@) && self.in_subtree(
                        c,
                        to@,
                    );
                    assert(seq_views(from_chain@).contains(c));
                    assert(seq_views(to_chain@).contains(c));
                    assert(false);
                }
            }
            return Result::Err(TfError::DisconnectedFrames(key_from, key_to));
        }
        proof {
            let x = choose|x: Seq<char>| seq_views(from_chain@).contains(x) && seq_views(
                to_chain@,
            ).contains(x);
            assert(self.in_subtree(x, from@) && self.in_subtree(x, to@));
        }
        let ghost pre = *self;
        let from_world = self.compute_world(fi);
        let ghost mid = *self;
        let to_world = self.compute_world(ti);
        proof {
            assert forall|y: Seq<char>| #[trigger] mid.in_subtree(y, to@) implies self.frames()
                .dom().contains(y) && self.frames()[y] == mid.frames()[y] by {
                mid.lemma_in_subtree_dom(y, to@);
            }
            assert forall|y: Seq<char>| #[trigger] pre.in_subtree(y, to@) implies mid.frames()
                .dom().contains(y) && mid.frames()[y] == pre.frames()[y] by {
                pre.lemma_in_subtree_dom(y, to@);
            }
            Self::lemma_same_chain(pre, mid, to@);
            assert(to_world == pre.world_of(to@));
        }
        let from_inv = invert_transform(&from_world);
        Result::Ok(compose(&from_inv, &to_world))
    }

    /// Whether a batch names `key`.
    fn batch_contains(updates: &Vec<FrameUpdate>, key: &String) -> (r: bool)
        ensures
            r == update_ids(updates@).contains(key@),
    {
        let m = updates.len();
        let mut k: usize = 0;
        while k < m
            invariant
                m == updates@.len(),
                k <= m,
                forall|j: int| 0 <= j < k ==> updates@[j].id@ != key@,
            decreases m - k,
        {
            if updates[k].id == *key {
                proof {
                    assert(update_ids(updates@)[k as int] == key@);
                }
                return true;
            }
            k += 1;
        }
        proof {
            if update_ids(updates@).contains(key@) {
                let j = update_ids(updates@).index_of(key@);
                assert(updates@[j].id@ == key@);
                assert(false);
            }
        }
        false
    }

    /// Whether a sequence of ids holds `key`.
    fn ids_contain(ids: &Vec<String>, key: &String) -> (r: bool)
        ensures
            r == seq_views(ids@).contains(key@),
    {
        let m = ids.len();
        let mut k: usize = 0;
        while k < m
            invariant
                m == ids@.len(),
                k <= m,
                forall|j: int| 0 <= j < k ==> ids@[j]@ != key@,
            decreases m - k,
        {
            if ids[k] == *key {
                proof {
                    assert(seq_views(ids@)[k as int] == key@);
                }
                return true;
            }
            k += 1;
        }
        proof {
            if seq_views(ids@).contains(key@) {
                let j = seq_views(ids@).index_of(key@);
                assert(ids@[j]@ == key@);
                assert(false);
            }
        }
        false
    }

    /// Whether some other batch member stands on the ancestor chain of the
    /// frame stored at `i`.
    fn has_batch_ancestor(&self, i: usize, updates: &Vec<FrameUpdate>) -> (r: bool)
        requires
            self.inv_base(),
            i < self.entries@.len(),
        ensures
            r == self.proper_batch_anc(update_ids(updates@), self.entries@[i as int].id@),
    {
        let ghost bs = update_ids(updates@);
        let ghost start_id = self.entries@[i as int].id@;
        let mut cur: usize = i;
        loop
            invariant
                self.inv_base(),
                cur < self.entries@.len(),
                i < self.entries@.len(),
                start_id == self.entries@[i as int].id@,
                bs == update_ids(updates@),
                self.proper_batch_anc(bs, start_id) == self.proper_batch_anc(
                    bs,
                    self.entries@[cur as int].id@,
                ),
            decreases self.depth@[self.entries@[cur as int].id@],
        {
            proof {
                assert(self.entry_ok(cur as int));
            }
            let ghost cur_id = self.entries@[cur as int].id@;
            match &self.entries[cur].parent_id {
                Option::None => {
                    proof {
                        assert(self.frames()[cur_id].parent is None);
                        if self.proper_batch_anc(bs, cur_id) {
                            let a = choose|a: Seq<char>| bs.contains(a) && a != cur_id
                                && self.in_subtree(a, cur_id);
                            assert(self.in_subtree(a, cur_id) == (cur_id == a));
                            assert(false);
                        }
                    }
                    return false;
                },
                Option::Some(p) => {
                    let pi = match self.find(p) {
                        Option::Some(pi) => pi,
                        Option::None => {
                            proof {
                                assert(false);
                            }
                            return false;
                        },
                    };
                    proof {
                        assert(self.frames()[cur_id].parent == Option::Some(p@));
                        self.lemma_parent_step(cur_id);
                    }
                    if Self::batch_contains(updates, p) {
                        proof {
                            self.lemma_in_subtree_self(p@);
                            assert(self.in_subtree(p@, cur_id));
                            if p@ == cur_id {
                                self.lemma_in_subtree_dom(p@, cur_id);
                            }
                            assert(self.proper_batch_anc(bs, cur_id));
                        }
                        return true;
                    }
                    proof {
                        assert(self.proper_batch_anc(bs, cur_id) == self.proper_batch_anc(
                            bs,
                            p@,
                        )) by {
                            if self.proper_batch_anc(bs, cur_id) {
                                let a = choose|a: Seq<char>| bs.contains(a) && a != cur_id
                                    && self.in_subtree(a, cur_id);
                                assert(self.in_subtree(a, cur_id) == (cur_id == a
                                    || self.in_subtree(a, p@)));
                                if a == p@ {
                                    assert(false);
                                }
                                self.lemma_in_subtree_dom(a, p@);
                                assert(bs.contains(a) && a != p@ && self.in_subtree(a, p@));
                            }
                            if self.proper_batch_anc(bs, p@) {
                                let a = choose|a: Seq<char>| bs.contains(a) && a != p@
                                    && self.in_subtree(a, p@);
                                assert(self.in_subtree(a, cur_id) == (cur_id == a
                                    || self.in_subtree(a, p@)));
                                if a == cur_id {
                                    self.lemma_in_subtree_dom(a, p@);
                                }
                                assert(bs.contains(a) && a != cur_id && self.in_subtree(
                                    a,
                                    cur_id,
                                ));
                            }
                        }
                    }
                    cur = pi;
                },
            }
        }
    }

    /// Apply several local-transform updates at once, atomically. If any
    /// named frame is unknown the batch fails with `FrameNotFound` and
    /// nothing changes. Otherwise every update is applied in order (a frame
    /// named twice keeps the last transform) and the returned ids are
    /// exactly the union of the updated frames' subtrees, deduplicated; the
    /// walk skips a member whose ancestor chain holds another member, which
    /// changes nothing about that union.
    pub fn update_frames_batch(&mut self, updates: &Vec<FrameUpdate>) -> (r: Result<
        Vec<String>,
        TfError,
    >)
        requires
            old(self).inv(),
        ensures
            final(self).inv(),
            r is Ok <==> (forall|k: int| 0 <= k < updates@.len() ==> old(self).frames().dom()
                .contains(#[trigger] updates@[k].id@)),
            r is Err ==> *final(self) == *old(self),
            r matches Result::Err(TfError::FrameNotFound(s)) ==> exists|k: int| 0 <= k
                < updates@.len() && #[trigger] updates@[k].id@ == s@ && !old(self).frames().dom()
                .contains(s@) && (forall|j: int| 0 <= j < k ==> old(self).frames().dom().contains(
                #[trigger] updates@[j].id@,
            )),
            r is Err ==> (r matches Result::Err(TfError::FrameNotFound(s)) && !old(
                self,
            ).frames().dom().contains(s@)),
            r matches Result::Ok(v) ==> {
                &&& final(self).frames() == apply_updates_map(old(self).frames(), updates@)
                &&& seq_views(v@).no_duplicates()
                &&& (forall|x: Seq<char>| #[trigger] seq_views(v@).contains(x) <==> old(
                    self,
                ).covered(update_ids(updates@), x))
                &&& final(self).dirty() == old(self).dirty().union(
                    Set::new(|x: Seq<char>| old(self).covered(update_ids(updates@), x)),
                )
                &&& final(self).cache() == old(self).cache().remove_keys(
                    Set::new(|x: Seq<char>| old(self).covered(update_ids(updates@), x)),
                )
            },
    {
        let ghost pre = *old(self);
        let ghost bs = update_ids(updates@);
        let m = updates.len();
        // First pass: every named frame must exist.
        let mut k: usize = 0;
        while k < m
            invariant
                *self == pre,
                pre.inv(),
                m == updates@.len(),
                k <= m,
                bs == update_ids(updates@),
                forall|j: int| 0 <= j < k ==> pre.frames().dom().contains(
                    #[trigger] updates@[j].id@,
                ),
            decreases m - k,
        {
            if let Option::None = self.find(&updates[k].id) {
                return Result::Err(TfError::FrameNotFound(updates[k].id.clone()));
            }
            k += 1;
        }
        // Second pass: gather the union of the affected subtrees, walking
        // only members with no other member above them.
        let mut all_dirty: Vec<String> = Vec::new();
        k = 0;
        while k < m
            invariant
                *self == pre,
                pre.inv(),
                m == updates@.len(),
                k <= m,
                bs == update_ids(updates@),
                forall|j: int| 0 <= j < m ==> pre.frames().dom().contains(
                    #[trigger] updates@[j].id@,
                ),
                seq_views(all_dirty@).no_duplicates(),
                forall|j: int| 0 <= j < all_dirty@.len() ==> pre.frames().dom().contains(
                    #[trigger] all_dirty@[j]@,
                ),
                forall|x: Seq<char>|
                    #![trigger seq_views(all_dirty@).contains(x)]
                    #![trigger pre.covered_prefix(updates@, k as int, x)]
                    (seq_views(all_dirty@).contains(x) <==> pre.covered_prefix(
                        updates@,
                        k as int,
                        x,
                    )),
            decreases m - k,
        {
            let ghost prefix_dirty = all_dirty@;
            let ghost u = updates@[k as int].id@;
            let i = match self.find(&updates[k].id) {
                Option::Some(i) => i,
                Option::None => {
                    proof {
                        assert(false);
                    }
                    return Result::Err(TfError::FrameNotFound(updates[k].id.clone()));
                },
            };
            if !self.has_batch_ancestor(i, updates) {
                let sub = self.collect_subtree(&updates[k].id);
                let s_len = sub.len();
                let mut t: usize = 0;
                while t < s_len
                    invariant
                        *self == pre,
                        pre.inv(),
                        m == updates@.len(),
                        k < m,
                        s_len == sub@.len(),
                        t <= s_len,
                        bs == update_ids(updates@),
                        u == updates@[k as int].id@,
                        !pre.proper_batch_anc(bs, u),
                        seq_views(sub@).no_duplicates(),
                        forall|x: Seq<char>| #[trigger] seq_views(sub@).contains(x)
                            <==> pre.in_subtree(u, x),
                        forall|j: int| 0 <= j < all_dirty@.len() ==> pre.frames().dom().contains(
                            #[trigger] all_dirty@[j]@,
                        ),
                        seq_views(all_dirty@).no_duplicates(),
                        forall|x: Seq<char>|
                            #![trigger seq_views(all_dirty@).contains(x)]
                            (seq_views(all_dirty@).contains(x) <==> (pre.covered_prefix(
                                updates@,
                                k as int,
                                x,
                            ) || seq_views(sub@.take(t as int)).contains(x))),
                    decreases s_len - t,
                {
                    let ghost prev = all_dirty@;
                    if !Self::ids_contain(&all_dirty, &sub[t]) {
                        all_dirty.push(sub[t].clone());
                        proof {
                            assert(seq_views(all_dirty@) =~= seq_views(prev).push(
                                sub@[t as int]@,
                            ));
                            assert(seq_views(all_dirty@).last() == sub@[t as int]@);
                            assert(seq_views(sub@)[t as int] == sub@[t as int]@);
                            assert(seq_views(sub@).contains(sub@[t as int]@));
                            pre.lemma_in_subtree_dom(u, sub@[t as int]@);
                        }
                    }
                    proof {
                        assert(seq_views(sub@.take(t + 1)) =~= seq_views(sub@.take(
                            t as int,
                        )).push(sub@[t as int]@));
                        assert forall|x: Seq<char>| #[trigger] seq_views(all_dirty@).contains(
                            x,
                        ) implies (pre.covered_prefix(updates@, k as int, x) || seq_views(
                            sub@.take(t + 1),
                        ).contains(x)) by {
                            if seq_views(prev).contains(x) || x == sub@[t as int]@ {
                                if seq_views(sub@.take(t as int)).contains(x) {
                                    let w = seq_views(sub@.take(t as int)).index_of(x);
                                    assert(seq_views(sub@.take(t + 1))[w] == x);
                                } else if x == sub@[t as int]@ {
                                    assert(seq_views(sub@.take(t + 1)).last() == x);
                                }
                            }
                        }
                        assert forall|x: Seq<char>| (pre.covered_prefix(updates@, k as int, x)
                            || seq_views(sub@.take(t + 1)).contains(x)) implies #[trigger]
                            seq_views(all_dirty@).contains(x) by {
                            if seq_views(prev).contains(x) {
                                let w = seq_views(prev).index_of(x);
                                assert(seq_views(all_dirty@)[w] == x);
                            } else if seq_views(sub@.take(t + 1)).contains(x) {
                                let w = seq_views(sub@.take(t + 1)).index_of(x);
                                if w < t {
                                    assert(seq_views(sub@.take(t as int))[w] == x);
                                } else {
                                    assert(x == sub@[t as int]@);
                                    assert(seq_views(all_dirty@).contains(x));
                                }
                            }
                        }
                    }
                    t += 1;
                }
                proof {
                    assert(sub@.take(s_len as int) =~= sub@);
                    assert forall|x: Seq<char>| #[trigger] seq_views(all_dirty@).contains(x)
                        <==> pre.covered_prefix(updates@, k + 1, x) by {
                        if seq_views(all_dirty@).contains(x) {
                            if pre.covered_prefix(updates@, k as int, x) {
                                let j = choose|j: int| 0 <= j < k && !pre.proper_batch_anc(
                                    update_ids(updates@),
                                    updates@[j].id@,
                                ) && pre.in_subtree(#[trigger] updates@[j].id@, x);
                                assert(pre.in_subtree(updates@[j].id@, x));
                            } else {
                                assert(seq_views(sub@).contains(x));
                                assert(pre.in_subtree(updates@[k as int].id@, x));
                            }
                        }
                        if pre.covered_prefix(updates@, k + 1, x) {
                            let j = choose|j: int| 0 <= j < k + 1 && !pre.proper_batch_anc(
                                update_ids(updates@),
                                updates@[j].id@,
                            ) && pre.in_subtree(#[trigger] updates@[j].id@, x);
                            if j < k {
                                assert(pre.covered_prefix(updates@, k as int, x));
                            } else {
                                assert(pre.in_subtree(u, x));
                                assert(seq_views(sub@).contains(x));
                            }
                        }
                    }
                }
            } else {
                proof {
                    assert forall|x: Seq<char>| #[trigger] seq_views(all_dirty@).contains(x)
                        <==> pre.covered_prefix(updates@, k + 1, x) by {
                        if pre.covered_prefix(updates@, k + 1, x) {
                            let j = choose|j: int| 0 <= j < k + 1 && !pre.proper_batch_anc(
                                update_ids(updates@),
                                updates@[j].id@,
                            ) && pre.in_subtree(#[trigger] updates@[j].id@, x);
                            assert(j < k);
                            assert(pre.covered_prefix(updates@, k as int, x));
                        }
                        if pre.covered_prefix(updates@, k as int, x) {
                            let j = choose|j: int| 0 <= j < k && !pre.proper_batch_anc(
                                update_ids(updates@),
                                updates@[j].id@,
                            ) && pre.in_subtree(#[trigger] updates@[j].id@, x);
                            assert(0 <= j < k + 1 && !pre.proper_batch_anc(update_ids(updates@),
                                updates@[j].id@) && pre.in_subtree(updates@[j].id@, x));
                        }
                    }
                }
            }
            k += 1;
        }
        proof {
            assert forall|x: Seq<char>| #[trigger] seq_views(all_dirty@).contains(x)
                <==> pre.covered(bs, x) by {
                if seq_views(all_dirty@).contains(x) {
                    let j = choose|j: int| 0 <= j < m && !pre.proper_batch_anc(
                        update_ids(updates@),
                        updates@[j].id@,
                    ) && pre.in_subtree(#[trigger] updates@[j].id@, x);
                    assert(bs[j] == updates@[j].id@);
                    assert(bs.contains(updates@[j].id@));
                    assert(pre.covered(bs, x));
                }
                if pre.covered(bs, x) {
                    let a = choose|a: Seq<char>| bs.contains(a) && pre.in_subtree(a, x);
                    let ai = bs.index_of(a);
                    assert(updates@[ai].id@ == a);
                    assert forall|kk: int| 0 <= kk < bs.len() implies pre.frames().dom().contains(
                        #[trigger] bs[kk],
                    ) by {
                        assert(bs[kk] == updates@[kk].id@);
                    }
                    pre.lemma_batch_cover(bs, a);
                    let kept = choose|kept: Seq<char>| bs.contains(kept) && !pre.proper_batch_anc(
                        bs,
                        kept,
                    ) && #[trigger] pre.in_subtree(kept, a);
                    pre.lemma_in_subtree_trans(kept, a, x);
                    let kj = bs.index_of(kept);
                    assert(updates@[kj].id@ == kept);
                    assert(pre.covered_prefix(updates@, m as int, x));
                }
            }
        }
        proof {
            assert forall|j: int| 0 <= j < self.entries@.len() implies #[trigger] self.coh_at(
                j,
                seq_views(all_dirty@).to_set(),
            ) by {
                assert(self.coh_at(j, Set::empty()));
            }
        }
        // Third pass: apply the transforms in order.
        k = 0;
        while k < m
            invariant
                pre.inv(),
                m == updates@.len(),
                k <= m,
                bs == update_ids(updates@),
                forall|j: int| 0 <= j < m ==> pre.frames().dom().contains(
                    #[trigger] updates@[j].id@,
                ),
                forall|j: int| 0 <= j < all_dirty@.len() ==> pre.frames().dom().contains(
                    #[trigger] all_dirty@[j]@,
                ),
                seq_views(all_dirty@).no_duplicates(),
                forall|x: Seq<char>|
                    #![trigger seq_views(all_dirty@).contains(x)]
                    #![trigger pre.covered(bs, x)]
                    (seq_views(all_dirty@).contains(x) <==> pre.covered(bs, x)),
                self.inv_base(),
                self.index == pre.index,
                self.depth == pre.depth,
                self.entries@.len() == pre.entries@.len(),
                forall|j: int| 0 <= j < self.entries@.len() ==> {
                    let e = #[trigger] self.entries@[j];
                    let oe = pre.entries@[j];
                    e.id == oe.id && e.parent_id == oe.parent_id && e.world == oe.world && e.dirty
                        == oe.dirty
                },
                forall|rt: Seq<char>, x: Seq<char>| #[trigger]
                    self.in_subtree(rt, x) == pre.in_subtree(rt, x),
                self.frames() == apply_updates_map(pre.frames(), updates@.take(k as int)),
                self.dirty() == pre.dirty(),
                self.cache() == pre.cache(),
                self.coh_except(seq_views(all_dirty@).to_set()),
            decreases m - k,
        {
            let ghost mid = *self;
            let ghost u = updates@[k as int].id@;
            let i = match self.find(&updates[k].id) {
                Option::Some(i) => i,
                Option::None => {
                    proof {
                        assert(mid.frames().dom() =~= pre.frames().dom()) by {
                            assert(mid.index == pre.index);
                        }
                        assert(false);
                    }
                    return Result::Err(TfError::FrameNotFound(updates[k].id.clone()));
                },
            };
            self.entries[i].local = updates[k].transform;
            proof {
                assert forall|j: int| 0 <= j < self.entries@.len() implies #[trigger]
                    self.entry_ok(j) by {
                    assert(mid.entry_ok(j));
                }
                assert forall|kk: Seq<char>| #[trigger] self.index@.dom().contains(kk) implies 0
                    <= self.index@[kk] < self.entries@.len() && self.entries@[self.index@[kk]].id@
                    == kk by {
                    assert(mid.entries@[mid.index@[kk]].id@ == kk);
                }
                assert(self.inv_base());
                assert(updates@.take(k + 1).drop_last() =~= updates@.take(k as int));
                assert(updates@.take(k + 1).last() == updates@[k as int]);
                assert(self.frames() =~= apply_updates_map(pre.frames(), updates@.take(k as int))
                    .insert(
                    u,
                    FrameModel {
                        parent: apply_updates_map(pre.frames(), updates@.take(k as int))[u].parent,
                        local: updates@[k as int].transform,
                    },
                ));
                assert(self.dirty() =~= pre.dirty());
                assert(self.cache() =~= pre.cache());
                assert forall|rt: Seq<char>, x: Seq<char>| #[trigger] self.in_subtree(rt, x)
                    == pre.in_subtree(rt, x) by {
                    if pre.frames().dom().contains(x) {
                        assert forall|y: Seq<char>| #[trigger] pre.in_subtree(y, x) implies
                            self.frames().dom().contains(y) && self.frames()[y].parent
                            == pre.frames()[y].parent by {
                            pre.lemma_in_subtree_dom(y, x);
                            assert(self.entries@[self.index@[y]].parent_id == pre.entries@[
                                pre.index@[y]
                            ].parent_id);
                        }
                        Self::lemma_same_parents(pre, *self, x);
                    } else {
                        assert(!pre.in_subtree(rt, x));
                        assert(!self.in_subtree(rt, x));
                    }
                }
                assert forall|j: int| 0 <= j < self.entries@.len() implies #[trigger] self.coh_at(
                    j,
                    seq_views(all_dirty@).to_set(),
                ) by {
                    let e = self.entries@[j];
                    if !e.dirty && e.world is Some && !seq_views(all_dirty@).to_set().contains(
                        e.id@,
                    ) {
                        assert(mid.coh_at(j, seq_views(all_dirty@).to_set()));
                        assert(e.world == mid.entries@[j].world);
                        assert(mid.entry_ok(j));
                        if mid.in_subtree(u, e.id@) {
                            assert(pre.in_subtree(u, e.id@));
                            assert(bs[k as int] == u);
                            assert(bs.contains(u));
                            assert(pre.covered(bs, e.id@));
                            assert(false);
                        }
                        assert forall|y: Seq<char>| #[trigger] mid.in_subtree(y, e.id@) implies
                            self.frames().dom().contains(y) && self.frames()[y] == mid.frames()[y]
                            by {
                            mid.lemma_in_subtree_dom(y, e.id@);
                            if y == u {
                                mid.lemma_in_subtree_trans(u, e.id@, e.id@);
                            }
                        }
                        Self::lemma_same_chain(mid, *self, e.id@);
                    }
                }
            }
            k += 1;
        }
        proof {
            assert(updates@.take(m as int) =~= updates@);
        }
        // Fourth pass: evict and mark the union dirty.
        let ghost mid3 = *self;
        proof {
            assert(mid3.frames().dom() =~= pre.frames().dom());
            assert forall|j: int| 0 <= j < all_dirty@.len() implies mid3.frames().dom().contains(
                all_dirty@[j]@,
            ) by {
                assert(pre.frames().dom().contains(all_dirty@[j]@));
            }
        }
        self.apply_dirty(&all_dirty);
        proof {
            assert(seq_views(all_dirty@).to_set() =~= Set::new(
                |x: Seq<char>| pre.covered(bs, x),
            ));
        }
        Result::Ok(all_dirty)
    }

    /// Serialize the tree into snapshot entries. Order carries no meaning to
    /// readers, but every parent is emitted before its children, so the
    /// snapshot always decodes again.
    pub fn to_snapshot(&self) -> (r: Vec<SnapshotEntry>)
        requires
            self.inv(),
        ensures
            forall|j: int| 0 <= j < r@.len() ==> self.frames().dom().contains(
                #[trigger] r@[j].id@,
            ) && self.frames()[r@[j].id@] == (FrameModel {
                parent: opt_view(r@[j].parent_id),
                local: r@[j].transform,
            }),
            forall|x: Seq<char>| #[trigger] self.frames().dom().contains(x) ==> exists|j: int| 0
                <= j < r@.len() && #[trigger] r@[j].id@ == x,
            forall|j1: int, j2: int| 0 <= j1 < j2 < r@.len() ==> r@[j1].id@ != r@[j2].id@,
            forall|j: int| 0 <= j < r@.len() ==> ((#[trigger] r@[j]).parent_id
                matches Option::Some(p) ==> exists|j2: int| 0 <= j2 < j && #[trigger] r@[j2].id@
                == p@),
    {
        let n = self.entries.len();
        let mut r: Vec<SnapshotEntry> = Vec::new();
        let mut i: usize = 0;
        while i < n
            invariant
                self.inv(),
                n == self.entries@.len(),
                i <= n,
                r@.len() == i,
                forall|j: int| 0 <= j < i ==> {
                    let e = #[trigger] r@[j];
                    &&& e.id@ == self.entries@[j].id@
                    &&& opt_view(e.parent_id) == opt_view(self.entries@[j].parent_id)
                    &&& e.transform == self.entries@[j].local
                },
            decreases n - i,
        {
            proof {
                assert(self.entry_ok(i as int));
            }
            let e = &self.entries[i];
            r.push(
                SnapshotEntry {
                    id: e.id.clone(),
                    parent_id: e.parent_id.clone(),
                    transform: e.local,
                },
            );
            i += 1;
        }
        proof {
            assert forall|j: int| 0 <= j < r@.len() implies self.frames().dom().contains(
                #[trigger] r@[j].id@,
            ) && self.frames()[r@[j].id@] == (FrameModel {
                parent: opt_view(r@[j].parent_id),
                local: r@[j].transform,
            }) by {
                assert(self.entry_ok(j));
            }
            assert forall|x: Seq<char>| #[trigger] self.frames().dom().contains(x) implies exists|
                j: int,
            | 0 <= j < r@.len() && #[trigger] r@[j].id@ == x by {
                let j = self.index@[x];
                assert(r@[j].id@ == x);
            }
            assert forall|j1: int, j2: int| 0 <= j1 < j2 < r@.len() implies r@[j1].id@ != r@[
                j2
            ].id@ by {
                assert(self.entry_ok(j1));
                assert(self.entry_ok(j2));
            }
            assert forall|j: int| 0 <= j < r@.len() implies ((#[trigger] r@[j]).parent_id
                matches Option::Some(p) ==> exists|j2: int| 0 <= j2 < j && #[trigger] r@[j2].id@
                == p@) by {
                assert(self.entry_ok(j));
                match self.entries@[j].parent_id {
                    Option::Some(p) => {
                        let j2 = self.index@[p@];
                        assert(self.entry_ok(j2));
                        assert(0 <= j2 < j && r@[j2].id@ == p@);
                    },
                    Option::None => {},
                }
            }
        }
        r
    }

    /// Rebuild a tree from snapshot entries by replaying `add_frame` in
    /// listed order. Entries must come parent before child; any replay
    /// failure is the whole load's failure, and no partial tree is kept.
    #[verifier::rlimit(50)]
    pub fn from_snapshot(entries: &Vec<SnapshotEntry>) -> (r: Result<TfTree, TfError>)
        ensures
            r is Ok <==> snapshot_ok(entries@),
            r matches Result::Ok(t) ==> {
                &&& t.inv()
                &&& t.frames() == snapshot_map(entries@)
                &&& t.cache() == Map::<Seq<char>, Transform>::empty()
                &&& t.dirty() == t.frames().dom()
            },
            r matches Result::Err(e) ==> ((e matches TfError::DuplicateFrame(_)) || (
            e matches TfError::ParentNotFound(_))),
    {
        let n = entries.len();
        let mut t = TfTree::new();
        let mut k: usize = 0;
        while k < n
            invariant
                n == entries@.len(),
                k <= n,
                t.inv(),
                t.frames() == snapshot_map(entries@.take(k as int)),
                t.cache() == Map::<Seq<char>, Transform>::empty(),
                t.dirty() == t.frames().dom(),
                forall|j: int| 0 <= j < k ==> #[trigger] snapshot_entry_ok(entries@, j),
            decreases n - k,
        {
            let e = &entries[k];
            let ghost pre_t = t;
            match t.add_frame(&e.id, e.parent_id.clone(), e.transform) {
                Result::Ok(_) => {},
                Result::Err(err) => {
                    proof {
                        if snapshot_ok(entries@) {
                            assert(snapshot_entry_ok(entries@, k as int));
                            assert(false);
                        }
                    }
                    return Result::Err(err);
                },
            }
            proof {
                assert(snapshot_entry_ok(entries@, k as int));
                assert(entries@.take(k + 1).drop_last() =~= entries@.take(k as int));
                assert(entries@.take(k + 1).last() == entries@[k as int]);
                assert(t.frames() =~= snapshot_map(entries@.take(k + 1)));
                assert(t.dirty() =~= t.frames().dom());
            }
            k += 1;
        }
        proof {
            assert(entries@.take(n as int) =~= entries@);
            assert(snapshot_ok(entries@));
        }
        Result::Ok(t)
    }
}

/// Naming a frame and one of its descendants in a batch dirties the same
/// set as naming the frame alone: the descendant's subtree is already part
/// of its ancestor's.
pub proof fn lemma_batch_parent_covers_child(t: TfTree, updates: Seq<FrameUpdate>)
    requires
        t.inv(),
        updates.len() == 2,
        t.in_subtree(updates[0].id@, updates[1].id@),
    ensures
        forall|x: Seq<char>| t.covered(update_ids(updates), x) <==> t.in_subtree(
            updates[0].id@,
            x,
        ),
{
    let p = updates[0].id@;
    let c = updates[1].id@;
    assert(update_ids(updates)[0] == p);
    assert(update_ids(updates)[1] == c);
    assert forall|x: Seq<char>| t.covered(update_ids(updates), x) implies t.in_subtree(p, x) by {
        let a = choose|a: Seq<char>| update_ids(updates).contains(a) && t.in_subtree(a, x);
        let ai = update_ids(updates).index_of(a);
        if ai == 1 {
            t.lemma_in_subtree_trans(p, c, x);
        }
    }
    assert forall|x: Seq<char>| t.in_subtree(p, x) implies t.covered(update_ids(updates), x) by {
        assert(update_ids(updates).contains(p));
    }
}

/// A prefix of a faithful parent-first snapshot of `t` describes exactly
/// the records of the ids it lists.
proof fn lemma_snapshot_prefix(t: TfTree, s: Seq<SnapshotEntry>, k: int)
    requires
        t.inv(),
        0 <= k <= s.len(),
        forall|j: int| 0 <= j < s.len() ==> t.frames().dom().contains(#[trigger] s[j].id@)
            && t.frames()[s[j].id@] == (FrameModel {
            parent: opt_view(s[j].parent_id),
            local: s[j].transform,
        }),
        forall|j1: int, j2: int| 0 <= j1 < j2 < s.len() ==> s[j1].id@ != s[j2].id@,
    ensures
        snapshot_map(s.take(k)).dom() =~= Set::new(
            |x: Seq<char>| exists|j: int| 0 <= j < k && #[trigger] s[j].id@ == x,
        ),
        forall|x: Seq<char>| #[trigger] snapshot_map(s.take(k)).dom().contains(x)
            ==> snapshot_map(s.take(k))[x] == t.frames()[x],
    decreases k,
{
    if k > 0 {
        lemma_snapshot_prefix(t, s, k - 1);
        assert(s.take(k).drop_last() =~= s.take(k - 1));
        assert(s.take(k).last() == s[k - 1]);
        assert(snapshot_map(s.take(k)) == snapshot_map(s.take(k - 1)).insert(
            s[k - 1].id@,
            FrameModel { parent: opt_view(s[k - 1].parent_id), local: s[k - 1].transform },
        ));
        assert forall|x: Seq<char>| #[trigger] snapshot_map(s.take(k)).dom().contains(x) implies
            snapshot_map(s.take(k))[x] == t.frames()[x] by {
            if x != s[k - 1].id@ {
                assert(snapshot_map(s.take(k - 1)).dom().contains(x));
            }
        }
        assert(snapshot_map(s.take(k)).dom() =~= Set::new(
            |x: Seq<char>| exists|j: int| 0 <= j < k && #[trigger] s[j].id@ == x,
        )) by {
            assert forall|x: Seq<char>| snapshot_map(s.take(k)).dom().contains(x) implies exists|
                j: int,
            | 0 <= j < k && #[trigger] s[j].id@ == x by {
                if x == s[k - 1].id@ {
                    assert(s[k - 1].id@ == x);
                } else {
                    assert(snapshot_map(s.take(k - 1)).dom().contains(x));
                }
            }
            assert forall|x: Seq<char>| (exists|j: int| 0 <= j < k && #[trigger] s[j].id@ == x)
                implies snapshot_map(s.take(k)).dom().contains(x) by {
                let j = choose|j: int| 0 <= j < k && #[trigger] s[j].id@ == x;
                if j < k - 1 {
                    assert(snapshot_map(s.take(k - 1)).dom().contains(x));
                }
            }
        }
    } else {
        assert(s.take(0) =~= Seq::<SnapshotEntry>::empty());
    }
}

/// Round trip: a snapshot with the properties `to_snapshot` guarantees
/// decodes cleanly, and rebuilding from it reproduces the frame set, the
/// parent links and the local transforms exactly. Transform queries are a
/// function of that registry, so they answer the same before and after.
pub proof fn lemma_snapshot_round_trip(t: TfTree, s: Seq<SnapshotEntry>)
    requires
        t.inv(),
        forall|j: int| 0 <= j < s.len() ==> t.frames().dom().contains(#[trigger] s[j].id@)
            && t.frames()[s[j].id@] == (FrameModel {
            parent: opt_view(s[j].parent_id),
            local: s[j].transform,
        }),
        forall|x: Seq<char>| #[trigger] t.frames().dom().contains(x) ==> exists|j: int| 0 <= j
            < s.len() && #[trigger] s[j].id@ == x,
        forall|j1: int, j2: int| 0 <= j1 < j2 < s.len() ==> s[j1].id@ != s[j2].id@,
        forall|j: int| 0 <= j < s.len() ==> ((#[trigger] s[j]).parent_id matches Option::Some(p)
            ==> exists|j2: int| 0 <= j2 < j && #[trigger] s[j2].id@ == p@),
    ensures
        snapshot_ok(s),
        snapshot_map(s) == t.frames(),
{
    assert forall|j: int| 0 <= j < s.len() implies #[trigger] snapshot_entry_ok(s, j) by {
        lemma_snapshot_prefix(t, s, j);
        if snapshot_map(s.take(j)).dom().contains(s[j].id@) {
            let jj = choose|jj: int| 0 <= jj < j && #[trigger] s[jj].id@ == s[j].id@;
            assert(false);
        }
        match s[j].parent_id {
            Option::Some(p) => {
                let j2 = choose|j2: int| 0 <= j2 < j && #[trigger] s[j2].id@ == p@;
                assert(snapshot_map(s.take(j)).dom().contains(p@));
            },
            Option::None => {},
        }
    }
    lemma_snapshot_prefix(t, s, s.len() as int);
    assert(s.take(s.len() as int) =~= s);
    assert(snapshot_map(s) =~= t.frames()) by {
        assert forall|x: Seq<char>| t.frames().dom().contains(x) implies snapshot_map(
            s,
        ).dom().contains(x) by {
            let j = choose|j: int| 0 <= j < s.len() && #[trigger] s[j].id@ == x;
        }
    }
}

} // verus!
