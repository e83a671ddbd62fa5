//! Tree objects: a hierarchy folded from the sorted index entries, whose
//! subtree names are computed bottom-up, in post-order.

use vstd::prelude::*;

use crate::database::{oid_of, Database, ObjectWrite, Storable};
use crate::hashing::is_hex_lower;
use crate::index_entry::{Entry, EntryV, EXECUTABLE_MODE, REGULAR_MODE, TREE_MODE};
use crate::paths::{basename_of, parent_components_of};

verus! {

broadcast use vstd::std_specs::vec::group_vec_axioms;

/// A child of a tree: a nested tree or a staged entry.
pub enum TreeNode {
    Tree(Tree),
    Entry(Entry),
}

/// A tree object: named children in insertion order, and the name the
/// database assigned, once stored.
pub struct Tree {
    oid: Option<Vec<u8>>,
    entries: Vec<(Vec<u8>, TreeNode)>,
}

/// The mathematical value of a child.
pub enum TreeNodeV {
    Tree(TreeV),
    Entry(EntryV),
}

/// The mathematical value of a tree.
pub struct TreeV {
    pub oid: Option<Seq<u8>>,
    pub entries: Seq<(Seq<u8>, TreeNodeV)>,
}

impl TreeNode {
    /// The value of this child.
    pub closed spec fn node_view(self) -> TreeNodeV
        decreases self,
    {
        match self {
            TreeNode::Tree(t) => TreeNodeV::Tree(t.tree_view()),
            TreeNode::Entry(e) => TreeNodeV::Entry(e@),
        }
    }
}

/// The values of a child list.
pub closed spec fn children_view(s: Seq<(Vec<u8>, TreeNode)>) -> Seq<(Seq<u8>, TreeNodeV)>
    decreases s,
{
    if s.len() == 0 {
        Seq::<(Seq<u8>, TreeNodeV)>::empty()
    } else {
        children_view(s.drop_last()).push((s.last().0@, s.last().1.node_view()))
    }
}

impl Tree {
    /// The value of this tree.
    pub closed spec fn tree_view(self) -> TreeV
        decreases self,
    {
        TreeV {
            oid: match self.oid {
                Some(v) => Some(v@),
                None => None,
            },
            entries: children_view(self.entries@),
        }
    }
}

/// The child list's values, pointwise.
pub proof fn lemma_children_view(s: Seq<(Vec<u8>, TreeNode)>)
    ensures
        children_view(s).len() == s.len(),
        forall|i: int|
            0 <= i < s.len() ==> #[trigger] children_view(s)[i] == (s[i].0@, s[i].1.node_view()),
    decreases s,
{
    if s.len() > 0 {
        lemma_children_view(s.drop_last());
    }
}

// ---------------------------------------------------------------------------
// Serialization of one tree level
// ---------------------------------------------------------------------------

/// The type name `tree`.
pub open spec fn tree_kind() -> Seq<u8> {
    seq![116u8, 114u8, 101u8, 101u8]
}

/// One serialized child: octal mode, space, name, NUL, the raw 20-byte
/// object id.
pub open spec fn child_line(name: Seq<u8>, mode: u32, oid: Seq<u8>) -> Seq<u8> {
    crate::encoding::oct_of(mode as nat) + seq![32u8] + name + seq![0u8]
        + crate::hashing::unhex_of(oid)
}

/// The mode a child contributes: the subtree mode for nested trees, the
/// entry's normalized mode for staged files.
pub open spec fn node_mode(n: TreeNodeV) -> u32 {
    match n {
        TreeNodeV::Tree(_) => TREE_MODE,
        TreeNodeV::Entry(e) => if e.mode == EXECUTABLE_MODE {
            EXECUTABLE_MODE
        } else {
            REGULAR_MODE
        },
    }
}

/// The object id a child carries: a nested tree's assigned name, a staged
/// entry's recorded name.
pub open spec fn stored_child_oid(n: TreeNodeV) -> Option<Seq<u8>> {
    match n {
        TreeNodeV::Tree(t) => t.oid,
        TreeNodeV::Entry(e) => Some(e.oid),
    }
}

/// Every direct child carries a well-formed name, so the level can be
/// serialized.
pub open spec fn children_ready(s: Seq<(Seq<u8>, TreeNodeV)>) -> bool {
    forall|i: int|
        0 <= i < s.len() ==> match stored_child_oid(#[trigger] s[i].1) {
            Some(o) => o.len() == 40 && is_hex_lower(o),
            None => false,
        }
}

/// The payload of one tree level, from the names its children carry.
pub open spec fn payload_direct(s: Seq<(Seq<u8>, TreeNodeV)>) -> Seq<u8>
    decreases s.len(),
{
    if s.len() == 0 {
        Seq::<u8>::empty()
    } else {
        payload_direct(s.drop_last()) + child_line(
            s.last().0,
            node_mode(s.last().1),
            match stored_child_oid(s.last().1) {
                Some(o) => o,
                None => Seq::<u8>::empty(),
            },
        )
    }
}

// ---------------------------------------------------------------------------
// The recomputed names: what storing a tree bottom-up assigns
// ---------------------------------------------------------------------------

/// The name a child contributes once everything below it is stored.
pub open spec fn node_oid_model(n: TreeNodeV) -> Seq<u8>
    decreases n, 0int,
{
    match n {
        TreeNodeV::Entry(e) => e.oid,
        TreeNodeV::Tree(t) => tree_oid_model(t),
    }
}

/// The payload of the first `k` children, with subtree names recomputed
/// bottom-up.
pub open spec fn tree_payload_model(s: Seq<(Seq<u8>, TreeNodeV)>, k: int) -> Seq<u8>
    decreases s, k,
{
    if k <= 0 || s.len() < k {
        Seq::<u8>::empty()
    } else {
        tree_payload_model(s, k - 1) + child_line(
            s[k - 1].0,
            node_mode(s[k - 1].1),
            node_oid_model(s[k - 1].1),
        )
    }
}

/// The name a tree receives when stored: the hash of its framed payload.
pub open spec fn tree_oid_model(t: TreeV) -> Seq<u8>
    decreases t, 1int,
{
    oid_of(tree_kind(), tree_payload_model(t.entries, t.entries.len() as int))
}

/// Every entry in the tree carries a well-formed name.
pub open spec fn node_wf(n: TreeNodeV) -> bool
    decreases n, 1int,
{
    match n {
        TreeNodeV::Entry(e) => e.oid.len() == 40 && is_hex_lower(e.oid),
        TreeNodeV::Tree(t) => tree_wf(t),
    }
}

/// Well-formedness of the first `k` children.
pub open spec fn children_wf(s: Seq<(Seq<u8>, TreeNodeV)>, k: int) -> bool
    decreases s, k,
{
    if k <= 0 || s.len() < k {
        true
    } else {
        children_wf(s, k - 1) && node_wf(s[k - 1].1)
    }
}

/// Well-formedness of a whole tree.
pub open spec fn tree_wf(t: TreeV) -> bool
    decreases t, 2int,
{
    children_wf(t.entries, t.entries.len() as int)
}

/// The tree after a post-order store: every subtree carries its recomputed
/// name, children otherwise unchanged.
pub open spec fn stored_node(n: TreeNodeV) -> TreeNodeV
    decreases n, 0int,
{
    match n {
        TreeNodeV::Entry(e) => TreeNodeV::Entry(e),
        TreeNodeV::Tree(t) => TreeNodeV::Tree(stored_tree(t)),
    }
}

/// The first `k` children after the store.
pub open spec fn stored_children(s: Seq<(Seq<u8>, TreeNodeV)>, k: int) -> Seq<(Seq<u8>, TreeNodeV)>
    decreases s, k,
{
    if k <= 0 || s.len() < k {
        Seq::<(Seq<u8>, TreeNodeV)>::empty()
    } else {
        stored_children(s, k - 1).push((s[k - 1].0, stored_node(s[k - 1].1)))
    }
}

/// A whole tree after the store.
pub open spec fn stored_tree(t: TreeV) -> TreeV
    decreases t, 2int,
{
    TreeV {
        oid: Some(tree_oid_model(t)),
        entries: stored_children(t.entries, t.entries.len() as int),
    }
}

/// Well-formedness is pointwise over the children.
pub proof fn lemma_children_wf_index(s: Seq<(Seq<u8>, TreeNodeV)>, k: int)
    requires
        0 <= k <= s.len(),
        children_wf(s, k),
    ensures
        forall|i: int| 0 <= i < k ==> node_wf(#[trigger] s[i].1),
    decreases k,
{
    if k > 0 {
        lemma_children_wf_index(s, k - 1);
    }
}

/// After the store, the names the children carry are exactly the
/// recomputed ones, so the level serializes to the modeled payload.
pub proof fn lemma_stored_payload(s: Seq<(Seq<u8>, TreeNodeV)>, k: int)
    requires
        0 <= k <= s.len(),
    ensures
        stored_children(s, k).len() == k,
        payload_direct(stored_children(s, k)) == tree_payload_model(s, k),
    decreases k,
{
    if k > 0 {
        lemma_stored_payload(s, k - 1);
        let sc = stored_children(s, k);
        assert(sc.drop_last() =~= stored_children(s, k - 1));
        let n = s[k - 1].1;
        assert(stored_child_oid(stored_node(n)) == Some(node_oid_model(n)));
        assert(node_mode(stored_node(n)) == node_mode(n));
    }
}

// ---------------------------------------------------------------------------
// Building the hierarchy
// ---------------------------------------------------------------------------

/// A leaf stood where a subtree was required (or a subtree where a leaf
/// was): the entries violated the index's no-cohabitation rule.
#[derive(Clone, Copy, PartialEq, Eq, Structural, Debug)]
pub struct TreeError;

/// The position of `key` among the children, if present.
pub open spec fn index_of_key(s: Seq<(Seq<u8>, TreeNodeV)>, key: Seq<u8>) -> Option<int>
    decreases s.len(),
{
    if s.len() == 0 {
        None::<int>
    } else if s[0].0 == key {
        Some(0int)
    } else {
        match index_of_key(s.skip(1), key) {
            Some(k) => Some(k + 1),
            None => None,
        }
    }
}

pub proof fn lemma_index_of_key(s: Seq<(Seq<u8>, TreeNodeV)>, key: Seq<u8>)
    ensures
        match index_of_key(s, key) {
            Some(k) => 0 <= k < s.len() && s[k].0 == key && forall|m: int|
                0 <= m < k ==> (#[trigger] s[m]).0 != key,
            None => forall|m: int| 0 <= m < s.len() ==> (#[trigger] s[m]).0 != key,
        },
    decreases s.len(),
{
    if s.len() > 0 && s[0].0 != key {
        lemma_index_of_key(s.skip(1), key);
        match index_of_key(s, key) {
            Some(k) => {
                assert(s.skip(1)[k - 1] == s[k]);
                assert forall|m: int| 0 <= m < k implies (#[trigger] s[m]).0 != key by {
                    if m > 0 {
                        assert(s.skip(1)[m - 1] == s[m]);
                    }
                }
            },
            None => {
                assert forall|m: int| 0 <= m < s.len() implies (#[trigger] s[m]).0 != key by {
                    if m > 0 {
                        assert(s.skip(1)[m - 1] == s[m]);
                    }
                }
            },
        }
    }
}

/// `s` with `key` bound to `node`: replaced in place when present, appended
/// otherwise.
pub open spec fn upsert(s: Seq<(Seq<u8>, TreeNodeV)>, key: Seq<u8>, node: TreeNodeV) -> Seq<
    (Seq<u8>, TreeNodeV),
> {
    match index_of_key(s, key) {
        Some(k) => s.update(k, (key, node)),
        None => s.push((key, node)),
    }
}

/// One entry folded into the hierarchy: descend the directory components
/// from `i`, creating subtrees as needed, and bind the entry at its
/// basename.  `None` when a leaf occupies a slot a subtree needs, or the
/// other way round.
pub open spec fn add_model(t: TreeV, parents: Seq<Seq<u8>>, i: int, e: EntryV) -> Option<TreeV>
    decreases parents.len() - i,
{
    if i >= parents.len() {
        Some(
            TreeV { oid: t.oid, entries: upsert(t.entries, basename_of(e.path), TreeNodeV::Entry(e)) },
        )
    } else {
        let key = parents[i];
        match index_of_key(t.entries, key) {
            None => {
                match add_model(TreeV { oid: None, entries: Seq::empty() }, parents, i + 1, e) {
                    Some(sub) => Some(
                        TreeV {
                            oid: t.oid,
                            entries: t.entries.push((key, TreeNodeV::Tree(sub))),
                        },
                    ),
                    None => None,
                }
            },
            Some(k) => match t.entries[k].1 {
                TreeNodeV::Tree(sub) => match add_model(sub, parents, i + 1, e) {
                    Some(sub2) => Some(
                        TreeV {
                            oid: t.oid,
                            entries: t.entries.update(k, (key, TreeNodeV::Tree(sub2))),
                        },
                    ),
                    None => None,
                },
                TreeNodeV::Entry(_) => None,
            },
        }
    }
}

/// The hierarchy folded from a list of entries, in order.
pub open spec fn build_model(es: Seq<EntryV>) -> Option<TreeV>
    decreases es.len(),
{
    if es.len() == 0 {
        Some(TreeV { oid: None, entries: Seq::<(Seq<u8>, TreeNodeV)>::empty() })
    } else {
        match build_model(es.drop_last()) {
            None => None,
            Some(t) => add_model(t, parent_components_of(es.last().path), 0, es.last()),
        }
    }
}

/// Once the fold fails, adding more entries cannot repair it.
pub proof fn lemma_build_model_none(es: Seq<EntryV>, k: int)
    requires
        0 <= k <= es.len(),
        build_model(es.take(k)) is None,
    ensures
        build_model(es) is None,
    decreases es.len(),
{
    if k == es.len() {
        assert(es.take(k) =~= es);
    } else {
        assert(es.drop_last().take(k) =~= es.take(k));
        lemma_build_model_none(es.drop_last(), k);
    }
}

impl Tree {
    /// An empty, unnamed tree.
    pub fn new() -> (r: Tree)
        ensures
            r.tree_view() == (TreeV { oid: None, entries: Seq::<(Seq<u8>, TreeNodeV)>::empty() }),
    {
        let r = Tree { oid: None, entries: Vec::new() };
        proof {
            assert(children_view(r.entries@) =~= Seq::<(Seq<u8>, TreeNodeV)>::empty());
        }
        r
    }

    /// The position of `key` among this tree's children.
    fn find_child(&self, key: &Vec<u8>) -> (r: Option<usize>)
        ensures
            match r {
                Some(k) => index_of_key(self.tree_view().entries, key@) == Some(k as int),
                None => index_of_key(self.tree_view().entries, key@) is None,
            },
    {
        proof {
            lemma_index_of_key(self.tree_view().entries, key@);
            lemma_children_view(self.entries@);
        }
        let mut j: usize = 0;
        while j < self.entries.len()
            invariant
                j <= self.entries@.len(),
                forall|m: int| 0 <= m < j ==> (#[trigger] children_view(self.entries@)[m]).0
                    != key@,
                children_view(self.entries@) == self.tree_view().entries,
                children_view(self.entries@).len() == self.entries@.len(),
                forall|i: int|
                    0 <= i < self.entries@.len() ==> #[trigger] children_view(self.entries@)[i]
                        == (self.entries@[i].0@, self.entries@[i].1.node_view()),
                match index_of_key(self.tree_view().entries, key@) {
                    Some(k) => 0 <= k < self.entries@.len()
                        && children_view(self.entries@)[k].0 == key@ && forall|m: int|
                        0 <= m < k ==> (#[trigger] children_view(self.entries@)[m]).0 != key@,
                    None => forall|m: int|
                        0 <= m < self.entries@.len() ==> (#[trigger] children_view(
                            self.entries@,
                        )[m]).0 != key@,
                },
            decreases self.entries@.len() - j,
        {
            if crate::paths::byte_vecs_equal(&self.entries[j].0, key) {
                proof {
                    assert(children_view(self.entries@)[j as int].0 == key@);
                }
                return Some(j);
            }
            j = j + 1;
        }
        None
    }

    /// Folds one entry in, descending its directory components from `i`.
    fn add_entry(&mut self, parents: &Vec<Vec<u8>>, i: usize, entry: &Entry) -> (r: Result<
        (),
        TreeError,
    >)
        requires
            i <= parents@.len(),
        ensures
            match add_model(
                old(self).tree_view(),
                parents@.map_values(|c: Vec<u8>| c@),
                i as int,
                entry@,
            ) {
                Some(t2) => r == Ok::<(), TreeError>(()) && final(self).tree_view() == t2,
                None => r == Err::<(), TreeError>(TreeError),
            },
        decreases parents@.len() - i,
    {
        let ghost pv = parents@.map_values(|c: Vec<u8>| c@);
        let ghost tv = self.tree_view();
        proof {
            lemma_children_view(self.entries@);
        }
        if i == parents.len() {
            let base = entry.basename();
            let pos = self.find_child(&base);
            proof {
                lemma_index_of_key(tv.entries, base@);
            }
            match pos {
                Some(k) => {
                    self.entries.set(k, (base, TreeNode::Entry(entry.duplicate())));
                    proof {
                        lemma_children_view(self.entries@);
                        assert(children_view(self.entries@) =~= tv.entries.update(
                            k as int,
                            (basename_of(entry@.path), TreeNodeV::Entry(entry@)),
                        ));
                    }
                },
                None => {
                    self.entries.push((base, TreeNode::Entry(entry.duplicate())));
                    proof {
                        lemma_children_view(self.entries@);
                        assert(children_view(self.entries@) =~= tv.entries.push(
                            (basename_of(entry@.path), TreeNodeV::Entry(entry@)),
                        ));
                    }
                },
            }
            Ok(())
        } else {
            let pos = self.find_child(&parents[i]);
            proof {
                lemma_index_of_key(tv.entries, pv[i as int]);
            }
            match pos {
                None => {
                    let mut sub = Tree::new();
                    let res = sub.add_entry(parents, i + 1, entry);
                    match res {
                        Ok(_u) => {
                            let key = parents[i].clone();
                            self.entries.push((key, TreeNode::Tree(sub)));
                            proof {
                                lemma_children_view(self.entries@);
                                assert(children_view(self.entries@) =~= tv.entries.push(
                                    (pv[i as int], self.entries@.last().1.node_view()),
                                ));
                            }
                            Ok(())
                        },
                        Err(e) => Err(e),
                    }
                },
                Some(k) => {
                    let ghost pre = self.entries@;
                    let (name, node) = self.entries.remove(k);
                    match node {
                        TreeNode::Tree(mut sub) => {
                            proof {
                                assert(pre[k as int].1 == TreeNode::Tree(sub));
                                assert(tv.entries[k as int].1 == TreeNodeV::Tree(sub.tree_view()));
                            }
                            let res = sub.add_entry(parents, i + 1, entry);
                            self.entries.insert(k, (name, TreeNode::Tree(sub)));
                            match res {
                                Ok(_u) => {
                                    proof {
                                        lemma_children_view(self.entries@);
                                        assert(children_view(self.entries@) =~= tv.entries.update(
                                            k as int,
                                            (pv[i as int], self.entries@[k as int].1.node_view()),
                                        )) by {
                                            assert(forall|m: int|
                                                0 <= m < k ==> self.entries@[m] == pre[m]);
                                            assert(forall|m: int|
                                                k < m < self.entries@.len()
                                                    ==> self.entries@[m] == pre[m]);
                                            assert(tv.entries[k as int].0 == pv[i as int]);
                                        }
                                    }
                                    Ok(())
                                },
                                Err(e) => Err(e),
                            }
                        },
                        TreeNode::Entry(leaf) => {
                            proof {
                                assert(pre[k as int].1 == TreeNode::Entry(leaf));
                                assert(tv.entries[k as int].1 == TreeNodeV::Entry(leaf@));
                            }
                            self.entries.insert(k, (name, TreeNode::Entry(leaf)));
                            Err(TreeError)
                        },
                    }
                },
            }
        }
    }

    /// Stores the hierarchy bottom-up: every subtree is written before its
    /// parent, each prepared write is appended to `out`, and every tree
    /// ends up carrying its content-addressed name.  The last write is the
    /// root's; its name becomes a commit's `tree` field.
    pub fn traverse(&mut self, db: &Database, out: &mut Vec<ObjectWrite>)
        requires
            tree_wf(old(self).tree_view()),
        ensures
            final(self).tree_view() == stored_tree(old(self).tree_view()),
            tree_oid_model(old(self).tree_view()).len() == 40,
            is_hex_lower(tree_oid_model(old(self).tree_view())),
            final(out)@.len() > old(out)@.len(),
            final(out)@.take(old(out)@.len() as int) == old(out)@,
            final(out)@.last().oid@ == tree_oid_model(old(self).tree_view()),
            final(out)@.last().content@ == crate::database::zlib_fast_of(
                crate::database::frame_bytes(
                    tree_kind(),
                    tree_payload_model(
                        old(self).tree_view().entries,
                        old(self).tree_view().entries.len() as int,
                    ),
                ),
            ),
            final(out)@.last().object_path@ == crate::database::object_path_of(
                db.pathname_spec(),
                tree_oid_model(old(self).tree_view()),
            ),
    {
        let mut taken = Tree::new();
        core::mem::swap(self, &mut taken);
        let mut stored = store_all(taken, db, out);
        core::mem::swap(self, &mut stored);
    }

    /// Folds a sorted list of entries into a hierarchy of trees.
    pub fn build(sorted_entries: &Vec<Entry>) -> (r: Result<Tree, TreeError>)
        ensures
            match build_model(crate::index::views_of(sorted_entries@)) {
                Some(t) => r matches Ok(tree) && tree.tree_view() == t,
                None => r == Err::<Tree, TreeError>(TreeError),
            },
    {
        let ghost es = crate::index::views_of(sorted_entries@);
        let mut root = Tree::new();
        let mut i: usize = 0;
        proof {
            assert(es.take(0) =~= Seq::<EntryV>::empty());
        }
        while i < sorted_entries.len()
            invariant
                i <= sorted_entries@.len(),
                es == crate::index::views_of(sorted_entries@),
                es.len() == sorted_entries@.len(),
                build_model(es.take(i as int)) == Some(root.tree_view()),
            decreases sorted_entries@.len() - i,
        {
            let parents = sorted_entries[i].parent_directories();
            let res = root.add_entry(&parents, 0, &sorted_entries[i]);
            proof {
                assert(es.take(i + 1).drop_last() =~= es.take(i as int));
                assert(es.take(i + 1).last() == es[i as int]);
                assert(es[i as int] == sorted_entries@[i as int]@);
            }
            match res {
                Ok(_u) => {},
                Err(e) => {
                    proof {
                        lemma_build_model_none(es, i + 1);
                    }
                    return Err(e);
                },
            }
            i = i + 1;
        }
        proof {
            assert(es.take(es.len() as int) =~= es);
        }
        Ok(root)
    }
}

/// Tree order determinism: the same entry list always folds to the same
/// hierarchy, and storing that hierarchy yields byte-identical tree
/// payloads and the same root name, whichever run produced them.
pub proof fn lemma_tree_order_deterministic(es1: Seq<EntryV>, es2: Seq<EntryV>)
    requires
        es1 == es2,
    ensures
        build_model(es1) == build_model(es2),
        match (build_model(es1), build_model(es2)) {
            (Some(t1), Some(t2)) => tree_oid_model(t1) == tree_oid_model(t2)
                && tree_payload_model(t1.entries, t1.entries.len() as int) == tree_payload_model(
                t2.entries,
                t2.entries.len() as int,
            ),
            _ => true,
        },
{
}

/// What a tree child exposes for serialization: the object id it carries
/// and the mode bits it contributes to its parent.
pub trait OidAndMode {
    /// Whether the id is available yet.
    spec fn id_ready(&self) -> bool;

    /// The id exposed.
    spec fn id_spec(&self) -> Seq<u8>;

    /// The mode contributed.
    spec fn mode_spec(&self) -> u32;

    /// The object id this child contributes to its parent tree.
    fn oid(&self) -> (r: &Vec<u8>)
        requires
            self.id_ready(),
        ensures
            r@ == self.id_spec(),
    ;

    /// The mode bits this child contributes.
    fn mode(&self) -> (r: u32)
        ensures
            r == self.mode_spec(),
    ;
}

impl OidAndMode for Entry {
    open spec fn id_ready(&self) -> bool {
        true
    }

    open spec fn id_spec(&self) -> Seq<u8> {
        self@.oid
    }

    /// Entries contribute their normalized file mode.
    open spec fn mode_spec(&self) -> u32 {
        if self@.mode == EXECUTABLE_MODE {
            EXECUTABLE_MODE
        } else {
            REGULAR_MODE
        }
    }

    fn oid(&self) -> (r: &Vec<u8>) {
        &self.oid
    }

    fn mode(&self) -> (r: u32) {
        if self.mode == EXECUTABLE_MODE {
            EXECUTABLE_MODE
        } else {
            REGULAR_MODE
        }
    }
}

impl OidAndMode for Tree {
    open spec fn id_ready(&self) -> bool {
        self.tree_view().oid is Some
    }

    open spec fn id_spec(&self) -> Seq<u8> {
        match self.tree_view().oid {
            Some(o) => o,
            None => Seq::<u8>::empty(),
        }
    }

    /// Subtrees contribute the fixed subtree mode.
    open spec fn mode_spec(&self) -> u32 {
        TREE_MODE
    }

    fn oid(&self) -> (r: &Vec<u8>) {
        match &self.oid {
            Some(v) => v,
            None => {
                proof {
                    assert(false);
                }
                &self.entries[0].0
            },
        }
    }

    fn mode(&self) -> (r: u32) {
        TREE_MODE
    }
}

impl OidAndMode for TreeNode {
    open spec fn id_ready(&self) -> bool {
        stored_child_oid(self.node_view()) is Some
    }

    open spec fn id_spec(&self) -> Seq<u8> {
        match stored_child_oid(self.node_view()) {
            Some(o) => o,
            None => Seq::<u8>::empty(),
        }
    }

    open spec fn mode_spec(&self) -> u32 {
        node_mode(self.node_view())
    }

    fn oid(&self) -> (r: &Vec<u8>) {
        match self {
            TreeNode::Tree(t) => <Tree as OidAndMode>::oid(t),
            TreeNode::Entry(e) => &e.oid,
        }
    }

    fn mode(&self) -> (r: u32) {
        match self {
            TreeNode::Tree(t) => t.mode(),
            TreeNode::Entry(e) => e.mode(),
        }
    }
}

/// The post-order store of one tree: children first, then the tree itself.
fn store_all(t: Tree, db: &Database, out: &mut Vec<ObjectWrite>) -> (r: Tree)
    requires
        tree_wf(t.tree_view()),
    ensures
        r.tree_view() == stored_tree(t.tree_view()),
        tree_oid_model(t.tree_view()).len() == 40,
        is_hex_lower(tree_oid_model(t.tree_view())),
        final(out)@.len() > old(out)@.len(),
        final(out)@.take(old(out)@.len() as int) == old(out)@,
        final(out)@.last().oid@ == tree_oid_model(t.tree_view()),
        final(out)@.last().content@ == crate::database::zlib_fast_of(
            crate::database::frame_bytes(
                tree_kind(),
                tree_payload_model(t.tree_view().entries, t.tree_view().entries.len() as int),
            ),
        ),
        final(out)@.last().object_path@ == crate::database::object_path_of(
            db.pathname_spec(),
            tree_oid_model(t.tree_view()),
        ),
    decreases t,
{
    let ghost tv = t.tree_view();
    let ghost out0 = out@;
    proof {
        lemma_children_view(t.entries@);
        lemma_children_wf_index(tv.entries, tv.entries.len() as int);
    }
    let Tree { oid, entries } = t;
    let ghost entries0 = entries@;
    let mut rest = entries;
    let mut done: Vec<(Vec<u8>, TreeNode)> = Vec::new();
    proof {
        assert(children_view(done@) =~= stored_children(tv.entries, 0));
        assert(rest@ =~= entries0.skip(0));
    }
    while rest.len() > 0
        invariant
            tv == t.tree_view(),
            entries0 == t.entries@,
            tree_wf(tv),
            done@.len() + rest@.len() == entries0.len(),
            rest@ == entries0.skip(done@.len() as int),
            children_view(done@) == stored_children(tv.entries, done@.len() as int),
            children_ready(children_view(done@)),
            tv.entries.len() == entries0.len(),
            forall|i: int|
                0 <= i < entries0.len() ==> #[trigger] tv.entries[i] == (
                    entries0[i].0@,
                    entries0[i].1.node_view(),
                ),
            forall|i: int| 0 <= i < tv.entries.len() ==> node_wf(#[trigger] tv.entries[i].1),
            out@.len() >= out0.len(),
            out@.take(out0.len() as int) == out0,
        decreases rest@.len(),
    {
        let ghost k = done@.len() as int;
        let (name, node) = rest.remove(0);
        proof {
            assert(entries0.skip(k)[0] == entries0[k]);
            assert(entries0[k] == (name, node));
            assert(rest@ =~= entries0.skip(k + 1));
        }
        match node {
            TreeNode::Tree(sub) => {
                proof {
                    assert(tv.entries[k].1 == TreeNodeV::Tree(sub.tree_view()));
                    assert(node_wf(tv.entries[k].1));
                }
                let sub2 = store_all(sub, db, out);
                let ghost dpre = done@;
                done.push((name, TreeNode::Tree(sub2)));
                proof {
                    lemma_children_view(done@);
                    assert(children_view(done@) =~= stored_children(tv.entries, k + 1)) by {
                        assert(children_view(done@).drop_last() =~= children_view(
                            done@.drop_last(),
                        )) by {
                            lemma_children_view(done@.drop_last());
                        }
                        assert(done@.drop_last() =~= dpre);
                        assert(stored_node(tv.entries[k].1) == TreeNodeV::Tree(
                            stored_tree(sub.tree_view()),
                        ));
                    }
                    assert(out@.take(out0.len() as int) =~= out0);
                }
            },
            TreeNode::Entry(leaf) => {
                proof {
                    assert(tv.entries[k].1 == TreeNodeV::Entry(leaf@));
                }
                let ghost dpre = done@;
                done.push((name, TreeNode::Entry(leaf)));
                proof {
                    lemma_children_view(done@);
                    assert(children_view(done@) =~= stored_children(tv.entries, k + 1)) by {
                        assert(children_view(done@).drop_last() =~= children_view(
                            done@.drop_last(),
                        )) by {
                            lemma_children_view(done@.drop_last());
                        }
                        assert(done@.drop_last() =~= dpre);
                        assert(stored_node(tv.entries[k].1) == TreeNodeV::Entry(leaf@));
                    }
                }
            },
        }
    }
    proof {
        assert(done@.len() == entries0.len());
        lemma_stored_payload(tv.entries, tv.entries.len() as int);
    }
    let mut me = Tree { oid, entries: done };
    proof {
        assert(me.tree_view().entries == stored_children(tv.entries, tv.entries.len() as int));
        assert(me.serial_ready());
        assert(me.payload_spec() == tree_payload_model(tv.entries, tv.entries.len() as int));
    }
    let w = db.store(&mut me, );
    out.push(w);
    proof {
        assert(out@.take(out0.len() as int) =~= out0);
        assert(me.tree_view().oid == Some(tree_oid_model(tv)));
        assert(me.tree_view().entries == stored_children(tv.entries, tv.entries.len() as int));
        assert(me.tree_view() == stored_tree(tv));
    }
    me
}

impl Storable for Tree {
    closed spec fn oid_spec(&self) -> Option<Seq<u8>> {
        self.tree_view().oid
    }

    /// The type name `tree`.
    closed spec fn type_spec(&self) -> Seq<u8> {
        tree_kind()
    }

    closed spec fn payload_spec(&self) -> Seq<u8> {
        payload_direct(self.tree_view().entries)
    }

    closed spec fn serial_ready(&self) -> bool {
        children_ready(self.tree_view().entries)
    }

    closed spec fn same_except_oid(&self, other: &Self) -> bool {
        self.tree_view().entries == other.tree_view().entries
    }

    fn oid(&self) -> (r: Option<&Vec<u8>>) {
        match &self.oid {
            Some(v) => Some(v),
            None => None,
        }
    }

    fn set_oid(&mut self, oid: Vec<u8>) {
        self.oid = Some(oid);
    }

    fn type_(&self) -> &'static str {
        "tree"
    }

    fn type_bytes(&self) -> (r: Vec<u8>) {
        let mut v: Vec<u8> = Vec::new();
        v.push(116);
        v.push(114);
        v.push(101);
        v.push(101);
        proof {
            assert(v@ =~= self.type_spec());
        }
        v
    }

    fn to_string(&self) -> (r: Vec<u8>) {
        proof {
            lemma_children_view(self.entries@);
        }
        let ghost cs = self.tree_view().entries;
        let mut out: Vec<u8> = Vec::new();
        let mut j: usize = 0;
        proof {
            assert(out@ =~= payload_direct(cs.take(0)));
        }
        while j < self.entries.len()
            invariant
                j <= self.entries@.len(),
                children_ready(cs),
                cs == self.tree_view().entries,
                cs == children_view(self.entries@),
                cs.len() == self.entries@.len(),
                forall|i: int|
                    0 <= i < self.entries@.len() ==> #[trigger] cs[i] == (
                        self.entries@[i].0@,
                        self.entries@[i].1.node_view(),
                    ),
                out@ == payload_direct(cs.take(j as int)),
            decreases self.entries@.len() - j,
        {
            let mode: u32 = match &self.entries[j].1 {
                TreeNode::Tree(_t) => TREE_MODE,
                TreeNode::Entry(e) => if e.mode == EXECUTABLE_MODE {
                    EXECUTABLE_MODE
                } else {
                    REGULAR_MODE
                },
            };
            proof {
                assert(mode == node_mode(cs[j as int].1));
            }
            crate::encoding::push_oct_u32(&mut out, mode);
            out.push(32);
            out.extend_from_slice(self.entries[j].0.as_slice());
            out.push(0);
            let raw = match &self.entries[j].1 {
                TreeNode::Tree(t) => {
                    match &t.oid {
                        Some(o) => crate::hashing::hex_decode(o),
                        None => {
                            proof {
                                assert(false);
                            }
                            None
                        },
                    }
                },
                TreeNode::Entry(e) => crate::hashing::hex_decode(&e.oid),
            };
            let mut raw = match raw {
                Some(v) => v,
                None => {
                    proof {
                        assert(false);
                    }
                    Vec::new()
                },
            };
            out.append(&mut raw);
            proof {
                assert(cs.take(j + 1).drop_last() =~= cs.take(j as int));
                assert(cs.take(j + 1).last() == cs[j as int]);
                assert(out@ =~= payload_direct(cs.take(j + 1)));
            }
            j = j + 1;
        }
        proof {
            assert(cs.take(cs.len() as int) =~= cs);
        }
        out
    }
}

} // verus!
