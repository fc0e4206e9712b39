//! Directory tables and namespace nodes.
//!
//! A directory holds a fixed-capacity table of name bindings. An entry is
//! unused exactly when its name buffer is all zero. A binding's target is a
//! handle: the index of a node in the filesystem's node arena. A node is
//! either a file, owning its content chain, or a directory, owning a child
//! table.

use vstd::prelude::*;

use crate::file::File;
use crate::path::empty_name;
use crate::path::names_equal;
use crate::path::name_is_empty;

verus! {

/// Capacity of one directory's table.
pub const DIRECTORY_NR: usize = 50;

/// One binding: a stored name and the handle of the bound node.
#[derive(Clone, Copy)]
struct DirectoryEntry {
    name: [u8; 32],
    node: usize,
}

/// A directory's table of name bindings.
pub struct DirectoryTable {
    entries: Vec<DirectoryEntry>,
}

impl DirectoryTable {
    /// The stored name of slot `i`.
    pub closed spec fn entry_name(self, i: int) -> Seq<u8> {
        self.entries@[i].name@
    }

    /// The node handle of slot `i`.
    pub closed spec fn entry_node(self, i: int) -> int {
        self.entries@[i].node as int
    }

    /// Slot `i` holds a binding: its name is not the all-zero buffer.
    pub open spec fn slot_used(self, i: int) -> bool {
        self.entry_name(i) != empty_name()
    }

    /// The table has its fixed capacity.
    pub closed spec fn len_ok(self) -> bool {
        self.entries@.len() == DIRECTORY_NR
    }

    /// Well-formed: fixed capacity, and no name is bound twice.
    pub open spec fn wf(self) -> bool {
        &&& self.len_ok()
        &&& forall|i: int, j: int|
            0 <= i < j < DIRECTORY_NR && #[trigger] self.slot_used(i) && #[trigger] self.slot_used(
                j,
            ) ==> self.entry_name(i) != self.entry_name(j)
    }

    /// The table binds `n`.
    pub open spec fn contains_name(self, n: Seq<u8>) -> bool {
        exists|i: int| 0 <= i < DIRECTORY_NR && #[trigger] self.slot_used(i) && self.entry_name(i)
            == n
    }

    /// The handle `n` is bound to.
    pub open spec fn node_of(self, n: Seq<u8>) -> int {
        self.entry_node(
            choose|i: int|
                0 <= i < DIRECTORY_NR && #[trigger] self.slot_used(i) && self.entry_name(i) == n,
        )
    }

    /// The table holds no binding at all.
    pub open spec fn table_empty(self) -> bool {
        forall|i: int| 0 <= i < DIRECTORY_NR ==> !(#[trigger] self.slot_used(i))
    }

    /// The table holds exactly one binding: the name `n`.
    pub open spec fn binds_only(self, n: Seq<u8>) -> bool {
        forall|m: Seq<u8>| #[trigger] self.contains_name(m) <==> m == n
    }

    /// Some slot is still unused.
    pub open spec fn has_free_slot(self) -> bool {
        exists|i: int| 0 <= i < DIRECTORY_NR && !(#[trigger] self.slot_used(i))
    }

    /// `post` is `pre` with the binding `n -> node` added in slot `k`,
    /// previously unused; every other slot is unchanged.
    pub open spec fn inserted_at(pre: Self, post: Self, k: int, n: Seq<u8>, node: int) -> bool {
        &&& 0 <= k < DIRECTORY_NR
        &&& !pre.slot_used(k)
        &&& post.entry_name(k) == n
        &&& post.entry_node(k) == node
        &&& forall|i: int|
            0 <= i < DIRECTORY_NR && i != k ==> #[trigger] post.entry_name(i) == pre.entry_name(i)
                && post.entry_node(i) == pre.entry_node(i)
    }

    /// `post` is `pre` with the binding of `n` in slot `k` removed; every
    /// other slot is unchanged.
    pub open spec fn removed_at(pre: Self, post: Self, k: int, n: Seq<u8>) -> bool {
        &&& 0 <= k < DIRECTORY_NR
        &&& pre.slot_used(k)
        &&& pre.entry_name(k) == n
        &&& !post.slot_used(k)
        &&& forall|i: int|
            0 <= i < DIRECTORY_NR && i != k ==> #[trigger] post.entry_name(i) == pre.entry_name(i)
                && post.entry_node(i) == pre.entry_node(i)
    }

    /// A fresh, empty table.
    pub fn new() -> (r: Self)
        ensures
            r.wf(),
            r.table_empty(),
            r.has_free_slot(),
    {
        let mut entries: Vec<DirectoryEntry> = Vec::new();
        let mut i: usize = 0;
        while i < DIRECTORY_NR
            invariant
                0 <= i <= DIRECTORY_NR,
                entries@.len() == i,
                forall|j: int| 0 <= j < i ==> entries@[j].name@ == empty_name(),
            decreases DIRECTORY_NR - i,
        {
            let e = DirectoryEntry { name: [0; 32], node: 0 };
            assert(e.name@ =~= empty_name());
            entries.push(e);
            i += 1;
        }
        let t = DirectoryTable { entries };
        assert(!t.slot_used(0));
        t
    }

    /// Looks a name up; `Some` exactly when the table binds it, and then the
    /// bound handle.
    pub fn get(&self, name: &[u8; 32]) -> (r: Option<usize>)
        requires
            self.wf(),
            name@ != empty_name(),
        ensures
            match r {
                Some(h) => self.contains_name(name@) && h as int == self.node_of(name@),
                None => !self.contains_name(name@),
            },
    {
        let mut i: usize = 0;
        while i < DIRECTORY_NR
            invariant
                0 <= i <= DIRECTORY_NR,
                self.wf(),
                name@ != empty_name(),
                forall|j: int| 0 <= j < i ==> self.entry_name(j) != name@,
            decreases DIRECTORY_NR - i,
        {
            if names_equal(&self.entries[i].name, name) {
                assert(self.slot_used(i as int));
                assert(self.contains_name(name@));
                proof {
                    let k = choose|k: int|
                        0 <= k < DIRECTORY_NR && #[trigger] self.slot_used(k) && self.entry_name(k)
                            == name@;
                    if k != i {
                        assert(self.slot_used(k) && self.slot_used(i as int));
                    }
                }
                return Some(self.entries[i].node);
            }
            i += 1;
        }
        assert forall|k: int|
            0 <= k < DIRECTORY_NR && #[trigger] self.slot_used(k) implies self.entry_name(k)
            != name@ by {}
        None
    }

    /// Tests whether the table binds a name.
    pub fn has_name(&self, name: &[u8; 32]) -> (r: bool)
        requires
            self.wf(),
            name@ != empty_name(),
        ensures
            r == self.contains_name(name@),
    {
        let got = self.get(name);
        match got {
            Some(_) => true,
            None => false,
        }
    }

    /// Binds a name in the first unused slot; fails exactly when the table
    /// is full, and then changes nothing.
    pub fn insert(&mut self, name: [u8; 32], node: usize) -> (ok: bool)
        requires
            old(self).wf(),
            name@ != empty_name(),
            !old(self).contains_name(name@),
        ensures
            final(self).wf(),
            ok == old(self).has_free_slot(),
            ok ==> exists|k: int|
                #[trigger] Self::inserted_at(*old(self), *final(self), k, name@, node as int)
                    && (forall|j: int| 0 <= j < k ==> old(self).slot_used(j)),
            ok ==> final(self).contains_name(name@) && final(self).node_of(name@) == node,
            ok ==> forall|m: Seq<u8>| m != name@ ==> #[trigger] final(self).contains_name(m)
                == old(self).contains_name(m),
            ok ==> forall|m: Seq<u8>|
                m != name@ && old(self).contains_name(m) ==> #[trigger] final(self).node_of(m)
                    == old(self).node_of(m),
            !ok ==> *final(self) == *old(self),
    {
        let mut i: usize = 0;
        while i < DIRECTORY_NR
            invariant
                0 <= i <= DIRECTORY_NR,
                self == old(self),
                self.wf(),
                name@ != empty_name(),
                !self.contains_name(name@),
                forall|j: int| 0 <= j < i ==> #[trigger] self.slot_used(j),
            decreases DIRECTORY_NR - i,
        {
            if name_is_empty(&self.entries[i].name) {
                let ghost pre = *self;
                let ghost k = i as int;
                assert(!pre.slot_used(k));
                self.entries.set(i, DirectoryEntry { name, node });
                proof {
                    assert(forall|m: int|
                        0 <= m < DIRECTORY_NR && m != k ==> self.entry_name(m) == pre.entry_name(m)
                            && self.entry_node(m) == pre.entry_node(m));
                    assert(self.entry_name(k) == name@);
                    assert(self.slot_used(k));
                    assert(Self::inserted_at(pre, *self, k, name@, node as int));
                    assert(self.wf()) by {
                        assert forall|a: int, b: int|
                            0 <= a < b < DIRECTORY_NR && #[trigger] self.slot_used(a)
                                && #[trigger] self.slot_used(b) implies self.entry_name(a)
                            != self.entry_name(b) by {
                            if a != k && b != k {
                                assert(pre.slot_used(a) && pre.slot_used(b));
                            } else if a == k && pre.slot_used(b) {
                                assert(!pre.contains_name(self.entry_name(b)) ==> pre.entry_name(b)
                                    != name@);
                            } else if b == k && pre.slot_used(a) {
                                assert(!pre.contains_name(self.entry_name(a)) ==> pre.entry_name(a)
                                    != name@);
                            }
                        }
                    }
                    assert(self.contains_name(name@));
                    assert(self.node_of(name@) == node) by {
                        let c = choose|c: int|
                            0 <= c < DIRECTORY_NR && #[trigger] self.slot_used(c)
                                && self.entry_name(c) == name@;
                        if c != k {
                            assert(pre.slot_used(c) && pre.entry_name(c) == name@);
                        }
                    }
                    assert forall|m: Seq<u8>| m != name@ implies #[trigger] self.contains_name(m)
                        == pre.contains_name(m) by {
                        if self.contains_name(m) {
                            let c = choose|c: int|
                                0 <= c < DIRECTORY_NR && #[trigger] self.slot_used(c)
                                    && self.entry_name(c) == m;
                            assert(c != k);
                            assert(pre.slot_used(c));
                        }
                        if pre.contains_name(m) {
                            let c = choose|c: int|
                                0 <= c < DIRECTORY_NR && #[trigger] pre.slot_used(c)
                                    && pre.entry_name(c) == m;
                            assert(c != k);
                            assert(self.slot_used(c));
                        }
                    }
                    assert forall|m: Seq<u8>| m != name@ && pre.contains_name(m) implies #[trigger] self.node_of(m)
                        == pre.node_of(m) by {
                        let c1 = choose|c: int|
                            0 <= c < DIRECTORY_NR && #[trigger] self.slot_used(c)
                                && self.entry_name(c) == m;
                        let c2 = choose|c: int|
                            0 <= c < DIRECTORY_NR && #[trigger] pre.slot_used(c)
                                && pre.entry_name(c) == m;
                        assert(self.contains_name(m));
                        assert(c1 != k && c2 != k);
                        if c1 != c2 {
                            assert(self.slot_used(c1) && self.slot_used(c2));
                            assert(self.entry_name(c1) == self.entry_name(c2));
                        }
                    }
                }
                return true;
            }
            i += 1;
        }
        assert(!self.has_free_slot());
        false
    }

    /// Removes the binding of a name, leaving its slot unused.
    pub fn delete(&mut self, name: &[u8; 32])
        requires
            old(self).wf(),
            name@ != empty_name(),
            old(self).contains_name(name@),
        ensures
            final(self).wf(),
            exists|k: int| #[trigger] Self::removed_at(*old(self), *final(self), k, name@),
            !final(self).contains_name(name@),
            final(self).has_free_slot(),
            forall|m: Seq<u8>| m != name@ ==> #[trigger] final(self).contains_name(m)
                == old(self).contains_name(m),
            forall|m: Seq<u8>|
                m != name@ && old(self).contains_name(m) ==> #[trigger] final(self).node_of(m)
                    == old(self).node_of(m),
    {
        let mut i: usize = 0;
        while i < DIRECTORY_NR
            invariant
                0 <= i <= DIRECTORY_NR,
                self == old(self),
                self.wf(),
                name@ != empty_name(),
                self.contains_name(name@),
                forall|j: int| 0 <= j < i ==> self.entry_name(j) != name@,
            decreases DIRECTORY_NR - i,
        {
            if names_equal(&self.entries[i].name, name) {
                let ghost pre = *self;
                let ghost k = i as int;
                assert(pre.slot_used(k));
                let e = DirectoryEntry { name: [0; 32], node: 0 };
                assert(e.name@ =~= empty_name());
                self.entries.set(i, e);
                proof {
                    assert(forall|m: int|
                        0 <= m < DIRECTORY_NR && m != k ==> self.entry_name(m) == pre.entry_name(m)
                            && self.entry_node(m) == pre.entry_node(m));
                    assert(!self.slot_used(k));
                    assert(Self::removed_at(pre, *self, k, name@));
                    assert(self.wf()) by {
                        assert forall|a: int, b: int|
                            0 <= a < b < DIRECTORY_NR && #[trigger] self.slot_used(a)
                                && #[trigger] self.slot_used(b) implies self.entry_name(a)
                            != self.entry_name(b) by {
                            assert(pre.slot_used(a) && pre.slot_used(b));
                        }
                    }
                    assert(!self.contains_name(name@)) by {
                        if self.contains_name(name@) {
                            let c = choose|c: int|
                                0 <= c < DIRECTORY_NR && #[trigger] self.slot_used(c)
                                    && self.entry_name(c) == name@;
                            assert(c != k);
                            assert(pre.slot_used(c) && pre.slot_used(k));
                        }
                    }
                    assert forall|m: Seq<u8>| m != name@ implies #[trigger] self.contains_name(m)
                        == pre.contains_name(m) by {
                        if self.contains_name(m) {
                            let c = choose|c: int|
                                0 <= c < DIRECTORY_NR && #[trigger] self.slot_used(c)
                                    && self.entry_name(c) == m;
                            assert(c != k);
                            assert(pre.slot_used(c));
                        }
                        if pre.contains_name(m) {
                            let c = choose|c: int|
                                0 <= c < DIRECTORY_NR && #[trigger] pre.slot_used(c)
                                    && pre.entry_name(c) == m;
                            assert(c != k);
                            assert(self.slot_used(c));
                        }
                    }
                    assert forall|m: Seq<u8>| m != name@ && pre.contains_name(m) implies #[trigger] self.node_of(m)
                        == pre.node_of(m) by {
                        let c1 = choose|c: int|
                            0 <= c < DIRECTORY_NR && #[trigger] self.slot_used(c)
                                && self.entry_name(c) == m;
                        let c2 = choose|c: int|
                            0 <= c < DIRECTORY_NR && #[trigger] pre.slot_used(c)
                                && pre.entry_name(c) == m;
                        assert(self.contains_name(m));
                        assert(c1 != k && c2 != k);
                        if c1 != c2 {
                            assert(self.slot_used(c1) && self.slot_used(c2));
                            assert(self.entry_name(c1) == self.entry_name(c2));
                        }
                    }
                }
                return ;
            }
            i += 1;
        }
        proof {
            let c = choose|c: int|
                0 <= c < DIRECTORY_NR && #[trigger] old(self).slot_used(c) && old(self).entry_name(
                    c,
                ) == name@;
            assert(self.entry_name(c) != name@);
        }
    }

    /// Tests whether the table holds no binding.
    pub fn is_empty(&self) -> (r: bool)
        requires
            self.wf(),
        ensures
            r == self.table_empty(),
    {
        let mut i: usize = 0;
        while i < DIRECTORY_NR
            invariant
                0 <= i <= DIRECTORY_NR,
                self.wf(),
                forall|j: int| 0 <= j < i ==> !(#[trigger] self.slot_used(j)),
            decreases DIRECTORY_NR - i,
        {
            if !name_is_empty(&self.entries[i].name) {
                assert(self.slot_used(i as int));
                return false;
            }
            i += 1;
        }
        true
    }

    /// Tests whether the table still has an unused slot.
    pub fn has_free(&self) -> (r: bool)
        requires
            self.wf(),
        ensures
            r == self.has_free_slot(),
    {
        let mut i: usize = 0;
        while i < DIRECTORY_NR
            invariant
                0 <= i <= DIRECTORY_NR,
                self.wf(),
                forall|j: int| 0 <= j < i ==> #[trigger] self.slot_used(j),
            decreases DIRECTORY_NR - i,
        {
            if name_is_empty(&self.entries[i].name) {
                assert(!self.slot_used(i as int));
                return true;
            }
            i += 1;
        }
        false
    }
}

/// A directory: its table of child bindings.
pub struct Directory(pub DirectoryTable);

/// A namespace node: a file with its content, or a directory with its
/// children.
pub enum Node {
    FileNode(File),
    DirectoryNode(Directory),
}

impl Node {
    /// Tests which variant the node is.
    pub fn is_directory(&self) -> (r: bool)
        ensures
            r == (self is DirectoryNode),
    {
        match self {
            Node::DirectoryNode(_d) => true,
            _ => false,
        }
    }
}

} // verus!
