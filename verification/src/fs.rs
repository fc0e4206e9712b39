//! The filesystem context and its public API.
//!
//! All state lives in one `Fs` value: a node arena holding every file and
//! directory, with the root directory at handle 0; the global file table;
//! and the per-task local file table. Directory entries bind names to arena
//! handles, and every binding points upward in handle order — a child's
//! handle is larger than its parent's — so the namespace is a tree with the
//! root at 0, no cycles and no shared children. Deleting a node clears its
//! arena slot; handles are not reused.

use vstd::prelude::*;

use crate::dir::Directory;
use crate::dir::DirectoryTable;
use crate::dir::Node;
use crate::dir::DIRECTORY_NR;
use crate::file::append_post;
use crate::file::read_blocks;
use crate::file::write_post;
use crate::file::zero_block;
use crate::file::File;
use crate::path::components;
use crate::path::empty_name;
use crate::path::lemma_name_of_nonempty;
use crate::path::lemma_split_acc_nonempty;
use crate::path::name_of;
use crate::path::path_names;
use crate::path::split_path;
use crate::path::SEPARATOR;
use crate::path::str_to_u8;
use crate::path::NAME_LENGTH;
use crate::table::table_refs;
use crate::table::FileTable;
use crate::table::LocalFileTable;
use crate::table::EMPTY_FD;
use crate::table::GLOBALFILETABLE_SIZE;
use crate::table::LOCALFILETABLE_SIZE;
use crate::table::TASK_FDS;

verus! {

/// Why a filesystem call did not complete.
#[derive(Clone, Copy, PartialEq, Eq, Structural, Debug)]
pub enum FsError {
    /// A path component does not exist, or a descriptor is not open.
    PathNotFound,
    /// A directory was expected but a file found, or the other way round.
    TypeMismatch,
    /// The terminal name is already taken at its level.
    AlreadyExists,
    /// A directory with entries cannot be deleted.
    DirectoryNotEmpty,
    /// A file with open descriptors cannot be deleted.
    FileOpenCannotDelete,
    /// The slot's read/write exclusion denied the access.
    FileLocked,
    /// A path, name table, or descriptor table ran out of room.
    CapacityExceeded,
}

/// Handle `h` names a directory node of the arena.
pub open spec fn a_is_dir(a: Seq<Option<Node>>, h: int) -> bool {
    0 <= h < a.len() && a[h] is Some && a[h]->Some_0 is DirectoryNode
}

/// Handle `h` names a file node of the arena.
pub open spec fn a_is_file(a: Seq<Option<Node>>, h: int) -> bool {
    0 <= h < a.len() && a[h] is Some && a[h]->Some_0 is FileNode
}

/// The directory table of the directory at handle `h`.
pub open spec fn dtable(a: Seq<Option<Node>>, h: int) -> DirectoryTable {
    (a[h]->Some_0->DirectoryNode_0).0
}

/// The content of the file at handle `h`.
pub open spec fn file_at(a: Seq<Option<Node>>, h: int) -> File {
    a[h]->Some_0->FileNode_0
}

/// An edge of the namespace tree: slot `i` of the directory at `h` is a
/// used binding.
pub open spec fn edge_used(a: Seq<Option<Node>>, h: int, i: int) -> bool {
    a_is_dir(a, h) && 0 <= i < DIRECTORY_NR && dtable(a, h).slot_used(i)
}

/// The handle that edge `(h, i)` points to.
pub open spec fn edge_to(a: Seq<Option<Node>>, h: int, i: int) -> int {
    dtable(a, h).entry_node(i)
}

/// The arena invariant: a root directory at handle 0; every directory
/// table well-formed; every binding points to a live node with a strictly
/// larger handle; no two bindings share a target; every file well-formed.
pub open spec fn arena_wf(a: Seq<Option<Node>>) -> bool {
    &&& 1 <= a.len()
    &&& a_is_dir(a, 0)
    &&& forall|h: int| #[trigger] a_is_dir(a, h) ==> dtable(a, h).wf()
    &&& forall|h: int, i: int|
        #[trigger] edge_used(a, h, i) ==> h < edge_to(a, h, i) < a.len() && a[edge_to(a, h, i)]
            is Some
    &&& forall|h1: int, i1: int, h2: int, i2: int|
        #![trigger edge_to(a, h1, i1), edge_to(a, h2, i2)]
        edge_used(a, h1, i1) && edge_used(a, h2, i2) && (h1 != h2 || i1 != i2) ==> edge_to(
            a,
            h1,
            i1,
        ) != edge_to(a, h2, i2)
    &&& forall|h: int| #[trigger] a_is_file(a, h) ==> file_at(a, h).wf()
}

/// Looking one name up in the directory at `h`.
pub open spec fn lookup_in(a: Seq<Option<Node>>, h: int, n: Seq<u8>) -> Option<int> {
    if a_is_dir(a, h) && dtable(a, h).contains_name(n) {
        Option::Some(dtable(a, h).node_of(n))
    } else {
        Option::None
    }
}

/// The handle reached from the root by the first `i` names: each step
/// resolves one name in the directory reached so far.
pub open spec fn walk(a: Seq<Option<Node>>, names: Seq<Seq<u8>>, i: int) -> Option<int>
    decreases i,
{
    if i <= 0 {
        Option::Some(0)
    } else {
        match walk(a, names, i - 1) {
            Option::Some(h) => lookup_in(a, h, names[i - 1]),
            Option::None => Option::None,
        }
    }
}

/// Among the first `n` reached nodes, some existing non-terminal component
/// is not a directory.
pub open spec fn blocked(a: Seq<Option<Node>>, names: Seq<Seq<u8>>, n: int) -> bool {
    exists|j: int|
        1 <= j <= n && (#[trigger] walk(a, names, j)) is Some && !a_is_dir(
            a,
            walk(a, names, j)->Some_0,
        )
}

/// The length of the longest prefix of the first `n` names that resolves.
pub open spec fn reach_len(a: Seq<Option<Node>>, names: Seq<Seq<u8>>, n: int) -> int
    decreases n,
{
    if n <= 0 {
        0
    } else if walk(a, names, n) is Some {
        n
    } else {
        reach_len(a, names, n - 1)
    }
}

/// A resolving walk visits live handles in strictly increasing order.
pub proof fn lemma_walk_increasing(a: Seq<Option<Node>>, names: Seq<Seq<u8>>, i: int)
    requires
        arena_wf(a),
        i >= 0,
        walk(a, names, i) is Some,
    ensures
        0 <= walk(a, names, i)->Some_0 < a.len(),
        a[walk(a, names, i)->Some_0] is Some,
        forall|j: int|
            0 <= j < i ==> (#[trigger] walk(a, names, j)) is Some && walk(a, names, j)->Some_0
                < walk(a, names, i)->Some_0,
    decreases i,
{
    if i == 0 {
    } else {
        let p = walk(a, names, i - 1)->Some_0;
        lemma_walk_increasing(a, names, i - 1);
        let c = walk(a, names, i)->Some_0;
        assert(a_is_dir(a, p) && dtable(a, p).contains_name(names[i - 1]));
        let k = choose|k: int|
            0 <= k < DIRECTORY_NR && #[trigger] dtable(a, p).slot_used(k) && dtable(a, p).entry_name(
                k,
            ) == names[i - 1];
        assert(edge_used(a, p, k));
        assert(edge_to(a, p, k) == c);
        assert(p < c < a.len());
    }
}

/// A walk only reads the arena below the handle it reaches: any arena that
/// agrees there, and is at least as long, walks the same way.
pub proof fn lemma_walk_frame(
    a1: Seq<Option<Node>>,
    a2: Seq<Option<Node>>,
    names: Seq<Seq<u8>>,
    i: int,
)
    requires
        arena_wf(a1),
        i >= 0,
        walk(a1, names, i) is Some,
        a2.len() >= a1.len(),
        forall|h: int| 0 <= h < walk(a1, names, i)->Some_0 ==> a2[h] == a1[h],
    ensures
        walk(a2, names, i) == walk(a1, names, i),
    decreases i,
{
    if i == 0 {
    } else {
        let c = walk(a1, names, i)->Some_0;
        let p = walk(a1, names, i - 1)->Some_0;
        lemma_walk_increasing(a1, names, i);
        assert(p < c);
        lemma_walk_frame(a1, a2, names, i - 1);
        assert(a2[p] == a1[p]);
        assert(a_is_dir(a2, p));
        assert(dtable(a2, p) == dtable(a1, p));
    }
}

/// A prefix of a resolving walk resolves.
pub proof fn lemma_walk_prefix(a: Seq<Option<Node>>, names: Seq<Seq<u8>>, i: int, j: int)
    requires
        0 <= j <= i,
        walk(a, names, i) is Some,
    ensures
        walk(a, names, j) is Some,
    decreases i,
{
    if j < i {
        assert(walk(a, names, i - 1) is Some);
        lemma_walk_prefix(a, names, i - 1, j);
    }
}

/// What `reach_len` promises: the longest resolving prefix.
pub proof fn lemma_reach_len(a: Seq<Option<Node>>, names: Seq<Seq<u8>>, n: int)
    requires
        n >= 0,
    ensures
        0 <= reach_len(a, names, n) <= n,
        walk(a, names, reach_len(a, names, n)) is Some,
        reach_len(a, names, n) < n ==> walk(a, names, reach_len(a, names, n) + 1) is None,
        forall|j: int| reach_len(a, names, n) < j <= n ==> (#[trigger] walk(a, names, j)) is None,
    decreases n,
{
    if n == 0 {
    } else if walk(a, names, n) is Some {
    } else {
        lemma_reach_len(a, names, n - 1);
        let k = reach_len(a, names, n - 1);
        if k < n - 1 {
        } else {
            assert(k == n - 1);
        }
    }
}

/// The filesystem context: node arena, global file table, local file
/// table.
pub struct Fs {
    arena: Vec<Option<Node>>,
    ftable: FileTable,
    ltable: LocalFileTable,
}

impl Fs {
    /// The node arena.
    pub closed spec fn nodes(self) -> Seq<Option<Node>> {
        self.arena@
    }

    /// The global file table.
    pub closed spec fn files(self) -> FileTable {
        self.ftable
    }

    /// The local file table.
    pub closed spec fn locals(self) -> LocalFileTable {
        self.ltable
    }

    /// The whole context is well-formed: the arena invariant, both tables
    /// well-formed, and every slot's open count equal to the number of
    /// local descriptor cells that refer to it.
    pub open spec fn wf(self) -> bool {
        &&& arena_wf(self.nodes())
        &&& self.files().wf()
        &&& self.locals().wf()
        &&& forall|s: int|
            0 <= s < GLOBALFILETABLE_SIZE ==> #[trigger] self.files().slot_open(s) == table_refs(
                self.locals().rows(),
                s,
            )
        &&& forall|s: int|
            0 <= s < GLOBALFILETABLE_SIZE && #[trigger] self.files().slot_free(s)
                ==> self.files().slot_open(s) == 0
        &&& forall|s: int|
            0 <= s < GLOBALFILETABLE_SIZE && !(#[trigger] self.files().slot_free(s)) ==> a_is_file(
                self.nodes(),
                self.files().slot_node(s),
            )
    }

    /// A fresh filesystem: an empty root directory, no open files, no
    /// descriptors, task 0 active.
    pub fn new() -> (r: Self)
        ensures
            r.wf(),
            r.nodes().len() == 1,
            a_is_dir(r.nodes(), 0),
            dtable(r.nodes(), 0).table_empty(),
            forall|s: int| 0 <= s < GLOBALFILETABLE_SIZE ==> #[trigger] r.files().slot_free(s),
            r.locals().active() == 0,
    {
        let mut arena: Vec<Option<Node>> = Vec::new();
        arena.push(Some(Node::DirectoryNode(Directory(DirectoryTable::new()))));
        let ftable = FileTable::new();
        let ltable = LocalFileTable::new();
        let fs = Fs { arena, ftable, ltable };
        proof {
            assert(a_is_dir(fs.nodes(), 0));
            assert forall|h: int, i: int| #[trigger] edge_used(fs.nodes(), h, i) implies h < edge_to(
                fs.nodes(),
                h,
                i,
            ) < fs.nodes().len() && fs.nodes()[edge_to(fs.nodes(), h, i)] is Some by {
                assert(h == 0);
                assert(dtable(fs.nodes(), 0).table_empty());
                assert(!dtable(fs.nodes(), 0).slot_used(i));
            }
            assert forall|s: int|
                0 <= s < GLOBALFILETABLE_SIZE && !(#[trigger] fs.files().slot_free(s)) implies
                a_is_file(fs.nodes(), fs.files().slot_node(s)) by {
                assert(fs.files().slot_free(s));
            }
            assert forall|s: int| 0 <= s < GLOBALFILETABLE_SIZE implies #[trigger] fs.files()
                .slot_open(s) == table_refs(fs.locals().rows(), s) by {
                assert forall|r2: int, c2: int|
                    0 <= r2 < fs.locals().rows().len() && 0 <= c2 < fs.locals().rows()[r2].len()
                        implies #[trigger] fs.locals().rows()[r2][c2] != s by {
                    assert(fs.locals().rows()[r2].len() == TASK_FDS);
                    assert(fs.locals().cell(r2, c2) == EMPTY_FD);
                }
                crate::table::lemma_table_refs_zero(fs.locals().rows(), s);
            }
        }
        fs
    }
}

/// Tests whether handle `h` names a directory.
fn arena_is_dir(arena: &Vec<Option<Node>>, h: usize) -> (r: bool)
    ensures
        r == a_is_dir(arena@, h as int),
{
    if h < arena.len() {
        match &arena[h] {
            Some(n) => n.is_directory(),
            None => false,
        }
    } else {
        false
    }
}

/// Tests whether handle `h` names a file.
fn arena_is_file(arena: &Vec<Option<Node>>, h: usize) -> (r: bool)
    ensures
        r == a_is_file(arena@, h as int),
{
    if h < arena.len() {
        match &arena[h] {
            Some(n) => !n.is_directory(),
            None => false,
        }
    } else {
        false
    }
}

/// Looks one name up in the directory at `h`.
fn arena_lookup(arena: &Vec<Option<Node>>, h: usize, name: &[u8; 32]) -> (r: Option<usize>)
    requires
        arena_wf(arena@),
        a_is_dir(arena@, h as int),
        name@ != empty_name(),
    ensures
        match r {
            Some(c) => lookup_in(arena@, h as int, name@) == Option::Some(c as int) && h < c
                < arena@.len() && arena@[c as int] is Some,
            None => lookup_in(arena@, h as int, name@) is None,
        },
{
    match &arena[h] {
        Some(Node::DirectoryNode(d)) => {
            let got = d.0.get(name);
            match got {
                Some(c) => {
                    proof {
                        let t = dtable(arena@, h as int);
                        let k = choose|k: int|
                            0 <= k < DIRECTORY_NR && #[trigger] t.slot_used(k) && t.entry_name(k)
                                == name@;
                        assert(edge_used(arena@, h as int, k));
                        assert(edge_to(arena@, h as int, k) == c as int);
                    }
                    Some(c)
                },
                None => None,
            }
        },
        _ => vstd::pervasive::unreached(),
    }
}

/// Allocates a fresh node as a child of the directory at `p`, binding it
/// under `name`; the new node's handle is the old arena length.
fn arena_add_child(arena: &mut Vec<Option<Node>>, p: usize, name: [u8; 32], child: Node) -> (t:
    usize)
    requires
        arena_wf(old(arena)@),
        a_is_dir(old(arena)@, p as int),
        name@ != empty_name(),
        !dtable(old(arena)@, p as int).contains_name(name@),
        dtable(old(arena)@, p as int).has_free_slot(),
        match child {
            Node::DirectoryNode(d) => d.0.wf() && d.0.table_empty(),
            Node::FileNode(f) => f.wf(),
        },
    ensures
        arena_wf(final(arena)@),
        t == old(arena)@.len(),
        final(arena)@.len() == old(arena)@.len() + 1,
        forall|g: int|
            0 <= g < old(arena)@.len() && g != p ==> final(arena)@[g] == old(arena)@[g],
        final(arena)@[t as int] == Option::Some(child),
        a_is_dir(final(arena)@, p as int),
        dtable(final(arena)@, p as int).contains_name(name@),
        dtable(final(arena)@, p as int).node_of(name@) == t,
        forall|m: Seq<u8>|
            m != name@ ==> #[trigger] dtable(final(arena)@, p as int).contains_name(m) == dtable(
                old(arena)@,
                p as int,
            ).contains_name(m),
        forall|m: Seq<u8>|
            m != name@ && dtable(old(arena)@, p as int).contains_name(m) ==> #[trigger] dtable(
                final(arena)@,
                p as int,
            ).node_of(m) == dtable(old(arena)@, p as int).node_of(m),
{
    let ghost a0 = arena@;
    let t = arena.len();
    arena.push(Some(child));
    let ghost a1 = arena@;
    proof {
        assert(forall|g: int| 0 <= g < a0.len() ==> a1[g] == a0[g]);
        assert(a1[t as int] == Option::Some(child));
    }
    let r = &mut arena[p];
    match r {
        Some(Node::DirectoryNode(d)) => {
            proof {
                assert(d.0 == dtable(a1, p as int));
                assert(dtable(a1, p as int) == dtable(a0, p as int));
            }
            let ok = d.0.insert(name, t);
            proof {
                assert(ok);
            }
        },
        _ => {
            proof {
                assert(a1[p as int] == a0[p as int]);
                assert(a_is_dir(a1, p as int));
            }
            vstd::pervasive::unreached()
        },
    }
    let ghost a2 = arena@;
    proof {
        let t1 = dtable(a0, p as int);
        let t2 = dtable(a2, p as int);
        assert(a2.len() == a1.len());
        assert(forall|g: int| 0 <= g < a2.len() && g != p ==> a2[g] == a1[g]);
        assert(a_is_dir(a2, p as int));
        assert(t2.contains_name(name@) && t2.node_of(name@) == t);
        let k = choose|k: int| #[trigger] DirectoryTable::inserted_at(t1, t2, k, name@, t as int);
        assert(DirectoryTable::inserted_at(t1, t2, k, name@, t as int));
        // every edge of the new arena besides the fresh binding is an old edge
        assert forall|h: int, i: int|
            edge_used(a2, h, i) && !(h == p && i == k) implies #[trigger] edge_used(a0, h, i)
            && edge_to(a2, h, i) == edge_to(a0, h, i) by {
            if h == p {
                assert(t1.entry_name(i) == t2.entry_name(i));
                assert(t1.entry_node(i) == t2.entry_node(i));
            } else if h == t {
                assert(child is DirectoryNode);
                assert(dtable(a2, h) == child->DirectoryNode_0.0);
                assert(!dtable(a2, h).slot_used(i));
            } else {
                assert(a2[h] == a0[h]);
                assert(dtable(a2, h) == dtable(a0, h));
            }
        }
        assert forall|h: int, i: int| #[trigger] edge_used(a2, h, i) implies h < edge_to(a2, h, i)
            < a2.len() && a2[edge_to(a2, h, i)] is Some by {
            if h == p && i == k {
                assert(edge_to(a2, p as int, k) == t);
                assert(a2[t as int] == a1[t as int]);
            } else {
                assert(edge_used(a0, h, i));
                let e = edge_to(a0, h, i);
                assert(h < e < a0.len() && a0[e] is Some);
                if e == p {
                    assert(a2[e] is Some);
                } else {
                    assert(a2[e] == a1[e]);
                    assert(a1[e] == a0[e]);
                }
            }
        }
        assert forall|h1: int, i1: int, h2: int, i2: int|
            edge_used(a2, h1, i1) && edge_used(a2, h2, i2) && (h1 != h2 || i1 != i2) implies
            #[trigger] edge_to(a2, h1, i1) != #[trigger] edge_to(a2, h2, i2) by {
            if h1 == p && i1 == k {
                assert(edge_to(a2, h1, i1) == t);
                assert(edge_used(a0, h2, i2));
                assert(edge_to(a2, h2, i2) == edge_to(a0, h2, i2));
            } else if h2 == p && i2 == k {
                assert(edge_to(a2, h2, i2) == t);
                assert(edge_used(a0, h1, i1));
                assert(edge_to(a2, h1, i1) == edge_to(a0, h1, i1));
            } else {
                assert(edge_used(a0, h1, i1) && edge_used(a0, h2, i2));
                assert(edge_to(a2, h1, i1) == edge_to(a0, h1, i1));
                assert(edge_to(a2, h2, i2) == edge_to(a0, h2, i2));
            }
        }
        assert forall|h: int| #[trigger] a_is_dir(a2, h) implies dtable(a2, h).wf() by {
            if h == p {
            } else if h == t {
                assert(dtable(a2, h) == child->DirectoryNode_0.0);
            } else {
                assert(a2[h] == a0[h]);
                assert(a_is_dir(a0, h));
                assert(dtable(a2, h) == dtable(a0, h));
            }
        }
        assert forall|h: int| #[trigger] a_is_file(a2, h) implies file_at(a2, h).wf() by {
            if h == t {
                assert(file_at(a2, h) == child->FileNode_0);
            } else {
                assert(h != p);
                assert(a2[h] == a0[h]);
                assert(a_is_file(a0, h));
            }
        }
        assert(a_is_dir(a2, 0));
    }
    t
}

/// Removes the binding `name` of the directory at `p` and clears the bound
/// node's arena slot.
fn arena_remove_child(arena: &mut Vec<Option<Node>>, p: usize, name: &[u8; 32])
    requires
        arena_wf(old(arena)@),
        a_is_dir(old(arena)@, p as int),
        name@ != empty_name(),
        dtable(old(arena)@, p as int).contains_name(name@),
    ensures
        arena_wf(final(arena)@),
        final(arena)@.len() == old(arena)@.len(),
        final(arena)@[dtable(old(arena)@, p as int).node_of(name@)] is None,
        forall|g: int|
            0 <= g < old(arena)@.len() && g != p && g != dtable(old(arena)@, p as int).node_of(
                name@,
            ) ==> final(arena)@[g] == old(arena)@[g],
        a_is_dir(final(arena)@, p as int),
        !dtable(final(arena)@, p as int).contains_name(name@),
        dtable(final(arena)@, p as int).has_free_slot(),
        forall|m: Seq<u8>|
            m != name@ ==> #[trigger] dtable(final(arena)@, p as int).contains_name(m) == dtable(
                old(arena)@,
                p as int,
            ).contains_name(m),
        forall|m: Seq<u8>|
            m != name@ && dtable(old(arena)@, p as int).contains_name(m) ==> #[trigger] dtable(
                final(arena)@,
                p as int,
            ).node_of(m) == dtable(old(arena)@, p as int).node_of(m),
{
    let ghost a0 = arena@;
    let ghost c = dtable(a0, p as int).node_of(name@);
    let got = arena_lookup(arena, p, name);
    let cx = match got {
        Some(cx) => cx,
        None => vstd::pervasive::unreached(),
    };
    proof {
        assert(cx as int == c);
        assert(p < c < a0.len());
    }
    let r = &mut arena[p];
    match r {
        Some(Node::DirectoryNode(d)) => {
            proof {
                assert(d.0 == dtable(a0, p as int));
            }
            d.0.delete(name);
        },
        _ => {
            proof {
                assert(a_is_dir(a0, p as int));
            }
            vstd::pervasive::unreached()
        },
    }
    let ghost a1 = arena@;
    proof {
        let t1 = dtable(a0, p as int);
        let t2 = dtable(a1, p as int);
        let k = choose|k: int| #[trigger] DirectoryTable::removed_at(t1, t2, k, name@);
        assert(DirectoryTable::removed_at(t1, t2, k, name@));
        assert(t1.entry_node(k) == c) by {
            let j = choose|j: int|
                0 <= j < DIRECTORY_NR && #[trigger] t1.slot_used(j) && t1.entry_name(j) == name@;
            if j != k {
                assert(t1.slot_used(j) && t1.slot_used(k));
            }
        }
        assert(forall|g: int| 0 <= g < a1.len() && g != p ==> a1[g] == a0[g]);
        // every edge of the intermediate arena is an old edge other than (p, k)
        assert forall|h: int, i: int|
            edge_used(a1, h, i) implies #[trigger] edge_used(a0, h, i) && edge_to(a1, h, i)
            == edge_to(a0, h, i) && !(h == p && i == k) by {
            if h == p {
                assert(!t2.slot_used(k));
                assert(t2.entry_name(i) == t1.entry_name(i));
                assert(t2.entry_node(i) == t1.entry_node(i));
            } else {
                assert(a1[h] == a0[h]);
            }
        }
        assert(edge_used(a0, p as int, k));
        assert(edge_to(a0, p as int, k) == c);
        // no remaining edge points at the removed child
        assert forall|h: int, i: int| edge_used(a1, h, i) implies #[trigger] edge_to(a1, h, i)
            != c by {
            assert(edge_used(a0, h, i));
            assert(edge_to(a0, h, i) != edge_to(a0, p as int, k));
        }
        assert(arena_wf(a1)) by {
            assert(a_is_dir(a1, 0));
            assert forall|h1: int, i1: int, h2: int, i2: int|
                edge_used(a1, h1, i1) && edge_used(a1, h2, i2) && (h1 != h2 || i1 != i2) implies
                #[trigger] edge_to(a1, h1, i1) != #[trigger] edge_to(a1, h2, i2) by {
                assert(edge_used(a0, h1, i1) && edge_used(a0, h2, i2));
                assert(edge_to(a1, h1, i1) == edge_to(a0, h1, i1));
                assert(edge_to(a1, h2, i2) == edge_to(a0, h2, i2));
            }
            assert forall|h: int| #[trigger] a_is_dir(a1, h) implies dtable(a1, h).wf() by {
                if h != p {
                    assert(a1[h] == a0[h]);
                    assert(a_is_dir(a0, h));
                }
            }
            assert forall|h: int, i: int| #[trigger] edge_used(a1, h, i) implies h < edge_to(
                a1,
                h,
                i,
            ) < a1.len() && a1[edge_to(a1, h, i)] is Some by {
                assert(edge_used(a0, h, i));
                let e = edge_to(a0, h, i);
                if e == p {
                    assert(a1[e] is Some);
                } else {
                    assert(a1[e] == a0[e]);
                }
            }
            assert forall|h: int| #[trigger] a_is_file(a1, h) implies file_at(a1, h).wf() by {
                if h != p {
                    assert(a1[h] == a0[h]);
                    assert(a_is_file(a0, h));
                }
            }
        }
    }
    arena.set(cx, None);
    let ghost a2 = arena@;
    proof {
        assert(forall|g: int| 0 <= g < a2.len() && g != c ==> a2[g] == a1[g]);
        assert(a_is_dir(a2, 0));
        assert forall|h: int, i: int|
            edge_used(a2, h, i) implies #[trigger] edge_used(a1, h, i) && edge_to(a2, h, i)
            == edge_to(a1, h, i) by {
            assert(h != c);
            assert(a2[h] == a1[h]);
        }
        assert(arena_wf(a2)) by {
            assert forall|h1: int, i1: int, h2: int, i2: int|
                edge_used(a2, h1, i1) && edge_used(a2, h2, i2) && (h1 != h2 || i1 != i2) implies
                #[trigger] edge_to(a2, h1, i1) != #[trigger] edge_to(a2, h2, i2) by {
                assert(edge_used(a1, h1, i1) && edge_used(a1, h2, i2));
                assert(edge_to(a2, h1, i1) == edge_to(a1, h1, i1));
                assert(edge_to(a2, h2, i2) == edge_to(a1, h2, i2));
            }
            assert forall|h: int| #[trigger] a_is_dir(a2, h) implies dtable(a2, h).wf() by {
                assert(a2[h] == a1[h]);
                assert(a_is_dir(a1, h));
            }
            assert forall|h: int, i: int| #[trigger] edge_used(a2, h, i) implies h < edge_to(
                a2,
                h,
                i,
            ) < a2.len() && a2[edge_to(a2, h, i)] is Some by {
                assert(edge_used(a1, h, i));
                let e = edge_to(a1, h, i);
                assert(e != c);
                assert(a2[e] == a1[e]);
            }
            assert forall|h: int| #[trigger] a_is_file(a2, h) implies file_at(a2, h).wf() by {
                assert(a2[h] == a1[h]);
                assert(a_is_file(a1, h));
            }
        }
        assert(a2[p as int] == a1[p as int]);
        assert(dtable(a2, p as int) == dtable(a1, p as int));
    }
}

/// Rewrites or appends to the file at handle `h`.
fn arena_file_write(arena: &mut Vec<Option<Node>>, h: usize, data: &[u8], append_flag: bool)
    requires
        arena_wf(old(arena)@),
        a_is_file(old(arena)@, h as int),
        data@.len() <= usize::MAX - 2048,
    ensures
        arena_wf(final(arena)@),
        final(arena)@.len() == old(arena)@.len(),
        forall|g: int| 0 <= g < old(arena)@.len() && g != h ==> final(arena)@[g] == old(arena)@[g],
        a_is_file(final(arena)@, h as int),
        append_flag ==> append_post(
            file_at(old(arena)@, h as int)@,
            file_at(final(arena)@, h as int)@,
            data@,
        ),
        !append_flag ==> write_post(
            file_at(old(arena)@, h as int)@,
            file_at(final(arena)@, h as int)@,
            data@,
        ),
{
    let ghost a0 = arena@;
    let r = &mut arena[h];
    match r {
        Some(Node::FileNode(f)) => {
            proof {
                assert(*f == file_at(a0, h as int));
                assert(f.wf());
            }
            if append_flag {
                f.append(data);
            } else {
                f.write(data);
            }
        },
        _ => {
            proof {
                assert(a_is_file(a0, h as int));
            }
            vstd::pervasive::unreached()
        },
    }
    let ghost a2 = arena@;
    proof {
        assert(forall|g: int| 0 <= g < a2.len() && g != h ==> a2[g] == a0[g]);
        assert(a_is_file(a2, h as int));
        assert forall|g: int, i: int|
            edge_used(a2, g, i) implies #[trigger] edge_used(a0, g, i) && edge_to(a2, g, i)
            == edge_to(a0, g, i) by {
            assert(g != h);
            assert(a2[g] == a0[g]);
        }
        assert(arena_wf(a2)) by {
            assert(a_is_dir(a2, 0));
            assert forall|h1: int, i1: int, h2: int, i2: int|
                edge_used(a2, h1, i1) && edge_used(a2, h2, i2) && (h1 != h2 || i1 != i2) implies
                #[trigger] edge_to(a2, h1, i1) != #[trigger] edge_to(a2, h2, i2) by {
                assert(edge_used(a0, h1, i1) && edge_used(a0, h2, i2));
                assert(edge_to(a2, h1, i1) == edge_to(a0, h1, i1));
                assert(edge_to(a2, h2, i2) == edge_to(a0, h2, i2));
            }
            assert forall|g: int| #[trigger] a_is_dir(a2, g) implies dtable(a2, g).wf() by {
                assert(a2[g] == a0[g]);
                assert(a_is_dir(a0, g));
            }
            assert forall|g: int, i: int| #[trigger] edge_used(a2, g, i) implies g < edge_to(
                a2,
                g,
                i,
            ) < a2.len() && a2[edge_to(a2, g, i)] is Some by {
                assert(edge_used(a0, g, i));
                let e = edge_to(a0, g, i);
                if e == h {
                    assert(a2[e] is Some);
                } else {
                    assert(a2[e] == a0[e]);
                }
            }
            assert forall|g: int| #[trigger] a_is_file(a2, g) implies file_at(a2, g).wf() by {
                if g != h {
                    assert(a2[g] == a0[g]);
                    assert(a_is_file(a0, g));
                }
            }
        }
    }
}

/// Fetches block `offset` of the file at handle `h`; `None` when the
/// handle does not name a file or the chain is shorter.
fn arena_read_block(arena: &Vec<Option<Node>>, h: usize, offset: usize) -> (r: Option<[u8; 1024]>)
    ensures
        (a_is_file(arena@, h as int) && offset < file_at(arena@, h as int)@.len()) ==> (r is Some
            && r->Some_0@ == file_at(arena@, h as int)@[offset as int]),
        !(a_is_file(arena@, h as int) && offset < file_at(arena@, h as int)@.len()) ==> r is None,
{
    if h >= arena.len() {
        return None;
    }
    match &arena[h] {
        Some(Node::FileNode(f)) => {
            if offset >= f.block_count() {
                return None;
            }
            let v = f.read(offset, offset + 1);
            if v.len() > 0 {
                proof {
                    assert(v.deep_view().len() > 0);
                    assert(offset < f@.len());
                    assert(v.deep_view()[0] == f@.subrange(offset as int, offset as int + 1)[0]);
                    assert(v@[0]@ == f@[offset as int]);
                }
                Some(v[0])
            } else {
                proof {
                    if offset < f@.len() {
                        assert(read_blocks(f@, offset as int, offset as int + 1).len() == 1);
                    }
                }
                None
            }
        },
        _ => None,
    }
}

/// The stored name buffers of a component list.
pub open spec fn nviews(names: Seq<[u8; 32]>) -> Seq<Seq<u8>> {
    names.map_values(|x: [u8; 32]| x@)
}

/// Where a bounded walk from the root ended.
enum WalkEnd {
    /// All `n` names resolved, each through a directory; the handle reached.
    Reached(usize),
    /// The first `k` names resolved to a directory, which does not bind
    /// name `k`; the directory's handle comes second.
    Missing(usize, usize),
    /// Some resolved non-terminal name is not a directory.
    Stopped,
}

/// `reach_len` is pinned down by one resolving point with a failing
/// successor.
pub proof fn lemma_reach_len_eq(a: Seq<Option<Node>>, names: Seq<Seq<u8>>, n: int, k: int)
    requires
        0 <= k <= n,
        walk(a, names, k) is Some,
        k < n ==> walk(a, names, k + 1) is None,
    ensures
        reach_len(a, names, n) == k,
{
    lemma_reach_len(a, names, n);
    let m = reach_len(a, names, n);
    if m > k {
        lemma_walk_prefix(a, names, m, k + 1);
    }
}

/// Walks the first `n` names from the root, requiring a directory at every
/// step.
fn walk_names(arena: &Vec<Option<Node>>, names: &Vec<[u8; 32]>, n: usize) -> (r: WalkEnd)
    requires
        arena_wf(arena@),
        n <= names@.len(),
        forall|j: int| 0 <= j < n ==> (#[trigger] names@[j])@ != empty_name(),
    ensures
        match r {
            WalkEnd::Reached(h) => walk(arena@, nviews(names@), n as int) == Option::Some(h as int)
                && !blocked(arena@, nviews(names@), n as int) && a_is_dir(arena@, h as int) && h
                < arena@.len(),
            WalkEnd::Missing(k, h) => k < n && walk(arena@, nviews(names@), k as int)
                == Option::Some(h as int) && a_is_dir(arena@, h as int) && h < arena@.len() && !dtable(
                arena@,
                h as int,
            ).contains_name(nviews(names@)[k as int]) && walk(arena@, nviews(names@), k as int + 1)
                is None && !blocked(arena@, nviews(names@), n as int),
            WalkEnd::Stopped => blocked(arena@, nviews(names@), n as int),
        },
{
    let ghost nv = nviews(names@);
    let mut h: usize = 0;
    let mut i: usize = 0;
    while i < n
        invariant
            arena_wf(arena@),
            n <= names@.len(),
            forall|j: int| 0 <= j < n ==> (#[trigger] names@[j])@ != empty_name(),
            nv == nviews(names@),
            0 <= i <= n,
            h < arena@.len(),
            walk(arena@, nv, i as int) == Option::Some(h as int),
            a_is_dir(arena@, h as int),
            !blocked(arena@, nv, i as int),
        decreases n - i,
    {
        let name = &names[i];
        proof {
            assert(nv[i as int] == names@[i as int]@);
        }
        let got = arena_lookup(arena, h, name);
        match got {
            Some(child) => {
                proof {
                    assert(walk(arena@, nv, i as int + 1) == Option::Some(child as int));
                }
                if arena_is_dir(arena, child) {
                    proof {
                        assert(!blocked(arena@, nv, i as int + 1)) by {
                            if blocked(arena@, nv, i as int + 1) {
                                let j = choose|j: int|
                                    1 <= j <= i + 1 && (#[trigger] walk(arena@, nv, j)) is Some
                                        && !a_is_dir(arena@, walk(arena@, nv, j)->Some_0);
                                if j <= i {
                                    assert(blocked(arena@, nv, i as int));
                                }
                            }
                        }
                    }
                    h = child;
                } else {
                    proof {
                        assert(1 <= i + 1 <= n && walk(arena@, nv, i as int + 1) is Some
                            && !a_is_dir(arena@, walk(arena@, nv, i as int + 1)->Some_0));
                        assert(blocked(arena@, nv, n as int));
                    }
                    return WalkEnd::Stopped;
                }
            },
            None => {
                proof {
                    assert(walk(arena@, nv, i as int + 1) is None);
                    assert(!blocked(arena@, nv, n as int)) by {
                        if blocked(arena@, nv, n as int) {
                            let j = choose|j: int|
                                1 <= j <= n && (#[trigger] walk(arena@, nv, j)) is Some
                                    && !a_is_dir(arena@, walk(arena@, nv, j)->Some_0);
                            if j <= i {
                                assert(blocked(arena@, nv, i as int));
                            } else {
                                lemma_walk_prefix(arena@, nv, j, i as int + 1);
                            }
                        }
                    }
                }
                return WalkEnd::Missing(i, h);
            },
        }
        i += 1;
    }
    WalkEnd::Reached(h)
}

/// Tests whether the directory at `p` still has a free table slot.
fn arena_dir_has_free(arena: &Vec<Option<Node>>, p: usize) -> (r: bool)
    requires
        arena_wf(arena@),
        a_is_dir(arena@, p as int),
    ensures
        r == dtable(arena@, p as int).has_free_slot(),
{
    match &arena[p] {
        Some(Node::DirectoryNode(d)) => d.0.has_free(),
        _ => vstd::pervasive::unreached(),
    }
}

/// Tests whether the directory at `p` holds no binding.
fn arena_dir_is_empty(arena: &Vec<Option<Node>>, p: usize) -> (r: bool)
    requires
        arena_wf(arena@),
        a_is_dir(arena@, p as int),
    ensures
        r == dtable(arena@, p as int).table_empty(),
{
    match &arena[p] {
        Some(Node::DirectoryNode(d)) => d.0.is_empty(),
        _ => vstd::pervasive::unreached(),
    }
}

/// Stores each component of a path as a name buffer.
fn path_to_names(path: &[u8]) -> (r: Vec<[u8; 32]>)
    ensures
        nviews(r@) == path_names(path@),
        r@.len() == components(path@).len(),
        forall|j: int| 0 <= j < r@.len() ==> (#[trigger] r@[j])@ != empty_name(),
{
    let comps = split_path(path);
    let mut names: Vec<[u8; 32]> = Vec::new();
    let mut i: usize = 0;
    while i < comps.len()
        invariant
            comps.deep_view() == components(path@),
            0 <= i <= comps@.len(),
            names@.len() == i,
            forall|j: int| 0 <= j < i ==> (#[trigger] names@[j])@ == name_of(components(path@)[j]),
            forall|j: int| 0 <= j < i ==> (#[trigger] names@[j])@ != empty_name(),
        decreases comps@.len() - i,
    {
        proof {
            assert(comps.deep_view()[i as int] == comps@[i as int]@);
            lemma_split_acc_nonempty(path@, Seq::empty());
            assert(components(path@)[i as int].len() > 0);
            lemma_name_of_nonempty(comps@[i as int]@);
        }
        let nm = str_to_u8(comps[i].as_slice());
        names.push(nm);
        i += 1;
    }
    proof {
        assert(comps.deep_view().len() == comps@.len());
        assert(nviews(names@) =~~= path_names(path@));
    }
    names
}

/// Under an arena that agrees below the reached handle, every walk prefix
/// resolves the same way.
proof fn lemma_walk_prefix_frame(
    a1: Seq<Option<Node>>,
    a2: Seq<Option<Node>>,
    names: Seq<Seq<u8>>,
    m: int,
)
    requires
        arena_wf(a1),
        m >= 0,
        walk(a1, names, m) is Some,
        a2.len() >= a1.len(),
        forall|h: int| 0 <= h < walk(a1, names, m)->Some_0 ==> a2[h] == a1[h],
    ensures
        forall|j: int| 0 <= j <= m ==> #[trigger] walk(a2, names, j) == walk(a1, names, j),
{
    assert forall|j: int| 0 <= j <= m implies #[trigger] walk(a2, names, j) == walk(
        a1,
        names,
        j,
    ) by {
        lemma_walk_prefix(a1, names, m, j);
        lemma_walk_increasing(a1, names, m);
        lemma_walk_frame(a1, a2, names, j);
    }
}

/// Under the same agreement, a walk that passed only directories still
/// passes only directories, provided the reached node stayed a directory.
proof fn lemma_not_blocked_frame(
    a1: Seq<Option<Node>>,
    a2: Seq<Option<Node>>,
    names: Seq<Seq<u8>>,
    m: int,
)
    requires
        arena_wf(a1),
        m >= 0,
        walk(a1, names, m) is Some,
        a2.len() >= a1.len(),
        forall|h: int| 0 <= h < walk(a1, names, m)->Some_0 ==> a2[h] == a1[h],
        !blocked(a1, names, m),
        m >= 1 ==> a_is_dir(a2, walk(a1, names, m)->Some_0),
    ensures
        !blocked(a2, names, m),
{
    lemma_walk_prefix_frame(a1, a2, names, m);
    if blocked(a2, names, m) {
        let j = choose|j: int|
            1 <= j <= m && (#[trigger] walk(a2, names, j)) is Some && !a_is_dir(
                a2,
                walk(a2, names, j)->Some_0,
            );
        assert(walk(a1, names, j) == walk(a2, names, j));
        let hj = walk(a1, names, j)->Some_0;
        assert(walk(a1, names, j) is Some && a_is_dir(a1, hj));
        if j < m {
            lemma_walk_increasing(a1, names, m);
            assert(hj < walk(a1, names, m)->Some_0);
            assert(a2[hj] == a1[hj]);
            assert(a_is_dir(a2, hj));
        }
    }
}

impl Fs {
    /// All names of a path resolve, through directories only, to a
    /// directory.
    pub open spec fn path_is_dir(self, names: Seq<Seq<u8>>) -> bool {
        &&& walk(self.nodes(), names, names.len() as int) is Some
        &&& !blocked(self.nodes(), names, names.len() as int)
    }

    /// What `validate_path` answers: the root path always validates; any
    /// other path validates exactly when it names an existing directory.
    pub open spec fn valid_dir_path(self, path: Seq<u8>) -> bool {
        if path == seq![SEPARATOR] {
            true
        } else if components(path).len() == 0 {
            false
        } else {
            self.path_is_dir(path_names(path))
        }
    }

    /// What a successful creation leaves behind: the tables untouched; one
    /// fresh node per missing component and nothing else — every old node
    /// except the deepest pre-existing directory is unchanged, that
    /// directory's table gains exactly the one binding with every other
    /// binding kept, and each freshly created intermediate directory binds
    /// exactly the next component; the whole path resolves through
    /// directories, ending at a fresh empty directory or fresh empty file.
    pub open spec fn created_ok(pre: Fs, post: Fs, names: Seq<Seq<u8>>, as_dir: bool) -> bool {
        let n = names.len() as int;
        let t = walk(post.nodes(), names, n)->Some_0;
        let k = reach_len(pre.nodes(), names, n - 1);
        let p = walk(pre.nodes(), names, k)->Some_0;
        &&& post.files() == pre.files()
        &&& post.locals() == pre.locals()
        &&& !blocked(post.nodes(), names, n - 1)
        &&& walk(post.nodes(), names, n) is Some
        &&& (if as_dir {
            a_is_dir(post.nodes(), t) && dtable(post.nodes(), t).table_empty()
        } else {
            a_is_file(post.nodes(), t) && file_at(post.nodes(), t)@ == seq![zero_block()]
        })
        &&& post.nodes().len() == pre.nodes().len() + (n - k)
        &&& forall|g: int|
            0 <= g < pre.nodes().len() && g != p ==> post.nodes()[g] == pre.nodes()[g]
        &&& a_is_dir(post.nodes(), p)
        &&& dtable(post.nodes(), p).contains_name(names[k])
        &&& dtable(post.nodes(), p).node_of(names[k]) == pre.nodes().len()
        &&& forall|m: Seq<u8>|
            m != names[k] ==> #[trigger] dtable(post.nodes(), p).contains_name(m) == dtable(
                pre.nodes(),
                p,
            ).contains_name(m)
        &&& forall|m: Seq<u8>|
            m != names[k] && dtable(pre.nodes(), p).contains_name(m) ==> #[trigger] dtable(
                post.nodes(),
                p,
            ).node_of(m) == dtable(pre.nodes(), p).node_of(m)
        &&& forall|l: int|
            k < l < n ==> (#[trigger] walk(post.nodes(), names, l)) is Some && a_is_dir(
                post.nodes(),
                walk(post.nodes(), names, l)->Some_0,
            ) && dtable(post.nodes(), walk(post.nodes(), names, l)->Some_0).binds_only(names[l])
    }

    /// The full contract of `create` and `create_dir`: which error comes on
    /// which input, with the state unchanged, and the effect of success.
    pub open spec fn create_post(
        pre: Fs,
        post: Fs,
        path: Seq<u8>,
        as_dir: bool,
        r: Result<(), FsError>,
    ) -> bool {
        let names = path_names(path);
        let n = names.len() as int;
        let a = pre.nodes();
        if path.len() > NAME_LENGTH {
            r == Result::<(), FsError>::Err(FsError::CapacityExceeded) && post == pre
        } else if n == 0 {
            r == Result::<(), FsError>::Err(FsError::PathNotFound) && post == pre
        } else if blocked(a, names, n - 1) {
            r == Result::<(), FsError>::Err(FsError::TypeMismatch) && post == pre
        } else {
            let k = reach_len(a, names, n - 1);
            let p = walk(a, names, k)->Some_0;
            if k == n - 1 && dtable(a, p).contains_name(names[n - 1]) {
                r == Result::<(), FsError>::Err(FsError::AlreadyExists) && post == pre
            } else if !dtable(a, p).has_free_slot() {
                r == Result::<(), FsError>::Err(FsError::CapacityExceeded) && post == pre
            } else {
                r == Result::<(), FsError>::Ok(()) && Fs::created_ok(pre, post, names, as_dir)
            }
        }
    }

    /// Selects which task's descriptor row the following calls use. The
    /// scheduler must call this once per task switch, before the switched-to
    /// task issues any filesystem call.
    pub fn set_active_task(&mut self, id: u64)
        requires
            old(self).wf(),
            id < LOCALFILETABLE_SIZE as u64,
        ensures
            final(self).wf(),
            final(self).nodes() == old(self).nodes(),
            final(self).files() == old(self).files(),
            final(self).locals().rows() == old(self).locals().rows(),
            final(self).locals().active() == id,
    {
        self.ltable.set_active(id);
        proof {
            assert forall|s: int| 0 <= s < GLOBALFILETABLE_SIZE implies #[trigger] self.files()
                .slot_open(s) == table_refs(self.locals().rows(), s) by {
                assert(old(self).files().slot_open(s) == table_refs(old(self).locals().rows(), s));
            }
        }
    }

    /// Read-only check that a path names an existing directory; the root
    /// path always validates.
    pub fn validate_path(&self, path: &[u8]) -> (r: bool)
        requires
            self.wf(),
        ensures
            r == self.valid_dir_path(path@),
    {
        if path.len() == 1 && path[0] == 47 {
            proof {
                assert(path@ =~= seq![SEPARATOR]);
            }
            return true;
        }
        proof {
            if path@ == seq![SEPARATOR] {
                assert(path@.len() == 1 && path@[0] == SEPARATOR);
            }
        }
        let names = path_to_names(path);
        if names.len() == 0 {
            return false;
        }
        let n = names.len();
        let r = walk_names(&self.arena, &names, n);
        match r {
            WalkEnd::Reached(_h) => true,
            WalkEnd::Missing(k, _h) => {
                proof {
                    if walk(self.nodes(), nviews(names@), n as int) is Some {
                        lemma_walk_prefix(self.nodes(), nviews(names@), n as int, k as int + 1);
                    }
                }
                false
            },
            WalkEnd::Stopped => false,
        }
    }

    /// Creates an empty file at the path, creating every missing
    /// non-terminal component as a directory on the way.
    pub fn create(&mut self, path: &[u8]) -> (r: Result<(), FsError>)
        requires
            old(self).wf(),
        ensures
            final(self).wf(),
            Fs::create_post(*old(self), *final(self), path@, false, r),
    {
        self.create_node(path, false)
    }

    /// Creates an empty directory at the path, creating every missing
    /// non-terminal component as a directory on the way.
    pub fn create_dir(&mut self, path: &[u8]) -> (r: Result<(), FsError>)
        requires
            old(self).wf(),
        ensures
            final(self).wf(),
            Fs::create_post(*old(self), *final(self), path@, true, r),
    {
        self.create_node(path, true)
    }

    /// Shared body of `create` and `create_dir`.
    fn create_node(&mut self, path: &[u8], as_dir: bool) -> (r: Result<(), FsError>)
        requires
            old(self).wf(),
        ensures
            final(self).wf(),
            Fs::create_post(*old(self), *final(self), path@, as_dir, r),
    {
        if path.len() > NAME_LENGTH {
            return Err(FsError::CapacityExceeded);
        }
        let names = path_to_names(path);
        if names.len() == 0 {
            return Err(FsError::PathNotFound);
        }
        let n = names.len();
        let ghost nv = nviews(names@);
        let ghost a0 = self.nodes();
        let end = walk_names(&self.arena, &names, n - 1);
        match end {
            WalkEnd::Stopped => Err(FsError::TypeMismatch),
            WalkEnd::Reached(p) => {
                proof {
                    lemma_reach_len_eq(a0, nv, n as int - 1, n as int - 1);
                }
                let tname = names[n - 1];
                proof {
                    assert(tname@ == nv[n as int - 1]);
                }
                let got = arena_lookup(&self.arena, p, &tname);
                if got.is_some() {
                    proof {
                        assert(dtable(a0, p as int).contains_name(nv[n as int - 1]));
                    }
                    return Err(FsError::AlreadyExists);
                }
                if !arena_dir_has_free(&self.arena, p) {
                    return Err(FsError::CapacityExceeded);
                }
                let child = if as_dir {
                    Node::DirectoryNode(Directory(DirectoryTable::new()))
                } else {
                    Node::FileNode(File::new())
                };
                let t = arena_add_child(&mut self.arena, p, tname, child);
                proof {
                    let a2 = self.nodes();
                    lemma_walk_increasing(a0, nv, n as int - 1);
                    lemma_walk_prefix_frame(a0, a2, nv, n as int - 1);
                    lemma_not_blocked_frame(a0, a2, nv, n as int - 1);
                    assert(walk(a2, nv, n as int - 1) == Option::Some(p as int));
                    assert(lookup_in(a2, p as int, nv[n as int - 1]) == Option::Some(t as int));
                    assert(walk(a2, nv, n as int) == Option::Some(t as int));
                    assert(reach_len(a0, nv, n as int - 1) == n as int - 1);
                    assert(t == a0.len() && a2.len() == a0.len() + 1);
                    assert forall|s: int| 0 <= s < GLOBALFILETABLE_SIZE implies #[trigger] self.files()
                        .slot_open(s) == table_refs(self.locals().rows(), s) by {
                        assert(old(self).files().slot_open(s) == table_refs(
                            old(self).locals().rows(),
                            s,
                        ));
                    }
                    assert(Fs::created_ok(*old(self), *self, nv, as_dir));
                }
                Ok(())
            },
            WalkEnd::Missing(k0, p) => {
                proof {
                    lemma_reach_len_eq(a0, nv, n as int - 1, k0 as int);
                }
                if !arena_dir_has_free(&self.arena, p) {
                    return Err(FsError::CapacityExceeded);
                }
                let mut cur = p;
                let mut i = k0;
                while i < n - 1
                    invariant
                        arena_wf(self.nodes()),
                        self.files() == old(self).files(),
                        self.locals() == old(self).locals(),
                        old(self).wf(),
                        n == names@.len(),
                        nv == nviews(names@),
                        forall|j: int| 0 <= j < n ==> (#[trigger] names@[j])@ != empty_name(),
                        k0 <= i <= n - 1,
                        walk(self.nodes(), nv, i as int) == Option::Some(cur as int),
                        a_is_dir(self.nodes(), cur as int),
                        !blocked(self.nodes(), nv, i as int),
                        !dtable(self.nodes(), cur as int).contains_name(nv[i as int]) || i == n - 1,
                        dtable(self.nodes(), cur as int).has_free_slot(),
                        i > k0 ==> dtable(self.nodes(), cur as int).table_empty(),
                        (p as int) < old(self).nodes().len(),
                        self.nodes().len() == old(self).nodes().len() + (i - k0),
                        forall|g: int|
                            0 <= g < old(self).nodes().len() && g != p as int ==> self.nodes()[g]
                                == old(self).nodes()[g],
                        i == k0 ==> self.nodes() == old(self).nodes() && cur == p,
                        i > k0 ==> cur as int >= old(self).nodes().len(),
                        i > k0 ==> a_is_dir(self.nodes(), p as int) && dtable(
                            self.nodes(),
                            p as int,
                        ).contains_name(nv[k0 as int]) && dtable(self.nodes(), p as int).node_of(
                            nv[k0 as int],
                        ) == old(self).nodes().len(),
                        i > k0 ==> forall|m: Seq<u8>|
                            m != nv[k0 as int] ==> #[trigger] dtable(
                                self.nodes(),
                                p as int,
                            ).contains_name(m) == dtable(
                                old(self).nodes(),
                                p as int,
                            ).contains_name(m),
                        i > k0 ==> forall|m: Seq<u8>|
                            m != nv[k0 as int] && dtable(old(self).nodes(), p as int).contains_name(
                                m,
                            ) ==> #[trigger] dtable(self.nodes(), p as int).node_of(m) == dtable(
                                old(self).nodes(),
                                p as int,
                            ).node_of(m),
                        forall|l: int|
                            k0 < l < i ==> (#[trigger] walk(self.nodes(), nv, l)) is Some && walk(
                                self.nodes(),
                                nv,
                                l,
                            )->Some_0 < cur as int && a_is_dir(
                                self.nodes(),
                                walk(self.nodes(), nv, l)->Some_0,
                            ) && dtable(self.nodes(), walk(self.nodes(), nv, l)->Some_0).binds_only(
                                nv[l],
                            ),
                    decreases n - 1 - i,
                {
                    let ghost b0 = self.nodes();
                    let iname = names[i];
                    proof {
                        assert(iname@ == nv[i as int]);
                    }
                    let d = arena_add_child(
                        &mut self.arena,
                        cur,
                        iname,
                        Node::DirectoryNode(Directory(DirectoryTable::new())),
                    );
                    proof {
                        let b2 = self.nodes();
                        lemma_walk_increasing(b0, nv, i as int);
                        lemma_walk_prefix_frame(b0, b2, nv, i as int);
                        lemma_not_blocked_frame(b0, b2, nv, i as int);
                        assert(walk(b2, nv, i as int) == Option::Some(cur as int));
                        assert(lookup_in(b2, cur as int, nv[i as int]) == Option::Some(d as int));
                        assert(walk(b2, nv, i as int + 1) == Option::Some(d as int));
                        assert(a_is_dir(b2, d as int));
                        assert(dtable(b2, d as int).table_empty());
                        assert(!dtable(b2, d as int).contains_name(nv[i as int + 1]));
                        assert(dtable(b2, d as int).has_free_slot()) by {
                            assert(!dtable(b2, d as int).slot_used(0));
                        }
                        assert(!blocked(b2, nv, i as int + 1)) by {
                            if blocked(b2, nv, i as int + 1) {
                                let j = choose|j: int|
                                    1 <= j <= i + 1 && (#[trigger] walk(b2, nv, j)) is Some
                                        && !a_is_dir(b2, walk(b2, nv, j)->Some_0);
                                if j <= i {
                                    assert(blocked(b2, nv, i as int));
                                }
                            }
                        }
                        // frame against the starting state
                        assert(d == b0.len() && b2.len() == b0.len() + 1);
                        assert((cur as int) < b0.len());
                        assert forall|g: int|
                            0 <= g < old(self).nodes().len() && g != p as int implies b2[g] == old(
                            self,
                        ).nodes()[g] by {
                            if i > k0 {
                                assert(g != cur as int);
                            }
                            if g != cur as int {
                                assert(b2[g] == b0[g]);
                            }
                        }
                        // the parent's table: established by the first insert, untouched after
                        if i == k0 {
                            assert(b0 == old(self).nodes());
                            assert(dtable(b2, p as int).node_of(nv[k0 as int]) == old(
                                self,
                            ).nodes().len());
                        } else {
                            assert(cur as int != p as int);
                            assert(b2[p as int] == b0[p as int]);
                            assert(dtable(b2, p as int) == dtable(b0, p as int));
                        }
                        // every directory created so far binds exactly its next component
                        assert forall|l: int|
                            k0 < l < i + 1 implies (#[trigger] walk(b2, nv, l)) is Some && walk(
                            b2,
                            nv,
                            l,
                        )->Some_0 < d as int && a_is_dir(b2, walk(b2, nv, l)->Some_0) && dtable(
                            b2,
                            walk(b2, nv, l)->Some_0,
                        ).binds_only(nv[l]) by {
                            if l < i {
                                assert(walk(b2, nv, l) == walk(b0, nv, l));
                                let h = walk(b0, nv, l)->Some_0;
                                assert(h < (cur as int));
                                assert(b2[h] == b0[h]);
                                assert(dtable(b2, h) == dtable(b0, h));
                            } else {
                                assert(l == i && i > k0);
                                assert(walk(b2, nv, i as int) == Option::Some(cur as int));
                                assert(dtable(b0, cur as int).table_empty());
                                assert forall|m: Seq<u8>| #[trigger] dtable(
                                    b2,
                                    cur as int,
                                ).contains_name(m) <==> m == nv[i as int] by {
                                    if m != nv[i as int] {
                                        assert(dtable(b2, cur as int).contains_name(m) == dtable(
                                            b0,
                                            cur as int,
                                        ).contains_name(m));
                                        if dtable(b0, cur as int).contains_name(m) {
                                            let c = choose|c: int|
                                                0 <= c < DIRECTORY_NR && #[trigger] dtable(
                                                    b0,
                                                    cur as int,
                                                ).slot_used(c) && dtable(
                                                    b0,
                                                    cur as int,
                                                ).entry_name(c) == m;
                                            assert(!dtable(b0, cur as int).slot_used(c));
                                        }
                                    }
                                }
                            }
                        }
                    }
                    cur = d;
                    i += 1;
                }
                let tname = names[n - 1];
                proof {
                    assert(tname@ == nv[n as int - 1]);
                }
                let ghost b0 = self.nodes();
                let child = if as_dir {
                    Node::DirectoryNode(Directory(DirectoryTable::new()))
                } else {
                    Node::FileNode(File::new())
                };
                let t = arena_add_child(&mut self.arena, cur, tname, child);
                proof {
                    let b2 = self.nodes();
                    lemma_walk_increasing(b0, nv, n as int - 1);
                    lemma_walk_prefix_frame(b0, b2, nv, n as int - 1);
                    lemma_not_blocked_frame(b0, b2, nv, n as int - 1);
                    assert(walk(b2, nv, n as int - 1) == Option::Some(cur as int));
                    assert(lookup_in(b2, cur as int, nv[n as int - 1]) == Option::Some(t as int));
                    assert(walk(b2, nv, n as int) == Option::Some(t as int));
                    assert(reach_len(a0, nv, n as int - 1) == k0 as int);
                    assert(t == b0.len() && b2.len() == b0.len() + 1);
                    assert((cur as int) >= old(self).nodes().len());
                    assert((cur as int) < b0.len());
                    assert forall|g: int|
                        0 <= g < old(self).nodes().len() && g != p as int implies b2[g] == old(
                        self,
                    ).nodes()[g] by {
                        assert(g != cur as int);
                        assert(b2[g] == b0[g]);
                    }
                    assert(cur as int != p as int);
                    assert(b2[p as int] == b0[p as int]);
                    assert(dtable(b2, p as int) == dtable(b0, p as int));
                    assert forall|l: int|
                        k0 < l < n implies (#[trigger] walk(b2, nv, l)) is Some && a_is_dir(
                        b2,
                        walk(b2, nv, l)->Some_0,
                    ) && dtable(b2, walk(b2, nv, l)->Some_0).binds_only(nv[l]) by {
                        if l < n - 1 {
                            assert(walk(b2, nv, l) == walk(b0, nv, l));
                            let h = walk(b0, nv, l)->Some_0;
                            assert(h < (cur as int));
                            assert(b2[h] == b0[h]);
                            assert(dtable(b2, h) == dtable(b0, h));
                        } else {
                            assert(l == n - 1);
                            assert(walk(b2, nv, n as int - 1) == Option::Some(cur as int));
                            assert(dtable(b0, cur as int).table_empty());
                            assert forall|m: Seq<u8>| #[trigger] dtable(
                                b2,
                                cur as int,
                            ).contains_name(m) <==> m == nv[n as int - 1] by {
                                if m != nv[n as int - 1] {
                                    assert(dtable(b2, cur as int).contains_name(m) == dtable(
                                        b0,
                                        cur as int,
                                    ).contains_name(m));
                                    if dtable(b0, cur as int).contains_name(m) {
                                        let c = choose|c: int|
                                            0 <= c < DIRECTORY_NR && #[trigger] dtable(
                                                b0,
                                                cur as int,
                                            ).slot_used(c) && dtable(b0, cur as int).entry_name(c)
                                                == m;
                                        assert(!dtable(b0, cur as int).slot_used(c));
                                    }
                                }
                            }
                        }
                    }
                    assert forall|s: int| 0 <= s < GLOBALFILETABLE_SIZE implies #[trigger] self.files()
                        .slot_open(s) == table_refs(self.locals().rows(), s) by {
                        assert(old(self).files().slot_open(s) == table_refs(
                            old(self).locals().rows(),
                            s,
                        ));
                    }
                    assert(Fs::created_ok(*old(self), *self, nv, as_dir));
                }
                Ok(())
            },
        }
    }
}

impl Fs {
    /// The active task's descriptor row still has an unused cell.
    pub open spec fn row_space(self) -> bool {
        exists|c: int|
            0 <= c < TASK_FDS && #[trigger] self.locals().cell(self.locals().active(), c)
                == EMPTY_FD
    }

    /// `post` is `pre` with global slot `s` stored in cell `loc` of the
    /// active row, previously unused.
    pub open spec fn locals_added(
        pre: LocalFileTable,
        post: LocalFileTable,
        loc: int,
        s: int,
    ) -> bool {
        &&& post.active() == pre.active()
        &&& 0 <= loc < TASK_FDS
        &&& pre.cell(pre.active(), loc) == EMPTY_FD
        &&& forall|c: int| 0 <= c < loc ==> pre.cell(pre.active(), c) != EMPTY_FD
        &&& post.rows() == pre.rows().update(
            pre.active(),
            pre.rows()[pre.active()].update(loc, s as usize),
        )
    }

    /// The full contract of `open`: a descriptor comes back exactly when
    /// the path is already open (and the row has room), or resolves to a
    /// file (and both tables have room); an already-open path shares its
    /// slot with the open count raised, a fresh path gets a fresh slot.
    pub open spec fn open_post(pre: Fs, post: Fs, path: Seq<u8>, r: Option<usize>) -> bool {
        let names = path_names(path);
        let n = names.len() as int;
        let full = name_of(path);
        let a = pre.nodes();
        if path.len() > NAME_LENGTH {
            r is None && post == pre
        } else if n == 0 {
            r is None && post == pre
        } else if pre.files().has_name(full) {
            let s = pre.files().slot_of(full);
            if pre.row_space() {
                &&& r is Some
                &&& Fs::locals_added(pre.locals(), post.locals(), r->Some_0 as int, s)
                &&& post.nodes() == pre.nodes()
                &&& FileTable::same_but(pre.files(), post.files(), s)
                &&& post.files().slot_open(s) == pre.files().slot_open(s) + 1
                &&& post.files().slot_name(s) == pre.files().slot_name(s)
                &&& post.files().slot_node(s) == pre.files().slot_node(s)
                &&& post.files().slot_reads(s) == pre.files().slot_reads(s)
                &&& post.files().slot_writes(s) == pre.files().slot_writes(s)
            } else {
                r is None && post == pre
            }
        } else {
            if walk(a, names, n) is Some && a_is_file(a, walk(a, names, n)->Some_0)
                && pre.files().has_free_slot() && pre.row_space() {
                let t = walk(a, names, n)->Some_0;
                let s = post.files().slot_of(full);
                &&& r is Some
                &&& post.nodes() == pre.nodes()
                &&& post.files().has_name(full)
                &&& pre.files().slot_free(s)
                &&& FileTable::same_but(pre.files(), post.files(), s)
                &&& post.files().slot_name(s) == full
                &&& post.files().slot_node(s) == t
                &&& post.files().slot_open(s) == 1
                &&& post.files().slot_reads(s) == 0
                &&& !post.files().slot_writes(s)
                &&& Fs::locals_added(pre.locals(), post.locals(), r->Some_0 as int, s)
            } else {
                r is None && post == pre
            }
        }
    }

    /// The full contract of `close`: an unused descriptor is refused;
    /// otherwise its cell is cleared and the slot's open count lowered,
    /// freeing the slot when this was the last descriptor.
    pub open spec fn close_post(pre: Fs, post: Fs, fd: int, r: Result<(), FsError>) -> bool {
        if !(0 <= fd < TASK_FDS) {
            r == Result::<(), FsError>::Err(FsError::PathNotFound) && post == pre
        } else {
            let g = pre.locals().cell(pre.locals().active(), fd);
            if g == EMPTY_FD {
                r == Result::<(), FsError>::Err(FsError::PathNotFound) && post == pre
            } else {
                let s = g as int;
                &&& r == Result::<(), FsError>::Ok(())
                &&& post.nodes() == pre.nodes()
                &&& post.locals().active() == pre.locals().active()
                &&& post.locals().rows() == pre.locals().rows().update(
                    pre.locals().active(),
                    pre.locals().rows()[pre.locals().active()].update(fd, EMPTY_FD),
                )
                &&& FileTable::same_but(pre.files(), post.files(), s)
                &&& (if pre.files().slot_open(s) == 1 {
                    post.files().slot_free(s) && post.files().slot_open(s) == 0
                } else {
                    &&& post.files().slot_open(s) == pre.files().slot_open(s) - 1
                    &&& post.files().slot_name(s) == pre.files().slot_name(s)
                    &&& post.files().slot_node(s) == pre.files().slot_node(s)
                    &&& post.files().slot_reads(s) == pre.files().slot_reads(s)
                    &&& post.files().slot_writes(s) == pre.files().slot_writes(s)
                    &&& !post.files().slot_free(s)
                })
            }
        }
    }

    /// Opens a path: reuses the slot of an already-open path, otherwise
    /// resolves the path to a file and records it; either way the caller's
    /// row gets a fresh local descriptor. A path longer than a stored name
    /// is refused, so distinct open paths never share a slot by truncation.
    pub fn open(&mut self, path: &[u8]) -> (r: Option<usize>)
        requires
            old(self).wf(),
        ensures
            final(self).wf(),
            Fs::open_post(*old(self), *final(self), path@, r),
    {
        if path.len() > NAME_LENGTH {
            return None;
        }
        let names = path_to_names(path);
        if names.len() == 0 {
            return None;
        }
        let n = names.len();
        let ghost nv = nviews(names@);
        let full = str_to_u8(path);
        proof {
            assert(components(path@).len() > 0);
            assert(path@.len() > 0);
            lemma_name_of_nonempty(path@);
        }
        let found = self.ftable.find_name(&full);
        match found {
            Some(s) => {
                if !self.ltable.has_space() {
                    return None;
                }
                let ghost rows0 = self.ltable.rows();
                let got = self.ltable.add_entry(s);
                let loc = match got {
                    Some(loc) => loc,
                    None => vstd::pervasive::unreached(),
                };
                proof {
                    crate::table::lemma_table_refs_le(rows0, s as int, TASK_FDS as nat);
                    assert(table_refs(rows0, s as int) <= LOCALFILETABLE_SIZE * TASK_FDS);
                    assert(old(self).files().slot_open(s as int) == table_refs(rows0, s as int));
                }
                self.ftable.incr_open(s);
                proof {
                    let act = old(self).locals().active();
                    assert forall|s2: int|
                        0 <= s2 < GLOBALFILETABLE_SIZE && !(#[trigger] self.files().slot_free(s2))
                            implies a_is_file(self.nodes(), self.files().slot_node(s2)) by {
                        if s2 != s as int {
                            assert(self.files().slot(s2) == old(self).files().slot(s2));
                        } else {
                            assert(self.files().slot_node(s2) == old(self).files().slot_node(s2));
                            assert(self.files().slot_free(s2) == old(self).files().slot_free(s2));
                        }
                        assert(!old(self).files().slot_free(s2));
                        assert(a_is_file(old(self).nodes(), old(self).files().slot_node(s2)));
                    }
                    assert forall|s2: int| 0 <= s2 < GLOBALFILETABLE_SIZE implies #[trigger] self.files()
                        .slot_open(s2) == table_refs(self.locals().rows(), s2) by {
                        crate::table::lemma_table_refs_update(rows0, act, loc as int, s, s2);
                        assert(old(self).files().slot_open(s2) == table_refs(rows0, s2));
                    }
                    assert forall|s2: int|
                        0 <= s2 < GLOBALFILETABLE_SIZE && #[trigger] self.files().slot_free(s2)
                            implies self.files().slot_open(s2) == 0 by {
                        assert(old(self).files().slot_free(s2) == self.files().slot_free(s2));
                        if s2 == s as int {
                            assert(!old(self).files().slot_free(s2));
                        }
                    }
                }
                Some(loc)
            },
            None => {
                let end = walk_names(&self.arena, &names, n - 1);
                match end {
                    WalkEnd::Reached(p) => {
                        let tname = names[n - 1];
                        proof {
                            assert(tname@ == nv[n as int - 1]);
                        }
                        let got2 = arena_lookup(&self.arena, p, &tname);
                        match got2 {
                            Some(t) => {
                                proof {
                                    assert(walk(self.nodes(), nv, n as int) == Option::Some(
                                        t as int,
                                    ));
                                }
                                if !arena_is_file(&self.arena, t) {
                                    return None;
                                }
                                if !self.ltable.has_space() {
                                    return None;
                                }
                                let ghost rows0 = self.ltable.rows();
                                let slot_opt = self.ftable.add_file_description(t, full);
                                match slot_opt {
                                    Some(s) => {
                                        let got3 = self.ltable.add_entry(s);
                                        let loc = match got3 {
                                            Some(loc) => loc,
                                            None => vstd::pervasive::unreached(),
                                        };
                                        proof {
                                            let act = old(self).locals().active();
                                            assert(old(self).files().slot_free(s as int));
                                            assert(old(self).files().slot_open(s as int) == 0);
                                            assert forall|s2: int|
                                                0 <= s2 < GLOBALFILETABLE_SIZE && !(
                                                #[trigger] self.files().slot_free(s2)) implies
                                                a_is_file(
                                                    self.nodes(),
                                                    self.files().slot_node(s2),
                                                ) by {
                                                if s2 != s as int {
                                                    assert(self.files().slot(s2) == old(
                                                        self,
                                                    ).files().slot(s2));
                                                    assert(!old(self).files().slot_free(s2));
                                                    assert(a_is_file(
                                                        old(self).nodes(),
                                                        old(self).files().slot_node(s2),
                                                    ));
                                                } else {
                                                    assert(self.files().slot_node(s2) == t);
                                                    assert(a_is_file(self.nodes(), t as int));
                                                }
                                            }
                                            assert forall|s2: int|
                                                0 <= s2 < GLOBALFILETABLE_SIZE implies #[trigger] self.files().slot_open(s2) == table_refs(
                                                self.locals().rows(),
                                                s2,
                                            ) by {
                                                crate::table::lemma_table_refs_update(
                                                    rows0,
                                                    act,
                                                    loc as int,
                                                    s,
                                                    s2,
                                                );
                                                assert(old(self).files().slot_open(s2)
                                                    == table_refs(rows0, s2));
                                            }
                                            assert forall|s2: int|
                                                0 <= s2 < GLOBALFILETABLE_SIZE
                                                    && #[trigger] self.files().slot_free(s2)
                                                    implies self.files().slot_open(s2) == 0 by {
                                                assert(s2 != s as int);
                                                assert(old(self).files().slot_free(s2));
                                            }
                                        }
                                        Some(loc)
                                    },
                                    None => None,
                                }
                            },
                            None => None,
                        }
                    },
                    WalkEnd::Missing(k, _p) => {
                        proof {
                            if walk(self.nodes(), nv, n as int) is Some {
                                lemma_walk_prefix(self.nodes(), nv, n as int, k as int + 1);
                            }
                        }
                        None
                    },
                    WalkEnd::Stopped => {
                        proof {
                            if walk(self.nodes(), nv, n as int) is Some {
                                let j = choose|j: int|
                                    1 <= j <= n - 1 && (#[trigger] walk(self.nodes(), nv, j))
                                        is Some && !a_is_dir(
                                        self.nodes(),
                                        walk(self.nodes(), nv, j)->Some_0,
                                    );
                                lemma_walk_prefix(self.nodes(), nv, n as int, j + 1);
                                assert(walk(self.nodes(), nv, j + 1) is Some);
                            }
                        }
                        None
                    },
                }
            },
        }
    }

    /// Closes a local descriptor: clears its cell and lowers the slot's
    /// open count, freeing the slot when no descriptor shares it any more.
    pub fn close(&mut self, fd_loc: usize) -> (r: Result<(), FsError>)
        requires
            old(self).wf(),
        ensures
            final(self).wf(),
            Fs::close_post(*old(self), *final(self), fd_loc as int, r),
    {
        if fd_loc >= TASK_FDS {
            return Err(FsError::PathNotFound);
        }
        let g = self.ltable.get_global_fd(fd_loc);
        if g == EMPTY_FD {
            return Err(FsError::PathNotFound);
        }
        let ghost rows0 = self.ltable.rows();
        let ghost act = self.ltable.active();
        proof {
            assert(g < GLOBALFILETABLE_SIZE);
            crate::table::lemma_table_refs_pos(rows0, act, fd_loc as int, g as int);
            assert(old(self).files().slot_open(g as int) >= 1);
            if old(self).files().slot_free(g as int) {
                assert(old(self).files().slot_open(g as int) == 0);
            }
        }
        self.ltable.delete_entry(fd_loc);
        self.ftable.decr_open(g);
        let o = self.ftable.open_of(g);
        if o == 0 {
            self.ftable.free_slot(g);
        }
        proof {
            assert forall|s2: int|
                0 <= s2 < GLOBALFILETABLE_SIZE && !(#[trigger] self.files().slot_free(s2)) implies
                a_is_file(self.nodes(), self.files().slot_node(s2)) by {
                if s2 != g as int {
                    assert(self.files().slot(s2) == old(self).files().slot(s2));
                    assert(!old(self).files().slot_free(s2));
                } else {
                    assert(self.files().slot_node(s2) == old(self).files().slot_node(s2));
                    assert(!old(self).files().slot_free(s2));
                }
                assert(a_is_file(old(self).nodes(), old(self).files().slot_node(s2)));
            }
            assert forall|s2: int| 0 <= s2 < GLOBALFILETABLE_SIZE implies #[trigger] self.files()
                .slot_open(s2) == table_refs(self.locals().rows(), s2) by {
                crate::table::lemma_table_refs_update(rows0, act, fd_loc as int, EMPTY_FD, s2);
                assert(old(self).files().slot_open(s2) == table_refs(rows0, s2));
                assert(s2 != EMPTY_FD);
            }
            assert forall|s2: int|
                0 <= s2 < GLOBALFILETABLE_SIZE && #[trigger] self.files().slot_free(s2) implies
                self.files().slot_open(s2) == 0 by {
                if s2 != g as int {
                    assert(self.files().slot_free(s2) == old(self).files().slot_free(s2));
                    assert(old(self).files().slot_open(s2) == self.files().slot_open(s2));
                } else {
                    if old(self).files().slot_open(g as int) != 1 {
                        assert(!old(self).files().slot_free(g as int));
                        assert(self.files().slot_name(g as int) == old(self).files().slot_name(
                            g as int,
                        ));
                    }
                }
            }
        }
        Ok(())
    }
}

/// Every slot of `post` carries the same values as in `pre`.
pub open spec fn files_unchanged(pre: FileTable, post: FileTable) -> bool {
    &&& post.len_ok() == pre.len_ok()
    &&& forall|s: int|
        0 <= s < GLOBALFILETABLE_SIZE ==> #[trigger] post.slot_name(s) == pre.slot_name(s)
            && post.slot_node(s) == pre.slot_node(s) && post.slot_reads(s) == pre.slot_reads(s)
            && post.slot_open(s) == pre.slot_open(s) && post.slot_writes(s) == pre.slot_writes(s)
}

impl Fs {
    /// The global slot a local descriptor refers to.
    pub open spec fn slot_of_fd(self, fd: int) -> int {
        self.locals().cell(self.locals().active(), fd) as int
    }

    /// A read through descriptor `fd` at block `offset` succeeds: the
    /// descriptor is in use, no write grant is outstanding, the read count
    /// can grow, the slot's node is a live file, and the chain is long
    /// enough.
    pub open spec fn read_ok(self, fd: int, offset: int) -> bool {
        &&& 0 <= fd < TASK_FDS
        &&& self.locals().cell(self.locals().active(), fd) != EMPTY_FD
        &&& !self.files().slot_writes(self.slot_of_fd(fd))
        &&& self.files().slot_reads(self.slot_of_fd(fd)) < usize::MAX
        &&& a_is_file(self.nodes(), self.files().slot_node(self.slot_of_fd(fd)))
        &&& offset < file_at(self.nodes(), self.files().slot_node(self.slot_of_fd(fd)))@.len()
    }

    /// The block a successful read returns.
    pub open spec fn read_result(self, fd: int, offset: int) -> Seq<u8> {
        file_at(self.nodes(), self.files().slot_node(self.slot_of_fd(fd)))@[offset]
    }

    /// The full contract of `write`: an unused descriptor or an outstanding
    /// grant is refused with the state unchanged; otherwise exactly the one
    /// file is rewritten or appended to.
    pub open spec fn write_post_fs(
        pre: Fs,
        post: Fs,
        fd: int,
        data: Seq<u8>,
        append_flag: bool,
        r: Result<(), FsError>,
    ) -> bool {
        if !(0 <= fd < TASK_FDS) || pre.locals().cell(pre.locals().active(), fd) == EMPTY_FD {
            r == Result::<(), FsError>::Err(FsError::PathNotFound) && post == pre
        } else {
            let s = pre.slot_of_fd(fd);
            let t = pre.files().slot_node(s);
            if pre.files().slot_writes(s) || pre.files().slot_reads(s) != 0 {
                r == Result::<(), FsError>::Err(FsError::FileLocked) && post == pre
            } else {
                &&& r == Result::<(), FsError>::Ok(())
                &&& post.locals() == pre.locals()
                &&& files_unchanged(pre.files(), post.files())
                &&& post.nodes().len() == pre.nodes().len()
                &&& forall|g: int|
                    0 <= g < pre.nodes().len() && g != t ==> post.nodes()[g] == pre.nodes()[g]
                &&& a_is_file(post.nodes(), t)
                &&& (if append_flag {
                    append_post(file_at(pre.nodes(), t)@, file_at(post.nodes(), t)@, data)
                } else {
                    write_post(file_at(pre.nodes(), t)@, file_at(post.nodes(), t)@, data)
                })
            }
        }
    }

    /// Reads one block of an open file under a momentary read grant:
    /// `Some` exactly when the descriptor is live, the slot unlocked, its
    /// node a file and the chain long enough; the state comes back as it
    /// was.
    pub fn read(&mut self, fd: usize, offset: usize) -> (r: Option<[u8; 1024]>)
        requires
            old(self).wf(),
        ensures
            final(self).wf(),
            final(self).nodes() == old(self).nodes(),
            final(self).locals() == old(self).locals(),
            files_unchanged(old(self).files(), final(self).files()),
            r is Some <==> old(self).read_ok(fd as int, offset as int),
            r is Some ==> r->Some_0@ == old(self).read_result(fd as int, offset as int),
    {
        if fd >= TASK_FDS {
            return None;
        }
        let g = self.ltable.get_global_fd(fd);
        if g == EMPTY_FD {
            return None;
        }
        proof {
            assert(g < GLOBALFILETABLE_SIZE);
        }
        let node = self.ftable.get_r_access(g);
        match node {
            Some(t) => {
                let blk = arena_read_block(&self.arena, t, offset);
                self.ftable.return_r_access(g);
                proof {
                    assert forall|s2: int|
                        0 <= s2 < GLOBALFILETABLE_SIZE && !(#[trigger] self.files().slot_free(s2))
                            implies a_is_file(self.nodes(), self.files().slot_node(s2)) by {
                        if s2 != g as int {
                            assert(self.files().slot(s2) == old(self).files().slot(s2));
                        }
                        assert(!old(self).files().slot_free(s2));
                        assert(a_is_file(old(self).nodes(), old(self).files().slot_node(s2)));
                    }
                    assert forall|s2: int|
                        0 <= s2 < GLOBALFILETABLE_SIZE implies #[trigger] self.files().slot_open(
                        s2,
                    ) == table_refs(self.locals().rows(), s2) by {
                        assert(old(self).files().slot_open(s2) == table_refs(
                            old(self).locals().rows(),
                            s2,
                        ));
                        if s2 != g as int {
                            assert(self.files().slot(s2) == old(self).files().slot(s2));
                        }
                    }
                    assert forall|s2: int|
                        0 <= s2 < GLOBALFILETABLE_SIZE && #[trigger] self.files().slot_free(s2)
                            implies self.files().slot_open(s2) == 0 by {
                        if s2 != g as int {
                            assert(self.files().slot(s2) == old(self).files().slot(s2));
                            assert(old(self).files().slot_free(s2));
                        } else {
                            assert(old(self).files().slot_free(s2));
                        }
                    }
                }
                blk
            },
            None => None,
        }
    }

    /// Writes to an open file under a momentary write grant: rewrites from
    /// the beginning, or appends.
    pub fn write(&mut self, fd: usize, data: &[u8], append_flag: bool) -> (r: Result<
        (),
        FsError,
    >)
        requires
            old(self).wf(),
            data@.len() <= usize::MAX - 2048,
        ensures
            final(self).wf(),
            Fs::write_post_fs(*old(self), *final(self), fd as int, data@, append_flag, r),
    {
        if fd >= TASK_FDS {
            return Err(FsError::PathNotFound);
        }
        let g = self.ltable.get_global_fd(fd);
        if g == EMPTY_FD {
            return Err(FsError::PathNotFound);
        }
        proof {
            assert(g < GLOBALFILETABLE_SIZE);
        }
        let node = self.ftable.get_w_access(g);
        match node {
            Some(t) => {
                proof {
                    // a descriptor in use refers to a slot in use, whose
                    // node the invariant ties to a live file
                    crate::table::lemma_table_refs_pos(
                        old(self).locals().rows(),
                        old(self).locals().active(),
                        fd as int,
                        g as int,
                    );
                    assert(old(self).files().slot_open(g as int) >= 1);
                    assert(!old(self).files().slot_free(g as int));
                    assert(a_is_file(self.nodes(), t as int));
                }
                arena_file_write(&mut self.arena, t, data, append_flag);
                self.ftable.return_w_access(g);
                proof {
                    assert forall|s2: int|
                        0 <= s2 < GLOBALFILETABLE_SIZE && !(#[trigger] self.files().slot_free(s2))
                            implies a_is_file(self.nodes(), self.files().slot_node(s2)) by {
                        if s2 != g as int {
                            assert(self.files().slot(s2) == old(self).files().slot(s2));
                        } else {
                            assert(self.files().slot_node(s2) == old(self).files().slot_node(s2));
                            assert(self.files().slot_free(s2) == old(self).files().slot_free(s2));
                        }
                        assert(!old(self).files().slot_free(s2));
                        let nd = old(self).files().slot_node(s2);
                        assert(a_is_file(old(self).nodes(), nd));
                        if nd != t as int {
                            assert(self.nodes()[nd] == old(self).nodes()[nd]);
                        }
                    }
                    assert forall|s2: int|
                        0 <= s2 < GLOBALFILETABLE_SIZE implies #[trigger] self.files().slot_open(
                        s2,
                    ) == table_refs(self.locals().rows(), s2) by {
                        assert(old(self).files().slot_open(s2) == table_refs(
                            old(self).locals().rows(),
                            s2,
                        ));
                        if s2 != g as int {
                            assert(self.files().slot(s2) == old(self).files().slot(s2));
                        }
                    }
                    assert forall|s2: int|
                        0 <= s2 < GLOBALFILETABLE_SIZE && #[trigger] self.files().slot_free(s2)
                            implies self.files().slot_open(s2) == 0 by {
                        if s2 != g as int {
                            assert(self.files().slot(s2) == old(self).files().slot(s2));
                        }
                        assert(old(self).files().slot_free(s2));
                    }
                }
                Ok(())
            },
            None => Err(FsError::FileLocked),
        }
    }
}

impl Fs {
    /// What a successful deletion leaves behind: the tables untouched, the
    /// terminal's entry removed from its parent — every sibling binding
    /// keeping both its name and its node — the node's arena slot cleared,
    /// every other node untouched, and the path no longer resolving.
    pub open spec fn deleted_ok(pre: Fs, post: Fs, names: Seq<Seq<u8>>) -> bool {
        let n = names.len() as int;
        let p = walk(pre.nodes(), names, n - 1)->Some_0;
        let c = dtable(pre.nodes(), p).node_of(names[n - 1]);
        &&& post.files() == pre.files()
        &&& post.locals() == pre.locals()
        &&& post.nodes().len() == pre.nodes().len()
        &&& post.nodes()[c] is None
        &&& forall|g: int|
            0 <= g < pre.nodes().len() && g != p && g != c ==> post.nodes()[g] == pre.nodes()[g]
        &&& a_is_dir(post.nodes(), p)
        &&& !dtable(post.nodes(), p).contains_name(names[n - 1])
        &&& forall|m: Seq<u8>|
            m != names[n - 1] ==> #[trigger] dtable(post.nodes(), p).contains_name(m) == dtable(
                pre.nodes(),
                p,
            ).contains_name(m)
        &&& forall|m: Seq<u8>|
            m != names[n - 1] && dtable(pre.nodes(), p).contains_name(m) ==> #[trigger] dtable(
                post.nodes(),
                p,
            ).node_of(m) == dtable(pre.nodes(), p).node_of(m)
        &&& walk(post.nodes(), names, n - 1) == Option::Some(p)
        &&& walk(post.nodes(), names, n) is None
    }

    /// The full contract of `delete`: which error comes on which input with
    /// the state unchanged — a missing path, a non-directory on the way, a
    /// directory that still has entries, a file whose node some slot still
    /// holds open — and the effect of success.
    pub open spec fn delete_post(pre: Fs, post: Fs, path: Seq<u8>, r: Result<(), FsError>) -> bool {
        let names = path_names(path);
        let n = names.len() as int;
        let a = pre.nodes();
        if n == 0 {
            r == Result::<(), FsError>::Err(FsError::PathNotFound) && post == pre
        } else if blocked(a, names, n - 1) {
            r == Result::<(), FsError>::Err(FsError::TypeMismatch) && post == pre
        } else if reach_len(a, names, n - 1) < n - 1 {
            r == Result::<(), FsError>::Err(FsError::PathNotFound) && post == pre
        } else {
            let p = walk(a, names, n - 1)->Some_0;
            if !dtable(a, p).contains_name(names[n - 1]) {
                r == Result::<(), FsError>::Err(FsError::PathNotFound) && post == pre
            } else {
                let c = dtable(a, p).node_of(names[n - 1]);
                if a_is_dir(a, c) {
                    if !dtable(a, c).table_empty() {
                        r == Result::<(), FsError>::Err(FsError::DirectoryNotEmpty) && post == pre
                    } else {
                        r == Result::<(), FsError>::Ok(()) && Fs::deleted_ok(pre, post, names)
                    }
                } else {
                    if pre.files().refs_node(c) {
                        r == Result::<(), FsError>::Err(FsError::FileOpenCannotDelete) && post
                            == pre
                    } else {
                        r == Result::<(), FsError>::Ok(()) && Fs::deleted_ok(pre, post, names)
                    }
                }
            }
        }
    }

    /// Deletes the node the path names: an empty directory, or a file that
    /// no global slot holds open; the entry leaves its parent's table.
    pub fn delete(&mut self, path: &[u8]) -> (r: Result<(), FsError>)
        requires
            old(self).wf(),
        ensures
            final(self).wf(),
            Fs::delete_post(*old(self), *final(self), path@, r),
    {
        let names = path_to_names(path);
        if names.len() == 0 {
            return Err(FsError::PathNotFound);
        }
        let n = names.len();
        let ghost nv = nviews(names@);
        let ghost a0 = self.nodes();
        let end = walk_names(&self.arena, &names, n - 1);
        match end {
            WalkEnd::Stopped => Err(FsError::TypeMismatch),
            WalkEnd::Missing(k, _p) => {
                proof {
                    lemma_reach_len_eq(a0, nv, n as int - 1, k as int);
                }
                Err(FsError::PathNotFound)
            },
            WalkEnd::Reached(p) => {
                proof {
                    lemma_reach_len_eq(a0, nv, n as int - 1, n as int - 1);
                }
                let tname = names[n - 1];
                proof {
                    assert(tname@ == nv[n as int - 1]);
                }
                let got = arena_lookup(&self.arena, p, &tname);
                match got {
                    None => Err(FsError::PathNotFound),
                    Some(c) => {
                        if arena_is_dir(&self.arena, c) {
                            if !arena_dir_is_empty(&self.arena, c) {
                                return Err(FsError::DirectoryNotEmpty);
                            }
                            proof {
                                // slots hold files, so none can refer to this directory
                                assert forall|s2: int|
                                    0 <= s2 < GLOBALFILETABLE_SIZE && !(#[trigger] self.files()
                                        .slot_free(s2)) implies self.files().slot_node(s2)
                                    != c as int by {
                                    assert(a_is_file(self.nodes(), self.files().slot_node(s2)));
                                }
                            }
                            arena_remove_child(&mut self.arena, p, &tname);
                            proof {
                                self.lemma_delete_effect(*old(self), nv, p as int, c as int);
                            }
                            Ok(())
                        } else {
                            if self.ftable.references_node(c) {
                                return Err(FsError::FileOpenCannotDelete);
                            }
                            proof {
                                assert forall|s2: int|
                                    0 <= s2 < GLOBALFILETABLE_SIZE && !(#[trigger] self.files()
                                        .slot_free(s2)) implies self.files().slot_node(s2)
                                    != c as int by {}
                            }
                            arena_remove_child(&mut self.arena, p, &tname);
                            proof {
                                self.lemma_delete_effect(*old(self), nv, p as int, c as int);
                            }
                            Ok(())
                        }
                    },
                }
            },
        }
    }

    /// After a removal, the parent still resolves, the terminal does not,
    /// and the whole context is still well-formed.
    proof fn lemma_delete_effect(self, pre: Fs, nv: Seq<Seq<u8>>, p: int, c: int)
        requires
            pre.wf(),
            nv.len() >= 1,
            walk(pre.nodes(), nv, nv.len() - 1) == Option::Some(p),
            a_is_dir(pre.nodes(), p),
            dtable(pre.nodes(), p).contains_name(nv[nv.len() - 1]),
            c == dtable(pre.nodes(), p).node_of(nv[nv.len() - 1]),
            arena_wf(self.nodes()),
            self.files() == pre.files(),
            self.locals() == pre.locals(),
            self.nodes().len() == pre.nodes().len(),
            self.nodes()[c] is None,
            forall|g: int|
                0 <= g < pre.nodes().len() && g != p && g != c ==> self.nodes()[g]
                    == pre.nodes()[g],
            a_is_dir(self.nodes(), p),
            !dtable(self.nodes(), p).contains_name(nv[nv.len() - 1]),
            forall|m: Seq<u8>|
                m != nv[nv.len() - 1] ==> #[trigger] dtable(self.nodes(), p).contains_name(m)
                    == dtable(pre.nodes(), p).contains_name(m),
            forall|m: Seq<u8>|
                m != nv[nv.len() - 1] && dtable(pre.nodes(), p).contains_name(m)
                    ==> #[trigger] dtable(self.nodes(), p).node_of(m) == dtable(
                    pre.nodes(),
                    p,
                ).node_of(m),
            forall|s2: int|
                0 <= s2 < GLOBALFILETABLE_SIZE && !(#[trigger] pre.files().slot_free(s2))
                    ==> pre.files().slot_node(s2) != c,
        ensures
            self.wf(),
            Fs::deleted_ok(pre, *&self, nv),
    {
        let n = nv.len() as int;
        let a0 = pre.nodes();
        let a2 = self.nodes();
        lemma_walk_increasing(a0, nv, n - 1);
        let k = choose|k: int|
            0 <= k < DIRECTORY_NR && #[trigger] dtable(a0, p).slot_used(k) && dtable(
                a0,
                p,
            ).entry_name(k) == nv[n - 1];
        assert(edge_used(a0, p, k));
        assert(edge_to(a0, p, k) == c) by {
            let j = choose|j: int|
                0 <= j < DIRECTORY_NR && #[trigger] dtable(a0, p).slot_used(j) && dtable(
                    a0,
                    p,
                ).entry_name(j) == nv[n - 1];
            if j != k {
                assert(dtable(a0, p).slot_used(j) && dtable(a0, p).slot_used(k));
            }
        }
        assert(p < c);
        assert(forall|h: int| 0 <= h < p ==> a2[h] == a0[h]);
        lemma_walk_frame(a0, a2, nv, n - 1);
        assert(walk(a2, nv, n - 1) == Option::Some(p));
        assert(lookup_in(a2, p, nv[n - 1]) is None);
        assert(walk(a2, nv, n) is None);
        assert forall|s2: int| 0 <= s2 < GLOBALFILETABLE_SIZE implies #[trigger] self.files()
            .slot_open(s2) == table_refs(self.locals().rows(), s2) by {
            assert(pre.files().slot_open(s2) == table_refs(pre.locals().rows(), s2));
        }
        assert forall|s2: int|
            0 <= s2 < GLOBALFILETABLE_SIZE && !(#[trigger] self.files().slot_free(s2)) implies
            a_is_file(self.nodes(), self.files().slot_node(s2)) by {
            assert(!pre.files().slot_free(s2));
            let nd = pre.files().slot_node(s2);
            assert(a_is_file(pre.nodes(), nd));
            assert(nd != c);
            assert(nd != p);
            assert(self.nodes()[nd] == pre.nodes()[nd]);
        }
    }

    /// What `w_lock` does: takes or gives back the write grant on the slot
    /// a descriptor refers to, without waiting.
    pub open spec fn w_lock_post(
        pre: Fs,
        post: Fs,
        fd: int,
        lock: bool,
        r: Result<(), FsError>,
    ) -> bool {
        if !(0 <= fd < TASK_FDS) || pre.locals().cell(pre.locals().active(), fd) == EMPTY_FD {
            r == Result::<(), FsError>::Err(FsError::PathNotFound) && post == pre
        } else {
            let s = pre.slot_of_fd(fd);
            if lock {
                if !pre.files().slot_writes(s) && pre.files().slot_reads(s) == 0 {
                    &&& r == Result::<(), FsError>::Ok(())
                    &&& post.nodes() == pre.nodes()
                    &&& post.locals() == pre.locals()
                    &&& FileTable::same_but(pre.files(), post.files(), s)
                    &&& post.files().slot_writes(s)
                    &&& post.files().slot_reads(s) == pre.files().slot_reads(s)
                    &&& post.files().slot_open(s) == pre.files().slot_open(s)
                    &&& post.files().slot_name(s) == pre.files().slot_name(s)
                    &&& post.files().slot_node(s) == pre.files().slot_node(s)
                } else {
                    r == Result::<(), FsError>::Err(FsError::FileLocked) && post == pre
                }
            } else {
                &&& r == Result::<(), FsError>::Ok(())
                &&& post.nodes() == pre.nodes()
                &&& post.locals() == pre.locals()
                &&& FileTable::same_but(pre.files(), post.files(), s)
                &&& !post.files().slot_writes(s)
                &&& post.files().slot_reads(s) == pre.files().slot_reads(s)
                &&& post.files().slot_open(s) == pre.files().slot_open(s)
                &&& post.files().slot_name(s) == pre.files().slot_name(s)
                &&& post.files().slot_node(s) == pre.files().slot_node(s)
            }
        }
    }

    /// What `r_lock` does: takes or gives back one read grant on the slot a
    /// descriptor refers to, without waiting.
    pub open spec fn r_lock_post(
        pre: Fs,
        post: Fs,
        fd: int,
        lock: bool,
        r: Result<(), FsError>,
    ) -> bool {
        if !(0 <= fd < TASK_FDS) || pre.locals().cell(pre.locals().active(), fd) == EMPTY_FD {
            r == Result::<(), FsError>::Err(FsError::PathNotFound) && post == pre
        } else {
            let s = pre.slot_of_fd(fd);
            if lock {
                if !pre.files().slot_writes(s) && pre.files().slot_reads(s) < usize::MAX {
                    &&& r == Result::<(), FsError>::Ok(())
                    &&& post.nodes() == pre.nodes()
                    &&& post.locals() == pre.locals()
                    &&& FileTable::same_but(pre.files(), post.files(), s)
                    &&& post.files().slot_reads(s) == pre.files().slot_reads(s) + 1
                    &&& post.files().slot_writes(s) == pre.files().slot_writes(s)
                    &&& post.files().slot_open(s) == pre.files().slot_open(s)
                    &&& post.files().slot_name(s) == pre.files().slot_name(s)
                    &&& post.files().slot_node(s) == pre.files().slot_node(s)
                } else {
                    r == Result::<(), FsError>::Err(FsError::FileLocked) && post == pre
                }
            } else {
                if pre.files().slot_reads(s) >= 1 {
                    &&& r == Result::<(), FsError>::Ok(())
                    &&& post.nodes() == pre.nodes()
                    &&& post.locals() == pre.locals()
                    &&& FileTable::same_but(pre.files(), post.files(), s)
                    &&& post.files().slot_reads(s) == pre.files().slot_reads(s) - 1
                    &&& post.files().slot_writes(s) == pre.files().slot_writes(s)
                    &&& post.files().slot_open(s) == pre.files().slot_open(s)
                    &&& post.files().slot_name(s) == pre.files().slot_name(s)
                    &&& post.files().slot_node(s) == pre.files().slot_node(s)
                } else {
                    r == Result::<(), FsError>::Err(FsError::FileLocked) && post == pre
                }
            }
        }
    }

    /// Takes (`lock`) or gives back (`!lock`) the write grant on the slot
    /// a descriptor refers to, reporting a denial at once.
    pub fn w_lock(&mut self, fd: usize, lock: bool) -> (r: Result<(), FsError>)
        requires
            old(self).wf(),
        ensures
            final(self).wf(),
            Fs::w_lock_post(*old(self), *final(self), fd as int, lock, r),
    {
        if fd >= TASK_FDS {
            return Err(FsError::PathNotFound);
        }
        let g = self.ltable.get_global_fd(fd);
        if g == EMPTY_FD {
            return Err(FsError::PathNotFound);
        }
        proof {
            assert(g < GLOBALFILETABLE_SIZE);
        }
        let r: Result<(), FsError> = if lock {
            let node = self.ftable.get_w_access(g);
            match node {
                Some(_t) => Ok(()),
                None => Err(FsError::FileLocked),
            }
        } else {
            self.ftable.return_w_access(g);
            Ok(())
        };
        proof {
            assert(self.files().slot_node(g as int) == old(self).files().slot_node(g as int));
            self.lemma_flags_keep_wf(*old(self), g as int);
        }
        r
    }

    /// Takes (`lock`) or gives back (`!lock`) one read grant on the slot a
    /// descriptor refers to, reporting a denial at once.
    pub fn r_lock(&mut self, fd: usize, lock: bool) -> (r: Result<(), FsError>)
        requires
            old(self).wf(),
        ensures
            final(self).wf(),
            Fs::r_lock_post(*old(self), *final(self), fd as int, lock, r),
    {
        if fd >= TASK_FDS {
            return Err(FsError::PathNotFound);
        }
        let g = self.ltable.get_global_fd(fd);
        if g == EMPTY_FD {
            return Err(FsError::PathNotFound);
        }
        proof {
            assert(g < GLOBALFILETABLE_SIZE);
        }
        let r: Result<(), FsError> = if lock {
            let node = self.ftable.get_r_access(g);
            match node {
                Some(_t) => Ok(()),
                None => Err(FsError::FileLocked),
            }
        } else {
            let reads = self.ftable.reads_of(g);
            if reads == 0 {
                return Err(FsError::FileLocked);
            }
            self.ftable.return_r_access(g);
            Ok(())
        };
        proof {
            assert(self.files().slot_node(g as int) == old(self).files().slot_node(g as int));
            self.lemma_flags_keep_wf(*old(self), g as int);
        }
        r
    }

    /// Changing only a slot's grant flags keeps the whole context
    /// well-formed.
    proof fn lemma_flags_keep_wf(self, pre: Fs, g: int)
        requires
            pre.wf(),
            0 <= g < GLOBALFILETABLE_SIZE,
            self.nodes() == pre.nodes(),
            self.locals() == pre.locals(),
            self.files().wf(),
            FileTable::same_but(pre.files(), self.files(), g),
            self.files().slot_name(g) == pre.files().slot_name(g),
            self.files().slot_open(g) == pre.files().slot_open(g),
            self.files().slot_node(g) == pre.files().slot_node(g),
        ensures
            self.wf(),
    {
        assert forall|s2: int|
            0 <= s2 < GLOBALFILETABLE_SIZE && !(#[trigger] self.files().slot_free(s2)) implies
            a_is_file(self.nodes(), self.files().slot_node(s2)) by {
            if s2 != g {
                assert(self.files().slot(s2) == pre.files().slot(s2));
            }
            assert(!pre.files().slot_free(s2));
            assert(a_is_file(pre.nodes(), pre.files().slot_node(s2)));
        }
        assert forall|s2: int| 0 <= s2 < GLOBALFILETABLE_SIZE implies #[trigger] self.files()
            .slot_open(s2) == table_refs(self.locals().rows(), s2) by {
            assert(pre.files().slot_open(s2) == table_refs(pre.locals().rows(), s2));
            if s2 != g {
                assert(self.files().slot(s2) == pre.files().slot(s2));
            }
        }
        assert forall|s2: int|
            0 <= s2 < GLOBALFILETABLE_SIZE && #[trigger] self.files().slot_free(s2) implies
            self.files().slot_open(s2) == 0 by {
            if s2 != g {
                assert(self.files().slot(s2) == pre.files().slot(s2));
            }
            assert(pre.files().slot_free(s2));
        }
    }
}

} // verus!
