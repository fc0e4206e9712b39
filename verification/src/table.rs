//! Open-file tables.
//!
//! The global file table tracks every currently-open path exactly once: a
//! slot records the path's stored name, the handle of its file node, how
//! often the path is open, and the slot's fine-grained read/write access
//! flags. A slot is free exactly when its name is the all-zero buffer.
//!
//! The local file table gives each task a private row of small integer
//! descriptors; a cell holds the index of a global slot, or the sentinel
//! 255 when unused. The row in use is selected by the active task.

use vstd::prelude::*;

use crate::path::empty_name;
use crate::path::names_equal;
use crate::path::name_is_empty;

verus! {

/// Capacity of the global file table.
pub const GLOBALFILETABLE_SIZE: usize = 100;

/// Number of task rows in the local file table.
pub const LOCALFILETABLE_SIZE: usize = 50;

/// Number of descriptors in one task's row.
pub const TASK_FDS: usize = 20;

/// Sentinel marking an unused local descriptor cell.
pub const EMPTY_FD: usize = 255;

/// One global file table slot.
#[derive(Clone, Copy)]
pub struct FileDescription {
    node: usize,
    name: [u8; 32],
    reads: usize,
    open: usize,
    writes: bool,
}

impl FileDescription {
    /// Handle of the file node this slot refers to.
    pub closed spec fn spec_node(self) -> int {
        self.node as int
    }

    /// The stored name of the open path.
    pub closed spec fn spec_name(self) -> Seq<u8> {
        self.name@
    }

    /// Outstanding read-access grants.
    pub closed spec fn spec_reads(self) -> int {
        self.reads as int
    }

    /// How many descriptors share this slot.
    pub closed spec fn spec_open(self) -> int {
        self.open as int
    }

    /// Whether a write-access grant is outstanding.
    pub closed spec fn spec_writes(self) -> bool {
        self.writes
    }

    /// A fresh slot for a newly opened path: open once, no grants.
    pub fn new(node: usize, path: [u8; 32]) -> (r: Self)
        ensures
            r.spec_node() == node,
            r.spec_name() == path@,
            r.spec_reads() == 0,
            r.spec_open() == 1,
            !r.spec_writes(),
    {
        FileDescription { node, name: path, reads: 0, open: 1, writes: false }
    }
}

/// The global file table: one slot per currently-open path.
pub struct FileTable {
    table: Vec<FileDescription>,
}

impl FileTable {
    /// The whole slot at index `i`.
    pub closed spec fn slot(self, i: int) -> FileDescription {
        self.table@[i]
    }

    /// The stored path name of slot `i`.
    pub open spec fn slot_name(self, i: int) -> Seq<u8> {
        self.slot(i).spec_name()
    }

    /// The node handle of slot `i`.
    pub open spec fn slot_node(self, i: int) -> int {
        self.slot(i).spec_node()
    }

    /// The read-grant count of slot `i`.
    pub open spec fn slot_reads(self, i: int) -> int {
        self.slot(i).spec_reads()
    }

    /// The open count of slot `i`.
    pub open spec fn slot_open(self, i: int) -> int {
        self.slot(i).spec_open()
    }

    /// The write flag of slot `i`.
    pub open spec fn slot_writes(self, i: int) -> bool {
        self.slot(i).spec_writes()
    }

    /// Slot `i` is free: its name is the all-zero buffer.
    pub open spec fn slot_free(self, i: int) -> bool {
        self.slot_name(i) == empty_name()
    }

    /// The table has its fixed capacity.
    pub closed spec fn len_ok(self) -> bool {
        self.table@.len() == GLOBALFILETABLE_SIZE
    }

    /// Well-formed: fixed capacity, no open path has two slots, and no
    /// counter below zero.
    pub open spec fn wf(self) -> bool {
        &&& self.len_ok()
        &&& forall|i: int, j: int|
            0 <= i < j < GLOBALFILETABLE_SIZE && !(#[trigger] self.slot_free(i)) && !(
            #[trigger] self.slot_free(j)) ==> self.slot_name(i) != self.slot_name(j)
        &&& forall|i: int|
            0 <= i < GLOBALFILETABLE_SIZE ==> #[trigger] self.slot_reads(i) >= 0
                && self.slot_open(i) >= 0
    }

    /// Some slot holds the name `n`.
    pub open spec fn has_name(self, n: Seq<u8>) -> bool {
        exists|i: int|
            0 <= i < GLOBALFILETABLE_SIZE && !(#[trigger] self.slot_free(i)) && self.slot_name(i)
                == n
    }

    /// The slot holding the name `n`.
    pub open spec fn slot_of(self, n: Seq<u8>) -> int {
        choose|i: int|
            0 <= i < GLOBALFILETABLE_SIZE && !(#[trigger] self.slot_free(i)) && self.slot_name(i)
                == n
    }

    /// Some slot is still free.
    pub open spec fn has_free_slot(self) -> bool {
        exists|i: int| 0 <= i < GLOBALFILETABLE_SIZE && #[trigger] self.slot_free(i)
    }

    /// Some slot in use refers to node handle `node`.
    pub open spec fn refs_node(self, node: int) -> bool {
        exists|i: int|
            0 <= i < GLOBALFILETABLE_SIZE && !(#[trigger] self.slot_free(i)) && self.slot_node(i)
                == node
    }

    /// Every slot except `fd` is unchanged between `pre` and `post`.
    pub open spec fn same_but(pre: Self, post: Self, fd: int) -> bool {
        &&& post.len_ok() == pre.len_ok()
        &&& forall|i: int|
            0 <= i < GLOBALFILETABLE_SIZE && i != fd ==> #[trigger] post.slot(i) == pre.slot(i)
    }

    /// A fresh table: every slot free, every count zero.
    pub fn new() -> (r: Self)
        ensures
            r.wf(),
            forall|i: int| 0 <= i < GLOBALFILETABLE_SIZE ==> #[trigger] r.slot_free(i),
            forall|i: int| 0 <= i < GLOBALFILETABLE_SIZE ==> #[trigger] r.slot_open(i) == 0,
            forall|i: int| 0 <= i < GLOBALFILETABLE_SIZE ==> #[trigger] r.slot_reads(i) == 0,
            forall|i: int| 0 <= i < GLOBALFILETABLE_SIZE ==> !(#[trigger] r.slot_writes(i)),
    {
        let mut table: Vec<FileDescription> = Vec::new();
        let mut i: usize = 0;
        while i < GLOBALFILETABLE_SIZE
            invariant
                0 <= i <= GLOBALFILETABLE_SIZE,
                table@.len() == i,
                forall|j: int| 0 <= j < i ==> (#[trigger] table@[j]).spec_name() == empty_name()
                    && table@[j].spec_open() == 0 && table@[j].spec_reads() == 0
                    && !table@[j].spec_writes(),
            decreases GLOBALFILETABLE_SIZE - i,
        {
            let e = FileDescription { node: 0, name: [0; 32], reads: 0, open: 0, writes: false };
            assert(e.name@ =~= empty_name());
            table.push(e);
            i += 1;
        }
        FileTable { table }
    }

    /// Finds the slot holding a name; `Some` exactly when the path is open.
    pub fn find_name(&self, name: &[u8; 32]) -> (r: Option<usize>)
        requires
            self.wf(),
            name@ != empty_name(),
        ensures
            match r {
                Some(i) => i < GLOBALFILETABLE_SIZE && self.has_name(name@) && i as int
                    == self.slot_of(name@),
                None => !self.has_name(name@),
            },
    {
        let mut i: usize = 0;
        while i < GLOBALFILETABLE_SIZE
            invariant
                0 <= i <= GLOBALFILETABLE_SIZE,
                self.wf(),
                name@ != empty_name(),
                forall|j: int| 0 <= j < i ==> self.slot_name(j) != name@,
            decreases GLOBALFILETABLE_SIZE - i,
        {
            if names_equal(&self.table[i].name, name) {
                assert(!self.slot_free(i as int));
                assert(self.has_name(name@));
                proof {
                    let k = self.slot_of(name@);
                    if k != i {
                        assert(!self.slot_free(k) && !self.slot_free(i as int));
                    }
                }
                return Some(i);
            }
            i += 1;
        }
        assert forall|k: int|
            0 <= k < GLOBALFILETABLE_SIZE && !(#[trigger] self.slot_free(k)) implies self.slot_name(
            k,
        ) != name@ by {}
        None
    }

    /// Tests whether any slot in use refers to node handle `node`.
    pub fn references_node(&self, node: usize) -> (r: bool)
        requires
            self.wf(),
        ensures
            r == self.refs_node(node as int),
    {
        let mut i: usize = 0;
        while i < GLOBALFILETABLE_SIZE
            invariant
                0 <= i <= GLOBALFILETABLE_SIZE,
                self.wf(),
                forall|j: int|
                    0 <= j < i ==> (#[trigger] self.slot_free(j)) || self.slot_node(j) != node,
            decreases GLOBALFILETABLE_SIZE - i,
        {
            if !name_is_empty(&self.table[i].name) && self.table[i].node == node {
                assert(!self.slot_free(i as int) && self.slot_node(i as int) == node);
                return true;
            }
            i += 1;
        }
        false
    }

    /// Grants read access to slot `fd`: granted exactly when no write grant
    /// is outstanding and the read count can still grow; on a grant the read
    /// count rises and the slot's node handle is handed out.
    pub fn get_r_access(&mut self, fd: usize) -> (r: Option<usize>)
        requires
            fd < GLOBALFILETABLE_SIZE,
            old(self).wf(),
        ensures
            final(self).wf(),
            r is Some <==> (!old(self).slot_writes(fd as int) && old(self).slot_reads(fd as int)
                < usize::MAX),
            Self::same_but(*old(self), *final(self), fd as int),
            match r {
                Some(n) => n as int == old(self).slot_node(fd as int) && final(self).slot_reads(
                    fd as int,
                ) == old(self).slot_reads(fd as int) + 1 && final(self).slot_name(fd as int) == old(self).slot_name(fd as int) && final(self).slot_node(fd as int) == old(self).slot_node(
                    fd as int,
                ) && final(self).slot_open(fd as int) == old(self).slot_open(fd as int) && final(self).slot_writes(fd as int) == old(self).slot_writes(fd as int),
                None => *final(self) == *old(self),
            },
    {
        if self.table[fd].writes {
            return None;
        }
        if self.table[fd].reads == usize::MAX {
            return None;
        }
        let mut e = self.table[fd];
        e.reads = e.reads + 1;
        self.table.set(fd, e);
        assert(self.wf()) by {
            assert(forall|i: int|
                0 <= i < GLOBALFILETABLE_SIZE ==> #[trigger] self.slot_name(i) == old(self).slot_name(i));
            assert forall|a: int, b: int|
                0 <= a < b < GLOBALFILETABLE_SIZE && !(#[trigger] self.slot_free(a)) && !(
                #[trigger] self.slot_free(b)) implies self.slot_name(a) != self.slot_name(b) by {
                assert(!old(self).slot_free(a) && !old(self).slot_free(b));
            }
        }
        Some(self.table[fd].node)
    }

    /// Gives back one read grant on slot `fd`.
    pub fn return_r_access(&mut self, fd: usize)
        requires
            fd < GLOBALFILETABLE_SIZE,
            old(self).wf(),
            old(self).slot_reads(fd as int) >= 1,
        ensures
            final(self).wf(),
            Self::same_but(*old(self), *final(self), fd as int),
            final(self).slot_reads(fd as int) == old(self).slot_reads(fd as int) - 1,
            final(self).slot_name(fd as int) == old(self).slot_name(fd as int),
            final(self).slot_node(fd as int) == old(self).slot_node(fd as int),
            final(self).slot_open(fd as int) == old(self).slot_open(fd as int),
            final(self).slot_writes(fd as int) == old(self).slot_writes(fd as int),
    {
        let mut e = self.table[fd];
        e.reads = e.reads - 1;
        self.table.set(fd, e);
        assert(self.wf()) by {
            assert(forall|i: int|
                0 <= i < GLOBALFILETABLE_SIZE ==> #[trigger] self.slot_name(i) == old(self).slot_name(i));
            assert forall|a: int, b: int|
                0 <= a < b < GLOBALFILETABLE_SIZE && !(#[trigger] self.slot_free(a)) && !(
                #[trigger] self.slot_free(b)) implies self.slot_name(a) != self.slot_name(b) by {
                assert(!old(self).slot_free(a) && !old(self).slot_free(b));
            }
        }
    }

    /// Grants write access to slot `fd`: granted exactly when neither a
    /// write grant nor any read grant is outstanding; on a grant the write
    /// flag is set and the slot's node handle is handed out.
    pub fn get_w_access(&mut self, fd: usize) -> (r: Option<usize>)
        requires
            fd < GLOBALFILETABLE_SIZE,
            old(self).wf(),
        ensures
            final(self).wf(),
            r is Some <==> (!old(self).slot_writes(fd as int) && old(self).slot_reads(fd as int)
                == 0),
            Self::same_but(*old(self), *final(self), fd as int),
            match r {
                Some(n) => n as int == old(self).slot_node(fd as int) && final(self).slot_writes(
                    fd as int,
                ) && final(self).slot_name(fd as int) == old(self).slot_name(fd as int) && final(self).slot_node(fd as int) == old(self).slot_node(fd as int) && final(self).slot_open(
                    fd as int,
                ) == old(self).slot_open(fd as int) && final(self).slot_reads(fd as int) == old(self).slot_reads(fd as int),
                None => *final(self) == *old(self),
            },
    {
        if self.table[fd].writes {
            return None;
        }
        if self.table[fd].reads != 0 {
            return None;
        }
        let mut e = self.table[fd];
        e.writes = true;
        self.table.set(fd, e);
        assert(self.wf()) by {
            assert(forall|i: int|
                0 <= i < GLOBALFILETABLE_SIZE ==> #[trigger] self.slot_name(i) == old(self).slot_name(i));
            assert forall|a: int, b: int|
                0 <= a < b < GLOBALFILETABLE_SIZE && !(#[trigger] self.slot_free(a)) && !(
                #[trigger] self.slot_free(b)) implies self.slot_name(a) != self.slot_name(b) by {
                assert(!old(self).slot_free(a) && !old(self).slot_free(b));
            }
        }
        Some(self.table[fd].node)
    }

    /// Clears the write flag of slot `fd`.
    pub fn return_w_access(&mut self, fd: usize)
        requires
            fd < GLOBALFILETABLE_SIZE,
            old(self).wf(),
        ensures
            final(self).wf(),
            Self::same_but(*old(self), *final(self), fd as int),
            !final(self).slot_writes(fd as int),
            final(self).slot_reads(fd as int) == old(self).slot_reads(fd as int),
            final(self).slot_name(fd as int) == old(self).slot_name(fd as int),
            final(self).slot_node(fd as int) == old(self).slot_node(fd as int),
            final(self).slot_open(fd as int) == old(self).slot_open(fd as int),
    {
        let mut e = self.table[fd];
        e.writes = false;
        self.table.set(fd, e);
        assert(self.wf()) by {
            assert(forall|i: int|
                0 <= i < GLOBALFILETABLE_SIZE ==> #[trigger] self.slot_name(i) == old(self).slot_name(i));
            assert forall|a: int, b: int|
                0 <= a < b < GLOBALFILETABLE_SIZE && !(#[trigger] self.slot_free(a)) && !(
                #[trigger] self.slot_free(b)) implies self.slot_name(a) != self.slot_name(b) by {
                assert(!old(self).slot_free(a) && !old(self).slot_free(b));
            }
        }
    }

    /// Records a newly opened path in the first free slot; `Some` of its
    /// index, or `None` exactly when the table is full.
    pub fn add_file_description(&mut self, node: usize, file_name: [u8; 32]) -> (r: Option<usize>)
        requires
            old(self).wf(),
            file_name@ != empty_name(),
            !old(self).has_name(file_name@),
        ensures
            final(self).wf(),
            r is Some <==> old(self).has_free_slot(),
            match r {
                Some(i) => i < GLOBALFILETABLE_SIZE && old(self).slot_free(i as int) && (
                forall|j: int| 0 <= j < i ==> !old(self).slot_free(j)) && Self::same_but(
                    *old(self),
                    *final(self),
                    i as int,
                ) && final(self).slot_name(i as int) == file_name@ && final(self).slot_node(
                    i as int,
                ) == node && final(self).slot_reads(i as int) == 0 && final(self).slot_open(
                    i as int,
                ) == 1 && !final(self).slot_writes(i as int) && final(self).has_name(file_name@)
                    && final(self).slot_of(file_name@) == i,
                None => *final(self) == *old(self),
            },
    {
        let mut i: usize = 0;
        while i < GLOBALFILETABLE_SIZE
            invariant
                0 <= i <= GLOBALFILETABLE_SIZE,
                self == old(self),
                self.wf(),
                file_name@ != empty_name(),
                !self.has_name(file_name@),
                forall|j: int| 0 <= j < i ==> !(#[trigger] self.slot_free(j)),
            decreases GLOBALFILETABLE_SIZE - i,
        {
            if name_is_empty(&self.table[i].name) {
                let ghost pre = *self;
                let ghost k = i as int;
                assert(pre.slot_free(k));
                self.table.set(i, FileDescription::new(node, file_name));
                proof {
                    assert(forall|m: int|
                        0 <= m < GLOBALFILETABLE_SIZE && m != k ==> #[trigger] self.slot(m)
                            == pre.slot(m));
                    assert(!self.slot_free(k));
                    assert(self.wf()) by {
                        assert forall|a: int, b: int|
                            0 <= a < b < GLOBALFILETABLE_SIZE && !(#[trigger] self.slot_free(a))
                                && !(#[trigger] self.slot_free(b)) implies self.slot_name(a)
                            != self.slot_name(b) by {
                            if a != k && b != k {
                                assert(!pre.slot_free(a) && !pre.slot_free(b));
                            } else if a == k && !self.slot_free(b) {
                                assert(!pre.slot_free(b));
                                assert(!pre.has_name(file_name@) ==> pre.slot_name(b)
                                    != file_name@);
                            } else if b == k && !self.slot_free(a) {
                                assert(!pre.slot_free(a));
                                assert(!pre.has_name(file_name@) ==> pre.slot_name(a)
                                    != file_name@);
                            }
                        }
                    }
                    assert(self.has_name(file_name@));
                    assert(self.slot_of(file_name@) == k) by {
                        let c = self.slot_of(file_name@);
                        if c != k {
                            assert(!pre.slot_free(c) && pre.slot_name(c) == file_name@);
                        }
                    }
                }
                return Some(i);
            }
            i += 1;
        }
        assert(!self.has_free_slot());
        None
    }

    /// Raises the open count of slot `fd` by one.
    pub fn incr_open(&mut self, fd: usize)
        requires
            fd < GLOBALFILETABLE_SIZE,
            old(self).wf(),
            old(self).slot_open(fd as int) < usize::MAX,
        ensures
            final(self).wf(),
            Self::same_but(*old(self), *final(self), fd as int),
            final(self).slot_open(fd as int) == old(self).slot_open(fd as int) + 1,
            final(self).slot_name(fd as int) == old(self).slot_name(fd as int),
            final(self).slot_node(fd as int) == old(self).slot_node(fd as int),
            final(self).slot_reads(fd as int) == old(self).slot_reads(fd as int),
            final(self).slot_writes(fd as int) == old(self).slot_writes(fd as int),
    {
        let mut e = self.table[fd];
        e.open = e.open + 1;
        self.table.set(fd, e);
        assert(self.wf()) by {
            assert(forall|i: int|
                0 <= i < GLOBALFILETABLE_SIZE ==> #[trigger] self.slot_name(i) == old(self).slot_name(i));
            assert forall|a: int, b: int|
                0 <= a < b < GLOBALFILETABLE_SIZE && !(#[trigger] self.slot_free(a)) && !(
                #[trigger] self.slot_free(b)) implies self.slot_name(a) != self.slot_name(b) by {
                assert(!old(self).slot_free(a) && !old(self).slot_free(b));
            }
        }
    }

    /// Lowers the open count of slot `fd` by one.
    pub fn decr_open(&mut self, fd: usize)
        requires
            fd < GLOBALFILETABLE_SIZE,
            old(self).wf(),
            old(self).slot_open(fd as int) >= 1,
        ensures
            final(self).wf(),
            Self::same_but(*old(self), *final(self), fd as int),
            final(self).slot_open(fd as int) == old(self).slot_open(fd as int) - 1,
            final(self).slot_name(fd as int) == old(self).slot_name(fd as int),
            final(self).slot_node(fd as int) == old(self).slot_node(fd as int),
            final(self).slot_reads(fd as int) == old(self).slot_reads(fd as int),
            final(self).slot_writes(fd as int) == old(self).slot_writes(fd as int),
    {
        let mut e = self.table[fd];
        e.open = e.open - 1;
        self.table.set(fd, e);
        assert(self.wf()) by {
            assert(forall|i: int|
                0 <= i < GLOBALFILETABLE_SIZE ==> #[trigger] self.slot_name(i) == old(self).slot_name(i));
            assert forall|a: int, b: int|
                0 <= a < b < GLOBALFILETABLE_SIZE && !(#[trigger] self.slot_free(a)) && !(
                #[trigger] self.slot_free(b)) implies self.slot_name(a) != self.slot_name(b) by {
                assert(!old(self).slot_free(a) && !old(self).slot_free(b));
            }
        }
    }

    /// Resets slot `fd` to a free slot.
    pub fn free_slot(&mut self, fd: usize)
        requires
            fd < GLOBALFILETABLE_SIZE,
            old(self).wf(),
        ensures
            final(self).wf(),
            Self::same_but(*old(self), *final(self), fd as int),
            final(self).slot_free(fd as int),
            final(self).slot_open(fd as int) == 0,
            final(self).slot_reads(fd as int) == 0,
            !final(self).slot_writes(fd as int),
    {
        let e = FileDescription { node: 0, name: [0; 32], reads: 0, open: 0, writes: false };
        assert(e.name@ =~= empty_name());
        self.table.set(fd, e);
        assert(self.wf()) by {
            assert forall|a: int, b: int|
                0 <= a < b < GLOBALFILETABLE_SIZE && !(#[trigger] self.slot_free(a)) && !(
                #[trigger] self.slot_free(b)) implies self.slot_name(a) != self.slot_name(b) by {
                assert(!old(self).slot_free(a) && !old(self).slot_free(b));
            }
        }
    }

    /// The open count of slot `fd`.
    pub fn open_of(&self, fd: usize) -> (r: usize)
        requires
            fd < GLOBALFILETABLE_SIZE,
            self.len_ok(),
        ensures
            r as int == self.slot_open(fd as int),
    {
        self.table[fd].open
    }

    /// The read-grant count of slot `fd`.
    pub fn reads_of(&self, fd: usize) -> (r: usize)
        requires
            fd < GLOBALFILETABLE_SIZE,
            self.len_ok(),
        ensures
            r as int == self.slot_reads(fd as int),
    {
        self.table[fd].reads
    }
}

/// How many cells of one descriptor row refer to global slot `s`.
pub open spec fn row_refs(row: Seq<usize>, s: int) -> nat
    decreases row.len(),
{
    if row.len() == 0 {
        0
    } else {
        (if row[0] == s {
            1nat
        } else {
            0nat
        }) + row_refs(row.drop_first(), s)
    }
}

/// How many cells of the whole local table refer to global slot `s`.
pub open spec fn table_refs(rows: Seq<Seq<usize>>, s: int) -> nat
    decreases rows.len(),
{
    if rows.len() == 0 {
        0
    } else {
        row_refs(rows[0], s) + table_refs(rows.drop_first(), s)
    }
}

/// Updating one cell moves the reference count by the difference of what
/// leaves and what enters.
pub proof fn lemma_row_refs_update(row: Seq<usize>, c: int, v: usize, s: int)
    requires
        0 <= c < row.len(),
    ensures
        row_refs(row.update(c, v), s) as int == row_refs(row, s) as int - (if row[c] == s {
            1int
        } else {
            0int
        }) + (if v == s {
            1int
        } else {
            0int
        }),
    decreases row.len(),
{
    if c == 0 {
        assert(row.update(0, v).drop_first() =~= row.drop_first());
        assert(row.update(0, v)[0] == v);
    } else {
        assert(row.update(c, v)[0] == row[0]);
        assert(row.update(c, v).drop_first() =~= row.drop_first().update(c - 1, v));
        lemma_row_refs_update(row.drop_first(), c - 1, v, s);
    }
}

/// Updating one cell of one row moves the whole table's reference count the
/// same way.
pub proof fn lemma_table_refs_update(rows: Seq<Seq<usize>>, r: int, c: int, v: usize, s: int)
    requires
        0 <= r < rows.len(),
        0 <= c < rows[r].len(),
    ensures
        table_refs(rows.update(r, rows[r].update(c, v)), s) as int == table_refs(rows, s) as int - (
        if rows[r][c] == s {
            1int
        } else {
            0int
        }) + (if v == s {
            1int
        } else {
            0int
        }),
    decreases rows.len(),
{
    let upd = rows.update(r, rows[r].update(c, v));
    if r == 0 {
        assert(upd[0] == rows[0].update(c, v));
        assert(upd.drop_first() =~= rows.drop_first());
        lemma_row_refs_update(rows[0], c, v, s);
    } else {
        assert(upd[0] == rows[0]);
        assert(upd.drop_first() =~= rows.drop_first().update(r - 1, rows[r].update(c, v)));
        assert(rows.drop_first()[r - 1] == rows[r]);
        lemma_table_refs_update(rows.drop_first(), r - 1, c, v, s);
    }
}

/// A row referring to `s` nowhere counts zero references.
pub proof fn lemma_row_refs_zero(row: Seq<usize>, s: int)
    requires
        forall|c: int| 0 <= c < row.len() ==> row[c] != s,
    ensures
        row_refs(row, s) == 0,
    decreases row.len(),
{
    if row.len() > 0 {
        assert(forall|c: int|
            0 <= c < row.drop_first().len() ==> #[trigger] row.drop_first()[c] == row[c + 1]);
        lemma_row_refs_zero(row.drop_first(), s);
    }
}

/// A table referring to `s` nowhere counts zero references.
pub proof fn lemma_table_refs_zero(rows: Seq<Seq<usize>>, s: int)
    requires
        forall|r: int, c: int|
            0 <= r < rows.len() && 0 <= c < rows[r].len() ==> #[trigger] rows[r][c] != s,
    ensures
        table_refs(rows, s) == 0,
    decreases rows.len(),
{
    if rows.len() > 0 {
        assert(forall|c: int| 0 <= c < rows[0].len() ==> rows[0][c] != s);
        lemma_row_refs_zero(rows[0], s);
        assert(forall|r: int, c: int|
            0 <= r < rows.drop_first().len() && 0 <= c < rows.drop_first()[r].len()
                ==> #[trigger] rows.drop_first()[r][c] == rows[r + 1][c]);
        lemma_table_refs_zero(rows.drop_first(), s);
    }
}

/// A cell referring to `s` forces at least one counted reference.
pub proof fn lemma_row_refs_pos(row: Seq<usize>, c: int, s: int)
    requires
        0 <= c < row.len(),
        row[c] == s,
    ensures
        row_refs(row, s) >= 1,
    decreases row.len(),
{
    if c > 0 {
        assert(row.drop_first()[c - 1] == row[c]);
        lemma_row_refs_pos(row.drop_first(), c - 1, s);
    }
}

/// A cell of the table referring to `s` forces at least one counted
/// reference.
pub proof fn lemma_table_refs_pos(rows: Seq<Seq<usize>>, r: int, c: int, s: int)
    requires
        0 <= r < rows.len(),
        0 <= c < rows[r].len(),
        rows[r][c] == s,
    ensures
        table_refs(rows, s) >= 1,
    decreases rows.len(),
{
    if r == 0 {
        lemma_row_refs_pos(rows[0], c, s);
    } else {
        assert(rows.drop_first()[r - 1] == rows[r]);
        lemma_table_refs_pos(rows.drop_first(), r - 1, c, s);
    }
}

/// A row counts at most as many references as it has cells.
pub proof fn lemma_row_refs_le(row: Seq<usize>, s: int)
    ensures
        row_refs(row, s) <= row.len(),
    decreases row.len(),
{
    if row.len() > 0 {
        lemma_row_refs_le(row.drop_first(), s);
    }
}

/// A table of equal-width rows counts at most one reference per cell.
pub proof fn lemma_table_refs_le(rows: Seq<Seq<usize>>, s: int, w: nat)
    requires
        forall|r: int| 0 <= r < rows.len() ==> (#[trigger] rows[r]).len() == w,
    ensures
        table_refs(rows, s) <= rows.len() * w,
    decreases rows.len(),
{
    if rows.len() > 0 {
        lemma_row_refs_le(rows[0], s);
        assert(forall|r: int|
            0 <= r < rows.drop_first().len() ==> (#[trigger] rows.drop_first()[r]) == rows[r + 1]);
        lemma_table_refs_le(rows.drop_first(), s, w);
        assert(rows.len() * w == (rows.len() - 1) * w + w) by (nonlinear_arith);
    }
}

/// The per-task descriptor table: one row of descriptor cells per task.
pub struct LocalFileTable {
    table: Vec<Vec<usize>>,
    active_task: u64,
}

impl LocalFileTable {
    /// The rows of descriptor cells.
    pub closed spec fn rows(self) -> Seq<Seq<usize>> {
        self.table@.map_values(|r: Vec<usize>| r@)
    }

    /// The cell at row `r`, column `c`.
    pub open spec fn cell(self, r: int, c: int) -> usize {
        self.rows()[r][c]
    }

    /// The row selected by the active task.
    pub closed spec fn active(self) -> int {
        self.active_task as int
    }

    /// Well-formed: fixed shape, a valid active row, and every cell either
    /// the sentinel or a global slot index.
    pub open spec fn wf(self) -> bool {
        &&& self.rows().len() == LOCALFILETABLE_SIZE
        &&& forall|r: int|
            0 <= r < LOCALFILETABLE_SIZE ==> (#[trigger] self.rows()[r]).len() == TASK_FDS
        &&& 0 <= self.active() < LOCALFILETABLE_SIZE
        &&& forall|r: int, c: int|
            0 <= r < LOCALFILETABLE_SIZE && 0 <= c < TASK_FDS ==> (#[trigger] self.cell(r, c)
                == EMPTY_FD || self.cell(r, c) < GLOBALFILETABLE_SIZE)
    }

    /// A fresh table: every cell unused, task 0 active.
    pub fn new() -> (r: Self)
        ensures
            r.wf(),
            r.active() == 0,
            forall|a: int, c: int|
                0 <= a < LOCALFILETABLE_SIZE && 0 <= c < TASK_FDS ==> #[trigger] r.cell(a, c)
                    == EMPTY_FD,
    {
        let mut table: Vec<Vec<usize>> = Vec::new();
        let mut r: usize = 0;
        while r < LOCALFILETABLE_SIZE
            invariant
                0 <= r <= LOCALFILETABLE_SIZE,
                table@.len() == r,
                forall|a: int| 0 <= a < r ==> (#[trigger] table@[a])@.len() == TASK_FDS,
                forall|a: int, c: int|
                    0 <= a < r && 0 <= c < TASK_FDS ==> #[trigger] table@[a]@[c] == EMPTY_FD,
            decreases LOCALFILETABLE_SIZE - r,
        {
            let mut row: Vec<usize> = Vec::new();
            let mut c: usize = 0;
            while c < TASK_FDS
                invariant
                    0 <= c <= TASK_FDS,
                    row@.len() == c,
                    forall|j: int| 0 <= j < c ==> #[trigger] row@[j] == EMPTY_FD,
                decreases TASK_FDS - c,
            {
                row.push(EMPTY_FD);
                c += 1;
            }
            table.push(row);
            r += 1;
        }
        LocalFileTable { table, active_task: 0 }
    }

    /// Selects the active task's row.
    pub fn set_active(&mut self, id: u64)
        requires
            old(self).wf(),
            id < LOCALFILETABLE_SIZE as u64,
        ensures
            final(self).wf(),
            final(self).active() == id,
            final(self).rows() == old(self).rows(),
    {
        self.active_task = id;
        proof {
            assert(self.rows() =~= old(self).rows());
            assert forall|r: int| 0 <= r < LOCALFILETABLE_SIZE implies (
            #[trigger] self.rows()[r]).len() == TASK_FDS by {
                assert(old(self).rows()[r].len() == TASK_FDS);
            }
            assert forall|r: int, c: int|
                0 <= r < LOCALFILETABLE_SIZE && 0 <= c < TASK_FDS implies (#[trigger] self.cell(
                r,
                c,
            ) == EMPTY_FD || self.cell(r, c) < GLOBALFILETABLE_SIZE) by {
                assert(old(self).cell(r, c) == EMPTY_FD || old(self).cell(r, c)
                    < GLOBALFILETABLE_SIZE);
            }
        }
    }

    /// Stores a global slot index in the first unused cell of the active
    /// row and returns the cell index as the local descriptor; `None`
    /// exactly when the row is full, and then nothing changes.
    pub fn add_entry(&mut self, global_file_desc: usize) -> (r: Option<usize>)
        requires
            old(self).wf(),
            global_file_desc < GLOBALFILETABLE_SIZE,
        ensures
            final(self).wf(),
            final(self).active() == old(self).active(),
            r is Some <==> (exists|c: int|
                0 <= c < TASK_FDS && #[trigger] old(self).cell(old(self).active(), c) == EMPTY_FD),
            match r {
                Some(loc) => loc < TASK_FDS && old(self).cell(old(self).active(), loc as int)
                    == EMPTY_FD && (forall|c2: int|
                    0 <= c2 < loc ==> old(self).cell(old(self).active(), c2) != EMPTY_FD)
                    && final(self).rows() == old(self).rows().update(
                    old(self).active(),
                    old(self).rows()[old(self).active()].update(loc as int, global_file_desc),
                ),
                None => *final(self) == *old(self),
            },
    {
        let a = self.active_task as usize;
        proof {
            assert(self.rows()[a as int] == self.table@[a as int]@);
        }
        let mut c: usize = 0;
        while c < TASK_FDS
            invariant
                0 <= c <= TASK_FDS,
                self == old(self),
                self.wf(),
                a == self.active(),
                global_file_desc < GLOBALFILETABLE_SIZE,
                self.table@.len() == LOCALFILETABLE_SIZE,
                self.table@[a as int]@.len() == TASK_FDS,
                forall|j: int| 0 <= j < c ==> #[trigger] self.cell(a as int, j) != EMPTY_FD,
            decreases TASK_FDS - c,
        {
            proof {
                assert(self.rows()[a as int] == self.table@[a as int]@);
            }
            if self.table[a][c] == EMPTY_FD {
                let ghost pre = *self;
                let row = &mut self.table[a];
                row.set(c, global_file_desc);
                proof {
                    assert(self.rows() =~= pre.rows().update(
                        pre.active(),
                        pre.rows()[pre.active()].update(c as int, global_file_desc),
                    ));
                    assert(old(self).cell(old(self).active(), c as int) == EMPTY_FD);
                    assert forall|r2: int| 0 <= r2 < LOCALFILETABLE_SIZE implies (
                    #[trigger] self.rows()[r2]).len() == TASK_FDS by {
                        assert(pre.rows()[r2].len() == TASK_FDS);
                    }
                    assert forall|r2: int, c2: int|
                        0 <= r2 < LOCALFILETABLE_SIZE && 0 <= c2 < TASK_FDS implies (
                    #[trigger] self.cell(r2, c2) == EMPTY_FD || self.cell(r2, c2)
                        < GLOBALFILETABLE_SIZE) by {
                        if !(r2 == a as int && c2 == c as int) {
                            assert(pre.cell(r2, c2) == EMPTY_FD || pre.cell(r2, c2)
                                < GLOBALFILETABLE_SIZE);
                        }
                    }
                }
                return Some(c);
            }
            c += 1;
        }
        None
    }

    /// The global slot index stored under a local descriptor in the active
    /// row; the sentinel when the descriptor is unused.
    pub fn get_global_fd(&self, fd_loc: usize) -> (r: usize)
        requires
            self.wf(),
            fd_loc < TASK_FDS,
        ensures
            r == self.cell(self.active(), fd_loc as int),
    {
        let a = self.active_task as usize;
        proof {
            assert(self.rows()[a as int] == self.table@[a as int]@);
        }
        self.table[a][fd_loc]
    }

    /// Clears a local descriptor of the active row.
    pub fn delete_entry(&mut self, local_file_desc: usize)
        requires
            old(self).wf(),
            local_file_desc < TASK_FDS,
        ensures
            final(self).wf(),
            final(self).active() == old(self).active(),
            final(self).rows() == old(self).rows().update(
                old(self).active(),
                old(self).rows()[old(self).active()].update(local_file_desc as int, EMPTY_FD),
            ),
    {
        let a = self.active_task as usize;
        proof {
            assert(self.rows()[a as int] == self.table@[a as int]@);
        }
        let ghost pre = *self;
        let row = &mut self.table[a];
        row.set(local_file_desc, EMPTY_FD);
        proof {
            assert(self.rows() =~= pre.rows().update(
                pre.active(),
                pre.rows()[pre.active()].update(local_file_desc as int, EMPTY_FD),
            ));
            assert forall|r2: int| 0 <= r2 < LOCALFILETABLE_SIZE implies (
            #[trigger] self.rows()[r2]).len() == TASK_FDS by {
                assert(pre.rows()[r2].len() == TASK_FDS);
            }
            assert forall|r2: int, c2: int|
                0 <= r2 < LOCALFILETABLE_SIZE && 0 <= c2 < TASK_FDS implies (#[trigger] self.cell(
                r2,
                c2,
            ) == EMPTY_FD || self.cell(r2, c2) < GLOBALFILETABLE_SIZE) by {
                if !(r2 == a as int && c2 == local_file_desc as int) {
                    assert(pre.cell(r2, c2) == EMPTY_FD || pre.cell(r2, c2)
                        < GLOBALFILETABLE_SIZE);
                }
            }
        }
    }

    /// Whether the active row still has an unused cell.
    pub fn has_space(&self) -> (r: bool)
        requires
            self.wf(),
        ensures
            r <==> (exists|c: int|
                0 <= c < TASK_FDS && #[trigger] self.cell(self.active(), c) == EMPTY_FD),
    {
        let a = self.active_task as usize;
        proof {
            assert(self.rows()[a as int] == self.table@[a as int]@);
        }
        let mut c: usize = 0;
        while c < TASK_FDS
            invariant
                0 <= c <= TASK_FDS,
                self.wf(),
                a == self.active(),
                self.table@.len() == LOCALFILETABLE_SIZE,
                self.table@[a as int]@.len() == TASK_FDS,
                forall|j: int| 0 <= j < c ==> #[trigger] self.cell(a as int, j) != EMPTY_FD,
            decreases TASK_FDS - c,
        {
            proof {
                assert(self.rows()[a as int] == self.table@[a as int]@);
            }
            if self.table[a][c] == EMPTY_FD {
                assert(self.cell(a as int, c as int) == EMPTY_FD);
                return true;
            }
            c += 1;
        }
        false
    }
}

} // verus!
