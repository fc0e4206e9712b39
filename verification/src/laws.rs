//! The laws the filesystem keeps, stated across its operations.
//!
//! Each proof function here relates the contracts of several public
//! operations: its parameters are the states and results of a run of calls,
//! its premises their post-relations, and its conclusion what the run must
//! have yielded.

use vstd::prelude::*;

use crate::file::zero_block;
use crate::fs::a_is_dir;
use crate::fs::a_is_file;
use crate::fs::blocked;
use crate::fs::dtable;
use crate::fs::file_at;
use crate::fs::lemma_reach_len_eq;
use crate::fs::lemma_walk_prefix;
use crate::fs::lookup_in;
use crate::fs::reach_len;
use crate::fs::walk;
use crate::fs::Fs;
use crate::fs::FsError;
use crate::path::name_of;
use crate::path::path_names;
use crate::table::EMPTY_FD;
use crate::table::GLOBALFILETABLE_SIZE;
use crate::table::TASK_FDS;

verus! {

/// Creation followed at once by opening the same path: the open succeeds,
/// and every read through the returned descriptor yields only
/// zero-initialized content — block 0 is all zeros and no later block
/// exists. Room for the open is assumed: a free global slot, a free cell
/// in the caller's row, and no slot already holding the path's name.
pub proof fn lemma_create_then_open(
    s0: Fs,
    s1: Fs,
    s2: Fs,
    path: Seq<u8>,
    ro: Option<usize>,
    rr: Option<[u8; 1024]>,
)
    requires
        s0.wf(),
        s1.wf(),
        s2.wf(),
        Fs::create_post(s0, s1, path, false, Result::<(), FsError>::Ok(())),
        !s1.files().has_name(name_of(path)),
        s1.files().has_free_slot(),
        s1.row_space(),
        Fs::open_post(s1, s2, path, ro),
        ro is Some ==> (rr is Some <==> s2.read_ok(ro->Some_0 as int, 0)),
        ro is Some && rr is Some ==> rr->Some_0@ == s2.read_result(ro->Some_0 as int, 0),
    ensures
        ro is Some,
        s2.read_ok(ro->Some_0 as int, 0),
        rr is Some,
        rr->Some_0@ == zero_block(),
        forall|off: int| off >= 1 ==> !s2.read_ok(ro->Some_0 as int, off),
{
    let names = path_names(path);
    let n = names.len() as int;
    let full = name_of(path);
    assert(n >= 1 && Fs::created_ok(s0, s1, names, false));
    let t = walk(s1.nodes(), names, n)->Some_0;
    assert(a_is_file(s1.nodes(), t));
    assert(file_at(s1.nodes(), t)@ == seq![zero_block()]);
    assert(ro is Some);
    let fd = ro->Some_0 as int;
    let sl = s2.files().slot_of(full);
    assert(0 <= sl < GLOBALFILETABLE_SIZE) by {
        assert(s2.files().has_name(full));
    }
    assert(s2.locals().cell(s2.locals().active(), fd) == sl as usize) by {
        assert(Fs::locals_added(s1.locals(), s2.locals(), fd, sl));
        let act = s1.locals().active();
        assert(s2.locals().rows()[act] == s1.locals().rows()[act].update(fd, sl as usize));
    }
    assert(sl as usize != EMPTY_FD);
    assert(s2.files().slot_node(sl) == t);
    assert(s2.nodes() == s1.nodes());
    assert(s2.read_ok(fd, 0));
    assert(s2.read_result(fd, 0) == zero_block());
    assert forall|off: int| off >= 1 implies !s2.read_ok(fd, off) by {
        assert(file_at(s2.nodes(), s2.files().slot_node(s2.slot_of_fd(fd)))@.len() == 1);
    }
}

/// Open reference counting: opening a path that is not yet open and then
/// opening it again yields two distinct descriptors sharing one slot whose
/// open count is two; closing one leaves the slot alive with count one;
/// closing the other frees the slot.
pub proof fn lemma_open_refcount(
    s0: Fs,
    s1: Fs,
    s2: Fs,
    s3: Fs,
    s4: Fs,
    path: Seq<u8>,
    fd1: Option<usize>,
    fd2: Option<usize>,
    rc1: Result<(), FsError>,
    rc2: Result<(), FsError>,
)
    requires
        s0.wf(),
        s1.wf(),
        s2.wf(),
        s3.wf(),
        path_names(path).len() >= 1,
        !s0.files().has_name(name_of(path)),
        Fs::open_post(s0, s1, path, fd1),
        fd1 is Some,
        Fs::open_post(s1, s2, path, fd2),
        fd2 is Some,
        Fs::close_post(s2, s3, fd2->Some_0 as int, rc1),
        Fs::close_post(s3, s4, fd1->Some_0 as int, rc2),
    ensures
        fd1->Some_0 != fd2->Some_0,
        ({
            let sl = s1.files().slot_of(name_of(path));
            &&& s1.files().slot_open(sl) == 1
            &&& s2.files().slot_open(sl) == 2
            &&& rc1 == Result::<(), FsError>::Ok(())
            &&& s3.files().slot_open(sl) == 1
            &&& !s3.files().slot_free(sl)
            &&& rc2 == Result::<(), FsError>::Ok(())
            &&& s4.files().slot_free(sl)
            &&& s4.files().slot_open(sl) == 0
        }),
{
    let full = name_of(path);
    let sl = s1.files().slot_of(full);
    let loc1 = fd1->Some_0 as int;
    let loc2 = fd2->Some_0 as int;
    let act = s0.locals().active();
    assert(s1.files().has_name(full));
    assert(0 <= sl < GLOBALFILETABLE_SIZE);
    assert(s0.files().slot_free(sl) && s1.files().slot_open(sl) == 1 && s1.files().slot_name(sl)
        == full);
    assert(Fs::locals_added(s0.locals(), s1.locals(), loc1, sl));
    assert(s1.locals().active() == act);
    assert(s1.locals().cell(act, loc1) == sl as usize) by {
        assert(s1.locals().rows()[act] == s0.locals().rows()[act].update(loc1, sl as usize));
    }
    // second open reuses the same slot
    assert(s1.files().slot_of(full) == sl);
    assert(s1.row_space()) by {
        assert(Fs::locals_added(s1.locals(), s2.locals(), loc2, sl));
        assert(s1.locals().cell(act, loc2) == EMPTY_FD);
    }
    assert(s2.files().slot_open(sl) == 2);
    assert(s2.locals().active() == act);
    assert(loc1 != loc2) by {
        assert(s1.locals().cell(act, loc2) == EMPTY_FD);
        assert(sl as usize != EMPTY_FD);
    }
    assert(s2.locals().cell(act, loc2) == sl as usize) by {
        assert(s2.locals().rows()[act] == s1.locals().rows()[act].update(loc2, sl as usize));
    }
    assert(s2.locals().cell(act, loc1) == sl as usize) by {
        assert(s2.locals().rows()[act] == s1.locals().rows()[act].update(loc2, sl as usize));
    }
    // first close: the slot stays alive with count one
    assert(rc1 == Result::<(), FsError>::Ok(()));
    assert(s3.files().slot_open(sl) == 1 && !s3.files().slot_free(sl));
    assert(s3.locals().active() == act);
    assert(s3.locals().cell(act, loc1) == sl as usize) by {
        assert(s3.locals().rows()[act] == s2.locals().rows()[act].update(loc2, EMPTY_FD));
    }
    // second close: the slot is freed
    assert(rc2 == Result::<(), FsError>::Ok(()));
    assert(s4.files().slot_free(sl) && s4.files().slot_open(sl) == 0);
}

/// Deleting an open file fails and changes nothing; after its last
/// descriptor — the one slot still referring to the file's node — is
/// closed, deleting the same path succeeds and the path no longer
/// resolves.
pub proof fn lemma_close_then_delete(
    s2: Fs,
    s3: Fs,
    s4: Fs,
    path: Seq<u8>,
    fd: int,
    rc: Result<(), FsError>,
    rd: Result<(), FsError>,
)
    requires
        s2.wf(),
        s3.wf(),
        ({
            let names = path_names(path);
            let n = names.len() as int;
            let p = walk(s2.nodes(), names, n - 1)->Some_0;
            let c = dtable(s2.nodes(), p).node_of(names[n - 1]);
            let sl = s2.locals().cell(s2.locals().active(), fd) as int;
            &&& n >= 1
            &&& !blocked(s2.nodes(), names, n - 1)
            &&& reach_len(s2.nodes(), names, n - 1) == n - 1
            &&& dtable(s2.nodes(), p).contains_name(names[n - 1])
            &&& !a_is_dir(s2.nodes(), c)
            &&& 0 <= fd < TASK_FDS
            &&& s2.locals().cell(s2.locals().active(), fd) != EMPTY_FD
            &&& s2.files().slot_node(sl) == c
            &&& s2.files().slot_open(sl) == 1
            &&& forall|i: int|
                0 <= i < GLOBALFILETABLE_SIZE && !(#[trigger] s2.files().slot_free(i)) && i != sl
                    ==> s2.files().slot_node(i) != c
        }),
        Fs::close_post(s2, s3, fd, rc),
        Fs::delete_post(s3, s4, path, rd),
    ensures
        rc == Result::<(), FsError>::Ok(()),
        rd == Result::<(), FsError>::Ok(()),
        walk(s4.nodes(), path_names(path), path_names(path).len() as int) is None,
{
    let names = path_names(path);
    let n = names.len() as int;
    let p = walk(s2.nodes(), names, n - 1)->Some_0;
    let c = dtable(s2.nodes(), p).node_of(names[n - 1]);
    let sl = s2.locals().cell(s2.locals().active(), fd) as int;
    assert(0 <= sl < GLOBALFILETABLE_SIZE) by {
        assert(s2.locals().cell(s2.locals().active(), fd) == EMPTY_FD || s2.locals().cell(
            s2.locals().active(),
            fd,
        ) < GLOBALFILETABLE_SIZE);
    }
    assert(rc == Result::<(), FsError>::Ok(()));
    assert(s3.files().slot_free(sl));
    assert(!s3.files().refs_node(c)) by {
        if s3.files().refs_node(c) {
            let i = choose|i: int|
                0 <= i < GLOBALFILETABLE_SIZE && !(#[trigger] s3.files().slot_free(i))
                    && s3.files().slot_node(i) == c;
            assert(i != sl);
            assert(s3.files().slot(i) == s2.files().slot(i));
            assert(!s2.files().slot_free(i) && s2.files().slot_node(i) == c);
        }
    }
    assert(s3.nodes() == s2.nodes());
    assert(rd == Result::<(), FsError>::Ok(()));
    assert(Fs::deleted_ok(s3, s4, names));
}

/// Mutual exclusion: while a write grant is outstanding on the slot a
/// descriptor refers to, a read through that descriptor returns nothing,
/// a write through it is denied as locked, and so is a further write-grant
/// attempt.
pub proof fn lemma_write_grant_excludes(
    s1: Fs,
    s2: Fs,
    s3: Fs,
    fd: int,
    offset: int,
    data: Seq<u8>,
    append_flag: bool,
    rr: Option<[u8; 1024]>,
    rw: Result<(), FsError>,
    rl: Result<(), FsError>,
)
    requires
        0 <= fd < TASK_FDS,
        s1.locals().cell(s1.locals().active(), fd) != EMPTY_FD,
        s1.files().slot_writes(s1.slot_of_fd(fd)),
        rr is Some <==> s1.read_ok(fd, offset),
        Fs::write_post_fs(s1, s2, fd, data, append_flag, rw),
        Fs::w_lock_post(s1, s3, fd, true, rl),
    ensures
        rr is None,
        rw == Result::<(), FsError>::Err(FsError::FileLocked),
        s2 == s1,
        rl == Result::<(), FsError>::Err(FsError::FileLocked),
        s3 == s1,
{
}

/// Path auto-creation: after a successful creation every non-terminal
/// component of the path is a directory and the terminal a file; creating
/// the same path again fails as already existing and changes nothing.
pub proof fn lemma_create_twice(
    s0: Fs,
    s1: Fs,
    s2: Fs,
    path: Seq<u8>,
    r2: Result<(), FsError>,
)
    requires
        s0.wf(),
        s1.wf(),
        Fs::create_post(s0, s1, path, false, Result::<(), FsError>::Ok(())),
        Fs::create_post(s1, s2, path, false, r2),
    ensures
        ({
            let names = path_names(path);
            let n = names.len() as int;
            &&& forall|j: int|
                0 <= j < n ==> (#[trigger] walk(s1.nodes(), names, j)) is Some && a_is_dir(
                    s1.nodes(),
                    walk(s1.nodes(), names, j)->Some_0,
                )
            &&& a_is_file(s1.nodes(), walk(s1.nodes(), names, n)->Some_0)
        }),
        r2 == Result::<(), FsError>::Err(FsError::AlreadyExists),
        s2 == s1,
{
    let names = path_names(path);
    let n = names.len() as int;
    let a = s1.nodes();
    assert(n >= 1 && Fs::created_ok(s0, s1, names, false));
    assert(walk(a, names, n) is Some);
    assert forall|j: int| 0 <= j < n implies (#[trigger] walk(a, names, j)) is Some && a_is_dir(
        a,
        walk(a, names, j)->Some_0,
    ) by {
        lemma_walk_prefix(a, names, n, j);
        lemma_walk_prefix(a, names, n, j + 1);
        assert(walk(a, names, j + 1) == lookup_in(a, walk(a, names, j)->Some_0, names[j]));
    }
    assert(!blocked(a, names, n - 1));
    lemma_walk_prefix(a, names, n, n - 1);
    lemma_reach_len_eq(a, names, n - 1, n - 1);
    let p = walk(a, names, n - 1)->Some_0;
    assert(dtable(a, p).contains_name(names[n - 1])) by {
        assert(walk(a, names, n) == lookup_in(a, p, names[n - 1]));
    }
}

} // verus!
