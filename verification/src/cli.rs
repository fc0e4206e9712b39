//! Command-line layer.
//!
//! The shell collects key presses into a fixed command buffer and, on a
//! newline, parses the buffer: the first space-separated field is the
//! operation, the second the path argument, and everything after it the
//! free-text argument (each further field joined back with the space that
//! separated it). A path argument that does not start with `/` is taken
//! relative to the working directory. Printing and command dispatch stay
//! with the caller; this layer owns the buffer and the parsing.

use vstd::prelude::*;

use crate::fs::files_unchanged;
use crate::fs::Fs;
use crate::fs::FsError;

verus! {

/// Capacity of the command buffer.
pub const BUFFER_SIZE: usize = 800;

/// The fields of a line split on spaces; empty fields are kept, and even an
/// empty line has one (empty) field.
pub open spec fn fields_acc(p: Seq<u8>, cur: Seq<u8>) -> Seq<Seq<u8>>
    decreases p.len(),
{
    if p.len() == 0 {
        seq![cur]
    } else if p[0] == 32 {
        seq![cur] + fields_acc(p.skip(1), Seq::empty())
    } else {
        fields_acc(p.skip(1), cur.push(p[0]))
    }
}

/// The space-separated fields of a line.
pub open spec fn fields(line: Seq<u8>) -> Seq<Seq<u8>> {
    fields_acc(line, Seq::empty())
}

/// A split always yields at least one field.
pub proof fn lemma_fields_len(p: Seq<u8>, cur: Seq<u8>)
    ensures
        fields_acc(p, cur).len() >= 1,
    decreases p.len(),
{
    if p.len() == 0 {
    } else if p[0] == 32 {
        lemma_fields_len(p.skip(1), Seq::empty());
    } else {
        lemma_fields_len(p.skip(1), cur.push(p[0]));
    }
}

/// The operation: the first field of the line.
pub open spec fn op_of(line: Seq<u8>) -> Seq<u8> {
    fields(line)[0]
}

/// The path argument: the second field, or empty when there is none.
pub open spec fn arg_of(line: Seq<u8>) -> Seq<u8> {
    if fields(line).len() > 1 {
        fields(line)[1]
    } else {
        Seq::empty()
    }
}

/// The remaining fields joined back, each preceded by the space that
/// separated it.
pub open spec fn rest_join(fs: Seq<Seq<u8>>, i: int) -> Seq<u8>
    decreases fs.len() - i,
{
    if i < 0 || i >= fs.len() {
        Seq::empty()
    } else {
        seq![32u8] + fs[i] + rest_join(fs, i + 1)
    }
}

/// The free-text argument: every field after the path argument, joined.
pub open spec fn rest_of(line: Seq<u8>) -> Seq<u8> {
    rest_join(fields(line), 2)
}

/// ASCII whitespace.
pub open spec fn is_ws(b: u8) -> bool {
    b == 32 || b == 9 || b == 10 || b == 13
}

/// A byte string without its leading ASCII whitespace.
pub open spec fn trim_front(s: Seq<u8>) -> Seq<u8>
    decreases s.len(),
{
    if s.len() == 0 {
        s
    } else if is_ws(s[0]) {
        trim_front(s.skip(1))
    } else {
        s
    }
}

/// A byte string without its trailing slashes.
pub open spec fn trim_end_slash(s: Seq<u8>) -> Seq<u8>
    decreases s.len(),
{
    if s.len() == 0 {
        s
    } else if s[s.len() - 1] == 47 {
        trim_end_slash(s.take(s.len() - 1))
    } else {
        s
    }
}

/// How a path argument combines with the working directory: an absolute
/// argument stands alone; anything else is appended to the working
/// directory with a single separating slash.
pub open spec fn resolved_path(wd: Seq<u8>, arg: Seq<u8>) -> Seq<u8> {
    if arg.len() > 0 && arg[0] == 47 {
        arg
    } else {
        trim_end_slash(wd) + seq![47u8] + trim_front(arg)
    }
}

/// What one key press did to the command buffer.
pub enum CliEvent {
    /// A newline: the buffered line is ready to parse.
    Execute,
    /// A backspace: the line was abandoned and the buffer cleared.
    Abort,
    /// An ordinary byte was stored.
    Stored,
    /// The byte filled the buffer; the line was dropped and the buffer
    /// cleared.
    Overflow,
}

/// The shell's state: the working directory and the command being typed.
pub struct Cli {
    working_dir: Vec<u8>,
    command: [u8; 800],
    cursor_pos: usize,
}

impl Cli {
    /// The line typed so far.
    pub closed spec fn line(self) -> Seq<u8> {
        self.command@.take(self.cursor_pos as int)
    }

    /// The working directory.
    pub closed spec fn wd(self) -> Seq<u8> {
        self.working_dir@
    }

    /// The cursor stays strictly inside the buffer.
    pub closed spec fn wf(self) -> bool {
        self.cursor_pos < BUFFER_SIZE
    }

    /// A fresh shell: empty line, empty working directory.
    pub fn new() -> (r: Cli)
        ensures
            r.wf(),
            r.line() == Seq::<u8>::empty(),
            r.wd() == Seq::<u8>::empty(),
    {
        let r = Cli { command: [0; 800], working_dir: Vec::new(), cursor_pos: 0 };
        proof {
            assert(r.line() =~= Seq::<u8>::empty());
        }
        r
    }

    /// Replaces the working directory.
    pub fn set_working_dir(&mut self, wd: Vec<u8>)
        requires
            old(self).wf(),
        ensures
            final(self).wf(),
            final(self).wd() == wd@,
            final(self).line() == old(self).line(),
    {
        self.working_dir = wd;
    }

    /// Hands out the working directory.
    pub fn working_dir(&self) -> (r: &Vec<u8>)
        ensures
            r@ == self.wd(),
    {
        &self.working_dir
    }

    /// Clears the typed line.
    pub fn reset(&mut self)
        ensures
            final(self).wf(),
            final(self).line() == Seq::<u8>::empty(),
            final(self).wd() == old(self).wd(),
    {
        self.command = [0; 800];
        self.cursor_pos = 0;
        proof {
            assert(self.line() =~= Seq::<u8>::empty());
        }
    }

    /// Takes one key press: a newline asks the caller to parse the line, a
    /// backspace abandons it, anything else is stored — and a byte that
    /// fills the buffer drops the whole line.
    pub fn add_char(&mut self, byte: u8) -> (r: CliEvent)
        requires
            old(self).wf(),
        ensures
            final(self).wf(),
            final(self).wd() == old(self).wd(),
            byte == 10 ==> r is Execute && final(self).line() == old(self).line(),
            byte == 8 ==> r is Abort && final(self).line() == Seq::<u8>::empty(),
            byte != 10 && byte != 8 && old(self).line().len() + 1 < BUFFER_SIZE ==> r is Stored
                && final(self).line() == old(self).line().push(byte),
            byte != 10 && byte != 8 && old(self).line().len() + 1 == BUFFER_SIZE ==> r is Overflow
                && final(self).line() == Seq::<u8>::empty(),
    {
        if byte == 10 {
            return CliEvent::Execute;
        }
        if byte == 8 {
            self.reset();
            return CliEvent::Abort;
        }
        let cursor = self.cursor_pos;
        self.command[cursor] = byte;
        self.cursor_pos = cursor + 1;
        proof {
            assert(self.line() =~= old(self).line().push(byte));
        }
        if self.cursor_pos == BUFFER_SIZE {
            self.reset();
            return CliEvent::Overflow;
        }
        CliEvent::Stored
    }

    /// Parses the typed line into the operation, the path argument resolved
    /// against the working directory, and the free-text argument.
    pub fn parse_command(&self) -> (r: (Vec<u8>, Vec<u8>, Vec<u8>))
        requires
            self.wf(),
        ensures
            r.0@ == op_of(self.line()),
            r.1@ == resolved_path(self.wd(), arg_of(self.line())),
            r.2@ == rest_of(self.line()),
    {
        let line = &self.command[0..self.cursor_pos];
        let fs = split_fields(line);
        proof {
            lemma_fields_len(self.line(), Seq::empty());
        }
        let op = copy_bytes(fs[0].as_slice());
        let arg: Vec<u8> = if fs.len() > 1 {
            copy_bytes(fs[1].as_slice())
        } else {
            Vec::new()
        };
        proof {
            assert(arg@ == arg_of(self.line()));
        }
        let path = resolve_path(self.working_dir.as_slice(), arg.as_slice());
        let mut rest: Vec<u8> = Vec::new();
        let mut i: usize = 2;
        proof {
            if i >= fs@.len() {
                assert(rest@ + rest_join(fs.deep_view(), i as int) =~= rest_of(self.line()));
            }
        }
        while i < fs.len()
            invariant
                fs.deep_view() == fields(self.line()),
                2 <= i <= fs@.len() || (i == 2 && fs@.len() <= 2),
                rest_of(self.line()) == rest@ + rest_join(fs.deep_view(), i as int),
            decreases fs@.len() - i,
        {
            rest.push(32);
            let ghost mid = rest@;
            let mut j: usize = 0;
            while j < fs[i].len()
                invariant
                    fs.deep_view() == fields(self.line()),
                    2 <= i < fs@.len(),
                    0 <= j <= fs@[i as int]@.len(),
                    rest@ == mid + fs@[i as int]@.take(j as int),
                decreases fs@[i as int]@.len() - j,
            {
                let b = fs[i][j];
                rest.push(b);
                proof {
                    assert(rest@ =~= mid + fs@[i as int]@.take(j as int + 1));
                }
                j += 1;
            }
            proof {
                assert(fs@[i as int]@.take(fs@[i as int]@.len() as int) =~= fs@[i as int]@);
                assert(fs.deep_view()[i as int] == fs@[i as int]@);
                assert(rest_join(fs.deep_view(), i as int) == seq![32u8] + fs.deep_view()[i as int]
                    + rest_join(fs.deep_view(), i as int + 1));
                assert(rest_of(self.line()) =~= rest@ + rest_join(fs.deep_view(), i as int + 1));
            }
            i += 1;
        }
        proof {
            assert(rest@ =~= rest_of(self.line()));
        }
        (op, path, rest)
    }
}

/// Splits a line into its space-separated fields, keeping empty ones.
fn split_fields(line: &[u8]) -> (r: Vec<Vec<u8>>)
    ensures
        r.deep_view() == fields(line@),
        r@.len() >= 1,
{
    let mut out: Vec<Vec<u8>> = Vec::new();
    let mut cur: Vec<u8> = Vec::new();
    let mut i: usize = 0;
    proof {
        assert(line@.skip(0) =~= line@);
        assert(out.deep_view() + fields_acc(line@.skip(0), cur@) =~~= fields(line@));
    }
    while i < line.len()
        invariant
            0 <= i <= line@.len(),
            fields(line@) == out.deep_view() + fields_acc(line@.skip(i as int), cur@),
        decreases line@.len() - i,
    {
        proof {
            assert(line@.skip(i as int)[0] == line@[i as int]);
            assert(line@.skip(i as int).skip(1) =~= line@.skip(i as int + 1));
        }
        if line[i] == 32 {
            let ghost old_out = out.deep_view();
            let ghost old_cur = cur@;
            out.push(cur);
            cur = Vec::new();
            proof {
                assert(out.deep_view() =~~= old_out.push(old_cur));
                assert(old_out + (seq![old_cur] + fields_acc(line@.skip(i as int + 1), Seq::empty()))
                    =~~= out.deep_view() + fields_acc(line@.skip(i as int + 1), cur@));
            }
        } else {
            cur.push(line[i]);
        }
        i += 1;
    }
    proof {
        assert(line@.skip(i as int) =~= Seq::<u8>::empty());
    }
    let ghost old_out = out.deep_view();
    let ghost old_cur = cur@;
    out.push(cur);
    proof {
        assert(out.deep_view() =~~= old_out.push(old_cur));
        assert(old_out + seq![old_cur] =~~= out.deep_view());
        assert(fields(line@) =~~= out.deep_view());
    }
    out
}

/// Copies a byte string.
fn copy_bytes(s: &[u8]) -> (r: Vec<u8>)
    ensures
        r@ == s@,
{
    let mut out: Vec<u8> = Vec::new();
    let mut i: usize = 0;
    while i < s.len()
        invariant
            0 <= i <= s@.len(),
            out@ == s@.take(i as int),
        decreases s@.len() - i,
    {
        out.push(s[i]);
        proof {
            assert(out@ =~= s@.take(i as int + 1));
        }
        i += 1;
    }
    proof {
        assert(s@.take(s@.len() as int) =~= s@);
    }
    out
}

/// Combines a path argument with the working directory.
fn resolve_path(wd: &[u8], arg: &[u8]) -> (r: Vec<u8>)
    ensures
        r@ == resolved_path(wd@, arg@),
{
    if arg.len() > 0 && arg[0] == 47 {
        return copy_bytes(arg);
    }
    // working directory without trailing slashes
    let mut end = wd.len();
    proof {
        assert(wd@.take(end as int) =~= wd@);
    }
    while end > 0 && wd[end - 1] == 47
        invariant
            0 <= end <= wd@.len(),
            trim_end_slash(wd@) == trim_end_slash(wd@.take(end as int)),
        decreases end,
    {
        proof {
            assert(wd@.take(end as int)[end - 1] == wd@[end - 1]);
            assert(wd@.take(end as int).take(end - 1) =~= wd@.take(end - 1));
        }
        end -= 1;
    }
    proof {
        if end > 0 {
            assert(wd@.take(end as int)[end - 1] == wd@[end - 1]);
        }
        assert(trim_end_slash(wd@.take(end as int)) == wd@.take(end as int));
    }
    // argument without leading whitespace
    let mut start: usize = 0;
    proof {
        assert(arg@.skip(0) =~= arg@);
    }
    while start < arg.len() && (arg[start] == 32 || arg[start] == 9 || arg[start] == 10
        || arg[start] == 13)
        invariant
            0 <= start <= arg@.len(),
            trim_front(arg@) == trim_front(arg@.skip(start as int)),
        decreases arg@.len() - start,
    {
        proof {
            assert(arg@.skip(start as int)[0] == arg@[start as int]);
            assert(arg@.skip(start as int).skip(1) =~= arg@.skip(start as int + 1));
        }
        start += 1;
    }
    proof {
        if start < arg@.len() {
            assert(arg@.skip(start as int)[0] == arg@[start as int]);
        }
        assert(trim_front(arg@.skip(start as int)) == arg@.skip(start as int));
    }
    let mut out: Vec<u8> = Vec::new();
    let mut i: usize = 0;
    while i < end
        invariant
            0 <= i <= end <= wd@.len(),
            out@ == wd@.take(end as int).take(i as int),
        decreases end - i,
    {
        out.push(wd[i]);
        proof {
            assert(out@ =~= wd@.take(end as int).take(i as int + 1));
        }
        i += 1;
    }
    proof {
        assert(wd@.take(end as int).take(end as int) =~= wd@.take(end as int));
    }
    out.push(47);
    let mut j = start;
    while j < arg.len()
        invariant
            start <= j <= arg@.len(),
            out@ == trim_end_slash(wd@) + seq![47u8] + arg@.skip(start as int).take(
                j - start as int,
            ),
        decreases arg@.len() - j,
    {
        out.push(arg[j]);
        proof {
            assert(arg@.skip(start as int).take(j + 1 - start as int) =~= arg@.skip(
                start as int,
            ).take(j - start as int).push(arg@[j as int]));
        }
        j += 1;
    }
    proof {
        assert(arg@.skip(start as int).take(arg@.len() - start as int) =~= arg@.skip(
            start as int,
        ));
        assert(out@ =~= resolved_path(wd@, arg@));
    }
    out
}

/// Creates a directory, as the `mkdir` command does.
pub fn mkdir(fs: &mut Fs, path: &[u8]) -> (r: Result<(), FsError>)
    requires
        old(fs).wf(),
    ensures
        final(fs).wf(),
        Fs::create_post(*old(fs), *final(fs), path@, true, r),
{
    fs.create_dir(path)
}

/// Deletes a path, as the `rm` command does.
pub fn rm(fs: &mut Fs, path: &[u8]) -> (r: Result<(), FsError>)
    requires
        old(fs).wf(),
    ensures
        final(fs).wf(),
        Fs::delete_post(*old(fs), *final(fs), path@, r),
{
    fs.delete(path)
}

/// Creates a file, as the `mkfile` command does.
pub fn mkfile(fs: &mut Fs, path: &[u8]) -> (r: Result<(), FsError>)
    requires
        old(fs).wf(),
    ensures
        final(fs).wf(),
        Fs::create_post(*old(fs), *final(fs), path@, false, r),
{
    fs.create(path)
}

/// What `show` amounts to: either the open is refused and nothing changes,
/// or the path is opened, one block read under a momentary grant, and the
/// descriptor closed again.
pub open spec fn show_post(
    pre: Fs,
    post: Fs,
    path: Seq<u8>,
    page: int,
    r: Option<[u8; 1024]>,
) -> bool {
    ||| (Fs::open_post(pre, post, path, Option::None) && r is None)
    ||| exists|m1: Fs, m2: Fs, fd: usize|
        {
            &&& #[trigger] Fs::open_post(pre, m1, path, Option::Some(fd))
            &&& #[trigger] Fs::close_post(m2, post, fd as int, Result::<(), FsError>::Ok(()))
            &&& m2.nodes() == m1.nodes()
            &&& m2.locals() == m1.locals()
            &&& files_unchanged(m1.files(), m2.files())
            &&& (r is Some <==> m1.read_ok(fd as int, page))
            &&& (r is Some ==> r->Some_0@ == m1.read_result(fd as int, page))
        }
}

/// Opens a path, reads one block at the given page, and closes it again,
/// as the `show` command does.
pub fn show(fs: &mut Fs, path: &[u8], page: usize) -> (r: Option<[u8; 1024]>)
    requires
        old(fs).wf(),
    ensures
        final(fs).wf(),
        show_post(*old(fs), *final(fs), path@, page as int, r),
{
    let fd = fs.open(path);
    match fd {
        None => None,
        Some(fd) => {
            let ghost m1 = *fs;
            let content = fs.read(fd, page);
            let ghost m2 = *fs;
            let rc = fs.close(fd);
            proof {
                assert(rc == Result::<(), FsError>::Ok(()));
                assert(Fs::open_post(*old(fs), m1, path@, Option::Some(fd)));
            }
            content
        },
    }
}

/// What `apd` and `edit` amount to: either the open is refused and nothing
/// changes, or the path is opened, written under a momentary grant, and the
/// descriptor closed again; the write's own outcome is handed through.
pub open spec fn write_command_post(
    pre: Fs,
    post: Fs,
    path: Seq<u8>,
    content: Seq<u8>,
    append_flag: bool,
    r: Result<(), FsError>,
) -> bool {
    ||| (Fs::open_post(pre, post, path, Option::None) && r == Result::<(), FsError>::Err(
        FsError::PathNotFound,
    ))
    ||| exists|m1: Fs, m2: Fs, fd: usize|
        {
            &&& #[trigger] Fs::open_post(pre, m1, path, Option::Some(fd))
            &&& #[trigger] Fs::write_post_fs(m1, m2, fd as int, content, append_flag, r)
            &&& Fs::close_post(m2, post, fd as int, Result::<(), FsError>::Ok(()))
        }
}

/// Opens a path, appends the content, and closes it again, as the `apd`
/// command does.
pub fn append(fs: &mut Fs, path: &[u8], content: &[u8]) -> (r: Result<(), FsError>)
    requires
        old(fs).wf(),
        content@.len() <= usize::MAX - 2048,
    ensures
        final(fs).wf(),
        write_command_post(*old(fs), *final(fs), path@, content@, true, r),
{
    let fd = fs.open(path);
    match fd {
        None => Err(FsError::PathNotFound),
        Some(fd) => {
            let ghost m1 = *fs;
            let r = fs.write(fd, content, true);
            let ghost m2 = *fs;
            let rc = fs.close(fd);
            proof {
                assert(rc == Result::<(), FsError>::Ok(()));
                assert(Fs::open_post(*old(fs), m1, path@, Option::Some(fd)));
            }
            r
        },
    }
}

/// Opens a path, rewrites it with the content, and closes it again, as the
/// `edit` command does.
pub fn edit(fs: &mut Fs, path: &[u8], content: &[u8]) -> (r: Result<(), FsError>)
    requires
        old(fs).wf(),
        content@.len() <= usize::MAX - 2048,
    ensures
        final(fs).wf(),
        write_command_post(*old(fs), *final(fs), path@, content@, false, r),
{
    let fd = fs.open(path);
    match fd {
        None => Err(FsError::PathNotFound),
        Some(fd) => {
            let ghost m1 = *fs;
            let r = fs.write(fd, content, false);
            let ghost m2 = *fs;
            let rc = fs.close(fd);
            proof {
                assert(rc == Result::<(), FsError>::Ok(()));
                assert(Fs::open_post(*old(fs), m1, path@, Option::Some(fd)));
            }
            r
        },
    }
}

} // verus!
