//! Paths and stored names.
//!
//! A path is a `/`-separated byte string. Its non-empty components are the
//! names along the namespace tree. Each component is stored in a fixed
//! 32-byte buffer: printable ASCII bytes are kept, every other byte is
//! replaced by the marker byte `0xfe`, and the buffer is zero-padded (or the
//! component truncated) to 32 bytes. The all-zero buffer is reserved: it
//! marks an unused table entry.

use vstd::prelude::*;

verus! {

/// Number of bytes in a stored name buffer.
pub const NAME_LENGTH: usize = 32;

/// Number of content bytes in one file block.
pub const BYTE_LENGTH: usize = 1024;

/// The path separator byte, `/`.
pub const SEPARATOR: u8 = 47;

/// How one byte of a path component is stored: printable ASCII is kept,
/// anything else becomes the marker byte `0xfe`.
pub open spec fn name_byte(b: u8) -> u8 {
    if 0x20 <= b <= 0x7e {
        b
    } else {
        0xfe
    }
}

/// The 32-byte buffer a byte string is stored under: bytes filtered through
/// `name_byte`, truncated to 32 bytes, zero-padded.
pub open spec fn name_of(c: Seq<u8>) -> Seq<u8> {
    Seq::new(NAME_LENGTH as nat, |i: int| if i < c.len() {
        name_byte(c[i])
    } else {
        0u8
    })
}

/// The all-zero buffer that marks an unused table entry.
pub open spec fn empty_name() -> Seq<u8> {
    Seq::new(NAME_LENGTH as nat, |i: int| 0u8)
}

/// A byte string zero-padded (or truncated) to length `n`.
pub open spec fn padded(s: Seq<u8>, n: nat) -> Seq<u8> {
    Seq::new(n, |i: int| if i < s.len() {
        s[i]
    } else {
        0u8
    })
}

/// Splitting a path into components, read byte by byte; `cur` holds the
/// component read so far, and empty components are dropped.
pub open spec fn split_acc(p: Seq<u8>, cur: Seq<u8>) -> Seq<Seq<u8>>
    decreases p.len(),
{
    if p.len() == 0 {
        if cur.len() == 0 {
            Seq::empty()
        } else {
            seq![cur]
        }
    } else if p[0] == SEPARATOR {
        (if cur.len() == 0 {
            Seq::empty()
        } else {
            seq![cur]
        }) + split_acc(p.skip(1), Seq::empty())
    } else {
        split_acc(p.skip(1), cur.push(p[0]))
    }
}

/// The non-empty `/`-separated components of a path.
pub open spec fn components(p: Seq<u8>) -> Seq<Seq<u8>> {
    split_acc(p, Seq::empty())
}

/// The stored name buffers of a path's components, in order.
pub open spec fn path_names(p: Seq<u8>) -> Seq<Seq<u8>> {
    components(p).map_values(|c: Seq<u8>| name_of(c))
}

/// Every component a split produces is non-empty.
pub proof fn lemma_split_acc_nonempty(p: Seq<u8>, cur: Seq<u8>)
    ensures
        forall|i: int| 0 <= i < split_acc(p, cur).len() ==> #[trigger] split_acc(p, cur)[i].len() > 0,
    decreases p.len(),
{
    if p.len() == 0 {
        if cur.len() > 0 {
            assert forall|i: int| 0 <= i < split_acc(p, cur).len() implies #[trigger] split_acc(
                p,
                cur,
            )[i].len() > 0 by {
                assert(split_acc(p, cur) == seq![cur]);
                assert(split_acc(p, cur)[0] == cur);
            }
        }
    } else if p[0] == SEPARATOR {
        lemma_split_acc_nonempty(p.skip(1), Seq::empty());
        let head = if cur.len() == 0 {
            Seq::<Seq<u8>>::empty()
        } else {
            seq![cur]
        };
        let rest = split_acc(p.skip(1), Seq::empty());
        assert forall|i: int| 0 <= i < split_acc(p, cur).len() implies #[trigger] split_acc(
            p,
            cur,
        )[i].len() > 0 by {
            assert(split_acc(p, cur) == head + rest);
            if i < head.len() {
                assert(split_acc(p, cur)[i] == cur);
            } else {
                assert(split_acc(p, cur)[i] == rest[i - head.len()]);
            }
        }
    } else {
        lemma_split_acc_nonempty(p.skip(1), cur.push(p[0]));
        assert(split_acc(p, cur) == split_acc(p.skip(1), cur.push(p[0])));
    }
}

/// The stored name of a non-empty component is never the all-zero buffer.
pub proof fn lemma_name_of_nonempty(c: Seq<u8>)
    requires
        c.len() > 0,
    ensures
        name_of(c) != empty_name(),
{
    assert(name_of(c)[0] != 0) by {
        if 0x20 <= c[0] <= 0x7e {
        } else {
        }
    }
    assert(empty_name()[0] == 0);
}

/// Stores a byte string as a 32-byte name buffer: printable ASCII kept,
/// other bytes replaced by `0xfe`, truncated to 32 bytes, zero-padded.
pub fn str_to_u8(s: &[u8]) -> (r: [u8; 32])
    ensures
        r@ == name_of(s@),
{
    let mut data: [u8; 32] = [0; 32];
    let mut i: usize = 0;
    while i < 32 && i < s.len()
        invariant
            0 <= i <= 32,
            i <= s.len(),
            forall|j: int| 0 <= j < i ==> data@[j] == name_byte(s@[j]),
            forall|j: int| i <= j < 32 ==> data@[j] == 0u8,
        decreases 32 - i,
    {
        let b = s[i];
        if 0x20 <= b && b <= 0x7e {
            data[i] = b;
        } else {
            data[i] = 0xfe;
        }
        i += 1;
    }
    assert(data@ =~= name_of(s@));
    data
}

/// Stores a byte string as one file block: truncated to 1024 bytes,
/// zero-padded.
pub fn str_to_file(s: &[u8]) -> (r: [u8; 1024])
    ensures
        r@ == padded(s@, BYTE_LENGTH as nat),
{
    let mut data: [u8; 1024] = [0; 1024];
    let mut i: usize = 0;
    while i < 1024 && i < s.len()
        invariant
            0 <= i <= 1024,
            i <= s.len(),
            forall|j: int| 0 <= j < i ==> data@[j] == s@[j],
            forall|j: int| i <= j < 1024 ==> data@[j] == 0u8,
        decreases 1024 - i,
    {
        data[i] = s[i];
        i += 1;
    }
    assert(data@ =~= padded(s@, BYTE_LENGTH as nat));
    data
}

/// Splits a path into its non-empty components.
pub fn split_path(p: &[u8]) -> (r: Vec<Vec<u8>>)
    ensures
        r.deep_view() == components(p@),
{
    let mut out: Vec<Vec<u8>> = Vec::new();
    let mut cur: Vec<u8> = Vec::new();
    let mut i: usize = 0;
    proof {
        assert(p@.skip(0) =~= p@);
        assert(out.deep_view() + split_acc(p@.skip(0), cur@) =~~= components(p@));
    }
    while i < p.len()
        invariant
            0 <= i <= p.len(),
            components(p@) == out.deep_view() + split_acc(p@.skip(i as int), cur@),
        decreases p.len() - i,
    {
        proof {
            assert(p@.skip(i as int)[0] == p@[i as int]);
            assert(p@.skip(i as int).skip(1) =~= p@.skip(i as int + 1));
        }
        if p[i] == 47 {
            if cur.len() > 0 {
                let ghost old_out = out.deep_view();
                let ghost old_cur = cur@;
                out.push(cur);
                cur = Vec::new();
                proof {
                    assert(out.deep_view() =~~= old_out.push(old_cur));
                    assert(old_out + (seq![old_cur] + split_acc(p@.skip(i as int + 1), Seq::empty()))
                        =~~= out.deep_view() + split_acc(p@.skip(i as int + 1), cur@));
                }
            } else {
                proof {
                    assert(cur@ =~= Seq::<u8>::empty());
                    assert(Seq::<Seq<u8>>::empty() + split_acc(p@.skip(i as int + 1), Seq::empty())
                        =~~= split_acc(p@.skip(i as int + 1), cur@));
                }
            }
        } else {
            cur.push(p[i]);
        }
        i += 1;
    }
    proof {
        assert(p@.skip(i as int) =~= Seq::<u8>::empty());
    }
    if cur.len() > 0 {
        let ghost old_out = out.deep_view();
        let ghost old_cur = cur@;
        out.push(cur);
        proof {
            assert(out.deep_view() =~~= old_out.push(old_cur));
            assert(old_out + seq![old_cur] =~~= out.deep_view());
        }
    }
    assert(components(p@) =~~= out.deep_view());
    out
}

/// Compares two stored name buffers byte for byte.
pub fn names_equal(a: &[u8; 32], b: &[u8; 32]) -> (r: bool)
    ensures
        r <==> a@ == b@,
{
    let mut i: usize = 0;
    while i < 32
        invariant
            0 <= i <= 32,
            forall|j: int| 0 <= j < i ==> a@[j] == b@[j],
        decreases 32 - i,
    {
        if a[i] != b[i] {
            return false;
        }
        i += 1;
    }
    assert(a@ =~= b@);
    true
}

/// Tests whether a name buffer is the all-zero buffer.
pub fn name_is_empty(a: &[u8; 32]) -> (r: bool)
    ensures
        r <==> a@ == empty_name(),
{
    let mut i: usize = 0;
    while i < 32
        invariant
            0 <= i <= 32,
            forall|j: int| 0 <= j < i ==> a@[j] == 0u8,
        decreases 32 - i,
    {
        if a[i] != 0 {
            assert(a@[i as int] != empty_name()[i as int]);
            return false;
        }
        i += 1;
    }
    assert(a@ =~= empty_name());
    true
}

} // verus!
