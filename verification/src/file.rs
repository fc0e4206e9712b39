//! File content engine.
//!
//! A file's bytes live in a chain of fixed-size 1024-byte blocks. No logical
//! length is stored anywhere: `write` rewrites from the beginning and leaves
//! trailing blocks untouched, `append` fills from the first zero byte of the
//! last block (a NUL-terminator convention that conflicts with genuine zero
//! content bytes, an accepted limitation), and `read` returns whole blocks by
//! chain position.

use vstd::prelude::*;

use crate::path::str_to_file;

verus! {

/// One block holding no content: all 1024 bytes zero.
pub open spec fn zero_block() -> Seq<u8> {
    Seq::new(1024, |i: int| 0u8)
}

/// How many blocks a rewrite with `n` bytes touches: one block per full
/// 1024 bytes, plus one for the remainder (even a zero remainder).
pub open spec fn blocks_needed(n: nat) -> nat {
    n / 1024 + 1
}

/// Block `i` of a byte string: bytes `i*1024..` zero-padded to 1024.
pub open spec fn block_at(d: Seq<u8>, i: int) -> Seq<u8> {
    Seq::new(1024, |j: int| if i * 1024 + j < d.len() {
        d[i * 1024 + j]
    } else {
        0u8
    })
}

/// Index of the first zero byte of a byte string, or its length if it has
/// none.
pub open spec fn first_zero(s: Seq<u8>) -> int
    decreases s.len(),
{
    if s.len() == 0 {
        0
    } else if s[0] == 0 {
        0
    } else {
        1 + first_zero(s.skip(1))
    }
}

/// `first_zero` names the least index holding a zero byte.
pub proof fn lemma_first_zero(s: Seq<u8>)
    ensures
        0 <= first_zero(s) <= s.len(),
        first_zero(s) < s.len() ==> s[first_zero(s)] == 0,
        forall|j: int| 0 <= j < first_zero(s) ==> s[j] != 0,
    decreases s.len(),
{
    if s.len() == 0 {
    } else if s[0] == 0 {
    } else {
        lemma_first_zero(s.skip(1));
        assert forall|j: int| 0 <= j < first_zero(s) implies s[j] != 0 by {
            if j > 0 {
                assert(s.skip(1)[j - 1] == s[j]);
            }
        }
        if first_zero(s) < s.len() {
            assert(s.skip(1)[first_zero(s) - 1] == s[first_zero(s)]);
        }
    }
}

/// What a rewrite leaves behind: the first `blocks_needed` blocks hold the
/// new bytes zero-padded, blocks beyond them keep their old, stale content.
pub open spec fn write_post(pre: Seq<Seq<u8>>, post: Seq<Seq<u8>>, data: Seq<u8>) -> bool {
    let n = blocks_needed(data.len()) as int;
    &&& post.len() == (if pre.len() >= n {
        pre.len() as int
    } else {
        n
    })
    &&& forall|i: int| 0 <= i < n ==> post[i] == block_at(data, i)
    &&& forall|i: int| n <= i < pre.len() ==> post[i] == pre[i]
}

/// How many appended bytes land in the existing last block: the free space
/// from its first zero byte, or none when it holds no zero byte.
pub open spec fn append_consumed(last: Seq<u8>, data: Seq<u8>) -> int {
    let z = first_zero(last);
    if z < 1024 {
        if data.len() <= 1024 - z {
            data.len() as int
        } else {
            1024 - z
        }
    } else {
        0
    }
}

/// The last block after an append: filled from its first zero byte with as
/// many bytes as fit, other bytes kept.
pub open spec fn append_fill(last: Seq<u8>, data: Seq<u8>) -> Seq<u8> {
    let z = first_zero(last);
    let k = append_consumed(last, data);
    if z < 1024 {
        Seq::new(1024, |j: int| if z <= j < z + k {
            data[j - z]
        } else {
            last[j]
        })
    } else {
        last
    }
}

/// What an append leaves behind: the last block is filled from its first
/// zero byte, and the remainder goes to freshly added blocks.
pub open spec fn append_post(pre: Seq<Seq<u8>>, post: Seq<Seq<u8>>, data: Seq<u8>) -> bool {
    let last = pre.len() - 1;
    let k = append_consumed(pre[last], data);
    let rem = data.skip(k);
    let extra = if rem.len() == 0 {
        0int
    } else {
        rem.len() as int / 1024 + 1
    };
    &&& post.len() == pre.len() + extra
    &&& forall|i: int| 0 <= i < last ==> post[i] == pre[i]
    &&& post[last] == append_fill(pre[last], data)
    &&& forall|i: int| 0 <= i < extra ==> post[pre.len() + i] == block_at(rem, i)
}

/// The blocks a ranged read returns: chain positions in `[start, end)`,
/// clipped to the chain's length.
pub open spec fn read_blocks(blocks: Seq<Seq<u8>>, start: int, end: int) -> Seq<Seq<u8>> {
    if start >= end {
        Seq::empty()
    } else {
        let lo = if start <= blocks.len() {
            start
        } else {
            blocks.len() as int
        };
        let hi = if end <= blocks.len() {
            end
        } else {
            blocks.len() as int
        };
        blocks.subrange(lo, hi)
    }
}

/// One link of the block chain: a fixed-size block of content bytes.
#[derive(Clone, Copy)]
pub struct FileListNode {
    size: usize,
    data: [u8; 1024],
}

/// A file's content: its chain of blocks, never empty.
pub struct File {
    nodes: Vec<FileListNode>,
}

impl FileListNode {
    /// The block's content bytes.
    pub closed spec fn spec_data(self) -> Seq<u8> {
        self.data@
    }

    /// The block's recorded size.
    pub closed spec fn spec_size(self) -> usize {
        self.size
    }

    pub fn new(size: usize, data: [u8; 1024]) -> (r: Self)
        ensures
            r.spec_size() == size,
            r.spec_data() == data@,
    {
        FileListNode { size, data }
    }

    /// Replaces the whole block content.
    pub fn change_data(&mut self, data: [u8; 1024])
        ensures
            final(self).spec_data() == data@,
            final(self).spec_size() == old(self).spec_size(),
    {
        self.data = data;
    }

    /// Writes `length` bytes of `data` into the block starting at `index`;
    /// the other bytes keep their value.
    pub fn append_data(&mut self, data: [u8; 1024], index: usize, length: usize)
        requires
            index + length <= 1024,
        ensures
            final(self).spec_size() == old(self).spec_size(),
            final(self).spec_data() == Seq::new(1024, |j: int| if index <= j < index + length {
                data@[j - index]
            } else {
                old(self).spec_data()[j]
            }),
    {
        let mut j = index;
        while j < index + length
            invariant
                index <= j <= index + length <= 1024,
                self.size == old(self).size,
                forall|m: int| index <= m < j ==> self.data@[m] == data@[m - index],
                forall|m: int| 0 <= m < 1024 && !(index <= m < j) ==> self.data@[m] == old(
                    self,
                ).data@[m],
            decreases index + length - j,
        {
            self.data[j] = data[j - index];
            j += 1;
        }
        assert(self.data@ =~= Seq::new(1024, |j: int| if index <= j < index + length {
            data@[j - index]
        } else {
            old(self).data@[j]
        }));
    }

    /// Index of the first zero byte of the block, or 1025 when the block has
    /// none.
    pub fn find_zero_in_data_array(&self) -> (r: usize)
        ensures
            r == (if first_zero(self.spec_data()) < 1024 {
                first_zero(self.spec_data())
            } else {
                1025int
            }),
    {
        let mut counter: usize = 0;
        while counter < 1024
            invariant
                0 <= counter <= 1024,
                forall|j: int| 0 <= j < counter ==> self.data@[j] != 0,
            decreases 1024 - counter,
        {
            if self.data[counter] == 0 {
                proof {
                    lemma_first_zero(self.data@);
                    let fz = first_zero(self.data@);
                    if fz < counter {
                        assert(self.data@[fz] != 0);
                    }
                }
                return counter;
            }
            counter = counter + 1;
        }
        proof {
            lemma_first_zero(self.data@);
            let fz = first_zero(self.data@);
            if fz < 1024 {
                assert(self.data@[fz] != 0);
            }
        }
        1025
    }
}

impl View for File {
    type V = Seq<Seq<u8>>;

    /// The chain's block contents, in chain order.
    closed spec fn view(&self) -> Seq<Seq<u8>> {
        self.nodes@.map_values(|n: FileListNode| n.data@)
    }
}

impl File {
    /// A file always keeps at least its head block.
    pub open spec fn wf(self) -> bool {
        self@.len() >= 1
    }

    /// A fresh file: one zero block.
    pub fn new() -> (r: Self)
        ensures
            r.wf(),
            r@ =~= seq![zero_block()],
    {
        let mut nodes: Vec<FileListNode> = Vec::new();
        nodes.push(FileListNode::new(1024, [0; 1024]));
        let f = File { nodes };
        assert(f@ =~= seq![zero_block()]) by {
            assert(f@[0] =~= zero_block());
        }
        f
    }

    /// Adds one block at the end of the chain.
    pub fn add_node(&mut self, data: [u8; 1024])
        ensures
            final(self)@ =~= old(self)@.push(data@),
    {
        self.nodes.push(FileListNode::new(1024, data));
        assert(self@ =~= old(self)@.push(data@));
    }

    /// Rewrites the content from the beginning: every block position the new
    /// bytes need is overwritten or freshly added; blocks beyond them keep
    /// their old content.
    pub fn write(&mut self, data: &[u8])
        requires
            old(self).wf(),
            data@.len() <= usize::MAX - 1024,
        ensures
            final(self).wf(),
            write_post(old(self)@, final(self)@, data@),
    {
        let node_count = data.len() / 1024 + 1;
        let ghost pre = old(self)@;
        let mut node_counter: usize = 0;
        while node_counter < node_count
            invariant
                0 <= node_counter <= node_count,
                node_count == data@.len() / 1024 + 1,
                data@.len() <= usize::MAX - 1024,
                self@.len() == (if pre.len() >= node_counter {
                    pre.len() as int
                } else {
                    node_counter as int
                }),
                pre.len() >= 1,
                forall|i: int| 0 <= i < node_counter ==> self@[i] == block_at(data@, i),
                forall|i: int| node_counter <= i < pre.len() ==> self@[i] == pre[i],
            decreases node_count - node_counter,
        {
            let start = node_counter * 1024;
            assert(start + 1024 <= usize::MAX) by {
                assert(node_counter * 1024 <= (data@.len() / 1024) * 1024) by (nonlinear_arith)
                    requires
                        node_counter <= data@.len() / 1024,
                ;
                assert((data@.len() / 1024) * 1024 <= data@.len()) by (nonlinear_arith);
            }
            let end = if start + 1024 <= data.len() {
                start + 1024
            } else {
                data.len()
            };
            let part = str_to_file(&data[start..end]);
            assert(part@ =~= block_at(data@, node_counter as int)) by {
                assert(forall|j: int| 0 <= j < end - start ==> data@.subrange(
                    start as int,
                    end as int,
                )[j] == data@[start + j]);
            }
            if node_counter < self.nodes.len() {
                let mut n = self.nodes[node_counter];
                n.change_data(part);
                self.nodes.set(node_counter, n);
            } else {
                self.add_node(part);
            }
            node_counter += 1;
        }
    }

    /// Appends bytes: fills the free space of the last block from its first
    /// zero byte, then adds fresh blocks for the remainder.
    pub fn append(&mut self, data: &[u8])
        requires
            old(self).wf(),
            data@.len() <= usize::MAX - 2048,
        ensures
            final(self).wf(),
            append_post(old(self)@, final(self)@, data@),
    {
        let ghost pre = old(self)@;
        let last_idx = self.nodes.len() - 1;
        let cn_index = self.nodes[last_idx].find_zero_in_data_array();
        proof {
            lemma_first_zero(pre[last_idx as int]);
        }
        let mut rest_start: usize = 0;
        if cn_index <= 1023 {
            let rest_length = if data.len() <= 1024 - cn_index {
                data.len()
            } else {
                1024 - cn_index
            };
            let src = str_to_file(data);
            let mut n = self.nodes[last_idx];
            n.append_data(src, cn_index, rest_length);
            self.nodes.set(last_idx, n);
            rest_start = rest_length;
            assert(self@[last_idx as int] =~= append_fill(pre[last_idx as int], data@));
        } else {
            assert(self@[last_idx as int] =~= append_fill(pre[last_idx as int], data@));
        }
        assert(rest_start == append_consumed(pre[last_idx as int], data@));
        let ghost rem = data@.skip(rest_start as int);
        let rest_len = data.len() - rest_start;
        if rest_len > 0 {
            let node_count = rest_len / 1024 + 1;
            let mut node_counter: usize = 0;
            while node_counter < node_count
                invariant
                    0 <= node_counter <= node_count,
                    node_count == rem.len() / 1024 + 1,
                    rem.len() == data@.len() - rest_start,
                    rest_start <= data@.len() <= usize::MAX - 2048,
                    rem == data@.skip(rest_start as int),
                    self@.len() == pre.len() + node_counter,
                    pre.len() >= 1,
                    forall|i: int| 0 <= i < pre.len() ==> self@[i] == pre[i] || i == pre.len() - 1,
                    self@[pre.len() - 1] == append_fill(pre[pre.len() - 1], data@),
                    forall|i: int|
                        0 <= i < node_counter ==> self@[pre.len() + i] == block_at(rem, i),
                decreases node_count - node_counter,
            {
                assert(node_counter * 1024 <= rem.len()) by {
                    assert(node_counter * 1024 <= (rem.len() / 1024) * 1024) by (nonlinear_arith)
                        requires
                            node_counter <= rem.len() / 1024,
                    ;
                    assert((rem.len() / 1024) * 1024 <= rem.len()) by (nonlinear_arith);
                }
                let start = rest_start + node_counter * 1024;
                let end = if start + 1024 <= data.len() {
                    start + 1024
                } else {
                    data.len()
                };
                let part = str_to_file(&data[start..end]);
                assert(part@ =~= block_at(rem, node_counter as int)) by {
                    assert(forall|j: int| 0 <= j < end - start ==> data@.subrange(
                        start as int,
                        end as int,
                    )[j] == data@[start + j]);
                    assert(forall|j: int| 0 <= j < rem.len() ==> rem[j] == data@[rest_start + j]);
                }
                self.add_node(part);
                node_counter += 1;
            }
        }
    }

    /// Returns, in order, every block whose chain position lies in
    /// `[range_start, range_end)`; a chain shorter than asked for yields
    /// whatever there is.
    pub fn read(&self, range_start: usize, range_end: usize) -> (r: Vec<[u8; 1024]>)
        ensures
            r.deep_view() == read_blocks(self@, range_start as int, range_end as int),
    {
        let mut content_vec: Vec<[u8; 1024]> = Vec::new();
        if range_start >= range_end {
            assert(content_vec.deep_view() =~~= read_blocks(
                self@,
                range_start as int,
                range_end as int,
            ));
            return content_vec;
        }
        let lo = if range_start <= self.nodes.len() {
            range_start
        } else {
            self.nodes.len()
        };
        let hi = if range_end <= self.nodes.len() {
            range_end
        } else {
            self.nodes.len()
        };
        let mut i = lo;
        while i < hi
            invariant
                lo <= i <= hi <= self.nodes@.len(),
                content_vec.deep_view() =~~= self@.subrange(lo as int, i as int),
            decreases hi - i,
        {
            let ghost prior = content_vec.deep_view();
            content_vec.push(self.nodes[i].data);
            proof {
                assert(content_vec.deep_view() =~~= prior.push(self.nodes@[i as int].data@));
                assert(prior.push(self@[i as int]) =~~= self@.subrange(lo as int, i as int + 1));
            }
            i += 1;
        }
        assert(content_vec.deep_view() =~~= read_blocks(
            self@,
            range_start as int,
            range_end as int,
        ));
        content_vec
    }

    /// The number of blocks in the chain.
    pub fn block_count(&self) -> (r: usize)
        ensures
            r == self@.len(),
    {
        self.nodes.len()
    }

    /// Replaces the whole chain with a single fresh zero block.
    pub fn empty(&mut self)
        ensures
            final(self).wf(),
            final(self)@ =~= seq![zero_block()],
    {
        let mut nodes: Vec<FileListNode> = Vec::new();
        nodes.push(FileListNode::new(1, [0; 1024]));
        self.nodes = nodes;
        assert(self@[0] =~= zero_block());
        assert(self@ =~= seq![zero_block()]);
    }
}

/// Block-boundary round trip: rewriting with a 2500-byte payload and then
/// reading blocks 0, 1 and 2 yields three blocks whose concatenation carries
/// the payload in its first 2500 bytes.
pub proof fn lemma_block_round_trip(pre: Seq<Seq<u8>>, post: Seq<Seq<u8>>, data: Seq<u8>)
    requires
        data.len() == 2500,
        write_post(pre, post, data),
    ensures
        read_blocks(post, 0, 3).len() == 3,
        (read_blocks(post, 0, 3)[0] + read_blocks(post, 0, 3)[1] + read_blocks(post, 0, 3)[2])
            .subrange(0, 2500) == data,
{
    let out = read_blocks(post, 0, 3);
    assert(blocks_needed(data.len()) == 3);
    assert(post.len() >= 3);
    assert(out =~= post.subrange(0, 3));
    assert(out[0] == block_at(data, 0));
    assert(out[1] == block_at(data, 1));
    assert(out[2] == block_at(data, 2));
    assert((out[0] + out[1] + out[2]).subrange(0, 2500) =~= data);
}

/// Append across a block boundary: rewriting a one-block file with exactly
/// 1024 bytes and then appending 50 more produces a two-block chain whose
/// concatenation carries the 1074 bytes in order.
pub proof fn lemma_append_across_boundary(
    s0: Seq<Seq<u8>>,
    s1: Seq<Seq<u8>>,
    s2: Seq<Seq<u8>>,
    d1: Seq<u8>,
    d2: Seq<u8>,
)
    requires
        s0.len() == 1,
        d1.len() == 1024,
        d2.len() == 50,
        write_post(s0, s1, d1),
        append_post(s1, s2, d2),
    ensures
        s2.len() == 2,
        (s2[0] + s2[1]).subrange(0, 1074) == d1 + d2,
{
    assert(blocks_needed(d1.len()) == 2);
    assert(s1.len() == 2);
    assert(s1[1] == block_at(d1, 1));
    assert(s1[1][0] == 0);
    assert(first_zero(s1[1]) == 0);
    assert(append_consumed(s1[1], d2) == 50);
    assert(d2.skip(50).len() == 0);
    assert(s2.len() == 2);
    assert(s2[0] == block_at(d1, 0));
    assert(s2[1] == append_fill(s1[1], d2));
    assert((s2[0] + s2[1]).subrange(0, 1074) =~= d1 + d2);
}

} // verus!
