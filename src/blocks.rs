//! Planning of erase and verification passes: a device of `total` bytes is
//! covered by blocks of `block` bytes in order, the last one short when
//! `block` does not divide `total`.
use vstd::prelude::*;

verus! {

/// How many blocks cover `total` bytes.
pub open spec fn block_count(total: nat, block: nat) -> nat
    recommends
        block > 0,
{
    total / block + if total % block != 0 {
        1nat
    } else {
        0nat
    }
}

/// Length of block `i`: a full block before the last whole one, then the remainder.
pub open spec fn block_len(total: nat, block: nat, i: nat) -> nat
    recommends
        block > 0,
{
    if i < total / block {
        block
    } else {
        total % block
    }
}

/// The lengths of the blocks of one pass, in the order they are handled.
pub open spec fn block_plan(total: nat, block: nat) -> Seq<nat>
    recommends
        block > 0,
{
    Seq::new(block_count(total, block), |i: int| block_len(total, block, i as nat))
}

pub open spec fn seq_sum(s: Seq<nat>) -> nat
    decreases s.len(),
{
    if s.len() == 0 {
        0
    } else {
        seq_sum(s.drop_last()) + s.last()
    }
}

/// Block `i` of a pass starts at `i * block`.
pub proof fn lemma_block_bounds(total: nat, block: nat, i: nat)
    requires
        block > 0,
        i < block_count(total, block),
    ensures
        i * block < total,
        0 < block_len(total, block, i) <= block,
        i * block + block_len(total, block, i) <= total,
        block_len(total, block, i) == if total - i * block < block {
            (total - i * block) as nat
        } else {
            block
        },
        i + 1 == block_count(total, block) <==> i * block + block_len(total, block, i) == total,
{
    let q = total / block;
    let r = total % block;
    vstd::arithmetic::div_mod::lemma_fundamental_div_mod(total as int, block as int);
    assert(total == block * q + r);
    assert(0 <= r < block);
    if i < q {
        assert(i + 1 <= q);
        assert((i + 1) * block <= q * block) by (nonlinear_arith)
            requires
                i + 1 <= q,
        ;
        assert(i * block + block == (i + 1) * block) by (nonlinear_arith);
        assert(block * q == q * block) by (nonlinear_arith);
        if i + 1 < q {
            assert((i + 2) * block <= q * block) by (nonlinear_arith)
                requires
                    i + 2 <= q,
            ;
            assert((i + 1) * block + block == (i + 2) * block) by (nonlinear_arith);
        }
    } else {
        assert(i == q);
        assert(r != 0);
        assert(i * block == block * q) by (nonlinear_arith)
            requires
                i == q,
        ;
    }
}

proof fn lemma_sum_prefix(total: nat, block: nat, n: nat)
    requires
        block > 0,
        n <= block_count(total, block),
    ensures
        seq_sum(block_plan(total, block).subrange(0, n as int)) == if n <= total / block {
            n * block
        } else {
            total
        },
    decreases n,
{
    let p = block_plan(total, block);
    if n > 0 {
        lemma_sum_prefix(total, block, (n - 1) as nat);
        assert(p.subrange(0, n as int).drop_last() =~= p.subrange(0, n - 1));
        lemma_block_bounds(total, block, (n - 1) as nat);
        if n <= total / block {
            assert((n - 1) * block + block == n * block) by (nonlinear_arith);
        } else {
            vstd::arithmetic::div_mod::lemma_fundamental_div_mod(total as int, block as int);
            assert(n - 1 == total / block);
            assert((n - 1) * block == block * (total / block)) by (nonlinear_arith)
                requires
                    n - 1 == total / block,
            ;
        }
    } else {
        assert(p.subrange(0, 0) =~= Seq::<nat>::empty());
    }
}

/// One pass writes exactly `total` bytes: `total / block` full blocks, then
/// one block of `total % block` bytes when that remainder is not zero.
pub proof fn lemma_pass_writes_exactly(total: nat, block: nat)
    requires
        block > 0,
    ensures
        seq_sum(block_plan(total, block)) == total,
        block_plan(total, block).len() == total / block + if total % block != 0 {
            1nat
        } else {
            0nat
        },
        forall|i: int| 0 <= i < total / block ==> #[trigger] block_plan(total, block)[i] == block,
        total % block != 0 ==> block_plan(total, block).last() == total % block,
{
    let p = block_plan(total, block);
    lemma_sum_prefix(total, block, p.len());
    assert(p.subrange(0, p.len() as int) =~= p);
    if total % block == 0 {
        vstd::arithmetic::div_mod::lemma_fundamental_div_mod(total as int, block as int);
        assert(p.len() * block == block * (total / block)) by (nonlinear_arith)
            requires
                p.len() == total / block,
        ;
    }
}

/// Walks a device in blocks: the offset reached so far, and the bytes of
/// the blocks whose handling failed.
pub struct BlockCursor {
    pub total: u64,
    pub block: u64,
    pub offset: u64,
    pub failed: u64,
}

impl BlockCursor {
    /// The offset is a block boundary inside the device, or its end.
    pub open spec fn wf(&self) -> bool {
        &&& self.block > 0
        &&& self.offset <= self.total
        &&& self.offset % self.block == 0 || self.offset == self.total
        &&& self.failed <= self.offset
    }

    /// Index of the next block.
    pub open spec fn index(&self) -> nat {
        (self.offset / self.block) as nat
    }

    pub open spec fn spec_done(&self) -> bool {
        self.offset == self.total
    }

    /// Starts a pass over `total` bytes in blocks of `block` bytes.
    pub fn new(total: u64, block: u64) -> (r: BlockCursor)
        requires
            block > 0,
        ensures
            r.wf(),
            r == (BlockCursor { total, block, offset: 0, failed: 0 }),
    {
        BlockCursor { total, block, offset: 0, failed: 0 }
    }

    /// Whether every byte of the device has been handled.
    pub fn is_done(&self) -> (r: bool)
        ensures
            r == self.spec_done(),
    {
        self.offset == self.total
    }

    /// Length of the next block: a full block, or what is left of the device.
    pub fn next_len(&self) -> (r: u64)
        requires
            self.wf(),
            !self.spec_done(),
        ensures
            r == if self.total - self.offset < self.block {
                self.total - self.offset
            } else {
                self.block as int
            },
            self.index() < block_count(self.total as nat, self.block as nat),
            r == block_plan(self.total as nat, self.block as nat)[self.index() as int],
    {
        proof {
            self.lemma_next_is_planned();
        }
        let left = self.total - self.offset;
        if left < self.block {
            left
        } else {
            self.block
        }
    }

    proof fn lemma_next_is_planned(&self)
        requires
            self.wf(),
            !self.spec_done(),
        ensures
            self.index() < block_count(self.total as nat, self.block as nat),
            self.index() * self.block == self.offset,
            block_len(self.total as nat, self.block as nat, self.index()) == if self.total
                - self.offset < self.block {
                (self.total - self.offset) as nat
            } else {
                self.block as nat
            },
    {
        let t = self.total as nat;
        let k = self.block as nat;
        let o = self.offset as nat;
        let i = self.index();
        vstd::arithmetic::div_mod::lemma_fundamental_div_mod(o as int, k as int);
        assert(o == k * i);
        assert(i * k == k * i) by (nonlinear_arith);
        vstd::arithmetic::div_mod::lemma_fundamental_div_mod(t as int, k as int);
        let q = t / k;
        if i >= q + 1 {
            assert(i * k >= (q + 1) * k) by (nonlinear_arith)
                requires
                    i >= q + 1,
            ;
            assert((q + 1) * k == k * q + k) by (nonlinear_arith);
            assert(false);
        }
        if i == q {
            assert(i * k == k * q) by (nonlinear_arith)
                requires
                    i == q,
            ;
            assert(t % k != 0);
        }
        lemma_block_bounds(t, k, i);
    }

    /// Moves past the next block; `ok` says whether handling it succeeded.
    pub fn advance(&mut self, ok: bool)
        requires
            old(self).wf(),
            !old(self).spec_done(),
        ensures
            final(self).wf(),
            final(self).total == old(self).total,
            final(self).block == old(self).block,
            final(self).offset == old(self).offset + old(self).next_len_spec(),
            final(self).failed == old(self).failed + if ok {
                0
            } else {
                old(self).next_len_spec()
            },
            !final(self).spec_done() ==> final(self).index() == old(self).index() + 1,
    {
        let n = self.next_len();
        proof {
            self.lemma_next_is_planned();
            let k = self.block as nat;
            let i = self.index();
            if (self.offset + n) as int != self.total as int {
                assert(n == self.block);
                assert(i * k + k == (i + 1) * k) by (nonlinear_arith);
                vstd::arithmetic::div_mod::lemma_mod_multiples_basic((i + 1) as int, k as int);
                vstd::arithmetic::div_mod::lemma_div_multiples_vanish((i + 1) as int, k as int);
                assert((i + 1) * k == k * (i + 1)) by (nonlinear_arith);
                assert(self.offset + n == k * (i + 1));
            }
        }
        self.offset = self.offset + n;
        if !ok {
            self.failed = self.failed + n;
        }
    }

    pub open spec fn next_len_spec(&self) -> int {
        if self.total - self.offset < self.block {
            self.total - self.offset
        } else {
            self.block as int
        }
    }

    /// Bytes handled without failure so far in this pass.
    pub fn written(&self) -> (r: u64)
        requires
            self.wf(),
        ensures
            r == self.offset - self.failed,
    {
        self.offset - self.failed
    }
}

pub open spec fn all_zero(s: Seq<u8>) -> bool {
    forall|i: int| 0 <= i < s.len() ==> #[trigger] s[i] == 0u8
}

/// Index of the first byte of `buf` that is not zero, if any.
pub fn first_nonzero(buf: &[u8]) -> (r: Option<usize>)
    ensures
        r is None <==> all_zero(buf@),
        r matches Some(i) ==> i < buf@.len() && buf@[i as int] != 0u8 && all_zero(
            buf@.subrange(0, i as int),
        ),
{
    let mut i: usize = 0;
    while i < buf.len()
        invariant
            0 <= i <= buf@.len(),
            all_zero(buf@.subrange(0, i as int)),
        decreases buf@.len() - i,
    {
        if buf[i] != 0u8 {
            return Some(i);
        }
        proof {
            let next = buf@.subrange(0, i + 1);
            assert forall|j: int| 0 <= j < i + 1 implies #[trigger] next[j] == 0u8 by {
                if j < i {
                    assert(next[j] == buf@.subrange(0, i as int)[j]);
                }
            }
        }
        i = i + 1;
    }
    proof {
        assert(buf@.subrange(0, i as int) =~= buf@);
    }
    None
}

/// Bytes per second for `bytes` handled in `elapsed_ms` milliseconds; zero
/// when no time was measured, and `u64::MAX` when the rate does not fit.
pub fn throughput(bytes: u64, elapsed_ms: u64) -> (r: u64)
    ensures
        elapsed_ms == 0 ==> r == 0,
        elapsed_ms > 0 && bytes as int * 1000 / elapsed_ms as int <= u64::MAX ==> r == bytes as int
            * 1000 / elapsed_ms as int,
        elapsed_ms > 0 && bytes as int * 1000 / elapsed_ms as int > u64::MAX ==> r == u64::MAX,
{
    if elapsed_ms == 0 {
        return 0;
    }
    let scaled: u128 = bytes as u128 * 1000u128;
    let rate: u128 = scaled / elapsed_ms as u128;
    if rate > u64::MAX as u128 {
        u64::MAX
    } else {
        rate as u64
    }
}

/// Chunk `i` of a device's content, as a pass reads it.
pub open spec fn chunk_of(content: Seq<u8>, chunk: nat, i: nat) -> Seq<u8> {
    content.subrange(
        (i * chunk) as int,
        (i * chunk + block_len(content.len(), chunk, i)) as int,
    )
}

/// Verification in chunks is exact: every chunk is all zero exactly when
/// the whole device is, and a non-zero byte at offset `o` makes the check of
/// chunk `o / chunk` fail.
pub proof fn lemma_verification_exact(content: Seq<u8>, chunk: nat)
    requires
        chunk > 0,
    ensures
        (forall|i: nat| i < block_count(content.len(), chunk) ==> all_zero(
            #[trigger] chunk_of(content, chunk, i),
        )) <==> all_zero(content),
        forall|o: int|
            0 <= o < content.len() && #[trigger] content[o] != 0u8 ==> (o / chunk as int)
                < block_count(content.len(), chunk) && !all_zero(
                chunk_of(content, chunk, (o / chunk as int) as nat),
            ),
{
    let t = content.len();
    assert forall|o: int|
        0 <= o < content.len() && #[trigger] content[o] != 0u8 implies (o / chunk as int)
        < block_count(content.len(), chunk) && !all_zero(
        chunk_of(content, chunk, (o / chunk as int) as nat),
    ) by {
        lemma_nonzero_fails_chunk(content, chunk, o);
    }
    if all_zero(content) {
        assert forall|i: nat| i < block_count(t, chunk) implies all_zero(
            #[trigger] chunk_of(content, chunk, i),
        ) by {
            lemma_block_bounds(t, chunk, i);
            let c = chunk_of(content, chunk, i);
            assert forall|j: int| 0 <= j < c.len() implies #[trigger] c[j] == 0u8 by {
                assert(c[j] == content[i * chunk + j]);
            }
        }
    } else {
        let o = choose|o: int| 0 <= o < t && content[o] != 0u8;
        assert(!all_zero(chunk_of(content, chunk, (o / chunk as int) as nat)));
    }
}

proof fn lemma_nonzero_fails_chunk(content: Seq<u8>, chunk: nat, o: int)
    requires
        chunk > 0,
        0 <= o < content.len(),
        content[o] != 0u8,
    ensures
        (o / chunk as int) < block_count(content.len(), chunk),
        !all_zero(chunk_of(content, chunk, (o / chunk as int) as nat)),
{
    let t = content.len();
    lemma_chunk_holds(t, chunk, o);
    let i = (o / chunk as int) as nat;
    lemma_block_bounds(t, chunk, i);
    let c = chunk_of(content, chunk, i);
    assert(c[o - i * chunk] == content[o]);
}

/// Offset `o` of a device of `total` bytes lies in block `o / block`.
proof fn lemma_chunk_holds(total: nat, block: nat, o: int)
    requires
        block > 0,
        0 <= o < total,
    ensures
        (o / block as int) < block_count(total, block),
        (o / block as int) * block <= o < (o / block as int) * block + block_len(
            total,
            block,
            (o / block as int) as nat,
        ),
{
    let k = block as int;
    let i = o / k;
    let q = (total / block) as int;
    vstd::arithmetic::div_mod::lemma_fundamental_div_mod(o, k);
    vstd::arithmetic::div_mod::lemma_fundamental_div_mod(total as int, k);
    vstd::arithmetic::div_mod::lemma_div_is_ordered(o, total as int, k);
    assert(i * k == k * i) by (nonlinear_arith);
    assert(q * k == k * q) by (nonlinear_arith);
    assert(i <= q);
    if i < q {
        assert((i + 1) * k <= q * k) by (nonlinear_arith)
            requires
                i + 1 <= q,
                k > 0,
        ;
        assert((i + 1) * k == i * k + k) by (nonlinear_arith);
    } else {
        assert(i * k == q * k) by (nonlinear_arith)
            requires
                i == q,
        ;
    }
}

/// The content after bytes `from..to` are overwritten with zeros.
pub open spec fn zero_range(c: Seq<u8>, from: int, to: int) -> Seq<u8> {
    Seq::new(c.len(), |j: int| if from <= j < to { 0u8 } else { c[j] })
}

/// The content after the first `n` blocks of a pass are written with zeros.
pub open spec fn after_blocks(c: Seq<u8>, block: nat, n: nat) -> Seq<u8>
    decreases n,
{
    if n == 0 {
        c
    } else {
        let i = (n - 1) as nat;
        zero_range(
            after_blocks(c, block, i),
            (i * block) as int,
            (i * block + block_len(c.len(), block, i)) as int,
        )
    }
}

/// The content after a whole erase pass.
pub open spec fn after_pass(c: Seq<u8>, block: nat) -> Seq<u8> {
    after_blocks(c, block, block_count(c.len(), block))
}

/// Where the zeros written by the first `n` blocks end.
pub open spec fn covered(total: nat, block: nat, n: nat) -> int {
    if n == 0 {
        0
    } else {
        ((n - 1) * block + block_len(total, block, (n - 1) as nat)) as int
    }
}

proof fn lemma_after_blocks(c: Seq<u8>, block: nat, n: nat)
    requires
        block > 0,
        n <= block_count(c.len(), block),
    ensures
        after_blocks(c, block, n).len() == c.len(),
        covered(c.len(), block, n) <= c.len(),
        forall|j: int|
            0 <= j < c.len() ==> #[trigger] after_blocks(c, block, n)[j] == if j < covered(
                c.len(),
                block,
                n,
            ) {
                0u8
            } else {
                c[j]
            },
    decreases n,
{
    if n > 0 {
        let i = (n - 1) as nat;
        lemma_after_blocks(c, block, i);
        lemma_block_bounds(c.len(), block, i);
        let k = block as int;
        let q = (c.len() / block) as int;
        if i > 0 {
            let pi = (i - 1) as nat;
            vstd::arithmetic::div_mod::lemma_fundamental_div_mod(c.len() as int, k);
            if pi >= q {
                assert(i * k >= (q + 1) * k) by (nonlinear_arith)
                    requires
                        i >= q + 1,
                        k > 0,
                ;
                assert((q + 1) * k == k * q + k) by (nonlinear_arith);
                assert(false);
            }
            assert(pi * block + block == i * block) by (nonlinear_arith)
                requires
                    pi + 1 == i,
            ;
            assert(covered(c.len(), block, i) == i * block);
        } else {
            assert(i * block == 0) by (nonlinear_arith)
                requires
                    i == 0,
            ;
        }
        let prev = after_blocks(c, block, i);
        let now = after_blocks(c, block, n);
        assert forall|j: int| 0 <= j < c.len() implies #[trigger] now[j] == if j < covered(
            c.len(),
            block,
            n,
        ) {
            0u8
        } else {
            c[j]
        } by {
            assert(now[j] == if (i * block) as int <= j < (i * block + block_len(c.len(), block, i)) as int {
                0u8
            } else {
                prev[j]
            });
            assert(prev[j] == if j < covered(c.len(), block, i) {
                0u8
            } else {
                c[j]
            });
            assert(covered(c.len(), block, n) == (i * block + block_len(c.len(), block, i)) as int);
            assert(covered(c.len(), block, i) == i * block);
        }
    }
}

/// Erasing is idempotent: a pass leaves every byte zero, so a second pass on
/// the erased device leaves the same content, writes the same total, and
/// verification succeeds after either.
pub proof fn lemma_erase_idempotent(c: Seq<u8>, block: nat)
    requires
        block > 0,
    ensures
        after_pass(c, block).len() == c.len(),
        all_zero(after_pass(c, block)),
        after_pass(after_pass(c, block), block) == after_pass(c, block),
        seq_sum(block_plan(after_pass(c, block).len(), block)) == seq_sum(
            block_plan(c.len(), block),
        ),
{
    let n = block_count(c.len(), block);
    lemma_after_blocks(c, block, n);
    if n > 0 {
        lemma_block_bounds(c.len(), block, (n - 1) as nat);
    } else {
        assert(c.len() == 0) by {
            vstd::arithmetic::div_mod::lemma_fundamental_div_mod(c.len() as int, block as int);
        }
    }
    let e = after_pass(c, block);
    assert(all_zero(e));
    lemma_after_blocks(e, block, n);
    assert(after_pass(e, block) =~= e);
}

} // verus!
