//! Compression of non-decreasing integer sequences in blocks, each block
//! predicted by the line through its first and last value. A block keeps
//! the non-negative residuals above that line together with the smallest
//! bit width that holds them, and no residuals at all when that width is 0.

use vstd::arithmetic::power2::{lemma_pow2_unfold, pow2};
use vstd::prelude::*;

verus! {

/// The rounded prediction at position `j` of a block whose last value
/// lies `delta` above its first and `den` positions after it:
/// `round(delta * j / den)`, 0 for a block of one value.
pub open spec fn pred(delta: int, den: int, j: int) -> int {
    if den <= 0 {
        0
    } else {
        (2 * delta * j + den) / (2 * den)
    }
}

/// How far value `j` lies above the prediction line through `vals[0]`.
pub open spec fn offset_at(vals: Seq<i64>, j: int) -> int {
    vals[j] - pred(vals.last() - vals[0], vals.len() - 1, j)
}

/// Smallest offset among the first `k` values (at least one).
pub open spec fn min_offset(vals: Seq<i64>, k: int) -> int
    decreases k,
{
    if k <= 1 {
        offset_at(vals, 0)
    } else {
        let m = min_offset(vals, k - 1);
        let o = offset_at(vals, k - 1);
        if o < m {
            o
        } else {
            m
        }
    }
}

/// Residual of value `j` above the lowered base of its block.
pub open spec fn residual_at(vals: Seq<i64>, j: int) -> int {
    offset_at(vals, j) - min_offset(vals, vals.len() as int)
}

/// Largest residual among the first `k` values.
pub open spec fn max_residual(vals: Seq<i64>, k: int) -> int
    decreases k,
{
    if k <= 0 {
        0
    } else {
        let m = max_residual(vals, k - 1);
        let r = residual_at(vals, k - 1);
        if r > m {
            r
        } else {
            m
        }
    }
}

/// Number of bits needed to write `x` in binary (0 for 0).
pub open spec fn bits_required(x: nat) -> nat
    decreases x,
{
    if x == 0 {
        0
    } else {
        1 + bits_required(x / 2)
    }
}

/// A block as numbers: its base, the rise of its prediction line, its
/// length, the residual width, and the residuals (none when the width is 0).
pub struct BlockView {
    pub min: int,
    pub delta: int,
    pub count: nat,
    pub bits: nat,
    pub residuals: Seq<int>,
}

/// The block that encodes `vals`.
pub open spec fn encode_block(vals: Seq<i64>) -> BlockView {
    let bits = bits_required(max_residual(vals, vals.len() as int) as nat);
    BlockView {
        min: min_offset(vals, vals.len() as int),
        delta: vals.last() - vals[0],
        count: vals.len(),
        bits,
        residuals: if bits == 0 {
            Seq::empty()
        } else {
            Seq::new(vals.len(), |j: int| residual_at(vals, j))
        },
    }
}

/// Value `j` of a block.
pub open spec fn decode_at(b: BlockView, j: int) -> int {
    b.min + pred(b.delta, b.count - 1, j) + if b.bits == 0 {
        0
    } else {
        b.residuals[j]
    }
}

/// Each value is at least the one before it.
pub open spec fn non_decreasing(vals: Seq<i64>) -> bool {
    forall|a: int, b: int| 0 <= a <= b < vals.len() ==> vals[a] <= vals[b]
}

/// The run rises by at most `i64::MAX` from its first to its last value.
pub open spec fn span_ok(vals: Seq<i64>) -> bool {
    vals.len() > 0 ==> vals.last() - vals[0] <= i64::MAX
}

/// Every value `a + step * j` of an arithmetic sequence.
pub open spec fn arithmetic(vals: Seq<i64>, step: int) -> bool {
    forall|j: int| 0 <= j < vals.len() ==> #[trigger] vals[j] == vals[0] + step * j
}

proof fn lemma_pred_bounds(delta: int, den: int, j: int)
    requires
        0 <= delta,
        0 <= j <= den,
    ensures
        0 <= pred(delta, den, j) <= delta,
{
    if den > 0 {
        assert(0 <= 2 * delta * j + den) by (nonlinear_arith)
            requires 0 <= delta, 0 <= j, 0 < den;
        assert(2 * delta * j + den < 2 * den * (delta + 1)) by (nonlinear_arith)
            requires 0 <= delta, 0 <= j <= den, 0 < den;
        vstd::arithmetic::div_mod::lemma_div_pos_is_pos(2 * delta * j + den, 2 * den);
        vstd::arithmetic::div_mod::lemma_div_by_multiple_is_strongly_ordered(
            2 * delta * j + den, 2 * den * (delta + 1), delta + 1, 2 * den);
        assert(2 * den * (delta + 1) == (delta + 1) * (2 * den)) by (nonlinear_arith);
        vstd::arithmetic::div_mod::lemma_div_multiples_vanish(delta + 1, 2 * den);
    }
}

proof fn lemma_min_offset_le(vals: Seq<i64>, k: int, j: int)
    requires
        0 <= j < k,
    ensures
        min_offset(vals, k) <= offset_at(vals, j),
    decreases k,
{
    if k > 1 && j < k - 1 {
        lemma_min_offset_le(vals, k - 1, j);
    }
}

proof fn lemma_min_offset_lower(vals: Seq<i64>, k: int)
    requires
        non_decreasing(vals),
        1 <= k <= vals.len(),
    ensures
        min_offset(vals, k) >= vals[0] - (vals.last() - vals[0]),
        min_offset(vals, k) <= vals[0],
    decreases k,
{
    lemma_pred_bounds(vals.last() - vals[0], vals.len() - 1, 0);
    lemma_pred_bounds(vals.last() - vals[0], vals.len() - 1, k - 1);
    if k > 1 {
        lemma_min_offset_lower(vals, k - 1);
    }
}

proof fn lemma_residual_le_max(vals: Seq<i64>, k: int, j: int)
    requires
        0 <= j < k,
    ensures
        residual_at(vals, j) <= max_residual(vals, k),
    decreases k,
{
    if j < k - 1 {
        lemma_residual_le_max(vals, k - 1, j);
    }
}

proof fn lemma_max_residual_nonneg(vals: Seq<i64>, k: int)
    ensures
        max_residual(vals, k) >= 0,
    decreases k,
{
    if k > 0 {
        lemma_max_residual_nonneg(vals, k - 1);
    }
}

proof fn lemma_bits_required(x: nat)
    ensures
        x < pow2(bits_required(x)),
        bits_required(x) == 0 <==> x == 0,
        x < 0x1_0000_0000_0000_0000 ==> bits_required(x) <= 64,
    decreases x,
{
    if x > 0 {
        lemma_bits_required(x / 2);
        let b = bits_required(x);
        lemma_pow2_unfold(b);
        assert(pow2(b) == 2 * pow2((b - 1) as nat));
    } else {
        vstd::arithmetic::power2::lemma2_to64();
    }
    if x < 0x1_0000_0000_0000_0000 {
        vstd::arithmetic::power2::lemma2_to64();
        lemma_bits_below(x, 64);
    }
}

proof fn lemma_bits_below(x: nat, w: nat)
    requires
        x < pow2(w),
    ensures
        bits_required(x) <= w,
    decreases x,
{
    if x > 0 {
        if w == 0 {
            vstd::arithmetic::power2::lemma2_to64();
        } else {
            lemma_pow2_unfold(w);
            lemma_bits_below(x / 2, (w - 1) as nat);
        }
    }
}

/// Decoding the block that encodes a run of values gives every value back.
pub proof fn lemma_block_round_trip(vals: Seq<i64>, j: int)
    requires
        vals.len() >= 1,
        0 <= j < vals.len(),
    ensures
        decode_at(encode_block(vals), j) == vals[j],
{
    let b = encode_block(vals);
    let n = vals.len() as int;
    lemma_min_offset_le(vals, n, j);
    lemma_residual_le_max(vals, n, j);
    lemma_max_residual_nonneg(vals, n);
    lemma_bits_required(max_residual(vals, n) as nat);
}

/// An arithmetic run of values encodes with residual width 0.
pub proof fn lemma_arithmetic_zero_width(vals: Seq<i64>, step: int)
    requires
        vals.len() >= 1,
        arithmetic(vals, step),
    ensures
        encode_block(vals).bits == 0,
{
    let n = vals.len() as int;
    let den = n - 1;
    let delta = vals.last() - vals[0];
    assert(delta == step * den);
    assert forall|j: int| 0 <= j < n implies #[trigger] offset_at(vals, j) == vals[0] by {
        if den > 0 {
            assert(2 * delta * j + den == (step * j) * (2 * den) + den) by (nonlinear_arith)
                requires delta == step * den;
            vstd::arithmetic::div_mod::lemma_fundamental_div_mod_converse(
                2 * delta * j + den, 2 * den, step * j, den);
        }
    }
    assert forall|k: int| 1 <= k <= n implies #[trigger] min_offset(vals, k) == vals[0] by {
        lemma_min_offset_const(vals, k);
    }
    assert forall|k: int| 0 <= k <= n implies #[trigger] max_residual(vals, k) == 0 by {
        lemma_max_residual_zero(vals, k);
    }
    lemma_bits_required(0);
}

proof fn lemma_min_offset_const(vals: Seq<i64>, k: int)
    requires
        1 <= k <= vals.len(),
        forall|j: int| 0 <= j < vals.len() ==> #[trigger] offset_at(vals, j) == vals[0],
    ensures
        min_offset(vals, k) == vals[0],
    decreases k,
{
    if k > 1 {
        lemma_min_offset_const(vals, k - 1);
    }
}

proof fn lemma_max_residual_zero(vals: Seq<i64>, k: int)
    requires
        0 <= k <= vals.len(),
        vals.len() >= 1,
        forall|j: int| 0 <= j < vals.len() ==> #[trigger] offset_at(vals, j) == vals[0],
        min_offset(vals, vals.len() as int) == vals[0],
    ensures
        max_residual(vals, k) == 0,
    decreases k,
{
    if k > 0 {
        lemma_max_residual_zero(vals, k - 1);
    }
}

/// A block as stored.
pub struct PackedBlock {
    min: i128,
    delta: u64,
    count: usize,
    bits: u32,
    residuals: Vec<u64>,
}

impl PackedBlock {
    pub closed spec fn view(&self) -> BlockView {
        BlockView {
            min: self.min as int,
            delta: self.delta as int,
            count: self.count as nat,
            bits: self.bits as nat,
            residuals: Seq::new(self.residuals@.len(), |j: int| self.residuals@[j] as int),
        }
    }

    /// Residual width of the block; 0 when the prediction is exact.
    pub fn bits_per_value(&self) -> (r: u32)
        ensures
            r == self.view().bits,
    {
        self.bits
    }

    /// Number of values in the block.
    pub fn len(&self) -> (r: usize)
        ensures
            r == self.view().count,
    {
        self.count
    }
}

fn pred_exec(delta: u64, den: usize, j: usize) -> (r: u64)
    requires
        delta < 0x8000_0000_0000_0000,
        j <= den,
    ensures
        r == pred(delta as int, den as int, j as int),
{
    if den == 0 {
        return 0;
    }
    proof {
        lemma_pred_bounds(delta as int, den as int, j as int);
        assert(2 * (delta as int) * (j as int) <= 2 * 0x7fff_ffff_ffff_ffff * 0xffff_ffff_ffff_ffff) by (nonlinear_arith)
            requires delta < 0x8000_0000_0000_0000, j <= 0xffff_ffff_ffff_ffff;
    }
    let num: u128 = 2 * (delta as u128) * (j as u128) + den as u128;
    let d: u128 = 2 * (den as u128);
    (num / d) as u64
}

/// Encodes a non-empty, non-decreasing run of values.
fn encode(vals: &[i64]) -> (b: PackedBlock)
    requires
        non_decreasing(vals@),
        span_ok(vals@),
        vals@.len() >= 1,
    ensures
        b.view() == encode_block(vals@),
{
    let ghost v = vals@;
    let n = vals.len();
    let den: usize = n - 1;
    let first = vals[0];
    let last = vals[den];
    let delta: u64 = ((last as i128) - (first as i128)) as u64;
    let ghost dl = delta as int;
    proof {
        lemma_min_offset_lower(v, n as int);
        assert(v.last() == last);
        assert(dl <= 0x7fff_ffff_ffff_ffff);
        if den > 0 {
            assert(2 * dl * 0 + den == den as int);
            vstd::arithmetic::div_mod::lemma_basic_div(den as int, 2 * den as int);
        }
        assert(pred(dl, den as int, 0) == 0);
    }
    let mut min: i128 = first as i128;
    let mut i: usize = 1;
    while i < n
        invariant
            1 <= i <= n,
            n == v.len(),
            v == vals@,
            non_decreasing(v),
            den == n - 1,
            dl == v.last() - v[0],
            dl <= 0x7fff_ffff_ffff_ffff,
            delta == dl,
            first == v[0],
            min == min_offset(v, i as int),
        decreases n - i,
    {
        let p = pred_exec(delta, den, i);
        proof {
            lemma_pred_bounds(dl, den as int, i as int);
        }
        let o: i128 = (vals[i] as i128) - (p as i128);
        if o < min {
            min = o;
        }
        i = i + 1;
    }
    proof {
        lemma_min_offset_lower(v, n as int);
    }
    let mut max_delta: u64 = 0;
    let mut res: Vec<u64> = Vec::new();
    let mut j: usize = 0;
    while j < n
        invariant
            j <= n,
            n == v.len(),
            v == vals@,
            non_decreasing(v),
            den == n - 1,
            dl == v.last() - v[0],
            dl <= 0x7fff_ffff_ffff_ffff,
            delta == dl,
            min == min_offset(v, n as int),
            min >= v[0] - dl,
            max_delta == max_residual(v, j as int),
            res@.len() == j,
            forall|k: int| 0 <= k < j ==> #[trigger] res@[k] == residual_at(v, k),
        decreases n - j,
    {
        let p = pred_exec(delta, den, j);
        proof {
            lemma_pred_bounds(dl, den as int, j as int);
            lemma_min_offset_le(v, n as int, j as int);
        }
        let r: u64 = ((vals[j] as i128) - (p as i128) - min) as u64;
        res.push(r);
        if r > max_delta {
            max_delta = r;
        }
        j = j + 1;
    }
    let mut bits: u32 = 0;
    let mut x: u64 = max_delta;
    proof {
        lemma_bits_required(max_delta as nat);
    }
    while x > 0
        invariant
            bits_required(max_delta as nat) == bits + bits_required(x as nat),
            bits_required(max_delta as nat) <= 64,
        decreases x,
    {
        x = x / 2;
        bits = bits + 1;
    }
    let residuals = if bits == 0 { Vec::new() } else { res };
    let b = PackedBlock { min, delta, count: n, bits, residuals };
    assert(b.view().residuals =~= encode_block(v).residuals);
    b
}

/// Reading position `i` of blocks that encode a sequence gives value `i`
/// back.
pub proof fn lemma_stream_round_trip(blocks: Seq<BlockView>, bs: nat, vals: Seq<i64>, i: int)
    requires
        bs >= 1,
        blocks_cover(blocks, bs, vals),
        vals.len() == covered(blocks, bs),
        0 <= i < vals.len(),
    ensures
        0 <= i / (bs as int) < blocks.len(),
        i % (bs as int) < blocks[i / (bs as int)].count,
        decode_at(blocks[i / (bs as int)], i % (bs as int)) == vals[i],
{
    let d = bs as int;
    let b = i / d;
    let j = i % d;
    let nb = blocks.len() as int;
    vstd::arithmetic::div_mod::lemma_fundamental_div_mod(i, d);
    assert(i == b * d + j) by (nonlinear_arith)
        requires i == d * (i / d) + i % d, b == i / d, j == i % d;
    assert(nb > 0);
    if b >= nb {
        assert(b * bs >= nb * bs) by (nonlinear_arith)
            requires b >= nb, bs >= 1;
        assert(nb * bs >= (nb - 1) * bs + bs) by (nonlinear_arith);
        assert(blocks[nb - 1].count <= bs);
        assert(false);
    }
    if b == nb - 1 {
        assert(blocks.last() == blocks[b]);
    }
    let sub = vals.subrange(b * bs, b * bs + blocks[b].count);
    lemma_block_round_trip(sub, j);
    assert(sub[j] == vals[i]);
}

/// Every block of an arithmetic sequence has residual width 0.
pub proof fn lemma_stream_arithmetic_zero_width(blocks: Seq<BlockView>, bs: nat, vals: Seq<i64>, step: int, b: int)
    requires
        blocks_cover(blocks, bs, vals),
        arithmetic(vals, step),
        0 <= b < blocks.len(),
    ensures
        blocks[b].bits == 0,
{
    let start = b * bs;
    let sub = vals.subrange(start, start + blocks[b].count);
    assert(start >= 0) by (nonlinear_arith)
        requires b >= 0, bs >= 0, start == b * bs;
    assert forall|j: int| 0 <= j < sub.len() implies #[trigger] sub[j] == sub[0] + step * j by {
        assert(sub[j] == vals[start + j]);
        assert(sub[0] == vals[start]);
        assert(vals[start + j] == vals[0] + step * (start + j));
        assert(vals[start] == vals[0] + step * start);
        assert(step * (start + j) == step * start + step * j) by (nonlinear_arith);
    }
    lemma_arithmetic_zero_width(sub, step);
}

/// Why a codec operation was refused.
#[derive(Clone, Copy, Debug, PartialEq, Eq, Structural)]
pub enum CodecError {
    /// The stream was already sealed by `finish`.
    AlreadyFinished,
    /// The stream has not been sealed yet.
    NotFinished,
}

pub open spec fn blocks_view(v: Seq<PackedBlock>) -> Seq<BlockView> {
    Seq::new(v.len(), |b: int| v[b].view())
}

/// Block `b` encodes the values at `b * bs ..`; all blocks but the last
/// are full.
pub open spec fn blocks_cover(blocks: Seq<BlockView>, bs: nat, vals: Seq<i64>) -> bool {
    forall|b: int|
        0 <= b < blocks.len() ==> {
            &&& 1 <= (#[trigger] blocks[b]).count <= bs
            &&& (b + 1 < blocks.len() ==> blocks[b].count == bs)
            &&& b * bs + blocks[b].count <= vals.len()
            &&& blocks[b].delta <= i64::MAX
            &&& blocks[b] == encode_block(vals.subrange(b * bs, b * bs + blocks[b].count))
        }
}

/// Number of values the blocks hold.
pub open spec fn covered(blocks: Seq<BlockView>, bs: nat) -> int {
    if blocks.len() == 0 {
        0
    } else {
        (blocks.len() - 1) * bs + blocks.last().count
    }
}

/// Appends non-decreasing values block by block.
pub struct MonotonicBlockPackedWriter {
    block_size: usize,
    values: Vec<i64>,
    off: usize,
    ord: usize,
    finished: bool,
    blocks: Vec<PackedBlock>,
    appended: Ghost<Seq<i64>>,
}

impl MonotonicBlockPackedWriter {
    pub closed spec fn wf(&self) -> bool {
        let bs = self.block_size as nat;
        let nb = self.blocks@.len() as int;
        &&& self.block_size >= 1
        &&& self.values@.len() == bs
        &&& self.off <= bs
        &&& self.ord == self.appended@.len()
        &&& non_decreasing(self.appended@)
        &&& blocks_cover(blocks_view(self.blocks@), bs, self.appended@)
        &&& !self.finished ==> {
            &&& forall|b: int| 0 <= b < nb ==> (#[trigger] self.blocks@[b]).view().count == bs
            &&& self.appended@.len() == nb * bs + self.off
            &&& self.values@.subrange(0, self.off as int) == self.appended@.subrange(nb * bs, self.appended@.len() as int)
            &&& self.off > 0 ==> self.values@[self.off - 1] - self.values@[0] <= i64::MAX
        }
        &&& self.finished ==> self.off == 0 && self.appended@.len() == covered(blocks_view(self.blocks@), bs)
    }

    /// The values appended so far.
    pub closed spec fn appended(&self) -> Seq<i64> {
        self.appended@
    }

    pub closed spec fn is_finished(&self) -> bool {
        self.finished
    }

    pub closed spec fn block_size_spec(&self) -> nat {
        self.block_size as nat
    }

    /// The blocks written so far.
    pub closed spec fn blocks(&self) -> Seq<BlockView> {
        blocks_view(self.blocks@)
    }

    /// The values appended since the last block was written.
    pub closed spec fn pending(&self) -> Seq<i64> {
        self.values@.subrange(0, self.off as int)
    }

    pub fn new(block_size: usize) -> (r: Self)
        requires
            block_size >= 1,
        ensures
            r.wf(),
            r.appended() == Seq::<i64>::empty(),
            r.blocks() == Seq::<BlockView>::empty(),
            r.pending() == Seq::<i64>::empty(),
            !r.is_finished(),
            r.block_size_spec() == block_size,
    {
        let mut values: Vec<i64> = Vec::new();
        let mut k: usize = 0;
        while k < block_size
            invariant
                k <= block_size,
                values@.len() == k,
            decreases block_size - k,
        {
            values.push(0);
            k = k + 1;
        }
        let r = MonotonicBlockPackedWriter {
            block_size,
            values,
            off: 0,
            ord: 0,
            finished: false,
            blocks: Vec::new(),
            appended: Ghost(Seq::empty()),
        };
        assert(r.values@.subrange(0, 0) =~= r.appended@.subrange(0, 0));
        assert(r.blocks() =~= Seq::<BlockView>::empty());
        assert(r.pending() =~= Seq::<i64>::empty());
        r
    }

    /// Appends a value, not below the previous one; refused once finished.
    /// A full buffer of pending values is first written as one block.
    pub fn add(&mut self, l: i64) -> (r: Result<(), CodecError>)
        requires
            old(self).wf(),
            !old(self).is_finished() ==> {
                &&& old(self).appended().len() > 0 ==> old(self).appended().last() <= l
                &&& old(self).appended().len() < usize::MAX
                &&& 0 < old(self).pending().len() < old(self).block_size_spec() ==> l - old(self).pending()[0]
                    <= i64::MAX
            },
        ensures
            final(self).wf(),
            final(self).block_size_spec() == old(self).block_size_spec(),
            old(self).is_finished() ==> r == Err::<(), CodecError>(CodecError::AlreadyFinished)
                && final(self).appended() == old(self).appended() && final(self).is_finished()
                && final(self).blocks() == old(self).blocks() && final(self).pending() == old(self).pending(),
            !old(self).is_finished() ==> r is Ok && final(self).appended() == old(self).appended().push(l)
                && !final(self).is_finished(),
            !old(self).is_finished() && old(self).pending().len() == old(self).block_size_spec()
                ==> final(self).blocks() == old(self).blocks().push(encode_block(old(self).pending()))
                && final(self).pending() == seq![l],
            !old(self).is_finished() && old(self).pending().len() < old(self).block_size_spec()
                ==> final(self).blocks() == old(self).blocks() && final(self).pending() == old(self).pending().push(l),
    {
        if self.finished {
            return Err(CodecError::AlreadyFinished);
        }
        if self.off == self.values.len() {
            self.flush();
        }
        let ghost prev = self.appended@;
        let ghost nb = self.blocks@.len() as int;
        let ghost bs = self.block_size as int;
        let ghost old_values = self.values@;
        let ghost off1 = self.off as int;
        assert(self.wf());
        assert(old_values.subrange(0, off1) == prev.subrange(nb * bs, prev.len() as int));
        self.values.set(self.off, l);
        self.off = self.off + 1;
        self.ord = self.ord + 1;
        self.appended = Ghost(self.appended@.push(l));
        proof {
            let a = self.appended@;
            assert forall|b: int| 0 <= b < nb implies a.subrange(b * bs, b * bs + (#[trigger] blocks_view(self.blocks@)[b]).count) =~= prev.subrange(b * bs, b * bs + blocks_view(self.blocks@)[b].count) by {}
            assert(self.values@.subrange(0, self.off as int) =~= old_values.subrange(0, off1).push(l));
            assert(a.subrange(nb * bs, a.len() as int) =~= prev.subrange(nb * bs, prev.len() as int).push(l));
            if off1 > 0 {
                assert(prev.len() == nb * bs + off1);
                assert(old_values.subrange(0, off1)[off1 - 1] == old_values[off1 - 1]);
                assert(prev.subrange(nb * bs, prev.len() as int)[off1 - 1] == prev[prev.len() - 1]);
                assert(old_values[off1 - 1] == prev.last());
            }
        }
        Ok(())
    }

    /// Writes the buffered values as one block.
    fn flush(&mut self)
        requires
            old(self).wf(),
            !old(self).is_finished(),
            old(self).off > 0,
        ensures
            final(self).off == 0,
            final(self).block_size == old(self).block_size,
            final(self).values@.len() == old(self).values@.len(),
            final(self).appended == old(self).appended,
            final(self).finished == old(self).finished,
            final(self).ord == old(self).ord,
            non_decreasing(final(self).appended@),
            final(self).blocks@.len() == old(self).blocks@.len() + 1,
            blocks_cover(blocks_view(final(self).blocks@), final(self).block_size as nat, final(self).appended@),
            covered(blocks_view(final(self).blocks@), final(self).block_size as nat) == final(self).appended@.len(),
            old(self).off == old(self).block_size ==> final(self).wf(),
            blocks_view(final(self).blocks@) == blocks_view(old(self).blocks@).push(
                encode_block(old(self).values@.subrange(0, old(self).off as int)),
            ),
            final(self).values@ == old(self).values@,
    {
        let ghost a = self.appended@;
        let ghost nb = self.blocks@.len() as int;
        let ghost bs = self.block_size as int;
        let ghost off0 = self.off as int;
        proof {
            assert(self.values@.subrange(0, off0) == a.subrange(nb * bs, a.len() as int));
            assert(a.subrange(nb * bs, nb * bs + off0) =~= a.subrange(nb * bs, a.len() as int));
        }
        proof {
            let p = self.values@.subrange(0, off0);
            assert(p.last() == self.values@[off0 - 1]);
        }
        let blk = encode(&self.values.as_slice()[0..self.off]);
        self.blocks.push(blk);
        self.off = 0;
        proof {
            let bv = blocks_view(self.blocks@);
            assert forall|b: int| 0 <= b < bv.len() implies {
                &&& 1 <= (#[trigger] bv[b]).count <= bs
                &&& (b + 1 < bv.len() ==> bv[b].count == bs)
                &&& b * bs + bv[b].count <= a.len()
                &&& bv[b].delta <= i64::MAX
                &&& bv[b] == encode_block(a.subrange(b * bs, b * bs + bv[b].count))
            } by {
                if b < nb {
                    assert(bv[b] == old(self).blocks@[b].view());
                    assert(blocks_view(old(self).blocks@)[b] == old(self).blocks@[b].view());
                }
            }
            assert(bv =~= blocks_view(old(self).blocks@).push(encode_block(old(self).values@.subrange(0, off0))));
            if off0 == bs {
                assert forall|b: int| 0 <= b < nb + 1 implies (#[trigger] self.blocks@[b]).view().count == bs by {
                    if b < nb {
                        assert(self.blocks@[b] == old(self).blocks@[b]);
                    }
                }
                assert((nb + 1) * bs == nb * bs + bs) by (nonlinear_arith);
                assert(bv.last() == self.blocks@[nb].view());
                assert(self.values@.subrange(0, 0) =~= a.subrange((nb + 1) * bs, a.len() as int));
            }
        }
    }

    /// Flushes the last partial block and seals the stream.
    pub fn finish(&mut self) -> (r: Result<(), CodecError>)
        requires
            old(self).wf(),
        ensures
            final(self).wf(),
            final(self).appended() == old(self).appended(),
            final(self).block_size_spec() == old(self).block_size_spec(),
            final(self).is_finished(),
            r is Err <==> old(self).is_finished(),
            r is Err ==> r == Err::<(), CodecError>(CodecError::AlreadyFinished),
            !old(self).is_finished() && old(self).pending().len() > 0
                ==> final(self).blocks() == old(self).blocks().push(encode_block(old(self).pending())),
            old(self).is_finished() || old(self).pending().len() == 0
                ==> final(self).blocks() == old(self).blocks(),
            final(self).pending().len() == 0,
            blocks_cover(final(self).blocks(), final(self).block_size_spec(), final(self).appended()),
            final(self).appended().len() == covered(final(self).blocks(), final(self).block_size_spec()),
    {
        if self.finished {
            return Err(CodecError::AlreadyFinished);
        }
        if self.off > 0 {
            self.flush();
        } else {
            proof {
                let bv = blocks_view(self.blocks@);
                let nb = bv.len() as int;
                let bs = self.block_size as int;
                if nb > 0 {
                    assert(bv.last() == self.blocks@[nb - 1].view());
                    assert(self.blocks@[nb - 1].view().count == bs);
                    assert((nb - 1) * bs + bs == nb * bs) by (nonlinear_arith);
                    assert(covered(bv, bs as nat) == (nb - 1) * bs + bs);
                }
                assert(self.appended@.len() == nb * bs);
                if nb == 0 {
                    assert(nb * bs == 0) by (nonlinear_arith)
                        requires nb == 0;
                }
            }
        }
        self.finished = true;
        Ok(())
    }

    /// Starts a new, empty stream with the same block size.
    pub fn reset(&mut self)
        requires
            old(self).wf(),
        ensures
            final(self).wf(),
            final(self).appended() == Seq::<i64>::empty(),
            final(self).blocks() == Seq::<BlockView>::empty(),
            final(self).pending() == Seq::<i64>::empty(),
            !final(self).is_finished(),
            final(self).block_size_spec() == old(self).block_size_spec(),
    {
        self.off = 0;
        self.ord = 0;
        self.finished = false;
        self.blocks = Vec::new();
        self.appended = Ghost(Seq::empty());
        assert(self.values@.subrange(0, 0) =~= self.appended@.subrange(0, 0));
        assert(self.blocks() =~= Seq::<BlockView>::empty());
        assert(self.pending() =~= Seq::<i64>::empty());
    }

    /// The reader over a sealed stream.
    pub fn into_reader(self) -> (r: Result<MonotonicBlockPackedReader, CodecError>)
        requires
            self.wf(),
        ensures
            r is Err <==> !self.is_finished(),
            r is Err ==> r == Err::<MonotonicBlockPackedReader, CodecError>(CodecError::NotFinished),
            r matches Ok(rd) ==> rd@ == self.appended() && rd.blocks() == self.blocks()
                && rd.block_size_spec() == self.block_size_spec()
                && blocks_cover(rd.blocks(), rd.block_size_spec(), rd@)
                && rd@.len() == covered(rd.blocks(), rd.block_size_spec()),
    {
        if !self.finished {
            return Err(CodecError::NotFinished);
        }
        Ok(MonotonicBlockPackedReader {
            block_size: self.block_size,
            blocks: self.blocks,
            len: self.ord,
            vals: self.appended,
        })
    }
}

/// Random access to the values of a sealed stream.
pub struct MonotonicBlockPackedReader {
    block_size: usize,
    blocks: Vec<PackedBlock>,
    len: usize,
    vals: Ghost<Seq<i64>>,
}

impl View for MonotonicBlockPackedReader {
    type V = Seq<i64>;

    closed spec fn view(&self) -> Seq<i64> {
        self.vals@
    }
}

impl MonotonicBlockPackedReader {
    #[verifier::type_invariant]
    spec fn wf(&self) -> bool {
        &&& self.block_size >= 1
        &&& non_decreasing(self.vals@)
        &&& blocks_cover(blocks_view(self.blocks@), self.block_size as nat, self.vals@)
        &&& self.vals@.len() == covered(blocks_view(self.blocks@), self.block_size as nat)
        &&& self.len == self.vals@.len()
    }

    pub closed spec fn blocks(&self) -> Seq<BlockView> {
        blocks_view(self.blocks@)
    }

    pub closed spec fn block_size_spec(&self) -> nat {
        self.block_size as nat
    }

    pub fn size(&self) -> (r: usize)
        ensures
            r == self@.len(),
    {
        proof {
            use_type_invariant(self);
        }
        self.len
    }

    pub fn num_blocks(&self) -> (r: usize)
        ensures
            r == self.blocks().len(),
    {
        self.blocks.len()
    }

    /// Residual width of block `b`; 0 when the block is predicted exactly.
    pub fn block_bits_per_value(&self, b: usize) -> (r: u32)
        requires
            b < self.blocks().len(),
        ensures
            r == self.blocks()[b as int].bits,
    {
        self.blocks[b].bits_per_value()
    }

    /// The value at `index`.
    pub fn get(&self, index: usize) -> (r: i64)
        requires
            index < self@.len(),
        ensures
            r == self@[index as int],
    {
        proof {
            use_type_invariant(self);
        }
        let bs = self.block_size;
        let b = index / bs;
        let j = index % bs;
        let ghost bv = blocks_view(self.blocks@);
        proof {
            lemma_stream_round_trip(bv, bs as nat, self.vals@, index as int);
            assert(bv[b as int] == self.blocks@[b as int].view());
        }
        let blk = &self.blocks[b];
        proof {
            assert(blk.view().residuals.len() == blk.residuals@.len());
            let sub = self.vals@.subrange(b * bs, b * bs + blk.count);
            assert(blk.view() == encode_block(sub));
            assert(sub.last() == sub[sub.len() - 1]);
            if blk.bits != 0 {
                assert(blk.view().residuals[j as int] == blk.residuals@[j as int] as int);
            }
        }
        let p = pred_exec(blk.delta, blk.count - 1, j);
        let extra: u64 = if blk.bits == 0 { 0 } else { blk.residuals[j] };
        (blk.min + (p as i128) + (extra as i128)) as i64
    }
}

} // verus!
