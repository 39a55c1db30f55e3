//! Grouping utilities: a segment buffer that collects edges batch by batch,
//! and a stable radix sort of a list of batches on a 32-bit key.

use vstd::arithmetic::div_mod::{lemma_fundamental_div_mod_converse, lemma_mod_breakdown};
use vstd::prelude::*;
use vstd::seq_lib::{lemma_multiset_commutative, to_multiset_build, to_multiset_len};

verus! {

/// A directed edge: `(source, destination)`.
pub type Edge = (u32, u32);

/// The batches of `v` laid end to end.
pub open spec fn flat(v: Seq<Vec<Edge>>) -> Seq<Edge>
    decreases v.len(),
{
    if v.len() == 0 {
        Seq::empty()
    } else {
        flat(v.drop_last()) + v.last()@
    }
}

/// Adding a batch at the end adds its edges at the end.
pub proof fn flat_push(v: Seq<Vec<Edge>>, b: Vec<Edge>)
    ensures
        flat(v.push(b)) == flat(v) + b@,
{
    assert(v.push(b).drop_last() =~= v);
}

/// The first `i` batches, then the first `j` edges of batch `i`, grow by one
/// edge when `j` does, and reach the first `i + 1` batches when batch `i` ends.
pub proof fn flat_take(v: Seq<Vec<Edge>>, i: int, j: int)
    requires
        0 <= i < v.len(),
        0 <= j <= v[i]@.len(),
    ensures
        j < v[i]@.len() ==> flat(v.take(i)) + v[i]@.take(j + 1) == (flat(v.take(i)) + v[i]@.take(
            j,
        )).push(v[i]@[j]),
        j == v[i]@.len() ==> flat(v.take(i)) + v[i]@.take(j) == flat(v.take(i + 1)),
        flat(v.take(i)) + v[i]@.take(0) == flat(v.take(i)),
{
    if j < v[i]@.len() {
        assert(v[i]@.take(j + 1) =~= v[i]@.take(j).push(v[i]@[j]));
        assert(flat(v.take(i)) + v[i]@.take(j).push(v[i]@[j]) =~= (flat(v.take(i)) + v[i]@.take(
            j,
        )).push(v[i]@[j]));
    } else {
        assert(v[i]@.take(j) =~= v[i]@);
        assert(v.take(i + 1).drop_last() =~= v.take(i));
        assert(v.take(i + 1).last() == v[i]);
    }
    assert(flat(v.take(i)) + v[i]@.take(0) =~= flat(v.take(i)));
}

/// The first `i` batches and the first `j` edges of batch `i` are a prefix of
/// the whole.
pub proof fn flat_prefix(v: Seq<Vec<Edge>>, i: int, j: int)
    requires
        0 <= i < v.len(),
        0 <= j <= v[i]@.len(),
    ensures
        flat(v.take(i)).len() + j <= flat(v).len(),
        flat(v.take(i)) + v[i]@.take(j) == flat(v).take(flat(v.take(i)).len() + j),
    decreases v.len(),
{
    let rest = v.drop_last();
    if i == v.len() - 1 {
        assert(v.take(i) =~= rest);
        assert(flat(rest) + v[i]@.take(j) =~= (flat(rest) + v.last()@).take(flat(rest).len() + j));
    } else {
        flat_prefix(rest, i, j);
        assert(rest.take(i) =~= v.take(i));
        let n = flat(v.take(i)).len() + j;
        assert(flat(rest).take(n) =~= (flat(rest) + v.last()@).take(n));
    }
}

/// A growable buffer of edges, stored as a list of segments of bounded length
/// so that no single allocation has to hold everything.
pub struct SegmentList {
    size: usize,
    segments: Vec<Vec<Edge>>,
    current: Vec<Edge>,
}

impl SegmentList {
    /// The edges pushed so far, in arrival order.
    pub closed spec fn view(&self) -> Seq<Edge> {
        flat(self.segments@) + self.current@
    }

    /// The length every full segment has (at least one).
    pub closed spec fn segment_len(&self) -> int {
        if self.size == 0 {
            1
        } else {
            self.size as int
        }
    }

    /// Stored segments are full, and the one being filled is not over-full.
    pub closed spec fn wf(&self) -> bool {
        &&& forall|i: int|
            0 <= i < self.segments@.len() ==> (#[trigger] self.segments@[i])@.len()
                == self.segment_len()
        &&& self.current@.len() <= self.segment_len()
    }

    /// An empty buffer whose segments hold `size` edges each (one, if `size` is 0).
    pub fn new(size: usize) -> (list: SegmentList)
        ensures
            list.wf(),
            list@ == Seq::<Edge>::empty(),
            list.segment_len() == if size == 0 { 1 } else { size as int },
    {
        let list = SegmentList { size, segments: Vec::new(), current: Vec::new() };
        assert(list@ =~= Seq::<Edge>::empty());
        list
    }

    /// Appends the edges of `batch`, in order.
    pub fn push(&mut self, batch: &[Edge])
        requires
            old(self).wf(),
        ensures
            final(self).wf(),
            final(self)@ == old(self)@ + batch@,
            final(self).segment_len() == old(self).segment_len(),
    {
        let cap: usize = if self.size == 0 { 1 } else { self.size };
        let mut i: usize = 0;
        assert(batch@.take(0) =~= Seq::<Edge>::empty());
        assert(self@ + batch@.take(0) =~= self@);
        while i < batch.len()
            invariant
                i <= batch@.len(),
                self.wf(),
                self.size == old(self).size,
                cap as int == self.segment_len(),
                self@ == old(self)@ + batch@.take(i as int),
            decreases batch@.len() - i,
        {
            if self.current.len() >= cap {
                let mut full: Vec<Edge> = Vec::new();
                let ghost before = self.segments@;
                let ghost cur = self.current@;
                core::mem::swap(&mut self.current, &mut full);
                self.segments.push(full);
                proof {
                    flat_push(before, full);
                    assert(flat(before) + cur + Seq::<Edge>::empty() =~= flat(before) + cur);
                }
            }
            let ghost seen = self@;
            self.current.push(batch[i]);
            proof {
                assert(self@ =~= seen.push(batch@[i as int]));
                assert(batch@.take(i + 1) =~= batch@.take(i as int).push(batch@[i as int]));
                assert(old(self)@ + batch@.take(i as int).push(batch@[i as int]) =~= (old(self)@
                    + batch@.take(i as int)).push(batch@[i as int]));
            }
            i += 1;
        }
        assert(batch@.take(i as int) =~= batch@);
    }

    /// Hands out everything pushed so far as a list of batches and leaves the
    /// buffer empty. Every batch but the last is a full segment; none is empty.
    pub fn finalize(&mut self) -> (batches: Vec<Vec<Edge>>)
        requires
            old(self).wf(),
        ensures
            final(self).wf(),
            final(self)@ == Seq::<Edge>::empty(),
            final(self).segment_len() == old(self).segment_len(),
            flat(batches@) == old(self)@,
            forall|i: int|
                0 <= i < batches@.len() - 1 ==> (#[trigger] batches@[i])@.len() == old(
                    self,
                ).segment_len(),
            batches@.len() > 0 ==> 0 < batches@.last()@.len() <= old(self).segment_len(),
    {
        if self.current.len() > 0 {
            let mut last: Vec<Edge> = Vec::new();
            let ghost before = self.segments@;
            core::mem::swap(&mut self.current, &mut last);
            self.segments.push(last);
            proof {
                flat_push(before, last);
            }
        } else {
            assert(flat(self.segments@) + self.current@ =~= flat(self.segments@));
        }
        let mut batches: Vec<Vec<Edge>> = Vec::new();
        core::mem::swap(&mut self.segments, &mut batches);
        assert(self@ =~= Seq::<Edge>::empty());
        batches
    }
}

/// A key function may be called on every edge and gives one key per edge.
pub open spec fn single_valued<F: Fn(&Edge) -> u32>(f: &F) -> bool {
    &&& forall|e: Edge| #[trigger] f.requires((&e,))
    &&& forall|e: Edge, a: u32, b: u32|
        #[trigger] f.ensures((&e,), a) && #[trigger] f.ensures((&e,), b) ==> a == b
}

/// `kf` is the key that `f` computes: whatever `f` returns for an edge is
/// `kf` of that edge.
pub open spec fn keyed_by<F: Fn(&Edge) -> u32>(f: &F, kf: spec_fn(Edge) -> u32) -> bool {
    forall|e: Edge, k: u32| #[trigger] f.ensures((&e,), k) ==> k == kf(e)
}

/// Some key that `f` may return for each edge.
spec fn key_of<F: Fn(&Edge) -> u32>(f: &F) -> spec_fn(Edge) -> u32 {
    |e: Edge| choose|k: u32| f.ensures((&e,), k)
}

/// The digit of `key` that one pass looks at: `key / unit`, reduced modulo `span`.
pub open spec fn slot(key: u32, unit: int, span: int) -> int {
    (key as int / unit) % span
}

/// The edges of `s` whose slot is `k`, in the order they have in `s`.
pub open spec fn pick(s: Seq<Edge>, key: spec_fn(Edge) -> u32, unit: int, span: int, k: int) -> Seq<
    Edge,
>
    decreases s.len(),
{
    if s.len() == 0 {
        s
    } else {
        let rest = pick(s.drop_last(), key, unit, span, k);
        if slot(key(s.last()), unit, span) == k {
            rest.push(s.last())
        } else {
            rest
        }
    }
}

/// The edges with slot 0, then those with slot 1, and so on up to slot `n - 1`.
pub open spec fn gather(s: Seq<Edge>, key: spec_fn(Edge) -> u32, unit: int, span: int, n: int) -> Seq<
    Edge,
>
    decreases n,
{
    if n <= 0 {
        Seq::empty()
    } else {
        gather(s, key, unit, span, n - 1) + pick(s, key, unit, span, n - 1)
    }
}

/// `s` in increasing order of key, edges of equal key in the order they had.
pub open spec fn sorted_by_key(s: Seq<Edge>, key: spec_fn(Edge) -> u32) -> Seq<Edge> {
    gather(s, key, 1, 0x1_0000_0000, 0x1_0000_0000)
}

/// The edges of `s` whose key is `k`, in the order they have in `s`.
pub open spec fn with_key(s: Seq<Edge>, key: spec_fn(Edge) -> u32, k: u32) -> Seq<Edge> {
    pick(s, key, 1, 0x1_0000_0000, k as int)
}

proof fn pick_push(s: Seq<Edge>, e: Edge, key: spec_fn(Edge) -> u32, unit: int, span: int, k: int)
    ensures
        pick(s.push(e), key, unit, span, k) == if slot(key(e), unit, span) == k {
            pick(s, key, unit, span, k).push(e)
        } else {
            pick(s, key, unit, span, k)
        },
{
    assert(s.push(e).drop_last() =~= s);
}

proof fn pick_add(a: Seq<Edge>, b: Seq<Edge>, key: spec_fn(Edge) -> u32, unit: int, span: int, k: int)
    ensures
        pick(a + b, key, unit, span, k) == pick(a, key, unit, span, k) + pick(
            b,
            key,
            unit,
            span,
            k,
        ),
    decreases b.len(),
{
    if b.len() == 0 {
        assert(a + b =~= a);
        assert(pick(a, key, unit, span, k) + pick(b, key, unit, span, k) =~= pick(
            a,
            key,
            unit,
            span,
            k,
        ));
    } else {
        let e = b.last();
        assert(a + b =~= (a + b.drop_last()).push(e));
        pick_push(a + b.drop_last(), e, key, unit, span, k);
        pick_add(a, b.drop_last(), key, unit, span, k);
        let pa = pick(a, key, unit, span, k);
        let pb = pick(b.drop_last(), key, unit, span, k);
        assert((pa + pb).push(e) =~= pa + pb.push(e));
    }
}

/// Every edge that `pick` keeps has the slot asked for and comes from `s`.
proof fn pick_members(s: Seq<Edge>, key: spec_fn(Edge) -> u32, unit: int, span: int, k: int)
    ensures
        pick(s, key, unit, span, k).len() <= s.len(),
        forall|i: int|
            0 <= i < pick(s, key, unit, span, k).len() ==> slot(
                key(#[trigger] pick(s, key, unit, span, k)[i]),
                unit,
                span,
            ) == k,
    decreases s.len(),
{
    if s.len() > 0 {
        pick_members(s.drop_last(), key, unit, span, k);
    }
}

/// Picking from a sequence whose edges all have slot `j`: all of it, or nothing.
proof fn pick_uniform(s: Seq<Edge>, key: spec_fn(Edge) -> u32, unit: int, span: int, j: int, k: int)
    requires
        forall|i: int| 0 <= i < s.len() ==> slot(key(#[trigger] s[i]), unit, span) == j,
    ensures
        pick(s, key, unit, span, k) == if j == k {
            s
        } else {
            Seq::empty()
        },
    decreases s.len(),
{
    if s.len() > 0 {
        pick_uniform(s.drop_last(), key, unit, span, j, k);
        assert(s.drop_last().push(s.last()) =~= s);
    }
}

/// Two picks, by whatever digits, may be taken in either order.
proof fn pick_commutes(
    s: Seq<Edge>,
    key: spec_fn(Edge) -> u32,
    u1: int,
    n1: int,
    k1: int,
    u2: int,
    n2: int,
    k2: int,
)
    ensures
        pick(pick(s, key, u1, n1, k1), key, u2, n2, k2) == pick(
            pick(s, key, u2, n2, k2),
            key,
            u1,
            n1,
            k1,
        ),
    decreases s.len(),
{
    if s.len() > 0 {
        let t = s.drop_last();
        let e = s.last();
        pick_commutes(t, key, u1, n1, k1, u2, n2, k2);
        pick_push(pick(t, key, u1, n1, k1), e, key, u2, n2, k2);
        pick_push(pick(t, key, u2, n2, k2), e, key, u1, n1, k1);
    }
}

/// Picking from a gathered sequence is gathering the picked one.
proof fn pick_gather(
    s: Seq<Edge>,
    key: spec_fn(Edge) -> u32,
    u1: int,
    n1: int,
    n: int,
    u2: int,
    n2: int,
    k: int,
)
    ensures
        pick(gather(s, key, u1, n1, n), key, u2, n2, k) == gather(
            pick(s, key, u2, n2, k),
            key,
            u1,
            n1,
            n,
        ),
    decreases n,
{
    if n > 0 {
        pick_gather(s, key, u1, n1, n - 1, u2, n2, k);
        pick_add(
            gather(s, key, u1, n1, n - 1),
            pick(s, key, u1, n1, n - 1),
            key,
            u2,
            n2,
            k,
        );
        pick_commutes(s, key, u1, n1, n - 1, u2, n2, k);
    }
}

/// A key's slot among `unit * span` low values splits into its digit above
/// `unit` and its slot below `unit`.
proof fn slot_split(key: u32, unit: int, span: int, q: int, j: int)
    requires
        0 < unit,
        0 < span,
        0 <= q < span,
        0 <= j < unit,
    ensures
        slot(key, 1, unit * span) == q * unit + j <==> slot(key, unit, span) == q && slot(
            key,
            1,
            unit,
        ) == j,
{
    let x = key as int;
    let a = (x / unit) % span;
    let b = x % unit;
    lemma_mod_breakdown(x, unit, span);
    assert(x % (unit * span) == a * unit + b) by (nonlinear_arith)
        requires
            x % (unit * span) == unit * a + b,
    ;
    if a * unit + b == q * unit + j {
        lemma_fundamental_div_mod_converse(a * unit + b, unit, a, b);
        lemma_fundamental_div_mod_converse(a * unit + b, unit, q, j);
    }
}

proof fn pick_split(s: Seq<Edge>, key: spec_fn(Edge) -> u32, unit: int, span: int, q: int, j: int)
    requires
        0 < unit,
        0 < span,
        0 <= q < span,
        0 <= j < unit,
    ensures
        pick(s, key, 1, unit * span, q * unit + j) == pick(
            pick(s, key, unit, span, q),
            key,
            1,
            unit,
            j,
        ),
    decreases s.len(),
{
    if s.len() > 0 {
        let e = s.last();
        pick_split(s.drop_last(), key, unit, span, q, j);
        slot_split(key(e), unit, span, q, j);
        pick_push(pick(s.drop_last(), key, unit, span, q), e, key, 1, unit, j);
    }
}

proof fn gather_extend(s: Seq<Edge>, key: spec_fn(Edge) -> u32, unit: int, span: int, q: int, j: int)
    requires
        0 < unit,
        0 < span,
        0 <= q < span,
        0 <= j <= unit,
    ensures
        gather(s, key, 1, unit * span, q * unit + j) == gather(s, key, 1, unit * span, q * unit)
            + gather(pick(s, key, unit, span, q), key, 1, unit, j),
    decreases j,
{
    let m = unit * span;
    let base = gather(s, key, 1, m, q * unit);
    let part = pick(s, key, unit, span, q);
    if j == 0 {
        assert(base + gather(part, key, 1, unit, 0) =~= base);
    } else {
        assert(q * unit >= 0) by (nonlinear_arith)
            requires
                q >= 0,
                unit > 0,
        ;
        gather_extend(s, key, unit, span, q, j - 1);
        pick_split(s, key, unit, span, q, j - 1);
        let low = gather(part, key, 1, unit, j - 1);
        let top = pick(part, key, 1, unit, j - 1);
        assert(gather(s, key, 1, m, q * unit + j) == gather(s, key, 1, m, q * unit + j - 1) + pick(
            s,
            key,
            1,
            m,
            q * unit + j - 1,
        ));
        assert((base + low) + top =~= base + (low + top));
    }
}

/// One more pass, on the digit above `unit`, of a sequence already in order of
/// its keys below `unit`, puts the first `r` digits' worth in order.
proof fn radix_step(s: Seq<Edge>, key: spec_fn(Edge) -> u32, unit: int, span: int, r: int)
    requires
        0 < unit,
        0 < span,
        0 <= r <= span,
    ensures
        gather(gather(s, key, 1, unit, unit), key, unit, span, r) == gather(
            s,
            key,
            1,
            unit * span,
            r * unit,
        ),
    decreases r,
{
    if r == 0 {
        assert(r * unit == 0);
    } else {
        radix_step(s, key, unit, span, r - 1);
        pick_gather(s, key, 1, unit, unit, unit, span, r - 1);
        gather_extend(s, key, unit, span, r - 1, unit);
        assert((r - 1) * unit + unit == r * unit) by (nonlinear_arith);
    }
}

/// Buckets that hold the picks for slots `0 .. n`, laid end to end, are the gathering.
proof fn flat_buckets(
    v: Seq<Vec<Edge>>,
    s: Seq<Edge>,
    key: spec_fn(Edge) -> u32,
    unit: int,
    span: int,
    n: int,
)
    requires
        0 <= n <= v.len(),
        forall|k: int| 0 <= k < n ==> (#[trigger] v[k])@ == pick(s, key, unit, span, k),
    ensures
        flat(v.take(n)) == gather(s, key, unit, span, n),
    decreases n,
{
    if n > 0 {
        flat_buckets(v, s, key, unit, span, n - 1);
        assert(v.take(n).drop_last() =~= v.take(n - 1));
        assert(v.take(n).last() == v[n - 1]);
    }
}

/// The weight of the digit that a pass with this shift looks at.
spec fn unit_of(shift: u32) -> int {
    if shift == 0 {
        1
    } else if shift == 8 {
        0x100
    } else if shift == 16 {
        0x1_0000
    } else {
        0x100_0000
    }
}

proof fn digit_is_slot(k: u32, shift: u32)
    requires
        shift == 0 || shift == 8 || shift == 16 || shift == 24,
    ensures
        ((k >> shift) & 0xff) as int == slot(k, unit_of(shift), 256),
        0 <= slot(k, unit_of(shift), 256) < 256,
{
    if shift == 0 {
        assert((k >> 0u32) & 0xff == (k / 1u32) % 256u32) by (bit_vector);
    } else if shift == 8 {
        assert((k >> 8u32) & 0xff == (k / 0x100u32) % 256u32) by (bit_vector);
    } else if shift == 16 {
        assert((k >> 16u32) & 0xff == (k / 0x1_0000u32) % 256u32) by (bit_vector);
    } else {
        assert((k >> 24u32) & 0xff == (k / 0x100_0000u32) % 256u32) by (bit_vector);
    }
}

/// One stable pass: the edges are dealt into 256 buckets by one byte of their
/// key, and the buckets become the new list of batches.
fn radix_pass<F: Fn(&Edge) -> u32>(
    data: &mut Vec<Vec<Edge>>,
    scratch: &mut Vec<Vec<Edge>>,
    key: &F,
    shift: u32,
    Ghost(kf): Ghost<spec_fn(Edge) -> u32>,
)
    requires
        single_valued(key),
        keyed_by(key, kf),
        shift == 0 || shift == 8 || shift == 16 || shift == 24,
    ensures
        flat(final(data)@) == gather(flat(old(data)@), kf, unit_of(shift), 256, 256),
        forall|t: int|
            0 <= t < flat(old(data)@).len() ==> key.ensures(
                (&#[trigger] flat(old(data)@)[t],),
                kf(flat(old(data)@)[t]),
            ),
{
    let ghost unit = unit_of(shift);
    scratch.clear();
    let mut b: usize = 0;
    while b < 256
        invariant
            b <= 256,
            scratch@.len() == b,
            forall|k: int| 0 <= k < b ==> (#[trigger] scratch@[k])@ == Seq::<Edge>::empty(),
        decreases 256 - b,
    {
        scratch.push(Vec::new());
        b += 1;
    }
    let mut i: usize = 0;
    while i < data.len()
        invariant
            single_valued(key),
            shift == 0 || shift == 8 || shift == 16 || shift == 24,
            keyed_by(key, kf),
            unit == unit_of(shift),
            i <= data@.len(),
            scratch@.len() == 256,
            forall|t: int|
                0 <= t < flat(data@.take(i as int)).len() ==> key.ensures(
                    (&#[trigger] flat(data@.take(i as int))[t],),
                    kf(flat(data@.take(i as int))[t]),
                ),
            forall|k: int|
                0 <= k < 256 ==> (#[trigger] scratch@[k])@ == pick(
                    flat(data@.take(i as int)),
                    kf,
                    unit,
                    256,
                    k,
                ),
        decreases data@.len() - i,
    {
        let mut j: usize = 0;
        proof {
            flat_take(data@, i as int, 0);
        }
        while j < data[i].len()
            invariant
                single_valued(key),
                shift == 0 || shift == 8 || shift == 16 || shift == 24,
                keyed_by(key, kf),
                unit == unit_of(shift),
                i < data@.len(),
                j <= data@[i as int]@.len(),
                scratch@.len() == 256,
                forall|t: int|
                    0 <= t < (flat(data@.take(i as int)) + data@[i as int]@.take(j as int)).len()
                        ==> key.ensures(
                        (&#[trigger] (flat(data@.take(i as int)) + data@[i as int]@.take(
                            j as int,
                        ))[t],),
                        kf((flat(data@.take(i as int)) + data@[i as int]@.take(j as int))[t]),
                    ),
                forall|k: int|
                    0 <= k < 256 ==> (#[trigger] scratch@[k])@ == pick(
                        flat(data@.take(i as int)) + data@[i as int]@.take(j as int),
                        kf,
                        unit,
                        256,
                        k,
                    ),
            decreases data@[i as int]@.len() - j,
        {
            let e: Edge = data[i][j];
            let kv: u32 = key(&e);
            let d: usize = ((kv >> shift) & 0xff) as usize;
            let ghost seen = flat(data@.take(i as int)) + data@[i as int]@.take(j as int);
            let ghost before = scratch@;
            proof {
                assert(key.ensures((&e,), kv));
                assert(kv == kf(e));
                assert forall|t: int| 0 <= t < seen.push(e).len() implies key.ensures(
                    (&#[trigger] seen.push(e)[t],),
                    kf(seen.push(e)[t]),
                ) by {
                    if t < seen.len() {
                        assert(seen.push(e)[t] == seen[t]);
                    }
                }
                digit_is_slot(kv, shift);
                flat_take(data@, i as int, j as int);
            }
            scratch[d].push(e);
            proof {
                assert forall|k: int| 0 <= k < 256 implies (#[trigger] scratch@[k])@ == pick(
                    seen.push(e),
                    kf,
                    unit,
                    256,
                    k,
                ) by {
                    pick_push(seen, e, kf, unit, 256, k);
                    if k != d {
                        assert(scratch@[k] == before[k]);
                    }
                }
            }
            j += 1;
        }
        proof {
            flat_take(data@, i as int, j as int);
        }
        i += 1;
    }
    proof {
        assert(data@.take(i as int) =~= data@);
        flat_buckets(scratch@, flat(data@), kf, unit, 256, 256);
        assert(scratch@.take(256) =~= scratch@);
    }
    core::mem::swap(data, scratch);
}

proof fn pick_same_keys(
    s: Seq<Edge>,
    k1: spec_fn(Edge) -> u32,
    k2: spec_fn(Edge) -> u32,
    unit: int,
    span: int,
    k: int,
)
    requires
        forall|i: int| 0 <= i < s.len() ==> k1(#[trigger] s[i]) == k2(s[i]),
    ensures
        pick(s, k1, unit, span, k) == pick(s, k2, unit, span, k),
    decreases s.len(),
{
    if s.len() > 0 {
        let t = s.drop_last();
        assert forall|i: int| 0 <= i < t.len() implies k1(#[trigger] t[i]) == k2(t[i]) by {
            assert(t[i] == s[i]);
        }
        pick_same_keys(t, k1, k2, unit, span, k);
        assert(s.last() == s[s.len() - 1]);
    }
}

proof fn gather_same_keys(
    s: Seq<Edge>,
    k1: spec_fn(Edge) -> u32,
    k2: spec_fn(Edge) -> u32,
    unit: int,
    span: int,
    n: int,
)
    requires
        forall|i: int| 0 <= i < s.len() ==> k1(#[trigger] s[i]) == k2(s[i]),
    ensures
        gather(s, k1, unit, span, n) == gather(s, k2, unit, span, n),
    decreases n,
{
    if n > 0 {
        gather_same_keys(s, k1, k2, unit, span, n - 1);
        pick_same_keys(s, k1, k2, unit, span, n - 1);
    }
}

/// Sorts the edges of `data` by the 32-bit key that `key` computes, in four
/// stable passes over the key's bytes, lowest first. Edges of equal key keep
/// their order. `scratch` is working space: what it held is dropped, and what
/// it holds afterwards is of no account.
pub fn radix_sort_32<F: Fn(&Edge) -> u32>(
    data: &mut Vec<Vec<Edge>>,
    scratch: &mut Vec<Vec<Edge>>,
    key: &F,
)
    requires
        single_valued(key),
    ensures
        forall|kf: spec_fn(Edge) -> u32| #[trigger]
            keyed_by(key, kf) ==> flat(final(data)@) == sorted_by_key(flat(old(data)@), kf),
{
    let ghost s = flat(data@);
    let ghost k0 = key_of(key);
    proof {
        assert forall|e: Edge, k: u32| #[trigger] key.ensures((&e,), k) implies k == k0(e) by {
            assert(key.ensures((&e,), k0(e)));
        }
    }
    radix_pass(data, scratch, key, 0, Ghost(k0));
    radix_pass(data, scratch, key, 8, Ghost(k0));
    proof {
        radix_step(s, k0, 0x100, 256, 256);
    }
    radix_pass(data, scratch, key, 16, Ghost(k0));
    proof {
        radix_step(s, k0, 0x1_0000, 256, 256);
    }
    radix_pass(data, scratch, key, 24, Ghost(k0));
    proof {
        radix_step(s, k0, 0x100_0000, 256, 256);
        assert forall|kf: spec_fn(Edge) -> u32| #[trigger] keyed_by(key, kf) implies flat(data@)
            == sorted_by_key(s, kf) by {
            gather_same_keys(s, k0, kf, 1, 0x1_0000_0000, 0x1_0000_0000);
        }
    }
}

proof fn gather_members(s: Seq<Edge>, key: spec_fn(Edge) -> u32, unit: int, span: int, n: int)
    ensures
        forall|i: int|
            0 <= i < gather(s, key, unit, span, n).len() ==> 0 <= slot(
                key(#[trigger] gather(s, key, unit, span, n)[i]),
                unit,
                span,
            ) < n,
        forall|i: int, j: int|
            0 <= i <= j < gather(s, key, unit, span, n).len() ==> slot(
                key(#[trigger] gather(s, key, unit, span, n)[i]),
                unit,
                span,
            ) <= slot(key(#[trigger] gather(s, key, unit, span, n)[j]), unit, span),
    decreases n,
{
    if n > 0 {
        gather_members(s, key, unit, span, n - 1);
        pick_members(s, key, unit, span, n - 1);
        let low = gather(s, key, unit, span, n - 1);
        let top = pick(s, key, unit, span, n - 1);
        let all = gather(s, key, unit, span, n);
        assert forall|i: int| 0 <= i < all.len() implies 0 <= slot(
            key(#[trigger] all[i]),
            unit,
            span,
        ) < n && (i >= low.len() ==> slot(key(all[i]), unit, span) == n - 1) && (i < low.len()
            ==> slot(key(all[i]), unit, span) < n - 1) by {
            if i < low.len() {
                assert(all[i] == low[i]);
            } else {
                assert(all[i] == top[i - low.len()]);
            }
        }
    }
}

/// Gathering a sequence whose edges all have slot `k` leaves it as it is.
proof fn gather_uniform(s: Seq<Edge>, key: spec_fn(Edge) -> u32, unit: int, span: int, k: int, n: int)
    requires
        forall|i: int| 0 <= i < s.len() ==> slot(key(#[trigger] s[i]), unit, span) == k,
    ensures
        gather(s, key, unit, span, n) == if 0 <= k < n {
            s
        } else {
            Seq::empty()
        },
    decreases n,
{
    if n > 0 {
        gather_uniform(s, key, unit, span, k, n - 1);
        pick_uniform(s, key, unit, span, k, n - 1);
        let low = gather(s, key, unit, span, n - 1);
        let top = pick(s, key, unit, span, n - 1);
        assert(low + top =~= if 0 <= k < n {
            s
        } else {
            Seq::empty()
        });
    }
}

proof fn gather_push(s: Seq<Edge>, e: Edge, key: spec_fn(Edge) -> u32, unit: int, span: int, n: int)
    ensures
        gather(s.push(e), key, unit, span, n).to_multiset() == if 0 <= slot(key(e), unit, span)
            < n {
            gather(s, key, unit, span, n).to_multiset().insert(e)
        } else {
            gather(s, key, unit, span, n).to_multiset()
        },
    decreases n,
{
    if n > 0 {
        gather_push(s, e, key, unit, span, n - 1);
        pick_push(s, e, key, unit, span, n - 1);
        let low0 = gather(s, key, unit, span, n - 1);
        let top0 = pick(s, key, unit, span, n - 1);
        let low1 = gather(s.push(e), key, unit, span, n - 1);
        let top1 = pick(s.push(e), key, unit, span, n - 1);
        lemma_multiset_commutative(low0, top0);
        lemma_multiset_commutative(low1, top1);
        to_multiset_build(top0, e);
        let goal = if 0 <= slot(key(e), unit, span) < n {
            (low0 + top0).to_multiset().insert(e)
        } else {
            (low0 + top0).to_multiset()
        };
        assert((low1 + top1).to_multiset() =~= goal);
    }
}

proof fn gather_permutes(s: Seq<Edge>, key: spec_fn(Edge) -> u32, unit: int, span: int, n: int)
    requires
        forall|i: int| 0 <= i < s.len() ==> 0 <= slot(key(#[trigger] s[i]), unit, span) < n,
    ensures
        gather(s, key, unit, span, n).to_multiset() == s.to_multiset(),
    decreases s.len(),
{
    if s.len() == 0 {
        gather_uniform(s, key, unit, span, 0, n);
        assert(s =~= Seq::<Edge>::empty());
    } else {
        let t = s.drop_last();
        let e = s.last();
        assert(t.push(e) =~= s);
        assert forall|i: int| 0 <= i < t.len() implies 0 <= slot(
            key(#[trigger] t[i]),
            unit,
            span,
        ) < n by {
            assert(t[i] == s[i]);
        }
        gather_permutes(t, key, unit, span, n);
        gather_push(t, e, key, unit, span, n);
        to_multiset_build(t, e);
    }
}

/// Sorting rearranges: the result holds the edges of `s`, each as often as `s` does.
pub proof fn sorted_is_permutation(s: Seq<Edge>, key: spec_fn(Edge) -> u32)
    ensures
        sorted_by_key(s, key).to_multiset() == s.to_multiset(),
        sorted_by_key(s, key).len() == s.len(),
{
    gather_permutes(s, key, 1, 0x1_0000_0000, 0x1_0000_0000);
    to_multiset_len(s);
    to_multiset_len(sorted_by_key(s, key));
}

/// Sorting orders: keys never decrease along the result.
pub proof fn sorted_is_ordered(s: Seq<Edge>, key: spec_fn(Edge) -> u32)
    ensures
        forall|i: int, j: int|
            0 <= i <= j < sorted_by_key(s, key).len() ==> key(#[trigger] sorted_by_key(s, key)[i])
                <= key(#[trigger] sorted_by_key(s, key)[j]),
{
    gather_members(s, key, 1, 0x1_0000_0000, 0x1_0000_0000);
}

/// Sorting is stable: the edges of any one key follow each other in the
/// result as they did in `s`.
pub proof fn sorted_is_stable(s: Seq<Edge>, key: spec_fn(Edge) -> u32, k: u32)
    ensures
        with_key(sorted_by_key(s, key), key, k) == with_key(s, key, k),
{
    let m = 0x1_0000_0000;
    pick_gather(s, key, 1, m, m, 1, m, k as int);
    pick_members(s, key, 1, m, k as int);
    gather_uniform(with_key(s, key, k), key, 1, m, k as int, m);
}

/// How the edges of one key change when an edge is added at the end.
pub proof fn with_key_push(s: Seq<Edge>, e: Edge, key: spec_fn(Edge) -> u32, k: u32)
    ensures
        with_key(s.push(e), key, k) == if key(e) == k {
            with_key(s, key, k).push(e)
        } else {
            with_key(s, key, k)
        },
{
    pick_push(s, e, key, 1, 0x1_0000_0000, k as int);
}

/// There are no more edges of one key than edges; none, if no edge has the key.
pub proof fn with_key_bound(s: Seq<Edge>, key: spec_fn(Edge) -> u32, k: u32)
    ensures
        with_key(s, key, k).len() <= s.len(),
        (forall|i: int| 0 <= i < s.len() ==> key(#[trigger] s[i]) != k) ==> with_key(s, key, k).len()
            == 0,
    decreases s.len(),
{
    if s.len() > 0 {
        let t = s.drop_last();
        with_key_bound(t, key, k);
        if forall|i: int| 0 <= i < s.len() ==> key(#[trigger] s[i]) != k {
            assert forall|i: int| 0 <= i < t.len() implies key(#[trigger] t[i]) != k by {
                assert(t[i] == s[i]);
            }
            assert(key(s.last()) == key(s[s.len() - 1]));
        }
    }
}

/// A prefix has no more edges of one key than the whole.
pub proof fn with_key_prefix(s: Seq<Edge>, n: int, key: spec_fn(Edge) -> u32, k: u32)
    requires
        0 <= n <= s.len(),
    ensures
        with_key(s.take(n), key, k).len() <= with_key(s, key, k).len(),
    decreases s.len(),
{
    if n == s.len() {
        assert(s.take(n) =~= s);
    } else {
        with_key_prefix(s.drop_last(), n, key, k);
        assert(s.drop_last().take(n) =~= s.take(n));
    }
}

} // verus!
