//! The binary graph format: from a list of edges to the offsets and targets
//! arrays, and to their bytes. The offsets describe the edges only where the
//! edges come in order of source: that is the caller's to see to.

use crate::sorting::Edge;
use crate::typedrw::{
    encode_u32s, encode_u64s, u32s_le, u32s_le_layout, u64s_le, u64s_le_layout,
};
use vstd::prelude::*;

verus! {

/// The sources never decrease along `s`.
pub open spec fn sorted_by_source(s: Seq<Edge>) -> bool {
    forall|a: int, b: int| 0 <= a <= b < s.len() ==> (#[trigger] s[a]).0 <= (#[trigger] s[b]).0
}

/// The largest node id that occurs in `s`, as a source or a destination; 0
/// without edges.
pub open spec fn max_id(s: Seq<Edge>) -> int
    decreases s.len(),
{
    if s.len() == 0 {
        0
    } else {
        let before = max_id(s.drop_last());
        let e = s.last();
        let here = if e.0 < e.1 {
            e.1 as int
        } else {
            e.0 as int
        };
        if before < here {
            here
        } else {
            before
        }
    }
}

/// How many edges of `s` have a source no larger than `i`.
pub open spec fn count_upto(s: Seq<Edge>, i: int) -> int
    decreases s.len(),
{
    if s.len() == 0 {
        0
    } else {
        count_upto(s.drop_last(), i) + if s.last().0 <= i {
            1int
        } else {
            0int
        }
    }
}

/// The offsets array of `s`, for `s` in order of source: one entry for each
/// node id up to the largest, entry `i` the number of edges whose source is
/// at most `i`.
pub open spec fn offsets_of(s: Seq<Edge>) -> Seq<u64> {
    Seq::new((max_id(s) + 1) as nat, |i: int| count_upto(s, i) as u64)
}

/// The length of the longest prefix of `s` whose sources are all at most `i`.
pub open spec fn prefix_upto(s: Seq<Edge>, i: int) -> int
    decreases s.len(),
{
    if s.len() == 0 {
        0
    } else {
        let before = prefix_upto(s.drop_last(), i);
        if before == s.len() - 1 && s.last().0 <= i {
            s.len() as int
        } else {
            before
        }
    }
}

/// The offsets array that is written for `s`, whatever its order: entry `i`
/// is the number of edges before the first whose source is larger than `i`.
pub open spec fn offsets_written(s: Seq<Edge>) -> Seq<u64> {
    Seq::new((max_id(s) + 1) as nat, |i: int| prefix_upto(s, i) as u64)
}

/// The targets array of `s`: the destination of each edge, in order.
pub open spec fn targets_of(s: Seq<Edge>) -> Seq<u32> {
    Seq::new(s.len(), |t: int| s[t].1)
}

/// Every id is within the largest, and the count of sources up to `i` is
/// within the number of edges and reaches it where no source is larger.
pub proof fn count_upto_bounds(s: Seq<Edge>, i: int)
    ensures
        0 <= count_upto(s, i) <= s.len(),
        0 <= max_id(s) <= u32::MAX,
        forall|t: int| 0 <= t < s.len() ==> (#[trigger] s[t]).0 <= max_id(s) && s[t].1 <= max_id(s),
        (forall|t: int| 0 <= t < s.len() ==> (#[trigger] s[t]).0 <= i) ==> count_upto(s, i)
            == s.len(),
    decreases s.len(),
{
    if s.len() > 0 {
        let r = s.drop_last();
        count_upto_bounds(r, i);
        assert forall|t: int| 0 <= t < s.len() implies (#[trigger] s[t]).0 <= max_id(s) && s[t].1
            <= max_id(s) by {
            if t < r.len() {
                assert(r[t] == s[t]);
            }
        }
        if forall|t: int| 0 <= t < s.len() ==> (#[trigger] s[t]).0 <= i {
            assert forall|t: int| 0 <= t < r.len() implies (#[trigger] r[t]).0 <= i by {
                assert(r[t] == s[t]);
            }
            assert(s[s.len() - 1].0 <= i);
        }
    }
}

/// A prefix whose sources are all at most `i` is within the edges, and is
/// all of them where no source is larger.
pub proof fn prefix_upto_bounds(s: Seq<Edge>, i: int)
    ensures
        0 <= prefix_upto(s, i) <= s.len(),
        (forall|t: int| 0 <= t < s.len() ==> (#[trigger] s[t]).0 <= i) ==> prefix_upto(s, i)
            == s.len(),
    decreases s.len(),
{
    if s.len() > 0 {
        let r = s.drop_last();
        prefix_upto_bounds(r, i);
        if forall|t: int| 0 <= t < s.len() ==> (#[trigger] s[t]).0 <= i {
            assert forall|t: int| 0 <= t < r.len() implies (#[trigger] r[t]).0 <= i by {
                assert(r[t] == s[t]);
            }
            assert(s[s.len() - 1].0 <= i);
        }
    }
}

/// For edges in order of source, what is written is the offsets array: the
/// edges before the first with a source beyond `i` are those with a source
/// up to `i`.
pub proof fn offsets_in_order(s: Seq<Edge>)
    requires
        sorted_by_source(s),
    ensures
        offsets_written(s) == offsets_of(s),
{
    assert forall|i: int| 0 <= i <= max_id(s) implies prefix_upto(s, i) == count_upto(s, i) by {
        prefix_is_count(s, i);
    }
    assert(offsets_written(s) =~= offsets_of(s));
}

proof fn prefix_is_count(s: Seq<Edge>, i: int)
    requires
        sorted_by_source(s),
    ensures
        prefix_upto(s, i) == count_upto(s, i),
    decreases s.len(),
{
    if s.len() > 0 {
        let r = s.drop_last();
        assert forall|a: int, b: int| 0 <= a <= b < r.len() implies (#[trigger] r[a]).0 <= (
        #[trigger] r[b]).0 by {
            assert(r[a] == s[a] && r[b] == s[b]);
        }
        prefix_is_count(r, i);
        prefix_upto_bounds(r, i);
        count_upto_bounds(r, i);
        if s.last().0 <= i {
            assert forall|t: int| 0 <= t < r.len() implies (#[trigger] r[t]).0 <= i by {
                assert(r[t] == s[t]);
                assert(s[t].0 <= s[s.len() - 1].0);
            }
        }
    }
}

/// Builds the two arrays of the graph format. The targets are the
/// destinations in the order given. The offsets have an entry for every id
/// up to the largest; for edges in order of source they are the running
/// totals of the format, and for others they do not describe the edges.
pub fn offsets_and_targets(pairs: &[Edge]) -> (r: (Vec<u64>, Vec<u32>))
    ensures
        r.0@ == offsets_written(pairs@),
        r.1@ == targets_of(pairs@),
        r.0@.len() == max_id(pairs@) + 1,
        sorted_by_source(pairs@) ==> r.0@ == offsets_of(pairs@),
{
    let ghost s = pairs@;
    let mut offsets: Vec<u64> = Vec::new();
    let mut targets: Vec<u32> = Vec::new();
    let mut cur_source: u64 = 0;
    let mut cur_offset: u64 = 0;
    let mut max_vertex: u32 = 0;
    let mut p: usize = 0;
    while p < pairs.len()
        invariant
            s == pairs@,
            p <= s.len(),
            cur_offset == p,
            offsets@.len() == cur_source,
            max_vertex as int == max_id(s.take(p as int)),
            cur_source <= max_vertex,
            forall|t: int| 0 <= t < p ==> (#[trigger] s[t]).0 <= cur_source,
            forall|i: int|
                0 <= i < cur_source ==> (#[trigger] offsets@[i]) as int == prefix_upto(
                    s.take(p as int),
                    i,
                ) && offsets@[i] < p,
            targets@.len() == p,
            forall|t: int| 0 <= t < p ==> #[trigger] targets@[t] == s[t].1,
        decreases s.len() - p,
    {
        let e: Edge = pairs[p];
        let ghost seen = s.take(p as int);
        let ghost c0 = cur_source;
        proof {
            assert(s.take(p + 1).drop_last() =~= seen);
            assert(s.take(p + 1).last() == e);
            assert forall|t: int| 0 <= t < seen.len() implies (#[trigger] seen[t]).0 <= c0 by {
                assert(seen[t] == s[t]);
            }
        }
        while cur_source < e.0 as u64
            invariant
                c0 <= cur_source,
                cur_source <= e.0 || cur_source == c0,
                cur_offset == p,
                p == seen.len(),
                offsets@.len() == cur_source,
                forall|t: int| 0 <= t < seen.len() ==> (#[trigger] seen[t]).0 <= c0,
                forall|i: int|
                    0 <= i < c0 ==> (#[trigger] offsets@[i]) as int == prefix_upto(seen, i)
                        && offsets@[i] < p,
                forall|i: int|
                    c0 <= i < cur_source ==> (#[trigger] offsets@[i]) as int == prefix_upto(
                        seen,
                        i,
                    ) && offsets@[i] == p,
            decreases e.0 - cur_source,
        {
            proof {
                prefix_upto_bounds(seen, cur_source as int);
            }
            offsets.push(cur_offset);
            cur_source += 1;
        }
        if max_vertex < e.0 {
            max_vertex = e.0;
        }
        if max_vertex < e.1 {
            max_vertex = e.1;
        }
        targets.push(e.1);
        cur_offset += 1;
        p += 1;
    }
    proof {
        assert(s.take(p as int) =~= s);
    }
    while cur_source <= max_vertex as u64
        invariant
            p == s.len(),
            cur_offset == p,
            max_vertex as int == max_id(s),
            cur_source <= max_vertex + 1,
            offsets@.len() == cur_source,
            forall|t: int| 0 <= t < s.len() ==> (#[trigger] s[t]).0 <= cur_source,
            forall|i: int|
                0 <= i < cur_source ==> (#[trigger] offsets@[i]) as int == prefix_upto(s, i),
        decreases max_vertex + 1 - cur_source,
    {
        proof {
            prefix_upto_bounds(s, cur_source as int);
        }
        offsets.push(cur_offset);
        cur_source += 1;
    }
    proof {
        assert forall|i: int| 0 <= i < offsets@.len() implies offsets@[i] == offsets_written(
            s,
        )[i] by {
            prefix_upto_bounds(s, i);
        }
        assert(offsets@ =~= offsets_written(s));
        assert(targets@ =~= targets_of(s));
        if sorted_by_source(s) {
            offsets_in_order(s);
        }
    }
    (offsets, targets)
}

/// Encodes edges as the contents of the two files of the graph format: first
/// the offsets, as 64-bit integers, then the targets, as 32-bit integers,
/// both least significant byte first. The order of the edges is not looked
/// at: for edges that are not in order of source the offsets are written all
/// the same, and do not describe them.
pub fn write(pairs: &[Edge]) -> (files: (Vec<u8>, Vec<u8>))
    ensures
        files.0@ == u64s_le(offsets_written(pairs@)),
        files.1@ == u32s_le(targets_of(pairs@)),
        files.0@.len() == 8 * (max_id(pairs@) + 1),
        files.1@.len() == 4 * pairs@.len(),
        sorted_by_source(pairs@) ==> files.0@ == u64s_le(offsets_of(pairs@)),
{
    let (offsets, targets) = offsets_and_targets(pairs);
    proof {
        u64s_le_layout(offsets@);
        u32s_le_layout(targets@);
    }
    (encode_u64s(offsets.as_slice()), encode_u32s(targets.as_slice()))
}

} // verus!
