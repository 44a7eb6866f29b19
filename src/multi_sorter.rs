//! Interleaving already-sorted segments into one global order.

use crate::sort_field::{
    cmp_from, compare_fields, effective_value, field_key, is_floating, lemma_cmp_from_antisym,
    lemma_cmp_from_same_keys, lemma_cmp_from_trans, table_view, Sort, SortField, SortFieldType,
};
use crate::sorter::SegmentValues;
use vstd::prelude::*;

verus! {

/// Why a cross-segment merge cannot be done.
#[derive(Clone, Copy, Debug, PartialEq, Eq, Structural)]
pub enum SortError {
    /// The sort field's type has no cross-segment comparator.
    UnhandledType(SortFieldType),
}

/// The field types a cross-segment merge can order by.
pub open spec fn merge_supported(t: SortFieldType) -> bool {
    t == SortFieldType::Long || t == SortFieldType::Int || t == SortFieldType::Double
        || t == SortFieldType::Float
}

/// Compares 64-bit integer values of documents in any two segments.
#[derive(Clone, Copy)]
pub struct LongCrossReaderComparator {
    pub missing_value: i64,
    pub reverse: bool,
}

/// Compares doubles, stored as their bit patterns, of documents in any
/// two segments.
#[derive(Clone, Copy)]
pub struct DoubleCrossReaderComparator {
    pub missing_value: i64,
    pub reverse: bool,
}

#[derive(Clone, Copy)]
pub enum CrossReaderComparatorEnum {
    Long(LongCrossReaderComparator),
    Double(DoubleCrossReaderComparator),
}

impl CrossReaderComparatorEnum {
    /// The sort field this comparator orders by.
    pub open spec fn as_field(&self) -> SortField {
        match self {
            CrossReaderComparatorEnum::Long(l) => SortField {
                field_type: SortFieldType::Long,
                reverse: l.reverse,
                missing_value: Some(l.missing_value),
            },
            CrossReaderComparatorEnum::Double(d) => SortField {
                field_type: SortFieldType::Double,
                reverse: d.reverse,
                missing_value: Some(d.missing_value),
            },
        }
    }

    pub fn to_field(&self) -> (r: SortField)
        ensures
            r == self.as_field(),
    {
        match self {
            CrossReaderComparatorEnum::Long(l) => SortField {
                field_type: SortFieldType::Long,
                reverse: l.reverse,
                missing_value: Some(l.missing_value),
            },
            CrossReaderComparatorEnum::Double(d) => SortField {
                field_type: SortFieldType::Double,
                reverse: d.reverse,
                missing_value: Some(d.missing_value),
            },
        }
    }
}

/// Index of the first field that a merge cannot order by, if any.
pub open spec fn first_unsupported(fields: Seq<SortField>, from: int) -> Option<int>
    decreases fields.len() - from,
{
    if from < 0 || from >= fields.len() {
        None
    } else if !merge_supported(fields[from].field_type) {
        Some(from)
    } else {
        first_unsupported(fields, from + 1)
    }
}

pub open spec fn sum_docs(segs: Seq<SegmentValues>, k: int) -> int
    decreases k,
{
    if k <= 0 || k > segs.len() {
        0
    } else {
        sum_docs(segs, k - 1) + segs[k - 1].max_doc_spec()
    }
}

pub open spec fn sum_prefix(h: Seq<usize>, k: int) -> int
    decreases k,
{
    if k <= 0 || k > h.len() {
        0
    } else {
        sum_prefix(h, k - 1) + h[k - 1]
    }
}

proof fn lemma_sum_bump(h: Seq<usize>, s: int, k: int)
    requires
        0 <= s < h.len(),
        0 <= k <= h.len(),
        h[s] < usize::MAX,
    ensures
        sum_prefix(h.update(s, (h[s] + 1) as usize), k) == sum_prefix(h, k) + if s < k { 1int } else { 0int },
    decreases k,
{
    if k > 0 {
        lemma_sum_bump(h, s, k - 1);
    }
}

proof fn lemma_sum_le(h: Seq<usize>, segs: Seq<SegmentValues>, k: int)
    requires
        h.len() == segs.len(),
        0 <= k <= h.len(),
        forall|t: int| 0 <= t < h.len() ==> h[t] <= (#[trigger] segs[t]).max_doc_spec(),
    ensures
        sum_prefix(h, k) <= sum_docs(segs, k),
        sum_prefix(h, k) == sum_docs(segs, k) ==> forall|t: int| 0 <= t < k ==> h[t] == (#[trigger] segs[t]).max_doc_spec(),
    decreases k,
{
    if k > 0 {
        lemma_sum_le(h, segs, k - 1);
    }
}

/// Order of document `e` of segment `t` against document `f` of segment
/// `u`: by the fields, then by segment, then by doc id.
pub open spec fn entry_cmp(fields: Seq<SortField>, segs: Seq<SegmentValues>, t: int, e: int, u: int, f: int) -> int {
    let c = cmp_from(fields, segs[t].vals(), e, segs[u].vals(), f, 0);
    if c != 0 {
        c
    } else if t < u {
        -1
    } else if t > u {
        1
    } else if e < f {
        -1
    } else if e > f {
        1
    } else {
        0
    }
}

pub open spec fn entry_less(fields: Seq<SortField>, segs: Seq<SegmentValues>, t: int, e: int, u: int, f: int) -> bool {
    entry_cmp(fields, segs, t, e, u, f) < 0
}

/// Each segment is ordered by the fields.
pub open spec fn segments_sorted(fields: Seq<SortField>, segs: Seq<SegmentValues>) -> bool {
    forall|t: int, d: int, e: int|
        0 <= t < segs.len() && 0 <= d < e < segs[t].max_doc_spec()
            ==> #[trigger] cmp_from(fields, segs[t].vals(), d, segs[t].vals(), e, 0) <= 0
}

/// No document of a later segment sorts before one of an earlier segment.
pub open spec fn segments_in_order(fields: Seq<SortField>, segs: Seq<SegmentValues>) -> bool {
    forall|t: int, e: int, u: int, f: int|
        0 <= u < t < segs.len() && 0 <= e < segs[t].max_doc_spec() && 0 <= f < segs[u].max_doc_spec()
            ==> !#[trigger] entry_less(fields, segs, t, e, u, f)
}

/// Number of live documents among the first `k` of segment `t` that sort
/// before document `f` of segment `u`.
pub open spec fn live_less_in(fields: Seq<SortField>, segs: Seq<SegmentValues>, t: int, k: int, u: int, f: int) -> nat
    decreases k,
{
    if k <= 0 {
        0
    } else {
        live_less_in(fields, segs, t, k - 1, u, f) + if segs[t].live_docs@[k - 1] && entry_less(
            fields,
            segs,
            t,
            k - 1,
            u,
            f,
        ) {
            1nat
        } else {
            0nat
        }
    }
}

/// Number of live documents of the first `n` segments that sort before
/// document `f` of segment `u`: its position in the merged order.
pub open spec fn live_before(fields: Seq<SortField>, segs: Seq<SegmentValues>, n: int, u: int, f: int) -> nat
    decreases n,
{
    if n <= 0 {
        0
    } else {
        live_before(fields, segs, n - 1, u, f) + live_less_in(
            fields,
            segs,
            n - 1,
            segs[n - 1].max_doc_spec() as int,
            u,
            f,
        )
    }
}

/// Number of live documents among the first `h` of a segment.
pub open spec fn live_prefix(seg: SegmentValues, h: int) -> nat
    decreases h,
{
    if h <= 0 {
        0
    } else {
        live_prefix(seg, h - 1) + if seg.live_docs@[h - 1] { 1nat } else { 0nat }
    }
}

pub open spec fn live_sum(segs: Seq<SegmentValues>, heads: Seq<usize>, n: int) -> nat
    decreases n,
{
    if n <= 0 {
        0
    } else {
        live_sum(segs, heads, n - 1) + live_prefix(segs[n - 1], heads[n - 1] as int)
    }
}

proof fn lemma_entry_antisym(fields: Seq<SortField>, segs: Seq<SegmentValues>, t: int, e: int, u: int, f: int)
    ensures
        entry_cmp(fields, segs, t, e, u, f) == -entry_cmp(fields, segs, u, f, t, e),
        entry_cmp(fields, segs, t, e, u, f) == 0 <==> (t == u && e == f),
{
    lemma_cmp_from_antisym(fields, segs[t].vals(), e, segs[u].vals(), f, 0);
    if t == u && e == f {
        lemma_cmp_from_antisym(fields, segs[t].vals(), e, segs[t].vals(), e, 0);
    }
}

proof fn lemma_entry_trans(
    fields: Seq<SortField>,
    segs: Seq<SegmentValues>,
    t: int,
    e: int,
    u: int,
    f: int,
    v: int,
    g: int,
)
    requires
        entry_less(fields, segs, t, e, u, f),
        entry_less(fields, segs, u, f, v, g),
    ensures
        entry_less(fields, segs, t, e, v, g),
{
    lemma_cmp_from_antisym(fields, segs[t].vals(), e, segs[u].vals(), f, 0);
    lemma_cmp_from_antisym(fields, segs[u].vals(), f, segs[v].vals(), g, 0);
    lemma_cmp_from_trans(fields, segs[t].vals(), e, segs[u].vals(), f, segs[v].vals(), g, 0);
}

/// Within a sorted segment, an earlier document sorts first.
proof fn lemma_within_segment(fields: Seq<SortField>, segs: Seq<SegmentValues>, t: int, d: int, e: int)
    requires
        segments_sorted(fields, segs),
        0 <= t < segs.len(),
        0 <= d < e < segs[t].max_doc_spec(),
    ensures
        entry_less(fields, segs, t, d, t, e),
{
    assert(cmp_from(fields, segs[t].vals(), d, segs[t].vals(), e, 0) <= 0);
}

/// Where exactly the first `h` documents of segment `t` sort before
/// document `f` of segment `u`, the live ones among them are counted.
proof fn lemma_live_less_prefix(
    fields: Seq<SortField>,
    segs: Seq<SegmentValues>,
    t: int,
    h: int,
    u: int,
    f: int,
    k: int,
)
    requires
        0 <= h <= segs[t].max_doc_spec(),
        0 <= k <= segs[t].max_doc_spec(),
        forall|e: int| 0 <= e < segs[t].max_doc_spec() ==> (#[trigger] entry_less(fields, segs, t, e, u, f) <==> e < h),
    ensures
        live_less_in(fields, segs, t, k, u, f) == live_prefix(segs[t], if k < h { k } else { h }),
    decreases k,
{
    if k > 0 {
        lemma_live_less_prefix(fields, segs, t, h, u, f, k - 1);
        assert(entry_less(fields, segs, t, k - 1, u, f) <==> k - 1 < h);
    }
}

proof fn lemma_live_before_sum(fields: Seq<SortField>, segs: Seq<SegmentValues>, heads: Seq<usize>, u: int, f: int, n: int)
    requires
        0 <= n <= segs.len(),
        heads.len() == segs.len(),
        forall|t: int| 0 <= t < segs.len() ==> #[trigger] heads[t] <= segs[t].max_doc_spec(),
        forall|t: int, e: int|
            0 <= t < segs.len() && 0 <= e < segs[t].max_doc_spec() ==> (#[trigger] entry_less(fields, segs, t, e, u, f) <==> e < heads[t]),
    ensures
        live_before(fields, segs, n, u, f) == live_sum(segs, heads, n),
    decreases n,
{
    if n > 0 {
        lemma_live_before_sum(fields, segs, heads, u, f, n - 1);
        let t = n - 1;
        assert forall|e: int| 0 <= e < segs[t].max_doc_spec() implies (#[trigger] entry_less(fields, segs, t, e, u, f) <==> e < heads[t]) by {}
        lemma_live_less_prefix(fields, segs, t, heads[t] as int, u, f, segs[t].max_doc_spec() as int);
    }
}

proof fn lemma_live_sum_bump(segs: Seq<SegmentValues>, heads: Seq<usize>, b: int, n: int)
    requires
        0 <= b < heads.len(),
        heads.len() == segs.len(),
        0 <= n <= heads.len(),
        heads[b] < usize::MAX,
    ensures
        live_sum(segs, heads.update(b, (heads[b] + 1) as usize), n) == live_sum(segs, heads, n) + if b < n
            && segs[b].live_docs@[heads[b] as int] {
            1int
        } else {
            0int
        },
    decreases n,
{
    if n > 0 {
        lemma_live_sum_bump(segs, heads, b, n - 1);
    }
}

/// Popping the least head keeps every popped document before every
/// unpopped one, and the popped documents before it are exactly those
/// that sort before it.
proof fn lemma_pop_step(fields: Seq<SortField>, segs: Seq<SegmentValues>, heads: Seq<usize>, b: int)
    requires
        segments_sorted(fields, segs),
        heads.len() == segs.len(),
        0 <= b < segs.len(),
        heads[b] < segs[b].max_doc_spec(),
        heads[b] < usize::MAX,
        forall|t: int| 0 <= t < segs.len() ==> #[trigger] heads[t] <= segs[t].max_doc_spec(),
        forall|u: int|
            0 <= u < segs.len() && u != b && heads[u] < segs[u].max_doc_spec() ==> entry_less(
                fields,
                segs,
                b,
                heads[b] as int,
                u,
                #[trigger] heads[u] as int,
            ),
        forall|t: int, e: int, u: int, f: int|
            0 <= t < segs.len() && 0 <= e < heads[t] && 0 <= u < segs.len() && heads[u] <= f < segs[u].max_doc_spec()
                ==> #[trigger] entry_less(fields, segs, t, e, u, f),
    ensures
        forall|t: int, e: int|
            0 <= t < segs.len() && 0 <= e < segs[t].max_doc_spec() ==> (#[trigger] entry_less(
                fields,
                segs,
                t,
                e,
                b,
                heads[b] as int,
            ) <==> e < heads[t]),
        forall|t: int, e: int, u: int, f: int|
            0 <= t < segs.len() && 0 <= e < heads.update(b, (heads[b] + 1) as usize)[t] && 0 <= u < segs.len()
                && heads.update(b, (heads[b] + 1) as usize)[u] <= f < segs[u].max_doc_spec()
                ==> #[trigger] entry_less(fields, segs, t, e, u, f),
{
    let hb = heads[b] as int;
    assert forall|t: int, e: int|
        0 <= t < segs.len() && 0 <= e < segs[t].max_doc_spec() implies (#[trigger] entry_less(fields, segs, t, e, b, hb) <==> e < heads[t]) by {
        if e < heads[t] {
            assert(entry_less(fields, segs, t, e, b, hb));
        } else {
            lemma_entry_antisym(fields, segs, t, e, b, hb);
            let ht = heads[t] as int;
            if t == b {
                if e > hb {
                    lemma_within_segment(fields, segs, b, hb, e);
                }
            } else {
                assert(entry_less(fields, segs, b, hb, t, ht));
                if e > ht {
                    lemma_within_segment(fields, segs, t, ht, e);
                    lemma_entry_trans(fields, segs, b, hb, t, ht, t, e);
                }
            }
        }
    }
    let nh = heads.update(b, (heads[b] + 1) as usize);
    assert forall|t: int, e: int, u: int, f: int|
        0 <= t < segs.len() && 0 <= e < nh[t] && 0 <= u < segs.len() && nh[u] <= f < segs[u].max_doc_spec()
            implies #[trigger] entry_less(fields, segs, t, e, u, f) by {
        if t == b && e == hb {
            let hu = heads[u] as int;
            if u == b {
                lemma_within_segment(fields, segs, b, hb, f);
            } else {
                assert(entry_less(fields, segs, b, hb, u, hu));
                if f > hu {
                    lemma_within_segment(fields, segs, u, hu, f);
                    lemma_entry_trans(fields, segs, b, hb, u, hu, u, f);
                }
            }
        } else {
            assert(e < heads[t]);
            if u == b && f == hb {
                assert(entry_less(fields, segs, t, e, b, hb));
            } else {
                assert(heads[u] <= f);
            }
        }
    }
}

proof fn lemma_live_less_in_mono(
    fields: Seq<SortField>,
    segs: Seq<SegmentValues>,
    u: int,
    k: int,
    t: int,
    d: int,
    e: int,
)
    requires
        entry_less(fields, segs, t, d, t, e),
    ensures
        live_less_in(fields, segs, u, k, t, d) <= live_less_in(fields, segs, u, k, t, e),
    decreases k,
{
    if k > 0 {
        lemma_live_less_in_mono(fields, segs, u, k - 1, t, d, e);
        if entry_less(fields, segs, u, k - 1, t, d) {
            lemma_entry_trans(fields, segs, u, k - 1, t, d, t, e);
        }
    }
}

proof fn lemma_live_before_mono(fields: Seq<SortField>, segs: Seq<SegmentValues>, n: int, t: int, d: int, e: int)
    requires
        entry_less(fields, segs, t, d, t, e),
    ensures
        live_before(fields, segs, n, t, d) <= live_before(fields, segs, n, t, e),
    decreases n,
{
    if n > 0 {
        lemma_live_before_mono(fields, segs, n - 1, t, d, e);
        lemma_live_less_in_mono(fields, segs, n - 1, segs[n - 1].max_doc_spec() as int, t, d, e);
    }
}

/// In a merge of sorted segments, a later document of a segment never gets
/// an earlier global position than an earlier one.
pub proof fn lemma_merge_map_monotone(fields: Seq<SortField>, segs: Seq<SegmentValues>, t: int, d: int, e: int)
    requires
        segments_sorted(fields, segs),
        0 <= t < segs.len(),
        0 <= d < e < segs[t].max_doc_spec(),
    ensures
        live_before(fields, segs, segs.len() as int, t, d) <= live_before(fields, segs, segs.len() as int, t, e),
{
    lemma_within_segment(fields, segs, t, d, e);
    lemma_live_before_mono(fields, segs, segs.len() as int, t, d, e);
}

proof fn lemma_live_less_in_strict(
    fields: Seq<SortField>,
    segs: Seq<SegmentValues>,
    k: int,
    t: int,
    d: int,
    e: int,
)
    requires
        0 <= t < segs.len(),
        0 <= d < e,
        d < k,
        segs[t].live_docs@[d],
        entry_less(fields, segs, t, d, t, e),
    ensures
        live_less_in(fields, segs, t, k, t, d) < live_less_in(fields, segs, t, k, t, e),
    decreases k,
{
    lemma_entry_antisym(fields, segs, t, d, t, d);
    if k - 1 > d {
        lemma_live_less_in_strict(fields, segs, k - 1, t, d, e);
        if entry_less(fields, segs, t, k - 1, t, d) {
            lemma_entry_trans(fields, segs, t, k - 1, t, d, t, e);
        }
    } else {
        lemma_live_less_in_mono(fields, segs, t, k - 1, t, d, e);
    }
}

proof fn lemma_live_before_strict(
    fields: Seq<SortField>,
    segs: Seq<SegmentValues>,
    n: int,
    t: int,
    d: int,
    e: int,
)
    requires
        0 <= t < n <= segs.len(),
        0 <= d < e < segs[t].max_doc_spec(),
        segs[t].live_docs@[d],
        entry_less(fields, segs, t, d, t, e),
    ensures
        live_before(fields, segs, n, t, d) < live_before(fields, segs, n, t, e),
    decreases n,
{
    if n - 1 == t {
        lemma_live_before_mono(fields, segs, n - 1, t, d, e);
        lemma_live_less_in_strict(fields, segs, segs[t].max_doc_spec() as int, t, d, e);
    } else {
        lemma_live_before_strict(fields, segs, n - 1, t, d, e);
        lemma_live_less_in_mono(fields, segs, n - 1, segs[n - 1].max_doc_spec() as int, t, d, e);
    }
}

/// In a merge of sorted segments, a live document gets a smaller global
/// position than every later document of its segment; so a segment with
/// no deleted document gets a strictly increasing map.
pub proof fn lemma_merge_map_strict(fields: Seq<SortField>, segs: Seq<SegmentValues>, t: int, d: int, e: int)
    requires
        segments_sorted(fields, segs),
        0 <= t < segs.len(),
        0 <= d < e < segs[t].max_doc_spec(),
        segs[t].live_docs@[d],
    ensures
        live_before(fields, segs, segs.len() as int, t, d) < live_before(fields, segs, segs.len() as int, t, e),
{
    lemma_within_segment(fields, segs, t, d, e);
    lemma_live_before_strict(fields, segs, segs.len() as int, t, d, e);
}

pub struct MultiSorter;

impl MultiSorter {
    /// The comparator of one sort field across segments, with the missing
    /// value made explicit; an error for a type it cannot order by.
    pub fn get_comparator(sort_field: &SortField) -> (r: Result<CrossReaderComparatorEnum, SortError>)
        ensures
            r.is_err() <==> !merge_supported(sort_field.field_type),
            r matches Err(e) ==> e == SortError::UnhandledType(sort_field.field_type),
            r matches Ok(c) ==> c.as_field().missing_value == Some(
                match sort_field.missing_value {
                    Some(m) => m,
                    None => 0i64,
                },
            ),
            r matches Ok(c) ==> c.as_field().reverse == sort_field.reverse
                && is_floating(c.as_field().field_type) == is_floating(sort_field.field_type)
                && forall|v: Option<i64>| #[trigger] field_key(c.as_field(), v) == field_key(*sort_field, v),
    {
        let reverse = sort_field.reverse;
        let missing_value: i64 = match sort_field.missing_value {
            Some(m) => m,
            None => 0,
        };
        match sort_field.field_type {
            SortFieldType::Long | SortFieldType::Int => {
                let c = CrossReaderComparatorEnum::Long(LongCrossReaderComparator { missing_value, reverse });
                assert forall|v: Option<i64>| #[trigger] field_key(c.as_field(), v) == field_key(*sort_field, v) by {
                    assert(effective_value(c.as_field(), v) == effective_value(*sort_field, v));
                }
                Ok(c)
            },
            SortFieldType::Double | SortFieldType::Float => {
                let c = CrossReaderComparatorEnum::Double(DoubleCrossReaderComparator { missing_value, reverse });
                assert forall|v: Option<i64>| #[trigger] field_key(c.as_field(), v) == field_key(*sort_field, v) by {
                    assert(effective_value(c.as_field(), v) == effective_value(*sort_field, v));
                }
                Ok(c)
            },
            other => Err(SortError::UnhandledType(other)),
        }
    }

    /// Merges segments that are each sorted by `sort` into one order, by
    /// the fields, then by segment, then by doc id, and gives for each
    /// segment the global position of each of its documents: the number of
    /// live documents before it, so that a deleted document takes the
    /// position of the next live one. Empty when no document of a later
    /// segment sorts before one of an earlier segment; an error when a
    /// field type cannot be merged.
    pub fn sort(sort: &Sort, readers: &Vec<SegmentValues>) -> (r: Result<Vec<Vec<i32>>, SortError>)
        requires
            forall|t: int| 0 <= t < readers@.len() ==> (#[trigger] readers@[t]).shaped_for(sort.fields@.len()),
            sum_docs(readers@, readers@.len() as int) <= i32::MAX,
            segments_sorted(sort.fields@, readers@),
        ensures
            r.is_err() <==> first_unsupported(sort.fields@, 0) is Some,
            r matches Err(e) ==> e == SortError::UnhandledType(
                sort.fields@[first_unsupported(sort.fields@, 0)->0].field_type,
            ),
            r matches Ok(maps) ==> (maps@.len() == 0 <==> segments_in_order(sort.fields@, readers@)),
            r matches Ok(maps) ==> maps@.len() == 0 || (maps@.len() == readers@.len() && forall|t: int|
                0 <= t < maps@.len() ==> (#[trigger] maps@[t])@.len() == readers@[t].max_doc_spec()),
            r matches Ok(maps) ==> forall|t: int, e: int|
                0 <= t < maps@.len() && 0 <= e < maps@[t]@.len() ==> #[trigger] maps@[t]@[e] == live_before(
                    sort.fields@,
                    readers@,
                    readers@.len() as int,
                    t,
                    e,
                ),
    {
        let fields = sort.get_sort();
        let ghost fs = sort.fields@;
        let ghost segs = readers@;
        let mut comp_fields: Vec<SortField> = Vec::new();
        let mut i: usize = 0;
        while i < fields.len()
            invariant
                i <= fields@.len(),
                fields@ == fs,
                fs == sort.fields@,
                first_unsupported(fields@, 0) == first_unsupported(fields@, i as int),
                comp_fields@.len() == i,
                forall|j: int| 0 <= j < i ==> merge_supported(#[trigger] fields@[j].field_type),
                forall|j: int, v: Option<i64>|
                    0 <= j < i ==> #[trigger] field_key(comp_fields@[j], v) == field_key(fs[j], v),
            decreases fields@.len() - i,
        {
            match Self::get_comparator(&fields[i]) {
                Ok(c) => {
                    comp_fields.push(c.to_field());
                },
                Err(e) => {
                    return Err(e);
                },
            }
            i = i + 1;
        }
        let leaf_count = readers.len();
        let mut total: usize = 0;
        let mut heads: Vec<usize> = Vec::new();
        let mut maps: Vec<Vec<i32>> = Vec::new();
        let mut t: usize = 0;
        while t < leaf_count
            invariant
                t <= leaf_count,
                leaf_count == readers@.len(),
                total == sum_docs(readers@, t as int),
                sum_docs(readers@, readers@.len() as int) <= i32::MAX,
                heads@.len() == t,
                maps@.len() == t,
                forall|u: int| 0 <= u < t ==> #[trigger] heads@[u] == 0,
                forall|u: int| 0 <= u < t ==> (#[trigger] maps@[u])@.len() == 0,
            decreases leaf_count - t,
        {
            proof {
                lemma_sum_docs_mono(readers@, t as int + 1, readers@.len() as int);
            }
            total = total + readers[t].max_doc();
            heads.push(0);
            maps.push(Vec::new());
            t = t + 1;
        }
        proof {
            lemma_sum_zero(heads@, leaf_count as int);
            lemma_live_sum_zero(segs, heads@, leaf_count as int);
        }
        let mut popped: usize = 0;
        let mut mapped_doc_id: i32 = 0;
        let mut last_reader_index: usize = 0;
        let mut sorted = true;
        let ghost mut witness: (int, int, int, int) = (0, 0, 0, 0);
        while popped < total
            invariant
                leaf_count == readers@.len(),
                segs == readers@,
                fs == sort.fields@,
                total == sum_docs(readers@, leaf_count as int),
                total <= i32::MAX,
                forall|u: int| 0 <= u < readers@.len() ==> (#[trigger] readers@[u]).shaped_for(sort.fields@.len()),
                segments_sorted(fs, segs),
                comp_fields@.len() == fs.len(),
                forall|j: int, v: Option<i64>|
                    0 <= j < fs.len() ==> #[trigger] field_key(comp_fields@[j], v) == field_key(fs[j], v),
                heads@.len() == leaf_count,
                maps@.len() == leaf_count,
                popped == sum_prefix(heads@, leaf_count as int),
                0 <= mapped_doc_id <= popped,
                mapped_doc_id == live_sum(segs, heads@, leaf_count as int),
                last_reader_index < leaf_count || popped == 0,
                popped > 0 ==> heads@[last_reader_index as int] > 0,
                popped == 0 ==> last_reader_index == 0,
                forall|u: int| 0 <= u < leaf_count ==> (#[trigger] heads@[u]) <= readers@[u].max_doc_spec(),
                forall|u: int| 0 <= u < leaf_count ==> (#[trigger] maps@[u])@.len() == heads@[u],
                forall|u: int, e: int|
                    0 <= u < leaf_count && 0 <= e < heads@[u] ==> #[trigger] maps@[u]@[e] == live_before(
                        fs,
                        segs,
                        leaf_count as int,
                        u,
                        e,
                    ),
                forall|t: int, e: int, u: int, f: int|
                    0 <= t < segs.len() && 0 <= e < heads@[t] && 0 <= u < segs.len() && heads@[u] <= f
                        < segs[u].max_doc_spec() ==> #[trigger] entry_less(fs, segs, t, e, u, f),
                sorted ==> forall|t: int| 0 <= t < leaf_count && 0 < #[trigger] heads@[t] ==> t <= last_reader_index,
                sorted ==> forall|t: int, e: int, u: int, f: int|
                    0 <= u < t < leaf_count && 0 <= e < heads@[t] && 0 <= f < heads@[u]
                        ==> !#[trigger] entry_less(fs, segs, t, e, u, f),
                !sorted ==> {
                    let (wt, we, wu, wf) = witness;
                    &&& 0 <= wu < wt < segs.len()
                    &&& 0 <= we < segs[wt].max_doc_spec()
                    &&& 0 <= wf < segs[wu].max_doc_spec()
                    &&& entry_less(fs, segs, wt, we, wu, wf)
                },
            decreases total - popped,
        {
            proof {
                lemma_sum_le(heads@, readers@, leaf_count as int);
            }
            let mut best: usize = leaf_count;
            let mut s: usize = 0;
            while s < leaf_count
                invariant
                    s <= leaf_count,
                    leaf_count == readers@.len(),
                    segs == readers@,
                    forall|u: int| 0 <= u < readers@.len() ==> (#[trigger] readers@[u]).shaped_for(sort.fields@.len()),
                    fs == sort.fields@,
                    comp_fields@.len() == fs.len(),
                    forall|j: int, v: Option<i64>|
                        0 <= j < fs.len() ==> #[trigger] field_key(comp_fields@[j], v) == field_key(fs[j], v),
                    heads@.len() == leaf_count,
                    forall|u: int| 0 <= u < leaf_count ==> (#[trigger] heads@[u]) <= readers@[u].max_doc_spec(),
                    best < leaf_count ==> best < s && heads@[best as int] < readers@[best as int].max_doc_spec(),
                    best < leaf_count ==> forall|u: int|
                        0 <= u < s && u != best && heads@[u] < readers@[u].max_doc_spec() ==> entry_less(
                            fs,
                            segs,
                            best as int,
                            heads@[best as int] as int,
                            u,
                            #[trigger] heads@[u] as int,
                        ),
                    best == leaf_count ==> forall|u: int| 0 <= u < s ==> (#[trigger] heads@[u]) == readers@[u].max_doc_spec(),
                    best <= leaf_count,
                decreases leaf_count - s,
            {
                if heads[s] < readers[s].max_doc() {
                    if best == leaf_count {
                        best = s;
                    } else {
                        let c = compare_fields(
                            &comp_fields,
                            &readers[s].values,
                            heads[s],
                            &readers[best].values,
                            heads[best],
                        );
                        let ghost hs = heads@[s as int] as int;
                        let ghost hb = heads@[best as int] as int;
                        proof {
                            lemma_cmp_from_same_keys(comp_fields@, fs, segs[s as int].vals(), hs, segs[best as int].vals(), hb, 0);
                            lemma_entry_antisym(fs, segs, s as int, hs, best as int, hb);
                        }
                        if c < 0 {
                            proof {
                                assert forall|u: int|
                                    0 <= u < s + 1 && u != s && heads@[u] < readers@[u].max_doc_spec() implies entry_less(
                                    fs,
                                    segs,
                                    s as int,
                                    hs,
                                    u,
                                    #[trigger] heads@[u] as int,
                                ) by {
                                    if u != best {
                                        lemma_entry_trans(fs, segs, s as int, hs, best as int, hb, u, heads@[u] as int);
                                    }
                                }
                            }
                            best = s;
                        }
                    }
                }
                s = s + 1;
            }
            proof {
                if best == leaf_count {
                    lemma_sum_full(heads@, readers@, leaf_count as int);
                }
            }
            let h = heads[best];
            let ghost old_heads = heads@;
            let ghost b = best as int;
            proof {
                lemma_pop_step(fs, segs, old_heads, b);
                lemma_live_before_sum(fs, segs, old_heads, b, h as int, leaf_count as int);
            }
            if last_reader_index > best {
                proof {
                    let lt = last_reader_index as int;
                    assert(popped > 0);
                    let le = old_heads[lt] - 1;
                    assert(entry_less(fs, segs, lt, le, b, h as int));
                    witness = (lt, le, b, h as int);
                }
                sorted = false;
            }
            let ghost was_sorted = sorted;
            let ghost old_last = last_reader_index;
            last_reader_index = best;
            let ghost old_maps = maps@;
            let mut m = maps.remove(best);
            m.push(mapped_doc_id);
            maps.insert(best, m);
            let live = readers[best].live_docs[h];
            proof {
                lemma_sum_bump(heads@, best as int, leaf_count as int);
                lemma_live_sum_bump(segs, heads@, best as int, leaf_count as int);
            }
            heads.set(best, h + 1);
            popped = popped + 1;
            if live {
                mapped_doc_id = mapped_doc_id + 1;
            }
            proof {
                assert(heads@ == old_heads.update(b, (h + 1) as usize));
                assert forall|u: int| 0 <= u < leaf_count implies (#[trigger] maps@[u])@.len() == heads@[u] by {
                    if u != b {
                        assert(maps@[u] == old_maps[u]);
                    }
                }
                assert forall|u: int, e: int|
                    0 <= u < leaf_count && 0 <= e < heads@[u] implies #[trigger] maps@[u]@[e] == live_before(
                        fs,
                        segs,
                        leaf_count as int,
                        u,
                        e,
                    ) by {
                    if u != b {
                        assert(maps@[u] == old_maps[u]);
                    } else if e < h {
                        assert(maps@[u]@[e] == old_maps[u]@[e]);
                    }
                }
                if sorted {
                    assert forall|t: int| 0 <= t < leaf_count && 0 < #[trigger] heads@[t] implies t <= last_reader_index by {
                        if t != b {
                            assert(0 < old_heads[t]);
                        }
                    }
                    assert forall|t: int, e: int, u: int, f: int|
                        0 <= u < t < leaf_count && 0 <= e < heads@[t] && 0 <= f < heads@[u]
                            implies !#[trigger] entry_less(fs, segs, t, e, u, f) by {
                        if t == b && e == h {
                            assert(f < old_heads[u]);
                            assert(entry_less(fs, segs, u, f, t, e));
                            lemma_entry_antisym(fs, segs, u, f, t, e);
                        } else if u == b && f == h {
                            assert(e < old_heads[t]);
                            assert(0 < old_heads[t]);
                            assert(t <= old_last);
                        } else {
                            assert(e < old_heads[t]);
                            assert(f < old_heads[u]);
                        }
                    }
                }
            }
        }
        proof {
            lemma_sum_le(heads@, readers@, leaf_count as int);
            assert(popped == total);
            assert forall|u: int| 0 <= u < leaf_count implies (#[trigger] heads@[u]) == readers@[u].max_doc_spec() by {}
        }
        if sorted {
            proof {
                assert forall|t: int, e: int, u: int, f: int|
                    0 <= u < t < segs.len() && 0 <= e < segs[t].max_doc_spec() && 0 <= f < segs[u].max_doc_spec()
                        implies !#[trigger] entry_less(fs, segs, t, e, u, f) by {
                    assert(e < heads@[t]);
                    assert(f < heads@[u]);
                }
            }
            return Ok(Vec::new());
        }
        Ok(maps)
    }
}

proof fn lemma_live_sum_zero(segs: Seq<SegmentValues>, heads: Seq<usize>, n: int)
    requires
        0 <= n <= heads.len(),
        forall|u: int| 0 <= u < heads.len() ==> heads[u] == 0,
    ensures
        live_sum(segs, heads, n) == 0,
    decreases n,
{
    if n > 0 {
        lemma_live_sum_zero(segs, heads, n - 1);
    }
}

proof fn lemma_sum_full(h: Seq<usize>, segs: Seq<SegmentValues>, k: int)
    requires
        h.len() == segs.len(),
        0 <= k <= h.len(),
        forall|t: int| 0 <= t < h.len() ==> h[t] == (#[trigger] segs[t]).max_doc_spec(),
    ensures
        sum_prefix(h, k) == sum_docs(segs, k),
    decreases k,
{
    if k > 0 {
        lemma_sum_full(h, segs, k - 1);
    }
}

proof fn lemma_sum_zero(h: Seq<usize>, k: int)
    requires
        0 <= k <= h.len(),
        forall|u: int| 0 <= u < h.len() ==> h[u] == 0,
    ensures
        sum_prefix(h, k) == 0,
    decreases k,
{
    if k > 0 {
        lemma_sum_zero(h, k - 1);
    }
}

proof fn lemma_sum_docs_mono(segs: Seq<SegmentValues>, a: int, b: int)
    requires
        0 <= a <= b <= segs.len(),
    ensures
        sum_docs(segs, a) <= sum_docs(segs, b),
    decreases b - a,
{
    if a < b {
        lemma_sum_docs_mono(segs, a, b - 1);
    }
}

} // verus!
