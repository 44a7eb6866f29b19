//! The permutation that sorts the documents of one segment.

use crate::sort_field::{
    cmp_from, compare_fields, lemma_cmp_from_antisym, lemma_cmp_from_trans, selected, table_view,
    Sort, SortField, SortedNumericSelector,
};
use crate::sorted_doc_values::DocId;
use vstd::prelude::*;

verus! {

/// The values of one segment: `values[f][d]` is the value of document `d`
/// for sort field `f` (`None` when it has none), `live_docs[d]` whether
/// document `d` is live.
pub struct SegmentValues {
    pub values: Vec<Vec<Option<i64>>>,
    pub live_docs: Vec<bool>,
}

impl SegmentValues {
    pub open spec fn max_doc_spec(&self) -> nat {
        self.live_docs@.len()
    }

    pub open spec fn vals(&self) -> Seq<Seq<Option<i64>>> {
        table_view(&self.values)
    }

    /// Holds one column of `max_doc` values per field, `max_doc` fitting a doc id.
    pub open spec fn shaped_for(&self, num_fields: nat) -> bool {
        &&& self.values@.len() == num_fields
        &&& self.live_docs@.len() <= i32::MAX
        &&& forall|f: int| 0 <= f < num_fields ==> (#[trigger] self.values@[f])@.len() == self.live_docs@.len()
    }

    pub fn max_doc(&self) -> (r: usize)
        ensures
            r == self.max_doc_spec(),
    {
        self.live_docs.len()
    }
}

/// Order of two documents of one segment: by the fields, then by doc id.
pub open spec fn doc_cmp(fields: Seq<SortField>, v: Seq<Seq<Option<i64>>>, a: int, b: int) -> int {
    let c = cmp_from(fields, v, a, v, b, 0);
    if c != 0 {
        c
    } else if a < b {
        -1
    } else if a > b {
        1
    } else {
        0
    }
}

/// Document `i - 1` does not sort after document `i` on the fields.
pub open spec fn in_order_at(fields: Seq<SortField>, v: Seq<Seq<Option<i64>>>, i: int) -> bool {
    cmp_from(fields, v, i - 1, v, i, 0) <= 0
}

pub open spec fn doc_less(fields: Seq<SortField>, v: Seq<Seq<Option<i64>>>, a: int, b: int) -> bool {
    doc_cmp(fields, v, a, b) < 0
}

proof fn lemma_doc_less_trans(fields: Seq<SortField>, v: Seq<Seq<Option<i64>>>, a: int, b: int, c: int)
    requires
        doc_less(fields, v, a, b),
        doc_less(fields, v, b, c),
    ensures
        doc_less(fields, v, a, c),
{
    lemma_cmp_from_antisym(fields, v, a, v, b, 0);
    lemma_cmp_from_antisym(fields, v, b, v, c, 0);
    lemma_cmp_from_trans(fields, v, a, v, b, v, c, 0);
}

proof fn lemma_doc_less_total(fields: Seq<SortField>, v: Seq<Seq<Option<i64>>>, a: int, b: int)
    requires
        a != b,
    ensures
        doc_less(fields, v, a, b) != doc_less(fields, v, b, a),
{
    lemma_cmp_from_antisym(fields, v, a, v, b, 0);
}

proof fn lemma_doc_less_irrefl(fields: Seq<SortField>, v: Seq<Seq<Option<i64>>>, a: int)
    ensures
        !doc_less(fields, v, a, a),
{
    lemma_cmp_from_antisym(fields, v, a, v, a, 0);
}

/// `s` is strictly increasing under the document order.
pub open spec fn docs_sorted(fields: Seq<SortField>, v: Seq<Seq<Option<i64>>>, s: Seq<i32>) -> bool {
    forall|a: int, b: int| 0 <= a < b < s.len() ==> doc_less(fields, v, #[trigger] s[a] as int, #[trigger] s[b] as int)
}

/// `x` occurs in `s`.
pub open spec fn contains_doc(s: Seq<i32>, x: int) -> bool {
    exists|k: int| 0 <= k < s.len() && s[k] == x
}

/// Every value of `s` lies in `lo..hi`.
pub open spec fn within(s: Seq<i32>, lo: int, hi: int) -> bool {
    forall|k: int| 0 <= k < s.len() ==> lo <= #[trigger] s[k] < hi
}

/// Merges two runs of doc ids, each sorted and drawn from disjoint ranges.
fn merge_runs(
    fields: &Vec<SortField>,
    values: &Vec<Vec<Option<i64>>>,
    n: usize,
    a: &Vec<i32>,
    b: &Vec<i32>,
    Ghost(lo): Ghost<int>,
    Ghost(mid): Ghost<int>,
    Ghost(hi): Ghost<int>,
) -> (c: Vec<i32>)
    requires
        0 <= lo <= mid <= hi <= n,
        values@.len() == fields@.len(),
        forall|f: int| 0 <= f < fields@.len() ==> (#[trigger] values@[f])@.len() == n,
        docs_sorted(fields@, table_view(values), a@),
        docs_sorted(fields@, table_view(values), b@),
        within(a@, lo, mid),
        within(b@, mid, hi),
        a@.len() + b@.len() <= n,
    ensures
        c@.len() == a@.len() + b@.len(),
        docs_sorted(fields@, table_view(values), c@),
        within(c@, lo, hi),
        forall|i: int| 0 <= i < a@.len() ==> contains_doc(c@, #[trigger] a@[i] as int),
        forall|j: int| 0 <= j < b@.len() ==> contains_doc(c@, #[trigger] b@[j] as int),
{
    let ghost v = table_view(values);
    let mut c: Vec<i32> = Vec::new();
    let mut i: usize = 0;
    let mut j: usize = 0;
    let ghost mut ia: Seq<int> = Seq::empty();
    let ghost mut jb: Seq<int> = Seq::empty();
    while i < a.len() || j < b.len()
        invariant
            0 <= lo <= mid <= hi <= n,
            v == table_view(values),
            values@.len() == fields@.len(),
            forall|f: int| 0 <= f < fields@.len() ==> (#[trigger] values@[f])@.len() == n,
            docs_sorted(fields@, v, a@),
            docs_sorted(fields@, v, b@),
            within(a@, lo, mid),
            within(b@, mid, hi),
            a@.len() + b@.len() <= n,
            i <= a@.len(),
            j <= b@.len(),
            c@.len() == i + j,
            ia.len() == i,
            jb.len() == j,
            forall|p: int| 0 <= p < i ==> 0 <= #[trigger] ia[p] < c@.len() && c@[ia[p]] == a@[p],
            forall|q: int| 0 <= q < j ==> 0 <= #[trigger] jb[q] < c@.len() && c@[jb[q]] == b@[q],
            within(c@, lo, hi),
            docs_sorted(fields@, v, c@),
            c@.len() > 0 && i < a@.len() ==> doc_less(fields@, v, c@.last() as int, a@[i as int] as int),
            c@.len() > 0 && j < b@.len() ==> doc_less(fields@, v, c@.last() as int, b@[j as int] as int),
        decreases a@.len() + b@.len() - i - j,
    {
        let take_a = if i < a.len() && j < b.len() {
            let cmp = compare_fields(fields, values, a[i] as usize, values, b[j] as usize);
            cmp < 0 || (cmp == 0 && a[i] < b[j])
        } else {
            i < a.len()
        };
        let ghost old_c = c@;
        if take_a {
            let x = a[i];
            proof {
                if j < b@.len() {
                    assert(doc_less(fields@, v, x as int, b@[j as int] as int));
                }
            }
            c.push(x);
            proof {
                ia = ia.push(c@.len() - 1);
                assert forall|p: int, q: int| 0 <= p < q < c@.len() implies doc_less(fields@, v, #[trigger] c@[p] as int, #[trigger] c@[q] as int) by {
                    if q == c@.len() - 1 && p < q - 1 {
                        lemma_doc_less_trans(fields@, v, c@[p] as int, old_c.last() as int, x as int);
                    } else if q == c@.len() - 1 {
                        assert(c@[p] == old_c.last());
                    } else {
                        assert(c@[p] == old_c[p] && c@[q] == old_c[q]);
                    }
                }
                assert forall|p: int| 0 <= p < i + 1 implies 0 <= #[trigger] ia[p] < c@.len() && c@[ia[p]] == a@[p] by {
                    if p < i {
                        assert(c@[ia[p]] == old_c[ia[p]]);
                    }
                }
                assert forall|q: int| 0 <= q < j implies 0 <= #[trigger] jb[q] < c@.len() && c@[jb[q]] == b@[q] by {
                    assert(c@[jb[q]] == old_c[jb[q]]);
                }
            }
            i = i + 1;
        } else {
            let y = b[j];
            proof {
                if i < a@.len() {
                    assert(a@[i as int] != y);
                    lemma_doc_less_total(fields@, v, a@[i as int] as int, y as int);
                    assert(doc_less(fields@, v, y as int, a@[i as int] as int));
                }
            }
            c.push(y);
            proof {
                jb = jb.push(c@.len() - 1);
                assert forall|p: int, q: int| 0 <= p < q < c@.len() implies doc_less(fields@, v, #[trigger] c@[p] as int, #[trigger] c@[q] as int) by {
                    if q == c@.len() - 1 && p < q - 1 {
                        lemma_doc_less_trans(fields@, v, c@[p] as int, old_c.last() as int, y as int);
                    } else if q == c@.len() - 1 {
                        assert(c@[p] == old_c.last());
                    } else {
                        assert(c@[p] == old_c[p] && c@[q] == old_c[q]);
                    }
                }
                assert forall|p: int| 0 <= p < i implies 0 <= #[trigger] ia[p] < c@.len() && c@[ia[p]] == a@[p] by {
                    assert(c@[ia[p]] == old_c[ia[p]]);
                }
                assert forall|q: int| 0 <= q < j + 1 implies 0 <= #[trigger] jb[q] < c@.len() && c@[jb[q]] == b@[q] by {
                    if q < j {
                        assert(c@[jb[q]] == old_c[jb[q]]);
                    }
                }
            }
            j = j + 1;
        }
    }
    proof {
        assert forall|p: int| 0 <= p < a@.len() implies contains_doc(c@, #[trigger] a@[p] as int) by {
            assert(c@[ia[p]] == a@[p]);
        }
        assert forall|q: int| 0 <= q < b@.len() implies contains_doc(c@, #[trigger] b@[q] as int) by {
            assert(c@[jb[q]] == b@[q]);
        }
    }
    c
}

/// Doc ids `lo..hi`, each once, ordered by the fields and then by doc id.
fn sort_range(fields: &Vec<SortField>, values: &Vec<Vec<Option<i64>>>, n: usize, lo: usize, hi: usize) -> (r: Vec<i32>)
    requires
        lo <= hi <= n,
        n <= i32::MAX,
        values@.len() == fields@.len(),
        forall|f: int| 0 <= f < fields@.len() ==> (#[trigger] values@[f])@.len() == n,
    ensures
        r@.len() == hi - lo,
        docs_sorted(fields@, table_view(values), r@),
        within(r@, lo as int, hi as int),
        forall|x: int| lo <= x < hi ==> #[trigger] contains_doc(r@, x),
    decreases hi - lo,
{
    if hi - lo <= 1 {
        let mut r: Vec<i32> = Vec::new();
        if hi > lo {
            r.push(lo as i32);
            assert(r@[0] == lo);
            assert(contains_doc(r@, lo as int));
        }
        return r;
    }
    let mid = lo + (hi - lo) / 2;
    let a = sort_range(fields, values, n, lo, mid);
    let b = sort_range(fields, values, n, mid, hi);
    let c = merge_runs(fields, values, n, &a, &b, Ghost(lo as int), Ghost(mid as int), Ghost(hi as int));
    proof {
        assert forall|x: int| lo <= x < hi implies #[trigger] contains_doc(c@, x) by {
            if x < mid {
                assert(contains_doc(a@, x));
                let i = choose|i: int| 0 <= i < a@.len() && a@[i] == x;
                assert(contains_doc(c@, a@[i] as int));
            } else {
                assert(contains_doc(b@, x));
                let j = choose|j: int| 0 <= j < b@.len() && b@[j] == x;
                assert(contains_doc(c@, b@[j] as int));
            }
        }
    }
    c
}

/// `s` holds each doc id of `0..n` and nothing else.
pub open spec fn is_doc_permutation(s: Seq<i32>, n: int) -> bool {
    &&& s.len() == n
    &&& within(s, 0, n)
    &&& forall|x: int| 0 <= x < n ==> #[trigger] contains_doc(s, x)
}

proof fn lemma_unique_prefix(
    fields: Seq<SortField>,
    v: Seq<Seq<Option<i64>>>,
    s1: Seq<i32>,
    s2: Seq<i32>,
    n: int,
    k: int,
)
    requires
        is_doc_permutation(s1, n),
        is_doc_permutation(s2, n),
        docs_sorted(fields, v, s1),
        docs_sorted(fields, v, s2),
        0 <= k <= n,
    ensures
        forall|i: int| 0 <= i < k ==> #[trigger] s1[i] == s2[i],
    decreases k,
{
    if k > 0 {
        lemma_unique_prefix(fields, v, s1, s2, n, k - 1);
        let i = k - 1;
        let a = s1[i] as int;
        let b = s2[i] as int;
        if a != b {
            assert(contains_doc(s2, a));
            let j = choose|j: int| 0 <= j < s2.len() && s2[j] == a;
            assert(contains_doc(s1, b));
            let j1 = choose|j: int| 0 <= j < s1.len() && s1[j] == b;
            lemma_doc_less_irrefl(fields, v, a);
            lemma_doc_less_irrefl(fields, v, b);
            if j < i {
                assert(s1[j] == s2[j]);
                assert(doc_less(fields, v, s1[j] as int, s1[i] as int));
            } else if j1 < i {
                assert(s1[j1] == s2[j1]);
                assert(doc_less(fields, v, s2[j1] as int, s2[i] as int));
            } else {
                assert(doc_less(fields, v, s2[i] as int, s2[j] as int));
                assert(doc_less(fields, v, s1[i] as int, s1[j1] as int));
                lemma_doc_less_total(fields, v, a, b);
            }
        }
    }
}

/// There is one permutation of `0..n` ordered by the fields and then by
/// doc id: any two are equal.
pub proof fn lemma_sorted_permutation_unique(
    fields: Seq<SortField>,
    v: Seq<Seq<Option<i64>>>,
    s1: Seq<i32>,
    s2: Seq<i32>,
    n: int,
)
    requires
        is_doc_permutation(s1, n),
        is_doc_permutation(s2, n),
        docs_sorted(fields, v, s1),
        docs_sorted(fields, v, s2),
    ensures
        s1 == s2,
{
    lemma_unique_prefix(fields, v, s1, s2, n, n);
    assert(s1 =~= s2);
}

/// A permutation of doc ids. For every doc id `d` below `len()`,
/// `old_to_new(new_to_old(d)) == d`.
pub trait SorterDocMap {
    spec fn map_len(&self) -> nat;

    spec fn old_to_new_spec(&self, doc_id: int) -> int;

    spec fn new_to_old_spec(&self, doc_id: int) -> int;

    /// The position in the sorted order of an old doc id.
    fn old_to_new(&self, doc_id: DocId) -> (r: DocId)
        requires
            0 <= doc_id < self.map_len(),
        ensures
            r == self.old_to_new_spec(doc_id as int),
    ;

    /// The old doc id at a position of the sorted order.
    fn new_to_old(&self, doc_id: DocId) -> (r: DocId)
        requires
            0 <= doc_id < self.map_len(),
        ensures
            r == self.new_to_old_spec(doc_id as int),
    ;

    fn len(&self) -> (r: usize)
        ensures
            r == self.map_len(),
    ;
}

/// The two directions of a doc map are inverse permutations of
/// `0..len()`.
pub open spec fn map_consistent<M: SorterDocMap>(m: &M) -> bool {
    let n = m.map_len() as int;
    &&& forall|d: int|
        0 <= d < n ==> 0 <= #[trigger] m.old_to_new_spec(d) < n && m.new_to_old_spec(m.old_to_new_spec(d)) == d
    &&& forall|k: int|
        0 <= k < n ==> 0 <= #[trigger] m.new_to_old_spec(k) < n && m.old_to_new_spec(m.new_to_old_spec(k)) == k
}

/// Each old doc id maps into `0..len()` and back to itself.
pub open spec fn old_to_new_returns<M: SorterDocMap>(m: &M) -> bool {
    forall|d: int|
        0 <= d < m.map_len() ==> 0 <= #[trigger] m.old_to_new_spec(d) < m.map_len() && m.new_to_old_spec(
            m.old_to_new_spec(d),
        ) == d
}

/// Both directions of a document permutation, as flat tables.
pub struct PackedLongDocMap {
    max_doc: usize,
    old_to_new: Vec<i32>,
    new_to_old: Vec<i32>,
}

impl PackedLongDocMap {
    #[verifier::type_invariant]
    spec fn wf(&self) -> bool {
        &&& self.old_to_new@.len() == self.max_doc
        &&& self.new_to_old@.len() == self.max_doc
        &&& self.max_doc <= i32::MAX
    }

    /// The new-to-old table: the old doc id at each position.
    pub closed spec fn new_to_old_seq(&self) -> Seq<i32> {
        self.new_to_old@
    }

    /// The two tables are inverse permutations.
    pub open spec fn valid(&self) -> bool {
        map_consistent(self)
    }
}

impl SorterDocMap for PackedLongDocMap {
    closed spec fn map_len(&self) -> nat {
        self.max_doc as nat
    }

    closed spec fn old_to_new_spec(&self, doc_id: int) -> int {
        self.old_to_new@[doc_id] as int
    }

    open spec fn new_to_old_spec(&self, doc_id: int) -> int {
        self.new_to_old_seq()[doc_id] as int
    }

    fn old_to_new(&self, doc_id: DocId) -> (r: DocId) {
        proof {
            use_type_invariant(self);
        }
        self.old_to_new[doc_id as usize]
    }

    fn new_to_old(&self, doc_id: DocId) -> (r: DocId) {
        proof {
            use_type_invariant(self);
        }
        self.new_to_old[doc_id as usize]
    }

    fn len(&self) -> (r: usize) {
        self.max_doc
    }
}

/// In a valid map, going old to new, back, and forward again lands where
/// the first step did, and new to old reaches every doc id exactly once.
pub proof fn lemma_permutation_inverse(m: &PackedLongDocMap, d: int)
    requires
        m.valid(),
        0 <= d < m.map_len(),
    ensures
        0 <= m.old_to_new_spec(d) < m.map_len(),
        m.old_to_new_spec(m.new_to_old_spec(m.old_to_new_spec(d))) == m.old_to_new_spec(d),
        0 <= m.new_to_old_spec(m.old_to_new_spec(d)) < m.map_len(),
        forall|k: int| 0 <= k < m.map_len() ==> 0 <= #[trigger] m.new_to_old_spec(k) < m.map_len(),
        forall|k: int, j: int|
            0 <= k < m.map_len() && 0 <= j < m.map_len() && k != j
                ==> m.new_to_old_spec(k) != m.new_to_old_spec(j),
        forall|e: int|
            0 <= e < m.map_len() ==> 0 <= #[trigger] m.old_to_new_spec(e) < m.map_len()
                && m.new_to_old_spec(m.old_to_new_spec(e)) == e,
{
    assert forall|k: int, j: int|
        0 <= k < m.map_len() && 0 <= j < m.map_len() && k != j
            implies m.new_to_old_spec(k) != m.new_to_old_spec(j) by {
        assert(m.old_to_new_spec(m.new_to_old_spec(k)) == k);
        assert(m.old_to_new_spec(m.new_to_old_spec(j)) == j);
    }
}

/// Sorts documents of a segment by returning a permutation of doc ids.
pub struct Sorter {
    sort: Sort,
}

impl Sorter {
    pub fn new(sort: Sort) -> (r: Self)
        ensures
            r.fields() == sort.fields@,
    {
        Sorter { sort }
    }

    pub closed spec fn fields(&self) -> Seq<SortField> {
        self.sort.fields@
    }

    /// The permutation ordering documents `0..max_doc` by `fields`, then by
    /// doc id; `None` when that order is already the order of the ids.
    fn sort(max_doc: i32, fields: &Vec<SortField>, values: &Vec<Vec<Option<i64>>>) -> (r: Option<
        PackedLongDocMap,
    >)
        requires
            0 <= max_doc,
            values@.len() == fields@.len(),
            forall|f: int| 0 <= f < fields@.len() ==> (#[trigger] values@[f])@.len() == max_doc,
        ensures
            r.is_none() <==> forall|i: int|
                1 <= i < max_doc ==> #[trigger] in_order_at(fields@, table_view(values), i),
            r matches Some(m) ==> m.valid() && m.map_len() == max_doc && forall|a: int, b: int|
                0 <= a < b < max_doc ==> doc_less(
                    fields@,
                    table_view(values),
                    m.new_to_old_spec(a),
                    m.new_to_old_spec(b),
                ),
            r matches Some(m) ==> is_doc_permutation(m.new_to_old_seq(), max_doc as int) && docs_sorted(
                fields@,
                table_view(values),
                m.new_to_old_seq(),
            ),
    {
        let ghost v = table_view(values);
        let n: usize = max_doc as usize;
        let mut sorted = true;
        let mut i: usize = 1;
        while sorted && i < n
            invariant
                1 <= i,
                n == max_doc,
                v == table_view(values),
                values@.len() == fields@.len(),
                forall|f: int| 0 <= f < fields@.len() ==> (#[trigger] values@[f])@.len() == max_doc,
                forall|j: int| 1 <= j < i && j < n ==> #[trigger] in_order_at(fields@, v, j),
                !sorted ==> i < n && !in_order_at(fields@, v, i as int),
            decreases n - i, if sorted { 1int } else { 0int },
        {
            if compare_fields(fields, values, i - 1, values, i) > 0 {
                sorted = false;
            } else {
                i = i + 1;
            }
        }
        if sorted {
            return None;
        }
        let docs = sort_range(fields, values, n, 0, n);
        let ghost pos: Seq<int> = Seq::new(n as nat, |d: int| choose|k: int| 0 <= k < n && docs@[k] == d);
        proof {
            assert forall|d: int| 0 <= d < n implies 0 <= #[trigger] pos[d] < n && docs@[pos[d]] == d by {
                assert(contains_doc(docs@, d));
            }
            assert forall|j: int| 0 <= j < n implies 0 <= #[trigger] docs@[j] < n && pos[docs@[j] as int] == j by {
                let d = docs@[j] as int;
                assert(contains_doc(docs@, d));
                let k = pos[d];
                assert(docs@[k] == d);
                if k != j {
                    lemma_doc_less_irrefl(fields@, v, d);
                    if k < j {
                        assert(doc_less(fields@, v, docs@[k] as int, docs@[j] as int));
                    } else {
                        assert(doc_less(fields@, v, docs@[j] as int, docs@[k] as int));
                    }
                }
            }
        }
        let mut old_to_new: Vec<i32> = Vec::new();
        let mut k: usize = 0;
        while k < n
            invariant
                k <= n,
                old_to_new@.len() == k,
            decreases n - k,
        {
            old_to_new.push(0);
            k = k + 1;
        }
        let mut i: usize = 0;
        while i < n
            invariant
                i <= n,
                n == max_doc,
                old_to_new@.len() == n,
                docs@.len() == n,
                pos.len() == n,
                forall|j: int| 0 <= j < n ==> 0 <= #[trigger] docs@[j] < n && pos[docs@[j] as int] == j,
                forall|d: int| 0 <= d < n ==> 0 <= #[trigger] pos[d] < n && docs@[pos[d]] == d,
                forall|j: int| 0 <= j < i ==> #[trigger] old_to_new@[docs@[j] as int] == j,
            decreases n - i,
        {
            let d = docs[i];
            proof {
                assert forall|j: int| 0 <= j < i implies docs@[j] != d by {
                    assert(pos[docs@[j] as int] == j);
                }
            }
            old_to_new.set(d as usize, i as i32);
            i = i + 1;
        }
        proof {
            assert forall|d: int| 0 <= d < n implies 0 <= #[trigger] old_to_new@[d] < n && docs@[old_to_new@[d] as int] == d by {
                assert(old_to_new@[docs@[pos[d]] as int] == pos[d]);
            }
        }
        let map = PackedLongDocMap { max_doc: n, old_to_new, new_to_old: docs };
        Some(map)
    }

    /// The permutation that sorts `reader`'s documents by this sorter's
    /// fields; `None` when they are already in that order.
    pub fn sort_leaf_reader(&self, reader: &SegmentValues) -> (r: Option<PackedLongDocMap>)
        requires
            reader.shaped_for(self.fields().len()),
        ensures
            r.is_none() <==> forall|i: int|
                1 <= i < reader.max_doc_spec() ==> #[trigger] in_order_at(self.fields(), reader.vals(), i),
            r matches Some(m) ==> m.valid() && m.map_len() == reader.max_doc_spec() && forall|a: int, b: int|
                0 <= a < b < reader.max_doc_spec() ==> doc_less(
                    self.fields(),
                    reader.vals(),
                    m.new_to_old_spec(a),
                    m.new_to_old_spec(b),
                ),
            r matches Some(m) ==> is_doc_permutation(m.new_to_old_seq(), reader.max_doc_spec() as int)
                && docs_sorted(self.fields(), reader.vals(), m.new_to_old_seq()),
    {
        let max_doc = reader.max_doc() as i32;
        let r = Self::sort(max_doc, &self.sort.fields, &reader.values);
        assert(max_doc as int == reader.max_doc_spec());
        assert(self.fields() == self.sort.fields@);
        assert(reader.vals() == table_view(&reader.values));
        r
    }

    /// One value per document of a multi-valued numeric field, as picked by
    /// `selector`; `None` for a document without values.
    pub fn get_or_wrap_numeric(doc_values: &Vec<Vec<i64>>, selector: SortedNumericSelector) -> (r: Vec<
        Option<i64>,
    >)
        ensures
            r@.len() == doc_values@.len(),
            forall|d: int| 0 <= d < r@.len() ==> #[trigger] r@[d] == selected(doc_values@[d]@, selector),
    {
        let mut r: Vec<Option<i64>> = Vec::new();
        let mut d: usize = 0;
        while d < doc_values.len()
            invariant
                d <= doc_values@.len(),
                r@.len() == d,
                forall|k: int| 0 <= k < d ==> #[trigger] r@[k] == selected(doc_values@[k]@, selector),
            decreases doc_values@.len() - d,
        {
            let vals = &doc_values[d];
            let v = if vals.len() == 0 {
                None
            } else {
                match selector {
                    SortedNumericSelector::Min => Some(vals[0]),
                    SortedNumericSelector::Max => Some(vals[vals.len() - 1]),
                }
            };
            r.push(v);
            d = d + 1;
        }
        r
    }

    /// Self-check of a doc map: each old doc id maps into `0..len()` and
    /// back to itself. A map failing it is a defect, so the check is a
    /// precondition and the result is always `true`.
    pub fn is_consistent<M: SorterDocMap>(doc_map: &M) -> (r: bool)
        requires
            doc_map.map_len() <= i32::MAX,
            old_to_new_returns(doc_map),
        ensures
            r,
    {
        let max_doc = doc_map.len() as i32;
        let mut i: i32 = 0;
        let mut ok = true;
        while i < max_doc
            invariant
                0 <= i <= max_doc,
                max_doc == doc_map.map_len(),
                old_to_new_returns(doc_map),
                ok,
            decreases max_doc - i,
        {
            let new_id = doc_map.old_to_new(i);
            let old_id = doc_map.new_to_old(new_id);
            ok = ok && new_id >= 0 && new_id < max_doc && old_id == i;
            i = i + 1;
        }
        ok
    }
}

} // verus!
