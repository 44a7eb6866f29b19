//! Per-document ordinals over a sorted dictionary of byte strings.

use crate::bytes_order::{
    bcompare, bytes_cmp, bytes_lt, lemma_cmp_antisym, lemma_cmp_trans, strictly_sorted,
};
use crate::long_values::LongValues;
use std::sync::Arc;
use vstd::prelude::*;

verus! {

pub type DocId = i32;

/// What a dictionary search over `terms` for `key` must return: the ordinal
/// of `key` when present, else `-(insertion_point + 1)`.
pub open spec fn term_search_result(terms: Seq<Seq<u8>>, key: Seq<u8>, r: int) -> bool {
    if r >= 0 {
        r < terms.len() && terms[r] == key
    } else {
        let ip = -(r + 1);
        &&& 0 <= ip <= terms.len()
        &&& forall|k: int| 0 <= k < ip ==> bytes_lt(#[trigger] terms[k], key)
        &&& forall|k: int| ip <= k < terms.len() ==> bytes_lt(key, #[trigger] terms[k])
    }
}

/// Start offset of entry `k` when entry `k` ends at `ends[k]`.
pub open spec fn entry_start(ends: Seq<usize>, k: int) -> int {
    if k == 0 {
        0
    } else {
        ends[k - 1] as int
    }
}

/// The end offsets describe consecutive entries inside a buffer of `data_len` bytes.
pub open spec fn offsets_ok(ends: Seq<usize>, data_len: nat) -> bool {
    forall|k: int| 0 <= k < ends.len() ==> entry_start(ends, k) <= #[trigger] ends[k] <= data_len
}

/// The entries that `ends` cuts out of `data`.
pub open spec fn entries_of(data: Seq<u8>, ends: Seq<usize>) -> Seq<Seq<u8>> {
    Seq::new(ends.len(), |k: int| data.subrange(entry_start(ends, k), ends[k] as int))
}

fn copy_bytes(s: &[u8]) -> (r: Vec<u8>)
    ensures
        r@ == s@,
{
    let mut r: Vec<u8> = Vec::new();
    let mut i: usize = 0;
    while i < s.len()
        invariant
            i <= s@.len(),
            r@ =~= s@.subrange(0, i as int),
        decreases s@.len() - i,
    {
        r.push(s[i]);
        i = i + 1;
    }
    assert(r@ =~= s@);
    r
}

/// A dictionary stored as one byte buffer plus the end offset of each
/// entry, read in place without one allocation per entry.
pub struct CompressedBinaryDocValues {
    data: Vec<u8>,
    ends: Vec<usize>,
}

impl CompressedBinaryDocValues {
    #[verifier::type_invariant]
    spec fn wf(&self) -> bool {
        offsets_ok(self.ends@, self.data@.len())
    }

    pub closed spec fn terms(&self) -> Seq<Seq<u8>> {
        entries_of(self.data@, self.ends@)
    }

    /// `None` when an entry would end before it starts or past `data`.
    pub fn new(data: Vec<u8>, ends: Vec<usize>) -> (r: Option<Self>)
        ensures
            r.is_some() <==> offsets_ok(ends@, data@.len()),
            r matches Some(c) ==> c.terms() == entries_of(data@, ends@),
    {
        let mut k: usize = 0;
        while k < ends.len()
            invariant
                k <= ends@.len(),
                forall|j: int|
                    0 <= j < k ==> entry_start(ends@, j) <= #[trigger] ends@[j] <= data@.len(),
            decreases ends@.len() - k,
        {
            let start: usize = if k == 0 { 0 } else { ends[k - 1] };
            if start > ends[k] || ends[k] > data.len() {
                return None;
            }
            k = k + 1;
        }
        Some(CompressedBinaryDocValues { data, ends })
    }

    pub fn len(&self) -> (r: usize)
        ensures
            r == self.terms().len(),
    {
        self.ends.len()
    }

    pub fn get(&self, ord: usize) -> (r: Vec<u8>)
        requires
            ord < self.terms().len(),
        ensures
            r@ == self.terms()[ord as int],
    {
        proof {
            use_type_invariant(self);
        }
        let start: usize = if ord == 0 { 0 } else { self.ends[ord - 1] };
        let end: usize = self.ends[ord];
        copy_bytes(&self.data.as_slice()[start..end])
    }
}

impl CompressedBinaryDocValues {
    /// Binary search of the dictionary for `key`, comparing entries in
    /// place in the buffer.
    pub fn lookup_term(&self, key: &[u8]) -> (r: i64)
        requires
            strictly_sorted(self.terms()),
            self.terms().len() <= i32::MAX,
        ensures
            term_search_result(self.terms(), key@, r as int),
            -(self.terms().len() as int) - 1 <= r < self.terms().len(),
    {
        proof {
            use_type_invariant(self);
        }
        let ghost terms = self.terms();
        let mut low: i64 = 0;
        let mut high: i64 = self.ends.len() as i64 - 1;
        while low <= high
            invariant
                terms == self.terms(),
                strictly_sorted(terms),
                terms.len() <= i32::MAX,
                offsets_ok(self.ends@, self.data@.len()),
                0 <= low <= high + 1 <= terms.len(),
                forall|k: int| 0 <= k < low ==> bytes_lt(#[trigger] terms[k], key@),
                forall|k: int| high < k < terms.len() ==> bytes_lt(key@, #[trigger] terms[k]),
            decreases high + 1 - low,
        {
            let mid: i64 = low + (high - low) / 2;
            let m = mid as usize;
            let start: usize = if m == 0 { 0 } else { self.ends[m - 1] };
            let end: usize = self.ends[m];
            let term = &self.data.as_slice()[start..end];
            let cmp = bcompare(term, key);
            proof {
                assert(term@ == terms[mid as int]);
                lemma_cmp_antisym(term@, key@);
            }
            if cmp < 0 {
                proof {
                    assert forall|k: int| 0 <= k <= mid implies bytes_lt(#[trigger] terms[k], key@) by {
                        if k < mid {
                            lemma_cmp_trans(terms[k], terms[mid as int], key@);
                        }
                    }
                }
                low = mid + 1;
            } else if cmp > 0 {
                proof {
                    assert forall|k: int| mid <= k < terms.len() implies bytes_lt(key@, #[trigger] terms[k]) by {
                        if k > mid {
                            lemma_cmp_trans(key@, terms[mid as int], terms[k]);
                        }
                    }
                }
                high = mid - 1;
            } else {
                return mid;
            }
        }
        -low - 1
    }

    /// The entries in ordinal order, read straight from the buffer.
    pub fn term_iterator(&self) -> (r: Vec<Vec<u8>>)
        ensures
            r@.len() == self.terms().len(),
            forall|k: int| 0 <= k < r@.len() ==> #[trigger] r@[k]@ == self.terms()[k],
    {
        let mut r: Vec<Vec<u8>> = Vec::new();
        let mut k: usize = 0;
        while k < self.ends.len()
            invariant
                k <= self.terms().len(),
                self.terms().len() == self.ends@.len(),
                r@.len() == k,
                forall|j: int| 0 <= j < k ==> #[trigger] r@[j]@ == self.terms()[j],
            decreases self.ends@.len() - k,
        {
            r.push(self.get(k));
            k = k + 1;
        }
        r
    }
}

/// The two ways a dictionary can be stored.
pub enum BoxedBinaryDocValuesEnum {
    General(Vec<Vec<u8>>),
    Compressed(CompressedBinaryDocValues),
}

impl BoxedBinaryDocValuesEnum {
    pub closed spec fn terms(&self) -> Seq<Seq<u8>> {
        match self {
            BoxedBinaryDocValuesEnum::General(v) => Seq::new(v@.len(), |k: int| v@[k]@),
            BoxedBinaryDocValuesEnum::Compressed(c) => c.terms(),
        }
    }
}

/// The shared state behind [`TailoredSortedDocValues`].
pub struct TailoredSortedDocValuesInner {
    ordinals: LongValues,
    binary: BoxedBinaryDocValuesEnum,
    value_count: usize,
}

/// Conditions on the parts of a sorted doc values view: a strictly sorted
/// dictionary of `value_count` entries and per-document ordinals in
/// `[-1, value_count)`.
pub open spec fn sorted_parts_ok(ordinals: Seq<i64>, terms: Seq<Seq<u8>>, value_count: nat) -> bool {
    &&& terms.len() == value_count
    &&& value_count <= i32::MAX
    &&& strictly_sorted(terms)
    &&& forall|d: int| 0 <= d < ordinals.len() ==> -1 <= #[trigger] ordinals[d] < value_count
}

impl TailoredSortedDocValuesInner {
    pub closed spec fn wf(&self) -> bool {
        sorted_parts_ok(self.ordinals.values(), self.binary.terms(), self.value_count as nat)
    }

    pub closed spec fn terms(&self) -> Seq<Seq<u8>> {
        self.binary.terms()
    }

    pub closed spec fn ords(&self) -> Seq<i64> {
        self.ordinals.values()
    }

    pub fn new(ordinals: LongValues, binary: Vec<Vec<u8>>, value_count: usize) -> (r: Self)
        requires
            sorted_parts_ok(ordinals.values(), Seq::new(binary@.len(), |k: int| binary@[k]@), value_count as nat),
        ensures
            r.wf(),
            r.ords() == ordinals.values(),
            r.terms() == Seq::new(binary@.len(), |k: int| binary@[k]@),
    {
        TailoredSortedDocValuesInner {
            ordinals,
            binary: BoxedBinaryDocValuesEnum::General(binary),
            value_count,
        }
    }

    pub fn with_compression(
        ordinals: LongValues,
        binary: CompressedBinaryDocValues,
        value_count: usize,
    ) -> (r: Self)
        requires
            sorted_parts_ok(ordinals.values(), binary.terms(), value_count as nat),
        ensures
            r.wf(),
            r.ords() == ordinals.values(),
            r.terms() == binary.terms(),
    {
        TailoredSortedDocValuesInner {
            ordinals,
            binary: BoxedBinaryDocValuesEnum::Compressed(binary),
            value_count,
        }
    }

    pub fn get_value_count(&self) -> (r: usize)
        requires
            self.wf(),
        ensures
            r == self.terms().len(),
    {
        self.value_count
    }

    pub fn get_ord(&self, doc_id: DocId) -> (r: i32)
        requires
            self.wf(),
            0 <= doc_id < self.ords().len(),
        ensures
            r == self.ords()[doc_id as int],
    {
        self.ordinals.get(doc_id as usize) as i32
    }

    pub fn lookup_ord(&self, ord: i32) -> (r: Vec<u8>)
        requires
            self.wf(),
            0 <= ord < self.terms().len(),
        ensures
            r@ == self.terms()[ord as int],
    {
        match &self.binary {
            BoxedBinaryDocValuesEnum::General(v) => copy_bytes(v[ord as usize].as_slice()),
            BoxedBinaryDocValuesEnum::Compressed(c) => c.get(ord as usize),
        }
    }

    /// The ordinal of `key`, or `-(insertion_point + 1)`: answered by the
    /// compressed storage itself, else by a binary search over `lookup_ord`.
    pub fn lookup_term(&self, key: &[u8]) -> (r: i32)
        requires
            self.wf(),
        ensures
            term_search_result(self.terms(), key@, r as int),
    {
        if let BoxedBinaryDocValuesEnum::Compressed(c) = &self.binary {
            return c.lookup_term(key) as i32;
        }
        let ghost terms = self.terms();
        let mut low: i32 = 0;
        let mut high: i32 = self.value_count as i32 - 1;
        while low <= high
            invariant
                self.wf(),
                terms == self.terms(),
                0 <= low <= high + 1 <= terms.len(),
                forall|k: int| 0 <= k < low ==> bytes_lt(#[trigger] terms[k], key@),
                forall|k: int| high < k < terms.len() ==> bytes_lt(key@, #[trigger] terms[k]),
            decreases high + 1 - low,
        {
            let mid: i32 = low + (high - low) / 2;
            let term = self.lookup_ord(mid);
            let cmp = bcompare(term.as_slice(), key);
            proof {
                lemma_cmp_antisym(term@, key@);
            }
            if cmp < 0 {
                proof {
                    assert forall|k: int| 0 <= k <= mid implies bytes_lt(#[trigger] terms[k], key@) by {
                        if k < mid {
                            lemma_cmp_trans(terms[k], terms[mid as int], key@);
                        }
                    }
                }
                low = mid + 1;
            } else if cmp > 0 {
                proof {
                    assert forall|k: int| mid <= k < terms.len() implies bytes_lt(key@, #[trigger] terms[k]) by {
                        if k > mid {
                            lemma_cmp_trans(key@, terms[mid as int], terms[k]);
                        }
                    }
                }
                high = mid - 1;
            } else {
                return mid;
            }
        }
        -low - 1
    }
}

impl TailoredSortedDocValuesInner {
    /// The dictionary entries in ordinal order: from the compressed
    /// storage itself, else by `lookup_ord` over every ordinal.
    pub fn term_iterator(&self) -> (r: Vec<Vec<u8>>)
        requires
            self.wf(),
        ensures
            r@.len() == self.terms().len(),
            forall|k: int| 0 <= k < r@.len() ==> #[trigger] r@[k]@ == self.terms()[k],
    {
        if let BoxedBinaryDocValuesEnum::Compressed(c) = &self.binary {
            return c.term_iterator();
        }
        let n = self.value_count;
        let mut r: Vec<Vec<u8>> = Vec::new();
        let mut k: usize = 0;
        while k < n
            invariant
                k <= n,
                n == self.terms().len(),
                n <= i32::MAX,
                self.wf(),
                r@.len() == k,
                forall|j: int| 0 <= j < k ==> #[trigger] r@[j]@ == self.terms()[j],
            decreases n - k,
        {
            r.push(self.lookup_ord(k as i32));
            k = k + 1;
        }
        r
    }
}

/// Per-document ordinals into a sorted dictionary of byte strings.
pub trait SortedDocValues {
    /// The dictionary, in ordinal order.
    spec fn dictionary(&self) -> Seq<Seq<u8>>;

    /// The ordinal of each document, -1 where it has none.
    spec fn doc_ords(&self) -> Seq<i64>;

    fn get_ord(&self, doc_id: DocId) -> (r: i32)
        requires
            0 <= doc_id < self.doc_ords().len(),
        ensures
            r == self.doc_ords()[doc_id as int],
    ;

    fn lookup_ord(&self, ord: i32) -> (r: Vec<u8>)
        requires
            0 <= ord < self.dictionary().len(),
        ensures
            r@ == self.dictionary()[ord as int],
    ;

    fn get_value_count(&self) -> (r: usize)
        ensures
            r == self.dictionary().len(),
    ;

    /// If `key` is in the dictionary, its ordinal; else
    /// `-(insertion_point + 1)`.
    fn lookup_term(&self, key: &[u8]) -> (r: i32)
        ensures
            term_search_result(self.dictionary(), key@, r as int),
    ;

    /// The dictionary entries in ordinal order.
    fn term_iterator(&self) -> (r: Vec<Vec<u8>>)
        ensures
            r@.len() == self.dictionary().len(),
            forall|k: int| 0 <= k < r@.len() ==> #[trigger] r@[k]@ == self.dictionary()[k],
    ;
}

/// A sorted doc values view sharing its storage between readers.
pub struct TailoredSortedDocValues {
    inner: Arc<TailoredSortedDocValuesInner>,
}

impl TailoredSortedDocValues {
    #[verifier::type_invariant]
    spec fn wf(&self) -> bool {
        (*self.inner).wf()
    }

    /// The dictionary, in ordinal order.
    pub closed spec fn terms(&self) -> Seq<Seq<u8>> {
        (*self.inner).terms()
    }

    /// The ordinal of each document, -1 where it has no value.
    pub closed spec fn ords(&self) -> Seq<i64> {
        (*self.inner).ords()
    }

    pub fn new(ordinals: LongValues, binary: Vec<Vec<u8>>, value_count: usize) -> (r: Self)
        requires
            sorted_parts_ok(ordinals.values(), Seq::new(binary@.len(), |k: int| binary@[k]@), value_count as nat),
        ensures
            r.ords() == ordinals.values(),
            r.terms() == Seq::new(binary@.len(), |k: int| binary@[k]@),
    {
        let inner = TailoredSortedDocValuesInner::new(ordinals, binary, value_count);
        TailoredSortedDocValues { inner: Arc::new(inner) }
    }

    pub fn with_compression(
        ordinals: LongValues,
        binary: CompressedBinaryDocValues,
        value_count: usize,
    ) -> (r: Self)
        requires
            sorted_parts_ok(ordinals.values(), binary.terms(), value_count as nat),
        ensures
            r.ords() == ordinals.values(),
            r.terms() == binary.terms(),
    {
        let inner = TailoredSortedDocValuesInner::with_compression(ordinals, binary, value_count);
        TailoredSortedDocValues { inner: Arc::new(inner) }
    }

    pub fn get_ord(&self, doc_id: DocId) -> (r: i32)
        requires
            0 <= doc_id < self.ords().len(),
        ensures
            r == self.ords()[doc_id as int],
            -1 <= r < self.terms().len(),
    {
        proof {
            use_type_invariant(self);
        }
        self.inner.get_ord(doc_id)
    }

    pub fn lookup_ord(&self, ord: i32) -> (r: Vec<u8>)
        requires
            0 <= ord < self.terms().len(),
        ensures
            r@ == self.terms()[ord as int],
    {
        proof {
            use_type_invariant(self);
        }
        self.inner.lookup_ord(ord)
    }

    pub fn get_value_count(&self) -> (r: usize)
        ensures
            r == self.terms().len(),
            r <= i32::MAX,
            strictly_sorted(self.terms()),
    {
        proof {
            use_type_invariant(self);
        }
        self.inner.get_value_count()
    }

    /// If `key` is in the dictionary, its ordinal; else
    /// `-(insertion_point + 1)`.
    pub fn lookup_term(&self, key: &[u8]) -> (r: i32)
        ensures
            term_search_result(self.terms(), key@, r as int),
    {
        proof {
            use_type_invariant(self);
        }
        self.inner.lookup_term(key)
    }

    /// The dictionary entries in ordinal order.
    pub fn term_iterator(&self) -> (r: Vec<Vec<u8>>)
        ensures
            r@.len() == self.terms().len(),
            forall|k: int| 0 <= k < r@.len() ==> #[trigger] r@[k]@ == self.terms()[k],
    {
        proof {
            use_type_invariant(self);
        }
        self.inner.term_iterator()
    }

    /// The value of a document: its dictionary entry, or empty bytes when
    /// it has none.
    pub fn get(&self, doc_id: DocId) -> (r: Vec<u8>)
        requires
            0 <= doc_id < self.ords().len(),
        ensures
            self.ords()[doc_id as int] == -1 ==> r@.len() == 0,
            self.ords()[doc_id as int] >= 0 ==> r@ == self.terms()[self.ords()[doc_id as int] as int],
    {
        let ord = self.get_ord(doc_id);
        if ord == -1 {
            Vec::new()
        } else {
            self.lookup_ord(ord)
        }
    }
}

impl SortedDocValues for TailoredSortedDocValues {
    open spec fn dictionary(&self) -> Seq<Seq<u8>> {
        self.terms()
    }

    open spec fn doc_ords(&self) -> Seq<i64> {
        self.ords()
    }

    fn get_ord(&self, doc_id: DocId) -> (r: i32) {
        TailoredSortedDocValues::get_ord(self, doc_id)
    }

    fn lookup_ord(&self, ord: i32) -> (r: Vec<u8>) {
        TailoredSortedDocValues::lookup_ord(self, ord)
    }

    fn get_value_count(&self) -> (r: usize) {
        TailoredSortedDocValues::get_value_count(self)
    }

    fn lookup_term(&self, key: &[u8]) -> (r: i32) {
        TailoredSortedDocValues::lookup_term(self, key)
    }

    fn term_iterator(&self) -> (r: Vec<Vec<u8>>) {
        TailoredSortedDocValues::term_iterator(self)
    }
}

/// Looking up the entry of any ordinal gives back that ordinal.
pub proof fn lemma_ordinal_round_trip(terms: Seq<Seq<u8>>, ord: int, r: int)
    requires
        strictly_sorted(terms),
        0 <= ord < terms.len(),
        term_search_result(terms, terms[ord], r),
    ensures
        r == ord,
{
    if r >= 0 {
        if r < ord {
            lemma_cmp_antisym(terms[r], terms[ord]);
        } else if r > ord {
            lemma_cmp_antisym(terms[ord], terms[r]);
        }
    } else {
        let ip = -(r + 1);
        lemma_cmp_antisym(terms[ord], terms[ord]);
    }
}

} // verus!
