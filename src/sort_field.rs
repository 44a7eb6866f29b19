//! Sort directives and the order they induce on documents.

use vstd::prelude::*;

verus! {

/// The value type a sort field is declared with.
#[derive(Clone, Copy, Debug, PartialEq, Eq, Structural)]
pub enum SortFieldType {
    Score,
    Doc,
    String,
    Int,
    Long,
    Float,
    Double,
}

/// One sort directive. Values are 64-bit integers; for `Float` and
/// `Double` fields they are the bit pattern of the (widened) double.
/// `reverse == false` sorts ascending, `reverse == true` descending.
/// A document without a value sorts as if it held `missing_value`, or 0
/// when none is configured.
#[derive(Clone, Copy, Debug)]
pub struct SortField {
    pub field_type: SortFieldType,
    pub reverse: bool,
    pub missing_value: Option<i64>,
}

impl SortField {
    pub fn new(field_type: SortFieldType, reverse: bool, missing_value: Option<i64>) -> (r: Self)
        ensures
            r.field_type == field_type,
            r.reverse == reverse,
            r.missing_value == missing_value,
    {
        SortField { field_type, reverse, missing_value }
    }

    pub fn is_reverse(&self) -> (r: bool)
        ensures
            r == self.reverse,
    {
        self.reverse
    }
}

/// An ordered list of sort directives.
pub struct Sort {
    pub fields: Vec<SortField>,
}

impl Sort {
    pub fn new(fields: Vec<SortField>) -> (r: Self)
        ensures
            r.fields@ == fields@,
    {
        Sort { fields }
    }

    pub fn get_sort(&self) -> (r: &Vec<SortField>)
        ensures
            r@ == self.fields@,
    {
        &self.fields
    }
}

/// Which value of a multi-valued numeric field a document sorts by.
#[derive(Clone, Copy, Debug, PartialEq, Eq, Structural)]
pub enum SortedNumericSelector {
    Min,
    Max,
}

/// The value a selector picks from a document's values, kept ascending.
pub open spec fn selected(values: Seq<i64>, selector: SortedNumericSelector) -> Option<i64> {
    if values.len() == 0 {
        None
    } else {
        match selector {
            SortedNumericSelector::Min => Some(values[0]),
            SortedNumericSelector::Max => Some(values.last()),
        }
    }
}

pub open spec fn is_floating(t: SortFieldType) -> bool {
    t == SortFieldType::Float || t == SortFieldType::Double
}

/// The value a document is compared by: its own, else the substitute.
pub open spec fn effective_value(field: SortField, v: Option<i64>) -> i64 {
    match v {
        Some(x) => x,
        None => match field.missing_value {
            Some(m) => m,
            None => 0,
        },
    }
}

/// A key whose unsigned order is the numeric order of the doubles with
/// bit pattern `bits`, with -0.0 and +0.0 equal (NaNs sort beyond the
/// infinities of their sign).
pub open spec fn double_order_key(bits: i64) -> u64 {
    let u = bits as u64;
    if u << 1u64 == 0 {
        0x8000_0000_0000_0000u64
    } else if u >> 63u64 == 1 {
        !u
    } else {
        u | 0x8000_0000_0000_0000u64
    }
}

pub fn double_key(bits: i64) -> (r: u64)
    ensures
        r == double_order_key(bits),
{
    let u = bits as u64;
    if u << 1u64 == 0 {
        0x8000_0000_0000_0000u64
    } else if u >> 63u64 == 1 {
        !u
    } else {
        u | 0x8000_0000_0000_0000u64
    }
}

/// The ascending key of a value under a field, before its direction.
pub open spec fn raw_key(field: SortField, v: Option<i64>) -> int {
    let x = effective_value(field, v);
    if is_floating(field.field_type) {
        double_order_key(x) as int
    } else {
        x as int
    }
}

/// The key a document sorts by under one field: smaller sorts first.
pub open spec fn field_key(field: SortField, v: Option<i64>) -> int {
    if field.reverse {
        -raw_key(field, v)
    } else {
        raw_key(field, v)
    }
}

/// Compares document `da` with values `va` against document `db` with
/// values `vb` on the fields from `f` on: -1, 0 or 1.
pub open spec fn cmp_from(
    fields: Seq<SortField>,
    va: Seq<Seq<Option<i64>>>,
    da: int,
    vb: Seq<Seq<Option<i64>>>,
    db: int,
    f: int,
) -> int
    decreases fields.len() - f,
{
    if f < 0 || f >= fields.len() {
        0
    } else {
        let ka = field_key(fields[f], va[f][da]);
        let kb = field_key(fields[f], vb[f][db]);
        if ka < kb {
            -1
        } else if ka > kb {
            1
        } else {
            cmp_from(fields, va, da, vb, db, f + 1)
        }
    }
}

pub proof fn lemma_cmp_from_antisym(
    fields: Seq<SortField>,
    va: Seq<Seq<Option<i64>>>,
    da: int,
    vb: Seq<Seq<Option<i64>>>,
    db: int,
    f: int,
)
    ensures
        cmp_from(fields, va, da, vb, db, f) == -cmp_from(fields, vb, db, va, da, f),
        -1 <= cmp_from(fields, va, da, vb, db, f) <= 1,
    decreases fields.len() - f,
{
    if 0 <= f < fields.len() {
        lemma_cmp_from_antisym(fields, va, da, vb, db, f + 1);
    }
}

pub proof fn lemma_cmp_from_trans(
    fields: Seq<SortField>,
    va: Seq<Seq<Option<i64>>>,
    da: int,
    vb: Seq<Seq<Option<i64>>>,
    db: int,
    vc: Seq<Seq<Option<i64>>>,
    dc: int,
    f: int,
)
    requires
        cmp_from(fields, va, da, vb, db, f) <= 0,
        cmp_from(fields, vb, db, vc, dc, f) <= 0,
    ensures
        cmp_from(fields, va, da, vc, dc, f) <= 0,
        cmp_from(fields, va, da, vb, db, f) < 0 || cmp_from(fields, vb, db, vc, dc, f) < 0
            ==> cmp_from(fields, va, da, vc, dc, f) < 0,
    decreases fields.len() - f,
{
    if 0 <= f < fields.len() {
        let ka = field_key(fields[f], va[f][da]);
        let kb = field_key(fields[f], vb[f][db]);
        let kc = field_key(fields[f], vc[f][dc]);
        if ka == kb && kb == kc {
            lemma_cmp_from_trans(fields, va, da, vb, db, vc, dc, f + 1);
        }
    }
}

/// Fields that give every value the same key order documents alike.
pub proof fn lemma_cmp_from_same_keys(
    f1: Seq<SortField>,
    f2: Seq<SortField>,
    va: Seq<Seq<Option<i64>>>,
    da: int,
    vb: Seq<Seq<Option<i64>>>,
    db: int,
    f: int,
)
    requires
        f1.len() == f2.len(),
        forall|i: int, v: Option<i64>| 0 <= i < f1.len() ==> #[trigger] field_key(f1[i], v) == field_key(f2[i], v),
    ensures
        cmp_from(f1, va, da, vb, db, f) == cmp_from(f2, va, da, vb, db, f),
    decreases f1.len() - f,
{
    if 0 <= f < f1.len() {
        assert(field_key(f1[f], va[f][da]) == field_key(f2[f], va[f][da]));
        assert(field_key(f1[f], vb[f][db]) == field_key(f2[f], vb[f][db]));
        lemma_cmp_from_same_keys(f1, f2, va, da, vb, db, f + 1);
    }
}

/// Compares two documents of one segment on every field, in order.
pub fn compare_fields(
    fields: &Vec<SortField>,
    va: &Vec<Vec<Option<i64>>>,
    da: usize,
    vb: &Vec<Vec<Option<i64>>>,
    db: usize,
) -> (r: i32)
    requires
        va@.len() == fields@.len(),
        vb@.len() == fields@.len(),
        forall|f: int| 0 <= f < fields@.len() ==> da < (#[trigger] va@[f])@.len(),
        forall|f: int| 0 <= f < fields@.len() ==> db < (#[trigger] vb@[f])@.len(),
    ensures
        r == cmp_from(fields@, table_view(va), da as int, table_view(vb), db as int, 0),
{
    let mut f: usize = 0;
    while f < fields.len()
        invariant
            f <= fields@.len(),
            va@.len() == fields@.len(),
            vb@.len() == fields@.len(),
            forall|g: int| 0 <= g < fields@.len() ==> da < (#[trigger] va@[g])@.len(),
            forall|g: int| 0 <= g < fields@.len() ==> db < (#[trigger] vb@[g])@.len(),
            cmp_from(fields@, table_view(va), da as int, table_view(vb), db as int, 0)
                == cmp_from(fields@, table_view(va), da as int, table_view(vb), db as int, f as int),
        decreases fields@.len() - f,
    {
        let field = fields[f];
        let a = match va[f][da] {
            Some(x) => x,
            None => match field.missing_value {
                Some(m) => m,
                None => 0,
            },
        };
        let b = match vb[f][db] {
            Some(x) => x,
            None => match field.missing_value {
                Some(m) => m,
                None => 0,
            },
        };
        let c: i32 = if field.field_type == SortFieldType::Float || field.field_type
            == SortFieldType::Double {
            let ka = double_key(a);
            let kb = double_key(b);
            if ka < kb {
                -1
            } else if ka > kb {
                1
            } else {
                0
            }
        } else {
            if a < b {
                -1
            } else if a > b {
                1
            } else {
                0
            }
        };
        let c: i32 = if field.reverse { -c } else { c };
        if c != 0 {
            return c;
        }
        f = f + 1;
    }
    0
}

/// A per-field, per-document table of values as a sequence of sequences.
pub open spec fn table_view(t: &Vec<Vec<Option<i64>>>) -> Seq<Seq<Option<i64>>> {
    Seq::new(t@.len(), |f: int| t@[f]@)
}

} // verus!
