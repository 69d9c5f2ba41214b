//! Null count, minimum and maximum of a column, and their serialized block.
use vstd::prelude::*;

use crate::native::{NativeType, PhysicalType};
use crate::values::present;

verus! {

/// Statistics of a column of `T`, with its extremes as scalars.
#[derive(Debug, Clone, Copy)]
pub struct PrimitiveStatistics<T> {
    pub null_count: Option<i64>,
    pub distinct_count: Option<i64>,
    pub max_value: Option<T>,
    pub min_value: Option<T>,
}

/// Serialized statistics: the physical type, and the extremes as their
/// little-endian bytes. Each field is independently optional.
#[derive(Debug)]
pub struct StatisticsBlock {
    pub physical_type: PhysicalType,
    pub null_count: Option<i64>,
    pub distinct_count: Option<i64>,
    pub max_value: Option<Vec<u8>>,
    pub min_value: Option<Vec<u8>>,
}

/// What a `StatisticsBlock` holds, with byte strings as sequences.
pub struct StatisticsModel {
    pub physical_type: PhysicalType,
    pub null_count: Option<i64>,
    pub distinct_count: Option<i64>,
    pub max_value: Option<Seq<u8>>,
    pub min_value: Option<Seq<u8>>,
}

pub open spec fn bytes_view(o: Option<Vec<u8>>) -> Option<Seq<u8>> {
    match o {
        Some(v) => Some(v@),
        None => None,
    }
}

pub open spec fn le_bytes_of<T: NativeType>(o: Option<T>) -> Option<Seq<u8>> {
    match o {
        Some(v) => Some(v.le_bytes()),
        None => None,
    }
}

impl View for StatisticsBlock {
    type V = StatisticsModel;

    open spec fn view(&self) -> StatisticsModel {
        StatisticsModel {
            physical_type: self.physical_type,
            null_count: self.null_count,
            distinct_count: self.distinct_count,
            max_value: bytes_view(self.max_value),
            min_value: bytes_view(self.min_value),
        }
    }
}

/// Maximum of `s` by rank, the first one met on ties; `None` when empty.
pub open spec fn seq_max<T: NativeType>(s: Seq<T>) -> Option<T>
    decreases s.len(),
{
    if s.len() == 0 {
        None
    } else {
        match seq_max(s.drop_last()) {
            None => Some(s.last()),
            Some(m) => if m.rank() < s.last().rank() {
                Some(s.last())
            } else {
                Some(m)
            },
        }
    }
}

/// Minimum of `s` by rank, the first one met on ties; `None` when empty.
pub open spec fn seq_min<T: NativeType>(s: Seq<T>) -> Option<T>
    decreases s.len(),
{
    if s.len() == 0 {
        None
    } else {
        match seq_min(s.drop_last()) {
            None => Some(s.last()),
            Some(m) => if s.last().rank() < m.rank() {
                Some(s.last())
            } else {
                Some(m)
            },
        }
    }
}

/// Number of absent entries of `col`.
pub open spec fn null_count_of<T>(col: Seq<Option<T>>) -> int {
    col.len() - present(col).len()
}

/// The statistics of `col`.
pub open spec fn statistics_of<T: NativeType>(col: Seq<Option<T>>) -> PrimitiveStatistics<T> {
    PrimitiveStatistics {
        null_count: Some(null_count_of(col) as i64),
        distinct_count: None,
        max_value: seq_max(present(col)),
        min_value: seq_min(present(col)),
    }
}

/// The serialized block of `s`, for scalars of `T`.
pub open spec fn block_of<T: NativeType>(s: PrimitiveStatistics<T>) -> StatisticsModel {
    StatisticsModel {
        physical_type: T::spec_physical_type(),
        null_count: s.null_count,
        distinct_count: s.distinct_count,
        max_value: le_bytes_of(s.max_value),
        min_value: le_bytes_of(s.min_value),
    }
}

/// Computes the null count, maximum and minimum of `array`, scanning left to
/// right; the distinct count is left unset.
pub fn compute_statistics<T: NativeType>(array: &[Option<T>]) -> (r: PrimitiveStatistics<T>)
    ensures
        r == statistics_of(array@),
        r.null_count == Some((array@.len() - present(array@).len()) as i64),
{
    let mut nulls: usize = 0;
    let mut max_value: Option<T> = None;
    let mut min_value: Option<T> = None;
    let mut i: usize = 0;
    while i < array.len()
        invariant
            i <= array@.len(),
            nulls == i - present(array@.take(i as int)).len(),
            max_value == seq_max(present(array@.take(i as int))),
            min_value == seq_min(present(array@.take(i as int))),
        decreases array@.len() - i,
    {
        let ghost before = array@.take(i as int);
        let ghost after = array@.take(i + 1);
        assert(after.drop_last() =~= before);
        proof {
            lemma_present_len(before);
        }
        match array[i] {
            Some(v) => {
                assert(present(after) == present(before).push(v));
                assert(present(after).drop_last() =~= present(before));
                max_value = match max_value {
                    None => Some(v),
                    Some(m) => if m.ord_lt(&v) {
                        Some(v)
                    } else {
                        Some(m)
                    },
                };
                min_value = match min_value {
                    None => Some(v),
                    Some(m) => if v.ord_lt(&m) {
                        Some(v)
                    } else {
                        Some(m)
                    },
                };
            },
            None => {
                nulls = nulls + 1;
            },
        }
        i = i + 1;
    }
    assert(array@.take(array@.len() as int) =~= array@);
    PrimitiveStatistics {
        null_count: Some(nulls as i64),
        distinct_count: None,
        max_value,
        min_value,
    }
}

/// Serializes statistics into a block tagged with the physical type of `T`.
pub fn serialize_statistics<T: NativeType>(s: &PrimitiveStatistics<T>) -> (r: StatisticsBlock)
    ensures
        r@ == block_of(*s),
{
    let max_value = match s.max_value {
        Some(v) => {
            let mut b: Vec<u8> = Vec::new();
            v.extend_le_bytes(&mut b);
            assert(b@ =~= v.le_bytes());
            Some(b)
        },
        None => None,
    };
    let min_value = match s.min_value {
        Some(v) => {
            let mut b: Vec<u8> = Vec::new();
            v.extend_le_bytes(&mut b);
            assert(b@ =~= v.le_bytes());
            Some(b)
        },
        None => None,
    };
    StatisticsBlock {
        physical_type: T::physical_type(),
        null_count: s.null_count,
        distinct_count: s.distinct_count,
        max_value,
        min_value,
    }
}

/// A column has at most as many present values as entries.
pub proof fn lemma_present_len<T>(col: Seq<Option<T>>)
    ensures
        present(col).len() <= col.len(),
    decreases col.len(),
{
    if col.len() > 0 {
        lemma_present_len(col.drop_last());
    }
}

proof fn lemma_max_extreme<T: NativeType>(col: Seq<Option<T>>)
    ensures
        seq_max(present(col)) is None <==> forall|i: int| 0 <= i < col.len() ==> col[i] is None,
        seq_max(present(col)) matches Some(m) ==> (exists|i: int|
            0 <= i < col.len() && col[i] == Some(m)) && forall|i: int|
            0 <= i < col.len() && col[i] is Some ==> col[i]->0.rank() <= m.rank(),
    decreases col.len(),
{
    if col.len() > 0 {
        let c = col.drop_last();
        let last = col.len() - 1;
        lemma_max_extreme(c);
        assert forall|i: int| 0 <= i < c.len() implies col[i] == c[i] by {}
        if let Some(v) = col.last() {
            assert(present(col).drop_last() =~= present(c));
            let m = seq_max(present(col))->0;
            assert(col[last] == Some(v));
            if let Some(mc) = seq_max(present(c)) {
                let k = choose|k: int| 0 <= k < c.len() && c[k] == Some(mc);
                assert(col[k] == Some(mc));
            }
        } else {
            assert(present(col) == present(c));
            if let Some(mc) = seq_max(present(c)) {
                let k = choose|k: int| 0 <= k < c.len() && c[k] == Some(mc);
                assert(col[k] == Some(mc));
            }
        }
    }
}

proof fn lemma_min_extreme<T: NativeType>(col: Seq<Option<T>>)
    ensures
        seq_min(present(col)) is None <==> forall|i: int| 0 <= i < col.len() ==> col[i] is None,
        seq_min(present(col)) matches Some(m) ==> (exists|i: int|
            0 <= i < col.len() && col[i] == Some(m)) && forall|i: int|
            0 <= i < col.len() && col[i] is Some ==> m.rank() <= col[i]->0.rank(),
    decreases col.len(),
{
    if col.len() > 0 {
        let c = col.drop_last();
        let last = col.len() - 1;
        lemma_min_extreme(c);
        assert forall|i: int| 0 <= i < c.len() implies col[i] == c[i] by {}
        if let Some(v) = col.last() {
            assert(present(col).drop_last() =~= present(c));
            assert(col[last] == Some(v));
            if let Some(mc) = seq_min(present(c)) {
                let k = choose|k: int| 0 <= k < c.len() && c[k] == Some(mc);
                assert(col[k] == Some(mc));
            }
        } else {
            assert(present(col) == present(c));
            if let Some(mc) = seq_min(present(c)) {
                let k = choose|k: int| 0 <= k < c.len() && c[k] == Some(mc);
                assert(col[k] == Some(mc));
            }
        }
    }
}

/// The extremes in the statistics of a column are absent exactly when every
/// entry is; otherwise each is one of the column's values, and no present
/// value ranks above the maximum or below the minimum.
pub proof fn lemma_statistics_extremes<T: NativeType>(col: Seq<Option<T>>)
    ensures
        statistics_of(col).max_value is None <==> forall|i: int|
            0 <= i < col.len() ==> col[i] is None,
        statistics_of(col).min_value is None <==> forall|i: int|
            0 <= i < col.len() ==> col[i] is None,
        statistics_of(col).max_value matches Some(m) ==> (exists|i: int|
            0 <= i < col.len() && col[i] == Some(m)) && forall|i: int|
            0 <= i < col.len() && col[i] is Some ==> col[i]->0.rank() <= m.rank(),
        statistics_of(col).min_value matches Some(m) ==> (exists|i: int|
            0 <= i < col.len() && col[i] == Some(m)) && forall|i: int|
            0 <= i < col.len() && col[i] is Some ==> m.rank() <= col[i]->0.rank(),
{
    lemma_max_extreme(col);
    lemma_min_extreme(col);
}

} // verus!
