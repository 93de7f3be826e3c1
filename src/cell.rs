use vstd::prelude::*;

verus! {

/// The kind of a cell: a value, or one of the three tombstones.
#[derive(Clone, Copy, Debug, PartialEq, Eq, Structural)]
pub enum CellType {
    Put,
    Delete,
    DeleteColumn,
    DeleteFamily,
}

/// Rank of a kind at equal key: tombstones sort before values.
pub open spec fn type_rank(t: CellType) -> int {
    match t {
        CellType::DeleteFamily => 0,
        CellType::DeleteColumn => 1,
        CellType::Delete => 2,
        CellType::Put => 3,
    }
}

pub open spec fn is_delete_type(t: CellType) -> bool {
    t != CellType::Put
}

/// The mathematical value of a cell.
pub struct CellView {
    pub row: Seq<u8>,
    pub family: Seq<u8>,
    pub qualifier: Seq<u8>,
    pub timestamp: u64,
    pub write_num: u64,
    pub cell_type: CellType,
    pub value: Seq<u8>,
}

/// An immutable cell record.
#[derive(Debug)]
pub struct KeyValue {
    pub row: Vec<u8>,
    pub family: Vec<u8>,
    pub qualifier: Vec<u8>,
    pub timestamp: u64,
    pub write_num: u64,
    pub cell_type: CellType,
    pub value: Vec<u8>,
}

impl View for KeyValue {
    type V = CellView;

    open spec fn view(&self) -> CellView {
        CellView {
            row: self.row@,
            family: self.family@,
            qualifier: self.qualifier@,
            timestamp: self.timestamp,
            write_num: self.write_num,
            cell_type: self.cell_type,
            value: self.value@,
        }
    }
}

/// Lexicographic comparison of byte strings: negative, zero or positive.
pub open spec fn bytes_cmp(a: Seq<u8>, b: Seq<u8>) -> int
    decreases a.len(),
{
    if a.len() == 0 {
        if b.len() == 0 { 0 } else { -1 }
    } else if b.len() == 0 {
        1
    } else if a[0] < b[0] {
        -1
    } else if a[0] > b[0] {
        1
    } else {
        bytes_cmp(a.drop_first(), b.drop_first())
    }
}

/// Descending comparison of two integers (larger first).
pub open spec fn desc_cmp(a: u64, b: u64) -> int {
    if a > b { -1 } else if a < b { 1 } else { 0 }
}

pub open spec fn int_cmp(a: int, b: int) -> int {
    if a < b { -1 } else if a > b { 1 } else { 0 }
}

/// The total order on cells: row, family, qualifier ascending; timestamp and
/// write number descending; tombstones before values; value last.
pub open spec fn cell_cmp(a: CellView, b: CellView) -> int {
    if bytes_cmp(a.row, b.row) != 0 {
        bytes_cmp(a.row, b.row)
    } else if bytes_cmp(a.family, b.family) != 0 {
        bytes_cmp(a.family, b.family)
    } else if bytes_cmp(a.qualifier, b.qualifier) != 0 {
        bytes_cmp(a.qualifier, b.qualifier)
    } else if desc_cmp(a.timestamp, b.timestamp) != 0 {
        desc_cmp(a.timestamp, b.timestamp)
    } else if desc_cmp(a.write_num, b.write_num) != 0 {
        desc_cmp(a.write_num, b.write_num)
    } else if int_cmp(type_rank(a.cell_type), type_rank(b.cell_type)) != 0 {
        int_cmp(type_rank(a.cell_type), type_rank(b.cell_type))
    } else {
        bytes_cmp(a.value, b.value)
    }
}

pub open spec fn cell_lt(a: CellView, b: CellView) -> bool {
    cell_cmp(a, b) < 0
}

pub open spec fn cell_le(a: CellView, b: CellView) -> bool {
    cell_cmp(a, b) <= 0
}

/// Each cell is strictly below the next.
pub open spec fn strictly_sorted(s: Seq<CellView>) -> bool {
    forall|i: int| 0 <= i < s.len() - 1 ==> cell_lt(#[trigger] s[i], s[i + 1])
}

/// Each cell is at most the next.
pub open spec fn sorted(s: Seq<CellView>) -> bool {
    forall|i: int| 0 <= i < s.len() - 1 ==> cell_le(#[trigger] s[i], s[i + 1])
}

pub proof fn lemma_bytes_cmp_antisym(a: Seq<u8>, b: Seq<u8>)
    ensures
        bytes_cmp(a, b) == -bytes_cmp(b, a),
        bytes_cmp(a, b) == 0 <==> a == b,
        -1 <= bytes_cmp(a, b) <= 1,
    decreases a.len(),
{
    if a.len() > 0 && b.len() > 0 {
        lemma_bytes_cmp_antisym(a.drop_first(), b.drop_first());
        if a[0] == b[0] && a.drop_first() == b.drop_first() {
            assert(a =~= seq![a[0]] + a.drop_first());
            assert(b =~= seq![b[0]] + b.drop_first());
        }
    } else if a.len() == 0 && b.len() == 0 {
        assert(a =~= b);
    }
}

pub proof fn lemma_bytes_cmp_trans(a: Seq<u8>, b: Seq<u8>, c: Seq<u8>)
    ensures
        bytes_cmp(a, b) <= 0 && bytes_cmp(b, c) <= 0 ==> bytes_cmp(a, c) <= 0,
        bytes_cmp(a, b) < 0 && bytes_cmp(b, c) <= 0 ==> bytes_cmp(a, c) < 0,
        bytes_cmp(a, b) <= 0 && bytes_cmp(b, c) < 0 ==> bytes_cmp(a, c) < 0,
    decreases a.len(),
{
    lemma_bytes_cmp_antisym(a, b);
    lemma_bytes_cmp_antisym(b, c);
    lemma_bytes_cmp_antisym(a, c);
    if a.len() > 0 && b.len() > 0 && c.len() > 0 {
        lemma_bytes_cmp_trans(a.drop_first(), b.drop_first(), c.drop_first());
    }
}

/// Facts on the cell order: antisymmetry, equality, transitivity.
pub proof fn lemma_cell_cmp_antisym(a: CellView, b: CellView)
    ensures
        cell_cmp(a, b) == -cell_cmp(b, a),
        cell_cmp(a, b) == 0 <==> a == b,
{
    lemma_bytes_cmp_antisym(a.row, b.row);
    lemma_bytes_cmp_antisym(a.family, b.family);
    lemma_bytes_cmp_antisym(a.qualifier, b.qualifier);
    lemma_bytes_cmp_antisym(a.value, b.value);
    if type_rank(a.cell_type) == type_rank(b.cell_type) {
        assert(a.cell_type == b.cell_type);
    }
}

pub proof fn lemma_cell_cmp_trans(a: CellView, b: CellView, c: CellView)
    ensures
        cell_le(a, b) && cell_le(b, c) ==> cell_le(a, c),
        cell_lt(a, b) && cell_le(b, c) ==> cell_lt(a, c),
        cell_le(a, b) && cell_lt(b, c) ==> cell_lt(a, c),
{
    lemma_cell_cmp_antisym(a, b);
    lemma_cell_cmp_antisym(b, c);
    lemma_cell_cmp_antisym(a, c);
    lemma_bytes_cmp_antisym(a.row, b.row);
    lemma_bytes_cmp_antisym(b.row, c.row);
    lemma_bytes_cmp_antisym(a.family, b.family);
    lemma_bytes_cmp_antisym(b.family, c.family);
    lemma_bytes_cmp_antisym(a.qualifier, b.qualifier);
    lemma_bytes_cmp_antisym(b.qualifier, c.qualifier);
    lemma_bytes_cmp_trans(a.row, b.row, c.row);
    lemma_bytes_cmp_trans(a.family, b.family, c.family);
    lemma_bytes_cmp_trans(a.qualifier, b.qualifier, c.qualifier);
    lemma_bytes_cmp_trans(a.value, b.value, c.value);
}

/// Compares two byte strings lexicographically.
pub fn compare_bytes(a: &Vec<u8>, b: &Vec<u8>) -> (r: i8)
    ensures
        r as int == bytes_cmp(a@, b@),
{
    let mut i: usize = 0;
    assert(a@.subrange(0, a@.len() as int) =~= a@);
    assert(b@.subrange(0, b@.len() as int) =~= b@);
    while i < a.len() && i < b.len()
        invariant
            i <= a.len(),
            i <= b.len(),
            bytes_cmp(a@, b@) == bytes_cmp(a@.subrange(i as int, a@.len() as int), b@.subrange(i as int, b@.len() as int)),
        decreases a.len() - i,
    {
        if a[i] < b[i] {
            return -1;
        } else if a[i] > b[i] {
            return 1;
        }
        assert(a@.subrange(i as int, a@.len() as int).drop_first() =~= a@.subrange(i + 1, a@.len() as int));
        assert(b@.subrange(i as int, b@.len() as int).drop_first() =~= b@.subrange(i + 1, b@.len() as int));
        i = i + 1;
    }
    if i < a.len() {
        1
    } else if i < b.len() {
        -1
    } else {
        0
    }
}

/// True when the two byte strings are equal.
pub fn bytes_equal(a: &Vec<u8>, b: &Vec<u8>) -> (r: bool)
    ensures
        r == (a@ == b@),
{
    proof {
        lemma_bytes_cmp_antisym(a@, b@);
    }
    compare_bytes(a, b) == 0
}

fn compare_desc(a: u64, b: u64) -> (r: i8)
    ensures
        r as int == desc_cmp(a, b),
{
    if a > b { -1 } else if a < b { 1 } else { 0 }
}

fn type_rank_of(t: CellType) -> (r: u8)
    ensures
        r as int == type_rank(t),
{
    match t {
        CellType::DeleteFamily => 0,
        CellType::DeleteColumn => 1,
        CellType::Delete => 2,
        CellType::Put => 3,
    }
}

impl KeyValue {
    pub fn new(
        row: Vec<u8>,
        family: Vec<u8>,
        qualifier: Vec<u8>,
        timestamp: u64,
        write_num: u64,
        cell_type: CellType,
        value: Vec<u8>,
    ) -> (r: KeyValue)
        ensures
            r@ == (CellView {
                row: row@,
                family: family@,
                qualifier: qualifier@,
                timestamp,
                write_num,
                cell_type,
                value: value@,
            }),
    {
        KeyValue { row, family, qualifier, timestamp, write_num, cell_type, value }
    }

    pub fn get_row(&self) -> (r: &Vec<u8>)
        ensures
            r@ == self.row@,
    {
        &self.row
    }

    pub fn get_cell_type(&self) -> (r: CellType)
        ensures
            r == self.cell_type,
    {
        self.cell_type
    }

    pub fn is_delete(&self) -> (r: bool)
        ensures
            r == is_delete_type(self.cell_type),
    {
        !matches!(self.cell_type, CellType::Put)
    }

    /// Compares two cells under the cell order: negative, zero or positive.
    pub fn compare(&self, other: &KeyValue) -> (r: i8)
        ensures
            r as int == cell_cmp(self@, other@),
            -1 <= r <= 1,
    {
        proof {
            lemma_bytes_cmp_antisym(self.row@, other.row@);
            lemma_bytes_cmp_antisym(self.family@, other.family@);
            lemma_bytes_cmp_antisym(self.qualifier@, other.qualifier@);
            lemma_bytes_cmp_antisym(self.value@, other.value@);
        }
        let c = compare_bytes(&self.row, &other.row);
        if c != 0 {
            return c;
        }
        let c = compare_bytes(&self.family, &other.family);
        if c != 0 {
            return c;
        }
        let c = compare_bytes(&self.qualifier, &other.qualifier);
        if c != 0 {
            return c;
        }
        let c = compare_desc(self.timestamp, other.timestamp);
        if c != 0 {
            return c;
        }
        let c = compare_desc(self.write_num, other.write_num);
        if c != 0 {
            return c;
        }
        let ra = type_rank_of(self.cell_type);
        let rb = type_rank_of(other.cell_type);
        if ra < rb {
            return -1;
        } else if ra > rb {
            return 1;
        }
        compare_bytes(&self.value, &other.value)
    }

    /// True when this cell sorts strictly before `other`.
    pub fn less_than(&self, other: &KeyValue) -> (r: bool)
        ensures
            r == cell_lt(self@, other@),
    {
        self.compare(other) < 0
    }
}

impl Clone for KeyValue {
    fn clone(&self) -> (r: Self)
        ensures
            r@ == self@,
    {
        let row = self.row.clone();
        let family = self.family.clone();
        let qualifier = self.qualifier.clone();
        let value = self.value.clone();
        proof {
            assert(row@ =~= self.row@);
            assert(family@ =~= self.family@);
            assert(qualifier@ =~= self.qualifier@);
            assert(value@ =~= self.value@);
        }
        KeyValue {
            row,
            family,
            qualifier,
            timestamp: self.timestamp,
            write_num: self.write_num,
            cell_type: self.cell_type,
            value,
        }
    }
}

} // verus!
