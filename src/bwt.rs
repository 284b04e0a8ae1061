//! Burrows-Wheeler transform of a byte block and its inverse by column
//! reconstruction.
use vstd::prelude::*;
use vstd::multiset::Multiset;
use vstd::relations::{sorted_by, total_ordering};

verus! {

broadcast use {
    vstd::seq_lib::group_to_multiset_ensures,
    vstd::multiset::group_multiset_axioms,
    vstd::multiset::group_multiset_properties,
};

/// Lexicographic order on byte rows: a proper prefix comes first.
pub open spec fn lex_le(a: Seq<u8>, b: Seq<u8>) -> bool
    decreases a.len(),
{
    if a.len() == 0 {
        true
    } else if b.len() == 0 {
        false
    } else if a[0] < b[0] {
        true
    } else if a[0] > b[0] {
        false
    } else {
        lex_le(a.drop_first(), b.drop_first())
    }
}

/// The order in which rows of a table are sorted.
pub open spec fn row_order() -> spec_fn(Seq<u8>, Seq<u8>) -> bool {
    |a: Seq<u8>, b: Seq<u8>| lex_le(a, b)
}

/// The byte views of the rows of a table.
pub open spec fn rows_of(t: Seq<Vec<u8>>) -> Seq<Seq<u8>> {
    t.map_values(|r: Vec<u8>| r@)
}

/// `i` is the first position of `row` in `rows`.
pub open spec fn is_first_index(rows: Seq<Seq<u8>>, row: Seq<u8>, i: int) -> bool {
    &&& 0 <= i < rows.len()
    &&& rows[i] == row
    &&& forall|j: int| 0 <= j < i ==> rows[j] != row
}

proof fn lemma_lex_reflexive(a: Seq<u8>)
    ensures
        lex_le(a, a),
    decreases a.len(),
{
    if a.len() > 0 {
        lemma_lex_reflexive(a.drop_first());
    }
}

proof fn lemma_lex_antisymmetric(a: Seq<u8>, b: Seq<u8>)
    requires
        lex_le(a, b),
        lex_le(b, a),
    ensures
        a == b,
    decreases a.len(),
{
    if a.len() == 0 {
        assert(a =~= b);
    } else {
        lemma_lex_antisymmetric(a.drop_first(), b.drop_first());
        assert forall|i: int| 0 <= i < a.len() implies a[i] == b[i] by {
            if i > 0 {
                assert(a[i] == a.drop_first()[i - 1]);
                assert(b[i] == b.drop_first()[i - 1]);
            }
        }
        assert(a =~= b);
    }
}

proof fn lemma_lex_transitive(a: Seq<u8>, b: Seq<u8>, c: Seq<u8>)
    requires
        lex_le(a, b),
        lex_le(b, c),
    ensures
        lex_le(a, c),
    decreases a.len(),
{
    if a.len() > 0 && b.len() > 0 && c.len() > 0 && a[0] == b[0] && b[0] == c[0] {
        lemma_lex_transitive(a.drop_first(), b.drop_first(), c.drop_first());
    }
}

proof fn lemma_lex_connected(a: Seq<u8>, b: Seq<u8>)
    ensures
        lex_le(a, b) || lex_le(b, a),
    decreases a.len(),
{
    if a.len() > 0 && b.len() > 0 && a[0] == b[0] {
        lemma_lex_connected(a.drop_first(), b.drop_first());
    }
}

/// The row order is a total order.
pub proof fn lemma_row_order_total()
    ensures
        total_ordering(row_order()),
{
    assert forall|a: Seq<u8>| #[trigger] row_order()(a, a) by {
        lemma_lex_reflexive(a);
    }
    assert forall|a: Seq<u8>, b: Seq<u8>|
        #[trigger] row_order()(a, b) && #[trigger] row_order()(b, a) implies a == b by {
        lemma_lex_antisymmetric(a, b);
    }
    assert forall|a: Seq<u8>, b: Seq<u8>, c: Seq<u8>|
        #[trigger] row_order()(a, b) && #[trigger] row_order()(b, c) implies row_order()(
        a,
        c,
    ) by {
        lemma_lex_transitive(a, b, c);
    }
    assert forall|a: Seq<u8>, b: Seq<u8>| #[trigger]
        row_order()(a, b) || #[trigger] row_order()(b, a) by {
        lemma_lex_connected(a, b);
    }
}

/// Compares two rows in the row order.
fn row_le(a: &Vec<u8>, b: &Vec<u8>) -> (r: bool)
    ensures
        r == lex_le(a@, b@),
{
    let mut i: usize = 0;
    assert(a@.skip(0) =~= a@);
    assert(b@.skip(0) =~= b@);
    while i < a.len() && i < b.len()
        invariant
            i <= a.len(),
            i <= b.len(),
            lex_le(a@, b@) == lex_le(a@.skip(i as int), b@.skip(i as int)),
        decreases a.len() - i,
    {
        if a[i] < b[i] {
            return true;
        } else if a[i] > b[i] {
            return false;
        }
        assert(a@.skip(i as int).drop_first() =~= a@.skip(i + 1));
        assert(b@.skip(i as int).drop_first() =~= b@.skip(i + 1));
        i = i + 1;
    }
    i == a.len()
}

/// Compares two rows for equality.
fn rows_equal(a: &Vec<u8>, b: &Vec<u8>) -> (r: bool)
    ensures
        r == (a@ == b@),
{
    if a.len() != b.len() {
        return false;
    }
    let mut i: usize = 0;
    while i < a.len()
        invariant
            a.len() == b.len(),
            i <= a.len(),
            forall|j: int| 0 <= j < i ==> a@[j] == b@[j],
        decreases a.len() - i,
    {
        if a[i] != b[i] {
            return false;
        }
        i = i + 1;
    }
    assert(a@ =~= b@);
    true
}

/// Position at which `row` is inserted into the sorted `table`: after every
/// row that is not greater than it.
fn insertion_point(table: &Vec<Vec<u8>>, row: &Vec<u8>) -> (p: usize)
    ensures
        p <= table.len(),
        forall|i: int| 0 <= i < p ==> lex_le(#[trigger] table@[i]@, row@),
        p < table.len() ==> !lex_le(table@[p as int]@, row@),
{
    let mut p: usize = 0;
    while p < table.len()
        invariant
            p <= table.len(),
            forall|i: int| 0 <= i < p ==> lex_le(#[trigger] table@[i]@, row@),
        decreases table.len() - p,
    {
        if !row_le(&table[p], row) {
            return p;
        }
        p = p + 1;
    }
    p
}

proof fn lemma_sort_of_sorted(s: Seq<Seq<u8>>)
    requires
        sorted_by(s, row_order()),
    ensures
        s.sort_by(row_order()) == s,
{
    lemma_row_order_total();
    s.lemma_sort_by_ensures(row_order());
    vstd::seq_lib::lemma_sorted_unique(s.sort_by(row_order()), s, row_order());
}

proof fn lemma_sorted_is_sort(s: Seq<Seq<u8>>, t: Seq<Seq<u8>>)
    requires
        sorted_by(t, row_order()),
        s.to_multiset() == t.to_multiset(),
    ensures
        s.sort_by(row_order()) == t,
{
    lemma_row_order_total();
    s.lemma_sort_by_ensures(row_order());
    vstd::seq_lib::lemma_sorted_unique(s.sort_by(row_order()), t, row_order());
}

/// Sorts the rows of the table in the row order and returns the first
/// position, after sorting, of the row that stood first before it.
pub fn sort_table(data_table: &mut Vec<Vec<u8>>) -> (r: usize)
    ensures
        rows_of(final(data_table)@) == rows_of(old(data_table)@).sort_by(row_order()),
        old(data_table)@.len() <= 1 ==> r == 0,
        old(data_table)@.len() > 0 ==> is_first_index(
            rows_of(final(data_table)@),
            old(data_table)@[0]@,
            r as int,
        ),
{
    let ghost old_rows = rows_of(data_table@);
    if data_table.len() <= 1 {
        proof {
            lemma_sort_of_sorted(old_rows);
        }
        return 0;
    }
    proof {
        lemma_row_order_total();
    }
    let mut sorted: Vec<Vec<u8>> = Vec::new();
    let mut orig: Vec<u8> = Vec::new();
    while data_table.len() > 0
        invariant
            old_rows.len() > 1,
            old_rows == rows_of(old(data_table)@),
            rows_of(data_table@).to_multiset().add(rows_of(sorted@).to_multiset())
                == old_rows.to_multiset(),
            sorted_by(rows_of(sorted@), row_order()),
            total_ordering(row_order()),
            data_table@.len() > 0 ==> rows_of(data_table@)[0] == old_rows[0],
            data_table@.len() == 0 ==> orig@ == old_rows[0],
        decreases data_table.len(),
    {
        let ghost before = rows_of(data_table@);
        let row = data_table.pop().unwrap();
        proof {
            assert(rows_of(data_table@) =~= before.drop_last());
            assert(before =~= before.drop_last().push(row@));
        }
        if data_table.len() == 0 {
            orig = copy_row(&row);
        }
        let p = insertion_point(&sorted, &row);
        let ghost s0 = rows_of(sorted@);
        sorted.insert(p, row);
        proof {
            assert(rows_of(sorted@) =~= s0.insert(p as int, row@));
            let s1 = rows_of(sorted@);
            assert forall|i: int, j: int| 0 <= i < j < s1.len() implies #[trigger] lex_le(
                s1[i],
                s1[j],
            ) by {
                if j < p {
                    assert(row_order()(s0[i], s0[j]));
                } else if j == p {
                    assert(lex_le(s0[i], row@));
                } else if i < p {
                    assert(lex_le(s0[i], row@));
                    lemma_lex_connected(row@, s0[p as int]);
                    if j - 1 > p {
                        assert(row_order()(s0[p as int], s0[j - 1]));
                    } else {
                        lemma_lex_reflexive(s0[p as int]);
                    }
                    lemma_lex_transitive(row@, s0[p as int], s0[j - 1]);
                    lemma_lex_transitive(s0[i], row@, s0[j - 1]);
                } else if i == p {
                    lemma_lex_connected(row@, s0[p as int]);
                    if j - 1 > p {
                        assert(row_order()(s0[p as int], s0[j - 1]));
                        lemma_lex_transitive(row@, s0[p as int], s0[j - 1]);
                    }
                } else {
                    assert(row_order()(s0[i - 1], s0[j - 1]));
                }
            }
        }
    }
    proof {
        assert(rows_of(data_table@).to_multiset().len() == 0);
        assert(rows_of(data_table@).to_multiset() =~= Multiset::empty());
        assert(rows_of(sorted@).to_multiset() =~= old_rows.to_multiset());
        lemma_sorted_is_sort(old_rows, rows_of(sorted@));
        assert(old_rows.to_multiset().count(old_rows[0]) > 0);
    }
    *data_table = sorted;
    let mut i: usize = 0;
    while i < data_table.len()
        invariant
            old_rows == rows_of(old(data_table)@),
            old_rows.len() > 1,
            rows_of(data_table@) == old_rows.sort_by(row_order()),
            rows_of(data_table@).to_multiset() == old_rows.to_multiset(),
            orig@ == old_rows[0],
            i <= data_table.len(),
            forall|j: int| 0 <= j < i ==> rows_of(data_table@)[j] != orig@,
        decreases data_table.len() - i,
    {
        if rows_equal(&data_table[i], &orig) {
            return i;
        }
        i = i + 1;
    }
    proof {
        assert(rows_of(data_table@).to_multiset().count(orig@) > 0);
        assert(false);
    }
    0
}

/// A copy of a row.
fn copy_row(row: &Vec<u8>) -> (r: Vec<u8>)
    ensures
        r@ == row@,
{
    let mut r: Vec<u8> = Vec::new();
    let mut i: usize = 0;
    while i < row.len()
        invariant
            i <= row.len(),
            r@ == row@.take(i as int),
        decreases row.len() - i,
    {
        r.push(row[i]);
        assert(row@.take(i + 1) =~= row@.take(i as int).push(row@[i as int]));
        i = i + 1;
    }
    assert(row@.take(row.len() as int) =~= row@);
    r
}


/// Error of the block transform.
#[derive(Debug, Clone, Copy, PartialEq, Eq, Structural)]
pub enum BwtError {
    /// The original index does not point into the block.
    OutOfRange,
}

/// A transformed block: the last column of the sorted rotation table and the
/// row at which the untransformed block stands in it.
#[derive(Debug, PartialEq, Eq)]
pub struct BwtEncoded {
    data: Vec<u8>,
    original_index: usize,
}

impl View for BwtEncoded {
    type V = (Seq<u8>, int);

    closed spec fn view(&self) -> (Seq<u8>, int) {
        (self.data@, self.original_index as int)
    }
}

/// The rotation of `s` that starts at position `k`.
pub open spec fn rotation(s: Seq<u8>, k: int) -> Seq<u8> {
    s.skip(k) + s.take(k)
}

/// All rotations of `s`, by starting position.
pub open spec fn rotations(s: Seq<u8>) -> Seq<Seq<u8>> {
    Seq::new(s.len(), |k: int| rotation(s, k))
}

/// The rotations of `s` in the row order.
pub open spec fn sorted_rotations(s: Seq<u8>) -> Seq<Seq<u8>> {
    rotations(s).sort_by(row_order())
}

/// The first position of `row` in `rows` (`rows.len()` where it is absent).
pub open spec fn first_index_of(rows: Seq<Seq<u8>>, row: Seq<u8>) -> int
    decreases rows.len(),
{
    if rows.len() == 0 {
        0
    } else if rows[0] == row {
        0
    } else {
        1 + first_index_of(rows.drop_first(), row)
    }
}

/// The last column of the sorted rotation table of `s`.
pub open spec fn bwt_data(s: Seq<u8>) -> Seq<u8> {
    sorted_rotations(s).map_values(|r: Seq<u8>| r.last())
}

/// The row of the sorted rotation table at which `s` itself stands.
pub open spec fn bwt_index(s: Seq<u8>) -> int {
    if s.len() == 0 {
        0
    } else {
        first_index_of(sorted_rotations(s), s)
    }
}

/// The table `t` with the column `last` put in front of its rows.
pub open spec fn prepend_column(last: Seq<u8>, t: Seq<Seq<u8>>) -> Seq<Seq<u8>> {
    Seq::new(last.len(), |i: int| seq![last[i]] + t[i])
}

/// The table after `k` rounds of column reconstruction from the last column:
/// each round puts the last column in front of the rows and sorts them.
pub open spec fn reconstruct(last: Seq<u8>, k: nat) -> Seq<Seq<u8>>
    decreases k,
{
    if k == 0 {
        Seq::new(last.len(), |i: int| Seq::<u8>::empty())
    } else {
        prepend_column(last, reconstruct(last, (k - 1) as nat)).sort_by(row_order())
    }
}

/// The block that inverse transformation recovers from a last column and an
/// original index.
pub open spec fn bwt_decoded(last: Seq<u8>, index: int) -> Seq<u8> {
    if last.len() == 0 {
        Seq::empty()
    } else {
        reconstruct(last, last.len())[index]
    }
}

/// The rotation of `data` that starts at `index`.
pub fn get_from_index(data: &[u8], index: usize) -> (r: Vec<u8>)
    requires
        data@.len() == 0 || index < data@.len(),
    ensures
        r@ == if data@.len() == 0 {
            Seq::empty()
        } else {
            rotation(data@, index as int)
        },
{
    let data_length = data.len();
    let mut result: Vec<u8> = Vec::new();
    let mut current_index: usize = index;
    let mut k: usize = 0;
    while k < data_length
        invariant
            data_length == data@.len(),
            data_length > 0 ==> index < data_length,
            k <= data_length,
            current_index as int == if index + k < data_length {
                index + k
            } else {
                index + k - data_length
            },
            result@ == rotation(data@, index as int).take(k as int),
        decreases data_length - k,
    {
        result.push(data[current_index]);
        assert(rotation(data@, index as int).take(k + 1) =~= rotation(
            data@,
            index as int,
        ).take(k as int).push(data@[current_index as int]));
        current_index = if current_index + 1 == data_length {
            0
        } else {
            current_index + 1
        };
        k = k + 1;
    }
    if data_length == 0 {
        assert(result@ =~= Seq::<u8>::empty());
    } else {
        assert(rotation(data@, index as int).take(k as int) =~= rotation(data@, index as int));
    }
    result
}

/// All rotations of `data`, by starting position; a single empty row for an
/// empty block.
pub fn get_shifts(data: &[u8]) -> (r: Vec<Vec<u8>>)
    ensures
        rows_of(r@) == if data@.len() == 0 {
            seq![Seq::<u8>::empty()]
        } else {
            rotations(data@)
        },
{
    let data_length = data.len();
    let mut ret: Vec<Vec<u8>> = Vec::new();
    if data_length == 0 {
        ret.push(Vec::new());
        assert(rows_of(ret@) =~= seq![Seq::<u8>::empty()]);
        return ret;
    }
    let mut idx: usize = 0;
    while idx < data_length
        invariant
            data_length == data@.len(),
            idx <= data_length,
            rows_of(ret@) == rotations(data@).take(idx as int),
        decreases data_length - idx,
    {
        let row = get_from_index(data, idx);
        let ghost prev = ret@;
        ret.push(row);
        assert(ret@ == prev.push(row));
        assert(rows_of(ret@) =~= rows_of(prev).push(row@));
        assert(rows_of(ret@) =~= rotations(data@).take(idx + 1));
        idx = idx + 1;
    }
    assert(rotations(data@).take(idx as int) =~= rotations(data@));
    ret
}

impl BwtEncoded {
    /// Number of bytes in the block.
    pub fn len(&self) -> (r: usize)
        ensures
            r == self@.0.len(),
    {
        self.data.len()
    }

    /// Whether the block is empty.
    pub fn is_empty(&self) -> (r: bool)
        ensures
            r == (self@.0.len() == 0),
    {
        self.data.len() == 0
    }

    /// A transformed block from its last column and original index.
    pub fn new(data: Vec<u8>, original_index: usize) -> (r: Self)
        ensures
            r@ == (data@, original_index as int),
    {
        BwtEncoded { data, original_index }
    }

    /// The transform of the empty block.
    pub fn empty() -> (r: Self)
        ensures
            r@ == (Seq::<u8>::empty(), 0int),
    {
        BwtEncoded { data: Vec::new(), original_index: 0 }
    }

    /// The last column.
    pub fn data(&self) -> (r: &Vec<u8>)
        ensures
            r@ == self@.0,
    {
        &self.data
    }

    /// The row of the sorted rotation table that holds the untransformed block.
    pub fn original_index(&self) -> (r: usize)
        ensures
            r == self@.1,
    {
        self.original_index
    }

    fn try_get(&self, index: usize) -> (r: Result<u8, BwtError>)
        ensures
            index < self@.0.len() ==> r == Ok::<u8, BwtError>(self@.0[index as int]),
            index >= self@.0.len() ==> r == Err::<u8, BwtError>(BwtError::OutOfRange),
    {
        if index < self.data.len() {
            Ok(self.data[index])
        } else {
            Err(BwtError::OutOfRange)
        }
    }

    /// Transforms a block: the last column of its sorted rotations, and the
    /// first row at which the block itself stands.
    pub fn encode(data: &[u8]) -> (r: Self)
        ensures
            r@.0 == bwt_data(data@),
            r@.1 == bwt_index(data@),
    {
        if data.len() == 0 {
            let r = BwtEncoded::empty();
            assert(bwt_data(data@) =~= Seq::<u8>::empty()) by {
                lemma_sorted_rotations(data@);
            }
            return r;
        }
        let mut shifts = get_shifts(data);
        proof {
            lemma_sorted_rotations(data@);
            assert(rotation(data@, 0) =~= data@);
            assert(rotations(data@)[0] == data@);
            assert(rows_of(shifts@).len() == data@.len());
            assert(shifts@[0]@ == rows_of(shifts@)[0]);
        }
        let original_index = sort_table(&mut shifts);
        let ghost srt = sorted_rotations(data@);
        proof {
            lemma_first_index(srt, data@, original_index as int);
        }
        let n = data.len();
        let mut last_column: Vec<u8> = Vec::new();
        let mut i: usize = 0;
        while i < n
            invariant
                n == data@.len(),
                srt == sorted_rotations(data@),
                rows_of(shifts@) == srt,
                srt.len() == n,
                forall|j: int| 0 <= j < n ==> (#[trigger] srt[j]).len() == n,
                i <= n,
                last_column@ == bwt_data(data@).take(i as int),
            decreases n - i,
        {
            assert(srt[i as int] == shifts@[i as int]@);
            assert(bwt_data(data@)[i as int] == srt[i as int].last());
            last_column.push(shifts[i][n - 1]);
            assert(last_column@ =~= bwt_data(data@).take(i + 1));
            i = i + 1;
        }
        assert(bwt_data(data@).take(i as int) =~= bwt_data(data@));
        BwtEncoded::new(last_column, original_index)
    }

    /// Recovers the block by column reconstruction: `n` times, the last
    /// column is put in front of the rows of a table and the rows are sorted;
    /// the row at the original index is the block. An index outside the block
    /// is an error.
    pub fn decode(&self) -> (r: Result<Vec<u8>, BwtError>)
        ensures
            r is Ok <==> (self@.0.len() == 0 || 0 <= self@.1 < self@.0.len()),
            r is Ok ==> r->Ok_0@ == bwt_decoded(self@.0, self@.1),
            r is Err ==> r->Err_0 == BwtError::OutOfRange,
    {
        let data_length = self.len();
        if data_length == 0 {
            return Ok(Vec::new());
        }
        if self.original_index >= data_length {
            return Err(BwtError::OutOfRange);
        }
        let ghost last = self@.0;
        let mut data_table: Vec<Vec<u8>> = Vec::new();
        let mut row: usize = 0;
        while row < data_length
            invariant
                data_length == last.len(),
                row <= data_length,
                rows_of(data_table@) == reconstruct(last, 0).take(row as int),
            decreases data_length - row,
        {
            let ghost prev = data_table@;
            let empty_row: Vec<u8> = Vec::new();
            data_table.push(empty_row);
            assert(data_table@ == prev.push(empty_row));
            assert(rows_of(data_table@) =~= rows_of(prev).push(empty_row@));
            assert(rows_of(data_table@) =~= reconstruct(last, 0).take(row + 1));
            row = row + 1;
        }
        assert(reconstruct(last, 0).take(row as int) =~= reconstruct(last, 0));
        let mut round: usize = 0;
        while round < data_length
            invariant
                data_length == last.len(),
                self@.0 == last,
                round <= data_length,
                rows_of(data_table@) == reconstruct(last, round as nat),
                rows_of(data_table@).len() == data_length,
            decreases data_length - round,
        {
            let mut next: Vec<Vec<u8>> = Vec::new();
            let mut row: usize = 0;
            let ghost cur = rows_of(data_table@);
            while row < data_length
                invariant
                    data_length == last.len(),
                    self@.0 == last,
                    cur == rows_of(data_table@),
                    cur.len() == data_length,
                    row <= data_length,
                    rows_of(next@) == prepend_column(last, cur).take(row as int),
                decreases data_length - row,
            {
                let b = self.try_get(row)?;
                let r = prepend_byte(b, &data_table[row]);
                assert(data_table@[row as int]@ == cur[row as int]);
                let ghost prev = next@;
                next.push(r);
                assert(next@ == prev.push(r));
                assert(rows_of(next@) =~= rows_of(prev).push(r@));
                assert(rows_of(next@) =~= prepend_column(last, cur).take(row + 1));
                row = row + 1;
            }
            assert(prepend_column(last, cur).take(row as int) =~= prepend_column(last, cur));
            sort_table(&mut next);
            proof {
                lemma_sort_len(prepend_column(last, cur));
            }
            data_table = next;
            round = round + 1;
        }
        let index = self.original_index;
        Ok(copy_row(&data_table[index]))
    }
}

/// `b` followed by `row`.
fn prepend_byte(b: u8, row: &Vec<u8>) -> (r: Vec<u8>)
    ensures
        r@ == seq![b] + row@,
{
    let mut r: Vec<u8> = Vec::new();
    r.push(b);
    let mut i: usize = 0;
    while i < row.len()
        invariant
            i <= row.len(),
            r@ == seq![b] + row@.take(i as int),
        decreases row.len() - i,
    {
        r.push(row[i]);
        assert(seq![b] + row@.take(i + 1) =~= (seq![b] + row@.take(i as int)).push(row@[i as int]));
        i = i + 1;
    }
    assert(row@.take(row.len() as int) =~= row@);
    r
}

proof fn lemma_sort_len(s: Seq<Seq<u8>>)
    ensures
        s.sort_by(row_order()).len() == s.len(),
{
    lemma_row_order_total();
    s.lemma_sort_by_ensures(row_order());
    assert(s.to_multiset().len() == s.sort_by(row_order()).to_multiset().len());
}

proof fn lemma_first_index(rows: Seq<Seq<u8>>, row: Seq<u8>, i: int)
    requires
        is_first_index(rows, row, i),
    ensures
        first_index_of(rows, row) == i,
    decreases rows.len(),
{
    if i > 0 {
        assert(rows[0] != row);
        assert forall|j: int| 0 <= j < i - 1 implies rows.drop_first()[j] != row by {
            assert(rows.drop_first()[j] == rows[j + 1]);
        }
        lemma_first_index(rows.drop_first(), row, i - 1);
    }
}

/// What is known of the sorted rotation table of `s`.
proof fn lemma_sorted_rotations(s: Seq<u8>)
    ensures
        sorted_rotations(s).len() == s.len(),
        sorted_rotations(s).to_multiset() == rotations(s).to_multiset(),
        sorted_by(sorted_rotations(s), row_order()),
        forall|i: int|
            0 <= i < s.len() ==> (#[trigger] sorted_rotations(s)[i]).len() == s.len(),
{
    lemma_row_order_total();
    rotations(s).lemma_sort_by_ensures(row_order());
    let srt = sorted_rotations(s);
    assert(rotations(s).to_multiset().len() == srt.to_multiset().len());
    assert forall|i: int| 0 <= i < s.len() implies (#[trigger] srt[i]).len() == s.len() by {
        assert(0 <= i < srt.len() && srt[i] == srt[i]);
        assert(srt.contains(srt[i]));
        assert(rotations(s).contains(srt[i]));
    }
}


/// `r` rotated right by one position: its last byte moves to the front.
pub open spec fn rotate_right(r: Seq<u8>) -> Seq<u8> {
    seq![r.last()] + r.drop_last()
}

/// The first `k` bytes of each row.
pub open spec fn take_rows(t: Seq<Seq<u8>>, k: int) -> Seq<Seq<u8>> {
    t.map_values(|r: Seq<u8>| r.take(k))
}

proof fn lemma_map_multiset<A, B>(a: Seq<A>, b: Seq<A>, f: spec_fn(A) -> B)
    requires
        a.to_multiset() == b.to_multiset(),
    ensures
        a.map_values(f).to_multiset() == b.map_values(f).to_multiset(),
    decreases a.len(),
{
    assert(a.to_multiset().len() == a.len());
    assert(b.to_multiset().len() == b.len());
    if a.len() == 0 {
        assert(a.map_values(f) =~= b.map_values(f));
    } else {
        let x = a[0];
        assert(a.contains(x));
        assert(a.to_multiset().count(x) > 0);
        assert(b.to_multiset().count(x) > 0);
        assert(b.contains(x));
        let i = choose|i: int| 0 <= i < b.len() && b[i] == x;
        assert(a.drop_first() =~= a.remove(0));
        assert(a.remove(0).to_multiset() == a.to_multiset().remove(x));
        assert(b.remove(i).to_multiset() == b.to_multiset().remove(x));
        lemma_map_multiset(a.drop_first(), b.remove(i), f);
        let am = a.map_values(f);
        let bm = b.map_values(f);
        assert(am.remove(0) =~= a.drop_first().map_values(f));
        assert(bm.remove(i) =~= b.remove(i).map_values(f));
        assert(am.remove(0).to_multiset() == am.to_multiset().remove(f(x)));
        assert(bm.remove(i).to_multiset() == bm.to_multiset().remove(f(x)));
        assert(am.contains(am[0]));
        assert(bm.contains(bm[i]));
        assert(am.to_multiset().count(f(x)) > 0);
        assert(bm.to_multiset().count(f(x)) > 0);
        assert(am.to_multiset() =~= am.to_multiset().remove(f(x)).insert(f(x)));
        assert(bm.to_multiset() =~= bm.to_multiset().remove(f(x)).insert(f(x)));
    }
}

proof fn lemma_rotate_right_rotation(s: Seq<u8>, k: int)
    requires
        0 <= k < s.len(),
    ensures
        rotate_right(rotation(s, k)) == if k == 0 {
            rotation(s, s.len() - 1)
        } else {
            rotation(s, k - 1)
        },
{
    let n = s.len() as int;
    let r = rotation(s, k);
    let k1 = if k == 0 {
        n - 1
    } else {
        k - 1
    };
    let t = rotation(s, k1);
    assert forall|j: int| 0 <= j < n implies #[trigger] rotate_right(r)[j] == t[j] by {
        if j == 0 {
            assert(r.last() == r[n - 1]);
        } else {
            assert(rotate_right(r)[j] == r[j - 1]);
        }
    }
    assert(rotate_right(r) =~= t);
}

/// Rotating every rotation right by one gives the same rows, shifted by one.
proof fn lemma_rotations_rotate_right(s: Seq<u8>)
    requires
        s.len() > 0,
    ensures
        rotations(s).map_values(|r: Seq<u8>| rotate_right(r)).to_multiset()
            == rotations(s).to_multiset(),
{
    let n = s.len() as int;
    let rs = rotations(s);
    let shifted = rs.map_values(|r: Seq<u8>| rotate_right(r));
    let front = rs.subrange(n - 1, n);
    let back = rs.subrange(0, n - 1);
    assert forall|j: int| 0 <= j < n implies #[trigger] shifted[j] == (front + back)[j] by {
        lemma_rotate_right_rotation(s, j);
    }
    assert(shifted =~= front + back);
    assert(rs =~= back + front);
    vstd::seq_lib::lemma_seq_union_to_multiset_commutative(front, back);
}

proof fn lemma_lex_take(a: Seq<u8>, b: Seq<u8>, k: int)
    requires
        lex_le(a, b),
        0 <= k <= a.len(),
        k <= b.len(),
    ensures
        lex_le(a.take(k), b.take(k)),
    decreases k,
{
    if k > 0 && a[0] == b[0] {
        lemma_lex_take(a.drop_first(), b.drop_first(), k - 1);
        assert(a.take(k).drop_first() =~= a.drop_first().take(k - 1));
        assert(b.take(k).drop_first() =~= b.drop_first().take(k - 1));
    }
}

/// Column reconstruction from the last column of the sorted rotation table
/// yields, after `k` rounds, the first `k` bytes of each sorted rotation.
proof fn lemma_reconstruct(s: Seq<u8>, k: nat)
    requires
        s.len() > 0,
        k <= s.len(),
    ensures
        reconstruct(bwt_data(s), k) == take_rows(sorted_rotations(s), k as int),
    decreases k,
{
    let n = s.len() as int;
    let srt = sorted_rotations(s);
    let last = bwt_data(s);
    lemma_sorted_rotations(s);
    if k == 0 {
        assert(last.len() == n);
        assert forall|i: int| 0 <= i < n implies #[trigger] take_rows(srt, 0)[i]
            == Seq::<u8>::empty() by {
            assert(take_rows(srt, 0)[i] =~= Seq::<u8>::empty());
        }
        assert(reconstruct(last, 0) =~= take_rows(srt, 0));
    } else {
        lemma_reconstruct(s, (k - 1) as nat);
        let prev = take_rows(srt, k - 1);
        let rotated = srt.map_values(|r: Seq<u8>| rotate_right(r));
        let pc = prepend_column(last, prev);
        assert forall|i: int| 0 <= i < n implies #[trigger] pc[i] == take_rows(rotated, k as int)[i]
            by {
            assert(srt[i].len() == n);
            assert(pc[i] =~= take_rows(rotated, k as int)[i]);
        }
        assert(pc =~= take_rows(rotated, k as int));
        lemma_map_multiset(srt, rotations(s), |r: Seq<u8>| rotate_right(r));
        lemma_rotations_rotate_right(s);
        lemma_map_multiset(rotated, srt, |r: Seq<u8>| r.take(k as int));
        let target = take_rows(srt, k as int);
        assert forall|i: int, j: int| 0 <= i < j < target.len() implies #[trigger] row_order()(
            target[i],
            target[j],
        ) by {
            assert(row_order()(srt[i], srt[j]));
            lemma_lex_take(srt[i], srt[j], k as int);
        }
        lemma_sorted_is_sort(pc, target);
    }
}

/// Inverse transformation recovers every block from its transform.
pub proof fn lemma_bwt_round_trip(s: Seq<u8>)
    ensures
        bwt_data(s).len() == s.len(),
        s.len() > 0 ==> 0 <= bwt_index(s) < s.len(),
        bwt_decoded(bwt_data(s), bwt_index(s)) == s,
{
    lemma_sorted_rotations(s);
    if s.len() > 0 {
        let srt = sorted_rotations(s);
        let n = s.len() as int;
        assert(rotation(s, 0) =~= s);
        assert(rotations(s)[0] == s);
        assert(rotations(s).contains(s));
        assert(srt.to_multiset().count(s) > 0);
        assert(srt.contains(s));
        let i = choose|i: int| 0 <= i < srt.len() && srt[i] == s;
        lemma_first_index_exists(srt, s, i);
        lemma_reconstruct(s, s.len());
        let b = bwt_index(s);
        assert(srt[b].len() == n);
        assert(srt[b].take(n) =~= srt[b]);
    }
}

proof fn lemma_first_index_exists(rows: Seq<Seq<u8>>, row: Seq<u8>, i: int)
    requires
        0 <= i < rows.len(),
        rows[i] == row,
    ensures
        0 <= first_index_of(rows, row) <= i,
        rows[first_index_of(rows, row)] == row,
    decreases rows.len(),
{
    if rows[0] != row {
        assert(rows.drop_first()[i - 1] == row);
        lemma_first_index_exists(rows.drop_first(), row, i - 1);
    }
}

} // verus!
