use vstd::prelude::*;
use vstd::slice::slice_subrange;

verus! {

/// The bytes of row `row` in a column whose rows take `size` bytes each.
pub open spec fn row_bytes(column: Seq<u8>, size: int, row: int) -> Seq<u8> {
    column.subrange(row * size, row * size + size)
}

/// A row below `rows` lies inside a column of `rows` rows.
pub proof fn lemma_row_in_bounds(size: int, row: int, rows: int)
    requires
        0 <= size,
        0 <= row < rows,
    ensures
        0 <= row * size,
        row * size + size <= rows * size,
{
    assert(0 <= row * size && row * size + size <= rows * size) by (nonlinear_arith)
        requires
            0 <= size,
            0 <= row < rows,
    ;
}

/// Different rows do not overlap.
pub proof fn lemma_rows_disjoint(size: int, a: int, b: int)
    requires
        0 <= size,
        0 <= a < b,
    ensures
        0 <= a * size,
        a * size + size <= b * size,
{
    assert(0 <= a * size && a * size + size <= b * size) by (nonlinear_arith)
        requires
            0 <= size,
            0 <= a < b,
    ;
}

/// A column is determined by its rows: two columns of `rows` rows of
/// `size` bytes that agree row by row are equal.
pub proof fn lemma_column_determined_by_rows(a: Seq<u8>, b: Seq<u8>, size: int, rows: int)
    requires
        0 <= size,
        0 <= rows,
        a.len() == rows * size,
        b.len() == rows * size,
        forall|r: int| 0 <= r < rows ==> #[trigger] row_bytes(a, size, r) == row_bytes(b, size, r),
    ensures
        a == b,
{
    assert forall|k: int| 0 <= k < a.len() implies a[k] == b[k] by {
        if size == 0 {
            assert(rows * size == 0) by (nonlinear_arith)
                requires
                    size == 0,
            ;
        } else {
            let r = k / size;
            let d = k % size;
            assert(k == r * size + d && 0 <= d < size && 0 <= r) by (nonlinear_arith)
                requires
                    r == k / size,
                    d == k % size,
                    size > 0,
                    k >= 0,
            ;
            assert(r < rows) by (nonlinear_arith)
                requires
                    k == r * size + d,
                    0 <= d,
                    k < rows * size,
                    size > 0,
            ;
            lemma_row_in_bounds(size, r, rows);
            assert(row_bytes(a, size, r) == row_bytes(b, size, r));
            assert(row_bytes(a, size, r)[d] == a[k]);
            assert(row_bytes(b, size, r)[d] == b[k]);
        }
    }
    assert(a =~= b);
}

/// Borrows row `row` of a column.
pub fn row_slice(column: &Vec<u8>, size: usize, row: usize) -> (bytes: &[u8])
    requires
        row * size + size <= column@.len(),
    ensures
        bytes@ == row_bytes(column@, size as int, row as int),
{
    assert(column@.len() == column.len());
    let start: usize = row * size;
    slice_subrange(column.as_slice(), start, start + size)
}

/// Copies row `row` of a column.
pub fn read_row(column: &Vec<u8>, size: usize, row: usize) -> (bytes: Vec<u8>)
    requires
        row * size + size <= column@.len(),
    ensures
        bytes@ == row_bytes(column@, size as int, row as int),
{
    assert(column@.len() == column.len());
    let start: usize = row * size;
    let mut bytes: Vec<u8> = Vec::new();
    let mut k: usize = 0;
    while k < size
        invariant
            k <= size,
            start + size <= column@.len(),
            start + size <= usize::MAX,
            bytes@ == column@.subrange(start as int, start + k),
        decreases size - k,
    {
        bytes.push(column[start + k]);
        proof {
            assert(bytes@ =~= column@.subrange(start as int, start + k + 1));
        }
        k += 1;
    }
    bytes
}

/// Overwrites row `row` of a column with `source`; every other row keeps its bytes.
pub fn write_row(column: &mut Vec<u8>, size: usize, row: usize, source: &[u8])
    requires
        source@.len() == size,
        row * size + size <= old(column)@.len(),
    ensures
        final(column)@.len() == old(column)@.len(),
        row_bytes(final(column)@, size as int, row as int) == source@,
        forall|r: int|
            0 <= r && r != row && r * size + size <= old(column)@.len() ==> #[trigger] row_bytes(
                final(column)@,
                size as int,
                r,
            ) == row_bytes(old(column)@, size as int, r),
{
    assert(column@.len() == column.len());
    let start: usize = row * size;
    let mut k: usize = 0;
    while k < size
        invariant
            k <= size,
            source@.len() == size,
            start + size <= column@.len(),
            start + size <= usize::MAX,
            column@.len() == old(column)@.len(),
            forall|i: int|
                0 <= i < column@.len() ==> #[trigger] column@[i] == if start <= i < start + k {
                    source@[i - start]
                } else {
                    old(column)@[i]
                },
        decreases size - k,
    {
        column[start + k] = source[k];
        k += 1;
    }
    proof {
        assert(row_bytes(column@, size as int, row as int) =~= source@);
        assert forall|r: int|
            0 <= r && r != row && r * size + size <= old(column)@.len()
                implies #[trigger] row_bytes(
            column@,
            size as int,
            r,
        ) == row_bytes(old(column)@, size as int, r) by {
            if r < row {
                lemma_rows_disjoint(size as int, r, row as int);
            } else {
                lemma_rows_disjoint(size as int, row as int, r);
            }
            assert(row_bytes(column@, size as int, r) =~= row_bytes(
                old(column)@,
                size as int,
                r,
            ));
        }
    }
}

/// Exchanges rows `a` and `b` of a column; every other row keeps its bytes.
pub fn swap_rows(column: &mut Vec<u8>, size: usize, a: usize, b: usize)
    requires
        a * size + size <= old(column)@.len(),
        b * size + size <= old(column)@.len(),
    ensures
        final(column)@.len() == old(column)@.len(),
        row_bytes(final(column)@, size as int, a as int) == row_bytes(
            old(column)@,
            size as int,
            b as int,
        ),
        row_bytes(final(column)@, size as int, b as int) == row_bytes(
            old(column)@,
            size as int,
            a as int,
        ),
        forall|r: int|
            0 <= r && r != a && r != b && r * size + size <= old(column)@.len()
                ==> #[trigger] row_bytes(final(column)@, size as int, r) == row_bytes(
                old(column)@,
                size as int,
                r,
            ),
{
    if a != b {
        let first = read_row(column, size, a);
        let second = read_row(column, size, b);
        write_row(column, size, a, second.as_slice());
        write_row(column, size, b, first.as_slice());
    }
}

/// A column in which the bytes of row `row` are replaced by `bytes`.
pub open spec fn with_row(column: Seq<u8>, size: int, row: int, bytes: Seq<u8>) -> Seq<u8> {
    column.subrange(0, row * size) + bytes + column.subrange(row * size + size, column.len() as int)
}

/// Replacing a row by as many bytes changes that row and no other.
pub proof fn lemma_with_row(column: Seq<u8>, size: int, row: int, bytes: Seq<u8>)
    requires
        0 <= size,
        0 <= row,
        row * size + size <= column.len(),
        bytes.len() == size,
    ensures
        with_row(column, size, row, bytes).len() == column.len(),
        row_bytes(with_row(column, size, row, bytes), size, row) == bytes,
        forall|r: int|
            0 <= r && r != row && r * size + size <= column.len() ==> #[trigger] row_bytes(
                with_row(column, size, row, bytes),
                size,
                r,
            ) == row_bytes(column, size, r),
{
    let after = with_row(column, size, row, bytes);
    assert(0 <= row * size) by (nonlinear_arith)
        requires
            0 <= size,
            0 <= row,
    ;
    assert(row_bytes(after, size, row) =~= bytes);
    assert forall|r: int|
        0 <= r && r != row && r * size + size <= column.len() implies #[trigger] row_bytes(
        after,
        size,
        r,
    ) == row_bytes(column, size, r) by {
        if r < row {
            lemma_rows_disjoint(size, r, row);
        } else {
            lemma_rows_disjoint(size, row, r);
        }
        assert(row_bytes(after, size, r) =~= row_bytes(column, size, r));
    }
}

/// Borrows row `row` of a column for writing: what the borrow holds in
/// the end takes the place of the row's bytes.
pub fn row_slice_mut(column: &mut Vec<u8>, size: usize, row: usize) -> (bytes: &mut [u8])
    requires
        row * size + size <= old(column)@.len(),
    ensures
        bytes@ == row_bytes(old(column)@, size as int, row as int),
        final(column)@ == with_row(old(column)@, size as int, row as int, final(bytes)@),
{
    assert(column@.len() == column.len());
    let start: usize = row * size;
    let whole = column.as_mut_slice();
    let (_, tail) = whole.split_at_mut(start);
    let (bytes, _) = tail.split_at_mut(size);
    bytes
}

} // verus!
