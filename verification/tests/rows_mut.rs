use matrix::iter::RowsMut;

#[test]
fn iter_next() {
    let mut data = [0, 1, 2, 3, 4, 5];
    let num_columns = 2;
    let mut rows_mut = RowsMut::new(&mut data, num_columns);

    assert_eq!(rows_mut.next(), Some([0, 1].as_mut_slice()));
    assert_eq!(rows_mut.next(), Some([2, 3].as_mut_slice()));
    assert_eq!(rows_mut.next(), Some([4, 5].as_mut_slice()));

    assert_eq!(rows_mut.next(), None);
}

#[test]
fn mutability() {
    let mut data = [0, 1, 2, 3, 4, 5];
    let num_columns = 2;
    let mut rows_mut = RowsMut::new(&mut data, num_columns);

    let first_row = rows_mut.nth(0).unwrap();
    let last_row = rows_mut.last().unwrap();
    std::mem::swap(&mut first_row[0], &mut last_row[0]);
    std::mem::swap(&mut first_row[1], &mut last_row[1]);

    assert_eq!(data, [4, 5, 2, 3, 0, 1]);
}

#[test]
fn iter_size_hint() {
    let mut data = [0, 1, 2, 3, 4, 5];
    let num_rows = 3;
    let num_columns = 2;

    assert_eq!(data.len(), num_rows * num_columns);

    let rows_mut = RowsMut::new(&mut data, num_columns);

    assert_eq!(rows_mut.size_hint(), (num_rows, Some(num_rows)));
}

#[test]
fn iter_count() {
    let mut data = [0, 1, 2, 3, 4, 5];
    let num_rows = 3;
    let num_columns = 2;

    assert_eq!(data.len(), num_rows * num_columns);

    let rows_mut = RowsMut::new(&mut data, num_columns);

    assert_eq!(rows_mut.count(), num_rows);
}

#[test]
fn iter_nth() {
    let mut data = [0, 1, 2, 3, 4, 5];
    let num_columns = 2;
    let mut rows_mut = RowsMut::new(&mut data, num_columns);

    assert_eq!(rows_mut.nth(1), Some([2, 3].as_mut_slice()));
    assert_eq!(rows_mut.next(), Some([4, 5].as_mut_slice()));
}

#[test]
fn iter_last() {
    let mut data = [0, 1, 2, 3, 4, 5];
    let num_columns = 2;
    let rows_mut = RowsMut::new(&mut data, num_columns);

    assert_eq!(rows_mut.last(), Some([4, 5].as_mut_slice()));
}

#[test]
fn mutable_nth_past_the_end_exhausts() {
    let mut data = [0, 1, 2, 3, 4, 5];
    let mut rows_mut = RowsMut::new(&mut data, 2);

    assert_eq!(rows_mut.nth(3), None);
    assert_eq!(rows_mut.len(), 0);
    assert_eq!(rows_mut.next(), None);
    assert_eq!(rows_mut.last(), None);
    assert_eq!(data, [0, 1, 2, 3, 4, 5]);
}

#[test]
fn every_yielded_row_writes_through() {
    let mut data = [0, 0, 0, 0, 0, 0];
    let mut rows_mut = RowsMut::new(&mut data, 3);
    let mut value = 1;
    while let Some(row) = rows_mut.next() {
        for cell in row.iter_mut() {
            *cell = value;
            value += 1;
        }
    }
    assert_eq!(data, [1, 2, 3, 4, 5, 6]);
}

#[test]
fn skipped_rows_keep_their_cells() {
    let mut data = [0, 1, 2, 3, 4, 5, 6, 7];
    let mut rows_mut = RowsMut::new(&mut data, 2);
    let third = rows_mut.nth(2).unwrap();
    third[0] = 40;
    third[1] = 50;
    assert_eq!(rows_mut.len(), 1);
    assert_eq!(data, [0, 1, 2, 3, 40, 50, 6, 7]);
}
