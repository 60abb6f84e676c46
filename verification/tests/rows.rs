use matrix::iter::Rows;

#[test]
fn next() {
    let data = [0, 1, 2, 3, 4, 5];
    let num_columns = 2;
    let mut rows = Rows::new(&data, num_columns);

    assert_eq!(rows.next(), Some([0, 1].as_slice()));
    assert_eq!(rows.next(), Some([2, 3].as_slice()));
    assert_eq!(rows.next(), Some([4, 5].as_slice()));

    assert_eq!(rows.next(), None);
}

#[test]
fn size_hint() {
    let data = [0, 1, 2, 3, 4, 5];
    let num_rows = 3;
    let num_columns = 2;
    let rows = Rows::new(&data, num_columns);

    assert_eq!(data.len(), num_rows * num_columns);
    assert_eq!(rows.size_hint(), (num_rows, Some(num_rows)));
}

#[test]
fn count() {
    let data = [0, 1, 2, 3, 4, 5];
    let num_rows = 3;
    let num_columns = 2;
    let rows = Rows::new(&data, num_columns);

    assert_eq!(data.len(), num_rows * num_columns);
    assert_eq!(rows.count(), num_rows);
}

#[test]
fn nth() {
    let data = [0, 1, 2, 3, 4, 5];
    let num_columns = 2;
    let mut rows = Rows::new(&data, num_columns);

    assert_eq!(rows.nth(1), Some([2, 3].as_slice()));
    assert_eq!(rows.next(), Some([4, 5].as_slice()));
}

#[test]
fn last() {
    let data = [0, 1, 2, 3, 4, 5];
    let num_columns = 2;
    let rows = Rows::new(&data, num_columns);

    assert_eq!(rows.last(), Some([4, 5].as_slice()));
}

#[test]
fn len_counts_the_rows_left() {
    let data = [0, 1, 2, 3, 4, 5];
    let mut rows = Rows::new(&data, 2);

    assert_eq!(rows.len(), 3);
    rows.next();
    assert_eq!(rows.len(), 2);
    assert_eq!(rows.size_hint(), (2, Some(2)));
    rows.next();
    rows.next();
    assert_eq!(rows.len(), 0);
    assert_eq!(rows.size_hint(), (0, Some(0)));
    assert_eq!(rows.count(), 0);
}

#[test]
fn rows_come_in_order_and_cover_the_buffer() {
    let data = [9, 8, 7, 6, 5, 4, 3, 2, 1, 0, 11, 12];
    let mut rows = Rows::new(&data, 3);
    let mut seen: Vec<i32> = Vec::new();
    let mut yielded = 0;
    while let Some(row) = rows.next() {
        assert_eq!(row.len(), 3);
        assert_eq!(row, &data[yielded * 3..(yielded + 1) * 3]);
        seen.extend_from_slice(row);
        yielded += 1;
    }
    assert_eq!(yielded, 4);
    assert_eq!(seen, data);
}

#[test]
fn nth_agrees_with_repeated_next() {
    let data = [0, 1, 2, 3, 4, 5, 6, 7];
    for k in 0..4 {
        let mut skipping = Rows::new(&data, 2);
        let mut stepping = Rows::new(&data, 2);
        let mut stepped = None;
        for _ in 0..k + 1 {
            stepped = stepping.next();
        }
        assert_eq!(skipping.nth(k), stepped);
        assert_eq!(skipping.len(), stepping.len());
        assert_eq!(skipping.next(), stepping.next());
    }
}

#[test]
fn nth_past_the_end_exhausts() {
    let data = [0, 1, 2, 3, 4, 5];

    let mut rows = Rows::new(&data, 2);
    assert_eq!(rows.nth(3), None);
    assert_eq!(rows.len(), 0);
    assert_eq!(rows.next(), None);

    let mut rows = Rows::new(&data, 2);
    assert_eq!(rows.nth(7), None);
    assert_eq!(rows.next(), None);

    let mut rows = Rows::new(&data, 2);
    assert_eq!(rows.nth(2), Some([4, 5].as_slice()));
    assert_eq!(rows.next(), None);
}

#[test]
fn last_agrees_with_full_traversal() {
    let data = [0, 1, 2, 3, 4, 5, 6, 7, 8];
    let mut stepping = Rows::new(&data, 3);
    let mut final_row = None;
    while let Some(row) = stepping.next() {
        final_row = Some(row);
    }
    assert_eq!(Rows::new(&data, 3).last(), final_row);
    assert_eq!(final_row, Some([6, 7, 8].as_slice()));
}

#[test]
fn last_of_nothing_is_nothing() {
    let data: [i32; 0] = [];
    let mut rows = Rows::new(&data, 2);
    assert_eq!(rows.next(), None);
    assert_eq!(rows.last(), None);
}
