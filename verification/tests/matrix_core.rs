use matrix::{Dimension, Matrix, MatrixError};

#[test]
fn shape() {
    let num_rows = 3;
    let num_columns = 2;
    let matrix: Matrix<f32> = Matrix::new(num_rows, num_columns).unwrap();

    assert_eq!(matrix.num_rows(), num_rows);
    assert_eq!(matrix.num_columns(), num_columns);
    assert_eq!(matrix.shape(), (num_rows, num_columns));
}

#[test]
fn full() {
    let num_rows = 2;
    let num_columns = 2;
    let fill_value = 0.5;
    let matrix: Matrix<f32> = Matrix::full(num_rows, num_columns, fill_value).unwrap();

    for i in 0..num_rows {
        for j in 0..num_columns {
            assert_eq!(matrix.row(i).unwrap()[j], fill_value);
        }
    }
}

#[test]
fn new() {
    let num_rows = 2;
    let num_columns = 2;
    let matrix: Matrix<f32> = Matrix::new(num_rows, num_columns).unwrap();
    let expected_value = Default::default();

    for i in 0..num_rows {
        for j in 0..num_columns {
            assert_eq!(matrix.row(i).unwrap()[j], expected_value);
        }
    }
}

#[test]
fn zeros() {
    let num_rows = 2;
    let num_columns = 2;
    let matrix: Matrix<f32> = Matrix::zeros(num_rows, num_columns).unwrap();
    let expected_value = 0.;

    for i in 0..num_rows {
        for j in 0..num_columns {
            assert_eq!(matrix.row(i).unwrap()[j], expected_value);
        }
    }
}

#[test]
fn ones() {
    let num_rows = 2;
    let num_columns = 2;
    let matrix: Matrix<f32> = Matrix::ones(num_rows, num_columns).unwrap();
    let expected_value = 1.;

    for i in 0..num_rows {
        for j in 0..num_columns {
            assert_eq!(matrix.row(i).unwrap()[j], expected_value);
        }
    }
}

#[test]
fn as_flattened() {
    let matrix: Matrix<f32> = Matrix::zeros(2, 2).unwrap();

    assert_eq!(matrix.as_flattened(), [0., 0., 0., 0.]);
}

#[test]
fn rows() {
    let matrix: Matrix<f32> = Matrix::from([[0., 1.], [2., 3.], [4., 5.]]).unwrap();
    let mut rows = matrix.rows();

    assert_eq!(rows.next(), Some([0., 1.].as_slice()));
    assert_eq!(rows.next(), Some([2., 3.].as_slice()));
    assert_eq!(rows.next(), Some([4., 5.].as_slice()));
    assert_eq!(rows.next(), None);
}

#[test]
fn rows_mut() {
    let mut matrix: Matrix<f32> = Matrix::from([[0., 1.], [2., 3.], [4., 5.]]).unwrap();
    let mut rows_mut = matrix.rows_mut();

    let first_row = rows_mut.nth(0).unwrap();
    let last_row = rows_mut.last().unwrap();

    std::mem::swap(&mut first_row[0], &mut last_row[0]);
    std::mem::swap(&mut first_row[1], &mut last_row[1]);

    assert_eq!(matrix, Matrix::from([[4., 5.], [2., 3.], [0., 1.]]).unwrap());
}

#[test]
fn from() {
    let matrix: Matrix<f32> = Matrix::from([[0., 1., 2.], [3., 4., 5.]]).unwrap();

    assert_eq!(matrix.num_rows(), 2);
    assert_eq!(matrix.num_columns(), 3);

    let mut value: f32 = 0.;
    for i in 0..matrix.num_rows() {
        for j in 0..matrix.num_columns() {
            assert_eq!(matrix.row(i).unwrap()[j], value);
            value += 1.;
        }
    }
}

#[test]
fn indices() {
    let num_rows = 3;
    let num_columns = 2;
    let mut matrix: Matrix<f32> = Matrix::zeros(num_rows, num_columns).unwrap();

    let mut value: f32 = 0.;
    for i in 0..matrix.num_rows() {
        for j in 0..matrix.num_columns() {
            matrix.row_mut(i).unwrap()[j] = value;
            value += 1.;
        }
    }

    value = 0.;
    for i in 0..matrix.num_rows() {
        for j in 0..matrix.num_columns() {
            assert_eq!(matrix.row(i).unwrap()[j], value);
            value += 1.;
        }
    }
}

#[test]
fn partial_eq() {
    let matrix: Matrix<f32> = Matrix::from([[0., 1.], [2., 3.], [4., 5.]]).unwrap();

    assert_eq!(matrix, matrix);
    assert_eq!(matrix, Matrix::from([[0., 1.], [2., 3.], [4., 5.]]).unwrap());

    assert_ne!(matrix, Matrix::from([[0., 1., 2.], [3., 4., 5.]]).unwrap());
    assert_ne!(matrix, Matrix::from([[1., 1.], [2., 3.], [4., 5.]]).unwrap());
}

#[test]
fn full_with_invalid_num_rows() {
    let result: Result<Matrix<f32>, MatrixError> = Matrix::full(0, 0, 0.5);

    assert_eq!(result, Err(MatrixError::InvalidDimension { dimension: Dimension::Rows }));
}

#[test]
fn full_with_invalid_num_columns() {
    let result: Result<Matrix<f32>, MatrixError> = Matrix::full(1, 0, 0.5);

    assert_eq!(result, Err(MatrixError::InvalidDimension { dimension: Dimension::Columns }));
}

#[test]
fn from_with_invalid_num_rows() {
    let result: Result<Matrix<f32>, MatrixError> = Matrix::from([[0f32; 3]; 0]);

    assert_eq!(result, Err(MatrixError::InvalidDimension { dimension: Dimension::Rows }));
}

#[test]
fn from_with_invalid_num_columns() {
    let result: Result<Matrix<f32>, MatrixError> = Matrix::from([[0f32; 0]; 2]);

    assert_eq!(result, Err(MatrixError::InvalidDimension { dimension: Dimension::Columns }));
}

#[test]
fn full_names_the_zero_dimension() {
    let rows = MatrixError::InvalidDimension { dimension: Dimension::Rows };
    let columns = MatrixError::InvalidDimension { dimension: Dimension::Columns };

    assert_eq!(Matrix::full(0, 0, 0.5f32), Err(rows));
    assert_eq!(Matrix::full(0, 4, 0.5f32), Err(rows));
    assert_eq!(Matrix::full(1, 0, 0.5f32), Err(columns));
    assert_eq!(Matrix::<i32>::new(0, 1), Err(rows));
    assert_eq!(Matrix::<i32>::new(1, 0), Err(columns));
    assert_eq!(Matrix::<i32>::zeros(0, 1), Err(rows));
    assert_eq!(Matrix::<i32>::zeros(1, 0), Err(columns));
    assert_eq!(Matrix::<i32>::ones(0, 1), Err(rows));
    assert_eq!(Matrix::<i32>::ones(1, 0), Err(columns));
}

#[test]
fn from_names_the_zero_dimension() {
    let rows = MatrixError::InvalidDimension { dimension: Dimension::Rows };
    let columns = MatrixError::InvalidDimension { dimension: Dimension::Columns };

    assert_eq!(Matrix::from([[0f32; 3]; 0]), Err(rows));
    assert_eq!(Matrix::from([[0f32; 0]; 0]), Err(rows));
    assert_eq!(Matrix::from([[0f32; 0]; 2]), Err(columns));
}

#[test]
fn full_fills_every_cell() {
    let matrix = Matrix::full(3, 4, 7u8).unwrap();

    assert_eq!(matrix.shape(), (3, 4));
    assert_eq!(matrix.as_flattened(), [7u8; 12]);
}

#[test]
fn identities_of_integers() {
    assert_eq!(Matrix::<i64>::zeros(2, 3).unwrap(), Matrix::full(2, 3, 0i64).unwrap());
    assert_eq!(Matrix::<i64>::ones(2, 3).unwrap(), Matrix::full(2, 3, 1i64).unwrap());
    assert_eq!(Matrix::<u16>::new(2, 3).unwrap(), Matrix::full(2, 3, 0u16).unwrap());
    assert_eq!(Matrix::<i64>::ones(1, 2).unwrap().as_flattened(), [1, 1]);
}

#[test]
fn from_flattens_row_by_row() {
    let matrix = Matrix::from([[1, 2, 3], [4, 5, 6]]).unwrap();

    assert_eq!(matrix.shape(), (2, 3));
    assert_eq!(matrix.as_flattened(), [1, 2, 3, 4, 5, 6]);
}

#[test]
fn row_index_out_of_range() {
    let mut matrix = Matrix::from([[1, 2], [3, 4], [5, 6]]).unwrap();
    let refused = MatrixError::IndexOutOfRange { index: 3, num_rows: 3 };

    assert_eq!(matrix.row(2), Ok([5, 6].as_slice()));
    assert_eq!(matrix.row(3), Err(refused));
    assert_eq!(matrix.row_mut(3), Err(refused));
    assert_eq!(
        matrix.row(usize::MAX),
        Err(MatrixError::IndexOutOfRange { index: usize::MAX, num_rows: 3 })
    );
    assert_eq!(matrix.as_flattened(), [1, 2, 3, 4, 5, 6]);
}

#[test]
fn row_writes_show_in_row_reads() {
    let mut matrix = Matrix::from([[1, 2], [3, 4], [5, 6]]).unwrap();
    let row = matrix.row_mut(1).unwrap();
    row[0] = 30;
    row[1] = 40;

    assert_eq!(matrix.row(0), Ok([1, 2].as_slice()));
    assert_eq!(matrix.row(1), Ok([30, 40].as_slice()));
    assert_eq!(matrix.row(2), Ok([5, 6].as_slice()));
}

#[test]
fn rows_of_a_matrix_cover_its_cells() {
    let matrix = Matrix::from([[1, 2, 3], [4, 5, 6], [7, 8, 9], [10, 11, 12]]).unwrap();
    let mut rows = matrix.rows();
    let mut seen: Vec<i32> = Vec::new();
    let mut yielded = 0;

    assert_eq!(rows.len(), 4);
    while let Some(row) = rows.next() {
        assert_eq!(row.len(), 3);
        assert_eq!(Ok(row), matrix.row(yielded));
        seen.extend_from_slice(row);
        yielded += 1;
    }
    assert_eq!(yielded, 4);
    assert_eq!(seen, matrix.as_flattened());
}
