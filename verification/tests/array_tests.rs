use substratum::{NdArray, Shape};

#[test]
fn from_vec_basic() {
    let arr = NdArray::from_vec(Shape::d2(2, 3), vec![1, 2, 3, 4, 5, 6]);
    assert_eq!(arr.ndim(), 2);
    assert_eq!(arr.len(), 6);
    assert_eq!(arr.shape().dims(), &[2, 3]);
}

#[test]
fn indexing_2d() {
    let arr = NdArray::from_vec(Shape::d2(2, 3), vec![1, 2, 3, 4, 5, 6]);

    assert_eq!(arr.get(&[0, 0]), Some(&1));
    assert_eq!(arr.get(&[0, 2]), Some(&3));
    assert_eq!(arr.get(&[1, 0]), Some(&4));
    assert_eq!(arr.get(&[1, 2]), Some(&6));
}

#[test]
fn indexing_out_of_bounds() {
    let arr = NdArray::from_vec(Shape::d2(2, 3), vec![1, 2, 3, 4, 5, 6]);

    assert_eq!(arr.get(&[2, 0]), None);
    assert_eq!(arr.get(&[0, 3]), None);
    assert_eq!(arr.get(&[0]), None);
}

#[test]
fn zeros_creates_default_values() {
    let arr: NdArray<f64> = NdArray::zeros(Shape::d2(2, 2));
    assert_eq!(arr.as_slice(), &[0.0, 0.0, 0.0, 0.0]);
}

#[test]
fn filled_creates_repeated_value() {
    let arr = NdArray::filled(Shape::d1(4), 7);
    assert_eq!(arr.as_slice(), &[7, 7, 7, 7]);
}

#[test]
fn get_mut_modifies_element() {
    let mut arr = NdArray::from_vec(Shape::d2(2, 2), vec![1, 2, 3, 4]);
    *arr.get_mut(&[1, 1]).unwrap() = 99;
    assert_eq!(arr.get(&[1, 1]), Some(&99));
}

#[test]
fn eye_square() {
    let arr = NdArray::eye(3, None, 0);
    assert_eq!(arr.shape().dims(), &[3, 3]);
    assert_eq!(arr.as_slice(), &[1, 0, 0, 0, 1, 0, 0, 0, 1]);
}

#[test]
fn eye_rectangular() {
    let arr = NdArray::eye(2, Some(4), 0);
    assert_eq!(arr.shape().dims(), &[2, 4]);
    assert_eq!(arr.as_slice(), &[1, 0, 0, 0, 0, 1, 0, 0]);
}

#[test]
fn eye_positive_offset() {
    let arr = NdArray::eye(3, Some(4), 1);
    assert_eq!(arr.shape().dims(), &[3, 4]);
    // [[0, 1, 0, 0], [0, 0, 1, 0], [0, 0, 0, 1]]
    assert_eq!(arr.as_slice(), &[0, 1, 0, 0, 0, 0, 1, 0, 0, 0, 0, 1]);
}

#[test]
fn eye_negative_offset() {
    let arr = NdArray::eye(3, Some(3), -1);
    assert_eq!(arr.shape().dims(), &[3, 3]);
    // [[0, 0, 0], [1, 0, 0], [0, 1, 0]]
    assert_eq!(arr.as_slice(), &[0, 0, 0, 1, 0, 0, 0, 1, 0]);
}

#[test]
fn diagonal_main() {
    let arr = NdArray::from_vec(Shape::d2(3, 3), vec![1.0, 2.0, 3.0, 4.0, 5.0, 6.0, 7.0, 8.0, 9.0]);
    let diag = arr.diagonal(0);
    assert_eq!(diag.shape().dims(), &[3]);
    assert_eq!(diag.as_slice(), &[1.0, 5.0, 9.0]);
}

#[test]
fn diagonal_positive_offset() {
    let arr = NdArray::from_vec(Shape::d2(3, 3), vec![1.0, 2.0, 3.0, 4.0, 5.0, 6.0, 7.0, 8.0, 9.0]);
    let diag = arr.diagonal(1);
    assert_eq!(diag.shape().dims(), &[2]);
    assert_eq!(diag.as_slice(), &[2.0, 6.0]);
}

#[test]
fn diagonal_negative_offset() {
    let arr = NdArray::from_vec(Shape::d2(3, 3), vec![1.0, 2.0, 3.0, 4.0, 5.0, 6.0, 7.0, 8.0, 9.0]);
    let diag = arr.diagonal(-1);
    assert_eq!(diag.shape().dims(), &[2]);
    assert_eq!(diag.as_slice(), &[4.0, 8.0]);
}

#[test]
fn diagonal_rectangular() {
    let arr = NdArray::from_vec(Shape::d2(2, 4), vec![1.0, 2.0, 3.0, 4.0, 5.0, 6.0, 7.0, 8.0]);
    let diag = arr.diagonal(0);
    assert_eq!(diag.shape().dims(), &[2]);
    assert_eq!(diag.as_slice(), &[1.0, 6.0]);
}

#[test]
fn transpose_square() {
    let arr = NdArray::from_vec(Shape::d2(2, 2), vec![1.0, 2.0, 3.0, 4.0]);
    let transposed = arr.transpose();
    assert_eq!(transposed.shape().dims(), &[2, 2]);
    // [[1, 2], [3, 4]] -> [[1, 3], [2, 4]]
    assert_eq!(transposed.as_slice(), &[1.0, 3.0, 2.0, 4.0]);
}

#[test]
fn transpose_rectangular() {
    let arr = NdArray::from_vec(Shape::d2(2, 3), vec![1.0, 2.0, 3.0, 4.0, 5.0, 6.0]);
    let transposed = arr.transpose();
    assert_eq!(transposed.shape().dims(), &[3, 2]);
    // [[1, 2, 3], [4, 5, 6]] -> [[1, 4], [2, 5], [3, 6]]
    assert_eq!(transposed.as_slice(), &[1.0, 4.0, 2.0, 5.0, 3.0, 6.0]);
}

#[test]
fn transpose_t_alias() {
    let arr = NdArray::from_vec(Shape::d2(2, 3), vec![1.0, 2.0, 3.0, 4.0, 5.0, 6.0]);
    let t1 = arr.transpose();
    let t2 = arr.t();
    assert_eq!(t1.as_slice(), t2.as_slice());
    assert_eq!(t1.shape().dims(), t2.shape().dims());
}

#[test]
fn transpose_double_is_identity() {
    let arr = NdArray::from_vec(Shape::d2(2, 3), vec![1.0, 2.0, 3.0, 4.0, 5.0, 6.0]);
    let double_transposed = arr.transpose().transpose();
    assert_eq!(double_transposed.shape().dims(), arr.shape().dims());
    assert_eq!(double_transposed.as_slice(), arr.as_slice());
}

#[test]
fn shape_constructors() {
    assert_eq!(Shape::scalar().dims(), &[]);
    assert_eq!(Shape::d1(5).dims(), &[5]);
    assert_eq!(Shape::d2(3, 4).dims(), &[3, 4]);
    assert_eq!(Shape::d3(2, 3, 4).dims(), &[2, 3, 4]);
}

#[test]
fn shape_size() {
    assert_eq!(Shape::scalar().size(), 1);
    assert_eq!(Shape::d1(5).size(), 5);
    assert_eq!(Shape::d2(3, 4).size(), 12);
    assert_eq!(Shape::d3(2, 3, 4).size(), 24);
}

#[test]
fn strides_row_major() {
    let shape = Shape::d3(3, 4, 5);
    assert_eq!(shape.strides_row_major(), vec![20, 5, 1]);

    let shape2 = Shape::d2(2, 3);
    assert_eq!(shape2.strides_row_major(), vec![3, 1]);
}

#[test]
fn strides_col_major() {
    let shape = Shape::d3(3, 4, 5);
    assert_eq!(shape.strides_col_major(), vec![1, 3, 12]);
}

#[test]
fn ones_fills_with_unit() {
    let arr = NdArray::ones(Shape::d2(2, 2));
    assert_eq!(arr.as_slice(), &[1, 1, 1, 1]);
}

#[test]
fn full_fills_with_value() {
    let arr = NdArray::full(Shape::d1(3), 2.5);
    assert_eq!(arr.as_slice(), &[2.5, 2.5, 2.5]);
}

#[test]
fn map_applies_function() {
    let arr = NdArray::from_vec(Shape::d1(4), vec![1, 2, 3, 4]);
    let doubled = arr.map(|x: i32| x * 2);
    assert_eq!(doubled.as_slice(), &[2, 4, 6, 8]);
    assert_eq!(doubled.shape().dims(), arr.shape().dims());
}

#[test]
fn rows_extracts_coordinate_vectors() {
    let arr = NdArray::from_vec(Shape::d2(2, 3), vec![1i64, 2, 3, 4, 5, 6]);
    let rows = arr.rows();
    assert_eq!(rows, vec![vec![1i64, 2, 3], vec![4i64, 5, 6]]);
}
