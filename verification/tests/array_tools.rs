use stockroom::arrays::ArrayOp;
use stockroom::arrays::flatten_and_filter;
use stockroom::arrays::map_array;

#[test]
fn elementwise_arithmetic() {
    assert_eq!(map_array(vec![1, 2, 3], ArrayOp::Add, 10), vec![11, 12, 13]);
    assert_eq!(map_array(vec![1, 2, 3], ArrayOp::Sub, 1), vec![0, 1, 2]);
    assert_eq!(map_array(vec![-2, 0, 5], ArrayOp::Mul, 3), vec![-6, 0, 15]);
    // machine division truncates toward zero
    assert_eq!(map_array(vec![7, -7, 6], ArrayOp::Div, 2), vec![3, -3, 3]);
}

#[test]
fn flattening_keeps_first_multiples_of_two_or_three() {
    let list = vec![
        vec![1, 27, 38, 17, 34],
        vec![5, 6, 111, 23, 12, 57],
        vec![7, 9, 13, 15, 19, 21],
    ];
    assert_eq!(
        flatten_and_filter(list),
        vec![27, 38, 34, 6, 111, 12, 57, 9, 15, 21]
    );
    // a repeated value is kept only at its first occurrence
    assert_eq!(flatten_and_filter(vec![vec![4, 4], vec![4, 9]]), vec![4, 9]);
    assert_eq!(flatten_and_filter(vec![vec![1, 5, 7]]), Vec::<u32>::new());
}
