use kyopro::matrix::{pow_matrix, prod_matrix};

#[test]
fn test_prod_matrix() {
    let add = |x: usize, y: usize| x + y;
    let prod = |x: usize, y: usize| x * y;

    let a = vec![vec![5],
                 vec![2]];
    let b = vec![vec![1, 5, 9]];
    assert_eq!(prod_matrix(&a, &b, &add, &prod),
        vec![vec![5, 25, 45],
             vec![2, 10, 18]]
    );

    let a = vec![vec![2, 5],
                 vec![4, 7]];
    let b = vec![vec![1, 3],
                 vec![6, 9]];
    assert_eq!(prod_matrix(&a, &b, &add, &prod),
        vec![vec![32, 51],
             vec![46, 75]]);
}

#[test]
#[allow(non_snake_case)]
fn test_pow_matrix() {
    let add = |x: usize, y: usize| x + y;
    let prod = |x: usize, y: usize| x * y;

    let A = vec![vec![2, 1],
                 vec![1, 0]];
    let E = vec![vec![1, 0],
                 vec![0, 1]];
    assert_eq!(pow_matrix(0, &A, &E, &add, &prod), E);
    assert_eq!(pow_matrix(1, &A, &E, &add, &prod), A);
    assert_eq!(pow_matrix(2, &A, &E, &add, &prod), vec![vec![5, 2],
                                                        vec![2, 1]]);
    assert_eq!(pow_matrix(3, &A, &E, &add, &prod), vec![vec![12, 5],
                                                        vec![5, 2]]);
    assert_eq!(pow_matrix(4, &A, &E, &add, &prod), vec![vec![29, 12],
                                                        vec![12, 5]]);
}

#[test]
fn test_pow_matrix_applies_to_a_vector() {
    let add = |x: u64, y: u64| x + y;
    let prod = |x: u64, y: u64| x * y;
    let step = vec![vec![1, 1], vec![1, 0]];
    let start = vec![vec![1], vec![0]];
    assert_eq!(pow_matrix(10, &step, &start, add, prod), vec![vec![89], vec![55]]);
    let max = |x: u64, y: u64| x.max(y);
    assert_eq!(prod_matrix(&step, &start, max, add), vec![vec![2], vec![2]]);
}
