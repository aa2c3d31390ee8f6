use uasat::boolean::Boolean;
use uasat::solver::Solver;
use uasat::tensor::{Shape, Tensor, TensorAlg, TensorSat};

#[test]
fn polymer() {
    let mut tensor: Tensor<usize> = Tensor::constant(Shape::new(vec![2, 3]), 0);
    for i in 0..2 {
        for j in 0..3 {
            tensor.very_slow_set(&[i, j], i + 10 * j);
        }
    }
    let tensor = tensor.polymer(Shape::new(vec![3, 4, 2]), &[2, 0]);
    assert_eq!(*tensor.shape(), Shape::new(vec![3, 4, 2]));
    for i in 0..2 {
        for j in 0..3 {
            for k in 0..4 {
                assert_eq!(tensor.very_slow_get(&[j, k, i]), i + 10 * j);
            }
        }
    }
}

#[test]
fn getset() {
    let mut alg = Boolean();
    let mut t1: Tensor<bool> = Tensor::constant(Shape::new(vec![2, 3]), false);
    t1.very_slow_set(&[0, 0], true);
    t1.very_slow_set(&[1, 1], true);
    t1.very_slow_set(&[1, 2], true);

    let t2 = alg.tensor_not(&t1);
    assert_eq!(t2.very_slow_get(&[0, 0]), false);
    assert_eq!(t2.very_slow_get(&[0, 1]), true);

    t1.very_slow_set(&[0, 1], true);
    let t3 = alg.tensor_and(&t1, &t2);
    assert_eq!(t3.very_slow_get(&[0, 0]), false);
    assert_eq!(t3.very_slow_get(&[0, 1]), true);
    assert_eq!(t3.very_slow_get(&[0, 2]), false);
    assert_eq!(t3.very_slow_get(&[1, 0]), false);
    assert_eq!(t3.very_slow_get(&[1, 1]), false);
    assert_eq!(t3.very_slow_get(&[1, 2]), false);
}

#[test]
fn fold() {
    let mut alg = Boolean();
    let mut t1: Tensor<bool> = Tensor::constant(Shape::new(vec![2, 4]), false);
    t1.very_slow_set(&[0, 1], true);
    t1.very_slow_set(&[1, 2], true);
    t1.very_slow_set(&[0, 3], true);
    t1.very_slow_set(&[1, 3], true);

    let t2 = alg.tensor_all(&t1);
    assert_eq!(*t2.shape(), Shape::new(vec![4]));
    assert_eq!(t2.very_slow_get(&[0]), false);
    assert_eq!(t2.very_slow_get(&[1]), false);
    assert_eq!(t2.very_slow_get(&[2]), false);
    assert_eq!(t2.very_slow_get(&[3]), true);

    let t3 = alg.reshape_join(&t1, 2);
    let t3 = alg.tensor_all(&t3);
    assert_eq!(*t3.shape(), Shape::new(vec![]));
    assert_eq!(t3.very_slow_get(&[]), false);
}

#[test]
fn shapes() {
    let shape = Shape::new(vec![2, 3, 4]);
    assert_eq!(shape.len(), 3);
    assert!(!shape.is_empty());
    assert_eq!(shape.size(), 24);
    assert!(!shape.is_rectangular(2));
    assert!(Shape::new(vec![3, 3]).is_rectangular(3));
    assert!(Shape::new(vec![]).is_rectangular(7));

    let (head, tail) = shape.split();
    assert_eq!(head, 2);
    assert_eq!(tail, Shape::new(vec![3, 4]));

    let spliced = shape.insert(1, &[7, 8]);
    assert_eq!(spliced, Shape::new(vec![2, 7, 8, 3, 4]));

    let mapping = shape.mapping(&[5, 1], 6);
    assert_eq!(mapping, vec![5, 1, 6]);

    assert_eq!(Shape::new(vec![]).size(), 1);
    assert_eq!(Shape::new(vec![3, 0, 5]).size(), 0);
}

#[test]
fn scalar_and_diagonal() {
    let mut alg = Boolean();
    let s = alg.scalar(true);
    assert_eq!(*s.shape(), Shape::new(vec![]));
    assert_eq!(s.very_slow_get(&[]), true);

    let d = alg.diagonal(3);
    assert_eq!(*d.shape(), Shape::new(vec![3, 3]));
    for i in 0..3 {
        for j in 0..3 {
            assert_eq!(d.very_slow_get(&[i, j]), i == j);
        }
    }
}

#[test]
fn elementwise_and_folds() {
    let mut alg = Boolean();
    let mut t1: Tensor<bool> = Tensor::constant(Shape::new(vec![2, 2]), false);
    t1.very_slow_set(&[0, 0], true);
    t1.very_slow_set(&[1, 1], true);
    let mut t2: Tensor<bool> = Tensor::constant(Shape::new(vec![2, 2]), false);
    t2.very_slow_set(&[0, 0], true);
    t2.very_slow_set(&[0, 1], true);

    let or = alg.tensor_or(&t1, &t2);
    assert_eq!(or.very_slow_get(&[0, 0]), true);
    assert_eq!(or.very_slow_get(&[1, 0]), false);
    assert_eq!(or.very_slow_get(&[0, 1]), true);
    assert_eq!(or.very_slow_get(&[1, 1]), true);

    let xor = alg.tensor_xor(&t1, &t2);
    assert_eq!(xor.very_slow_get(&[0, 0]), false);
    assert_eq!(xor.very_slow_get(&[1, 1]), true);

    let equ = alg.tensor_equ(&t1, &t2);
    assert_eq!(equ.very_slow_get(&[0, 0]), true);
    assert_eq!(equ.very_slow_get(&[1, 0]), true);
    assert_eq!(equ.very_slow_get(&[0, 1]), false);

    let imp = alg.tensor_imp(&t1, &t2);
    assert_eq!(imp.very_slow_get(&[1, 1]), false);
    assert_eq!(imp.very_slow_get(&[0, 1]), true);

    let any = alg.tensor_any(&t1);
    assert_eq!(any.very_slow_get(&[0]), true);
    assert_eq!(any.very_slow_get(&[1]), true);

    let sum = alg.tensor_sum(&or);
    assert_eq!(sum.very_slow_get(&[0]), true);
    assert_eq!(sum.very_slow_get(&[1]), false);
}

#[test]
fn polymer_broadcast_and_diagonal() {
    let mut alg = Boolean();
    let d = alg.diagonal(2);
    let wide = alg.polymer(&d, Shape::new(vec![2, 3, 2]), &[0, 2]);
    assert_eq!(*wide.shape(), Shape::new(vec![2, 3, 2]));
    for i in 0..2 {
        for j in 0..3 {
            for k in 0..2 {
                assert_eq!(wide.very_slow_get(&[i, j, k]), i == k);
            }
        }
    }
    let diag = alg.polymer(&d, Shape::new(vec![2]), &[0, 0]);
    assert_eq!(diag.very_slow_get(&[0]), true);
    assert_eq!(diag.very_slow_get(&[1]), true);
}

#[test]
fn tensor_solving() {
    let mut alg = Solver::new();
    let t = alg.tensor_add_variable(Shape::new(vec![3]));
    let nt = alg.tensor_not(&t);
    // one clause per cell: every cell of t must be true
    alg.tensor_add_clause(&[&t]);
    assert!(alg.tensor_find_model());
    let v = alg.tensor_get_value(&t);
    let w = alg.tensor_get_value(&nt);
    for i in 0..3 {
        assert!(v.very_slow_get(&[i]));
        assert!(!w.very_slow_get(&[i]));
    }
    // now also demand a negated cell: unsatisfiable
    alg.tensor_add_clause(&[&nt]);
    assert!(!alg.tensor_find_model());
}
