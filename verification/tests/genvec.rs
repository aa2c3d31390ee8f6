use uasat::genvec::{GenVec, GenVector, Unit, UnitVec, Wrapper};

#[test]
fn resize() {
    let mut v1: Wrapper<Vec<bool>> = GenVector::new();
    let mut v2: GenVec<bool> = GenVector::new();
    let mut v3: GenVec<Unit> = GenVector::new();

    for i in 0..50 {
        let b = i % 2 == 0;

        for _ in 0..90 {
            v1.push(b);
            v3.push(Unit);
            assert_eq!(v1.len(), v3.len());
        }
        v2.resize(v2.len() + 90, b);

        assert_eq!(v1.len(), v2.len());
        for j in 0..v1.len() {
            assert_eq!(v1.get(j), v2.get(j));
        }
    }

    for _ in 0..50 {
        for _ in 0..77 {
            v1.pop();
        }
        v2.resize(v2.len() - 77, false);

        assert_eq!(v1.len(), v2.len());
        for j in 0..v1.len() {
            assert_eq!(v1.get(j), v2.get(j));
        }
    }
}

#[test]
fn iters() {
    let e1 = vec![true, false, true];
    let e2 = e1.clone();
    let mut v1: GenVec<bool> = GenVector::new();
    for b in e1 {
        v1.push(b);
    }
    let mut v2: GenVec<bool> = GenVector::new();
    for b in e2 {
        v2.push(b);
    }
    assert_eq!(v1, v2);

    assert_eq!(v1.get(1), false);
    assert_eq!(v1.get(2), true);
    assert_eq!(v1.len(), 3);

    let e1 = [true, false];
    let mut v1: GenVec<bool> = GenVector::new();
    for b in e1.iter() {
        v1.push(*b);
    }
    let mut v2: GenVec<bool> = GenVector::new();
    for b in &e1 {
        v2.push(*b);
    }
    assert_eq!(v1, v2);

    v2.clear();
    for j in 0..100 {
        v2.push(j % 5 == 0 || j % 3 == 0);
    }
    assert_eq!(v2.len(), 100);
    for j in 0..100 {
        let b1 = v2.get_unchecked(j);
        let b2 = v2.get(j);
        let b3 = j % 5 == 0 || j % 3 == 0;
        assert_eq!(b1, b3);
        assert_eq!(b2, b3);

        let b4 = j % 7 == 0;
        v2.set_unchecked(j, b4);
        assert_eq!(v2.get(j), b4);
    }
}

#[test]
fn split_then_concat() {
    let mut v: Wrapper<Vec<usize>> = GenVector::new();
    for i in 0..7 {
        v.push(10 * i);
    }
    let parts = v.split(2);
    assert_eq!(parts.len(), 3);
    for (p, part) in parts.iter().enumerate() {
        assert_eq!(part.len(), 2);
        assert_eq!(part.get(0), 10 * (2 * p));
        assert_eq!(part.get(1), 10 * (2 * p + 1));
    }
    let w: Wrapper<Vec<usize>> = GenVector::concat(parts);
    assert_eq!(w.len(), 6);
    for i in 0..6 {
        assert_eq!(w.get(i), 10 * i);
    }

    let empty: GenVec<bool> = GenVector::new();
    let parts = empty.split(0);
    assert_eq!(parts.len(), 0);
}

#[test]
fn unit_vectors() {
    let mut v: UnitVec = GenVector::new();
    assert!(v.is_empty());
    v.resize(5, Unit);
    assert_eq!(v.len(), 5);
    assert_eq!(v.pop(), Some(Unit));
    assert_eq!(v.len(), 4);
    let mut w: UnitVec = GenVector::from_elem(Unit);
    v.append(&mut w);
    assert_eq!(v.len(), 5);
    assert_eq!(w.len(), 0);
    v.truncate(2);
    assert_eq!(v.len(), 2);
    assert!(v.capacity() >= v.len());
}

#[test]
fn bit_vectors_basic() {
    let mut v: GenVec<bool> = GenVector::with_capacity(4);
    v.push(true);
    v.push(false);
    v.push(true);
    assert_eq!(v.len(), 3);
    assert_eq!(v.get(0), true);
    assert_eq!(v.get(1), false);
    v.set(1, true);
    assert_eq!(v.get(1), true);
    assert_eq!(v.pop(), Some(true));
    let mut w: GenVec<bool> = GenVector::new();
    w.push(false);
    v.append(&mut w);
    assert_eq!(v.len(), 3);
    assert_eq!(v.get(2), false);
    assert!(v.capacity() >= v.len());
    v.reserve(100);
    assert!(v.capacity() >= 102);
    v.clear();
    assert!(v.is_empty());
}
