use strided::Strided;

/// Collect the elements a view addresses, without consuming it.
fn collect(s: &mut Strided, v: &mut Vec<u8>) -> Vec<u8> {
    let mut it = s.iter_mut();
    let mut out: Vec<u8> = Vec::new();
    while let Some(x) = it.next(v) {
        out.push(*x);
    }
    out
}

/// The checks of the original `get_mut` test: `get_mut` agrees with the
/// expected slice on every index, in and out of range, and `index_mut`
/// agrees on every valid index.
fn check_get_mut(s: &Strided, v: &mut Vec<u8>, expected: &[u8]) {
    for i in 0..expected.len() + 10 {
        let got = s.get_mut(v, i).map(|x| *x);
        let want = expected.get(i).copied();
        assert_eq!(got, want);
        if i < expected.len() {
            assert_eq!(*s.index_mut(v, i), expected[i]);
        }
    }
}

#[test]
fn reborrow() {
    let mut v: Vec<u8> = vec![1, 2, 3, 4, 5];
    let mut s = Strided::new(&v);
    let mut r = s.reborrow();
    assert_eq!(collect(&mut r, &mut v), vec![1, 2, 3, 4, 5]);
    // The original is untouched by the reborrow: same length, stride and
    // elements as before.
    assert_eq!(s.len(), 5);
    assert_eq!(s.stride(), 1);
    assert_eq!(collect(&mut s, &mut v), vec![1, 2, 3, 4, 5]);
}

#[test]
fn iter_mut() {
    let mut v: Vec<u8> = vec![1, 2, 3, 4, 5];
    let mut s = Strided::new(&v);
    assert_eq!(collect(&mut s, &mut v), vec![1, 2, 3, 4, 5]);
}

#[test]
fn get_mut() {
    let mut v: Vec<u8> = vec![1, 2, 3, 4, 5, 6];
    let base = Strided::new(&v);
    check_get_mut(&base, &mut v, &[1, 2, 3, 4, 5, 6]);
    let (l, r) = base.substrides2();
    check_get_mut(&l, &mut v, &[1, 3, 5]);
    check_get_mut(&r, &mut v, &[2, 4, 6]);
}

#[test]
fn substrides2_scenario() {
    // [1, 2, 3, 4, 5] splits alternately into [1, 3, 5] and [2, 4].
    let mut v: Vec<u8> = vec![1, 2, 3, 4, 5];
    let s = Strided::new(&v);
    let (mut l, mut r) = s.substrides2();
    assert_eq!(l.len(), 3);
    assert_eq!(r.len(), 2);
    assert_eq!(l.stride(), 2);
    assert_eq!(r.stride(), 2);
    assert_eq!(collect(&mut l, &mut v), vec![1, 3, 5]);
    assert_eq!(collect(&mut r, &mut v), vec![2, 4]);
}

#[test]
fn substrides_scenario() {
    // [1, ..., 7] split three ways gives [1, 4, 7], [2, 5] and [3, 6].
    let mut v: Vec<u8> = vec![1, 2, 3, 4, 5, 6, 7];
    let s = Strided::new(&v);
    let mut it = s.substrides(3);
    assert_eq!(it.size_hint(), (3, Some(3)));
    let mut c0 = it.next().unwrap();
    let mut c1 = it.next().unwrap();
    assert_eq!(it.size_hint(), (1, Some(1)));
    let mut c2 = it.next().unwrap();
    assert_eq!(it.size_hint(), (0, Some(0)));
    assert!(it.next().is_none());
    assert!(it.next().is_none());
    assert_eq!(collect(&mut c0, &mut v), vec![1, 4, 7]);
    assert_eq!(collect(&mut c1, &mut v), vec![2, 5]);
    assert_eq!(collect(&mut c2, &mut v), vec![3, 6]);
    assert_eq!(c0.stride(), 3);
    assert_eq!(c1.stride(), 3);
    assert_eq!(c2.stride(), 3);
    // Lengths sum to the original length.
    assert_eq!(c0.len() + c1.len() + c2.len(), 7);
}

#[test]
fn slice_scenario() {
    // [1, ..., 6] restricted to [2, 5) is [3, 4, 5].
    let mut v: Vec<u8> = vec![1, 2, 3, 4, 5, 6];
    let mut s = Strided::new(&v);
    let mut m = s.reborrow().slice(2, 5);
    assert_eq!(m.len(), 3);
    assert_eq!(collect(&mut m, &mut v), vec![3, 4, 5]);
    // split_at(2) gives [1, 2] and [3, 4, 5, 6].
    let (mut l, mut r) = s.split_at(2);
    assert_eq!(collect(&mut l, &mut v), vec![1, 2]);
    assert_eq!(collect(&mut r, &mut v), vec![3, 4, 5, 6]);
}

#[test]
fn slice_bounds() {
    let mut v: Vec<u8> = vec![1, 2, 3, 4];
    let mut s = Strided::new(&v);
    // Empty result at each end, and the full range.
    let mut e = s.reborrow().slice(2, 2);
    assert_eq!(e.len(), 0);
    assert_eq!(collect(&mut e, &mut v), Vec::<u8>::new());
    let mut whole = s.reborrow().slice(0, 4);
    assert_eq!(collect(&mut whole, &mut v), vec![1, 2, 3, 4]);
    let mut from = s.reborrow().slice_from(3);
    assert_eq!(collect(&mut from, &mut v), vec![4]);
    let mut to = s.reborrow().slice_to(0);
    assert_eq!(to.len(), 0);
    let (l, r) = s.reborrow().split_at(0);
    assert_eq!(l.len(), 0);
    assert_eq!(r.len(), 4);
    let (l, r) = s.split_at(4);
    assert_eq!(l.len(), 4);
    assert_eq!(r.len(), 0);
}

#[test]
fn substrides_short_views() {
    // Splitting never fails, length zero and one included.
    let empty: Vec<u8> = Vec::new();
    let (l, r) = Strided::new(&empty).substrides2();
    assert_eq!(l.len(), 0);
    assert_eq!(r.len(), 0);
    let mut one: Vec<u8> = vec![9];
    let (mut l, r) = Strided::new(&one).substrides2();
    assert_eq!(l.len(), 1);
    assert_eq!(r.len(), 0);
    assert_eq!(collect(&mut l, &mut one), vec![9]);
    // More children than elements: the late children are empty.
    let two: Vec<u8> = vec![7, 8];
    let mut it = Strided::new(&two).substrides(5);
    let mut lens: Vec<usize> = Vec::new();
    while let Some(c) = it.next() {
        lens.push(c.len());
    }
    assert_eq!(lens, vec![1, 1, 0, 0, 0]);
    // The n-way split of an empty or single-element view succeeds too.
    let mut it = Strided::new(&empty).substrides(3);
    let mut lens: Vec<usize> = Vec::new();
    while let Some(c) = it.next() {
        lens.push(c.len());
    }
    assert_eq!(lens, vec![0, 0, 0]);
    let mut it = Strided::new(&one).substrides(3);
    let mut lens: Vec<usize> = Vec::new();
    while let Some(c) = it.next() {
        lens.push(c.len());
    }
    assert_eq!(lens, vec![1, 0, 0]);
}

#[test]
fn writes_through_children() {
    // Writing through the two halves of an alternating split reaches
    // exactly the interleaved positions of the buffer.
    let mut v: Vec<u8> = vec![1, 2, 3, 4, 5, 6];
    let s = Strided::new(&v);
    let (l, mut r) = s.substrides2();
    *l.index_mut(&mut v, 1) = 30;
    if let Some(x) = r.get_mut(&mut v, 2) {
        *x = 60;
    }
    let mut it = r.iter_mut();
    let first = it.next(&mut v).unwrap();
    *first += 1;
    assert_eq!(v, vec![1, 3, 30, 4, 5, 60]);
}

#[test]
fn nested_splits() {
    let mut v: Vec<u8> = vec![0, 1, 2, 3, 4, 5, 6, 7];
    let s = Strided::new(&v);
    let (even, _odd) = s.substrides2();
    let (mut a, mut b) = even.substrides2();
    assert_eq!(a.stride(), 4);
    assert_eq!(b.stride(), 4);
    assert_eq!(collect(&mut a, &mut v), vec![0, 4]);
    assert_eq!(collect(&mut b, &mut v), vec![2, 6]);
}

#[test]
fn slice_of_strided_child() {
    // Slicing keeps the stride: the even half of [0..10) is
    // [0, 2, 4, 6, 8], and its middle three are [2, 4, 6].
    let mut v: Vec<u8> = vec![0, 1, 2, 3, 4, 5, 6, 7, 8, 9];
    let s = Strided::new(&v);
    let (even, _) = s.substrides2();
    let mut mid = even.slice(1, 4);
    assert_eq!(mid.len(), 3);
    assert_eq!(mid.stride(), 2);
    assert_eq!(collect(&mut mid, &mut v), vec![2, 4, 6]);
}

#[test]
fn as_mut_ptr_reports_first_position() {
    let v: Vec<u8> = vec![1, 2, 3, 4, 5];
    let mut s = Strided::new(&v);
    assert_eq!(s.as_mut_ptr(), 0);
    let mut tail = s.slice_from(2);
    assert_eq!(tail.as_mut_ptr(), 2);
    let (_, mut odd) = tail.substrides2();
    assert_eq!(odd.as_mut_ptr(), 3);
}

#[test]
fn read_only_view() {
    let v: Vec<u8> = vec![4, 5, 6];
    let s = Strided::new(&v);
    let imm = s.as_imm();
    assert_eq!(imm.len(), 3);
    assert_eq!(imm.stride(), 1);
    assert_eq!(imm.get(&v, 0).copied(), Some(4));
    assert_eq!(imm.get(&v, 2).copied(), Some(6));
    assert_eq!(imm.get(&v, 3), None);
    // The mutable view stays usable after the conversion.
    assert_eq!(s.len(), 3);
    let fresh = strided::imm::Strided::new(&v);
    assert_eq!(fresh.get(&v, 1).copied(), Some(5));
}

#[test]
fn into_iter_consumes() {
    let mut v: Vec<u8> = vec![2, 4, 6];
    let s = Strided::new(&v);
    let mut it = s.into_iter();
    assert_eq!(it.size_hint(), (3, Some(3)));
    assert_eq!(it.next(&mut v).map(|x| *x), Some(2));
    assert_eq!(it.next(&mut v).map(|x| *x), Some(4));
    assert_eq!(it.size_hint(), (1, Some(1)));
    assert_eq!(it.next(&mut v).map(|x| *x), Some(6));
    assert_eq!(it.size_hint(), (0, Some(0)));
    assert!(it.next(&mut v).is_none());
    assert!(it.next(&mut v).is_none());
}
