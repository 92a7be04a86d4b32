use bfopt::patch_iter::PatchIterMut;

#[test]
fn walk_hands_out_each_element() {
    let mut v = vec![1, 2, 3];
    let mut seen = vec![];
    {
        let mut it = PatchIterMut::new(&mut v);
        while let Some(x) = it.next() {
            seen.push(*x);
            *x *= 10;
        }
        assert!(it.next().is_none());
    }
    assert_eq!(seen, vec![1, 2, 3]);
    assert_eq!(v, vec![10, 20, 30]);
}

#[test]
fn patch_replaces_current_and_goes_on() {
    let mut v = vec![1, 2, 3, 4];
    let mut seen = vec![];
    {
        let mut it = PatchIterMut::new(&mut v);
        while let Some(x) = it.next() {
            let val = *x;
            seen.push(val);
            if val % 2 == 0 {
                it.patch_elem(vec![val, val]);
            }
        }
    }
    assert_eq!(seen, vec![1, 2, 3, 4]);
    assert_eq!(v, vec![1, 2, 2, 3, 4, 4]);
}

#[test]
fn patch_with_nothing_removes() {
    let mut v = vec![5, 6, 7];
    {
        let mut it = PatchIterMut::new(&mut v);
        it.next();
        it.next();
        assert_eq!(it.curr_idx(), 1);
        it.patch_elem(vec![]);
        assert_eq!(it.next().copied(), Some(7));
    }
    assert_eq!(v, vec![5, 7]);
}

#[test]
fn get_again_returns_last_element() {
    let mut v = vec!['a', 'b'];
    {
        let mut it = PatchIterMut::new(&mut v);
        it.next();
        it.next();
        assert_eq!(it.curr_idx(), 1);
        *it.get_again() = 'z';
        assert_eq!(*it.get_again(), 'z');
    }
    assert_eq!(v, vec!['a', 'z']);
}

#[test]
fn walk_stays_exhausted() {
    let mut v = vec![1];
    let mut it = PatchIterMut::new(&mut v);
    assert_eq!(it.next().copied(), Some(1));
    assert!(!it.exhausted);
    assert!(it.next().is_none());
    assert!(it.exhausted);
    assert!(it.next().is_none());
    assert!(it.exhausted);
}

#[test]
fn patch_in_the_middle_of_a_walk() {
    let mut v = vec![1, 2, 3];
    {
        let mut it = PatchIterMut::new(&mut v);
        it.next();
        it.next();
        it.patch_elem(vec![7]);
        assert_eq!(it.next().copied(), Some(3));
        assert!(it.next().is_none());
    }
    assert_eq!(v, vec![1, 7, 3]);
}
