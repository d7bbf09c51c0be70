use lender::{from_vec, zip, Chain, DoubleEndedLender, FallibleLender, Lender, Lending, NonFallibleAdapter};

fn drain<L: Lender + for<'all> Lending<'all, Lend = i32>>(mut l: L) -> Vec<i32> {
    let mut out = Vec::new();
    while let Some(x) = l.next() {
        out.push(x);
    }
    out
}

#[test]
fn law_exhausted_stays_exhausted_on_values() {
    let mut l = from_vec(vec![1]).filter(|x: &i32| *x > 5);
    assert_eq!(l.next(), None);
    assert_eq!(l.next(), None);
    let mut f = from_vec(Vec::<Result<i32, ()>>::new()).convert::<()>();
    assert_eq!(f.next(), Ok(None));
    assert_eq!(f.next(), Ok(None));
}

#[test]
fn law_nth_is_advance_then_next_on_values() {
    let mut a = from_vec(vec![1, 2, 3, 4]);
    let mut b = from_vec(vec![1, 2, 3, 4]);
    assert_eq!(a.advance_by(2), Ok(()));
    assert_eq!(a.next(), b.nth(2));
    assert_eq!(drain(a), drain(b));
}

#[test]
fn law_rev_rev_on_values() {
    assert_eq!(drain(from_vec(vec![3, 1, 2]).rev().rev()), vec![3, 1, 2]);
}

#[test]
fn law_fuse_on_values() {
    assert_eq!(drain(from_vec(vec![3, 1]).fuse().fuse()), vec![3, 1]);
}

#[test]
fn law_take_skip_on_values() {
    let v = vec![1, 2, 3, 4, 5];
    for n in 0..7 {
        let mut joined = drain(from_vec(v.clone()).take(n));
        joined.extend(drain(from_vec(v.clone()).skip(n)));
        assert_eq!(joined, v);
    }
}

#[test]
fn law_take_take_on_values() {
    assert_eq!(drain(from_vec(vec![1, 2, 3, 4]).take(3).take(2)), drain(from_vec(vec![1, 2, 3, 4]).take(2)));
}

#[test]
fn law_skip_skip_on_values() {
    assert_eq!(drain(from_vec(vec![1, 2, 3, 4]).skip(1).skip(2)), drain(from_vec(vec![1, 2, 3, 4]).skip(3)));
}

#[test]
fn law_chain_on_values() {
    assert_eq!(drain(Chain::new(from_vec(vec![1]), from_vec(vec![2, 3]))), vec![1, 2, 3]);
}

#[test]
fn law_zip_on_values() {
    let mut z = zip(from_vec(vec![1, 2]), from_vec(vec!['a', 'b', 'c']));
    assert_eq!(z.next(), Some((1, 'a')));
    assert_eq!(z.next(), Some((2, 'b')));
    assert_eq!(z.next(), None);
}

#[test]
fn law_enumerate_on_values() {
    let mut e = from_vec(vec![9, 8]).enumerate();
    assert_eq!(e.next(), Some((0, 9)));
    assert_eq!(e.next(), Some((1, 8)));
}

#[test]
fn law_step_by_on_values() {
    let v: Vec<i32> = (0..10).collect();
    assert_eq!(drain(from_vec(v.clone()).step_by(4)), vec![0, 4, 8]);
    assert_eq!(drain(from_vec(v).step_by(1)).len(), 10);
}

#[test]
fn law_map_on_values() {
    assert_eq!(drain(from_vec(vec![1, 2]).map(|x: i32| x - 1)), vec![0, 1]);
}

#[test]
fn law_filter_on_values() {
    let kept = drain(from_vec(vec![5, 10, 15]).filter(|x: &i32| *x >= 10));
    assert!(kept.len() <= 3);
    assert!(kept.iter().all(|x| *x >= 10));
}

#[test]
fn law_take_while_skip_while_on_values() {
    let mut joined = drain(from_vec(vec![2, 4, 5, 6]).take_while(|x: &i32| *x % 2 == 0));
    joined.extend(drain(from_vec(vec![2, 4, 5, 6]).skip_while(|x: &i32| *x % 2 == 0)));
    assert_eq!(joined, vec![2, 4, 5, 6]);
}

#[test]
fn law_into_fallible_on_values() {
    assert_eq!(from_vec(vec![1, 2, 3]).into_fallible().count(), Ok(3));
}

#[test]
fn law_fallible_round_trip_on_values() {
    assert_eq!(drain(NonFallibleAdapter::new(from_vec(vec![7, 8]).into_fallible())), vec![7, 8]);
}

#[test]
fn law_non_fallible_on_values() {
    let n = NonFallibleAdapter::new(from_vec(vec![Ok(1), Ok(2), Err(0), Ok(3)]).convert::<i32>());
    assert_eq!(drain(n), vec![1, 2]);
}

#[test]
fn law_map_err_on_values() {
    let m = from_vec(vec![Ok(1), Err(2), Ok(3)]).convert::<i32>().map_err(|e: i32| -e);
    assert_eq!(drain(NonFallibleAdapter::new(m)), vec![1]);
}

#[test]
fn law_intersperse_on_values() {
    let out = drain(from_vec(vec![4, 5, 6, 7]).intersperse(0));
    assert_eq!(out.len(), 7);
    for (i, x) in out.iter().enumerate() {
        if i % 2 == 0 {
            assert_eq!(*x, [4, 5, 6, 7][i / 2]);
        } else {
            assert_eq!(*x, 0);
        }
    }
    assert!(drain(from_vec(Vec::<i32>::new()).intersperse(0)).is_empty());
}

#[test]
fn law_try_shunt_on_values() {
    let v = vec![Ok(1), Ok(2), Err(9), Ok(3)];
    let a = drain(lender::TryShunt::new(from_vec(v.clone())));
    let b = drain(NonFallibleAdapter::new(from_vec(v).convert::<i32>()));
    assert_eq!(a, b);
    assert_eq!(a, vec![1, 2]);
}

#[test]
fn law_peek_then_next_on_values() {
    let mut p = from_vec(vec![7, 8]).peekable();
    let seen = p.peek().copied();
    assert_eq!(p.next(), seen);
    let seen = p.peek().copied();
    assert_eq!(p.next(), seen);
    assert_eq!(p.peek(), None);
    assert_eq!(p.next(), None);
}

#[test]
fn law_nth_is_repeated_next_on_values() {
    let mut a = from_vec(vec![10, 20, 30, 40, 50]).step_by(2);
    let mut b = from_vec(vec![10, 20, 30, 40, 50]).step_by(2);
    let mut last = None;
    for _ in 0..2 {
        last = a.next();
    }
    assert_eq!(last, b.nth(1));
    assert_eq!(last, Some(30));
    assert_eq!(drain(a), drain(b));
    let mut c = from_vec(vec![1, 2]);
    let mut d = from_vec(vec![1, 2]);
    for _ in 0..4 {
        last = c.next();
    }
    assert_eq!(last, d.nth(3));
    assert_eq!(last, None);
}

#[test]
fn law_into_fallible_step_on_values() {
    let mut plain = from_vec(vec![7, 8]);
    let mut fallible = from_vec(vec![7, 8]).into_fallible();
    for _ in 0..3 {
        let r = plain.next();
        assert_eq!(fallible.next(), Ok::<Option<i32>, core::convert::Infallible>(r));
    }
}

#[test]
fn law_flat_map_is_map_flatten_on_values() {
    let a = drain(from_vec(vec![1, 0, 2]).flat_map(|n: i32| from_vec((0..n).collect::<Vec<i32>>())));
    let b = drain(from_vec(vec![1, 0, 2]).map(|n: i32| from_vec((0..n).collect::<Vec<i32>>())).flatten());
    assert_eq!(a, b);
    assert_eq!(a, vec![0, 0, 1]);
}
