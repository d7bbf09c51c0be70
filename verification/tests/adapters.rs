use core::ops::ControlFlow;

use lender::{
    from_vec, lend_vec, once, zip, Chain, DoubleEndedLender, ExactSizeLender, Lender, Lending,
};

fn drain<L: Lender + for<'all> Lending<'all, Lend = i32>>(mut l: L) -> Vec<i32> {
    let mut out = Vec::new();
    while let Some(x) = l.next() {
        out.push(x);
    }
    out
}

#[test]
fn take_hands_out_a_prefix() {
    assert_eq!(drain(from_vec(vec![1, 2, 3, 4]).take(2)), vec![1, 2]);
    assert_eq!(drain(from_vec(vec![1, 2]).take(5)), vec![1, 2]);
    assert_eq!(drain(from_vec(vec![1, 2]).take(0)), Vec::<i32>::new());
}

#[test]
fn take_from_the_back() {
    let mut t = from_vec(vec![1, 2, 3, 4, 5]).take(3);
    assert_eq!(t.next_back(), Some(3));
    assert_eq!(t.len(), 2);
    assert_eq!(t.nth_back(1), Some(1));
    assert_eq!(t.next(), None);
}

#[test]
fn skip_hands_out_a_suffix() {
    assert_eq!(drain(from_vec(vec![1, 2, 3, 4]).skip(2)), vec![3, 4]);
    assert_eq!(drain(from_vec(vec![1, 2]).skip(5)), Vec::<i32>::new());
    let mut s = from_vec(vec![1, 2, 3, 4]).skip(1);
    assert_eq!(s.next_back(), Some(4));
    assert_eq!(s.len(), 2);
}

#[test]
fn take_and_skip_split_the_lends() {
    let a = drain(from_vec(vec![5, 6, 7, 8, 9]).take(2));
    let b = drain(from_vec(vec![5, 6, 7, 8, 9]).skip(2));
    assert_eq!([a, b].concat(), vec![5, 6, 7, 8, 9]);
}

#[test]
fn step_by_hands_out_every_kth() {
    assert_eq!(drain(from_vec(vec![0, 1, 2, 3, 4, 5, 6]).step_by(3)), vec![0, 3, 6]);
    assert_eq!(from_vec(vec![0, 1, 2, 3, 4, 5, 6]).step_by(3).len(), 3);
    assert_eq!(drain(from_vec(vec![0, 1, 2, 3, 4, 5]).step_by(2).rev()), vec![4, 2, 0]);
}

#[test]
fn step_by_nth_skips_whole_steps() {
    let mut s = from_vec(vec![0, 1, 2, 3, 4]).step_by(2);
    assert_eq!(s.nth(1), Some(2));
    assert_eq!(s.next(), Some(4));
    assert_eq!(s.next(), None);
    let mut t = from_vec(vec![0, 1, 2, 3, 4, 5, 6, 7]).step_by(3);
    assert_eq!(t.nth_back(1), Some(3));
    assert_eq!(t.next_back(), Some(0));
}

#[test]
fn step_by_folds_both_ways() {
    let sum = from_vec(vec![1, 2, 3, 4, 5]).step_by(2).fold(0, |acc, x| acc + x);
    assert_eq!(sum, 9);
    let order = from_vec(vec![1, 2, 3, 4, 5]).step_by(2).rfold(Vec::new(), |mut acc, x| {
        acc.push(x);
        acc
    });
    assert_eq!(order, vec![5, 3, 1]);
}

#[test]
fn chain_hands_out_both_in_turn() {
    let c = Chain::new(from_vec(vec![1, 2]), from_vec(vec![3]));
    assert_eq!(drain(c), vec![1, 2, 3]);
    let mut c = Chain::new(from_vec(vec![1, 2]), from_vec(vec![3, 4]));
    assert_eq!(c.next_back(), Some(4));
    assert_eq!(c.nth(1), Some(2));
    assert_eq!(c.next(), Some(3));
    assert_eq!(c.next(), None);
}

#[test]
fn zip_stops_with_the_shorter() {
    let mut z = zip(from_vec(vec![1, 2, 3]), from_vec(vec![10, 20]));
    assert_eq!(z.next(), Some((1, 10)));
    assert_eq!(z.next(), Some((2, 20)));
    assert_eq!(z.next(), None);
    assert_eq!(from_vec(vec![1, 2, 3]).zip_len_check(), 3);
}

trait LenCheck {
    fn zip_len_check(self) -> usize;
}

impl<L: ExactSizeLender> LenCheck for L {
    fn zip_len_check(self) -> usize {
        self.len()
    }
}

#[test]
fn enumerate_counts_positions() {
    let mut e = from_vec(vec![7, 8, 9]).enumerate();
    assert_eq!(e.next(), Some((0, 7)));
    assert_eq!(e.next_back(), Some((2, 9)));
    assert_eq!(e.next(), Some((1, 8)));
    assert_eq!(e.next(), None);
}

#[test]
fn fuse_stays_exhausted() {
    let mut f = from_vec(vec![1]).fuse();
    assert_eq!(f.next(), Some(1));
    assert_eq!(f.next(), None);
    assert_eq!(f.next(), None);
}

#[test]
fn rev_runs_backwards_and_rev_rev_forwards() {
    assert_eq!(drain(from_vec(vec![1, 2, 3]).rev()), vec![3, 2, 1]);
    assert_eq!(drain(from_vec(vec![1, 2, 3]).rev().rev()), vec![1, 2, 3]);
}

#[test]
fn map_passes_lends_through() {
    assert_eq!(drain(from_vec(vec![1, 2, 3]).map(|x: i32| x * 10)), vec![10, 20, 30]);
    let mut m = from_vec(vec![1, 2, 3]).map(|x: i32| x + 1);
    assert_eq!(m.next_back(), Some(4));
    assert_eq!(m.len(), 2);
}

#[test]
fn filter_keeps_accepted_lends() {
    assert_eq!(drain(from_vec(vec![1, 2, 3, 4, 5, 6]).filter(|x: &i32| *x % 2 == 0)), vec![2, 4, 6]);
    let mut f = from_vec(vec![1, 2, 3, 4, 5]).filter(|x: &i32| *x % 2 == 1);
    assert_eq!(f.next_back(), Some(5));
    assert_eq!(f.count(), 2);
}

#[test]
fn filter_map_keeps_the_somes() {
    let l = from_vec(vec![1, 2, 3, 4]).filter_map(|x: i32| if x % 2 == 0 { Some(x * 100) } else { None });
    assert_eq!(drain(l), vec![200, 400]);
    let mut l = from_vec(vec![1, 2, 3, 4]).filter_map(|x: i32| if x < 3 { Some(x) } else { None });
    assert_eq!(l.next_back(), Some(2));
}

#[test]
fn map_while_stops_at_the_first_none() {
    let mut l = from_vec(vec![1, 2, -1, 3]).map_while(|x: i32| if x > 0 { Some(x * 2) } else { None });
    assert_eq!(l.next(), Some(2));
    assert_eq!(l.next(), Some(4));
    assert_eq!(l.next(), None);
    assert_eq!(l.next(), None);
}

#[test]
fn take_while_and_skip_while_split_the_lends() {
    let a = drain(from_vec(vec![1, 2, 5, 1, 2]).take_while(|x: &i32| *x < 3));
    let b = drain(from_vec(vec![1, 2, 5, 1, 2]).skip_while(|x: &i32| *x < 3));
    assert_eq!(a, vec![1, 2]);
    assert_eq!(b, vec![5, 1, 2]);
}

#[test]
fn take_while_folds_up_to_the_rejected_lend() {
    let mut t = from_vec(vec![1, 2, 3, 10, 4]).take_while(|x: &i32| *x < 5);
    let r: ControlFlow<i32, i32> = t.try_fold(0, |acc, x| ControlFlow::Continue(acc + x));
    assert_eq!(r, ControlFlow::Continue(6));
    assert_eq!(t.next(), None);
    let sum = from_vec(vec![1, 2, 3, 10, 4]).take_while(|x: &i32| *x < 5).fold(0, |acc, x| acc + x);
    assert_eq!(sum, 6);
}

#[test]
fn skip_while_folds_from_the_rejected_lend() {
    let mut s = from_vec(vec![1, 2, 7, 1]).skip_while(|x: &i32| *x < 5);
    let r: ControlFlow<i32, i32> = s.try_fold(0, |acc, x| if x == 1 { ControlFlow::Break(acc) } else { ControlFlow::Continue(acc + x) });
    assert_eq!(r, ControlFlow::Break(7));
    let sum = from_vec(vec![1, 2, 7, 1]).skip_while(|x: &i32| *x < 5).fold(0, |acc, x| acc + x);
    assert_eq!(sum, 8);
}

#[test]
fn inspect_sees_every_lend() {
    let l = from_vec(vec![1, 2, 3]).inspect(|x: &i32| assert!(*x > 0));
    assert_eq!(drain(l), vec![1, 2, 3]);
}

#[test]
fn flatten_concatenates_lenders() {
    let l = from_vec(vec![from_vec(vec![1, 2]), from_vec(vec![]), from_vec(vec![3])]).flatten();
    assert_eq!(drain(l), vec![1, 2, 3]);
}

#[test]
fn default_methods_follow_the_lends() {
    let mut l = from_vec(vec![1, 2, 3, 4, 5]);
    assert_eq!(l.advance_by(2), Ok(()));
    assert_eq!(l.nth(1), Some(4));
    assert_eq!(l.advance_by(3), Err(2));
    assert_eq!(l.next(), None);
    assert_eq!(from_vec(vec![1, 2, 3]).count(), 3);
    let mut b = from_vec(vec![1, 2, 3, 4]);
    assert_eq!(b.advance_back_by(1), Ok(()));
    assert_eq!(b.nth_back(1), Some(2));
    assert_eq!(b.advance_back_by(4), Err(3));
    let r: ControlFlow<i32, i32> = from_vec(vec![1, 2, 3]).try_fold(0, |acc, x| ControlFlow::Continue(acc + x));
    assert_eq!(r, ControlFlow::Continue(6));
}

#[test]
fn once_and_empty() {
    assert_eq!(drain(once(5)), vec![5]);
    assert_eq!(lender::empty::<i32>().next(), None);
}

#[test]
fn iter_and_map_into_iter_collect() {
    assert_eq!(from_vec(vec![1, 2, 3]).iter().into_vec(), vec![1, 2, 3]);
    let v = from_vec(vec![1, 2, 3]).map_into_iter(|x: i32| x.to_string()).into_vec();
    assert_eq!(v, vec!["1".to_string(), "2".to_string(), "3".to_string()]);
}

#[test]
fn copied_and_cloned_turn_lends_into_values() {
    let mut c = lend_vec(vec![4, 5]).copied();
    assert_eq!(c.next(), Some(4));
    assert_eq!(c.len(), 1);
    assert_eq!(c.next(), Some(5));
    assert_eq!(c.next(), None);
    assert_eq!(lend_vec(vec![1, 2, 3]).copied().into_vec(), vec![1, 2, 3]);
    let mut d = lend_vec(vec![String::from("a")]).cloned();
    assert_eq!(d.next(), Some(String::from("a")));
    assert_eq!(d.next(), None);
}

#[test]
fn owned_makes_owned_values() {
    let mut o = from_vec(vec![String::from("x"), String::from("y")]).owned();
    assert_eq!(o.next(), Some(String::from("x")));
    assert_eq!(o.len(), 1);
    assert_eq!(o.next(), Some(String::from("y")));
    assert_eq!(o.next(), None);
}

#[test]
fn try_shunt_stops_at_the_first_err() {
    let mut t = lender::TryShunt::new(from_vec(vec![Ok(1), Ok(2), Err("x"), Ok(3)]));
    assert_eq!(t.next(), Some(1));
    assert_eq!(t.next(), Some(2));
    assert_eq!(t.next(), None);
    assert_eq!(t.next(), None);
    assert_eq!(t.into_parts().1, Some("x"));
}

#[test]
fn unzip_splits_pairs() {
    let (a, b) = lender::unzip(from_vec(vec![(1, 'a'), (2, 'b')]));
    assert_eq!(a, vec![1, 2]);
    assert_eq!(b, vec!['a', 'b']);
    let (c, d): (Vec<i32>, Vec<char>) = lender::unzip(from_vec(vec![]));
    assert!(c.is_empty() && d.is_empty());
}

#[test]
fn fallible_unzip_stops_at_the_first_error() {
    let ok = lender::fallible_unzip(from_vec(vec![Ok((1, 'a')), Ok((2, 'b'))]).convert::<&str>());
    assert_eq!(ok, Ok((vec![1, 2], vec!['a', 'b'])));
    let bad = lender::fallible_unzip(from_vec(vec![Ok((1, 'a')), Err("no"), Ok((2, 'b'))]).convert::<&str>());
    assert_eq!(bad, Err("no"));
}

#[test]
fn chunk_takes_from_a_borrowed_lender() {
    let mut l = from_vec(vec![1, 2, 3, 4, 5]);
    let mut c = lender::Chunk::new(&mut l, 2);
    assert_eq!(c.next(), Some(1));
    assert_eq!(c.size_hint(), (1, Some(1)));
    assert_eq!(c.next(), Some(2));
    assert_eq!(c.next(), None);
    assert_eq!(l.next(), Some(3));
    let mut c2 = lender::Chunk::new(&mut l, 5);
    assert_eq!(c2.nth(1), Some(5));
    assert_eq!(c2.next(), None);
    let mut m = from_vec(vec![1, 2, 3, 4]);
    assert_eq!(lender::Chunk::new(&mut m, 3).fold(0, |a, x| a + x), 6);
    assert_eq!(lender::Chunk::new(&mut m, 3).count(), 1);
}

#[test]
fn find_last_and_rfind_on_owned_lends() {
    let mut l = from_vec(vec![1, 4, 6, 7, 8]);
    assert_eq!(l.find(|x: &i32| *x % 2 == 0), Some(4));
    assert_eq!(l.next(), Some(6));
    assert_eq!(l.rfind(|x: &i32| *x < 8), Some(7));
    assert_eq!(l.next(), None);
    assert_eq!(l.find(|_x: &i32| true), None);
    let mut k = from_vec(vec![1, 2, 3, 4]);
    assert_eq!(k.rfind(|x: &i32| *x % 2 == 1), Some(3));
    assert_eq!(k.next(), Some(1));
    let mut m = from_vec(vec![1, 2, 3]);
    assert_eq!(m.find(|x: &i32| *x > 5), None);
    assert_eq!(m.next(), None);
    let mut n = from_vec(vec![1, 2, 3]).rev();
    assert_eq!(n.last(), Some(1));
    assert_eq!(n.next(), None);
    let mut e = from_vec(Vec::<i32>::new());
    assert_eq!(e.last(), None);
}

#[test]
fn zip_pairs_borrowed_lends() {
    let mut zipped = zip(lend_vec(vec![1, 2, 3]), lend_vec(vec![4, 5, 6]));
    assert_eq!(zipped.next(), Some((&1, &4)));
    assert_eq!(zipped.next(), Some((&2, &5)));
    assert_eq!(zipped.next(), Some((&3, &6)));
    assert_eq!(zipped.next(), None);
}

#[test]
fn zip_into_inner_gives_back_both_lenders() {
    let mut zipped = zip(lend_vec(vec![1, 2, 3]), lend_vec(vec![4, 5, 6]));
    assert_eq!(zipped.next(), Some((&1, &4)));
    let (mut a, mut b) = zipped.into_inner();
    assert_eq!(a.next(), Some(&2));
    assert_eq!(b.next(), Some(&5));
}

#[test]
fn size_hints_are_the_computed_bounds() {
    assert_eq!(from_vec(vec![1, 2, 3, 4, 5]).take(2).size_hint(), (2, Some(2)));
    assert_eq!(from_vec(vec![1, 2]).take(5).size_hint(), (2, Some(2)));
    assert_eq!(from_vec(vec![1, 2, 3]).skip(5).size_hint(), (0, Some(0)));
    assert_eq!(from_vec(vec![1, 2, 3, 4, 5]).step_by(2).size_hint(), (3, Some(3)));
    assert_eq!(from_vec(vec![1, 2, 3]).filter(|x: &i32| *x > 1).size_hint(), (0, Some(3)));
    assert_eq!(Chain::new(from_vec(vec![1]), from_vec(vec![2, 3])).size_hint(), (3, Some(3)));
    assert_eq!(zip(from_vec(vec![1, 2, 3]), from_vec(vec![4])).size_hint(), (1, Some(1)));
    assert_eq!(once(1).size_hint(), (1, Some(1)));
    assert_eq!(lend_vec(vec![1, 2]).size_hint(), (2, Some(2)));
}

#[test]
fn chunky_counts_chunks_rounding_up() {
    let c = lender::Chunky::new(from_vec(vec![1, 2, 3, 4, 5]), 2);
    assert_eq!(c.size_hint(), (3, Some(3)));
    assert_eq!(c.count(), 3);
    let c = lender::Chunky::new(from_vec(vec![1, 2, 3, 4]), 2);
    assert_eq!(c.count(), 2);
    let c = lender::Chunky::new(from_vec(Vec::<i32>::new()), 3);
    assert_eq!(c.count(), 0);
}

#[test]
fn chunky_hands_out_consecutive_chunks() {
    let mut c = lender::Chunky::new(from_vec(vec![1, 2, 3, 4, 5]), 2);
    let mut first = c.next().unwrap();
    assert_eq!(first.next(), Some(1));
    assert_eq!(first.next(), Some(2));
    assert_eq!(first.next(), None);
    let mut second = c.next().unwrap();
    assert_eq!(second.next(), Some(3));
    assert_eq!(second.next(), Some(4));
    assert_eq!(second.next(), None);
    let mut third = c.next().unwrap();
    assert_eq!(third.next(), Some(5));
    assert_eq!(third.next(), None);
    assert!(c.next().is_none());
    assert_eq!(c.size_hint(), (0, Some(0)));
}

#[test]
fn chunky_partial_chunk_carries_over() {
    let mut c = lender::Chunky::new(from_vec(vec![1, 2, 3, 4, 5, 6]), 2);
    let mut first = c.next().unwrap();
    assert_eq!(first.next(), Some(1));
    let mut second = c.next().unwrap();
    assert_eq!(second.next(), Some(2));
    assert_eq!(second.next(), Some(3));
    assert_eq!(second.next(), None);
    let (mut inner, size) = c.into_parts();
    assert_eq!(size, 2);
    assert_eq!(inner.next(), Some(4));
}

#[test]
fn chunky_nth_skips_whole_chunks() {
    let mut c = lender::Chunky::new(from_vec(vec![1, 2, 3, 4, 5, 6, 7]), 2);
    let mut chunk = c.nth(1).unwrap();
    assert_eq!(chunk.next(), Some(3));
    assert_eq!(chunk.next(), Some(4));
    assert_eq!(chunk.next(), None);
    assert_eq!(c.size_hint(), (2, Some(2)));
    assert!(c.nth(5).is_none());
    assert_eq!(c.size_hint(), (0, Some(0)));
    let mut inner = c.into_inner();
    assert_eq!(inner.next(), None);
}

#[test]
fn intersperse_clones_a_separator_that_is_not_copy() {
    let mut l = from_vec(vec![String::from("a"), String::from("b")]).intersperse(String::from(","));
    assert_eq!(l.next(), Some(String::from("a")));
    assert_eq!(l.next(), Some(String::from(",")));
    assert_eq!(l.next(), Some(String::from("b")));
    assert_eq!(l.next(), None);
}

#[test]
fn cycle_starts_over_when_drained() {
    let mut c = lender::Cycle::new(from_vec(vec![1, 2]));
    assert_eq!(c.size_hint(), (usize::MAX, None));
    assert_eq!(c.next(), Some(1));
    assert_eq!(c.next(), Some(2));
    assert_eq!(c.next(), Some(1));
    assert_eq!(c.next(), Some(2));
    assert_eq!(c.advance_by(3), Ok(()));
    assert_eq!(c.next(), Some(2));
    let (orig, mut current) = c.into_inner();
    assert_eq!(drain(orig), vec![1, 2]);
    assert_eq!(current.next(), None);
}

#[test]
fn cycle_over_nothing_stays_empty() {
    let mut c = lender::Cycle::new(from_vec(Vec::<i32>::new()));
    assert_eq!(c.size_hint(), (0, Some(0)));
    assert_eq!(c.next(), None);
    assert_eq!(c.advance_by(2), Err(2));
}

#[test]
fn take_while_with_a_counting_predicate() {
    let mut calls = 0;
    let mut t = from_vec(vec![5, 5, 5, 5]).take_while(move |_x: &i32| {
        calls += 1;
        calls <= 2
    });
    assert_eq!(t.next(), Some(5));
    assert_eq!(t.next(), Some(5));
    assert_eq!(t.next(), None);
    assert_eq!(t.next(), None);
}

#[test]
fn intersperse_with_numbered_separators() {
    let mut k = 0;
    let l = from_vec(vec![1, 2, 3]).intersperse_with(move || {
        k += 10;
        k
    });
    assert_eq!(drain(l), vec![1, 10, 2, 20, 3]);
    let mut k2 = 0;
    let mut l2 = from_vec(vec![1, 2, 3]).intersperse_with(move || {
        k2 += 10;
        k2
    });
    let r = l2.try_fold(0, |acc: i32, x: i32| ControlFlow::<(), i32>::Continue(acc * 100 + x));
    assert_eq!(r, ControlFlow::Continue(((1 * 100 + 10) * 100 + 2) * 100 * 100 + 20 * 100 + 3));
}

#[test]
fn flat_map_with_a_closure_that_changes() {
    let mut round = 0;
    let l = from_vec(vec![1, 1]).flat_map(move |n: i32| {
        round += 1;
        from_vec(vec![n * round])
    });
    assert_eq!(drain(l), vec![1, 2]);
}

#[test]
fn zip_advances_both_lenders() {
    let mut z = zip(from_vec(vec![1, 2, 3]), from_vec(vec![4, 5, 6]));
    assert_eq!(z.next(), Some((1, 4)));
    let (mut a, mut b) = z.into_inner();
    assert_eq!(a.next(), Some(2));
    assert_eq!(b.next(), Some(5));
}

#[test]
fn chain_leaves_the_first_lender_drained() {
    let mut c = Chain::new(from_vec(vec![0, 1]), from_vec(vec![5, 6]));
    assert_eq!(c.next(), Some(0));
    assert_eq!(c.next(), Some(1));
    assert_eq!(c.next(), Some(5));
    let (mut a, mut b) = c.into_inner();
    assert_eq!(a.next(), None);
    assert_eq!(b.next(), Some(6));
}

#[test]
fn cycle_advance_by_wraps_around_several_times() {
    let mut c = lender::Cycle::new(from_vec(vec![0, 1, 2]));
    assert_eq!(c.next(), Some(0));
    assert_eq!(c.advance_by(7), Ok(()));
    assert_eq!(c.next(), Some(2));
    assert_eq!(c.next(), Some(0));
    let (_, mut current) = c.into_inner();
    assert_eq!(current.next(), Some(1));
}

#[test]
fn intersperse_folds_with_fresh_separators() {
    let mut k = 0;
    let l = from_vec(vec![1, 2, 3]).intersperse_with(move || {
        k += 1;
        k
    });
    let r = l.fold(Vec::new(), |mut acc: Vec<i32>, x: i32| {
        acc.push(x);
        acc
    });
    assert_eq!(r, vec![1, 1, 2, 2, 3]);
    let l = from_vec(vec![4, 5]).intersperse(0);
    assert_eq!(l.fold(1, |acc: i32, x: i32| acc * 10 + x), 1405);
    let l = from_vec(Vec::<i32>::new()).intersperse(0);
    assert_eq!(l.fold(7, |acc: i32, x: i32| acc + x), 7);
}

#[test]
fn mutate_changes_each_lend_in_place() {
    let mut calls = 0;
    let mut m = from_vec(vec![1, 2, 3]).mutate(move |x: &mut i32| {
        calls += 1;
        *x += 10 * calls;
    });
    assert_eq!(m.len(), 3);
    assert_eq!(m.size_hint(), (3, Some(3)));
    assert_eq!(m.next(), Some(11));
    assert_eq!(m.next_back(), Some(23));
    assert_eq!(m.next(), Some(32));
    assert_eq!(m.next(), None);
    let (mut l, _) = m.into_parts();
    assert_eq!(l.next(), None);
}

#[test]
fn scan_keeps_a_running_state() {
    let mut s = from_vec(vec![1, 2, 3, 4]).scan(0, |p: (&mut i32, i32)| {
        let (st, x) = p;
        *st += x;
        if *st > 6 { None } else { Some(*st * 10) }
    });
    assert_eq!(s.size_hint(), (0, Some(4)));
    assert_eq!(s.next(), Some(10));
    assert_eq!(s.next(), Some(30));
    assert_eq!(s.next(), Some(60));
    assert_eq!(s.next(), None);
    assert_eq!(s.next(), None);
    let (_, st, _) = s.into_parts();
    assert_eq!(st, 10);
}

#[test]
fn chunky_try_fold_resumes_where_each_call_left_off() {
    let mut c = lender::Chunky::new(from_vec(vec![1, 2, 3, 4, 5, 6]), 2);
    let r = c.try_fold(0, |acc: i32, mut ch: lender::Chunk<'_, lender::FromVec<i32>>| {
        let x = ch.next().unwrap();
        ControlFlow::<i32, i32>::Continue(acc + x)
    });
    assert_eq!(r, ControlFlow::Continue(6));
    let (mut inner, _) = c.into_parts();
    assert_eq!(inner.next(), Some(4));

    let mut d = lender::Chunky::new(from_vec(vec![1, 2, 3, 4, 5, 6]), 2);
    let r = d.try_fold(0, |acc: i32, mut ch: lender::Chunk<'_, lender::FromVec<i32>>| {
        let s = acc + ch.next().unwrap() + ch.next().unwrap();
        if s > 5 { ControlFlow::Break(s) } else { ControlFlow::Continue(s) }
    });
    assert_eq!(r, ControlFlow::Break(10));
    assert_eq!(d.size_hint(), (1, Some(1)));
    let mut last = d.next().unwrap();
    assert_eq!(last.next(), Some(5));
}

#[test]
fn chunky_fold_adds_every_chunk() {
    let c = lender::Chunky::new(from_vec(vec![1, 2, 3, 4, 5]), 2);
    let r = c.fold(Vec::new(), |mut acc: Vec<i32>, mut ch: lender::Chunk<'_, lender::FromVec<i32>>| {
        let mut s = 0;
        while let Some(x) = ch.next() {
            s += x;
        }
        acc.push(s);
        acc
    });
    assert_eq!(r, vec![3, 7, 5]);
}

#[test]
fn mutate_folds_see_the_changed_lends() {
    let mut calls = 0;
    let mut m = from_vec(vec![1, 2, 3, 4]).mutate(move |x: &mut i32| {
        calls += 1;
        *x *= calls;
    });
    let r = m.try_fold(0, |acc: i32, x: i32| if acc + x > 5 { ControlFlow::Break(acc + x) } else { ControlFlow::Continue(acc + x) });
    assert_eq!(r, ControlFlow::Break(5 + 9));
    assert_eq!(m.next(), Some(16));
    let m = from_vec(vec![1, 2, 3]).mutate(|x: &mut i32| *x += 100);
    assert_eq!(m.fold(0, |acc: i32, x: i32| acc + x), 306);
}
