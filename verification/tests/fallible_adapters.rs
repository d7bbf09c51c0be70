use core::ops::ControlFlow;

use lender::{from_vec, Chain, DoubleEndedFallibleLender, ExactSizeFallibleLender, FallibleLender, Lender};

fn outcomes(v: Vec<Result<i32, &'static str>>) -> lender::Convert<&'static str, lender::FromVec<Result<i32, &'static str>>> {
    from_vec(v).convert::<&'static str>()
}

#[test]
fn fallible_take_counts_errors_as_steps() {
    let mut t = outcomes(vec![Ok(1), Err("e"), Ok(2), Ok(3)]).take(3);
    assert_eq!(t.len(), 3);
    assert_eq!(t.next(), Ok(Some(1)));
    assert_eq!(t.next(), Err("e"));
    assert_eq!(t.next(), Ok(Some(2)));
    assert_eq!(t.next(), Ok(None));
}

#[test]
fn fallible_fuse_and_rev() {
    let mut f = outcomes(vec![Ok(1)]).fuse();
    assert_eq!(f.next(), Ok(Some(1)));
    assert_eq!(f.next(), Ok(None));
    assert_eq!(f.next(), Ok(None));
    let mut r = outcomes(vec![Ok(1), Err("e"), Ok(2)]).rev();
    assert_eq!(r.next(), Ok(Some(2)));
    assert_eq!(r.next(), Err("e"));
    assert_eq!(r.next_back(), Ok(Some(1)));
    assert_eq!(r.next(), Ok(None));
}

#[test]
fn fallible_enumerate_numbers_only_lends() {
    let mut e = outcomes(vec![Ok(5), Err("e"), Ok(6)]).enumerate();
    assert_eq!(e.len(), 3);
    assert_eq!(e.next(), Ok(Some((0, 5))));
    assert_eq!(e.next(), Err("e"));
    assert_eq!(e.next(), Ok(Some((1, 6))));
    assert_eq!(e.next(), Ok(None));
}

#[test]
fn fallible_chain_runs_both() {
    let mut c = Chain::new(outcomes(vec![Ok(1), Err("a")]), outcomes(vec![Ok(2)]));
    assert_eq!(c.next(), Ok(Some(1)));
    assert_eq!(c.next(), Err("a"));
    assert_eq!(c.next(), Ok(Some(2)));
    assert_eq!(c.next(), Ok(None));
    let mut d = Chain::new(outcomes(vec![Ok(1)]), outcomes(vec![Ok(2)]));
    assert_eq!(d.next_back(), Ok(Some(2)));
    assert_eq!(d.next_back(), Ok(Some(1)));
    assert_eq!(d.next_back(), Ok(None));
}

#[test]
fn fallible_map_and_inspect() {
    let mut m = outcomes(vec![Ok(1), Ok(-2), Err("e")]).map(|x: i32| if x < 0 { Err("negative") } else { Ok(x * 10) });
    assert_eq!(m.next(), Ok(Some(10)));
    assert_eq!(m.next(), Err("negative"));
    assert_eq!(m.next(), Err("e"));
    assert_eq!(m.next(), Ok(None));
    let mut i = outcomes(vec![Ok(1), Ok(7)]).inspect(|x: &i32| if *x > 5 { Err("big") } else { Ok(()) });
    assert_eq!(i.next(), Ok(Some(1)));
    assert_eq!(i.next(), Err("big"));
    assert_eq!(i.next(), Ok(None));
}

#[test]
fn fallible_take_while_filter_filter_map_map_while() {
    let mut t = outcomes(vec![Ok(1), Err("e"), Ok(2), Ok(9), Ok(1)]).take_while(|x: &i32| Ok(*x < 5));
    assert_eq!(t.next(), Ok(Some(1)));
    assert_eq!(t.next(), Err("e"));
    assert_eq!(t.next(), Ok(Some(2)));
    assert_eq!(t.next(), Ok(None));
    assert_eq!(t.next(), Ok(None));
    let mut f = outcomes(vec![Ok(1), Ok(2), Ok(3), Ok(4)]).filter(|x: &i32| if *x == 3 { Err("three") } else { Ok(*x % 2 == 0) });
    assert_eq!(f.next(), Ok(Some(2)));
    assert_eq!(f.next(), Err("three"));
    assert_eq!(f.next(), Ok(Some(4)));
    assert_eq!(f.next(), Ok(None));
    let mut g = outcomes(vec![Ok(1), Ok(2), Ok(3)]).filter_map(|x: i32| Ok(if x != 2 { Some(x * 2) } else { None }));
    assert_eq!(g.next(), Ok(Some(2)));
    assert_eq!(g.next(), Ok(Some(6)));
    assert_eq!(g.next(), Ok(None));
    let mut w = outcomes(vec![Ok(1), Ok(0), Ok(2)]).map_while(|x: i32| Ok(if x > 0 { Some(x) } else { None }));
    assert_eq!(w.next(), Ok(Some(1)));
    assert_eq!(w.next(), Ok(None));
    assert_eq!(w.next(), Ok(None));
}

#[test]
fn fallible_advance_by_and_nth_stop_at_errors() {
    let mut l = outcomes(vec![Ok(1), Ok(2), Err("e"), Ok(3), Ok(4)]);
    assert_eq!(l.advance_by(1), Ok(Ok(())));
    assert_eq!(l.advance_by(3), Err("e"));
    assert_eq!(l.nth(1), Ok(Some(4)));
    assert_eq!(l.advance_by(2), Ok(Err(2)));
    let mut m = outcomes(vec![Ok(1), Err("x")]);
    assert_eq!(m.nth(1), Err("x"));
    assert_eq!(m.nth(0), Ok(None));
}

#[test]
fn fallible_skip_hands_out_an_error_met_while_skipping() {
    let mut s = outcomes(vec![Ok(1), Err("e"), Ok(2), Ok(3)]).skip(3);
    assert_eq!(s.next(), Err("e"));
    assert_eq!(s.next(), Ok(Some(2)));
    assert_eq!(s.next(), Ok(Some(3)));
    assert_eq!(s.next(), Ok(None));
    let mut t = outcomes(vec![Ok(1), Ok(2), Ok(3)]).skip(2);
    assert_eq!(t.next(), Ok(Some(3)));
    assert_eq!(t.next(), Ok(None));
}

#[test]
fn fallible_step_by_restarts_after_an_error() {
    let mut s = outcomes(vec![Ok(0), Ok(1), Ok(2), Ok(3), Ok(4)]).step_by(2);
    assert_eq!(s.next(), Ok(Some(0)));
    assert_eq!(s.next(), Ok(Some(2)));
    assert_eq!(s.next(), Ok(Some(4)));
    assert_eq!(s.next(), Ok(None));
    let mut e = outcomes(vec![Ok(0), Err("e"), Ok(2), Ok(3), Ok(4)]).step_by(3);
    assert_eq!(e.next(), Ok(Some(0)));
    assert_eq!(e.next(), Err("e"));
    assert_eq!(e.next(), Ok(Some(4)));
    assert_eq!(e.next(), Ok(None));
}

#[test]
fn fallible_skip_while_and_chunk() {
    let mut s = outcomes(vec![Ok(1), Err("e"), Ok(2), Ok(7), Ok(1)]).skip_while(|x: &i32| Ok(*x < 5));
    assert_eq!(s.next(), Err("e"));
    assert_eq!(s.next(), Ok(Some(7)));
    assert_eq!(s.next(), Ok(Some(1)));
    assert_eq!(s.next(), Ok(None));
    let mut l = outcomes(vec![Ok(1), Ok(2), Ok(3)]);
    let mut c = lender::Chunk::new(&mut l, 2);
    assert_eq!(c.next(), Ok(Some(1)));
    assert_eq!(c.next(), Ok(Some(2)));
    assert_eq!(c.next(), Ok(None));
    assert_eq!(l.next(), Ok(Some(3)));
}

#[test]
fn fallible_peek_keeps_lends_and_hands_out_errors() {
    let mut p = outcomes(vec![Ok(1), Err("e"), Ok(2)]).peekable();
    assert_eq!(p.peek(), Ok(Some(&1)));
    assert_eq!(p.peek(), Ok(Some(&1)));
    assert_eq!(p.next(), Ok(Some(1)));
    assert_eq!(p.peek(), Err("e"));
    assert_eq!(p.peek(), Ok(Some(&2)));
    if let Ok(Some(x)) = p.peek_mut() {
        *x = 20;
    }
    assert_eq!(p.next(), Ok(Some(20)));
    assert_eq!(p.peek(), Ok(None));
    assert_eq!(p.next(), Ok(None));
}

#[test]
fn fallible_next_if_and_next_if_eq() {
    let mut p = outcomes(vec![Ok(1), Ok(2), Err("e"), Ok(3)]).peekable();
    assert_eq!(p.next_if_eq(&1), Ok(Some(1)));
    assert_eq!(p.next_if_eq(&1), Ok(None));
    assert_eq!(p.next_if(|x: &i32| *x == 2), Ok(Some(2)));
    assert_eq!(p.next_if(|x: &i32| *x == 2), Err("e"));
    assert_eq!(p.next_if(|x: &i32| *x == 2), Ok(None));
    assert_eq!(p.next(), Ok(Some(3)));
    assert_eq!(p.next_if_eq(&3), Ok(None));
}

#[test]
fn fallible_peekable_count_nth_and_back() {
    let mut p = outcomes(vec![Ok(1), Ok(2), Ok(3), Ok(4)]).peekable();
    assert_eq!(p.peek(), Ok(Some(&1)));
    assert_eq!(p.size_hint(), (4, Some(4)));
    assert_eq!(p.next_back(), Ok(Some(4)));
    assert_eq!(p.nth(1), Ok(Some(2)));
    assert_eq!(p.count(), Ok(1));
    let mut q = outcomes(vec![Ok(1), Err("e"), Ok(3)]).peekable();
    assert_eq!(q.peek(), Ok(Some(&1)));
    assert_eq!(q.count(), Err("e"));
    let mut r = outcomes(vec![Ok(7)]).peekable();
    assert_eq!(r.peek(), Ok(Some(&7)));
    assert_eq!(r.next_back(), Ok(Some(7)));
    assert_eq!(r.next(), Ok(None));
}

#[test]
fn fallible_intersperse_puts_no_separator_before_an_error() {
    let mut i = outcomes(vec![Ok(1), Err("e"), Ok(2), Ok(3)]).intersperse(0);
    assert_eq!(i.size_hint(), (4, Some(7)));
    assert_eq!(i.next(), Ok(Some(1)));
    assert_eq!(i.next(), Err("e"));
    assert_eq!(i.next(), Ok(Some(0)));
    assert_eq!(i.next(), Ok(Some(2)));
    assert_eq!(i.next(), Ok(Some(0)));
    assert_eq!(i.next(), Ok(Some(3)));
    assert_eq!(i.next(), Ok(None));
    assert_eq!(i.into_parts().1, 0);
}

#[test]
fn fallible_intersperse_with_hands_out_the_separator_error() {
    let mut i = outcomes(vec![Ok(1), Ok(2)]).intersperse_with(|| Err("sep"));
    assert_eq!(i.next(), Ok(Some(1)));
    assert_eq!(i.next(), Err("sep"));
    assert_eq!(i.next(), Ok(Some(2)));
    assert_eq!(i.next(), Ok(None));
    let mut j = outcomes(vec![Ok(1), Ok(2)]).intersperse_with(|| Ok(9));
    assert_eq!(j.count(), Ok(3));
}

#[test]
fn fallible_try_fold_stops_at_the_first_error_of_the_lender() {
    let mut l = outcomes(vec![Ok(1), Ok(2), Err("e"), Ok(3)]);
    let r = l.try_fold(0, |acc: i32, x: i32| Ok::<ControlFlow<i32, i32>, &str>(ControlFlow::Continue(acc + x)));
    assert_eq!(r, Err("e"));
    assert_eq!(l.next(), Ok(Some(3)));
}

#[test]
fn fallible_try_fold_breaks_or_fails_in_the_closure() {
    let mut l = outcomes(vec![Ok(1), Ok(2), Ok(3)]);
    let r = l.try_fold(0, |acc: i32, x: i32| {
        if x == 2 {
            Ok::<ControlFlow<i32, i32>, &str>(ControlFlow::Break(acc))
        } else {
            Ok(ControlFlow::Continue(acc + x))
        }
    });
    assert_eq!(r, Ok(ControlFlow::Break(1)));
    assert_eq!(l.next(), Ok(Some(3)));
    let mut m = outcomes(vec![Ok(1), Ok(2), Ok(3)]);
    let r = m.try_fold(0, |acc: i32, x: i32| if x == 2 { Err("f") } else { Ok(ControlFlow::<i32, i32>::Continue(acc + x)) });
    assert_eq!(r, Err("f"));
    assert_eq!(m.next(), Ok(Some(3)));
    let mut n = outcomes(vec![Ok(1), Ok(2)]);
    let r = n.try_fold(10, |acc: i32, x: i32| Ok::<ControlFlow<i32, i32>, &str>(ControlFlow::Continue(acc + x)));
    assert_eq!(r, Ok(ControlFlow::Continue(13)));
    assert_eq!(n.next(), Ok(None));
}

#[test]
fn fallible_fold_and_rfold_visit_the_lends_in_order() {
    let push = |mut v: Vec<i32>, x: i32| -> Result<Vec<i32>, &'static str> {
        v.push(x);
        Ok(v)
    };
    assert_eq!(outcomes(vec![Ok(1), Ok(2), Ok(3)]).fold(Vec::new(), push), Ok(vec![1, 2, 3]));
    assert_eq!(outcomes(vec![Ok(1), Ok(2), Ok(3)]).rfold(Vec::new(), push), Ok(vec![3, 2, 1]));
    assert_eq!(outcomes(vec![Ok(1), Err("e"), Ok(3)]).fold(Vec::new(), push), Err("e"));
    assert_eq!(outcomes(vec![Ok(1), Err("e"), Ok(3)]).rfold(Vec::new(), push), Err("e"));
    assert_eq!(outcomes(vec![Ok(1), Ok(2), Ok(3)]).rev().fold(Vec::new(), push), Ok(vec![3, 2, 1]));
    assert_eq!(outcomes(vec![Ok(1), Ok(2), Ok(3)]).rev().rfold(Vec::new(), push), Ok(vec![1, 2, 3]));
}

#[test]
fn fallible_try_rfold_runs_back_to_front() {
    let mut l = outcomes(vec![Ok(1), Err("e"), Ok(2), Ok(3)]);
    let r = l.try_rfold(0, |acc: i32, x: i32| Ok::<ControlFlow<i32, i32>, &str>(ControlFlow::Continue(acc * 10 + x)));
    assert_eq!(r, Err("e"));
    assert_eq!(l.next(), Ok(Some(1)));
    assert_eq!(l.next(), Ok(None));
    let mut r = outcomes(vec![Ok(1), Ok(2), Ok(3)]).rev();
    let t = r.try_fold(0, |acc: i32, x: i32| Ok::<ControlFlow<i32, i32>, &str>(ControlFlow::Continue(acc * 10 + x)));
    assert_eq!(t, Ok(ControlFlow::Continue(321)));
}

#[test]
fn fallible_fuse_folds_nothing_once_exhausted() {
    let mut f = outcomes(vec![Ok(1), Ok(2)]).fuse();
    let r = f.try_fold(0, |acc: i32, x: i32| Ok::<ControlFlow<i32, i32>, &str>(ControlFlow::Continue(acc + x)));
    assert_eq!(r, Ok(ControlFlow::Continue(3)));
    let r = f.try_fold(5, |acc: i32, x: i32| Ok::<ControlFlow<i32, i32>, &str>(ControlFlow::Continue(acc + x)));
    assert_eq!(r, Ok(ControlFlow::Continue(5)));
    assert_eq!(f.fold(7, |acc: i32, x: i32| Ok::<i32, &str>(acc + x)), Ok(7));
    let g = outcomes(vec![Ok(1), Ok(2)]).fuse();
    assert_eq!(g.rfold(0, |acc: i32, x: i32| Ok::<i32, &str>(acc * 10 + x)), Ok(21));
}

#[test]
fn fallible_peekable_folds_start_with_the_peeked_lend() {
    let mut p = outcomes(vec![Ok(1), Ok(2), Ok(3)]).peekable();
    assert_eq!(p.peek(), Ok(Some(&1)));
    let r = p.try_fold(0, |acc: i32, x: i32| Ok::<ControlFlow<i32, i32>, &str>(ControlFlow::Continue(acc * 10 + x)));
    assert_eq!(r, Ok(ControlFlow::Continue(123)));
    let mut q = outcomes(vec![Ok(1), Ok(2)]).peekable();
    assert_eq!(q.peek(), Ok(Some(&1)));
    let r = q.try_fold(0, |_acc: i32, x: i32| Ok::<ControlFlow<i32, i32>, &str>(ControlFlow::Break(x)));
    assert_eq!(r, Ok(ControlFlow::Break(1)));
    assert_eq!(q.next(), Ok(Some(2)));
    let mut s = outcomes(vec![Ok(1), Err("e")]).peekable();
    assert_eq!(s.peek(), Ok(Some(&1)));
    assert_eq!(s.fold(0, |acc: i32, x: i32| Ok::<i32, &str>(acc + x)), Err("e"));
    let mut t = outcomes(vec![Ok(4), Ok(5)]).peekable();
    assert_eq!(t.peek(), Ok(Some(&4)));
    assert_eq!(t.fold(0, |acc: i32, x: i32| Ok::<i32, &str>(acc * 10 + x)), Ok(45));
}

#[test]
fn fallible_step_by_nth_lands_on_the_stepped_outcome() {
    let mut s = outcomes(vec![Ok(0), Ok(1), Ok(2), Ok(3), Ok(4), Ok(5), Ok(6), Ok(7), Ok(8), Ok(9)]).step_by(3);
    assert_eq!(s.nth(1), Ok(Some(3)));
    assert_eq!(s.next(), Ok(Some(6)));
    assert_eq!(s.nth(5), Ok(None));
    let mut t = outcomes(vec![Ok(0), Ok(1), Ok(2), Ok(3), Ok(4), Ok(5), Ok(6)]).step_by(2);
    assert_eq!(t.nth(2), Ok(Some(4)));
    assert_eq!(t.next(), Ok(Some(6)));
    assert_eq!(t.next(), Ok(None));
}

#[test]
fn fallible_step_by_nth_hands_out_an_error_among_the_skipped() {
    let mut s = outcomes(vec![Ok(0), Ok(1), Err("e"), Ok(3), Ok(4), Ok(5)]).step_by(2);
    assert_eq!(s.nth(2), Err("e"));
    assert_eq!(s.next(), Ok(Some(4)));
    assert_eq!(s.next(), Ok(None));
    let mut f = outcomes(vec![Err("f"), Ok(1)]).step_by(2);
    assert_eq!(f.nth(1), Err("f"));
}

#[test]
fn fallible_step_by_nth_with_an_index_too_large_to_multiply() {
    let mut s = outcomes(vec![Ok(0), Ok(1), Ok(2), Ok(3), Ok(4)]).step_by(2);
    assert_eq!(s.next(), Ok(Some(0)));
    assert_eq!(s.nth(usize::MAX), Ok(None));
    let mut t = outcomes(vec![Ok(0), Ok(1), Ok(2), Err("e")]).step_by(3);
    assert_eq!(t.next(), Ok(Some(0)));
    assert_eq!(t.nth(usize::MAX / 2), Err("e"));
    assert_eq!(t.next(), Ok(None));
}

#[test]
fn fallible_flatten_runs_the_lenders_one_after_the_other() {
    let outer = from_vec(vec![
        Ok(outcomes(vec![Ok(1), Err("a")])),
        Err("x"),
        Ok(outcomes(vec![])),
        Ok(outcomes(vec![Ok(2)])),
    ])
    .convert::<&'static str>();
    let mut f = outer.flatten();
    assert_eq!(f.next(), Ok(Some(1)));
    assert_eq!(f.next(), Err("a"));
    assert_eq!(f.next(), Err("x"));
    assert_eq!(f.next(), Ok(Some(2)));
    assert_eq!(f.next(), Ok(None));
}

#[test]
fn fallible_nth_back_and_advance_back_by_stop_at_errors() {
    let mut l = outcomes(vec![Ok(1), Ok(2), Err("e"), Ok(3), Ok(4)]);
    assert_eq!(l.nth_back(1), Ok(Some(3)));
    assert_eq!(l.nth_back(1), Err("e"));
    assert_eq!(l.next_back(), Ok(Some(2)));
    let mut m = outcomes(vec![Ok(1), Ok(2)]);
    assert_eq!(m.advance_back_by(3), Ok(Err(1)));
    assert_eq!(m.next(), Ok(None));
    let mut r = outcomes(vec![Ok(1), Ok(2), Ok(3), Ok(4)]).rev();
    assert_eq!(r.nth(1), Ok(Some(3)));
    assert_eq!(r.nth_back(0), Ok(Some(1)));
    assert_eq!(r.advance_by(1), Ok(Ok(())));
    assert_eq!(r.next(), Ok(None));
    let mut q = outcomes(vec![Ok(1), Ok(2), Ok(3)]).rev();
    assert_eq!(q.advance_back_by(2), Ok(Ok(())));
    assert_eq!(q.next(), Ok(Some(3)));
}

#[test]
fn fallible_fuse_nth_and_count() {
    let mut f = outcomes(vec![Ok(1), Err("e"), Ok(2)]).fuse();
    assert_eq!(f.nth(2), Err("e"));
    assert_eq!(f.nth(0), Ok(Some(2)));
    assert_eq!(f.nth(0), Ok(None));
    assert_eq!(f.nth_back(0), Ok(None));
    assert_eq!(f.count(), Ok(0));
    let mut g = outcomes(vec![Ok(1), Ok(2), Ok(3)]).fuse();
    assert_eq!(g.nth_back(1), Ok(Some(2)));
    assert_eq!(g.count(), Ok(1));
}

#[test]
fn fallible_find_stops_at_a_match_or_an_error() {
    let mut l = outcomes(vec![Ok(1), Ok(4), Ok(5), Err("e"), Ok(6)]);
    assert_eq!(l.find(|x: &i32| Ok(*x % 2 == 0)), Ok(Some(4)));
    assert_eq!(l.find(|x: &i32| Ok(*x % 2 == 0)), Err("e"));
    assert_eq!(l.find(|x: &i32| Ok(*x % 2 == 0)), Ok(Some(6)));
    assert_eq!(l.find(|_x: &i32| Ok(true)), Ok(None));
    let mut m = outcomes(vec![Ok(1), Ok(2), Ok(3)]);
    assert_eq!(m.find(|x: &i32| if *x == 2 { Err("p") } else { Ok(false) }), Err("p"));
    assert_eq!(m.next(), Ok(Some(3)));
}

#[test]
fn fallible_last_hands_out_the_last_lend_or_the_first_error() {
    assert_eq!(outcomes(vec![Ok(1), Ok(2), Ok(3)]).last(), Ok(Some(3)));
    assert_eq!(outcomes(vec![]).last(), Ok(None));
    let mut l = outcomes(vec![Ok(1), Err("e"), Ok(3)]);
    assert_eq!(l.last(), Err("e"));
    assert_eq!(l.next(), Ok(Some(3)));
}

#[test]
fn fallible_rfind_runs_back_to_front() {
    let mut l = outcomes(vec![Ok(2), Err("e"), Ok(4), Ok(5)]);
    assert_eq!(l.rfind(|x: &i32| Ok(*x % 2 == 0)), Ok(Some(4)));
    assert_eq!(l.rfind(|x: &i32| Ok(*x % 2 == 0)), Err("e"));
    assert_eq!(l.rfind(|x: &i32| Ok(*x % 2 == 0)), Ok(Some(2)));
    assert_eq!(l.rfind(|_x: &i32| Ok(true)), Ok(None));
}

#[test]
fn fallible_skip_from_the_back_never_reaches_the_skipped_outcomes() {
    let mut s = outcomes(vec![Ok(1), Err("e"), Ok(3), Ok(4), Ok(5)]).skip(1);
    assert_eq!(s.len(), 4);
    assert_eq!(s.next_back(), Ok(Some(5)));
    assert_eq!(s.nth_back(0), Ok(Some(4)));
    let r = s.try_rfold(0, |acc: i32, x: i32| Ok::<ControlFlow<i32, i32>, &str>(ControlFlow::Continue(acc + x)));
    assert_eq!(r, Err("e"));
    assert_eq!(s.len(), 0);
    assert_eq!(s.next_back(), Ok(None));
    assert_eq!(s.advance_back_by(2), Ok(Err(2)));

    let mut t = outcomes(vec![Ok(1), Ok(2), Ok(3), Ok(4)]).skip(1);
    let r = t.try_rfold(0, |acc: i32, x: i32| Ok::<ControlFlow<i32, i32>, &str>(ControlFlow::Continue(acc + x)));
    assert_eq!(r, Ok(ControlFlow::Continue(9)));
    assert_eq!(t.next(), Ok(None));

    let mut u = outcomes(vec![Err("e"), Ok(1)]).skip(2);
    assert_eq!(u.len(), 0);
    assert_eq!(u.next_back(), Ok(None));
    assert_eq!(u.nth_back(3), Ok(None));

    let mut w = outcomes(vec![Ok(1), Ok(2), Err("x"), Ok(4), Ok(5)]).skip(1);
    assert_eq!(w.advance_back_by(1), Ok(Ok(())));
    assert_eq!(w.nth_back(2), Err("x"));
    assert_eq!(w.next_back(), Ok(Some(2)));
    assert_eq!(w.next_back(), Ok(None));
    assert_eq!(w.next(), Ok(None));
}

#[test]
fn fallible_zip_hands_out_errors_of_either_lender() {
    let mut z = lender::Zip::new(outcomes(vec![Ok(1), Ok(2), Err("e"), Ok(4)]), outcomes(vec![Ok(10), Err("f")]));
    assert_eq!(z.next(), Ok(Some((1, 10))));
    assert_eq!(z.next(), Err("f"));
    assert_eq!(z.next(), Err("e"));
    assert_eq!(z.next(), Ok(None));
    assert_eq!(z.next(), Ok(None));
}

#[test]
fn fallible_chunky_counts_errors_as_steps() {
    let mut c = lender::Chunky::fallible_new(outcomes(vec![Ok(1), Err("e"), Ok(3), Ok(4), Ok(5)]), 2);
    assert_eq!(c.size_hint(), (3, Some(3)));
    {
        let mut ch = c.fallible_next().unwrap().unwrap();
        assert_eq!(ch.next(), Ok(Some(1)));
        assert_eq!(ch.next(), Err("e"));
        assert_eq!(ch.next(), Ok(None));
    }
    {
        let mut ch = c.fallible_nth(0).unwrap().unwrap();
        assert_eq!(ch.next(), Ok(Some(3)));
    }
    assert!(c.fallible_nth(5).unwrap().is_none());
    assert!(c.fallible_next().unwrap().is_none());

    let mut d = lender::Chunky::fallible_new(outcomes(vec![Ok(1), Ok(2), Err("x"), Ok(4)]), 1);
    assert!(matches!(d.fallible_nth(3), Err("x")));
    assert_eq!(d.size_hint(), (1, Some(1)));
    let mut ch = d.fallible_next().unwrap().unwrap();
    assert_eq!(ch.next(), Ok(Some(4)));
}
