use core::ops::ControlFlow;

use lender::{
    from_vec, DoubleEndedFallibleLender, ExactSizeFallibleLender, FallibleLender, Lender, NonFallibleAdapter,
};

#[test]
fn into_fallible_never_fails() {
    let mut l = from_vec(vec![1, 2]).into_fallible();
    assert_eq!(l.len(), 2);
    assert_eq!(l.next(), Ok(Some(1)));
    assert_eq!(l.next_back(), Ok(Some(2)));
    assert_eq!(l.next(), Ok(None));
}

#[test]
fn convert_hands_out_errors_in_place() {
    let mut c = from_vec(vec![Ok(1), Err("bad"), Ok(2)]).convert::<&str>();
    assert_eq!(c.next(), Ok(Some(1)));
    assert_eq!(c.next(), Err("bad"));
    assert_eq!(c.next(), Ok(Some(2)));
    assert_eq!(c.next(), Ok(None));
    assert_eq!(c.next(), Ok(None));
}

#[test]
fn count_stops_at_the_first_error() {
    let ok = from_vec(vec![Ok::<i32, &str>(1), Ok(2)]).convert::<&str>();
    assert_eq!(ok.count(), Ok(2));
    let bad = from_vec(vec![Ok(1), Err("first"), Err("second")]).convert::<&str>();
    assert_eq!(bad.count(), Err("first"));
}

#[test]
fn map_err_maps_only_errors() {
    let mut m = from_vec(vec![Ok(1), Err(3)]).convert::<i32>().map_err(|e: i32| e * 100);
    assert_eq!(m.next(), Ok(Some(1)));
    assert_eq!(m.next(), Err(300));
    assert_eq!(m.next(), Ok(None));
    let mut b = from_vec(vec![Err(1), Ok(5)]).convert::<i32>().map_err(|e: i32| e + 1);
    assert_eq!(b.next_back(), Ok(Some(5)));
    assert_eq!(b.next_back(), Err(2));
}

#[test]
fn non_fallible_adapter_stops_and_keeps_the_error() {
    let mut n = NonFallibleAdapter::new(from_vec(vec![Ok(1), Err("stop"), Ok(2)]).convert::<&str>());
    assert_eq!(n.next(), Some(1));
    assert_eq!(n.next(), None);
    assert_eq!(n.next(), None);
    let (_, err) = n.into_parts();
    assert_eq!(err, Some("stop"));
}

#[test]
fn fallible_round_trip_gives_the_lends_back() {
    let mut n = NonFallibleAdapter::new(from_vec(vec![4, 5]).into_fallible());
    assert_eq!(n.next(), Some(4));
    assert_eq!(n.next(), Some(5));
    assert_eq!(n.next(), None);
    assert!(n.into_parts().1.is_none());
}

#[test]
fn fallible_flat_map_hands_out_errors_of_the_closure() {
    let mut l = from_vec(vec![2, -1, 1])
        .convert_ok()
        .flat_map(|n: i32| if n < 0 { Err("negative") } else { Ok(from_vec((0..n).collect::<Vec<i32>>()).convert_ok()) });
    assert_eq!(l.next(), Ok(Some(0)));
    assert_eq!(l.next(), Ok(Some(1)));
    assert_eq!(l.next(), Err("negative"));
    assert_eq!(l.next(), Ok(Some(0)));
    assert_eq!(l.next(), Ok(None));
}

trait ConvertOk: Sized {
    fn convert_ok(self) -> lender::Convert<&'static str, lender::MapLend<Self, fn(i32) -> Result<i32, &'static str>>>;
}

impl<L: Lender + for<'all> lender::Lending<'all, Lend = i32>> ConvertOk for L {
    fn convert_ok(self) -> lender::Convert<&'static str, lender::MapLend<Self, fn(i32) -> Result<i32, &'static str>>> {
        let f: fn(i32) -> Result<i32, &'static str> = Ok;
        self.map(f).convert()
    }
}

#[test]
fn map_err_try_fold_with_a_counting_closure() {
    let mut calls = 0;
    let mut m = from_vec(vec![Ok(1), Ok(2), Err(7), Ok(4)]).convert::<i32>().map_err(move |e: i32| {
        calls += 1;
        e * 10 + calls
    });
    let r = m.try_fold(0, |acc: i32, x: i32| Ok::<ControlFlow<i32, i32>, i32>(ControlFlow::Continue(acc + x)));
    assert_eq!(r, Err(71));
    let r = m.try_fold(0, |acc: i32, x: i32| Ok::<ControlFlow<i32, i32>, i32>(ControlFlow::Continue(acc + x)));
    assert_eq!(r, Ok(ControlFlow::Continue(4)));
    let mut n = from_vec(vec![Ok(1), Ok(2), Ok(3)]).convert::<i32>().map_err(|e: i32| e);
    let r = n.try_fold(0, |acc: i32, x: i32| {
        if x == 2 { Err(-1) } else { Ok::<ControlFlow<i32, i32>, i32>(ControlFlow::Continue(acc + x)) }
    });
    assert_eq!(r, Err(-1));
    assert_eq!(n.next(), Ok(Some(3)));
    let r = n.try_fold(5, |acc: i32, x: i32| Ok::<ControlFlow<i32, i32>, i32>(ControlFlow::Break(acc * x)));
    assert_eq!(r, Ok(ControlFlow::Continue(5)));
}

#[test]
fn map_err_fold_with_a_counting_closure() {
    let mut calls = 0;
    let m = from_vec(vec![Ok(1), Ok(2), Err(7), Ok(4)]).convert::<i32>().map_err(move |e: i32| {
        calls += 1;
        e * 10 + calls
    });
    assert_eq!(m.fold(0, |acc: i32, x: i32| Ok::<i32, i32>(acc + x)), Err(71));
    let n = from_vec(vec![Ok(1), Ok(2)]).convert::<i32>().map_err(|e: i32| e);
    assert_eq!(n.fold(0, |acc: i32, x: i32| Ok::<i32, i32>(acc + x)), Ok(3));
    let o = from_vec(vec![Ok(1), Ok(2)]).convert::<i32>().map_err(|e: i32| e);
    assert_eq!(o.fold(0, |_acc: i32, x: i32| if x == 2 { Err(-2) } else { Ok(x) }), Err(-2));
}

#[test]
fn fallible_mutate_hands_out_the_errors_of_both() {
    let mut m = lender::Mutate::new(from_vec(vec![Ok(1), Err(5), Ok(7)]).convert::<i32>(), |x: &mut i32| {
        if *x > 5 { Err(-*x) } else { *x *= 2; Ok(()) }
    });
    assert_eq!(m.fallible_next(), Ok(Some(2)));
    assert_eq!(m.fallible_next(), Err(5));
    assert_eq!(m.fallible_next(), Err(-7));
    assert_eq!(m.fallible_next(), Ok(None));
}

#[test]
fn fallible_scan_hands_out_errors_of_both() {
    let mut s = lender::Scan::new(from_vec(vec![Ok(1), Err(9), Ok(2), Ok(3)]).convert::<i32>(), 0, |p: (&mut i32, i32)| {
        let (st, x) = p;
        *st += x;
        if *st > 2 { Err(-*st) } else { Ok(Some(*st)) }
    });
    assert_eq!(s.fallible_next(), Ok(Some(1)));
    assert_eq!(s.fallible_next(), Err(9));
    assert_eq!(s.fallible_next(), Err(-3));
    assert_eq!(s.fallible_next(), Err(-6));
    assert_eq!(s.fallible_next(), Ok(None));
}
