use core::ops::ControlFlow;

use lender::{from_vec, DoubleEndedLender, ExactSizeLender, Lender};

#[test]
fn peek_does_not_advance() {
    let mut l = from_vec(vec![1, 2, 3]).peekable();
    assert_eq!(l.peek(), Some(&1));
    assert_eq!(l.peek(), Some(&1));
    assert_eq!(l.next(), Some(1));
    assert_eq!(l.peek(), Some(&2));
    assert_eq!(l.len(), 2);
}

#[test]
fn peek_mut_changes_the_next_lend() {
    let mut l = from_vec(vec![1, 2, 3]).peekable();
    if let Some(p) = l.peek_mut() {
        *p = 10;
    }
    assert_eq!(l.next(), Some(10));
    assert_eq!(l.next(), Some(2));
}

#[test]
fn next_if_consumes_only_accepted_lends() {
    let mut l = from_vec(vec![1, 2, 3]).peekable();
    assert_eq!(l.next_if(|x: &i32| *x % 2 == 1), Some(1));
    assert_eq!(l.next_if(|x: &i32| *x % 2 == 1), None);
    assert_eq!(l.next(), Some(2));
}

#[test]
fn next_if_eq_consumes_only_an_equal_lend() {
    let mut l = from_vec(vec![1, 2, 3]).peekable();
    assert_eq!(l.next_if_eq(&1), Some(1));
    assert_eq!(l.next_if_eq(&1), None);
    assert_eq!(l.next(), Some(2));
    assert_eq!(l.next_if_eq(&3), Some(3));
    assert_eq!(l.next_if_eq(&3), None);
}

#[test]
fn peekable_keeps_the_peeked_lend_at_the_front() {
    let mut l = from_vec(vec![1, 2, 3]).peekable();
    assert_eq!(l.peek(), Some(&1));
    assert_eq!(l.next_back(), Some(3));
    assert_eq!(l.nth(1), Some(2));
    assert_eq!(l.next(), None);
    let mut m = from_vec(vec![4]).peekable();
    assert_eq!(m.peek(), Some(&4));
    assert_eq!(m.next_back(), Some(4));
    assert_eq!(m.next(), None);
}

#[test]
fn peekable_folds_include_the_peeked_lend() {
    let mut l = from_vec(vec![1, 2, 3]).peekable();
    l.peek();
    assert_eq!(l.fold(Vec::new(), |mut v, x| { v.push(x); v }), vec![1, 2, 3]);
    let mut r = from_vec(vec![1, 2, 3]).peekable();
    r.peek();
    assert_eq!(r.rfold(Vec::new(), |mut v, x| { v.push(x); v }), vec![3, 2, 1]);
    let mut t = from_vec(vec![1, 2, 3]).peekable();
    t.peek();
    let c: ControlFlow<i32, i32> = t.try_rfold(0, |acc, x| if x == 1 { ControlFlow::Break(acc) } else { ControlFlow::Continue(acc + x) });
    assert_eq!(c, ControlFlow::Break(5));
    assert_eq!(t.next(), None);
    let mut w = from_vec(vec![1, 2, 3]).peekable();
    w.peek();
    let c: ControlFlow<i32, i32> = w.try_rfold(0, |acc, x| if x == 2 { ControlFlow::Break(acc) } else { ControlFlow::Continue(acc + x) });
    assert_eq!(c, ControlFlow::Break(3));
    assert_eq!(w.next(), Some(1));
    assert_eq!(w.next(), None);
    let mut u = from_vec(vec![5, 6]).peekable();
    u.peek();
    assert_eq!(u.count(), 2);
}

#[test]
fn intersperse_puts_the_separator_between_lends() {
    let mut l = from_vec(vec![1, 2, 3]).intersperse(0);
    let mut out = Vec::new();
    while let Some(x) = l.next() {
        out.push(x);
    }
    assert_eq!(out, vec![1, 0, 2, 0, 3]);
    let sum = from_vec(vec![1, 2, 3]).intersperse(10).fold(0, |a, x| a + x);
    assert_eq!(sum, 26);
    let mut single = from_vec(vec![7]).intersperse(0);
    assert_eq!(single.next(), Some(7));
    assert_eq!(single.next(), None);
}

#[test]
fn intersperse_try_fold_keeps_the_lend_after_a_separator_that_breaks() {
    let mut l = from_vec(vec![1, 2, 3]).intersperse(0);
    let c: ControlFlow<i32, i32> = l.try_fold(0, |acc, x| if x == 0 { ControlFlow::Break(acc) } else { ControlFlow::Continue(acc + x) });
    assert_eq!(c, ControlFlow::Break(1));
    assert_eq!(l.next(), Some(2));
    assert_eq!(l.next(), Some(0));
    assert_eq!(l.next(), Some(3));
    assert_eq!(l.next(), None);
}

#[test]
fn intersperse_with_makes_separators() {
    let mut l = from_vec(vec!['a', 'b']).intersperse_with(|| '-');
    assert_eq!(l.next(), Some('a'));
    assert_eq!(l.next(), Some('-'));
    assert_eq!(l.next(), Some('b'));
    assert_eq!(l.next(), None);
    let s = from_vec(vec!['x', 'y', 'z']).intersperse_with(|| ',').fold(String::new(), |mut s, c| { s.push(c); s });
    assert_eq!(s, "x,y,z");
    let c: ControlFlow<usize, usize> = from_vec(vec![1, 2, 3]).intersperse_with(|| 9).try_fold(0, |n, _| ControlFlow::Continue(n + 1));
    assert_eq!(c, ControlFlow::Continue(5));
}

#[test]
fn intersperse_size_hint_doubles_less_one() {
    assert_eq!(lender::intersperse_size_hint((3, Some(3)), false), (5, Some(5)));
    assert_eq!(lender::intersperse_size_hint((3, Some(3)), true), (6, Some(6)));
    assert_eq!(lender::intersperse_size_hint((0, None), false), (0, None));
    assert_eq!(from_vec(vec![1, 2, 3]).intersperse(0).size_hint(), (5, Some(5)));
    assert_eq!(lender::intersperse_size_hint((usize::MAX, None), true), (usize::MAX, None));
    assert_eq!(lender::intersperse_size_hint((1, Some(usize::MAX)), false), (1, None));
    assert_eq!(lender::intersperse_size_hint((2, Some(usize::MAX / 2)), true), (4, Some(usize::MAX - 1)));
}
