use lender::{from_vec, FallibleLender, Lender};

#[test]
fn test_flatmap_empty() {
    let mut l = from_vec(vec![1, 0, 2]).flat_map(|n: i32| from_vec((0..n).collect::<Vec<i32>>()));
    assert_eq!(l.next(), Some(0));
    assert_eq!(l.next(), Some(0));
    assert_eq!(l.next(), Some(1));
    assert_eq!(l.next(), None);
    assert_eq!(l.next(), None);
}

#[test]
fn test_flat_map_empty() {
    let mut l = from_vec(vec![1, 0, 2])
        .into_fallible()
        .flat_map(|n: i32| Ok(from_vec((0..n).collect::<Vec<i32>>()).into_fallible()));
    assert_eq!(l.next(), Ok(Some(0)));
    assert_eq!(l.next(), Ok(Some(0)));
    assert_eq!(l.next(), Ok(Some(1)));
    assert_eq!(l.next(), Ok(None));
    assert_eq!(l.next(), Ok(None));
}
