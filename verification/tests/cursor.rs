use dice_expr::cursor::{peek_while, Cursor};

#[test]
fn keep_first_non_matching() {
    let mut iter = Cursor::new(vec![1, 2, 3]);
    let result: Vec<u32> = peek_while(&mut iter, |n: &u32| *n < 3).collect();
    assert_eq!(result, vec![1, 2]);
    assert_eq!(iter.next(), Some(3));
    assert_eq!(iter.next(), None);
}

#[test]
fn peek_does_not_consume() {
    let mut iter = Cursor::new(vec![7u32, 8]);
    assert_eq!(iter.peek(), Some(7));
    assert_eq!(iter.peek(), Some(7));
    assert_eq!(iter.next(), Some(7));
    assert_eq!(iter.peek(), Some(8));
    assert_eq!(iter.next(), Some(8));
    assert_eq!(iter.peek(), None);
    assert_eq!(iter.next(), None);
}

#[test]
fn peek_while_takes_one_at_a_time() {
    let mut iter = Cursor::new(vec![1u32, 5, 1]);
    let mut taking = peek_while(&mut iter, |n: &u32| *n < 3);
    assert_eq!(taking.next(), Some(1));
    assert_eq!(taking.next(), None);
    assert_eq!(taking.next(), None);
    assert_eq!(iter.next(), Some(5));
    assert_eq!(iter.next(), Some(1));
}

#[test]
fn peek_while_may_take_everything_or_nothing() {
    let mut iter = Cursor::new(vec![1u32, 2]);
    let all: Vec<u32> = peek_while(&mut iter, |_n: &u32| true).collect();
    assert_eq!(all, vec![1, 2]);
    assert_eq!(iter.next(), None);
    let mut iter = Cursor::new(vec![1u32, 2]);
    let none: Vec<u32> = peek_while(&mut iter, |_n: &u32| false).collect();
    assert_eq!(none, Vec::<u32>::new());
    assert_eq!(iter.next(), Some(1));
}
