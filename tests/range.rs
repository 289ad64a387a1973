use sprs::range::Range;

#[test]
fn bounded_range() {
    let r = 2..5usize;
    assert_eq!(Range::start(&r), Some(2));
    assert_eq!(Range::end(&r), Some(5));
}

#[test]
fn open_ranges() {
    let from = 3usize..;
    assert_eq!(Range::start(&from), Some(3));
    assert_eq!(Range::end(&from), None);
    let to = ..7usize;
    assert_eq!(Range::start(&to), None);
    assert_eq!(Range::end(&to), Some(7));
    let full = ..;
    assert_eq!(Range::start(&full), None);
    assert_eq!(Range::end(&full), None);
}
