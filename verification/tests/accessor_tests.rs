use substr::bytes::split_after_char;
use substr::Builder;

#[test]
fn before_and_after_windows() {
    // buffer is "catscategory"
    let b = Builder::from_iter(vec![
        b"cat".to_vec(),
        b"cats".to_vec(),
        b"category".to_vec(),
    ])
    .unwrap();
    let col = b.build().unwrap();
    assert_eq!(col.before(0, 2).unwrap(), b"".as_slice());
    assert_eq!(col.after(0, 3).unwrap(), b"sca".as_slice());
    assert_eq!(col.before(2, 2).unwrap(), b"ts".as_slice());
    assert_eq!(col.after(2, 5).unwrap(), b"".as_slice());
    assert_eq!(col.before(1, 10).unwrap(), b"".as_slice());
    assert!(col.before(3, 1).is_none());
    assert!(col.after(3, 1).is_none());
}

#[test]
fn before_after_huge_window() {
    let b = Builder::from_iter(vec![b"abc".to_vec(), b"xyz".to_vec()]).unwrap();
    let col = b.build().unwrap();
    // windows clamp to the buffer bounds
    assert_eq!(col.before(1, usize::MAX).unwrap(), b"abc".as_slice());
    assert_eq!(col.after(0, usize::MAX).unwrap(), b"xyz".as_slice());
}

#[test]
fn boundary_never_splits_characters() {
    // "aé" is 3 bytes: 'a', then the 2-byte 'é'
    let b = Builder::from_iter(vec!["aé".as_bytes().to_vec(), b"xy".to_vec()]).unwrap();
    let col = b.build().unwrap();
    assert_eq!(col.storage_len(), 5);
    // a 1-byte window ending inside 'é' is extended to its start
    assert_eq!(col.before(1, 1).unwrap(), "é".as_bytes());
    assert_eq!(col.after(0, 1).unwrap(), b"x".as_slice());
    // every window over this buffer stays valid UTF-8
    for id in 0..2 {
        for len in 0..6 {
            let w = col.before(id, len).unwrap();
            assert!(std::str::from_utf8(w).is_ok());
            let w = col.after(id, len).unwrap();
            assert!(std::str::from_utf8(w).is_ok());
        }
    }
}

#[test]
fn iterator_is_ordered_and_finite() {
    let inputs: Vec<Vec<u8>> = vec![b"one".to_vec(), b"two".to_vec(), b"three".to_vec()];
    let b = Builder::from_iter(inputs.clone()).unwrap();
    let col = b.build().unwrap();
    let mut it = col.iter();
    for w in &inputs {
        assert_eq!(it.next().unwrap(), w.as_slice());
    }
    assert!(it.next().is_none());
    assert!(it.next().is_none());
}

#[test]
fn split_after_char_ascii() {
    let s = b"abc".to_vec();
    let (a, b) = split_after_char(&s, 1).unwrap();
    assert_eq!(a, b"a".to_vec());
    assert_eq!(b, b"bc".to_vec());
    let (a, b) = split_after_char(&s, 2).unwrap();
    assert_eq!(a, b"ab".to_vec());
    assert_eq!(b, b"c".to_vec());
    assert!(split_after_char(&s, 0).is_none());
    assert!(split_after_char(&s, 3).is_none());
    assert!(split_after_char(&s, 4).is_none());
}

#[test]
fn split_after_char_multibyte() {
    let s = "aéb".as_bytes().to_vec();
    assert_eq!(s.len(), 4);
    let (a, b) = split_after_char(&s, 1).unwrap();
    assert_eq!(a, b"a".to_vec());
    assert_eq!(b, "éb".as_bytes().to_vec());
    let (a, b) = split_after_char(&s, 2).unwrap();
    assert_eq!(a, "aé".as_bytes().to_vec());
    assert_eq!(b, b"b".to_vec());
    assert!(split_after_char(&s, 3).is_none());
}

#[test]
fn empty_collection_reports_sizes() {
    let col = substr::SubStr::default();
    assert_eq!(col.len(), 0);
    assert_eq!(col.storage_len(), 0);
    assert!(col.is_empty());
}
