use substr::Builder;
use substr::Error;

fn collect(col: &substr::SubStr) -> Vec<Vec<u8>> {
    let mut out = Vec::new();
    let mut it = col.iter();
    while let Some(s) = it.next() {
        out.push(s.to_vec());
    }
    out
}

#[test]
fn empty_input_fails() {
    let r = Builder::from_iter(Vec::new());
    assert!(matches!(r, Err(Error::NoMaxStringLen)));
}

#[test]
fn too_long_input_fails() {
    let long = vec![b'a'; 256];
    let r = Builder::from_iter(vec![b"ok".to_vec(), long]);
    assert!(matches!(r, Err(Error::StringTooLong(256))));
}

#[test]
fn too_long_reports_observed_max() {
    let r = Builder::from_iter(vec![vec![b'a'; 300], vec![b'b'; 256]]);
    assert!(matches!(r, Err(Error::StringTooLong(300))));
}

#[test]
fn build_only_is_idempotent() {
    let mut b = Builder::from_iter(vec![b"cat".to_vec(), b"cats".to_vec()]).unwrap();
    b.build_only().unwrap();
    let col1 = b.clone().build().unwrap();
    b.build_only().unwrap();
    let col2 = b.build().unwrap();
    assert_eq!(col1.storage_len(), col2.storage_len());
    assert_eq!(col1.get(0), col2.get(0));
    assert_eq!(col1.get(1), col2.get(1));
}

#[test]
fn length_ceiling_is_inclusive() {
    let edge = vec![b'a'; 255];
    let b = Builder::from_iter(vec![edge.clone()]).unwrap();
    let col = b.build().unwrap();
    assert_eq!(col.get(0).unwrap(), edge.as_slice());
}

#[test]
fn containment_scenario() {
    let b = Builder::from_iter(vec![
        b"cat".to_vec(),
        b"cats".to_vec(),
        b"category".to_vec(),
    ])
    .unwrap();
    let col = b.build().unwrap();
    assert_eq!(col.len(), 3);
    assert_eq!(col.storage_len(), 12);
    // buffer is exactly "catscategory" and the span table places "cat"
    // inside "cats"
    assert_eq!(col.string, b"catscategory".to_vec());
    assert_eq!(col.spans, vec![(0u32, 3u8), (0u32, 4u8), (4u32, 8u8)]);
    assert_eq!(col.get(0).unwrap(), b"cat".as_slice());
    assert_eq!(col.get(1).unwrap(), b"cats".as_slice());
    assert_eq!(col.get(2).unwrap(), b"category".as_slice());
    // "cat" is stored as a containment link inside "cats", which sits at
    // the front of the buffer, so id 0 is a 3-byte slice at offset 0
    let mut it = col.iter();
    assert_eq!(it.next().unwrap(), b"cat".as_slice());
}

#[test]
fn overlap_chain_scenario() {
    let b = Builder::from_iter(vec![b"application".to_vec(), b"cationary".to_vec()]).unwrap();
    let col = b.build().unwrap();
    assert_eq!(col.storage_len(), 14);
    assert_eq!(col.string, b"applicationary".to_vec());
    assert_eq!(col.spans, vec![(0u32, 11u8), (5u32, 9u8)]);
    assert_eq!(col.get(0).unwrap(), b"application".as_slice());
    assert_eq!(col.get(1).unwrap(), b"cationary".as_slice());
    // only the tail "ary" was appended after the shared "cation"
    assert_eq!(col.after(0, 3).unwrap(), b"ary".as_slice());
}

#[test]
fn no_waste_bound() {
    let inputs: Vec<Vec<u8>> = vec![
        b"cat".to_vec(),
        b"cats".to_vec(),
        b"category".to_vec(),
        b"application".to_vec(),
        b"cationary".to_vec(),
        b"unrelated".to_vec(),
    ];
    let total: usize = inputs.iter().map(|s| s.len()).sum();
    let b = Builder::from_iter(inputs).unwrap();
    let col = b.build().unwrap();
    assert!(col.storage_len() <= total);
    // containment and overlap exist among these inputs, so strictly less
    assert!(col.storage_len() < total);
}

#[test]
fn overlap_in_wrong_order_saves_nothing() {
    // "ca" ends with "a" and "ab" begins with "a", but the chainer only
    // extends forward from already placed strings: "ab" is placed first,
    // so the overlap is never exploited and the buffer is the plain
    // concatenation
    let b = Builder::from_iter(vec![b"ab".to_vec(), b"ca".to_vec()]).unwrap();
    let col = b.build().unwrap();
    assert_eq!(col.storage_len(), 4);
    assert_eq!(col.get(0).unwrap(), b"ab".as_slice());
    assert_eq!(col.get(1).unwrap(), b"ca".as_slice());
}

#[test]
fn round_trip_everything() {
    let inputs: Vec<Vec<u8>> = vec![
        b"substring".to_vec(),
        b"sub".to_vec(),
        b"ring".to_vec(),
        b"with".to_vec(),
        b"each".to_vec(),
        b"the".to_vec(),
        b"heart".to_vec(),
    ];
    let b = Builder::from_iter(inputs.clone()).unwrap();
    let col = b.build().unwrap();
    assert_eq!(col.len(), inputs.len());
    assert_eq!(collect(&col), inputs);
    for (i, w) in inputs.iter().enumerate() {
        assert_eq!(col.get(i).unwrap(), w.as_slice());
    }
    assert!(col.get(inputs.len()).is_none());
}

#[test]
fn verify_reports_true() {
    let mut b = Builder::from_iter(vec![
        b"overlap".to_vec(),
        b"lapping".to_vec(),
        b"over".to_vec(),
        b"lap".to_vec(),
    ])
    .unwrap();
    assert!(b.verify().unwrap());
    let col = b.build().unwrap();
    assert_eq!(col.get(3).unwrap(), b"lap".as_slice());
}

#[test]
fn duplicate_inputs_terminate() {
    // two equal strings contain each other; the containment cycle must
    // be broken, not looped on
    let b = Builder::from_iter(vec![b"aa".to_vec(), b"aa".to_vec()]).unwrap();
    let col = b.build().unwrap();
    assert_eq!(col.get(0).unwrap(), b"aa".as_slice());
    assert_eq!(col.get(1).unwrap(), b"aa".as_slice());
    assert!(col.storage_len() <= 4);
}

#[test]
fn overlapping_occurrences_found() {
    let b = Builder::from_iter(vec![b"aa".to_vec(), b"aaa".to_vec()]).unwrap();
    let col = b.build().unwrap();
    assert_eq!(col.storage_len(), 3);
    assert_eq!(col.get(0).unwrap(), b"aa".as_slice());
    assert_eq!(col.get(1).unwrap(), b"aaa".as_slice());
}

#[test]
fn empty_string_round_trips() {
    let b = Builder::from_iter(vec![Vec::new(), b"x".to_vec()]).unwrap();
    let col = b.build().unwrap();
    assert_eq!(col.get(0).unwrap(), b"".as_slice());
    assert_eq!(col.get(1).unwrap(), b"x".as_slice());
    assert_eq!(col.storage_len(), 1);
}

#[test]
fn default_builder_builds_empty() {
    let b = Builder::default();
    let col = b.build().unwrap();
    assert_eq!(col.len(), 0);
    assert!(col.is_empty());
    assert!(col.get(0).is_none());
}

#[test]
fn builder_state_reflects_build() {
    let mut b = Builder::from_iter(vec![b"cat".to_vec(), b"cats".to_vec()]).unwrap();
    let st = b.state();
    assert!(!st.build);
    assert!(st.silent);
    assert_eq!(st.strings, vec![b"cat".to_vec(), b"cats".to_vec()]);
    assert_eq!(st.spans.len(), 2);
    assert!(st.spans.iter().all(|s| s.is_none()));
    assert!(st.index_string.is_empty());
    b.build_only().unwrap();
    let st = b.state();
    assert!(st.build);
    assert!(st.spans.iter().all(|s| s.is_some()));
    assert_eq!(st.index_string, b"cats".to_vec());
    // "cat" is linked into "cats" rather than stored again
    assert!(st.contained_in[0].is_some());
}

#[test]
fn debug_messages_do_not_change_result() {
    let mut b = Builder::from_iter(vec![b"cat".to_vec(), b"cats".to_vec()]).unwrap();
    b.debug_messages(true);
    b.debug_messages(false);
    let col = b.build().unwrap();
    assert_eq!(col.get(0).unwrap(), b"cat".as_slice());
    assert_eq!(col.storage_len(), 4);
}
