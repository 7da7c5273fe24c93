//! Tests for range options and prefix ranges.

use fdb_tuple::range::{Range, RangeOptions, StreamingMode};

#[test]
fn range_impls() {
    fn impls_default<T>()
    where
        T: Default,
    {
    }
    impls_default::<RangeOptions>();
}

#[test]
fn range_options_accessors() {
    let mut opts = RangeOptions::default();
    assert_eq!(opts.get_limit(), 0);
    assert_eq!(opts.get_mode(), StreamingMode::Iterator);
    assert!(!opts.get_reverse());

    opts.set_limit(17);
    opts.set_mode(StreamingMode::WantAll);
    opts.set_reverse(true);

    assert_eq!(opts.get_limit(), 17);
    assert_eq!(opts.get_mode(), StreamingMode::WantAll);
    assert!(opts.get_reverse());
}

#[test]
fn range_starts_with() {
    let r = Range::starts_with(b"a\xFF".to_vec());
    assert_eq!(r.begin(), &b"a\xFF".to_vec());
    assert_eq!(r.end(), &b"b".to_vec());

    let r = Range::new(b"begin".to_vec(), b"end".to_vec());
    assert_eq!(r.begin(), &b"begin".to_vec());
    assert_eq!(r.end(), &b"end".to_vec());
}
