//! The codec is purely computational, so its values can be handed to the
//! layers that own database and transaction handles and move across their
//! threads freely.

use fdb_tuple::range::Range;
use fdb_tuple::subspace::Subspace;
use fdb_tuple::tuple::Tuple;
use fdb_tuple::versionstamp::Versionstamp;

#[test]
fn fdb_database_trait_bounds() {
    fn trait_bounds_for_fdb_database<T>(_t: T)
    where
        T: Send + Sync + 'static,
    {
    }
    let mut t = Tuple::new();
    t.add_string("hello".to_string());
    trait_bounds_for_fdb_database(t);
    trait_bounds_for_fdb_database(Subspace::new(b"prefix".to_vec()));
    trait_bounds_for_fdb_database(Range::new(b"a".to_vec(), b"b".to_vec()));
}

#[test]
fn fdb_transaction_trait_bounds() {
    fn trait_bounds_for_fdb_transaction<T>(_t: T)
    where
        T: Send + 'static,
    {
    }
    let mut t = Tuple::new();
    t.add_versionstamp(Versionstamp::incomplete(0));
    trait_bounds_for_fdb_transaction(t);
    trait_bounds_for_fdb_transaction(Versionstamp::incomplete(1));
}
