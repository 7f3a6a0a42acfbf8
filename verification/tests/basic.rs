//! The basic smoke test of the store module.

use ragstore::store::EmbeddingStore;

#[test]
fn test_basic_functionality() {
    let store = EmbeddingStore::new_in_memory();
    assert!(store.is_ok());
}
