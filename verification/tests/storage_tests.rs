use zkdb::database::{Database, DatabaseType, LocalExecutor};
use zkdb::store::MemStore;

#[test]
fn test_storage_integration() {
    let mut db = Database::new(DatabaseType::Merkle, MemStore::new(), LocalExecutor, None);

    let key = "test_key";
    let value = b"test_value";

    db.put(key, value, false).unwrap();

    let retrieved = db.get(key, false).unwrap();
    assert_eq!(&retrieved, value);
}
