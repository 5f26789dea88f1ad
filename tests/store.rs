use reddb::{Document, RedDb, Serializers};

fn open_empty() -> RedDb {
    RedDb::new(Serializers::Json("json".to_owned()), &[]).unwrap()
}

fn foo(v: &str) -> Vec<u8> {
    format!("{{\"foo\":\"{}\"}}", v).into_bytes()
}

#[test]
fn insert_data() {
    let mut db = open_empty();
    let doc: Document = db.insert_one(foo("test")).unwrap();
    let find: Document = db.find_one(doc.id).unwrap();
    assert_eq!(find.data, doc.data);
}

#[test]
fn find_ids() {
    let mut db = open_empty();
    let doc = db.insert_one(foo("test")).unwrap();
    let doc2 = db.insert_one(foo("test2")).unwrap();
    let doc3 = db.insert_one(foo("test")).unwrap();
    let ids = db.find_ids(&foo("test"));
    assert_eq!(ids.contains(&doc.id), true);
    assert_eq!(ids.contains(&doc2.id), false);
    assert_eq!(ids.contains(&doc3.id), true);
}

#[test]
fn insert_and_find_one() {
    let mut db = open_empty();
    let doc = db.insert_one(foo("test")).unwrap();
    let find = db.find_one(doc.id).unwrap();
    assert_eq!(find.id, doc.id);
    assert_eq!(find.data, doc.data);
}

#[test]
fn find() {
    let mut db = open_empty();
    let many = vec![foo("one"), foo("one"), foo("two")];
    db.insert(many).unwrap();
    let result = db.find(&foo("one"));
    assert_eq!(result.len(), 2);
}

#[test]
fn update_one() {
    let mut db = open_empty();
    let doc = db.insert_one(foo("hi")).unwrap();
    db.update_one(doc.id, &foo("bye")).unwrap();
    let result = db.find_one(doc.id).unwrap();
    assert_eq!(result.data, foo("bye"));
}

#[test]
fn update() {
    let mut db = open_empty();
    let many = vec![foo("one"), foo("one"), foo("two")];
    db.insert(many).unwrap();
    let updated = db.update(&foo("one"), &foo("two")).unwrap();
    assert_eq!(updated, 2);
    let result = db.find(&foo("two"));
    assert_eq!(result.len(), 3);
}

#[test]
fn delete_and_find_one() {
    let mut db = open_empty();
    let doc = db.insert_one(foo("test")).unwrap();
    let deleted = db.delete_one(doc.id).unwrap();
    assert_eq!(deleted, true);
    let not_deleted = db.delete_one(doc.id).unwrap();
    assert_eq!(not_deleted, false);
}

#[test]
fn delete() {
    let mut db = open_empty();
    let many = vec![foo("one"), foo("one"), foo("two")];
    db.insert(many).unwrap();
    let deleted = db.delete(&foo("one")).unwrap();
    assert_eq!(deleted, 2);
    let not_deleted = db.delete(&foo("one")).unwrap();
    assert_eq!(not_deleted, 0);
}
