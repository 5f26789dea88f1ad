use reddb::{RedDb, RedDbError, Serializers, Status};

fn open_empty() -> RedDb {
    RedDb::new(Serializers::Json("json".to_owned()), &[]).unwrap()
}

fn foo(v: &str) -> Vec<u8> {
    format!("{{\"foo\":\"{}\"}}", v).into_bytes()
}

#[test]
fn ids_are_pairwise_distinct() {
    let mut db = open_empty();
    let mut ids = Vec::new();
    for _ in 0..200 {
        ids.push(db.insert_one(foo("same")).unwrap().id);
    }
    for i in 0..ids.len() {
        for j in (i + 1)..ids.len() {
            assert_ne!(ids[i], ids[j]);
        }
    }
    assert_eq!(db.len(), 200);
}

#[test]
fn update_then_delete_counts() {
    let mut db = open_empty();
    db.insert(vec![foo("one"), foo("one"), foo("two")]).unwrap();
    assert_eq!(db.update(&foo("one"), &foo("two")).unwrap(), 2);
    assert_eq!(db.find(&foo("one")).len(), 0);
    assert_eq!(db.delete(&foo("one")).unwrap(), 0);
    assert_eq!(db.delete(&foo("two")).unwrap(), 3);
    assert_eq!(db.delete(&foo("two")).unwrap(), 0);
    assert_eq!(db.len(), 0);
}

#[test]
fn pattern_must_match_whole_payload() {
    let mut db = open_empty();
    db.insert_one(b"{\"foo\":\"one\",\"bar\":1}".to_vec()).unwrap();
    assert_eq!(db.find(&foo("one")).len(), 0);
    assert_eq!(db.find(b"{\"foo\":\"one\",\"bar\":1}").len(), 1);
}

#[test]
fn unknown_id_is_not_found() {
    let mut db = open_empty();
    db.insert_one(foo("x")).unwrap();
    let id: u128 = 0x1234;
    assert_eq!(db.find_one(id).unwrap_err(), RedDbError::NotFound { uuid: id });
    assert_eq!(db.update_one(id, &foo("y")).unwrap(), false);
    assert_eq!(db.delete_one(id).unwrap(), false);
}

#[test]
fn newline_payload_is_refused() {
    let mut db = open_empty();
    assert_eq!(db.insert_one(b"a\nb".to_vec()).unwrap_err(), RedDbError::Serialization);
    assert_eq!(db.insert(vec![foo("ok"), b"\n".to_vec()]).unwrap_err(), RedDbError::Serialization);
    assert_eq!(db.len(), 0);
    let doc = db.insert_one(foo("ok")).unwrap();
    assert_eq!(db.update_one(doc.id, b"x\n").unwrap_err(), RedDbError::Serialization);
    assert_eq!(db.update(&foo("ok"), b"x\n").unwrap_err(), RedDbError::Serialization);
    assert_eq!(db.find_one(doc.id).unwrap().data, foo("ok"));
}

#[test]
fn log_record_layout() {
    let mut db = open_empty();
    let doc = db.insert_one(foo("one")).unwrap();
    let text = uuid::Uuid::from_u128(doc.id).hyphenated().to_string();
    let expected = format!("{{\"_id\":\"{}\",\"data\":{{\"foo\":\"one\"}}}}\n", text);
    assert_eq!(db.persist_log(), expected.into_bytes());
    db.mark_saved();
    assert!(db.persist_log().is_empty());
    assert_eq!(db.find_one(doc.id).unwrap().status, Status::Saved);
    db.delete_one(doc.id).unwrap();
    assert_eq!(db.persist_log(), format!("{{\"_id\":\"{}\"}}\n", text).into_bytes());
}

#[test]
fn fixed_id_record_bytes() {
    let log = b"{\"_id\":\"a1a2a3a4-b1b2-c1c2-d1d2-d3d4d5d6d7d8\",\"data\":{\"foo\":\"one\"}}\n";
    let db = RedDb::new(Serializers::Json("json".to_owned()), log).unwrap();
    let doc = db.find_one(0xa1a2a3a4b1b2c1c2d1d2d3d4d5d6d7d8).unwrap();
    assert_eq!(doc.data, foo("one"));
    assert_eq!(doc.status, Status::Saved);
}

#[test]
fn replay_keeps_last_value() {
    let mut db = open_empty();
    let a = db.insert_one(foo("a1")).unwrap().id;
    let b = db.insert_one(foo("b1")).unwrap().id;
    let c = db.insert_one(foo("c1")).unwrap().id;
    let mut log = db.persist_log();
    db.mark_saved();
    db.update_one(a, &foo("a2")).unwrap();
    db.delete_one(b).unwrap();
    log.extend(db.persist_log());
    db.mark_saved();
    let reopened = RedDb::new(Serializers::Json("json".to_owned()), &log).unwrap();
    assert_eq!(reopened.len(), 2);
    assert_eq!(reopened.find_one(a).unwrap().data, foo("a2"));
    assert_eq!(reopened.find_one(b).unwrap_err(), RedDbError::NotFound { uuid: b });
    assert_eq!(reopened.find_one(c).unwrap().data, foo("c1"));
}

#[test]
fn malformed_log_is_refused() {
    let fmt = || Serializers::Json("json".to_owned());
    assert_eq!(RedDb::new(fmt(), b"not a record\n").err(), Some(RedDbError::ContentLoad));
    assert_eq!(
        RedDb::new(fmt(), b"{\"_id\":\"zzzzzzzz-b1b2-c1c2-d1d2-d3d4d5d6d7d8\"}\n").err(),
        Some(RedDbError::ContentLoad)
    );
    assert_eq!(RedDb::new(fmt(), b"\n").err(), Some(RedDbError::ContentLoad));
    assert!(RedDb::new(fmt(), b"").is_ok());
}

#[test]
fn format_is_kept() {
    let db = RedDb::new(Serializers::Ron("ron".to_owned()), &[]).unwrap();
    assert_eq!(db.format().extension(), "ron");
}

#[test]
fn upper_case_id_text_is_refused() {
    let log = b"{\"_id\":\"A1A2A3A4-B1B2-C1C2-D1D2-D3D4D5D6D7D8\",\"data\":{\"foo\":\"one\"}}\n";
    assert_eq!(
        RedDb::new(Serializers::Json("json".to_owned()), log).err(),
        Some(RedDbError::ContentLoad)
    );
}

#[test]
fn missing_final_newline_is_refused() {
    let log = b"{\"_id\":\"a1a2a3a4-b1b2-c1c2-d1d2-d3d4d5d6d7d8\",\"data\":{\"foo\":\"one\"}}";
    assert_eq!(
        RedDb::new(Serializers::Json("json".to_owned()), log).err(),
        Some(RedDbError::ContentLoad)
    );
}

#[test]
fn deleted_id_stays_absent() {
    let mut db = open_empty();
    let gone = db.insert_one(foo("x")).unwrap().id;
    assert_eq!(db.delete_one(gone).unwrap(), true);
    for _ in 0..50 {
        let id = db.insert_one(foo("y")).unwrap().id;
        assert_ne!(id, gone);
    }
    assert_eq!(db.find_one(gone).unwrap_err(), RedDbError::NotFound { uuid: gone });
}

#[test]
fn empty_batch_inserts_nothing() {
    let mut db = open_empty();
    assert_eq!(db.insert(Vec::new()).unwrap().len(), 0);
    assert_eq!(db.len(), 0);
}
