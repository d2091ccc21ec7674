use std::path::PathBuf;
use struvedb::file_plan::FilePlan;
use struvedb::{Collection, CollectionBackend, Document, Error, FileBasedCollection, StorageOp};
use uuid::Uuid;

#[derive(Debug, Clone, PartialEq)]
struct User {
    uuid: Uuid,
    name: String,
}

fn user_to_json(user: &User) -> Option<Vec<u8>> {
    let mut fields = serde_json::Map::new();
    fields.insert("uuid".to_string(), serde_json::Value::String(user.uuid.to_string()));
    fields.insert("name".to_string(), serde_json::Value::String(user.name.clone()));
    serde_json::to_vec(&serde_json::Value::Object(fields)).ok()
}

fn user_from_json(text: &[u8]) -> Option<User> {
    let value: serde_json::Value = serde_json::from_slice(text).ok()?;
    let uuid = Uuid::parse_str(value.get("uuid")?.as_str()?).ok()?;
    let name = value.get("name")?.as_str()?.to_string();
    Some(User { uuid, name })
}

impl Document<User> for User {
    fn key(&self) -> u128 {
        self.uuid.as_u128()
    }

    fn conflicts_with(&self, doc: &User) -> bool {
        self.name == doc.name
    }

    fn json(&self) -> Option<Vec<u8>> {
        user_to_json(self)
    }

    fn parsed(text: &[u8]) -> Option<User> {
        user_from_json(text)
    }

    fn primary_key(&self) -> u128 {
        self.uuid.as_u128()
    }

    fn intersects(&self, doc: &User) -> Result<(), &str> {
        if self.name == doc.name {
            return Err("Email is already in use.");
        }
        return Ok(());
    }

    fn to_json(&self) -> Option<Vec<u8>> {
        user_to_json(self)
    }

    fn from_json(text: &[u8]) -> Option<User> {
        user_from_json(text)
    }
}

impl User {
    pub fn new(name: String) -> Self {
        User { uuid: Uuid::new_v4(), name }
    }
}

/// A record of a chosen length: `{"id":<id>,"pad":"xxx"}`, or nothing
/// where the length is zero.
#[derive(Debug, Clone, PartialEq)]
struct Sized {
    id: u128,
    length: usize,
}

fn sized_to_json(doc: &Sized) -> Option<Vec<u8>> {
    if doc.length == 0 {
        return None;
    }
    let head = format!("{{\"id\":{},\"pad\":\"", doc.id);
    let tail = "\"}";
    assert!(head.len() + tail.len() <= doc.length);
    let fill = "x".repeat(doc.length - head.len() - tail.len());
    Some(format!("{}{}{}", head, fill, tail).into_bytes())
}

fn sized_from_json(text: &[u8]) -> Option<Sized> {
    let value: serde_json::Value = serde_json::from_slice(text).ok()?;
    let id = value.get("id")?.as_u64()? as u128;
    value.get("pad")?.as_str()?;
    Some(Sized { id, length: text.len() })
}

impl Document<Sized> for Sized {
    fn key(&self) -> u128 {
        self.id
    }

    fn conflicts_with(&self, _doc: &Sized) -> bool {
        false
    }

    fn json(&self) -> Option<Vec<u8>> {
        sized_to_json(self)
    }

    fn parsed(text: &[u8]) -> Option<Sized> {
        sized_from_json(text)
    }

    fn primary_key(&self) -> u128 {
        self.id
    }

    fn intersects(&self, _doc: &Sized) -> Result<(), &str> {
        Ok(())
    }

    fn to_json(&self) -> Option<Vec<u8>> {
        sized_to_json(self)
    }

    fn from_json(text: &[u8]) -> Option<Sized> {
        sized_from_json(text)
    }
}

/// Carries the operations out on a file held in memory, as positional
/// writes would.
fn perform(file: &mut Vec<u8>, ops: &[StorageOp]) {
    for op in ops {
        match op {
            StorageOp::Truncate => file.clear(),
            StorageOp::WriteAt { offset, bytes } => {
                let offset = *offset as usize;
                if file.len() < offset + bytes.len() {
                    file.resize(offset + bytes.len(), 0);
                }
                file[offset..offset + bytes.len()].copy_from_slice(bytes);
            }
            other => panic!("not an operation on the single file: {:?}", other),
        }
    }
}

fn slots_of(docs: &[Sized], slot: usize) -> Vec<u8> {
    let mut file = Vec::new();
    for doc in docs {
        let mut record = sized_to_json(doc).unwrap();
        record.resize(slot, b' ');
        record.push(b'\n');
        file.extend_from_slice(&record);
    }
    file
}

fn file_path() -> PathBuf {
    PathBuf::from("collections").join("user.col")
}

#[test]
fn test_file_based() {
    let mut file: Vec<u8> = Vec::new();
    let mut c = Collection::<User>::new(CollectionBackend::File, Some(file_path()));
    c.load_structs_from_file(&file);

    let user = User::new("bob".to_string());
    let mut user_cloned = user.clone();
    let res = c.insert(user);
    if res.is_err() {
        println!("{:?}", res.as_ref().unwrap())
    }
    assert_eq!(res.is_ok(), true);
    perform(&mut file, &res.unwrap());
    assert_eq!(c.commit(true), Ok(()));

    let user = User::new("bill".to_string());
    let b_uuid = user.uuid.clone();
    let res = c.insert(user);
    assert_eq!(res.is_ok(), true);
    perform(&mut file, &res.unwrap());
    assert_eq!(c.commit(true), Ok(()));

    user_cloned.name = "Trevor".to_string();
    let res = c.update(user_cloned.clone());
    assert_eq!(res.is_ok(), true);
    perform(&mut file, &res.unwrap());
    assert_eq!(c.commit(true), Ok(()));

    let user = User::new("dan".to_string());
    let uuid = user.uuid.clone();
    let res = c.insert(user.clone());
    assert_eq!(res.is_ok(), true);
    perform(&mut file, &res.unwrap());
    assert_eq!(c.commit(true), Ok(()));

    let get_user = c.by_primary_key(&uuid.as_u128());
    if get_user.is_some() {
        println!("{:?}", get_user.unwrap());
    }

    let del = c.delete(&b_uuid.as_u128());
    assert_eq!(del.is_ok(), true);
    perform(&mut file, &del.unwrap());
    assert_eq!(c.commit(true), Ok(()));

    let get_user = c.by_primary_key(&uuid.as_u128());
    if get_user.is_some() {
        println!("{:?}", get_user.unwrap());
    }

    assert_eq!(c.filter(|_| true), vec![user_cloned.clone(), user.clone()]);
    assert_eq!(file.len(), 2 * 129);

    let mut reopened = Collection::<User>::new(CollectionBackend::File, Some(file_path()));
    reopened.load_structs_from_file(&file);
    assert_eq!(reopened.filter(|_| true), vec![user_cloned, user]);
}

#[test]
fn file_based_collection_test_insert() {
    let mut file: Vec<u8> = Vec::new();
    let mut c = FileBasedCollection::<User>::new(file_path(), None);
    c.load_structs_from_file(&file);

    let user = User::new("bob".to_string());
    let mut user_cloned = user.clone();
    let res = c.insert(user);
    if res.is_err() {
        println!("{:?}", res.as_ref().unwrap())
    }
    assert_eq!(res.is_ok(), true);
    perform(&mut file, &res.unwrap());
    assert_eq!(c.commit(true), Ok(()));
    assert_eq!(c.max_byte_length(), 128);

    let user = User::new("bill".to_string());
    let b_uuid = user.uuid.clone();
    let res = c.insert(user);
    assert_eq!(res.is_ok(), true);
    perform(&mut file, &res.unwrap());
    assert_eq!(c.commit(true), Ok(()));

    user_cloned.name = "Trevor".to_string();
    let res = c.update(user_cloned.clone());
    assert_eq!(res.is_ok(), true);
    perform(&mut file, &res.unwrap());
    assert_eq!(c.commit(true), Ok(()));

    let user = User::new("dan".to_string());
    let uuid = user.uuid.clone();
    let res = c.insert(user.clone());
    assert_eq!(res.is_ok(), true);
    perform(&mut file, &res.unwrap());
    assert_eq!(c.commit(true), Ok(()));

    let get_user = c.by_primary_key(&uuid.as_u128());
    if get_user.is_some() {
        println!("{:?}", get_user.unwrap());
    }

    let del = c.delete(&b_uuid.as_u128());
    assert_eq!(del.is_ok(), true);
    perform(&mut file, &del.unwrap());
    assert_eq!(c.commit(true), Ok(()));

    let get_user = c.by_primary_key(&uuid.as_u128());
    if get_user.is_some() {
        println!("{:?}", get_user.unwrap());
    }

    assert_eq!(c.by_primary_key(&uuid.as_u128()), Some(user.clone()));
    assert_eq!(c.by_primary_key(&b_uuid.as_u128()), None);
    assert_eq!(c.find(|u| u.name == "Trevor"), Some(user_cloned.clone()));

    let mut reopened = FileBasedCollection::<User>::new(file_path(), None);
    reopened.load_structs_from_file(&file);
    assert_eq!(reopened.filter(|_| true), vec![user_cloned, user]);
}

#[test]
fn three_small_documents_then_a_large_one() {
    let mut file: Vec<u8> = Vec::new();
    let mut c = Collection::<Sized>::with_slot_sizes(CollectionBackend::File, Some(file_path()), Some(64), Some(128));
    let small = vec![Sized { id: 1, length: 40 }, Sized { id: 2, length: 40 }, Sized { id: 3, length: 40 }];
    for (i, doc) in small.iter().enumerate() {
        let ops = c.insert(doc.clone()).unwrap();
        assert_eq!(ops.len(), 1);
        match &ops[0] {
            StorageOp::WriteAt { offset, bytes } => {
                assert_eq!(*offset, (i * 129) as u64);
                assert_eq!(bytes.len(), 129);
                assert_eq!(&bytes[..40], sized_to_json(doc).unwrap().as_slice());
                assert!(bytes[40..128].iter().all(|b| *b == b' '));
                assert_eq!(bytes[128], b'\n');
            }
            other => panic!("unexpected operation {:?}", other),
        }
        perform(&mut file, &ops);
        assert_eq!(c.commit(true), Ok(()));
    }
    assert_eq!(c.max_byte_length(), 128);
    assert_eq!(file.len(), 3 * 129);
    assert_eq!(file, slots_of(&small, 128));

    let large = Sized { id: 4, length: 150 };
    let ops = c.insert(large.clone()).unwrap();
    assert_eq!(c.max_byte_length(), 128);
    assert_eq!(ops.len(), 5);
    assert_eq!(ops[0], StorageOp::Truncate);
    let offsets: Vec<u64> = ops[1..]
        .iter()
        .map(|op| match op {
            StorageOp::WriteAt { offset, bytes } => {
                assert_eq!(bytes.len(), 193);
                *offset
            }
            other => panic!("unexpected operation {:?}", other),
        })
        .collect();
    assert_eq!(offsets, vec![0, 193, 386, 579]);
    perform(&mut file, &ops);
    assert_eq!(c.commit(true), Ok(()));
    assert_eq!(c.max_byte_length(), 192);
    let mut all = small.clone();
    all.push(large);
    assert_eq!(file, slots_of(&all, 192));
    assert_eq!(file.len(), 4 * 193);
    for doc in &all {
        assert_eq!(c.by_primary_key(&doc.id), Some(doc.clone()));
    }
}

#[test]
fn slot_size_grows_to_the_exact_multiple() {
    let mut c = Collection::<Sized>::new(CollectionBackend::File, Some(file_path()));
    let plan: FilePlan = c.write_new_document_to_file(&Sized { id: 1, length: 192 }).unwrap();
    assert_eq!(plan.max_byte_length, 192);
    let plan = c.write_new_document_to_file(&Sized { id: 1, length: 193 }).unwrap();
    assert_eq!(plan.max_byte_length, 256);
    let plan = c.write_new_document_to_file(&Sized { id: 1, length: 128 }).unwrap();
    assert_eq!(plan.max_byte_length, 128);
    assert_eq!(plan.ops.len(), 1);
    assert_eq!(c.insert(Sized { id: 1, length: 129 }).map(|ops| ops.len()), Ok(2));
    assert_eq!(c.commit(true), Ok(()));
    assert_eq!(c.max_byte_length(), 192);
}

#[test]
fn delete_compacts_the_slots() {
    let mut file: Vec<u8> = Vec::new();
    let mut c = FileBasedCollection::<Sized>::new(file_path(), Some(64));
    let docs: Vec<Sized> = (0..5u128).map(|id| Sized { id, length: 30 + id as usize }).collect();
    for doc in &docs {
        let ops = c.insert(doc.clone()).unwrap();
        perform(&mut file, &ops);
        assert_eq!(c.commit(true), Ok(()));
    }
    assert_eq!(c.max_byte_length(), 128);
    assert_eq!(file, slots_of(&docs, 128));
    let ops = c.delete(&1).unwrap();
    assert_eq!(ops.len(), 5);
    assert_eq!(c.len(), 5);
    perform(&mut file, &ops);
    assert_eq!(c.commit(true), Ok(()));
    let kept = vec![docs[0].clone(), docs[2].clone(), docs[3].clone(), docs[4].clone()];
    assert_eq!(file, slots_of(&kept, 128));
    assert_eq!(file.len(), 4 * 129);
    assert_eq!(c.filter(|_| true), kept);
    assert_eq!(&file[129..129 + 32], sized_to_json(&docs[2]).unwrap().as_slice());
    for doc in &kept {
        assert_eq!(c.by_primary_key(&doc.id), Some(doc.clone()));
    }
    assert_eq!(c.by_primary_key(&1), None);
}

#[test]
fn update_writes_into_the_slot_of_the_key() {
    let mut file: Vec<u8> = Vec::new();
    let mut c = FileBasedCollection::<Sized>::new(file_path(), Some(64));
    for id in 0..3u128 {
        let ops = c.insert(Sized { id, length: 40 }).unwrap();
        perform(&mut file, &ops);
        assert_eq!(c.commit(true), Ok(()));
    }
    let ops = c.update(Sized { id: 1, length: 50 }).unwrap();
    assert_eq!(ops.len(), 1);
    match &ops[0] {
        StorageOp::WriteAt { offset, bytes } => {
            assert_eq!(*offset, 129);
            assert_eq!(bytes.len(), 129);
        }
        other => panic!("unexpected operation {:?}", other),
    }
    perform(&mut file, &ops);
    assert_eq!(c.commit(true), Ok(()));
    let now = vec![Sized { id: 0, length: 40 }, Sized { id: 1, length: 50 }, Sized { id: 2, length: 40 }];
    assert_eq!(file, slots_of(&now, 128));

    let ops = c.update(Sized { id: 0, length: 150 }).unwrap();
    assert_eq!(ops.len(), 5);
    perform(&mut file, &ops);
    assert_eq!(c.commit(true), Ok(()));
    let now = vec![Sized { id: 0, length: 150 }, Sized { id: 1, length: 50 }, Sized { id: 2, length: 40 }];
    assert_eq!(c.max_byte_length(), 192);
    assert_eq!(file, slots_of(&now, 192));
    assert_eq!(c.filter(|_| true), now);
}

#[test]
fn a_failed_write_changes_nothing() {
    let mut c = FileBasedCollection::<Sized>::new(file_path(), None);
    let ops = c.insert(Sized { id: 7, length: 200 }).unwrap();
    assert_eq!(ops.len(), 2);
    assert_eq!(c.len(), 0);
    assert_eq!(c.commit(false), Err(Error::IoFailure));
    assert_eq!(c.len(), 0);
    assert_eq!(c.max_byte_length(), 128);
    assert_eq!(c.commit(true), Ok(()));
    assert_eq!(c.len(), 0);
    let ops = c.insert(Sized { id: 7, length: 200 }).unwrap();
    assert_eq!(ops.len(), 2);
    assert_eq!(c.commit(true), Ok(()));
    assert_eq!(c.len(), 1);
    assert_eq!(c.max_byte_length(), 256);
}

#[test]
fn file_backend_errors() {
    let mut c = FileBasedCollection::<Sized>::new(file_path(), Some(0));
    assert_eq!(c.insert(Sized { id: 1, length: 0 }), Err(Error::SerializationFailure));
    assert_eq!(c.insert(Sized { id: 1, length: 200 }), Err(Error::RecordTooLarge));
    assert_eq!(c.delete(&1), Err(Error::KeyNotFound));
    assert_eq!(c.insert(Sized { id: 1, length: 128 }).map(|ops| ops.len()), Ok(1));

    let mut c = FileBasedCollection::<Sized>::new(file_path(), Some(64));
    assert_eq!(c.update(Sized { id: 1, length: 40 }), Err(Error::KeyNotFound));
    assert!(c.insert(Sized { id: 1, length: 40 }).is_ok());
    assert_eq!(c.commit(true), Ok(()));
    assert_eq!(c.insert(Sized { id: 1, length: 41 }), Err(Error::DuplicateKey));
    assert_eq!(c.update(Sized { id: 1, length: 0 }), Err(Error::SerializationFailure));

    let mut users = FileBasedCollection::<User>::new(file_path(), None);
    assert!(users.insert(User::new("ann".to_string())).is_ok());
    assert_eq!(users.commit(true), Ok(()));
    assert_eq!(users.insert(User::new("ann".to_string())), Err(Error::ConstraintViolation));
    assert_eq!(users.len(), 1);
}

#[test]
fn a_stored_document_that_outgrew_its_slot_stops_the_rewrite() {
    let mut c = Collection::<Sized>::with_slot_sizes(CollectionBackend::File, Some(file_path()), Some(64), Some(32));
    let file = slots_of(&[Sized { id: 1, length: 100 }, Sized { id: 2, length: 20 }], 128);
    c.load_structs_from_file(&file);
    assert_eq!(c.len(), 2);
    assert_eq!(c.rewrite_file(), Err(Error::RecordTooLarge));
    assert_eq!(c.resize_db(64), Err(Error::RecordTooLarge));
    assert_eq!(c.resize_db(128).map(|ops| ops.len()), Ok(3));
    assert_eq!(c.delete(&2), Err(Error::RecordTooLarge));
    assert_eq!(c.delete(&1).map(|ops| ops.len()), Ok(2));
    assert_eq!(c.insert(Sized { id: 3, length: 40 }), Err(Error::RecordTooLarge));
    assert_eq!(c.insert(Sized { id: 3, length: 101 }).map(|ops| ops.len()), Ok(4));
}

#[test]
fn loading_stops_at_the_first_line_without_a_record() {
    let a = Sized { id: 1, length: 30 };
    let b = Sized { id: 2, length: 31 };
    let d = Sized { id: 3, length: 32 };
    let mut file = slots_of(&[a.clone(), b.clone()], 64);
    file.extend_from_slice(b"   \n");
    file.extend_from_slice(&slots_of(&[d.clone()], 64));
    let mut c = FileBasedCollection::<Sized>::new(file_path(), None);
    c.load_structs_from_file(&file);
    assert_eq!(c.filter(|_| true), vec![a.clone(), b.clone()]);

    let mut file = slots_of(&[a.clone()], 64);
    file.extend_from_slice(b"not a record\n");
    file.extend_from_slice(&slots_of(&[b.clone()], 64));
    let mut c = FileBasedCollection::<Sized>::new(file_path(), None);
    c.load_structs_from_file(&file);
    assert_eq!(c.filter(|_| true), vec![a.clone()]);

    let mut file = b"\t ".to_vec();
    file.extend_from_slice(&sized_to_json(&a).unwrap());
    file.extend_from_slice(b" \r\n");
    file.extend_from_slice(&sized_to_json(&d).unwrap());
    let mut c = FileBasedCollection::<Sized>::new(file_path(), None);
    c.load_structs_from_file(&file);
    assert_eq!(c.filter(|_| true), vec![a.clone(), d.clone()]);
    assert_eq!(c.max_byte_length(), 128);

    let mut without_path = Collection::<Sized>::new(CollectionBackend::File, None);
    without_path.load_structs_from_file(&slots_of(&[a.clone()], 64));
    assert_eq!(without_path.len(), 0);
}

#[test]
fn a_later_line_replaces_an_earlier_one_with_its_key() {
    let first = Sized { id: 1, length: 30 };
    let other = Sized { id: 2, length: 30 };
    let again = Sized { id: 1, length: 35 };
    let file = slots_of(&[first, other.clone(), again.clone()], 64);
    let mut c = FileBasedCollection::<Sized>::new(file_path(), None);
    c.load_structs_from_file(&file);
    assert_eq!(c.filter(|_| true), vec![again, other]);
}

#[test]
fn inserted_document_is_read_back_by_a_new_collection() {
    let mut file: Vec<u8> = Vec::new();
    let mut c = FileBasedCollection::<User>::new(file_path(), Some(64));
    let ann = User::new("ann".to_string());
    let joe = User::new("joe \"the long named\" with a name that needs a wider slot than the first".to_string());
    for user in [&ann, &joe] {
        let ops = c.insert(user.clone()).unwrap();
        perform(&mut file, &ops);
        assert_eq!(c.commit(true), Ok(()));
    }
    let mut reopened = FileBasedCollection::<User>::new(file_path(), Some(64));
    reopened.load_structs_from_file(&file);
    assert_eq!(reopened.by_primary_key(&ann.uuid.as_u128()), Some(ann));
    assert_eq!(reopened.by_primary_key(&joe.uuid.as_u128()), Some(joe));
    assert_eq!(reopened.len(), 2);
}

#[test]
fn filter_twice_gives_the_same() {
    let mut c = FileBasedCollection::<Sized>::new(file_path(), Some(64));
    for id in 0..6u128 {
        assert!(c.insert(Sized { id, length: 40 + id as usize }).is_ok());
        assert_eq!(c.commit(true), Ok(()));
    }
    let first = c.filter(|doc| doc.id % 2 == 0);
    let second = c.filter(|doc| doc.id % 2 == 0);
    assert_eq!(first, second);
    assert_eq!(first.iter().map(|doc| doc.id).collect::<Vec<u128>>(), vec![0, 2, 4]);
    assert_eq!(c.find(|doc| doc.id > 2).map(|doc| doc.id), Some(3));
    assert_eq!(c.find(|doc| doc.id > 9), None);
}

#[test]
fn a_new_file_based_collection_has_the_usual_slot_sizes() {
    let c = FileBasedCollection::<Sized>::new(file_path(), None);
    assert_eq!(c.max_byte_length(), 128);
    assert_eq!(c.byte_length_increment(), 64);
    assert_eq!(c.len(), 0);
    assert_eq!(c.path(), &Some(file_path()));
    let c = FileBasedCollection::<Sized>::new(file_path(), Some(10));
    assert_eq!(c.max_byte_length(), 128);
    assert_eq!(c.byte_length_increment(), 10);
}

#[test]
fn three_small_documents_in_a_file_based_collection() {
    let mut file: Vec<u8> = Vec::new();
    let mut c = FileBasedCollection::<Sized>::new(file_path(), Some(64));
    c.load_structs_from_file(&file);
    let small = vec![Sized { id: 1, length: 40 }, Sized { id: 2, length: 40 }, Sized { id: 3, length: 40 }];
    for (i, doc) in small.iter().enumerate() {
        let ops = c.insert(doc.clone()).unwrap();
        let mut slot = sized_to_json(doc).unwrap();
        slot.extend_from_slice(&[b' '; 88]);
        slot.push(b'\n');
        assert_eq!(ops, vec![StorageOp::WriteAt { offset: (i * 129) as u64, bytes: slot }]);
        perform(&mut file, &ops);
        assert_eq!(c.commit(true), Ok(()));
        assert_eq!(c.max_byte_length(), 128);
    }
    assert_eq!(file.len(), 387);
    assert_eq!(file, slots_of(&small, 128));

    let ops = c.insert(Sized { id: 4, length: 150 }).unwrap();
    let offsets: Vec<u64> = ops[1..]
        .iter()
        .map(|op| match op {
            StorageOp::WriteAt { offset, bytes } => {
                assert_eq!(bytes.len(), 193);
                *offset
            }
            other => panic!("unexpected operation {:?}", other),
        })
        .collect();
    assert_eq!(ops[0], StorageOp::Truncate);
    assert_eq!(offsets, vec![0, 193, 386, 579]);
    perform(&mut file, &ops);
    assert_eq!(c.commit(true), Ok(()));
    assert_eq!(c.max_byte_length(), 192);
    assert_eq!(file.len(), 4 * 193);
}

#[test]
fn a_line_is_trimmed_of_every_white_space_character() {
    let mut file: Vec<u8> = Vec::new();
    let mut expected: Vec<Sized> = Vec::new();
    let mut count = 0u128;
    for code in 0u32..=0x3001 {
        let c = match char::from_u32(code) {
            Some(c) => c,
            None => continue,
        };
        if !c.is_whitespace() || c == '\n' {
            continue;
        }
        count += 1;
        let doc = Sized { id: count, length: 30 };
        let json = String::from_utf8(sized_to_json(&doc).unwrap()).unwrap();
        let line = format!("{}{}{}{}{}\n", c, c, json, c, ' ');
        assert_eq!(line.trim(), json);
        file.extend_from_slice(line.as_bytes());
        expected.push(doc);
    }
    assert_eq!(count, 24);
    let mut c = FileBasedCollection::<Sized>::new(file_path(), None);
    c.load_structs_from_file(&file);
    assert_eq!(c.filter(|_| true), expected);
}

#[test]
fn what_is_no_white_space_is_not_trimmed() {
    let doc = Sized { id: 1, length: 30 };
    let json = String::from_utf8(sized_to_json(&doc).unwrap()).unwrap();
    for wrap in ['\u{200B}', '\u{FEFF}', '\u{00A1}', '\u{2060}', 'x'] {
        let line = format!("{}{}\n", wrap, json);
        assert_eq!(line.trim().len(), json.len() + wrap.len_utf8());
        let mut c = FileBasedCollection::<Sized>::new(file_path(), None);
        c.load_structs_from_file(line.as_bytes());
        assert_eq!(c.len(), 0);
    }
    let mut c = FileBasedCollection::<Sized>::new(file_path(), None);
    c.load_structs_from_file(&[0xC2, 0xE2, 0x80]);
    assert_eq!(c.len(), 0);
}
