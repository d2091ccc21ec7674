use std::collections::BTreeMap;
use std::path::PathBuf;
use struvedb::dir_based::{document_file_name, has_json_extension, StoredFile};
use struvedb::{Collection, CollectionBackend, Document, Error, StorageOp};
use uuid::Uuid;

#[derive(Debug, Clone, PartialEq)]
struct User {
    uuid: Uuid,
    name: String,
}

fn user_to_json(user: &User) -> Option<Vec<u8>> {
    if user.name.is_empty() {
        return None;
    }
    let mut fields = serde_json::Map::new();
    fields.insert("uuid".to_string(), serde_json::Value::String(user.uuid.to_string()));
    fields.insert("name".to_string(), serde_json::Value::String(user.name.clone()));
    serde_json::to_vec(&serde_json::Value::Object(fields)).ok()
}

fn user_from_json(text: &[u8]) -> Option<User> {
    let value: serde_json::Value = serde_json::from_slice(text).ok()?;
    let uuid = Uuid::parse_str(value.get("uuid")?.as_str()?).ok()?;
    let name = value.get("name")?.as_str()?.to_string();
    Some(User { uuid, name })
}

impl Document<User> for User {
    fn key(&self) -> u128 {
        self.uuid.as_u128()
    }

    fn conflicts_with(&self, doc: &User) -> bool {
        self.name == doc.name
    }

    fn json(&self) -> Option<Vec<u8>> {
        user_to_json(self)
    }

    fn parsed(text: &[u8]) -> Option<User> {
        user_from_json(text)
    }

    fn primary_key(&self) -> u128 {
        self.uuid.as_u128()
    }

    fn intersects(&self, doc: &User) -> Result<(), &str> {
        if self.name == doc.name {
            return Err("Email is already in use.");
        }
        return Ok(());
    }

    fn to_json(&self) -> Option<Vec<u8>> {
        user_to_json(self)
    }

    fn from_json(text: &[u8]) -> Option<User> {
        user_from_json(text)
    }
}

impl User {
    pub fn new(name: String) -> Self {
        User { uuid: Uuid::new_v4(), name }
    }
}

/// Carries the operations out on a directory held in memory.
fn perform(dir: &mut BTreeMap<String, Vec<u8>>, ops: &[StorageOp]) -> bool {
    for op in ops {
        match op {
            StorageOp::WriteFile { name, bytes } => {
                dir.insert(name.clone(), bytes.clone());
            }
            StorageOp::RemoveFile { name } => {
                if dir.remove(name).is_none() {
                    return false;
                }
            }
            other => panic!("not an operation on the directory: {:?}", other),
        }
    }
    true
}

fn dir_path() -> PathBuf {
    PathBuf::from("collections").join("users")
}

#[test]
fn test_dir_based() {
    let mut dir: BTreeMap<String, Vec<u8>> = BTreeMap::new();
    let mut c = Collection::<User>::new(CollectionBackend::Dir, Some(dir_path()));
    c.load_structs_from_dir(&Vec::new());

    let user = User::new("bob".to_string());
    let mut user_cloned = user.clone();
    let res = c.insert(user);
    if res.is_err() {
        println!("{:?}", res.as_ref().unwrap())
    }
    assert_eq!(res.is_ok(), true);
    let written = perform(&mut dir, &res.unwrap());
    assert_eq!(c.commit(written), Ok(()));

    let user = User::new("bill".to_string());
    let b_uuid = user.uuid.clone();
    let res = c.insert(user);
    assert_eq!(res.is_ok(), true);
    let written = perform(&mut dir, &res.unwrap());
    assert_eq!(c.commit(written), Ok(()));

    user_cloned.name = "Trevor".to_string();
    let res = c.update(user_cloned.clone());
    assert_eq!(res.is_ok(), true);
    let written = perform(&mut dir, &res.unwrap());
    assert_eq!(c.commit(written), Ok(()));

    let user = User::new("dan".to_string());
    let uuid = user.uuid.clone();
    let res = c.insert(user.clone());
    assert_eq!(res.is_ok(), true);
    let written = perform(&mut dir, &res.unwrap());
    assert_eq!(c.commit(written), Ok(()));

    let get_user = c.by_primary_key(&uuid.as_u128());
    if get_user.is_some() {
        println!("{:?}", get_user.unwrap());
    }

    let del = c.delete(&b_uuid.as_u128());
    assert_eq!(del.is_ok(), true);
    let written = perform(&mut dir, &del.unwrap());
    assert_eq!(c.commit(written), Ok(()));

    let get_user = c.by_primary_key(&uuid.as_u128());
    if get_user.is_some() {
        println!("{:?}", get_user.unwrap());
    }

    assert_eq!(c.filter(|_| true), vec![user_cloned.clone(), user.clone()]);
    let names: Vec<String> = dir.keys().cloned().collect();
    let mut expected = vec![format!("{}.json", user_cloned.uuid), format!("{}.json", user.uuid)];
    expected.sort();
    assert_eq!(names, expected);
    assert_eq!(dir[&format!("{}.json", user_cloned.uuid)], user_to_json(&user_cloned).unwrap());

    let files: Vec<StoredFile> =
        dir.iter().map(|(name, bytes)| StoredFile { name: name.clone(), bytes: bytes.clone() }).collect();
    let mut reopened = Collection::<User>::new(CollectionBackend::Dir, Some(dir_path()));
    reopened.load_structs_from_dir(&files);
    assert_eq!(reopened.len(), 2);
    assert_eq!(reopened.by_primary_key(&uuid.as_u128()), Some(user));
    assert_eq!(reopened.by_primary_key(&user_cloned.uuid.as_u128()), Some(user_cloned));
}

#[test]
fn a_document_file_is_named_by_the_key() {
    let key = 0xa1a2a3a4b1b2c1c2d1d2d3d4d5d6d7d8u128;
    assert_eq!(document_file_name(key), "a1a2a3a4-b1b2-c1c2-d1d2-d3d4d5d6d7d8.json");
    assert_eq!(document_file_name(0), "00000000-0000-0000-0000-000000000000.json");
    let uuid = Uuid::new_v4();
    assert_eq!(document_file_name(uuid.as_u128()), format!("{}.json", uuid));
}

#[test]
fn only_json_files_hold_documents() {
    assert!(has_json_extension("a.json"));
    assert!(has_json_extension("a1a2a3a4-b1b2-c1c2-d1d2-d3d4d5d6d7d8.json"));
    assert!(has_json_extension("é.json"));
    assert!(!has_json_extension(".json"));
    assert!(!has_json_extension("json"));
    assert!(!has_json_extension("a.jsonl"));
    assert!(!has_json_extension("a.JSON"));
    assert!(!has_json_extension("a_json"));
    assert!(!has_json_extension(""));
}

#[test]
fn dir_operations_name_the_file_of_the_key() {
    let c = Collection::<User>::new(CollectionBackend::Dir, Some(dir_path()));
    let ann = User::new("ann".to_string());
    let name = format!("{}.json", ann.uuid);
    assert_eq!(
        c.write_to_dir(&ann),
        Ok(vec![StorageOp::WriteFile { name: name.clone(), bytes: user_to_json(&ann).unwrap() }])
    );
    assert_eq!(c.remove_from_dir(&ann.uuid.as_u128()), vec![StorageOp::RemoveFile { name }]);
    assert_eq!(c.write_to_dir(&User::new(String::new())), Err(Error::SerializationFailure));
}

#[test]
fn loading_a_directory_skips_what_is_no_document() {
    let ann = User::new("ann".to_string());
    let joe = User::new("joe".to_string());
    let files = vec![
        StoredFile { name: format!("{}.json", ann.uuid), bytes: user_to_json(&ann).unwrap() },
        StoredFile { name: "notes.txt".to_string(), bytes: user_to_json(&joe).unwrap() },
        StoredFile { name: "broken.json".to_string(), bytes: b"{".to_vec() },
        StoredFile { name: format!("{}.json", joe.uuid), bytes: user_to_json(&joe).unwrap() },
    ];
    let mut c = Collection::<User>::new(CollectionBackend::Dir, Some(dir_path()));
    c.load_structs_from_dir(&files);
    assert_eq!(c.filter(|_| true), vec![ann.clone(), joe.clone()]);

    let mut without_path = Collection::<User>::new(CollectionBackend::Dir, None);
    without_path.load_structs_from_dir(&files);
    assert_eq!(without_path.len(), 0);
}

#[test]
fn dir_backend_stages_until_the_commit() {
    let mut c = Collection::<User>::new(CollectionBackend::Dir, Some(dir_path()));
    let ann = User::new("ann".to_string());
    assert!(!c.has_staged());
    assert!(c.insert(ann.clone()).is_ok());
    assert!(c.has_staged());
    assert_eq!(c.len(), 0);
    assert_eq!(c.by_primary_key(&ann.uuid.as_u128()), None);
    assert_eq!(c.commit(false), Err(Error::IoFailure));
    assert!(!c.has_staged());
    assert_eq!(c.len(), 0);
    assert!(c.insert(ann.clone()).is_ok());
    assert_eq!(c.commit(true), Ok(()));
    assert_eq!(c.by_primary_key(&ann.uuid.as_u128()), Some(ann.clone()));

    assert_eq!(c.update(User::new("new".to_string())), Err(Error::KeyNotFound));
    assert_eq!(c.update(User { uuid: ann.uuid, name: String::new() }), Err(Error::SerializationFailure));
    assert_eq!(c.insert(User::new("ann".to_string())), Err(Error::ConstraintViolation));
    assert_eq!(c.insert(User { uuid: ann.uuid, name: "other".to_string() }), Err(Error::DuplicateKey));
    assert_eq!(c.delete(&1), Err(Error::KeyNotFound));
    assert_eq!(c.backend(), CollectionBackend::Dir);
    assert_eq!(c.path(), &Some(dir_path()));
    assert_eq!(c.max_byte_length(), 128);
    assert_eq!(c.byte_length_increment(), 64);
}

#[test]
fn a_file_name_is_the_key_text_and_the_suffix() {
    assert_eq!(struvedb::dir_based::with_json_suffix("abc".to_string()), "abc.json");
    assert_eq!(struvedb::dir_based::with_json_suffix(String::new()), ".json");
}
