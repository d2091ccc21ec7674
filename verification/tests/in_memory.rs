use struvedb::{Collection, CollectionBackend, Document, Error, InMemoryCollection};
use uuid::Uuid;

#[derive(Debug, Clone, PartialEq)]
struct User {
    uuid: Uuid,
    name: String,
}

impl Document<User> for User {
    fn key(&self) -> u128 {
        self.uuid.as_u128()
    }

    fn conflicts_with(&self, doc: &User) -> bool {
        self.name == doc.name
    }

    fn json(&self) -> Option<Vec<u8>> {
        None
    }

    fn parsed(_text: &[u8]) -> Option<User> {
        None
    }

    fn primary_key(&self) -> u128 {
        self.uuid.as_u128()
    }

    fn intersects(&self, doc: &User) -> Result<(), &str> {
        if self.name == doc.name {
            return Err("Email is already in use.");
        }
        return Ok(());
    }

    fn to_json(&self) -> Option<Vec<u8>> {
        None
    }

    fn from_json(_text: &[u8]) -> Option<User> {
        None
    }
}

impl User {
    pub fn new(name: String) -> Self {
        User { uuid: Uuid::new_v4(), name }
    }
}

#[test]
fn test_in_memory() {
    let mut c = Collection::<User>::new(CollectionBackend::InMemory, None);

    let user = User::new("bob".to_string());
    let mut user_cloned = user.clone();
    let res = c.insert(user);
    if res.is_err() {
        println!("{:?}", res.as_ref().unwrap())
    }
    assert_eq!(res.is_ok(), true);

    let user = User::new("bill".to_string());
    let b_uuid = user.uuid.clone();
    let res = c.insert(user);
    assert_eq!(res.is_ok(), true);

    user_cloned.name = "Trevor".to_string();
    let res = c.update(user_cloned);
    assert_eq!(res.is_ok(), true);

    let user = User::new("dan".to_string());
    let uuid = user.uuid.clone();
    let res = c.insert(user);
    assert_eq!(res.is_ok(), true);

    let get_user = c.by_primary_key(&uuid.as_u128());
    if get_user.is_some() {
        println!("{:?}", get_user.unwrap());
    }

    let del = c.delete(&b_uuid.as_u128());
    assert_eq!(del.is_ok(), true);

    let get_user = c.by_primary_key(&uuid.as_u128());
    if get_user.is_some() {
        println!("{:?}", get_user.unwrap());
    }
}

#[test]
fn in_memory_collection_test_insert() {
    let mut c = InMemoryCollection::<User>::new();

    let user = User::new("bob".to_string());
    let mut user_cloned = user.clone();
    let res = c.insert(user);
    if res.is_err() {
        println!("{:?}", res.unwrap())
    }
    assert_eq!(res.is_ok(), true);

    let user = User::new("bill".to_string());
    let b_uuid = user.uuid.clone();
    let res = c.insert(user);
    assert_eq!(res.is_ok(), true);

    user_cloned.name = "Trevor".to_string();
    let res = c.update(user_cloned);
    assert_eq!(res.is_ok(), true);

    let user = User::new("dan".to_string());
    let uuid = user.uuid.clone();
    let res = c.insert(user);
    assert_eq!(res.is_ok(), true);

    let get_user = c.by_primary_key(&uuid.as_u128());
    if get_user.is_some() {
        println!("{:?}", get_user.unwrap());
    }

    let del = c.delete(&b_uuid.as_u128());
    assert_eq!(del.is_ok(), true);

    let get_user = c.by_primary_key(&uuid.as_u128());
    if get_user.is_some() {
        println!("{:?}", get_user.unwrap());
    }
}

#[test]
fn in_memory_keeps_insertion_order_and_compacts() {
    let mut c = InMemoryCollection::<User>::new();
    let a = User::new("a".to_string());
    let b = User::new("b".to_string());
    let d = User::new("d".to_string());
    assert_eq!(c.insert(a.clone()), Ok(()));
    assert_eq!(c.insert(b.clone()), Ok(()));
    assert_eq!(c.insert(d.clone()), Ok(()));
    assert_eq!(c.filter(|_| true), vec![a.clone(), b.clone(), d.clone()]);
    assert_eq!(c.find(|u| u.name != "a"), Some(b.clone()));
    assert_eq!(c.delete(&b.uuid.as_u128()), Ok(()));
    assert_eq!(c.filter(|_| true), vec![a.clone(), d.clone()]);
    assert_eq!(c.by_primary_key(&d.uuid.as_u128()), Some(d.clone()));
    assert_eq!(c.by_primary_key(&b.uuid.as_u128()), None);
    assert_eq!(c.delete(&b.uuid.as_u128()), Err(Error::KeyNotFound));
}

#[test]
fn in_memory_rejects_duplicates_and_conflicts() {
    let mut c = InMemoryCollection::<User>::new();
    let a = User::new("a".to_string());
    assert_eq!(c.insert(a.clone()), Ok(()));
    let same_key = User { uuid: a.uuid, name: "z".to_string() };
    assert_eq!(c.insert(same_key), Err(Error::DuplicateKey));
    let same_name = User::new("a".to_string());
    assert_eq!(c.insert(same_name.clone()), Err(Error::ConstraintViolation));
    assert_eq!(c.filter(|_| true).len(), 1);
    assert_eq!(c.update(same_name), Err(Error::ConstraintViolation));
    assert_eq!(c.update(User::new("fresh".to_string())), Err(Error::KeyNotFound));
    let renamed = User { uuid: a.uuid, name: "a".to_string() };
    assert_eq!(c.update(renamed.clone()), Ok(()));
    assert_eq!(c.by_primary_key(&a.uuid.as_u128()), Some(renamed));
}

#[test]
fn no_two_documents_clash_after_any_run() {
    let mut c = Collection::<User>::new(CollectionBackend::InMemory, None);
    let names = ["a", "b", "a", "c", "b", "d", "a"];
    let mut kept: Vec<User> = Vec::new();
    for name in names {
        let user = User::new(name.to_string());
        if c.insert(user.clone()).is_ok() {
            kept.push(user);
        }
    }
    assert_eq!(kept.len(), 4);
    let first = kept[0].clone();
    assert_eq!(c.update(User { uuid: first.uuid, name: "d".to_string() }), Err(Error::ConstraintViolation));
    assert!(c.update(User { uuid: first.uuid, name: "e".to_string() }).is_ok());
    assert!(c.delete(&kept[1].uuid.as_u128()).is_ok());
    assert!(c.insert(User::new("b".to_string())).is_ok());
    let docs = c.filter(|_| true);
    assert_eq!(docs.len(), 4);
    for x in &docs {
        for y in &docs {
            if x.uuid != y.uuid {
                assert!(x.intersects(y).is_ok());
            }
        }
    }
    assert_eq!(docs.iter().map(|u| u.name.clone()).collect::<Vec<String>>(), vec!["e", "c", "d", "b"]);
}

#[test]
fn in_memory_facade_needs_no_commit() {
    let mut c = Collection::<User>::new(CollectionBackend::InMemory, None);
    let ann = User::new("ann".to_string());
    assert_eq!(c.insert(ann.clone()), Ok(vec![]));
    assert!(!c.has_staged());
    assert_eq!(c.len(), 1);
    assert_eq!(c.commit(true), Ok(()));
    assert_eq!(c.commit(false), Err(Error::IoFailure));
    assert_eq!(c.len(), 1);
    assert_eq!(c.update(User::new("new".to_string())), Err(Error::KeyNotFound));
    assert_eq!(c.delete(&ann.uuid.as_u128()), Ok(vec![]));
    assert_eq!(c.len(), 0);
    assert_eq!(c.backend(), CollectionBackend::InMemory);
}
