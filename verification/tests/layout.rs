use struvedb::index::DocumentIndex;
use struvedb::layout::{file_fits, offset_of_slot, pad_record, slot_size_for, FILL, NEWLINE};
use struvedb::Document;

#[test]
fn slot_size_is_the_smallest_multiple_that_fits() {
    assert_eq!(slot_size_for(128, 150, 64), Some(192));
    assert_eq!(slot_size_for(128, 40, 64), Some(128));
    assert_eq!(slot_size_for(128, 128, 64), Some(128));
    assert_eq!(slot_size_for(128, 129, 64), Some(192));
    assert_eq!(slot_size_for(128, 192, 64), Some(192));
    assert_eq!(slot_size_for(128, 193, 64), Some(256));
    assert_eq!(slot_size_for(0, 40, 128), Some(128));
    assert_eq!(slot_size_for(0, 1, 1), Some(1));
    assert_eq!(slot_size_for(0, 0, 0), Some(0));
    assert_eq!(slot_size_for(100, 101, 7), Some(105));
}

#[test]
fn slot_size_that_cannot_be_is_none() {
    assert_eq!(slot_size_for(10, 11, 0), None);
    assert_eq!(slot_size_for(0, usize::MAX, 1), None);
    assert_eq!(slot_size_for(0, usize::MAX - 1, 1), Some(usize::MAX - 1));
    assert_eq!(slot_size_for(0, usize::MAX - 2, usize::MAX / 2 + 1), None);
    assert_eq!(slot_size_for(0, 3, usize::MAX), None);
}

#[test]
fn slots_start_one_slot_width_apart() {
    assert_eq!(offset_of_slot(0, 128), Some(0));
    assert_eq!(offset_of_slot(1, 128), Some(129));
    assert_eq!(offset_of_slot(3, 192), Some(579));
    assert_eq!(offset_of_slot(2, 0), Some(2));
    assert_eq!(offset_of_slot(u64::MAX, 0), Some(u64::MAX));
    assert_eq!(offset_of_slot(u64::MAX, 1), None);
    assert_eq!(offset_of_slot(u64::MAX / 2 + 1, 1), None);
    assert!(file_fits(3, true, 192));
    assert!(file_fits(0, false, usize::MAX - 1));
    assert!(!file_fits(usize::MAX, true, usize::MAX - 1));
}

#[test]
fn a_record_is_filled_up_with_spaces_and_ends_in_a_newline() {
    assert_eq!(pad_record(b"{}", 5), b"{}   \n".to_vec());
    assert_eq!(pad_record(b"{}", 2), b"{}\n".to_vec());
    assert_eq!(pad_record(b"", 0), b"\n".to_vec());
    assert_eq!(pad_record(b"", 3), vec![FILL, FILL, FILL, NEWLINE]);
    assert_eq!(pad_record(b"abc", 128).len(), 129);
}

#[derive(Debug, Clone, PartialEq)]
struct Item {
    id: u128,
    group: u8,
}

impl Document<Item> for Item {
    fn key(&self) -> u128 {
        self.id
    }

    fn conflicts_with(&self, doc: &Item) -> bool {
        self.group == doc.group
    }

    fn json(&self) -> Option<Vec<u8>> {
        None
    }

    fn parsed(_text: &[u8]) -> Option<Item> {
        None
    }

    fn primary_key(&self) -> u128 {
        self.id
    }

    fn intersects(&self, doc: &Item) -> Result<(), &str> {
        if self.group == doc.group {
            Err("group taken")
        } else {
            Ok(())
        }
    }

    fn to_json(&self) -> Option<Vec<u8>> {
        None
    }

    fn from_json(_text: &[u8]) -> Option<Item> {
        None
    }
}

#[test]
fn the_index_keeps_the_order_of_insertion() {
    let mut index = DocumentIndex::<Item>::new();
    assert_eq!(index.len(), 0);
    assert_eq!(index.insert(Item { id: 30, group: 1 }), 0);
    assert_eq!(index.insert(Item { id: 10, group: 2 }), 1);
    assert_eq!(index.insert(Item { id: 20, group: 3 }), 2);
    assert_eq!(index.get_index_of(30), Some(0));
    assert_eq!(index.get_index_of(10), Some(1));
    assert_eq!(index.get_index_of(20), Some(2));
    assert_eq!(index.get_index_of(40), None);
    assert_eq!(index.insert(Item { id: 10, group: 9 }), 1);
    assert_eq!(index.len(), 3);
    assert_eq!(index.get_index(1), Some(&Item { id: 10, group: 9 }));
    assert_eq!(index.get_index(3), None);
    assert_eq!(index.get(10), Some(Item { id: 10, group: 9 }));
    assert_eq!(index.get(11), None);
}

#[test]
fn removing_from_the_index_moves_the_rest_up() {
    let mut index = DocumentIndex::<Item>::new();
    for id in 0..5u128 {
        index.insert(Item { id, group: id as u8 });
    }
    assert_eq!(index.shift_remove(1), Some(1));
    assert_eq!(index.shift_remove(1), None);
    assert_eq!(index.len(), 4);
    assert_eq!(index.get_index_of(0), Some(0));
    assert_eq!(index.get_index_of(2), Some(1));
    assert_eq!(index.get_index_of(3), Some(2));
    assert_eq!(index.get_index_of(4), Some(3));
    assert_eq!(index.filter(|_| true).iter().map(|item| item.id).collect::<Vec<u128>>(), vec![0, 2, 3, 4]);
    assert_eq!(index.insert(Item { id: 1, group: 1 }), 4);
    assert_eq!(index.shift_remove(0), Some(0));
    assert_eq!(index.get_index_of(1), Some(3));
}

#[test]
fn a_clash_is_found_among_the_other_keys_only() {
    let mut index = DocumentIndex::<Item>::new();
    index.insert(Item { id: 1, group: 1 });
    index.insert(Item { id: 2, group: 2 });
    assert!(index.clashes_with(&Item { id: 3, group: 2 }));
    assert!(!index.clashes_with(&Item { id: 2, group: 2 }));
    assert!(!index.clashes_with(&Item { id: 3, group: 3 }));
    assert!(index.clashes_with(&Item { id: 2, group: 1 }));
    assert_eq!(index.find(|item| item.group == 2), Some(Item { id: 2, group: 2 }));
}
