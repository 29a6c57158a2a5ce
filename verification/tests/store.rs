use crio::collection::Collection;
use crio::error::DatabaseError;
use crio::load::{load, Loaded};
use crio::message::Message;
use crio::record::encode_record;
use crio::storable::Storable;

fn msg(id: u64, text: &str) -> Message {
    Message {
        id,
        text: text.as_bytes().to_vec(),
    }
}

fn fresh(values: &[Message]) -> Collection<Message> {
    let mut c: Collection<Message> = Collection::new();
    for v in values {
        c.insert(v.clone()).unwrap();
    }
    c
}

fn items_of(c: &Collection<Message>) -> Vec<Message> {
    c.get(|_m: &Message| true)
}

fn reload_clean(image: &Vec<u8>) -> Collection<Message> {
    match load::<Message>(image).unwrap() {
        Loaded::Clean(c) => c,
        _ => panic!("expected a clean load"),
    }
}

#[test]
fn empty_image_is_no_data() {
    let empty: Vec<u8> = Vec::new();
    assert!(matches!(load::<Message>(&empty).unwrap(), Loaded::Empty));
}

#[test]
fn round_trip_preserves_values_in_order() {
    let values = vec![msg(1, "alpha"), msg(2, "beta"), msg(3, "gamma")];
    let mut c = fresh(&values);
    assert_eq!(c.len(), 3);
    let image = c.flush();
    let back = reload_clean(&image);
    assert_eq!(items_of(&back), values);
}

#[test]
fn three_records_write_reload_delete_reload() {
    let values = vec![msg(1, "a"), msg(2, "b"), msg(3, "c")];
    let mut c = fresh(&values);
    let image = c.flush();
    let mut back = reload_clean(&image);
    assert_eq!(items_of(&back), values);
    back.delete(|m: &Message| m.id == 2);
    let image2 = back.flush();
    let back2 = reload_clean(&image2);
    assert_eq!(items_of(&back2), vec![msg(1, "a"), msg(3, "c")]);
}

#[test]
fn delete_then_flush_twice_is_byte_identical() {
    let mut c = fresh(&[msg(1, "a"), msg(2, "b"), msg(3, "c")]);
    c.delete(|m: &Message| m.id == 2);
    let image1 = c.flush();
    let image2 = c.flush();
    assert_eq!(image1, image2);
    let back = reload_clean(&image2);
    assert_eq!(items_of(&back), vec![msg(1, "a"), msg(3, "c")]);
}

#[test]
fn insert_many_matches_inserting_each() {
    let values = vec![msg(1, "a"), msg(2, "b"), msg(3, "c")];
    let mut many: Collection<Message> = Collection::new();
    many.insert_many(values.clone()).unwrap();
    let mut each = fresh(&values);
    assert_eq!(items_of(&many), items_of(&each));
    assert_eq!(many.flush(), each.flush());
}

#[test]
fn delete_hides_items_before_flush() {
    let mut c = fresh(&[msg(1, "a"), msg(2, "b")]);
    c.delete(|m: &Message| m.id == 1);
    assert_eq!(c.len(), 1);
    assert_eq!(items_of(&c), vec![msg(2, "b")]);
}

#[test]
fn update_replaces_matches_and_keeps_others_in_order() {
    let mut c = fresh(&[msg(1, "a"), msg(2, "b"), msg(3, "c")]);
    c.update(|m: &Message| m.id == 2, |m: Message| Message {
        id: m.id,
        text: b"B".to_vec(),
    })
    .unwrap();
    // replacements are appended at the tail; the others keep their order
    assert_eq!(items_of(&c), vec![msg(1, "a"), msg(3, "c"), msg(2, "B")]);
    let image = c.flush();
    let back = reload_clean(&image);
    assert_eq!(items_of(&back), vec![msg(1, "a"), msg(3, "c"), msg(2, "B")]);
}

#[test]
fn get_filters_by_predicate() {
    let c = fresh(&[msg(1, "odd"), msg(2, "even"), msg(3, "odd"), msg(4, "even")]);
    let odd = c.get(|m: &Message| m.id % 2 == 1);
    assert_eq!(odd, vec![msg(1, "odd"), msg(3, "odd")]);
    let none = c.get(|_m: &Message| false);
    assert!(none.is_empty());
}

#[test]
fn truncation_inside_a_record_keeps_earlier_records() {
    let mut c = fresh(&[msg(1, "a"), msg(2, "b"), msg(3, "c")]);
    let image = c.flush();
    // each payload is 8 id bytes + 1 text byte, so each frame takes 17 bytes
    assert_eq!(image.len(), 8 + 3 * 17);
    // cut strictly inside the second record's frame
    for cut in (8 + 17 + 1)..(8 + 2 * 17) {
        let mut shorter = image.clone();
        shorter.truncate(cut);
        let back = reload_clean(&shorter);
        assert_eq!(items_of(&back), vec![msg(1, "a")]);
    }
}

#[test]
fn corrupting_one_byte_poisons_but_recovers_everything() {
    let mut c = fresh(&[msg(1, "a"), msg(2, "b"), msg(3, "c")]);
    let image = c.flush();
    // the text byte of the second record's payload
    let pos = 8 + 17 + 8 + 8;
    let mut bad = image.clone();
    assert_eq!(bad[pos], b'b');
    bad[pos] = b'X';
    let poison = match load::<Message>(&bad).unwrap() {
        Loaded::Poisoned(p) => p,
        _ => panic!("expected a poisoned load"),
    };
    let (saved, expected) = poison.checksums();
    assert_ne!(saved, expected);
    // the stored checksum is the digest of the original payload, the
    // recomputed one is the digest of the altered payload
    let original = encode_record(&msg(2, "b").encode()).unwrap();
    assert_eq!(saved.to_le_bytes().to_vec(), original[0..4].to_vec());
    let altered = encode_record(&msg(2, "X").encode()).unwrap();
    assert_eq!(expected.to_le_bytes().to_vec(), altered[0..4].to_vec());
    // every record is still recovered, the corrupted one best-effort
    assert_eq!(items_of(poison.inner()), vec![msg(1, "a"), msg(2, "X"), msg(3, "c")]);
    let recovered = poison.into_inner();
    assert_eq!(items_of(&recovered), vec![msg(1, "a"), msg(2, "X"), msg(3, "c")]);
}

#[test]
fn with_two_corrupted_records_the_last_diagnostic_wins() {
    let mut c = fresh(&[msg(1, "a"), msg(2, "b"), msg(3, "c")]);
    let image = c.flush();
    let mut bad = image.clone();
    // corrupt the text bytes of the first and third records
    bad[8 + 16] = b'P';
    bad[8 + 2 * 17 + 16] = b'Q';
    let poison = match load::<Message>(&bad).unwrap() {
        Loaded::Poisoned(p) => p,
        _ => panic!("expected a poisoned load"),
    };
    assert_eq!(
        items_of(poison.inner()),
        vec![msg(1, "P"), msg(2, "b"), msg(3, "Q")]
    );
    // the reported pair belongs to the last corrupted record
    let (saved, expected) = poison.checksums();
    let original = encode_record(&msg(3, "c").encode()).unwrap();
    assert_eq!(saved.to_le_bytes().to_vec(), original[0..4].to_vec());
    let altered = encode_record(&msg(3, "Q").encode()).unwrap();
    assert_eq!(expected.to_le_bytes().to_vec(), altered[0..4].to_vec());
}

#[test]
fn wrong_version_and_wrong_magic_are_distinct_errors() {
    let mut c = fresh(&[msg(1, "a"), msg(2, "b")]);
    let image = c.flush();
    let mut bad_version = image.clone();
    bad_version[4] = 2;
    bad_version[5] = 0;
    bad_version[6] = 0;
    bad_version[7] = 0;
    match load::<Message>(&bad_version) {
        Err(e) => assert_eq!(e, DatabaseError::UnsupportedVersion { found: 2 }),
        Ok(_) => panic!("a wrong version must be rejected"),
    }
    let mut bad_magic = image.clone();
    bad_magic[0] ^= 0xff;
    match load::<Message>(&bad_magic) {
        Err(e) => assert_eq!(e, DatabaseError::BadMagic),
        Ok(_) => panic!("a wrong magic must be rejected"),
    }
}

#[test]
fn undecodable_payload_aborts_the_load() {
    // a well-checksummed record whose payload is too short to be a message
    let mut image = crio::container::header_bytes();
    let frame = encode_record(&vec![1u8, 2, 3]).unwrap();
    image.extend_from_slice(&frame);
    match load::<Message>(&image) {
        Err(e) => assert_eq!(e, DatabaseError::DecodeError),
        Ok(_) => panic!("an undecodable payload must abort the load"),
    }
}

#[test]
fn flush_of_untouched_collection_reproduces_the_image() {
    let mut c = fresh(&[msg(7, "seven"), msg(8, "eight")]);
    let image1 = c.flush();
    let back = reload_clean(&image1);
    let mut back = back;
    let image2 = back.flush();
    assert_eq!(image1, image2);
}
