use sylo_inbox::mailbox::position;
use sylo_inbox::{Error, Mailbox, Message, MessageId};

#[test]
fn new_mailbox_is_empty() {
    let mailbox = Mailbox::new();
    assert!(mailbox.values.is_empty());
    assert_eq!(mailbox.next_index, 0);
    assert_eq!(mailbox.messages(), Vec::<Message>::new());
}

#[test]
fn mailbox_add_assigns_the_counter() {
    let mut mailbox = Mailbox { values: vec![(3, b"x".to_vec())], next_index: 10 };
    assert_eq!(mailbox.add(b"y".to_vec()), Ok(10));
    assert_eq!(mailbox.values, vec![(3, b"x".to_vec()), (10, b"y".to_vec())]);
    assert_eq!(mailbox.next_index, 11);
    assert_eq!(mailbox.entries(), mailbox.values);
    assert_eq!(mailbox.messages(), vec![b"x".to_vec(), b"y".to_vec()]);
}

#[test]
fn mailbox_add_refuses_at_the_largest_id() {
    let mut mailbox = Mailbox { values: vec![(3, b"x".to_vec())], next_index: u32::MAX };
    assert_eq!(mailbox.add(b"y".to_vec()), Err(Error::IdOverflow));
    assert_eq!(mailbox.values, vec![(3, b"x".to_vec())]);
    assert_eq!(mailbox.next_index, u32::MAX);
}

#[test]
fn mailbox_delete_goes_by_id_not_by_place() {
    let mut mailbox = Mailbox {
        values: vec![(5, b"a".to_vec()), (1, b"b".to_vec()), (9, b"c".to_vec())],
        next_index: 10,
    };
    let ids: Vec<MessageId> = vec![1, 0, 2, 9];
    mailbox.delete(&ids);
    assert_eq!(mailbox.values, vec![(5, b"a".to_vec())]);
    assert_eq!(mailbox.next_index, 10);
}

#[test]
fn mailbox_migrate_checks_against_what_was_there_before() {
    let mut mailbox = Mailbox { values: vec![(0, b"a".to_vec()), (1, b"b".to_vec())], next_index: 2 };
    mailbox.migrate(
        1,
        vec![(2, b"c".to_vec()), (1, b"z".to_vec()), (2, b"d".to_vec()), (0, b"y".to_vec())],
    );
    assert_eq!(
        mailbox.values,
        vec![(0, b"a".to_vec()), (1, b"b".to_vec()), (2, b"c".to_vec()), (2, b"d".to_vec())]
    );
    assert_eq!(mailbox.next_index, 1);
}

#[test]
fn position_finds_the_first_within_the_limit() {
    let values: Vec<(MessageId, Message)> =
        vec![(4, b"a".to_vec()), (7, b"b".to_vec()), (4, b"c".to_vec()), (8, b"d".to_vec())];
    assert_eq!(position(&values, 4, 4), Some(0));
    assert_eq!(position(&values, 4, 7), Some(1));
    assert_eq!(position(&values, 4, 8), Some(3));
    assert_eq!(position(&values, 3, 8), None);
    assert_eq!(position(&values, 0, 4), None);
    assert_eq!(position(&values, 4, 5), None);
}
