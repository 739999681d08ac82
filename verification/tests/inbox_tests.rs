use hegel::protocol::inbox::{Inbox, InboxError, ReplyStep, RequestStep};

#[test]
fn inbox_ids_count_up_from_one() {
    let mut inbox = Inbox::new();
    assert_eq!(inbox.next_message_id(), 1);
    assert_eq!(inbox.start_request(), Ok(1));
    assert_eq!(inbox.start_request(), Ok(2));
    assert_eq!(inbox.start_request(), Ok(3));
    assert_eq!(inbox.next_message_id(), 4);
}

#[test]
fn inbox_closed_refuses_new_requests() {
    let mut inbox = Inbox::new();
    assert!(!inbox.is_closed());
    inbox.mark_closed();
    assert!(inbox.is_closed());
    assert_eq!(inbox.start_request(), Err(InboxError::Closed));
    assert_eq!(inbox.next_message_id(), 1);
}

#[test]
fn inbox_reply_waits_until_filed() {
    let mut inbox = Inbox::new();
    let id = inbox.start_request().unwrap();
    assert!(matches!(inbox.reply_step(id), ReplyStep::Wait));
    inbox.file(id, true, vec![7, 8, 9]);
    match inbox.reply_step(id) {
        ReplyStep::Ready(payload) => assert_eq!(payload, vec![7, 8, 9]),
        _ => panic!("reply not handed out"),
    }
    // Handed out once only.
    assert!(matches!(inbox.reply_step(id), ReplyStep::Wait));
}

#[test]
fn inbox_reply_to_other_id_is_kept() {
    let mut inbox = Inbox::new();
    inbox.file(5, true, vec![1]);
    assert!(matches!(inbox.reply_step(6), ReplyStep::Wait));
    match inbox.reply_step(5) {
        ReplyStep::Ready(payload) => assert_eq!(payload, vec![1]),
        _ => panic!("reply lost"),
    }
}

#[test]
fn inbox_later_reply_replaces_earlier() {
    let mut inbox = Inbox::new();
    inbox.file(2, true, vec![1]);
    inbox.file(2, true, vec![2]);
    match inbox.reply_step(2) {
        ReplyStep::Ready(payload) => assert_eq!(payload, vec![2]),
        _ => panic!("reply lost"),
    }
}

#[test]
fn inbox_closed_without_reply_gives_up() {
    let mut inbox = Inbox::new();
    let id = inbox.start_request().unwrap();
    inbox.mark_closed();
    assert!(matches!(inbox.reply_step(id), ReplyStep::Closed));
}

#[test]
fn inbox_closed_still_hands_out_arrived_reply() {
    let mut inbox = Inbox::new();
    let id = inbox.start_request().unwrap();
    inbox.file(id, true, vec![4]);
    inbox.mark_closed();
    match inbox.reply_step(id) {
        ReplyStep::Ready(payload) => assert_eq!(payload, vec![4]),
        _ => panic!("reply lost on close"),
    }
}

#[test]
fn inbox_requests_come_out_oldest_first() {
    let mut inbox = Inbox::new();
    assert!(matches!(inbox.request_step(), RequestStep::Wait));
    inbox.file(10, false, vec![1]);
    inbox.file(11, false, vec![2, 2]);
    inbox.file(3, false, vec![]);
    match inbox.request_step() {
        RequestStep::Ready(id, payload) => {
            assert_eq!(id, 10);
            assert_eq!(payload, vec![1]);
        }
        _ => panic!("first request lost"),
    }
    match inbox.request_step() {
        RequestStep::Ready(id, payload) => {
            assert_eq!(id, 11);
            assert_eq!(payload, vec![2, 2]);
        }
        _ => panic!("second request lost"),
    }
    inbox.mark_closed();
    match inbox.request_step() {
        RequestStep::Ready(id, payload) => {
            assert_eq!(id, 3);
            assert!(payload.is_empty());
        }
        _ => panic!("third request lost"),
    }
    assert!(matches!(inbox.request_step(), RequestStep::Closed));
}

#[test]
fn inbox_requests_and_replies_are_kept_apart() {
    let mut inbox = Inbox::new();
    inbox.file(1, false, vec![9]);
    assert!(matches!(inbox.reply_step(1), ReplyStep::Wait));
    inbox.file(1, true, vec![8]);
    match inbox.request_step() {
        RequestStep::Ready(id, payload) => {
            assert_eq!(id, 1);
            assert_eq!(payload, vec![9]);
        }
        _ => panic!("request lost"),
    }
    match inbox.reply_step(1) {
        ReplyStep::Ready(payload) => assert_eq!(payload, vec![8]),
        _ => panic!("reply lost"),
    }
}
