use node_runtime::channel::MessageQueue;

#[test]
fn messages_come_out_in_send_order() {
    let mut queue: MessageQueue<u64> = MessageQueue::new();
    queue.send(1);
    queue.send(2);
    queue.send(3);
    assert_eq!(queue.receive(), Some(1));
    assert_eq!(queue.receive(), Some(2));
    assert_eq!(queue.receive(), Some(3));
    assert_eq!(queue.receive(), None);
}

#[test]
fn receive_on_an_empty_queue_is_none() {
    let mut queue: MessageQueue<String> = MessageQueue::new();
    assert_eq!(queue.receive(), None);
}

#[test]
fn sends_never_fail_and_length_tracks_backlog() {
    let mut queue: MessageQueue<u64> = MessageQueue::new();
    for message in 0..1000 {
        queue.send(message);
    }
    assert_eq!(queue.len(), 1000);
    assert_eq!(queue.receive(), Some(0));
    assert_eq!(queue.len(), 999);
}

#[test]
fn interleaved_sends_and_receives_keep_order() {
    let mut queue: MessageQueue<&str> = MessageQueue::new();
    queue.send("a");
    queue.send("b");
    assert_eq!(queue.receive(), Some("a"));
    queue.send("c");
    assert_eq!(queue.receive(), Some("b"));
    assert_eq!(queue.receive(), Some("c"));
    assert_eq!(queue.receive(), None);
}
