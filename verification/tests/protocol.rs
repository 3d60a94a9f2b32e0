use mesh::protocol::{
    listen_port, opening, port_or, reply_to, AckedMessage, Message, FIRST_PORT, PORTS_END,
};

#[test]
fn join_is_acknowledged_under_its_number() {
    assert_eq!(reply_to(&Message::Acked(100, AckedMessage::Join)), Some(Message::Ack(100)));
    assert_eq!(reply_to(&Message::Acked(0, AckedMessage::Join)), Some(Message::Ack(0)));
    assert_eq!(
        reply_to(&Message::Acked(u32::MAX, AckedMessage::Join)),
        Some(Message::Ack(u32::MAX))
    );
}

#[test]
fn ping_is_answered_by_pong() {
    assert_eq!(
        reply_to(&Message::Ping("HELLO!!".to_string())),
        Some(Message::Pong("OOH SHINY".to_string()))
    );
    assert_eq!(
        reply_to(&Message::Ping(String::new())),
        Some(Message::Pong("OOH SHINY".to_string()))
    );
}

#[test]
fn ack_and_pong_get_no_answer() {
    assert_eq!(reply_to(&Message::Ack(7)), None);
    assert_eq!(reply_to(&Message::Pong("OOH SHINY".to_string())), None);
}

#[test]
fn requested_port_is_kept() {
    assert_eq!(listen_port(8080), 8080);
    assert_eq!(listen_port(1), 1);
    assert_eq!(listen_port(u16::MAX), u16::MAX);
    assert_eq!(port_or(8080, 2000), 8080);
    assert_eq!(port_or(0, 2000), 2000);
}

#[test]
fn unrequested_port_is_drawn_in_range() {
    let mut seen_other_than_first = false;
    let mut seen_two = false;
    let first = listen_port(0);
    for _ in 0..500 {
        let port = listen_port(0);
        assert!(FIRST_PORT <= port && port < PORTS_END);
        assert!(port != 0);
        if port != FIRST_PORT {
            seen_other_than_first = true;
        }
        if port != first {
            seen_two = true;
        }
    }
    assert!(seen_other_than_first);
    assert!(seen_two);
}

#[test]
fn node_opens_with_join_then_ping() {
    assert_eq!(
        opening(),
        vec![
            Message::Acked(1, AckedMessage::Join),
            Message::Ping("HELLO!!".to_string()),
        ]
    );
}

#[test]
fn opening_join_is_acknowledged_by_its_receiver() {
    let replies: Vec<Option<Message>> = opening().iter().map(reply_to).collect();
    assert_eq!(
        replies,
        vec![Some(Message::Ack(1)), Some(Message::Pong("OOH SHINY".to_string()))]
    );
}
