//! The mesh protocol: the messages that nodes exchange, what a node answers
//! to each, and the port on which it listens.

use rand::Rng;
use vstd::prelude::*;

verus! {

/// The lowest port that a node picks for itself.
pub const FIRST_PORT: u16 = 1024;

/// The end of the ports that a node picks for itself; it is not one of them.
pub const PORTS_END: u16 = 32768;

/// A message that requires acknowledgement.
#[derive(Clone, Copy, Debug, PartialEq, Eq, Structural)]
pub enum AckedMessage {
    Join,
}

/// A message between two nodes.
#[derive(Debug, PartialEq, Eq)]
pub enum Message {
    /// A message that is to be acknowledged, with its sequence number.
    Acked(u32, AckedMessage),
    /// The acknowledgement of the message with this sequence number.
    Ack(u32),
    Ping(String),
    Pong(String),
}

/// What a message stands for: the same message with its text as a sequence
/// of characters.
pub enum MessageView {
    Acked(u32, AckedMessage),
    Ack(u32),
    Ping(Seq<char>),
    Pong(Seq<char>),
}

impl View for Message {
    type V = MessageView;

    open spec fn view(&self) -> MessageView {
        match *self {
            Message::Acked(seq, inner) => MessageView::Acked(seq, inner),
            Message::Ack(seq) => MessageView::Ack(seq),
            Message::Ping(text) => MessageView::Ping(text@),
            Message::Pong(text) => MessageView::Pong(text@),
        }
    }
}

/// The answer that a message is owed: a message that requires
/// acknowledgement is acknowledged under its sequence number, a ping is
/// answered by a pong, and nothing answers an acknowledgement or a pong.
pub open spec fn answer(message: MessageView) -> Option<MessageView> {
    match message {
        MessageView::Acked(seq, _) => Some(MessageView::Ack(seq)),
        MessageView::Ack(_) => None,
        MessageView::Ping(_) => Some(MessageView::Pong("OOH SHINY"@)),
        MessageView::Pong(_) => None,
    }
}

/// The message to send back to the sender of `message`, if it is owed one.
pub fn reply_to(message: &Message) -> (reply: Option<Message>)
    ensures
        match reply {
            Some(sent) => answer(message@) == Some(sent@),
            None => answer(message@).is_none(),
        },
{
    match message {
        Message::Acked(seq, _) => Some(Message::Ack(*seq)),
        Message::Ack(_) => None,
        Message::Ping(_) => Some(Message::Pong("OOH SHINY".to_owned())),
        Message::Pong(_) => None,
    }
}

/// The sequence number under which a node asks to join.
pub const JOIN_NUMBER: u32 = 1;

/// What a node sends to the mesh that it joins, in this order: the request
/// to join, which is to be acknowledged, and a ping.
pub open spec fn greeting() -> Seq<MessageView> {
    seq![
        MessageView::Acked(JOIN_NUMBER, AckedMessage::Join),
        MessageView::Ping("HELLO!!"@),
    ]
}

/// The messages to send to the mesh that the node joins, in the order in
/// which they are sent.
pub fn opening() -> (sent: Vec<Message>)
    ensures
        sent@.len() == greeting().len(),
        forall|i: int| 0 <= i < sent@.len() ==> (#[trigger] sent@[i])@ == greeting()[i],
{
    let mut sent: Vec<Message> = Vec::new();
    sent.push(Message::Acked(JOIN_NUMBER, AckedMessage::Join));
    sent.push(Message::Ping("HELLO!!".to_owned()));
    sent
}

/// The port to listen on: the requested one, or the drawn one where none was
/// requested, which is what port zero stands for.
pub fn port_or(requested: u16, drawn: u16) -> (port: u16)
    ensures
        port == (if requested == 0 { drawn } else { requested }),
{
    if requested == 0 {
        drawn
    } else {
        requested
    }
}

/// The port to listen on: the requested one, or one picked at random among
/// the ports that a node picks for itself where none was requested.
pub fn listen_port(requested: u16) -> (port: u16)
    ensures
        requested != 0 ==> port == requested,
        requested == 0 ==> FIRST_PORT <= port < PORTS_END,
{
    if requested == 0 {
        let drawn = random_between(FIRST_PORT, PORTS_END);
        port_or(requested, drawn)
    } else {
        requested
    }
}

/// `Rng::gen_range` on the generator of `rand::thread_rng` draws a number
/// from `low` up to but not including `high`. Which one is left open. It
/// panics unless `low` is below `high`, so that is required.
#[verifier::external_body]
fn random_between(low: u16, high: u16) -> (drawn: u16)
    requires
        low < high,
    ensures
        low <= drawn < high,
{
    rand::thread_rng().gen_range(low, high)
}

} // verus!
