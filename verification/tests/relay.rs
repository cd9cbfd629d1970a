use sheeld::message::{Message, MessageType};
use sheeld::relay::SheeldFastSocks5;

#[test]
fn default_relay_listens_on_loopback() {
    let relay = SheeldFastSocks5::default();
    assert_eq!(relay.listener_addr(), "127.0.0.1:3001");
}

#[test]
fn new_replaces_the_listening_address() {
    let relay = SheeldFastSocks5::default().new(String::from("0.0.0.0:1080"));
    assert_eq!(relay.listener_addr(), "0.0.0.0:1080");
    let relay = relay.new(String::new());
    assert_eq!(relay.listener_addr(), "");
}

#[test]
fn ping_message_carries_its_data() {
    let message = Message::ping(String::from("hello"));
    assert_eq!(message.message_type, MessageType::PING);
    assert_eq!(message.data, "hello");
    assert_eq!(message.into_data(), "hello");
    let plain = Message { message_type: MessageType::PING, data: 7u32 };
    assert_eq!(plain, Message::ping(7u32));
}
