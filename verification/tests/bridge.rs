use cymru::broker::{Broker, Event, Request};

#[test]
fn subscribe_then_loopback_delivers() {
    let mut b = Broker::new(true);
    let sub = b.handle(Request::Subscribe { channel: String::new() });
    let sub_id = match sub.as_slice() {
        [Event::Subscribed { sub_id }] => *sub_id,
        _ => panic!("no sub id"),
    };
    let ev = b.handle(Request::Send {
        recipient: "broadcast".into(),
        channel: "mesh".into(),
        payload: vec![1, 2, 3],
    });
    assert_eq!(
        ev,
        vec![Event::MessageReceived {
            sub_id,
            sender: "dev-loopback".into(),
            channel: "mesh".into(),
            payload: vec![1, 2, 3],
        }]
    );
}

#[test]
fn real_mode_does_not_loopback() {
    let mut b = Broker::new(false);
    b.handle(Request::Subscribe { channel: String::new() });
    let ev = b.handle(Request::Send { recipient: "x".into(), channel: "".into(), payload: vec![1] });
    assert!(ev.is_empty());
}
