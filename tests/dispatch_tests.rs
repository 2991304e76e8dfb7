use kinet_bridge::config::{mappings_to_destinations, Configuration, KinetSocketAddr};
use kinet_bridge::dispatch::{dispatch, handle_datagram, Action, InboundCommand};
use kinet_bridge::kinet::encode;

fn config(mappings: &[&str]) -> Configuration {
    Configuration {
        artnet_receive_ip: "127.0.0.1".to_string(),
        kinet_send_ip: "127.0.0.1".to_string(),
        kinet_destinations: mappings_to_destinations(mappings.iter().map(|s| s.to_string()).collect())
            .unwrap(),
        verbosity: 2,
    }
}

fn artnet_output(port_address: u16, data: &[u8]) -> Vec<u8> {
    let mut b = b"Art-Net\0".to_vec();
    b.extend_from_slice(&[0x00, 0x50, 0, 14, 0, 0]);
    b.extend_from_slice(&port_address.to_le_bytes());
    b.extend_from_slice(&(data.len() as u16).to_be_bytes());
    b.extend_from_slice(data);
    b
}

#[test]
fn output_for_registered_key_is_sent() {
    let c = config(&["1:0:2:10.0.0.5:3"]);
    let a = dispatch(&c.kinet_destinations, InboundCommand::Output { port_address: 0x102, data: vec![1, 2] });
    assert_eq!(
        a,
        Action::Send {
            to: KinetSocketAddr { ip: [10, 0, 0, 5], port: 6038 },
            port: 3,
            frame: encode(3, &[1, 2]),
        }
    );
}

#[test]
fn output_for_unregistered_key_is_dropped() {
    let c = config(&["1:0:2:10.0.0.5:3"]);
    let a = dispatch(&c.kinet_destinations, InboundCommand::Output { port_address: 0x103, data: vec![1, 2] });
    assert_eq!(a, Action::NoDestination { port_address: 0x103 });
}

#[test]
fn poll_and_others() {
    let c = config(&["10.0.0.5"]);
    assert_eq!(dispatch(&c.kinet_destinations, InboundCommand::Poll), Action::ReplyToPoll);
    assert_eq!(dispatch(&c.kinet_destinations, InboundCommand::PollReply), Action::IgnoreReply);
    assert_eq!(dispatch(&c.kinet_destinations, InboundCommand::Other), Action::Unhandled);
}

#[test]
fn malformed_datagram_does_not_block_next() {
    let c = config(&["1:10.0.0.5"]);
    let first = handle_datagram(&c, &[1, 2, 3]);
    assert!(matches!(first, Action::Malformed { .. }));
    let second = handle_datagram(&c, &artnet_output(1, &[10, 20, 30, 40]));
    match second {
        Action::Send { to, port, frame } => {
            assert_eq!(to.ip, [10, 0, 0, 5]);
            assert_eq!(port, 0);
            assert_eq!(&frame[21..25], &[10, 20, 30, 40]);
            assert!(frame[25..].iter().all(|b| *b == 0));
        }
        other => panic!("expected a send, got {:?}", other),
    }
}

#[test]
fn datagram_for_unregistered_key_sends_nothing() {
    let c = config(&["1:10.0.0.5"]);
    let a = handle_datagram(&c, &artnet_output(7, &[1, 2]));
    assert_eq!(a, Action::NoDestination { port_address: 7 });
}

#[test]
fn poll_datagram_gets_reply() {
    let c = config(&["10.0.0.5"]);
    let mut b = b"Art-Net\0".to_vec();
    b.extend_from_slice(&[0x00, 0x20, 0, 14, 0, 0]);
    assert_eq!(handle_datagram(&c, &b), Action::ReplyToPoll);
}
