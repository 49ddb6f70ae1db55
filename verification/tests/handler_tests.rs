use game_relay::handler::{handle_eof, handle_line, HandlerState};
use game_relay::registry::Registry;
use game_relay::{Color, Image};

fn image_line(seed: u8) -> Vec<u8> {
    let mut line = game_relay::wire::encode_newplayer_request(&Image {
        width: 1,
        height: 1,
        pixels: vec![Color { r: seed, g: seed, b: seed }],
    });
    line.pop();
    line
}

#[test]
fn two_joins_in_order_list_exactly_one_peer() {
    let mut reg = Registry::new();

    let out1 = handle_line(HandlerState::Connecting, &mut reg, &image_line(1));
    assert_eq!(out1.state, HandlerState::Registered { id: 0 });
    assert_eq!(out1.reply.unwrap(), b"added [0,{\"x\":0,\"y\":0},[]]\n".to_vec());
    let fan1 = out1.broadcast.unwrap();
    assert_eq!(fan1.targets.len(), 0);

    let out2 = handle_line(HandlerState::Connecting, &mut reg, &image_line(2));
    assert_eq!(out2.state, HandlerState::Registered { id: 1 });
    assert_eq!(
        out2.reply.unwrap(),
        b"added [1,{\"x\":0,\"y\":0},[{\"id\":0,\"position\":{\"x\":0,\"y\":0},\"image\":{\"width\":1,\"height\":1,\"pixels\":[{\"r\":1,\"g\":1,\"b\":1}]}}]]\n"
            .to_vec()
    );
    let fan2 = out2.broadcast.unwrap();
    assert_eq!(fan2.targets, vec![0]);
    assert_eq!(
        fan2.frame,
        b"newplayerconnect [1,{\"x\":0,\"y\":0},{\"width\":1,\"height\":1,\"pixels\":[{\"r\":2,\"g\":2,\"b\":2}]}]\n"
            .to_vec()
    );
}

#[test]
fn motion_echoes_to_sender_and_fans_out_to_the_peer() {
    let mut reg = Registry::new();
    let s1 = handle_line(HandlerState::Connecting, &mut reg, &image_line(1)).state;
    handle_line(HandlerState::Connecting, &mut reg, &image_line(2));

    let out = handle_line(s1, &mut reg, b"motion [0,{\"x\":10,\"y\":0}]");
    assert_eq!(out.state, s1);
    assert_eq!(out.reply.unwrap(), b"position [0,{\"x\":10,\"y\":0}]\n".to_vec());
    let fan = out.broadcast.unwrap();
    assert_eq!(fan.frame, b"position [0,{\"x\":10,\"y\":0}]\n".to_vec());
    assert_eq!(fan.targets, vec![1]);
}

#[test]
fn disconnect_is_broadcast_once_and_later_motions_are_dropped() {
    let mut reg = Registry::new();
    let s1 = handle_line(HandlerState::Connecting, &mut reg, &image_line(1)).state;
    let s2 = handle_line(HandlerState::Connecting, &mut reg, &image_line(2)).state;

    let eof1 = handle_eof(s1, &mut reg);
    assert_eq!(eof1.state, HandlerState::Closed);
    let fan = eof1.broadcast.unwrap();
    assert_eq!(fan.frame, b"disconnect 0\n".to_vec());
    assert_eq!(fan.targets, vec![1]);

    // the transition runs once: a second end-of-stream finds nothing to do
    let eof_again = handle_eof(HandlerState::Closed, &mut reg);
    assert!(eof_again.broadcast.is_none());

    // a motion naming the departed id is dropped without a crash
    let out = handle_line(s2, &mut reg, b"motion [0,{\"x\":1,\"y\":1}]");
    assert!(out.reply.is_none());
    assert!(out.broadcast.is_none());
    assert_eq!(out.state, s2);
    assert_eq!(reg.len(), 1);
}

#[test]
fn fifty_sessions_register_with_distinct_ids() {
    let mut reg = Registry::new();
    for k in 0..50u8 {
        let out = handle_line(HandlerState::Connecting, &mut reg, &image_line(k));
        assert_eq!(out.state, HandlerState::Registered { id: k as usize });
    }
    assert_eq!(reg.len(), 50);
    let ids = reg.session_ids();
    for (k, id) in ids.iter().enumerate() {
        assert_eq!(*id, k);
    }
}

#[test]
fn out_of_order_and_unknown_lines_keep_the_connection_open() {
    let mut reg = Registry::new();
    // motion before any registration is out of order
    let out = handle_line(HandlerState::Connecting, &mut reg, b"motion [0,{\"x\":1,\"y\":1}]");
    assert_eq!(out.state, HandlerState::Connecting);
    assert!(out.reply.is_none() && out.broadcast.is_none());
    assert_eq!(reg.len(), 0);

    let s1 = handle_line(HandlerState::Connecting, &mut reg, &image_line(1)).state;
    // a second newplayer on a registered connection is out of order
    let out = handle_line(s1, &mut reg, &image_line(2));
    assert_eq!(out.state, s1);
    assert!(out.reply.is_none() && out.broadcast.is_none());
    assert_eq!(reg.len(), 1);

    // garbage is dropped
    let out = handle_line(s1, &mut reg, b"warp [0,{\"x\":1,\"y\":1}]");
    assert!(out.reply.is_none() && out.broadcast.is_none());
    assert_eq!(reg.len(), 1);
}
