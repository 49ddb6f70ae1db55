use game_relay::wire::{
    encode_added_frame, encode_disconnect_frame, encode_motion_request,
    encode_newplayer_request, encode_newplayerconnect_frame, encode_position_frame,
    parse_request, Request,
};
use game_relay::{Color, Image, Point, Session};

fn tiny_image() -> Image {
    Image {
        width: 1,
        height: 1,
        pixels: vec![Color { r: 5, g: 6, b: 7 }],
    }
}

#[test]
fn motion_request_bytes_are_canonical() {
    let frame = encode_motion_request(1, Point { x: 10, y: 0 });
    assert_eq!(frame, b"motion [1,{\"x\":10,\"y\":0}]\n".to_vec());
    let frame = encode_motion_request(0, Point { x: -10, y: 2147483647 });
    assert_eq!(frame, b"motion [0,{\"x\":-10,\"y\":2147483647}]\n".to_vec());
}

#[test]
fn newplayer_request_bytes_are_canonical() {
    let frame = encode_newplayer_request(&tiny_image());
    assert_eq!(
        frame,
        b"newplayer {\"width\":1,\"height\":1,\"pixels\":[{\"r\":5,\"g\":6,\"b\":7}]}\n".to_vec()
    );
}

#[test]
fn position_frame_bytes_are_canonical() {
    let frame = encode_position_frame(3, Point { x: 0, y: -10 });
    assert_eq!(frame, b"position [3,{\"x\":0,\"y\":-10}]\n".to_vec());
}

#[test]
fn disconnect_frame_bytes_are_canonical() {
    assert_eq!(encode_disconnect_frame(7), b"disconnect 7\n".to_vec());
    assert_eq!(encode_disconnect_frame(0), b"disconnect 0\n".to_vec());
}

#[test]
fn newplayerconnect_frame_bytes_are_canonical() {
    let frame = encode_newplayerconnect_frame(2, Point { x: 0, y: 0 }, &tiny_image());
    assert_eq!(
        frame,
        b"newplayerconnect [2,{\"x\":0,\"y\":0},{\"width\":1,\"height\":1,\"pixels\":[{\"r\":5,\"g\":6,\"b\":7}]}]\n"
            .to_vec()
    );
}

#[test]
fn added_frame_lists_peers_in_order() {
    let others = vec![Session { id: 0, position: Point { x: 4, y: -2 }, image: tiny_image() }];
    let frame = encode_added_frame(1, Point { x: 0, y: 0 }, &others);
    assert_eq!(
        frame,
        b"added [1,{\"x\":0,\"y\":0},[{\"id\":0,\"position\":{\"x\":4,\"y\":-2},\"image\":{\"width\":1,\"height\":1,\"pixels\":[{\"r\":5,\"g\":6,\"b\":7}]}}]]\n"
            .to_vec()
    );
}

#[test]
fn added_frame_with_no_peers_has_empty_list() {
    let frame = encode_added_frame(0, Point { x: 0, y: 0 }, &Vec::new());
    assert_eq!(frame, b"added [0,{\"x\":0,\"y\":0},[]]\n".to_vec());
}

#[test]
fn parse_request_reads_motion() {
    let r = parse_request(b"motion [12,{\"x\":-10,\"y\":0}]");
    assert!(matches!(r, Some(Request::Motion(12, d)) if d == Point { x: -10, y: 0 }));
}

#[test]
fn parse_request_reads_newplayer() {
    let r = parse_request(b"newplayer {\"width\":2,\"height\":1,\"pixels\":[{\"r\":0,\"g\":0,\"b\":255},{\"r\":9,\"g\":8,\"b\":7}]}");
    match r {
        Some(Request::Newplayer(img)) => {
            assert_eq!(img.width, 2);
            assert_eq!(img.height, 1);
            assert_eq!(img.pixels.len(), 2);
            assert_eq!(img.pixels[0], Color { r: 0, g: 0, b: 255 });
            assert_eq!(img.pixels[1], Color { r: 9, g: 8, b: 7 });
        },
        _ => panic!("expected a newplayer request"),
    }
}

#[test]
fn parse_request_round_trips_encoded_frames() {
    let mut line = encode_motion_request(5, Point { x: -7, y: 42 });
    line.pop();
    let r = parse_request(&line);
    assert!(matches!(r, Some(Request::Motion(5, d)) if d == Point { x: -7, y: 42 }));

    let mut line = encode_newplayer_request(&tiny_image());
    line.pop();
    match parse_request(&line) {
        Some(Request::Newplayer(img)) => {
            assert_eq!(img.width, 1);
            assert_eq!(img.pixels, tiny_image().pixels);
        },
        _ => panic!("expected a newplayer request"),
    }
}

#[test]
fn parse_request_drops_noncanonical_lines() {
    assert!(parse_request(b"").is_none());
    assert!(parse_request(b"hello").is_none());
    assert!(parse_request(b"motion").is_none());
    assert!(parse_request(b"motion [1,{\"x\":1,\"y\":2}] ").is_none());
    assert!(parse_request(b"motion [01,{\"x\":1,\"y\":2}]").is_none());
    assert!(parse_request(b"motion [1,{\"x\":1,\"y\":-0}]").is_none());
    assert!(parse_request(b"motion [1, {\"x\":1,\"y\":2}]").is_none());
    assert!(parse_request(b"motion [1,{\"x\":99999999999,\"y\":2}]").is_none());
    assert!(parse_request(b"position [1,{\"x\":1,\"y\":2}]").is_none());
    assert!(parse_request(b"newplayer {\"width\":1,\"height\":1,\"pixels\":[]").is_none());
}

#[test]
fn parse_request_reads_extreme_coordinates() {
    let r = parse_request(b"motion [0,{\"x\":-2147483648,\"y\":2147483647}]");
    assert!(
        matches!(r, Some(Request::Motion(0, d)) if d == Point { x: i32::MIN, y: i32::MAX })
    );
    assert!(parse_request(b"motion [0,{\"x\":-2147483649,\"y\":0}]").is_none());
    assert!(parse_request(b"motion [0,{\"x\":2147483648,\"y\":0}]").is_none());
}
