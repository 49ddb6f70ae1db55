//! The wire frames against a general-purpose JSON writer: the codec's
//! canonical bytes are exactly what serde_json prints for the same values.

use game_relay::wire::{encode_disconnect_frame, encode_motion_request, encode_position_frame};
use game_relay::Point;
use serde_json::Value;

fn id_point_json(id: u64, x: i64, y: i64) -> String {
    let mut obj = serde_json::Map::new();
    obj.insert("x".to_string(), Value::from(x));
    obj.insert("y".to_string(), Value::from(y));
    let payload = Value::Array(vec![Value::from(id), Value::Object(obj)]);
    serde_json::to_string(&payload).unwrap()
}

#[test]
fn motion_request_matches_serde_json() {
    let txt = format!("motion {}\n", id_point_json(1, 10, 0));
    assert_eq!(txt.into_bytes(), encode_motion_request(1, Point { x: 10, y: 0 }));
}

#[test]
fn position_frame_matches_serde_json() {
    let txt = format!("position {}\n", id_point_json(4, -10, 2147483647));
    assert_eq!(
        txt.into_bytes(),
        encode_position_frame(4, Point { x: -10, y: 2147483647 })
    );
}

#[test]
fn disconnect_frame_matches_serde_json() {
    let txt = format!("disconnect {}\n", serde_json::to_string(&7usize).unwrap());
    assert_eq!(txt.into_bytes(), encode_disconnect_frame(7));
}
