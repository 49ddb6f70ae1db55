use game_relay::render::{draw_image, Screen};
use game_relay::{Color, Image, Point};

const BLACK: Color = Color { r: 0, g: 0, b: 0 };
const BLUE: Color = Color { r: 0, g: 0, b: 255 };
const RED: Color = Color { r: 255, g: 0, b: 0 };

fn screen_4x4() -> Screen {
    Screen { width: 4, height: 4, pixels: vec![BLACK; 16] }
}

fn image_2x2(a: Color, b: Color, c: Color, d: Color) -> Image {
    Image { width: 2, height: 2, pixels: vec![a, b, c, d] }
}

#[test]
fn draw_copies_the_sprite_at_the_position() {
    let mut screen = screen_4x4();
    let img = image_2x2(RED, BLUE, BLUE, RED);
    draw_image(&mut screen, &img, &Point { x: 1, y: 1 }, None);
    assert_eq!(screen.pixels[1 * 4 + 1], RED);
    assert_eq!(screen.pixels[1 * 4 + 2], BLUE);
    assert_eq!(screen.pixels[2 * 4 + 1], BLUE);
    assert_eq!(screen.pixels[2 * 4 + 2], RED);
    // everything else is untouched
    assert_eq!(screen.pixels[0], BLACK);
    assert_eq!(screen.pixels[3 * 4 + 3], BLACK);
    assert_eq!(screen.pixels[1 * 4 + 0], BLACK);
}

#[test]
fn transparent_key_pixels_are_skipped() {
    let mut screen = screen_4x4();
    let img = image_2x2(RED, BLUE, BLUE, RED);
    draw_image(&mut screen, &img, &Point { x: 0, y: 0 }, Some(&BLUE));
    assert_eq!(screen.pixels[0], RED);
    assert_eq!(screen.pixels[1], BLACK);
    assert_eq!(screen.pixels[4], BLACK);
    assert_eq!(screen.pixels[5], RED);
}

#[test]
fn sprite_is_clipped_at_the_edges() {
    let mut screen = screen_4x4();
    let img = image_2x2(RED, RED, RED, RED);
    draw_image(&mut screen, &img, &Point { x: -1, y: -1 }, None);
    assert_eq!(screen.pixels[0], RED);
    assert_eq!(screen.pixels[1], BLACK);
    assert_eq!(screen.pixels[4], BLACK);

    let mut screen = screen_4x4();
    draw_image(&mut screen, &img, &Point { x: 3, y: 3 }, None);
    assert_eq!(screen.pixels[3 * 4 + 3], RED);
    assert_eq!(screen.pixels[3 * 4 + 2], BLACK);
    assert_eq!(screen.pixels[2 * 4 + 3], BLACK);
}

#[test]
fn sprite_fully_off_screen_changes_nothing() {
    let mut screen = screen_4x4();
    let img = image_2x2(RED, RED, RED, RED);
    draw_image(&mut screen, &img, &Point { x: 10, y: 0 }, None);
    draw_image(&mut screen, &img, &Point { x: 0, y: -5 }, None);
    assert!(screen.pixels.iter().all(|p| *p == BLACK));
}
