//! Core of a multiplayer relay service: a registry of connected game
//! sessions with unique, monotonically increasing identities, a per-connection
//! handler state machine, broadcast fanout planning, and the newline-delimited
//! wire codec the peers speak.  All I/O (sockets, threads, locking) lives with
//! the embedding application; this crate holds the verified logic.

use vstd::prelude::*;

pub mod digits;
pub mod handler;
pub mod registry;
pub mod render;
pub mod wire;

verus! {

/// A 2D integer coordinate; absolute when stored in a session,
/// a relative delta when carried by a `motion` frame.
#[derive(Clone, Copy, PartialEq, Eq, Structural, Debug)]
pub struct Point {
    pub x: i32,
    pub y: i32,
}

impl Point {
    /// The position every newly registered session starts at.
    pub fn origin() -> (r: Point)
        ensures
            r == (Point { x: 0, y: 0 }),
    {
        Point { x: 0, y: 0 }
    }
}

/// One RGB pixel of a sprite.
#[derive(Clone, Copy, PartialEq, Eq, Structural, Debug)]
pub struct Color {
    pub r: u8,
    pub g: u8,
    pub b: u8,
}

/// An opaque sprite payload: row-major RGB pixels.  Immutable once a
/// session is created; the relay only forwards it.
#[derive(Debug)]
pub struct Image {
    pub width: usize,
    pub height: usize,
    pub pixels: Vec<Color>,
}

/// Mathematical model of an `Image`.
pub ghost struct ImageView {
    pub width: nat,
    pub height: nat,
    pub pixels: Seq<Color>,
}

impl ImageView {
    /// A well-formed image holds exactly one pixel per cell.
    pub open spec fn wf(self) -> bool {
        self.pixels.len() == self.width * self.height
    }
}

impl View for Image {
    type V = ImageView;

    open spec fn view(&self) -> ImageView {
        ImageView { width: self.width as nat, height: self.height as nat, pixels: self.pixels@ }
    }
}

impl Image {
    pub open spec fn wf(&self) -> bool {
        self@.wf()
    }

    /// An independent copy with the same dimensions and pixels.
    pub fn cloned(&self) -> (r: Image)
        ensures
            r@ == self@,
    {
        Image { width: self.width, height: self.height, pixels: copy_colors(&self.pixels) }
    }
}

fn copy_colors(src: &Vec<Color>) -> (r: Vec<Color>)
    ensures
        r@ == src@,
{
    let mut out: Vec<Color> = Vec::new();
    let mut k: usize = 0;
    while k < src.len()
        invariant
            k <= src@.len(),
            out@ == src@.subrange(0, k as int),
        decreases src@.len() - k,
    {
        out.push(src[k]);
        k = k + 1;
        proof {
            assert(out@ =~= src@.subrange(0, k as int));
        }
    }
    proof {
        assert(out@ =~= src@);
    }
    out
}

/// One connected player as the registry records it: server-assigned
/// identity, absolute position, and the sprite shown to peers.  The same
/// record is what the wire's peer snapshots carry.
#[derive(Debug)]
pub struct Session {
    pub id: usize,
    pub position: Point,
    pub image: Image,
}

/// Mathematical model of a `Session`.
pub ghost struct SessionView {
    pub id: nat,
    pub position: Point,
    pub image: ImageView,
}

impl View for Session {
    type V = SessionView;

    open spec fn view(&self) -> SessionView {
        SessionView { id: self.id as nat, position: self.position, image: self.image@ }
    }
}

impl Session {
    pub fn cloned(&self) -> (r: Session)
        ensures
            r@ == self@,
    {
        Session { id: self.id, position: self.position, image: self.image.cloned() }
    }
}

/// The models of a sequence of sessions.
pub open spec fn views_of_sessions(s: Seq<Session>) -> Seq<SessionView> {
    s.map_values(|x: Session| x@)
}

} // verus!
