//! The per-connection handler: a state machine from `Connecting` through
//! `Registered` to `Closed`.  Each received line (or end-of-stream) becomes
//! one registry operation plus the planned outputs: an optional reply to
//! the originating connection and an optional fanout to other sessions.
//! The embedding application performs the socket writes, best effort per
//! target; a failed write to one peer never removes that peer nor stops
//! delivery to the rest.

use vstd::prelude::*;

use crate::registry::{
    has_id, idx_of, motion_fits, motion_post, moved, others_except, register_post,
    unregister_post, MotionOutcome, Registry,
};
use crate::wire::{
    encode_added_frame, encode_disconnect_frame, encode_newplayerconnect_frame,
    encode_position_frame, frame_disconnect, frame_motion, frame_newplayer,
    frame_newplayerconnect, frame_position, lemma_motion_frame_layout,
    lemma_newplayer_frame_layout, parse_request, Request,
};
use crate::{views_of_sessions, ImageView, Point, Session, SessionView};

verus! {

/// Where a connection stands in its life cycle.
#[derive(Clone, Copy, PartialEq, Eq, Structural, Debug)]
pub enum HandlerState {
    /// Accepted, but no session yet: only `newplayer` is meaningful.
    Connecting,
    /// A live session with this id.
    Registered { id: usize },
    /// The session is gone; nothing more happens on this connection.
    Closed,
}

/// One planned fanout: a frame serialized once, and the ids of the
/// sessions that are to receive it.
pub struct Outbound {
    pub frame: Vec<u8>,
    pub targets: Vec<usize>,
}

/// What one received line amounts to.
pub struct LineOutcome {
    pub state: HandlerState,
    /// Echoed to the originating connection only.
    pub reply: Option<Vec<u8>>,
    /// Sent to the listed other sessions.
    pub broadcast: Option<Outbound>,
}

/// The target list names exactly the ids of these sessions, in order.
pub open spec fn targets_match(ts: Seq<usize>, ss: Seq<SessionView>) -> bool {
    &&& ts.len() == ss.len()
    &&& forall|k: int| 0 <= k < ts.len() ==> #[trigger] ts[k] as nat == ss[k].id
}

/// A line that this state drops: out-of-order, unrecognized, or malformed
/// lines are logged by the embedding application and change nothing.
pub open spec fn line_ignored(state: HandlerState, line: Seq<u8>) -> bool {
    match state {
        HandlerState::Connecting => forall|iv: ImageView|
            #![trigger frame_newplayer(iv)]
            !(line == frame_newplayer(iv) && iv.width <= usize::MAX && iv.height <= usize::MAX),
        HandlerState::Registered { id: _ } => forall|id: usize, d: Point|
            #![trigger frame_motion(id as nat, d)]
            line != frame_motion(id as nat, d),
        HandlerState::Closed => true,
    }
}

fn ids_of(ss: &Vec<Session>) -> (r: Vec<usize>)
    ensures
        targets_match(r@, views_of_sessions(ss@)),
{
    let mut out: Vec<usize> = Vec::new();
    let mut k: usize = 0;
    while k < ss.len()
        invariant
            k <= ss@.len(),
            out@.len() == k,
            forall|m: int| 0 <= m < k ==> #[trigger] out@[m] as nat == ss@[m]@.id,
        decreases ss@.len() - k,
    {
        out.push(ss[k].id);
        k = k + 1;
    }
    out
}

/// Handles one received line (without its newline) in the given state.
///
/// In `Connecting`, a canonical `newplayer` frame registers a session: the
/// reply is the `added` frame with the new id, the origin position and the
/// snapshot of prior sessions, and the broadcast announces the newcomer to
/// exactly those prior sessions.  In `Registered`, a canonical `motion`
/// frame moves the session named in the frame: the reply echoes a
/// `position` frame carrying the raw delta, and the same frame goes to
/// every other session.  Anything else — unknown verbs, malformed
/// payloads, out-of-order messages, a motion for an unknown id, or a delta
/// that would overflow the stored coordinates — is dropped and nothing
/// changes.
pub fn handle_line(state: HandlerState, reg: &mut Registry, line: &[u8]) -> (out: LineOutcome)
    requires
        old(reg)@.wf(),
        old(reg)@.next_id < usize::MAX,
    ensures
        final(reg)@.wf(),
        line_ignored(state, line@) ==> final(reg)@ == old(reg)@ && out.state == state
            && out.reply is None && out.broadcast is None,
        forall|iv: ImageView|
            #![trigger frame_newplayer(iv)]
            (line@ == frame_newplayer(iv) && iv.width <= usize::MAX && iv.height <= usize::MAX
                && state == HandlerState::Connecting) ==> {
                &&& register_post(old(reg)@, final(reg)@, iv, old(reg)@.next_id)
                &&& out.state == (HandlerState::Registered {
                    id: old(reg)@.next_id as usize,
                })
                &&& out.reply matches Some(f) && f@ == crate::wire::frame_added(
                    old(reg)@.next_id,
                    Point { x: 0, y: 0 },
                    old(reg)@.sessions,
                )
                &&& out.broadcast matches Some(ob) && ob.frame@ == frame_newplayerconnect(
                    old(reg)@.next_id,
                    Point { x: 0, y: 0 },
                    iv,
                ) && targets_match(ob.targets@, old(reg)@.sessions)
            },
        forall|id: usize, d: Point|
            #![trigger frame_motion(id as nat, d)]
            (line@ == frame_motion(id as nat, d) && state matches HandlerState::Registered {
                id: _,
            }) ==> {
                &&& (has_id(old(reg)@.sessions, id as nat) && motion_fits(
                    old(reg)@.sessions[idx_of(old(reg)@.sessions, id as nat)].position,
                    d,
                )) ==> {
                    &&& motion_post(
                        old(reg)@,
                        final(reg)@,
                        id as nat,
                        d,
                        MotionOutcome::Moved(
                            moved(
                                old(reg)@.sessions[idx_of(old(reg)@.sessions, id as nat)].position,
                                d,
                            ),
                        ),
                    )
                    &&& out.state == state
                    &&& out.reply matches Some(f) && f@ == frame_position(id as nat, d)
                    &&& out.broadcast matches Some(ob) && ob.frame@ == frame_position(
                        id as nat,
                        d,
                    ) && targets_match(
                        ob.targets@,
                        others_except(final(reg)@.sessions, id as nat),
                    )
                }
                &&& (!has_id(old(reg)@.sessions, id as nat) || !motion_fits(
                    old(reg)@.sessions[idx_of(old(reg)@.sessions, id as nat)].position,
                    d,
                )) ==> final(reg)@ == old(reg)@ && out.state == state && out.reply is None
                    && out.broadcast is None
            },
{
    let ghost pre = reg@;
    let parsed = parse_request(line);
    match (state, parsed) {
        (HandlerState::Connecting, Some(Request::Newplayer(img))) => {
            let ghost imgv = img@;
            let id = reg.peek_next_id();
            let bframe = encode_newplayerconnect_frame(id, Point { x: 0, y: 0 }, &img);
            let (id2, position, others) = reg.register(img);
            let reply = encode_added_frame(id2, position, &others);
            let targets = ids_of(&others);
            proof {
                assert(id2 == id);
                assert(line_ignored(state, line@) ==> false);
                assert forall|iv: ImageView|
                    #![trigger frame_newplayer(iv)]
                    line@ == frame_newplayer(iv) && iv.width <= usize::MAX && iv.height
                    <= usize::MAX implies iv == imgv by {
                    lemma_newplayer_frame_layout(line@, iv);
                    lemma_newplayer_frame_layout(line@, imgv);
                }
            }
            LineOutcome {
                state: HandlerState::Registered { id },
                reply: Some(reply),
                broadcast: Some(Outbound { frame: bframe, targets }),
            }
        },
        (HandlerState::Registered { id: _ }, Some(Request::Motion(mid, d))) => {
            match reg.apply_motion(mid, d) {
                MotionOutcome::Moved(_p) => {
                    let reply = encode_position_frame(mid, d);
                    let bframe = encode_position_frame(mid, d);
                    let targets = reg.ids_except(mid);
                    proof {
                        assert forall|id2: usize, d2: Point|
                            #![trigger frame_motion(id2 as nat, d2)]
                            line@ == frame_motion(id2 as nat, d2) implies id2 == mid && d2
                            == d by {
                            lemma_motion_frame_layout(line@, id2 as nat, d2);
                            lemma_motion_frame_layout(line@, mid as nat, d);
                        }
                        assert(line_ignored(state, line@) ==> false);
                    }
                    LineOutcome {
                        state,
                        reply: Some(reply),
                        broadcast: Some(Outbound { frame: bframe, targets }),
                    }
                },
                _ => {
                    proof {
                        assert forall|id2: usize, d2: Point|
                            #![trigger frame_motion(id2 as nat, d2)]
                            line@ == frame_motion(id2 as nat, d2) implies id2 == mid && d2
                            == d by {
                            lemma_motion_frame_layout(line@, id2 as nat, d2);
                            lemma_motion_frame_layout(line@, mid as nat, d);
                        }
                        assert(line_ignored(state, line@) ==> false);
                        assert(reg@ =~= pre);
                    }
                    LineOutcome { state, reply: None, broadcast: None }
                },
            }
        },
        _ => {
            proof {
                // a canonical frame cannot reach this arm in the state it
                // belongs to: the parser's completeness would have produced
                // the matching request
                assert forall|iv: ImageView|
                    #![trigger frame_newplayer(iv)]
                    line@ == frame_newplayer(iv) && iv.width <= usize::MAX && iv.height
                    <= usize::MAX && state == HandlerState::Connecting implies false by {}
                assert forall|id2: usize, d2: Point|
                    #![trigger frame_motion(id2 as nat, d2)]
                    line@ == frame_motion(id2 as nat, d2) && state matches HandlerState::Registered {
                        id: _,
                    } implies false by {}
            }
            LineOutcome { state, reply: None, broadcast: None }
        },
    }
}

/// What the end of a connection amounts to.
pub struct EofOutcome {
    pub state: HandlerState,
    pub broadcast: Option<Outbound>,
}

/// Handles end-of-stream or a fatal read error: the session, if one was
/// registered, leaves the registry, and its departure goes out to every
/// remaining session exactly once — a second call finds the id gone and
/// broadcasts nothing.
pub fn handle_eof(state: HandlerState, reg: &mut Registry) -> (out: EofOutcome)
    requires
        old(reg)@.wf(),
    ensures
        final(reg)@.wf(),
        out.state == HandlerState::Closed,
        state matches HandlerState::Registered { id } ==> {
            &&& unregister_post(old(reg)@, final(reg)@, id as nat, out.broadcast is Some)
            &&& (out.broadcast matches Some(ob) ==> ob.frame@ == frame_disconnect(id as nat)
                && targets_match(ob.targets@, final(reg)@.sessions))
        },
        !(state matches HandlerState::Registered { id: _ }) ==> final(reg)@ == old(reg)@
            && out.broadcast is None,
{
    match state {
        HandlerState::Registered { id } => {
            let was_present = reg.unregister(id);
            if was_present {
                let frame = encode_disconnect_frame(id);
                let targets = reg.session_ids();
                EofOutcome {
                    state: HandlerState::Closed,
                    broadcast: Some(Outbound { frame, targets }),
                }
            } else {
                EofOutcome { state: HandlerState::Closed, broadcast: None }
            }
        },
        _ => EofOutcome { state: HandlerState::Closed, broadcast: None },
    }
}

} // verus!
