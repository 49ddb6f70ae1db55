//! The session registry: the shared collection of live sessions and the
//! identity counter.  Registration appends a session at the origin under a
//! fresh, strictly increasing id; motion accumulates a delta into a stored
//! position; unregistration removes a session and is idempotent.  The
//! embedding application serialises calls (one lock around the registry),
//! so every operation here is a single atomic step of the shared state.

use vstd::prelude::*;

use crate::{views_of_sessions, Image, ImageView, Point, Session, SessionView};

verus! {

/// Mathematical model of a `Registry`.
#[verifier::ext_equal]
pub ghost struct RegistryView {
    pub next_id: nat,
    pub sessions: Seq<SessionView>,
}

impl RegistryView {
    /// Every live id was issued (is below the counter) and no id is live
    /// twice.
    pub open spec fn wf(self) -> bool {
        &&& forall|k: int|
            0 <= k < self.sessions.len() ==> (#[trigger] self.sessions[k]).id < self.next_id
        &&& forall|k1: int, k2: int|
            #![trigger self.sessions[k1], self.sessions[k2]]
            0 <= k1 < k2 < self.sessions.len() ==> self.sessions[k1].id != self.sessions[k2].id
    }
}

/// The empty registry every process starts from.
pub open spec fn empty_registry() -> RegistryView {
    RegistryView { next_id: 0, sessions: Seq::empty() }
}

/// All sessions except the one with this id, in order.
pub open spec fn others_except(ss: Seq<SessionView>, id: nat) -> Seq<SessionView> {
    ss.filter(|sv: SessionView| sv.id != id)
}

pub open spec fn has_id(ss: Seq<SessionView>, id: nat) -> bool {
    exists|k: int| 0 <= k < ss.len() && ss[k].id == id
}

pub open spec fn idx_of(ss: Seq<SessionView>, id: nat) -> int {
    choose|k: int| 0 <= k < ss.len() && ss[k].id == id
}

/// One registration step: the fresh session joins at the origin under the
/// counter's value, and the counter moves past it forever.
pub open spec fn register_step(pre: RegistryView, image: ImageView) -> RegistryView {
    RegistryView {
        next_id: pre.next_id + 1,
        sessions: pre.sessions.push(
            SessionView { id: pre.next_id, position: Point { x: 0, y: 0 }, image },
        ),
    }
}

/// What `register` did, relating the states around the call to the issued
/// id.
pub open spec fn register_post(
    pre: RegistryView,
    post: RegistryView,
    image: ImageView,
    id: nat,
) -> bool {
    &&& id == pre.next_id
    &&& post == register_step(pre, image)
}

/// Both coordinates stay inside `i32` when the delta is applied.
pub open spec fn motion_fits(p: Point, delta: Point) -> bool {
    &&& i32::MIN <= p.x + delta.x <= i32::MAX
    &&& i32::MIN <= p.y + delta.y <= i32::MAX
}

/// Exact integer addition of a delta to a position.
pub open spec fn moved(p: Point, delta: Point) -> Point {
    Point { x: (p.x + delta.x) as i32, y: (p.y + delta.y) as i32 }
}

/// The reply of `apply_motion`.
pub enum MotionOutcome {
    /// The session moved; this is its new absolute position.
    Moved(Point),
    /// No live session has the id: a recoverable protocol violation, the
    /// message is dropped.
    UnknownId,
    /// The delta would take a coordinate outside `i32`: the message is
    /// dropped and nothing changes.
    OutOfRange,
}

/// What `apply_motion` did.
pub open spec fn motion_post(
    pre: RegistryView,
    post: RegistryView,
    id: nat,
    delta: Point,
    r: MotionOutcome,
) -> bool {
    &&& post.next_id == pre.next_id
    &&& post.sessions.len() == pre.sessions.len()
    &&& forall|k: int|
        0 <= k < pre.sessions.len() && (#[trigger] pre.sessions[k]).id != id
            ==> post.sessions[k] == pre.sessions[k]
    &&& match r {
        MotionOutcome::Moved(p) => {
            &&& has_id(pre.sessions, id)
            &&& motion_fits(pre.sessions[idx_of(pre.sessions, id)].position, delta)
            &&& p == moved(pre.sessions[idx_of(pre.sessions, id)].position, delta)
            &&& post.sessions[idx_of(pre.sessions, id)] == (SessionView {
                id,
                position: p,
                image: pre.sessions[idx_of(pre.sessions, id)].image,
            })
        },
        MotionOutcome::UnknownId => !has_id(pre.sessions, id) && post.sessions == pre.sessions,
        MotionOutcome::OutOfRange => {
            &&& has_id(pre.sessions, id)
            &&& !motion_fits(pre.sessions[idx_of(pre.sessions, id)].position, delta)
            &&& post.sessions == pre.sessions
        },
    }
}

/// What `unregister` did: the session with the id leaves if it was there,
/// and the call reports whether a departure is to be broadcast.
pub open spec fn unregister_post(
    pre: RegistryView,
    post: RegistryView,
    id: nat,
    was_present: bool,
) -> bool {
    &&& post.next_id == pre.next_id
    &&& was_present == has_id(pre.sessions, id)
    &&& if was_present {
        post.sessions == pre.sessions.remove(idx_of(pre.sessions, id))
    } else {
        post.sessions == pre.sessions
    }
}


/// In a well-formed registry two distinct slots never share an id.
proof fn lemma_unique_ids(v: RegistryView, a: int, b: int)
    requires
        v.wf(),
        0 <= a < v.sessions.len(),
        0 <= b < v.sessions.len(),
        a != b,
    ensures
        v.sessions[a].id != v.sessions[b].id,
{
}

/// The shared registry of live sessions plus the next-identity counter.
pub struct Registry {
    next_id: usize,
    sessions: Vec<Session>,
}

impl View for Registry {
    type V = RegistryView;

    closed spec fn view(&self) -> RegistryView {
        RegistryView {
            next_id: self.next_id as nat,
            sessions: views_of_sessions(self.sessions@),
        }
    }
}

impl Registry {
    /// The registry a process starts with: no sessions, ids from 0.
    pub fn new() -> (r: Registry)
        ensures
            r@ == empty_registry(),
            r@.wf(),
    {
        let r = Registry { next_id: 0, sessions: Vec::new() };
        proof {
            assert(views_of_sessions(r.sessions@) =~= Seq::<SessionView>::empty());
            assert(r@ =~= empty_registry());
        }
        r
    }

    /// Number of live sessions.
    pub fn len(&self) -> (r: usize)
        ensures
            r == self@.sessions.len(),
    {
        self.sessions.len()
    }

    /// The ids of all live sessions, in registry order.
    pub fn session_ids(&self) -> (r: Vec<usize>)
        ensures
            r@.len() == self@.sessions.len(),
            forall|k: int| 0 <= k < r@.len() ==> #[trigger] r@[k] as nat == self@.sessions[k].id,
    {
        let mut out: Vec<usize> = Vec::new();
        let mut k: usize = 0;
        while k < self.sessions.len()
            invariant
                k <= self.sessions@.len(),
                out@.len() == k,
                forall|m: int| 0 <= m < k ==> #[trigger] out@[m] as nat == self@.sessions[m].id,
            decreases self.sessions@.len() - k,
        {
            out.push(self.sessions[k].id);
            k = k + 1;
        }
        out
    }

    /// A copy of every live session but the given id: the snapshot handed
    /// to a freshly joining peer so that it can render the room at once.
    pub fn snapshot_others(&self, id: usize) -> (r: Vec<Session>)
        ensures
            views_of_sessions(r@) == others_except(self@.sessions, id as nat),
    {
        let ghost pred = |sv: SessionView| sv.id != (id as nat);
        let mut out: Vec<Session> = Vec::new();
        proof {
            assert(self@.sessions.take(0) =~= Seq::<SessionView>::empty());
            reveal(Seq::filter);
            assert(views_of_sessions(out@) =~= self@.sessions.take(0).filter(pred));
        }
        let mut k: usize = 0;
        while k < self.sessions.len()
            invariant
                k <= self.sessions@.len(),
                pred == (|sv: SessionView| sv.id != (id as nat)),
                views_of_sessions(out@) == self@.sessions.take(k as int).filter(pred),
            decreases self.sessions@.len() - k,
        {
            let ghost pretake = self@.sessions.take(k as int);
            let ghost curtake = self@.sessions.take(k + 1);
            proof {
                reveal(Seq::filter);
                assert(curtake.drop_last() =~= pretake);
                assert(curtake.last() == self@.sessions[k as int]);
            }
            if self.sessions[k].id != id {
                let s = self.sessions[k].cloned();
                out.push(s);
                proof {
                    assert(views_of_sessions(out@) =~= curtake.filter(pred));
                }
            } else {
                proof {
                    assert(views_of_sessions(out@) =~= curtake.filter(pred));
                }
            }
            k = k + 1;
        }
        proof {
            assert(self@.sessions.take(self.sessions@.len() as int) =~= self@.sessions);
        }
        out
    }

    /// The id the next registration will be issued.
    pub fn peek_next_id(&self) -> (r: usize)
        ensures
            r as nat == self@.next_id,
    {
        self.next_id
    }

    /// The ids of every live session but the given one, in registry order:
    /// the fanout targets for an event that its subject must not receive.
    pub fn ids_except(&self, id: usize) -> (r: Vec<usize>)
        ensures
            r@.len() == others_except(self@.sessions, id as nat).len(),
            forall|k: int|
                0 <= k < r@.len() ==> #[trigger] r@[k] as nat == others_except(
                    self@.sessions,
                    id as nat,
                )[k].id,
    {
        let ghost pred = |sv: SessionView| sv.id != (id as nat);
        let mut out: Vec<usize> = Vec::new();
        proof {
            assert(self@.sessions.take(0) =~= Seq::<SessionView>::empty());
            reveal(Seq::filter);
        }
        let mut k: usize = 0;
        while k < self.sessions.len()
            invariant
                k <= self.sessions@.len(),
                pred == (|sv: SessionView| sv.id != (id as nat)),
                out@.len() == self@.sessions.take(k as int).filter(pred).len(),
                forall|m: int|
                    0 <= m < out@.len() ==> #[trigger] out@[m] as nat == self@.sessions.take(
                        k as int,
                    ).filter(pred)[m].id,
            decreases self.sessions@.len() - k,
        {
            let ghost pretake = self@.sessions.take(k as int);
            let ghost curtake = self@.sessions.take(k + 1);
            proof {
                reveal(Seq::filter);
                assert(curtake.drop_last() =~= pretake);
                assert(curtake.last() == self@.sessions[k as int]);
            }
            if self.sessions[k].id != id {
                out.push(self.sessions[k].id);
                proof {
                    assert(curtake.filter(pred) =~= pretake.filter(pred).push(
                        self@.sessions[k as int],
                    ));
                }
            } else {
                proof {
                    assert(curtake.filter(pred) =~= pretake.filter(pred));
                }
            }
            k = k + 1;
        }
        proof {
            assert(self@.sessions.take(self.sessions@.len() as int) =~= self@.sessions);
        }
        out
    }

    /// Registers a new session: issues the next id, places the session at
    /// the origin, and returns the id, the initial position, and the
    /// snapshot of the sessions that were already live (the fanout
    /// targets for the join announcement).
    pub fn register(&mut self, image: Image) -> (r: (usize, Point, Vec<Session>))
        requires
            old(self)@.wf(),
            old(self)@.next_id < usize::MAX,
        ensures
            final(self)@.wf(),
            register_post(old(self)@, final(self)@, image@, r.0 as nat),
            r.1 == (Point { x: 0, y: 0 }),
            views_of_sessions(r.2@) == old(self)@.sessions,
    {
        let id = self.next_id;
        let others = self.snapshot_others(id);
        proof {
            lemma_filter_everything(
                self@.sessions,
                |sv: SessionView| sv.id != id as nat,
            );
        }
        self.next_id = self.next_id + 1;
        let position = Point { x: 0, y: 0 };
        self.sessions.push(Session { id, position, image });
        proof {
            assert(views_of_sessions(self.sessions@) =~= views_of_sessions(
                old(self).sessions@,
            ).push(self.sessions@.last()@));
            assert(self@ =~= register_step(old(self)@, image@));
            lemma_register_preserves_wf(old(self)@, self@, image@, id as nat);
        }
        (id, position, others)
    }

    /// Accumulates a delta into the stored position of the session with
    /// this id and returns the resulting absolute position.  A lookup miss
    /// is reported, never a panic; a sum that leaves `i32` leaves the
    /// registry untouched.
    pub fn apply_motion(&mut self, id: usize, delta: Point) -> (r: MotionOutcome)
        requires
            old(self)@.wf(),
        ensures
            final(self)@.wf(),
            motion_post(old(self)@, final(self)@, id as nat, delta, r),
    {
        let ghost pre = self@;
        let mut k: usize = 0;
        while k < self.sessions.len()
            invariant
                k <= self.sessions@.len(),
                pre == old(self)@,
                pre.wf(),
                self@ == pre,
                forall|m: int| 0 <= m < k ==> (#[trigger] pre.sessions[m]).id != id as nat,
            decreases self.sessions@.len() - k,
        {
            if self.sessions[k].id == id {
                proof {
                    assert(pre.sessions[k as int].id == id as nat);
                    assert(has_id(pre.sessions, id as nat));
                    assert(idx_of(pre.sessions, id as nat) == k as int) by {
                        let m = idx_of(pre.sessions, id as nat);
                        assert(0 <= m < pre.sessions.len() && pre.sessions[m].id == id as nat);
                        if m != k {
                            lemma_unique_ids(pre, k as int, m);
                        }
                    }
                }
                let p = self.sessions[k].position;
                let nx = p.x as i64 + delta.x as i64;
                let ny = p.y as i64 + delta.y as i64;
                if nx < i32::MIN as i64 || nx > i32::MAX as i64 || ny < i32::MIN as i64 || ny
                    > i32::MAX as i64 {
                    proof {
                        assert(!motion_fits(p, delta));
                    }
                    return MotionOutcome::OutOfRange;
                }
                let np = Point { x: nx as i32, y: ny as i32 };
                let ghost before = self.sessions@;
                let mut s = self.sessions.remove(k);
                s.position = np;
                self.sessions.insert(k, s);
                proof {
                    assert(self.sessions@ =~= before.update(k as int, self.sessions@[k as int]));
                    assert(views_of_sessions(self.sessions@) =~= pre.sessions.update(
                        k as int,
                        SessionView { id: id as nat, position: np, image: pre.sessions[k as int].image },
                    ));
                    assert(motion_fits(p, delta));
                    assert(np == moved(p, delta));
                    assert(motion_post(pre, self@, id as nat, delta, MotionOutcome::Moved(np)));
                    assert(self@.wf());
                }
                return MotionOutcome::Moved(np);
            }
            k = k + 1;
        }
        proof {
            assert(!has_id(pre.sessions, id as nat)) by {
                if has_id(pre.sessions, id as nat) {
                    let m = idx_of(pre.sessions, id as nat);
                    assert(0 <= m < pre.sessions.len() && pre.sessions[m].id == id as nat);
                }
            }
        }
        MotionOutcome::UnknownId
    }

    /// Removes the session with this id, if it is live, and reports
    /// whether it was: the caller broadcasts the departure exactly when it
    /// was.  Unregistering an absent id is a no-op, not an error.
    pub fn unregister(&mut self, id: usize) -> (r: bool)
        requires
            old(self)@.wf(),
        ensures
            final(self)@.wf(),
            unregister_post(old(self)@, final(self)@, id as nat, r),
    {
        let ghost pre = self@;
        let mut k: usize = 0;
        while k < self.sessions.len()
            invariant
                k <= self.sessions@.len(),
                pre == old(self)@,
                pre.wf(),
                self@ == pre,
                forall|m: int| 0 <= m < k ==> (#[trigger] pre.sessions[m]).id != id as nat,
            decreases self.sessions@.len() - k,
        {
            if self.sessions[k].id == id {
                proof {
                    assert(pre.sessions[k as int].id == id as nat);
                    assert(has_id(pre.sessions, id as nat));
                    assert(idx_of(pre.sessions, id as nat) == k as int) by {
                        let m = idx_of(pre.sessions, id as nat);
                        assert(0 <= m < pre.sessions.len() && pre.sessions[m].id == id as nat);
                        if m != k {
                            lemma_unique_ids(pre, k as int, m);
                        }
                    }
                }
                self.sessions.remove(k);
                proof {
                    assert(views_of_sessions(self.sessions@) =~= pre.sessions.remove(k as int));
                    assert(self@.wf()) by {
                        let post = pre.sessions.remove(k as int);
                        assert(forall|m: int|
                            0 <= m < post.len() ==> post[m] == (if m < k {
                                pre.sessions[m]
                            } else {
                                pre.sessions[m + 1]
                            }));
                    }
                }
                return true;
            }
            k = k + 1;
        }
        proof {
            assert(!has_id(pre.sessions, id as nat)) by {
                if has_id(pre.sessions, id as nat) {
                    let m = idx_of(pre.sessions, id as nat);
                    assert(0 <= m < pre.sessions.len() && pre.sessions[m].id == id as nat);
                }
            }
        }
        false
    }
}

/// Filtering with a predicate that holds everywhere changes nothing.
proof fn lemma_filter_everything(ss: Seq<SessionView>, pred: spec_fn(SessionView) -> bool)
    requires
        forall|k: int| 0 <= k < ss.len() ==> pred(#[trigger] ss[k]),
    ensures
        ss.filter(pred) == ss,
    decreases ss.len(),
{
    reveal(Seq::filter);
    if ss.len() > 0 {
        let t = ss.drop_last();
        assert(forall|k: int| 0 <= k < t.len() ==> t[k] == #[trigger] ss[k]);
        lemma_filter_everything(t, pred);
        assert(pred(ss.last()));
        assert(ss.filter(pred) =~= ss);
    }
}

/// A registration keeps the registry well formed, and the id it issues
/// was never live before the call.
pub proof fn lemma_register_preserves_wf(
    pre: RegistryView,
    post: RegistryView,
    image: ImageView,
    id: nat,
)
    requires
        pre.wf(),
        register_post(pre, post, image, id),
    ensures
        post.wf(),
        !has_id(pre.sessions, id),
{
    assert(!has_id(pre.sessions, id)) by {
        if has_id(pre.sessions, id) {
            let m = idx_of(pre.sessions, id);
            assert(0 <= m < pre.sessions.len() && pre.sessions[m].id == id);
        }
    }
    assert(forall|k: int|
        0 <= k < pre.sessions.len() ==> post.sessions[k] == #[trigger] pre.sessions[k]);
    assert(post.sessions[pre.sessions.len() as int].id == id);
}

/// Issued identities strictly increase: of two consecutive registrations
/// the second returns exactly the next id, so ids never repeat and leave
/// no gap.
pub proof fn lemma_register_ids_strictly_increase(
    r1: RegistryView,
    r2: RegistryView,
    r3: RegistryView,
    img1: ImageView,
    img2: ImageView,
    id1: nat,
    id2: nat,
)
    requires
        register_post(r1, r2, img1, id1),
        register_post(r2, r3, img2, id2),
    ensures
        id2 == id1 + 1,
{
}

/// A registration that returned id `k` is visible to every later
/// registration: the peer snapshot the later call hands out (the sessions
/// live before it) contains a session with id `k` and the first caller's
/// image, as long as `k` has not been unregistered.  For the immediately
/// following registration that is unconditional.
pub proof fn lemma_snapshot_sees_earlier_register(
    r1: RegistryView,
    r2: RegistryView,
    r3: RegistryView,
    img1: ImageView,
    img2: ImageView,
    id1: nat,
    id2: nat,
)
    requires
        register_post(r1, r2, img1, id1),
        register_post(r2, r3, img2, id2),
    ensures
        has_id(r2.sessions, id1),
        exists|k: int|
            0 <= k < r2.sessions.len() && r2.sessions[k].id == id1 && (#[trigger] r2.sessions[k]).image
                == img1,
{
    let k = r1.sessions.len() as int;
    assert(r2.sessions[k].id == id1 && r2.sessions[k].image == img1);
}

/// Unregistering the same id twice in a row: the second call removes
/// nothing and reports no departure, so the "left" event goes out exactly
/// once.
pub proof fn lemma_unregister_idempotent(
    r1: RegistryView,
    r2: RegistryView,
    r3: RegistryView,
    id: nat,
    first_present: bool,
    second_present: bool,
)
    requires
        r1.wf(),
        unregister_post(r1, r2, id, first_present),
        unregister_post(r2, r3, id, second_present),
    ensures
        second_present == false,
        r3 == r2,
{
    if first_present {
        let k = idx_of(r1.sessions, id);
        assert(0 <= k < r1.sessions.len() && r1.sessions[k].id == id);
        let post = r1.sessions.remove(k);
        assert(!has_id(post, id)) by {
            if has_id(post, id) {
                let m = idx_of(post, id);
                assert(0 <= m < post.len() && post[m].id == id);
                if m < k {
                    assert(post[m] == r1.sessions[m]);
                } else {
                    assert(post[m] == r1.sessions[m + 1]);
                }
            }
        }
    } else {
        assert(!has_id(r2.sessions, id));
    }
    assert(r3 =~= r2);
}

/// The model of `register_all`: each image in turn registers a session.
pub open spec fn register_all(pre: RegistryView, imgs: Seq<ImageView>) -> RegistryView
    decreases imgs.len(),
{
    if imgs.len() == 0 {
        pre
    } else {
        register_all(register_step(pre, imgs[0]), imgs.skip(1))
    }
}

proof fn lemma_register_all_general(pre: RegistryView, imgs: Seq<ImageView>)
    ensures
        register_all(pre, imgs).next_id == pre.next_id + imgs.len(),
        register_all(pre, imgs).sessions.len() == pre.sessions.len() + imgs.len(),
        forall|k: int|
            0 <= k < pre.sessions.len() ==> register_all(pre, imgs).sessions[k]
                == #[trigger] pre.sessions[k],
        forall|k: int|
            0 <= k < imgs.len() ==> (#[trigger] register_all(pre, imgs).sessions[pre.sessions.len()
                + k]) == (SessionView {
                id: (pre.next_id + k) as nat,
                position: Point { x: 0, y: 0 },
                image: imgs[k],
            }),
    decreases imgs.len(),
{
    if imgs.len() > 0 {
        let mid = register_step(pre, imgs[0]);
        lemma_register_all_general(mid, imgs.skip(1));
        assert(forall|k: int| 0 <= k < imgs.len() - 1 ==> imgs.skip(1)[k] == #[trigger] imgs[k + 1]);
        assert forall|k: int| 0 <= k < pre.sessions.len() implies register_all(pre, imgs).sessions[k]
            == #[trigger] pre.sessions[k] by {
            assert(register_all(pre, imgs) == register_all(mid, imgs.skip(1)));
            assert(register_all(mid, imgs.skip(1)).sessions[k] == mid.sessions[k]);
        }
        assert forall|k: int| 0 <= k < imgs.len() implies (#[trigger] register_all(
            pre,
            imgs,
        ).sessions[pre.sessions.len() + k]) == (SessionView {
            id: (pre.next_id + k) as nat,
            position: Point { x: 0, y: 0 },
            image: imgs[k],
        }) by {
            assert(register_all(pre, imgs) == register_all(mid, imgs.skip(1)));
            if k == 0 {
                assert(register_all(mid, imgs.skip(1)).sessions[pre.sessions.len() as int]
                    == mid.sessions[pre.sessions.len() as int]);
                assert(mid.sessions[pre.sessions.len() as int] == (SessionView {
                    id: pre.next_id,
                    position: Point { x: 0, y: 0 },
                    image: imgs[0],
                }));
            } else {
                assert((register_all(mid, imgs.skip(1)).sessions[mid.sessions.len() + (k - 1)])
                    == (SessionView {
                    id: (mid.next_id + (k - 1)) as nat,
                    position: Point { x: 0, y: 0 },
                    image: imgs.skip(1)[k - 1],
                }));
                assert(imgs.skip(1)[k - 1] == imgs[k]);
                assert(mid.sessions.len() + (k - 1) == pre.sessions.len() + k);
            }
        }
    }
}

/// Any number of sessions registered on the empty registry get exactly the
/// identities 0, 1, ..., n-1, in registration order, each at the origin
/// with its own image: ids are strictly increasing with no duplicates and
/// no gaps.
pub proof fn lemma_register_all_ids_exact(imgs: Seq<ImageView>)
    ensures
        register_all(empty_registry(), imgs).next_id == imgs.len(),
        register_all(empty_registry(), imgs).sessions.len() == imgs.len(),
        forall|k: int|
            0 <= k < imgs.len() ==> (#[trigger] register_all(empty_registry(), imgs).sessions[k])
                == (SessionView {
                id: k as nat,
                position: Point { x: 0, y: 0 },
                image: imgs[k],
            }),
{
    lemma_register_all_general(empty_registry(), imgs);
    assert forall|k: int| 0 <= k < imgs.len() implies (#[trigger] register_all(
        empty_registry(),
        imgs,
    ).sessions[k]) == (SessionView {
        id: k as nat,
        position: Point { x: 0, y: 0 },
        image: imgs[k],
    }) by {
        assert((register_all(empty_registry(), imgs).sessions[empty_registry().sessions.len() + k])
            == (SessionView {
            id: (empty_registry().next_id + k) as nat,
            position: Point { x: 0, y: 0 },
            image: imgs[k],
        }));
    }
}

} // verus!
