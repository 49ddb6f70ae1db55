//! The wire codec: newline-delimited frames whose payloads are a canonical
//! JSON-shaped encoding of points, sprites and peer snapshots.  Every
//! encoder's output is pinned to a specification-level byte string, and
//! every parser accepts exactly those canonical encodings: each parser's
//! contract states both soundness (a success re-encodes to the consumed
//! bytes) and completeness (whenever the input carries an encoding, the
//! parser returns exactly that value).

use vstd::prelude::*;

use crate::digits::{
    boundary, digits_i32, digits_u64, parse_i32, parse_u64, push_i32, push_u64, COLON, COMMA,
    LBRACE, LBRACK, LC_A, LC_B, LC_C, LC_D, LC_E, LC_G, LC_H, LC_I, LC_L, LC_M, LC_N, LC_O,
    LC_P, LC_R, LC_S, LC_T, LC_W, LC_X, LC_Y, NL, QUOTE, RBRACE, RBRACK, SPACE,
};
use crate::{Color, Image, ImageView, Point, Session, SessionView};

verus! {

// ---------------------------------------------------------------------------
// Sequence splitting helpers

/// Splitting a subrange known to be a concatenation.
pub proof fn lemma_split(s: Seq<u8>, i: int, a: Seq<u8>, b: Seq<u8>)
    requires
        0 <= i,
        i + a.len() + b.len() <= s.len(),
        s.subrange(i, i + a.len() + b.len()) == a + b,
    ensures
        s.subrange(i, i + a.len()) == a,
        s.subrange(i + a.len(), i + a.len() + b.len()) == b,
{
    let w = s.subrange(i, i + a.len() + b.len());
    assert forall|k: int| 0 <= k < a.len() implies s.subrange(i, i + a.len())[k] == a[k] by {
        assert(w[k] == (a + b)[k]);
    }
    assert(s.subrange(i, i + a.len()) =~= a);
    assert forall|k: int| 0 <= k < b.len() implies s.subrange(
        i + a.len(),
        i + a.len() + b.len(),
    )[k] == b[k] by {
        assert(w[a.len() + k] == (a + b)[a.len() + k]);
    }
    assert(s.subrange(i + a.len(), i + a.len() + b.len()) =~= b);
}

/// Joining adjacent subranges.
pub proof fn lemma_join(s: Seq<u8>, i: int, j: int, k: int)
    requires
        0 <= i <= j <= k <= s.len(),
    ensures
        s.subrange(i, k) == s.subrange(i, j) + s.subrange(j, k),
{
    assert(s.subrange(i, k) =~= s.subrange(i, j) + s.subrange(j, k));
}

// ---------------------------------------------------------------------------
// Canonical encodings

/// `{"x":`
pub open spec fn key_x() -> Seq<u8> {
    seq![LBRACE, QUOTE, LC_X, QUOTE, COLON]
}

/// `,"y":`
pub open spec fn key_y() -> Seq<u8> {
    seq![COMMA, QUOTE, LC_Y, QUOTE, COLON]
}

/// A point as `{"x":X,"y":Y}`.
pub open spec fn enc_point(p: Point) -> Seq<u8> {
    key_x() + digits_i32(p.x as int) + key_y() + digits_i32(p.y as int) + seq![RBRACE]
}

/// `{"r":`
pub open spec fn key_r() -> Seq<u8> {
    seq![LBRACE, QUOTE, LC_R, QUOTE, COLON]
}

/// `,"g":`
pub open spec fn key_g() -> Seq<u8> {
    seq![COMMA, QUOTE, LC_G, QUOTE, COLON]
}

/// `,"b":`
pub open spec fn key_b() -> Seq<u8> {
    seq![COMMA, QUOTE, LC_B, QUOTE, COLON]
}

/// A pixel as `{"r":R,"g":G,"b":B}`.
pub open spec fn enc_color(c: Color) -> Seq<u8> {
    key_r() + digits_u64(c.r as nat) + key_g() + digits_u64(c.g as nat) + key_b() + digits_u64(
        c.b as nat,
    ) + seq![RBRACE]
}

// ---------------------------------------------------------------------------
// Single-byte reader

/// Consumes the byte `b` at position `i`, if it is there.
pub fn eat(s: &[u8], i: usize, b: u8) -> (r: Option<usize>)
    ensures
        match r {
            Some(j) => i < s@.len() && s@[i as int] == b && j == i + 1,
            None => !(i < s@.len() && s@[i as int] == b),
        },
{
    if i < s.len() && s[i] == b {
        Some(i + 1)
    } else {
        None
    }
}

// ---------------------------------------------------------------------------
// Point codec

/// Where each part of `enc_point(p)` lies in `s`, given that the encoding
/// spans `i..j`.
pub proof fn lemma_point_layout(s: Seq<u8>, i: int, j: int, p: Point)
    requires
        0 <= i <= j <= s.len(),
        s.subrange(i, j) == enc_point(p),
    ensures
        j == i + 11 + digits_i32(p.x as int).len() + digits_i32(p.y as int).len(),
        s.subrange(i, i + 5) == key_x(),
        s.subrange(i + 5, i + 5 + digits_i32(p.x as int).len()) == digits_i32(p.x as int),
        s.subrange(
            i + 5 + digits_i32(p.x as int).len(),
            i + 10 + digits_i32(p.x as int).len(),
        ) == key_y(),
        s.subrange(
            i + 10 + digits_i32(p.x as int).len(),
            i + 10 + digits_i32(p.x as int).len() + digits_i32(p.y as int).len(),
        ) == digits_i32(p.y as int),
        s[j - 1] == RBRACE,
{
    let dx = digits_i32(p.x as int);
    let dy = digits_i32(p.y as int);
    assert(s.subrange(i, j).len() == j - i);
    assert(j == i + 11 + dx.len() + dy.len());
    lemma_split(s, i, key_x() + dx + key_y() + dy, seq![RBRACE]);
    lemma_split(s, i, key_x() + dx + key_y(), dy);
    lemma_split(s, i, key_x() + dx, key_y());
    lemma_split(s, i, key_x(), dx);
    assert(s[j - 1] == s.subrange(i + (key_x() + dx + key_y() + dy).len(), j)[0]);
}

/// Consumes `{"x":` at `i`.
fn eat_key_x(s: &[u8], i: usize) -> (r: Option<usize>)
    ensures
        r matches Some(j) ==> j == i + 5 && j <= s@.len() && s@.subrange(i as int, j as int)
            == key_x(),
        i + 5 <= s@.len() && s@.subrange(i as int, i + 5) == key_x() ==> r == Some((i + 5)
            as usize),
{
    let ghost sv = s@;
    proof {
        if i + 5 <= sv.len() && sv.subrange(i as int, i + 5) == key_x() {
            assert(forall|k: int|
                0 <= k < 5 ==> sv[i + k] == #[trigger] sv.subrange(i as int, i + 5)[k]);
        }
    }
    let j = eat(s, i, LBRACE)?;
    let j = eat(s, j, QUOTE)?;
    let j = eat(s, j, LC_X)?;
    let j = eat(s, j, QUOTE)?;
    let j = eat(s, j, COLON)?;
    proof {
        assert(sv.subrange(i as int, i + 5) =~= key_x());
    }
    Some(j)
}

/// Consumes `,"y":` at `i`.
fn eat_key_y(s: &[u8], i: usize) -> (r: Option<usize>)
    ensures
        r matches Some(j) ==> j == i + 5 && j <= s@.len() && s@.subrange(i as int, j as int)
            == key_y(),
        i + 5 <= s@.len() && s@.subrange(i as int, i + 5) == key_y() ==> r == Some((i + 5)
            as usize),
{
    let ghost sv = s@;
    proof {
        if i + 5 <= sv.len() && sv.subrange(i as int, i + 5) == key_y() {
            assert(forall|k: int|
                0 <= k < 5 ==> sv[i + k] == #[trigger] sv.subrange(i as int, i + 5)[k]);
        }
    }
    let j = eat(s, i, COMMA)?;
    let j = eat(s, j, QUOTE)?;
    let j = eat(s, j, LC_Y)?;
    let j = eat(s, j, QUOTE)?;
    let j = eat(s, j, COLON)?;
    proof {
        assert(sv.subrange(i as int, i + 5) =~= key_y());
    }
    Some(j)
}

/// Writes `enc_point(p)`.
pub fn push_point(buf: &mut Vec<u8>, p: Point)
    ensures
        final(buf)@ == old(buf)@ + enc_point(p),
{
    buf.push(LBRACE);
    buf.push(QUOTE);
    buf.push(LC_X);
    buf.push(QUOTE);
    buf.push(COLON);
    push_i32(buf, p.x);
    buf.push(COMMA);
    buf.push(QUOTE);
    buf.push(LC_Y);
    buf.push(QUOTE);
    buf.push(COLON);
    push_i32(buf, p.y);
    buf.push(RBRACE);
    proof {
        assert(buf@ =~= old(buf)@ + enc_point(p));
    }
}

/// Reads a point encoded as `{"x":X,"y":Y}` at `i`.
#[verifier::rlimit(50)]
#[verifier::spinoff_prover]
pub fn parse_point(s: &[u8], i: usize) -> (r: Option<(Point, usize)>)
    requires
        i <= s@.len(),
    ensures
        r matches Some(v) ==> i < v.1 <= s@.len() && s@.subrange(i as int, v.1 as int) == enc_point(
            v.0,
        ),
        forall|p: Point, j: usize|
            i < j <= s@.len() && s@.subrange(i as int, j as int) == enc_point(p) ==> r == Some(
                (p, j),
            ),
{
    let ghost sv = s@;
    proof {
        assert forall|p: Point, j: usize|
            #![trigger sv.subrange(i as int, j as int), enc_point(p)]
            i < j <= sv.len() && sv.subrange(i as int, j as int) == enc_point(p) implies i + 5
            <= sv.len() && sv.subrange(i as int, i + 5) == key_x() by {
            lemma_point_layout(sv, i as int, j as int, p);
        }
    }
    let q1 = match eat_key_x(s, i) {
        Some(q) => q,
        None => {
            return None;
        },
    };
    proof {
        assert forall|p: Point, j: usize|
            #![trigger sv.subrange(i as int, j as int), enc_point(p)]
            i < j <= sv.len() && sv.subrange(i as int, j as int) == enc_point(p) implies q1
            + digits_i32(p.x as int).len() <= sv.len() && sv.subrange(
            q1 as int,
            q1 + digits_i32(p.x as int).len(),
        ) == digits_i32(p.x as int) && boundary(sv, q1 + digits_i32(p.x as int).len()) by {
            lemma_point_layout(sv, i as int, j as int, p);
            assert(sv.subrange(
                i + 5 + digits_i32(p.x as int).len(),
                i + 10 + digits_i32(p.x as int).len(),
            )[0] == sv[i + 5 + digits_i32(p.x as int).len()]);
        }
    }
    let (x, q2) = match parse_i32(s, q1) {
        Some(v) => v,
        None => {
            proof {
                assert forall|p: Point, j: usize|
            #![trigger sv.subrange(i as int, j as int), enc_point(p)]
                    i < j <= sv.len() && sv.subrange(i as int, j as int) == enc_point(
                        p,
                    ) implies false by {
                    lemma_point_layout(sv, i as int, j as int, p);
                    let jx = (i + 5 + digits_i32(p.x as int).len()) as usize;
                    assert(sv.subrange(q1 as int, jx as int) == digits_i32(p.x as int));
                    assert(sv.subrange(
                        i + 5 + digits_i32(p.x as int).len(),
                        i + 10 + digits_i32(p.x as int).len(),
                    )[0] == sv[i + 5 + digits_i32(p.x as int).len()]);
                    assert(boundary(sv, jx as int));
                }
            }
            return None;
        },
    };
    proof {
        assert forall|p: Point, j: usize|
            #![trigger sv.subrange(i as int, j as int), enc_point(p)]
            i < j <= sv.len() && sv.subrange(i as int, j as int) == enc_point(p) implies p.x == x
            && q2 == i + 5 + digits_i32(p.x as int).len() by {
            lemma_point_layout(sv, i as int, j as int, p);
            let jx = (i + 5 + digits_i32(p.x as int).len()) as usize;
            assert(sv.subrange(q1 as int, jx as int) == digits_i32(p.x as int));
            assert(sv.subrange(
                i + 5 + digits_i32(p.x as int).len(),
                i + 10 + digits_i32(p.x as int).len(),
            )[0] == sv[i + 5 + digits_i32(p.x as int).len()]);
            assert(boundary(sv, jx as int));
        }
        assert forall|p: Point, j: usize|
            #![trigger sv.subrange(i as int, j as int), enc_point(p)]
            i < j <= sv.len() && sv.subrange(i as int, j as int) == enc_point(p) implies q2 + 5
            <= sv.len() && sv.subrange(q2 as int, q2 + 5) == key_y() by {
            lemma_point_layout(sv, i as int, j as int, p);
        }
    }
    let q3 = match eat_key_y(s, q2) {
        Some(q) => q,
        None => {
            return None;
        },
    };
    proof {
        assert forall|p: Point, j: usize|
            #![trigger sv.subrange(i as int, j as int), enc_point(p)]
            i < j <= sv.len() && sv.subrange(i as int, j as int) == enc_point(p) implies q3
            + digits_i32(p.y as int).len() <= sv.len() && sv.subrange(
            q3 as int,
            q3 + digits_i32(p.y as int).len(),
        ) == digits_i32(p.y as int) && boundary(sv, q3 + digits_i32(p.y as int).len()) by {
            lemma_point_layout(sv, i as int, j as int, p);
            assert(sv[j - 1] == RBRACE);
        }
    }
    let (y, q4) = match parse_i32(s, q3) {
        Some(v) => v,
        None => {
            proof {
                assert forall|p: Point, j: usize|
            #![trigger sv.subrange(i as int, j as int), enc_point(p)]
                    i < j <= sv.len() && sv.subrange(i as int, j as int) == enc_point(
                        p,
                    ) implies false by {
                    lemma_point_layout(sv, i as int, j as int, p);
                    assert(sv[j - 1] == RBRACE);
                    let jy = (q3 + digits_i32(p.y as int).len()) as usize;
                    assert(sv.subrange(q3 as int, jy as int) == digits_i32(p.y as int));
                    assert(boundary(sv, jy as int));
                }
            }
            return None;
        },
    };
    let q5 = match eat(s, q4, RBRACE) {
        Some(q) => q,
        None => {
            proof {
                assert forall|p: Point, j: usize|
            #![trigger sv.subrange(i as int, j as int), enc_point(p)]
                    i < j <= sv.len() && sv.subrange(i as int, j as int) == enc_point(
                        p,
                    ) implies false by {
                    lemma_point_layout(sv, i as int, j as int, p);
                    assert(sv[j - 1] == RBRACE);
                    let jy = (q3 + digits_i32(p.y as int).len()) as usize;
                    assert(sv.subrange(q3 as int, jy as int) == digits_i32(p.y as int));
                    assert(boundary(sv, jy as int));
                    assert(p.y == y && q4 == jy);
                    assert(sv[q4 as int] == RBRACE);
                }
            }
            return None;
        },
    };
    let pt = Point { x, y };
    proof {
        lemma_join(sv, q3 as int, q4 as int, q5 as int);
        lemma_join(sv, q2 as int, q3 as int, q5 as int);
        lemma_join(sv, q1 as int, q2 as int, q5 as int);
        lemma_join(sv, i as int, q1 as int, q5 as int);
        assert(sv.subrange(q4 as int, q5 as int) =~= seq![RBRACE]);
        assert(sv.subrange(i as int, q5 as int) == key_x() + digits_i32(x as int) + (key_y()
            + digits_i32(y as int) + seq![RBRACE]));
        assert(sv.subrange(i as int, q5 as int) =~= enc_point(pt));
        assert forall|p: Point, j: usize|
            #![trigger sv.subrange(i as int, j as int), enc_point(p)]
            i < j <= sv.len() && sv.subrange(i as int, j as int) == enc_point(p) implies Some(
            (pt, q5),
        ) == Some((p, j)) by {
            lemma_point_layout(sv, i as int, j as int, p);
            assert(sv[j - 1] == RBRACE);
            let jy = (q3 + digits_i32(p.y as int).len()) as usize;
            assert(sv.subrange(q3 as int, jy as int) == digits_i32(p.y as int));
            assert(boundary(sv, jy as int));
            assert(p.y == y && q4 == jy);
            assert(j == q5);
        }
    }
    Some((pt, q5))
}


/// Consumes `{"r":` at `i`.
fn eat_key_r(s: &[u8], i: usize) -> (r: Option<usize>)
    ensures
        r matches Some(j) ==> j == i + 5 && j <= s@.len() && s@.subrange(i as int, j as int)
            == key_r(),
        i + 5 <= s@.len() && s@.subrange(i as int, i + 5) == key_r() ==> r == Some((i + 5)
            as usize),
{
    let ghost sv = s@;
    proof {
        if i + 5 <= sv.len() && sv.subrange(i as int, i + 5) == key_r() {
            assert(forall|k: int|
                0 <= k < 5 ==> sv[i + k] == #[trigger] sv.subrange(i as int, i + 5)[k]);
        }
    }
    let j = eat(s, i, LBRACE)?;
    let j = eat(s, j, QUOTE)?;
    let j = eat(s, j, LC_R)?;
    let j = eat(s, j, QUOTE)?;
    let j = eat(s, j, COLON)?;
    proof {
        assert(sv.subrange(i as int, i + 5) =~= key_r());
    }
    Some(j)
}


/// Consumes `,"g":` at `i`.
fn eat_key_g(s: &[u8], i: usize) -> (r: Option<usize>)
    ensures
        r matches Some(j) ==> j == i + 5 && j <= s@.len() && s@.subrange(i as int, j as int)
            == key_g(),
        i + 5 <= s@.len() && s@.subrange(i as int, i + 5) == key_g() ==> r == Some((i + 5)
            as usize),
{
    let ghost sv = s@;
    proof {
        if i + 5 <= sv.len() && sv.subrange(i as int, i + 5) == key_g() {
            assert(forall|k: int|
                0 <= k < 5 ==> sv[i + k] == #[trigger] sv.subrange(i as int, i + 5)[k]);
        }
    }
    let j = eat(s, i, COMMA)?;
    let j = eat(s, j, QUOTE)?;
    let j = eat(s, j, LC_G)?;
    let j = eat(s, j, QUOTE)?;
    let j = eat(s, j, COLON)?;
    proof {
        assert(sv.subrange(i as int, i + 5) =~= key_g());
    }
    Some(j)
}


/// Consumes `,"b":` at `i`.
fn eat_key_b(s: &[u8], i: usize) -> (r: Option<usize>)
    ensures
        r matches Some(j) ==> j == i + 5 && j <= s@.len() && s@.subrange(i as int, j as int)
            == key_b(),
        i + 5 <= s@.len() && s@.subrange(i as int, i + 5) == key_b() ==> r == Some((i + 5)
            as usize),
{
    let ghost sv = s@;
    proof {
        if i + 5 <= sv.len() && sv.subrange(i as int, i + 5) == key_b() {
            assert(forall|k: int|
                0 <= k < 5 ==> sv[i + k] == #[trigger] sv.subrange(i as int, i + 5)[k]);
        }
    }
    let j = eat(s, i, COMMA)?;
    let j = eat(s, j, QUOTE)?;
    let j = eat(s, j, LC_B)?;
    let j = eat(s, j, QUOTE)?;
    let j = eat(s, j, COLON)?;
    proof {
        assert(sv.subrange(i as int, i + 5) =~= key_b());
    }
    Some(j)
}

/// Reads the canonical decimal form of a `u8` at `i`.
fn parse_u8(s: &[u8], i: usize) -> (r: Option<(u8, usize)>)
    requires
        i <= s@.len(),
    ensures
        r matches Some(v) ==> i < v.1 <= s@.len() && s@.subrange(i as int, v.1 as int)
            == digits_u64(v.0 as nat) && boundary(s@, v.1 as int),
        forall|n: u8, j: usize|
            #![trigger s@.subrange(i as int, j as int), digits_u64(n as nat)]
            i < j <= s@.len() && s@.subrange(i as int, j as int) == digits_u64(n as nat)
                && boundary(s@, j as int) ==> r == Some((n, j)),
{
    match parse_u64(s, i) {
        Some((v, j)) => {
            if v <= 255 {
                Some((v as u8, j))
            } else {
                None
            }
        },
        None => None,
    }
}

/// Where each part of `enc_color(c)` lies in `s`, given that the encoding
/// spans `i..j`.
pub proof fn lemma_color_layout(s: Seq<u8>, i: int, j: int, c: Color)
    requires
        0 <= i <= j <= s.len(),
        s.subrange(i, j) == enc_color(c),
    ensures
        j == i + 16 + digits_u64(c.r as nat).len() + digits_u64(c.g as nat).len() + digits_u64(
            c.b as nat,
        ).len(),
        s.subrange(i, i + 5) == key_r(),
        s.subrange(i + 5, i + 5 + digits_u64(c.r as nat).len()) == digits_u64(c.r as nat),
        s.subrange(
            i + 5 + digits_u64(c.r as nat).len(),
            i + 10 + digits_u64(c.r as nat).len(),
        ) == key_g(),
        s.subrange(
            i + 10 + digits_u64(c.r as nat).len(),
            i + 10 + digits_u64(c.r as nat).len() + digits_u64(c.g as nat).len(),
        ) == digits_u64(c.g as nat),
        s.subrange(
            i + 10 + digits_u64(c.r as nat).len() + digits_u64(c.g as nat).len(),
            i + 15 + digits_u64(c.r as nat).len() + digits_u64(c.g as nat).len(),
        ) == key_b(),
        s.subrange(
            i + 15 + digits_u64(c.r as nat).len() + digits_u64(c.g as nat).len(),
            j - 1,
        ) == digits_u64(c.b as nat),
        s[j - 1] == RBRACE,
{
    let dr = digits_u64(c.r as nat);
    let dg = digits_u64(c.g as nat);
    let db = digits_u64(c.b as nat);
    assert(s.subrange(i, j).len() == j - i);
    assert(j == i + 16 + dr.len() + dg.len() + db.len());
    lemma_split(s, i, key_r() + dr + key_g() + dg + key_b() + db, seq![RBRACE]);
    lemma_split(s, i, key_r() + dr + key_g() + dg + key_b(), db);
    lemma_split(s, i, key_r() + dr + key_g() + dg, key_b());
    lemma_split(s, i, key_r() + dr + key_g(), dg);
    lemma_split(s, i, key_r() + dr, key_g());
    lemma_split(s, i, key_r(), dr);
    assert(s[j - 1] == s.subrange(i + (key_r() + dr + key_g() + dg + key_b() + db).len(), j)[0]);
}

/// Writes `enc_color(c)`.
pub fn push_color(buf: &mut Vec<u8>, c: Color)
    ensures
        final(buf)@ == old(buf)@ + enc_color(c),
{
    buf.push(LBRACE);
    buf.push(QUOTE);
    buf.push(LC_R);
    buf.push(QUOTE);
    buf.push(COLON);
    push_u64(buf, c.r as u64);
    buf.push(COMMA);
    buf.push(QUOTE);
    buf.push(LC_G);
    buf.push(QUOTE);
    buf.push(COLON);
    push_u64(buf, c.g as u64);
    buf.push(COMMA);
    buf.push(QUOTE);
    buf.push(LC_B);
    buf.push(QUOTE);
    buf.push(COLON);
    push_u64(buf, c.b as u64);
    buf.push(RBRACE);
    proof {
        assert(buf@ =~= old(buf)@ + enc_color(c));
    }
}

/// Reads a pixel encoded as `{"r":R,"g":G,"b":B}` at `i`.
#[verifier::rlimit(60)]
#[verifier::spinoff_prover]
pub fn parse_color(s: &[u8], i: usize) -> (r: Option<(Color, usize)>)
    requires
        i <= s@.len(),
    ensures
        r matches Some(v) ==> i < v.1 <= s@.len() && s@.subrange(i as int, v.1 as int) == enc_color(
            v.0,
        ),
        forall|c: Color, j: usize|
            #![trigger s@.subrange(i as int, j as int), enc_color(c)]
            i < j <= s@.len() && s@.subrange(i as int, j as int) == enc_color(c) ==> r == Some(
                (c, j),
            ),
{
    let ghost sv = s@;
    proof {
        assert forall|c: Color, j: usize|
            #![trigger sv.subrange(i as int, j as int), enc_color(c)]
            i < j <= sv.len() && sv.subrange(i as int, j as int) == enc_color(c) implies i + 5
            <= sv.len() && sv.subrange(i as int, i + 5) == key_r() by {
            lemma_color_layout(sv, i as int, j as int, c);
        }
    }
    let q1 = match eat_key_r(s, i) {
        Some(q) => q,
        None => {
            return None;
        },
    };
    proof {
        assert forall|c: Color, j: usize|
            #![trigger sv.subrange(i as int, j as int), enc_color(c)]
            i < j <= sv.len() && sv.subrange(i as int, j as int) == enc_color(c) implies q1
            + digits_u64(c.r as nat).len() <= sv.len() && sv.subrange(
            q1 as int,
            q1 + digits_u64(c.r as nat).len(),
        ) == digits_u64(c.r as nat) && boundary(sv, q1 + digits_u64(c.r as nat).len()) by {
            lemma_color_layout(sv, i as int, j as int, c);
            assert(sv.subrange(
                i + 5 + digits_u64(c.r as nat).len(),
                i + 10 + digits_u64(c.r as nat).len(),
            )[0] == sv[i + 5 + digits_u64(c.r as nat).len()]);
        }
    }
    let rr = parse_u8(s, q1);
    let (cr, q2) = match rr {
        Some(v) => v,
        None => {
            proof {
                assert forall|c: Color, j: usize|
                    #![trigger sv.subrange(i as int, j as int), enc_color(c)]
                    i < j <= sv.len() && sv.subrange(i as int, j as int) == enc_color(
                        c,
                    ) implies false by {
                    lemma_color_layout(sv, i as int, j as int, c);
                    let jr = (q1 + digits_u64(c.r as nat).len()) as usize;
                    assert(sv.subrange(q1 as int, jr as int) == digits_u64(c.r as nat));
                    assert(boundary(sv, jr as int));
                    assert(rr == Some((c.r, jr)));
                }
            }
            return None;
        },
    };
    proof {
        assert forall|c: Color, j: usize|
            #![trigger sv.subrange(i as int, j as int), enc_color(c)]
            i < j <= sv.len() && sv.subrange(i as int, j as int) == enc_color(c) implies c.r == cr
            && q2 == i + 5 + digits_u64(c.r as nat).len() && q2 + 5 <= sv.len() && sv.subrange(
            q2 as int,
            q2 + 5,
        ) == key_g() by {
            lemma_color_layout(sv, i as int, j as int, c);
            let jr = (q1 + digits_u64(c.r as nat).len()) as usize;
            assert(sv.subrange(q1 as int, jr as int) == digits_u64(c.r as nat));
            assert(sv.subrange(
                i + 5 + digits_u64(c.r as nat).len(),
                i + 10 + digits_u64(c.r as nat).len(),
            )[0] == sv[i + 5 + digits_u64(c.r as nat).len()]);
            assert(boundary(sv, jr as int));
            assert(rr == Some((c.r, jr)));
        }
    }
    let q3 = match eat_key_g(s, q2) {
        Some(q) => q,
        None => {
            return None;
        },
    };
    proof {
        assert forall|c: Color, j: usize|
            #![trigger sv.subrange(i as int, j as int), enc_color(c)]
            i < j <= sv.len() && sv.subrange(i as int, j as int) == enc_color(c) implies q3
            + digits_u64(c.g as nat).len() <= sv.len() && sv.subrange(
            q3 as int,
            q3 + digits_u64(c.g as nat).len(),
        ) == digits_u64(c.g as nat) && boundary(sv, q3 + digits_u64(c.g as nat).len()) by {
            lemma_color_layout(sv, i as int, j as int, c);
            assert(sv.subrange(
                i + 10 + digits_u64(c.r as nat).len() + digits_u64(c.g as nat).len(),
                i + 15 + digits_u64(c.r as nat).len() + digits_u64(c.g as nat).len(),
            )[0] == sv[i + 10 + digits_u64(c.r as nat).len() + digits_u64(c.g as nat).len()]);
        }
    }
    let rg = parse_u8(s, q3);
    let (cg, q4) = match rg {
        Some(v) => v,
        None => {
            proof {
                assert forall|c: Color, j: usize|
                    #![trigger sv.subrange(i as int, j as int), enc_color(c)]
                    i < j <= sv.len() && sv.subrange(i as int, j as int) == enc_color(
                        c,
                    ) implies false by {
                    lemma_color_layout(sv, i as int, j as int, c);
                    let jg = (q3 + digits_u64(c.g as nat).len()) as usize;
                    assert(sv.subrange(q3 as int, jg as int) == digits_u64(c.g as nat));
                    assert(boundary(sv, jg as int));
                    assert(rg == Some((c.g, jg)));
                }
            }
            return None;
        },
    };
    proof {
        assert forall|c: Color, j: usize|
            #![trigger sv.subrange(i as int, j as int), enc_color(c)]
            i < j <= sv.len() && sv.subrange(i as int, j as int) == enc_color(c) implies c.g == cg
            && q4 == i + 10 + digits_u64(c.r as nat).len() + digits_u64(c.g as nat).len() && q4 + 5
            <= sv.len() && sv.subrange(q4 as int, q4 + 5) == key_b() by {
            lemma_color_layout(sv, i as int, j as int, c);
            let jg = (q3 + digits_u64(c.g as nat).len()) as usize;
            assert(sv.subrange(q3 as int, jg as int) == digits_u64(c.g as nat));
            assert(sv.subrange(
                i + 10 + digits_u64(c.r as nat).len() + digits_u64(c.g as nat).len(),
                i + 15 + digits_u64(c.r as nat).len() + digits_u64(c.g as nat).len(),
            )[0] == sv[i + 10 + digits_u64(c.r as nat).len() + digits_u64(c.g as nat).len()]);
            assert(boundary(sv, jg as int));
            assert(rg == Some((c.g, jg)));
        }
    }
    let q5 = match eat_key_b(s, q4) {
        Some(q) => q,
        None => {
            return None;
        },
    };
    proof {
        assert forall|c: Color, j: usize|
            #![trigger sv.subrange(i as int, j as int), enc_color(c)]
            i < j <= sv.len() && sv.subrange(i as int, j as int) == enc_color(c) implies q5
            + digits_u64(c.b as nat).len() <= sv.len() && sv.subrange(
            q5 as int,
            q5 + digits_u64(c.b as nat).len(),
        ) == digits_u64(c.b as nat) && boundary(sv, q5 + digits_u64(c.b as nat).len()) by {
            lemma_color_layout(sv, i as int, j as int, c);
            assert(sv[j - 1] == RBRACE);
        }
    }
    let rb = parse_u8(s, q5);
    let (cb, q6) = match rb {
        Some(v) => v,
        None => {
            proof {
                assert forall|c: Color, j: usize|
                    #![trigger sv.subrange(i as int, j as int), enc_color(c)]
                    i < j <= sv.len() && sv.subrange(i as int, j as int) == enc_color(
                        c,
                    ) implies false by {
                    lemma_color_layout(sv, i as int, j as int, c);
                    assert(sv[j - 1] == RBRACE);
                    let jb = (q5 + digits_u64(c.b as nat).len()) as usize;
                    assert(sv.subrange(q5 as int, jb as int) == digits_u64(c.b as nat));
                    assert(boundary(sv, jb as int));
                    assert(rb == Some((c.b, jb)));
                }
            }
            return None;
        },
    };
    let q7 = match eat(s, q6, RBRACE) {
        Some(q) => q,
        None => {
            proof {
                assert forall|c: Color, j: usize|
                    #![trigger sv.subrange(i as int, j as int), enc_color(c)]
                    i < j <= sv.len() && sv.subrange(i as int, j as int) == enc_color(
                        c,
                    ) implies false by {
                    lemma_color_layout(sv, i as int, j as int, c);
                    assert(sv[j - 1] == RBRACE);
                    let jb = (q5 + digits_u64(c.b as nat).len()) as usize;
                    assert(sv.subrange(q5 as int, jb as int) == digits_u64(c.b as nat));
                    assert(boundary(sv, jb as int));
                    assert(rb == Some((c.b, jb)));
                    assert(c.b == cb && q6 == jb);
                    assert(sv[q6 as int] == RBRACE);
                }
            }
            return None;
        },
    };
    let c0 = Color { r: cr, g: cg, b: cb };
    proof {
        lemma_join(sv, q5 as int, q6 as int, q7 as int);
        lemma_join(sv, q4 as int, q5 as int, q7 as int);
        lemma_join(sv, q3 as int, q4 as int, q7 as int);
        lemma_join(sv, q2 as int, q3 as int, q7 as int);
        lemma_join(sv, q1 as int, q2 as int, q7 as int);
        lemma_join(sv, i as int, q1 as int, q7 as int);
        assert(sv.subrange(q6 as int, q7 as int) =~= seq![RBRACE]);
        assert(sv.subrange(i as int, q7 as int) == key_r() + digits_u64(cr as nat) + (key_g()
            + digits_u64(cg as nat) + (key_b() + digits_u64(cb as nat) + seq![RBRACE])));
        assert(sv.subrange(i as int, q7 as int) =~= enc_color(c0));
        assert forall|c: Color, j: usize|
            #![trigger sv.subrange(i as int, j as int), enc_color(c)]
            i < j <= sv.len() && sv.subrange(i as int, j as int) == enc_color(c) implies Some(
            (c0, q7),
        ) == Some((c, j)) by {
            lemma_color_layout(sv, i as int, j as int, c);
            assert(sv[j - 1] == RBRACE);
            let jb = (q5 + digits_u64(c.b as nat).len()) as usize;
            assert(sv.subrange(q5 as int, jb as int) == digits_u64(c.b as nat));
            assert(boundary(sv, jb as int));
            assert(rb == Some((c.b, jb)));
            assert(c.b == cb && q6 == jb);
            assert(j == q7);
        }
    }
    Some((c0, q7))
}

// ---------------------------------------------------------------------------
// Pixel array codec

/// The comma-led tail of a pixel array: `,C1,C2,...` for each listed pixel.
pub open spec fn enc_color_list_rest(cs: Seq<Color>) -> Seq<u8>
    decreases cs.len(),
{
    if cs.len() == 0 {
        Seq::empty()
    } else {
        seq![COMMA] + enc_color(cs[0]) + enc_color_list_rest(cs.skip(1))
    }
}

/// A pixel array without its closing bracket: `[C0,C1,...`.
pub open spec fn enc_colors_open(cs: Seq<Color>) -> Seq<u8> {
    if cs.len() == 0 {
        seq![LBRACK]
    } else {
        seq![LBRACK] + enc_color(cs[0]) + enc_color_list_rest(cs.skip(1))
    }
}

/// A pixel array as `[{"r":..},...]`.
pub open spec fn enc_colors(cs: Seq<Color>) -> Seq<u8> {
    enc_colors_open(cs) + seq![RBRACK]
}

proof fn lemma_color_rest_push(cs: Seq<Color>, c: Color)
    ensures
        enc_color_list_rest(cs.push(c)) == enc_color_list_rest(cs) + (seq![COMMA] + enc_color(c)),
    decreases cs.len(),
{
    if cs.len() == 0 {
        assert(cs.push(c)[0] == c);
        assert(cs.push(c).skip(1) =~= Seq::<Color>::empty());
        assert(enc_color_list_rest(cs.push(c)) == seq![COMMA] + enc_color(c)
            + enc_color_list_rest(cs.push(c).skip(1)));
        assert(enc_color_list_rest(cs.push(c).skip(1)) == Seq::<u8>::empty());
        assert(enc_color_list_rest(cs) == Seq::<u8>::empty());
        assert(enc_color_list_rest(cs.push(c)) =~= enc_color_list_rest(cs) + (seq![COMMA]
            + enc_color(c)));
    } else {
        assert(cs.push(c)[0] == cs[0]);
        assert(cs.push(c).skip(1) =~= cs.skip(1).push(c));
        lemma_color_rest_push(cs.skip(1), c);
        assert(enc_color_list_rest(cs.push(c)) == seq![COMMA] + enc_color(cs[0])
            + enc_color_list_rest(cs.skip(1).push(c)));
        assert(seq![COMMA] + enc_color(cs[0]) + (enc_color_list_rest(cs.skip(1)) + (seq![COMMA]
            + enc_color(c))) =~= (seq![COMMA] + enc_color(cs[0]) + enc_color_list_rest(
            cs.skip(1),
        )) + (seq![COMMA] + enc_color(c)));
    }
}

proof fn lemma_colors_open_push(cs: Seq<Color>, c: Color)
    ensures
        cs.len() == 0 ==> enc_colors_open(cs.push(c)) == enc_colors_open(cs) + enc_color(c),
        cs.len() > 0 ==> enc_colors_open(cs.push(c)) == enc_colors_open(cs) + (seq![COMMA]
            + enc_color(c)),
{
    if cs.len() == 0 {
        assert(cs.push(c)[0] == c);
        assert(cs.push(c).skip(1) =~= Seq::<Color>::empty());
        assert(enc_colors_open(cs.push(c)) =~= enc_colors_open(cs) + enc_color(c));
    } else {
        assert(cs.push(c)[0] == cs[0]);
        assert(cs.push(c).skip(1) =~= cs.skip(1).push(c));
        lemma_color_rest_push(cs.skip(1), c);
        assert(enc_colors_open(cs.push(c)) =~= enc_colors_open(cs) + (seq![COMMA] + enc_color(c)));
    }
}

/// Writes `enc_colors(cs@)`.
pub fn push_colors(buf: &mut Vec<u8>, cs: &Vec<Color>)
    ensures
        final(buf)@ == old(buf)@ + enc_colors(cs@),
{
    buf.push(LBRACK);
    proof {
        assert(enc_colors_open(cs@.take(0)) =~= seq![LBRACK]);
        assert(buf@ =~= old(buf)@ + enc_colors_open(cs@.take(0)));
    }
    let mut k: usize = 0;
    while k < cs.len()
        invariant
            k <= cs@.len(),
            buf@ == old(buf)@ + enc_colors_open(cs@.take(k as int)),
        decreases cs@.len() - k,
    {
        if k > 0 {
            buf.push(COMMA);
        }
        push_color(buf, cs[k]);
        proof {
            lemma_colors_open_push(cs@.take(k as int), cs@[k as int]);
            assert(cs@.take(k + 1) =~= cs@.take(k as int).push(cs@[k as int]));
            assert(buf@ =~= old(buf)@ + enc_colors_open(cs@.take(k + 1)));
        }
        k = k + 1;
    }
    buf.push(RBRACK);
    proof {
        assert(cs@.take(cs@.len() as int) =~= cs@);
        assert(buf@ =~= old(buf)@ + enc_colors(cs@));
    }
}

/// Reads a pixel array encoded as `[{"r":..},...]` at `i`.
#[verifier::rlimit(100)]
#[verifier::spinoff_prover]
pub fn parse_colors(s: &[u8], i: usize) -> (r: Option<(Vec<Color>, usize)>)
    requires
        i <= s@.len(),
    ensures
        r matches Some(v) ==> i < v.1 <= s@.len() && s@.subrange(i as int, v.1 as int)
            == enc_colors(v.0@),
        forall|cs: Seq<Color>, j: usize|
            #![trigger s@.subrange(i as int, j as int), enc_colors(cs)]
            i < j <= s@.len() && s@.subrange(i as int, j as int) == enc_colors(cs) ==> (
            r matches Some(v) && v.0@ == cs && v.1 == j),
{
    let ghost sv = s@;
    proof {
        assert forall|cs: Seq<Color>, j: usize|
            #![trigger sv.subrange(i as int, j as int), enc_colors(cs)]
            i < j <= sv.len() && sv.subrange(i as int, j as int) == enc_colors(cs) implies i
            < sv.len() && sv[i as int] == LBRACK && j == i + enc_colors(cs).len() by {
            assert(sv.subrange(i as int, j as int).len() == j - i);
            assert(sv.subrange(i as int, j as int)[0] == sv[i as int]);
            assert(enc_colors(cs)[0] == enc_colors_open(cs)[0]);
        }
    }
    let q0 = match eat(s, i, LBRACK) {
        Some(q) => q,
        None => {
            return None;
        },
    };
    let mut out: Vec<Color> = Vec::new();
    let mut q: usize = q0;
    proof {
        // before any element: the remainder of a matching encoding is the
        // comma-led tail plus the closing bracket
        assert forall|cs: Seq<Color>, j: usize|
            #![trigger sv.subrange(i as int, j as int), enc_colors(cs)]
            i < j <= sv.len() && sv.subrange(i as int, j as int) == enc_colors(cs) implies
            out@.len() <= cs.len() && cs.take(out@.len() as int) == out@ && (cs.len() == 0
            ==> sv.subrange(q as int, j as int) == seq![RBRACK]) && (cs.len() > 0 ==> sv.subrange(
            q as int,
            j as int,
        ) == enc_color(cs[0]) + enc_color_list_rest(cs.skip(1)) + seq![RBRACK]) by {
            assert(cs.take(0) =~= out@);
            if cs.len() == 0 {
                lemma_split(sv, i as int, seq![LBRACK], seq![RBRACK]);
            } else {
                lemma_split(
                    sv,
                    i as int,
                    seq![LBRACK] + enc_color(cs[0]) + enc_color_list_rest(cs.skip(1)),
                    seq![RBRACK],
                );
                lemma_join(sv, i as int, q0 as int, j - 1);
                assert(seq![LBRACK] + (enc_color(cs[0]) + enc_color_list_rest(cs.skip(1)))
                    =~= seq![LBRACK] + enc_color(cs[0]) + enc_color_list_rest(cs.skip(1)));
                lemma_split(
                    sv,
                    i as int,
                    seq![LBRACK],
                    enc_color(cs[0]) + enc_color_list_rest(cs.skip(1)),
                );
                lemma_join(sv, q0 as int, j - 1, j as int);
            }
        }
    }
    // an empty array closes at once
    if q < s.len() && s[q] == RBRACK {
        proof {
            assert(sv.subrange(i as int, q + 1) =~= enc_colors(out@));
            assert forall|cs: Seq<Color>, j: usize|
                #![trigger sv.subrange(i as int, j as int), enc_colors(cs)]
                i < j <= sv.len() && sv.subrange(i as int, j as int) == enc_colors(cs) implies
                out@ == cs && q + 1 == j by {
                if cs.len() > 0 {
                    assert(sv.subrange(q as int, j as int)[0] == sv[q as int]);
                    assert((enc_color(cs[0]) + enc_color_list_rest(cs.skip(1))
                        + seq![RBRACK])[0] == enc_color(cs[0])[0]);
                    assert(enc_color(cs[0])[0] == LBRACE);
                }
                assert(cs.take(0) =~= cs);
                assert(sv.subrange(q as int, j as int).len() == 1);
            }
        }
        return Some((out, q + 1));
    }
    // otherwise at least one pixel must follow
    proof {
        assert forall|cs: Seq<Color>, j: usize|
            #![trigger sv.subrange(i as int, j as int), enc_colors(cs)]
            i < j <= sv.len() && sv.subrange(i as int, j as int) == enc_colors(cs) implies cs.len()
            > 0 && q + enc_color(cs[0]).len() <= sv.len() && sv.subrange(
            q as int,
            q + enc_color(cs[0]).len(),
        ) == enc_color(cs[0]) by {
            if cs.len() == 0 {
                assert(sv.subrange(q as int, j as int)[0] == sv[q as int]);
            } else {
                lemma_split(
                    sv,
                    q as int,
                    enc_color(cs[0]) + enc_color_list_rest(cs.skip(1)),
                    seq![RBRACK],
                );
                lemma_split(sv, q as int, enc_color(cs[0]), enc_color_list_rest(cs.skip(1)));
            }
        }
    }
    let rc = parse_color(s, q);
    let (c0, q1) = match rc {
        Some(v) => v,
        None => {
            proof {
                assert forall|cs: Seq<Color>, j: usize|
                    #![trigger sv.subrange(i as int, j as int), enc_colors(cs)]
                    i < j <= sv.len() && sv.subrange(i as int, j as int) == enc_colors(
                        cs,
                    ) implies false by {
                    let jc = (q + enc_color(cs[0]).len()) as usize;
                    assert(sv.subrange(q as int, jc as int) == enc_color(cs[0]));
                    assert(rc == Some((cs[0], jc)));
                }
            }
            return None;
        },
    };
    out.push(c0);
    proof {
        lemma_join(sv, i as int, q as int, q1 as int);
        assert(out@ =~= seq![c0]);
        assert(enc_colors_open(out@) =~= seq![LBRACK] + enc_color(c0));
        assert(sv.subrange(i as int, q1 as int) == enc_colors_open(out@));
        assert forall|cs: Seq<Color>, j: usize|
            #![trigger sv.subrange(i as int, j as int), enc_colors(cs)]
            i < j <= sv.len() && sv.subrange(i as int, j as int) == enc_colors(cs) implies
            out@.len() <= cs.len() && (q1 as int) < j as int && cs.take(out@.len() as int)
            == out@ && sv.subrange(
            q1 as int,
            j as int,
        ) == enc_color_list_rest(cs.skip(out@.len() as int)) + seq![RBRACK] by {
            let jc = (q + enc_color(cs[0]).len()) as usize;
            assert(sv.subrange(q as int, jc as int) == enc_color(cs[0]));
            assert(rc == Some((cs[0], jc)));
            assert(c0 == cs[0] && q1 == jc);
            assert(cs.take(1) =~= out@);
            lemma_split(
                sv,
                q as int,
                enc_color(cs[0]) + enc_color_list_rest(cs.skip(1)),
                seq![RBRACK],
            );
            lemma_split(sv, q as int, enc_color(cs[0]), enc_color_list_rest(cs.skip(1)));
            lemma_join(sv, q1 as int, j - 1, j as int);
        }
    }
    q = q1;
    loop
        invariant
            i < q0 <= q <= sv.len(),
            sv == s@,
            out@.len() >= 1,
            sv.subrange(i as int, q as int) == enc_colors_open(out@),
            forall|cs: Seq<Color>, j: usize|
                #![trigger sv.subrange(i as int, j as int), enc_colors(cs)]
                i < j <= sv.len() && sv.subrange(i as int, j as int) == enc_colors(cs) ==> (
                out@.len() <= cs.len() && (q as int) < j as int
                    && cs.take(out@.len() as int) == out@ && sv.subrange(q as int, j as int)
                    == enc_color_list_rest(cs.skip(out@.len() as int)) + seq![RBRACK]),
        decreases sv.len() - q,
    {
        let ghost k = out@.len() as int;
        if q < s.len() && s[q] == RBRACK {
            proof {
                lemma_join(sv, i as int, q as int, q + 1);
                assert(sv.subrange(q as int, q + 1) =~= seq![RBRACK]);
                assert(sv.subrange(i as int, q + 1) == enc_colors(out@));
                assert forall|cs: Seq<Color>, j: usize|
                    #![trigger sv.subrange(i as int, j as int), enc_colors(cs)]
                    i < j <= sv.len() && sv.subrange(i as int, j as int) == enc_colors(
                        cs,
                    ) implies out@ == cs && q + 1 == j by {
                    assert(sv.subrange(q as int, j as int).len() == j - q);
                    if out@.len() < cs.len() {
                        assert(sv.subrange(q as int, j as int)[0] == sv[q as int]);
                        assert((enc_color_list_rest(cs.skip(k)) + seq![RBRACK])[0]
                            == enc_color_list_rest(cs.skip(k))[0]);
                        assert(enc_color_list_rest(cs.skip(k))[0] == COMMA);
                    }
                    assert(cs.take(k) =~= cs);
                    assert(sv.subrange(q as int, j as int).len() == 1);
                }
            }
            return Some((out, q + 1));
        }
        proof {
            assert forall|cs: Seq<Color>, j: usize|
                #![trigger sv.subrange(i as int, j as int), enc_colors(cs)]
                i < j <= sv.len() && sv.subrange(i as int, j as int) == enc_colors(cs) implies
                out@.len() < cs.len() && q < sv.len() && sv[q as int] == COMMA && q + 1
                + enc_color(cs[k]).len() <= sv.len() && sv.subrange(
                q + 1,
                q + 1 + enc_color(cs[k]).len(),
            ) == enc_color(cs[k]) by {
                assert(sv.subrange(q as int, j as int).len() == j - q);
                if out@.len() == cs.len() {
                    assert(sv.subrange(q as int, j as int) =~= seq![RBRACK]);
                    assert(sv.subrange(q as int, j as int)[0] == sv[q as int]);
                } else {
                    assert(cs.skip(k)[0] == cs[k]);
                    assert(cs.skip(k).skip(1) =~= cs.skip(k + 1));
                    assert(enc_color_list_rest(cs.skip(k)) == seq![COMMA] + enc_color(cs[k])
                        + enc_color_list_rest(cs.skip(k + 1)));
                    lemma_split(
                        sv,
                        q as int,
                        seq![COMMA] + enc_color(cs[k]) + enc_color_list_rest(cs.skip(k + 1)),
                        seq![RBRACK],
                    );
                    lemma_split(
                        sv,
                        q as int,
                        seq![COMMA] + enc_color(cs[k]),
                        enc_color_list_rest(cs.skip(k + 1)),
                    );
                    lemma_split(sv, q as int, seq![COMMA], enc_color(cs[k]));
                    assert(sv.subrange(q as int, q + 1)[0] == sv[q as int]);
                }
            }
        }
        let q2 = match eat(s, q, COMMA) {
            Some(v) => v,
            None => {
                return None;
            },
        };
        let rc2 = parse_color(s, q2);
        let (c, q3) = match rc2 {
            Some(v) => v,
            None => {
                proof {
                    assert forall|cs: Seq<Color>, j: usize|
                        #![trigger sv.subrange(i as int, j as int), enc_colors(cs)]
                        i < j <= sv.len() && sv.subrange(i as int, j as int) == enc_colors(
                            cs,
                        ) implies false by {
                        let jc = (q2 + enc_color(cs[k]).len()) as usize;
                        assert(sv.subrange(q2 as int, jc as int) == enc_color(cs[k]));
                        assert(rc2 == Some((cs[k], jc)));
                    }
                }
                return None;
            },
        };
        let ghost prev = out@;
        out.push(c);
        proof {
            lemma_join(sv, i as int, q as int, q2 as int);
            lemma_join(sv, i as int, q2 as int, q3 as int);
            assert(sv.subrange(q as int, q2 as int) =~= seq![COMMA]);
            lemma_colors_open_push(prev, c);
            assert(out@ == prev.push(c));
            assert(sv.subrange(i as int, q2 as int) == enc_colors_open(prev) + seq![COMMA]);
            assert((enc_colors_open(prev) + seq![COMMA]) + enc_color(c) =~= enc_colors_open(prev)
                + (seq![COMMA] + enc_color(c)));
            assert(sv.subrange(i as int, q3 as int) == enc_colors_open(out@));
            assert forall|cs: Seq<Color>, j: usize|
                #![trigger sv.subrange(i as int, j as int), enc_colors(cs)]
                i < j <= sv.len() && sv.subrange(i as int, j as int) == enc_colors(cs) implies
                out@.len() <= cs.len() && (q3 as int) < j as int
                    && cs.take(out@.len() as int) == out@ && sv.subrange(q3 as int, j as int)
                    == enc_color_list_rest(cs.skip(out@.len() as int)) + seq![RBRACK] by {
                assert(sv.subrange(q as int, j as int).len() == j - q);
                let jc = (q2 + enc_color(cs[k]).len()) as usize;
                assert(sv.subrange(q2 as int, jc as int) == enc_color(cs[k]));
                assert(rc2 == Some((cs[k], jc)));
                assert(c == cs[k] && q3 == jc);
                assert(cs.take(k + 1) =~= cs.take(k).push(cs[k]));
                assert(cs.skip(k)[0] == cs[k]);
                assert(cs.skip(k).skip(1) =~= cs.skip(k + 1));
                assert(enc_color_list_rest(cs.skip(k)) == seq![COMMA] + enc_color(cs[k])
                    + enc_color_list_rest(cs.skip(k + 1)));
                lemma_split(
                    sv,
                    q as int,
                    seq![COMMA] + enc_color(cs[k]) + enc_color_list_rest(cs.skip(k + 1)),
                    seq![RBRACK],
                );
                lemma_split(
                    sv,
                    q as int,
                    seq![COMMA] + enc_color(cs[k]),
                    enc_color_list_rest(cs.skip(k + 1)),
                );
                lemma_join(sv, q3 as int, j - 1, j as int);
            }
        }
        q = q3;
    }
}


/// `{"width":`
pub open spec fn key_width() -> Seq<u8> {
    seq![LBRACE, QUOTE, LC_W, LC_I, LC_D, LC_T, LC_H, QUOTE, COLON]
}

/// Consumes `{"width":` at `i`.
fn eat_key_width(s: &[u8], i: usize) -> (r: Option<usize>)
    ensures
        r matches Some(j) ==> j == i + 9 && j <= s@.len() && s@.subrange(i as int, j as int)
            == key_width(),
        i + 9 <= s@.len() && s@.subrange(i as int, i + 9) == key_width() ==> r == Some((i + 9)
            as usize),
{
    let ghost sv = s@;
    proof {
        if i + 9 <= sv.len() && sv.subrange(i as int, i + 9) == key_width() {
            assert(forall|k: int|
                0 <= k < 9 ==> sv[i + k] == #[trigger] sv.subrange(i as int, i + 9)[k]);
        }
    }
    let j = eat(s, i, LBRACE)?;
    let j = eat(s, j, QUOTE)?;
    let j = eat(s, j, LC_W)?;
    let j = eat(s, j, LC_I)?;
    let j = eat(s, j, LC_D)?;
    let j = eat(s, j, LC_T)?;
    let j = eat(s, j, LC_H)?;
    let j = eat(s, j, QUOTE)?;
    let j = eat(s, j, COLON)?;
    proof {
        assert(sv.subrange(i as int, i + 9) =~= key_width());
    }
    Some(j)
}


/// `,"height":`
pub open spec fn key_height() -> Seq<u8> {
    seq![COMMA, QUOTE, LC_H, LC_E, LC_I, LC_G, LC_H, LC_T, QUOTE, COLON]
}

/// Consumes `,"height":` at `i`.
fn eat_key_height(s: &[u8], i: usize) -> (r: Option<usize>)
    ensures
        r matches Some(j) ==> j == i + 10 && j <= s@.len() && s@.subrange(i as int, j as int)
            == key_height(),
        i + 10 <= s@.len() && s@.subrange(i as int, i + 10) == key_height() ==> r == Some((i + 10)
            as usize),
{
    let ghost sv = s@;
    proof {
        if i + 10 <= sv.len() && sv.subrange(i as int, i + 10) == key_height() {
            assert(forall|k: int|
                0 <= k < 10 ==> sv[i + k] == #[trigger] sv.subrange(i as int, i + 10)[k]);
        }
    }
    let j = eat(s, i, COMMA)?;
    let j = eat(s, j, QUOTE)?;
    let j = eat(s, j, LC_H)?;
    let j = eat(s, j, LC_E)?;
    let j = eat(s, j, LC_I)?;
    let j = eat(s, j, LC_G)?;
    let j = eat(s, j, LC_H)?;
    let j = eat(s, j, LC_T)?;
    let j = eat(s, j, QUOTE)?;
    let j = eat(s, j, COLON)?;
    proof {
        assert(sv.subrange(i as int, i + 10) =~= key_height());
    }
    Some(j)
}


/// `,"pixels":`
pub open spec fn key_pixels() -> Seq<u8> {
    seq![COMMA, QUOTE, LC_P, LC_I, LC_X, LC_E, LC_L, LC_S, QUOTE, COLON]
}

/// Consumes `,"pixels":` at `i`.
fn eat_key_pixels(s: &[u8], i: usize) -> (r: Option<usize>)
    ensures
        r matches Some(j) ==> j == i + 10 && j <= s@.len() && s@.subrange(i as int, j as int)
            == key_pixels(),
        i + 10 <= s@.len() && s@.subrange(i as int, i + 10) == key_pixels() ==> r == Some((i + 10)
            as usize),
{
    let ghost sv = s@;
    proof {
        if i + 10 <= sv.len() && sv.subrange(i as int, i + 10) == key_pixels() {
            assert(forall|k: int|
                0 <= k < 10 ==> sv[i + k] == #[trigger] sv.subrange(i as int, i + 10)[k]);
        }
    }
    let j = eat(s, i, COMMA)?;
    let j = eat(s, j, QUOTE)?;
    let j = eat(s, j, LC_P)?;
    let j = eat(s, j, LC_I)?;
    let j = eat(s, j, LC_X)?;
    let j = eat(s, j, LC_E)?;
    let j = eat(s, j, LC_L)?;
    let j = eat(s, j, LC_S)?;
    let j = eat(s, j, QUOTE)?;
    let j = eat(s, j, COLON)?;
    proof {
        assert(sv.subrange(i as int, i + 10) =~= key_pixels());
    }
    Some(j)
}

/// Reads the canonical decimal form of a `usize` at `i`.
fn parse_usize(s: &[u8], i: usize) -> (r: Option<(usize, usize)>)
    requires
        i <= s@.len(),
    ensures
        r matches Some(v) ==> i < v.1 <= s@.len() && s@.subrange(i as int, v.1 as int)
            == digits_u64(v.0 as nat) && boundary(s@, v.1 as int),
        forall|n: usize, j: usize|
            #![trigger s@.subrange(i as int, j as int), digits_u64(n as nat)]
            i < j <= s@.len() && s@.subrange(i as int, j as int) == digits_u64(n as nat)
                && boundary(s@, j as int) ==> r == Some((n, j)),
{
    match parse_u64(s, i) {
        Some((v, j)) => {
            if v <= (usize::MAX as u64) {
                Some((v as usize, j))
            } else {
                None
            }
        },
        None => None,
    }
}

/// `{"width":W,"height":H,"pixels":` — the sprite object up to its pixel
/// array.
pub open spec fn enc_image_head(wv: nat, hv: nat) -> Seq<u8> {
    key_width() + digits_u64(wv) + key_height() + digits_u64(hv) + key_pixels()
}

/// A sprite as `{"width":W,"height":H,"pixels":[...]}`.
pub open spec fn enc_image(iv: ImageView) -> Seq<u8> {
    enc_image_head(iv.width, iv.height) + enc_colors(iv.pixels) + seq![RBRACE]
}

/// Where each part of `enc_image_head(wv, hv)` lies in `s`, given that the
/// encoding spans `i..j`.
pub proof fn lemma_image_head_layout(s: Seq<u8>, i: int, j: int, wv: nat, hv: nat)
    requires
        0 <= i <= j <= s.len(),
        s.subrange(i, j) == enc_image_head(wv, hv),
    ensures
        j == i + 29 + digits_u64(wv).len() + digits_u64(hv).len(),
        s.subrange(i, i + 9) == key_width(),
        s.subrange(i + 9, i + 9 + digits_u64(wv).len()) == digits_u64(wv),
        s.subrange(
            i + 9 + digits_u64(wv).len(),
            i + 19 + digits_u64(wv).len(),
        ) == key_height(),
        s.subrange(
            i + 19 + digits_u64(wv).len(),
            i + 19 + digits_u64(wv).len() + digits_u64(hv).len(),
        ) == digits_u64(hv),
        s.subrange(i + 19 + digits_u64(wv).len() + digits_u64(hv).len(), j) == key_pixels(),
{
    let dw = digits_u64(wv);
    let dh = digits_u64(hv);
    assert(s.subrange(i, j).len() == j - i);
    assert(j == i + 29 + dw.len() + dh.len());
    lemma_split(s, i, key_width() + dw + key_height() + dh, key_pixels());
    lemma_split(s, i, key_width() + dw + key_height(), dh);
    lemma_split(s, i, key_width() + dw, key_height());
    lemma_split(s, i, key_width(), dw);
}

/// Reads the sprite object's opening through `"pixels":`, yielding the
/// width and height.  Dimensions above `usize::MAX` are rejected.
#[verifier::rlimit(50)]
#[verifier::spinoff_prover]
fn parse_image_head(s: &[u8], i: usize) -> (r: Option<(usize, usize, usize)>)
    requires
        i <= s@.len(),
    ensures
        r matches Some(v) ==> i < v.2 <= s@.len() && s@.subrange(i as int, v.2 as int)
            == enc_image_head(v.0 as nat, v.1 as nat),
        forall|wv: usize, hv: usize, j: usize|
            #![trigger s@.subrange(i as int, j as int), enc_image_head(wv as nat, hv as nat)]
            i < j <= s@.len() && s@.subrange(i as int, j as int) == enc_image_head(
                wv as nat,
                hv as nat,
            ) ==> r == Some((wv, hv, j)),
{
    let ghost sv = s@;
    let slen = s.len();
    proof {
        assert(sv.len() == slen);
        assert forall|wv: usize, hv: usize, j: usize|
            #![trigger sv.subrange(i as int, j as int), enc_image_head(wv as nat, hv as nat)]
            i < j <= sv.len() && sv.subrange(i as int, j as int) == enc_image_head(
                wv as nat,
                hv as nat,
            ) implies i + 9 <= sv.len() && sv.subrange(i as int, i + 9) == key_width() by {
            lemma_image_head_layout(sv, i as int, j as int, wv as nat, hv as nat);
        }
    }
    let q1 = match eat_key_width(s, i) {
        Some(q) => q,
        None => {
            return None;
        },
    };
    proof {
        assert forall|wv: usize, hv: usize, j: usize|
            #![trigger sv.subrange(i as int, j as int), enc_image_head(wv as nat, hv as nat)]
            i < j <= sv.len() && sv.subrange(i as int, j as int) == enc_image_head(
                wv as nat,
                hv as nat,
            ) implies q1 + digits_u64(wv as nat).len() <= sv.len() && sv.subrange(
            q1 as int,
            q1 + digits_u64(wv as nat).len(),
        ) == digits_u64(wv as nat) && boundary(sv, q1 + digits_u64(wv as nat).len()) by {
            lemma_image_head_layout(sv, i as int, j as int, wv as nat, hv as nat);
            assert(sv.subrange(
                i + 9 + digits_u64(wv as nat).len(),
                i + 19 + digits_u64(wv as nat).len(),
            )[0] == sv[i + 9 + digits_u64(wv as nat).len()]);
        }
    }
    let rw = parse_usize(s, q1);
    let (w, q2) = match rw {
        Some(v) => v,
        None => {
            proof {
                assert forall|wv: usize, hv: usize, j: usize|
                    #![trigger sv.subrange(i as int, j as int), enc_image_head(wv as nat, hv as nat)]
                    i < j <= sv.len() && sv.subrange(i as int, j as int) == enc_image_head(
                        wv as nat,
                        hv as nat,
                    ) implies false by {
                    lemma_image_head_layout(sv, i as int, j as int, wv as nat, hv as nat);
                    let jw = (q1 + digits_u64(wv as nat).len()) as usize;
                    assert(sv.subrange(q1 as int, jw as int) == digits_u64(wv as nat));
                    assert(sv.subrange(
                        i + 9 + digits_u64(wv as nat).len(),
                        i + 19 + digits_u64(wv as nat).len(),
                    )[0] == sv[i + 9 + digits_u64(wv as nat).len()]);
                    assert(boundary(sv, jw as int));
                    assert(rw == Some((wv, jw)));
                }
            }
            return None;
        },
    };
    proof {
        assert forall|wv: usize, hv: usize, j: usize|
            #![trigger sv.subrange(i as int, j as int), enc_image_head(wv as nat, hv as nat)]
            i < j <= sv.len() && sv.subrange(i as int, j as int) == enc_image_head(
                wv as nat,
                hv as nat,
            ) implies wv == w && q2 == q1 + digits_u64(wv as nat).len() && q2 + 10 <= sv.len()
            && sv.subrange(q2 as int, q2 + 10) == key_height() by {
            lemma_image_head_layout(sv, i as int, j as int, wv as nat, hv as nat);
            let jw = (q1 + digits_u64(wv as nat).len()) as usize;
            assert(sv.subrange(q1 as int, jw as int) == digits_u64(wv as nat));
            assert(sv.subrange(
                i + 9 + digits_u64(wv as nat).len(),
                i + 19 + digits_u64(wv as nat).len(),
            )[0] == sv[i + 9 + digits_u64(wv as nat).len()]);
            assert(boundary(sv, jw as int));
            assert(rw == Some((wv, jw)));
        }
    }
    let q3 = match eat_key_height(s, q2) {
        Some(q) => q,
        None => {
            return None;
        },
    };
    proof {
        assert forall|wv: usize, hv: usize, j: usize|
            #![trigger sv.subrange(i as int, j as int), enc_image_head(wv as nat, hv as nat)]
            i < j <= sv.len() && sv.subrange(i as int, j as int) == enc_image_head(
                wv as nat,
                hv as nat,
            ) implies q3 + digits_u64(hv as nat).len() <= sv.len() && sv.subrange(
            q3 as int,
            q3 + digits_u64(hv as nat).len(),
        ) == digits_u64(hv as nat) && boundary(sv, q3 + digits_u64(hv as nat).len()) by {
            lemma_image_head_layout(sv, i as int, j as int, wv as nat, hv as nat);
            assert(sv.subrange(i + 19 + digits_u64(wv as nat).len() + digits_u64(
                hv as nat,
            ).len(), j as int)[0] == sv[i + 19 + digits_u64(wv as nat).len() + digits_u64(
                hv as nat,
            ).len()]);
        }
    }
    let rh = parse_usize(s, q3);
    let (h, q4) = match rh {
        Some(v) => v,
        None => {
            proof {
                assert forall|wv: usize, hv: usize, j: usize|
                    #![trigger sv.subrange(i as int, j as int), enc_image_head(wv as nat, hv as nat)]
                    i < j <= sv.len() && sv.subrange(i as int, j as int) == enc_image_head(
                        wv as nat,
                        hv as nat,
                    ) implies false by {
                    lemma_image_head_layout(sv, i as int, j as int, wv as nat, hv as nat);
                    let jh = (q3 + digits_u64(hv as nat).len()) as usize;
                    assert(sv.subrange(q3 as int, jh as int) == digits_u64(hv as nat));
                    assert(sv.subrange(i + 19 + digits_u64(wv as nat).len() + digits_u64(
                        hv as nat,
                    ).len(), j as int)[0] == sv[jh as int]);
                    assert(boundary(sv, jh as int));
                    assert(rh == Some((hv, jh)));
                }
            }
            return None;
        },
    };
    proof {
        assert forall|wv: usize, hv: usize, j: usize|
            #![trigger sv.subrange(i as int, j as int), enc_image_head(wv as nat, hv as nat)]
            i < j <= sv.len() && sv.subrange(i as int, j as int) == enc_image_head(
                wv as nat,
                hv as nat,
            ) implies hv == h && q4 == q3 + digits_u64(hv as nat).len() && q4 + 10 <= sv.len()
            && sv.subrange(q4 as int, q4 + 10) == key_pixels() && j == q4 + 10 by {
            lemma_image_head_layout(sv, i as int, j as int, wv as nat, hv as nat);
            let jh = (q3 + digits_u64(hv as nat).len()) as usize;
            assert(sv.subrange(q3 as int, jh as int) == digits_u64(hv as nat));
            assert(sv.subrange(i + 19 + digits_u64(wv as nat).len() + digits_u64(
                hv as nat,
            ).len(), j as int)[0] == sv[jh as int]);
            assert(boundary(sv, jh as int));
            assert(rh == Some((hv, jh)));
        }
    }
    let q5 = match eat_key_pixels(s, q4) {
        Some(q) => q,
        None => {
            return None;
        },
    };
    proof {
        lemma_join(sv, q3 as int, q4 as int, q5 as int);
        lemma_join(sv, q2 as int, q3 as int, q5 as int);
        lemma_join(sv, q1 as int, q2 as int, q5 as int);
        lemma_join(sv, i as int, q1 as int, q5 as int);
        assert(sv.subrange(i as int, q5 as int) == key_width() + digits_u64(w as nat) + (
        key_height() + digits_u64(h as nat) + key_pixels()));
        assert(sv.subrange(i as int, q5 as int) =~= enc_image_head(w as nat, h as nat));
    }
    Some((w, h, q5))
}

/// Writes `enc_image(img@)`.
pub fn push_image(buf: &mut Vec<u8>, img: &Image)
    ensures
        final(buf)@ == old(buf)@ + enc_image(img@),
{
    buf.push(LBRACE);
    buf.push(QUOTE);
    buf.push(LC_W);
    buf.push(LC_I);
    buf.push(LC_D);
    buf.push(LC_T);
    buf.push(LC_H);
    buf.push(QUOTE);
    buf.push(COLON);
    push_u64(buf, img.width as u64);
    buf.push(COMMA);
    buf.push(QUOTE);
    buf.push(LC_H);
    buf.push(LC_E);
    buf.push(LC_I);
    buf.push(LC_G);
    buf.push(LC_H);
    buf.push(LC_T);
    buf.push(QUOTE);
    buf.push(COLON);
    push_u64(buf, img.height as u64);
    buf.push(COMMA);
    buf.push(QUOTE);
    buf.push(LC_P);
    buf.push(LC_I);
    buf.push(LC_X);
    buf.push(LC_E);
    buf.push(LC_L);
    buf.push(LC_S);
    buf.push(QUOTE);
    buf.push(COLON);
    push_colors(buf, &img.pixels);
    buf.push(RBRACE);
    proof {
        assert(buf@ =~= old(buf)@ + enc_image(img@));
    }
}

/// Reads a sprite encoded as `{"width":W,"height":H,"pixels":[...]}` at `i`.
/// Dimensions above `usize::MAX` are rejected.
#[verifier::rlimit(50)]
#[verifier::spinoff_prover]
pub fn parse_image(s: &[u8], i: usize) -> (r: Option<(Image, usize)>)
    requires
        i <= s@.len(),
    ensures
        r matches Some(v) ==> i < v.1 <= s@.len() && s@.subrange(i as int, v.1 as int) == enc_image(
            v.0@,
        ),
        forall|iv: ImageView, j: usize|
            #![trigger s@.subrange(i as int, j as int), enc_image(iv)]
            i < j <= s@.len() && s@.subrange(i as int, j as int) == enc_image(iv) && iv.width
                <= usize::MAX && iv.height <= usize::MAX ==> (r matches Some(v) && v.0@ == iv
                && v.1 == j),
{
    let ghost sv = s@;
    let slen = s.len();
    proof {
        assert(sv.len() == slen);
        assert forall|iv: ImageView, j: usize|
            #![trigger sv.subrange(i as int, j as int), enc_image(iv)]
            i < j <= sv.len() && sv.subrange(i as int, j as int) == enc_image(iv) && iv.width
            <= usize::MAX && iv.height <= usize::MAX implies i + enc_image_head(
            iv.width,
            iv.height,
        ).len() <= sv.len() && sv.subrange(i as int, i + enc_image_head(iv.width, iv.height).len())
            == enc_image_head(iv.width, iv.height) by {
            assert(sv.subrange(i as int, j as int).len() == j - i);
            lemma_split(
                sv,
                i as int,
                enc_image_head(iv.width, iv.height) + enc_colors(iv.pixels),
                seq![RBRACE],
            );
            lemma_split(sv, i as int, enc_image_head(iv.width, iv.height), enc_colors(iv.pixels));
        }
    }
    let rd = parse_image_head(s, i);
    let (w, h, q1) = match rd {
        Some(v) => v,
        None => {
            proof {
                assert forall|iv: ImageView, j: usize|
                    #![trigger sv.subrange(i as int, j as int), enc_image(iv)]
                    i < j <= sv.len() && sv.subrange(i as int, j as int) == enc_image(iv)
                        && iv.width <= usize::MAX && iv.height <= usize::MAX implies false by {
                    let jd = (i + enc_image_head(iv.width, iv.height).len()) as usize;
                    assert(sv.subrange(i as int, jd as int) == enc_image_head(iv.width, iv.height));
                    assert(enc_image_head((iv.width as usize) as nat, (iv.height as usize) as nat)
                        == enc_image_head(iv.width, iv.height));
                    assert(rd == Some((iv.width as usize, iv.height as usize, jd)));
                }
            }
            return None;
        },
    };
    proof {
        assert forall|iv: ImageView, j: usize|
            #![trigger sv.subrange(i as int, j as int), enc_image(iv)]
            i < j <= sv.len() && sv.subrange(i as int, j as int) == enc_image(iv) && iv.width
            <= usize::MAX && iv.height <= usize::MAX implies iv.width == w && iv.height == h && q1
            == i + enc_image_head(iv.width, iv.height).len() && q1 + enc_colors(iv.pixels).len()
            <= sv.len() && sv.subrange(q1 as int, q1 + enc_colors(iv.pixels).len()) == enc_colors(
            iv.pixels,
        ) && sv[j - 1] == RBRACE by {
            assert(sv.subrange(i as int, j as int).len() == j - i);
            lemma_split(
                sv,
                i as int,
                enc_image_head(iv.width, iv.height) + enc_colors(iv.pixels),
                seq![RBRACE],
            );
            lemma_split(sv, i as int, enc_image_head(iv.width, iv.height), enc_colors(iv.pixels));
            let jd = (i + enc_image_head(iv.width, iv.height).len()) as usize;
            assert(enc_image_head((iv.width as usize) as nat, (iv.height as usize) as nat)
                == enc_image_head(iv.width, iv.height));
            assert(rd == Some((iv.width as usize, iv.height as usize, jd)));
            assert(sv[j - 1] == sv.subrange(
                i + (enc_image_head(iv.width, iv.height) + enc_colors(iv.pixels)).len(),
                j as int,
            )[0]);
        }
    }
    let rp = parse_colors(s, q1);
    let (pix, q2) = match rp {
        Some(v) => v,
        None => {
            proof {
                assert forall|iv: ImageView, j: usize|
                    #![trigger sv.subrange(i as int, j as int), enc_image(iv)]
                    i < j <= sv.len() && sv.subrange(i as int, j as int) == enc_image(iv)
                        && iv.width <= usize::MAX && iv.height <= usize::MAX implies false by {
                    let jp = (q1 + enc_colors(iv.pixels).len()) as usize;
                    assert(sv.subrange(q1 as int, jp as int) == enc_colors(iv.pixels));
                    assert(enc_colors(iv.pixels).len() >= 1);
                    assert(q1 < jp && jp <= sv.len());
                    assert(rp matches Some(v) && v.0@ == iv.pixels && v.1 == jp);
                }
            }
            return None;
        },
    };
    let q3 = match eat(s, q2, RBRACE) {
        Some(q) => q,
        None => {
            proof {
                assert forall|iv: ImageView, j: usize|
                    #![trigger sv.subrange(i as int, j as int), enc_image(iv)]
                    i < j <= sv.len() && sv.subrange(i as int, j as int) == enc_image(iv)
                        && iv.width <= usize::MAX && iv.height <= usize::MAX implies false by {
                    let jp = (q1 + enc_colors(iv.pixels).len()) as usize;
                    assert(sv.subrange(q1 as int, jp as int) == enc_colors(iv.pixels));
                    assert(enc_colors(iv.pixels).len() >= 1);
                    assert(q1 < jp && jp <= sv.len());
                    assert(rp matches Some(v) && v.0@ == iv.pixels && v.1 == jp);
                    assert(pix@ == iv.pixels && q2 == jp);
                    assert(sv.subrange(i as int, j as int).len() == j - i);
                    assert(q2 == j - 1);
                    assert(sv[q2 as int] == RBRACE);
                }
            }
            return None;
        },
    };
    let img = Image { width: w, height: h, pixels: pix };
    proof {
        lemma_join(sv, q1 as int, q2 as int, q3 as int);
        lemma_join(sv, i as int, q1 as int, q3 as int);
        assert(sv.subrange(q2 as int, q3 as int) =~= seq![RBRACE]);
        assert(sv.subrange(i as int, q3 as int) == enc_image_head(w as nat, h as nat) + (
        enc_colors(pix@) + seq![RBRACE]));
        assert(sv.subrange(i as int, q3 as int) =~= enc_image(img@));
        assert forall|iv: ImageView, j: usize|
            #![trigger sv.subrange(i as int, j as int), enc_image(iv)]
            i < j <= sv.len() && sv.subrange(i as int, j as int) == enc_image(iv) && iv.width
            <= usize::MAX && iv.height <= usize::MAX implies (Some((img, q3)) matches Some(v)
            && v.0@ == iv && v.1 == j) by {
            let jp = (q1 + enc_colors(iv.pixels).len()) as usize;
            assert(sv.subrange(q1 as int, jp as int) == enc_colors(iv.pixels));
            assert(enc_colors(iv.pixels).len() >= 1);
            assert(q1 < jp && jp <= sv.len());
            assert(rp matches Some(v) && v.0@ == iv.pixels && v.1 == jp);
            assert(pix@ == iv.pixels && q2 == jp);
            assert(iv.width == w && iv.height == h);
            assert(sv.subrange(i as int, j as int).len() == j - i);
            assert(j == q3);
        }
    }
    Some((img, q3))
}


/// `motion `
pub open spec fn lit_motion() -> Seq<u8> {
    seq![LC_M, LC_O, LC_T, LC_I, LC_O, LC_N, SPACE]
}

/// Consumes `motion ` at `i`.
fn eat_lit_motion(s: &[u8], i: usize) -> (r: Option<usize>)
    ensures
        r matches Some(j) ==> j == i + 7 && j <= s@.len() && s@.subrange(i as int, j as int)
            == lit_motion(),
        i + 7 <= s@.len() && s@.subrange(i as int, i + 7) == lit_motion() ==> r == Some((i + 7)
            as usize),
{
    let ghost sv = s@;
    proof {
        if i + 7 <= sv.len() && sv.subrange(i as int, i + 7) == lit_motion() {
            assert(forall|k: int|
                0 <= k < 7 ==> sv[i + k] == #[trigger] sv.subrange(i as int, i + 7)[k]);
        }
    }
    let j = eat(s, i, LC_M)?;
    let j = eat(s, j, LC_O)?;
    let j = eat(s, j, LC_T)?;
    let j = eat(s, j, LC_I)?;
    let j = eat(s, j, LC_O)?;
    let j = eat(s, j, LC_N)?;
    let j = eat(s, j, SPACE)?;
    proof {
        assert(sv.subrange(i as int, i + 7) =~= lit_motion());
    }
    Some(j)
}


/// `newplayer `
pub open spec fn lit_newplayer() -> Seq<u8> {
    seq![LC_N, LC_E, LC_W, LC_P, LC_L, LC_A, LC_Y, LC_E, LC_R, SPACE]
}

/// Consumes `newplayer ` at `i`.
fn eat_lit_newplayer(s: &[u8], i: usize) -> (r: Option<usize>)
    ensures
        r matches Some(j) ==> j == i + 10 && j <= s@.len() && s@.subrange(i as int, j as int)
            == lit_newplayer(),
        i + 10 <= s@.len() && s@.subrange(i as int, i + 10) == lit_newplayer() ==> r == Some((i + 10)
            as usize),
{
    let ghost sv = s@;
    proof {
        if i + 10 <= sv.len() && sv.subrange(i as int, i + 10) == lit_newplayer() {
            assert(forall|k: int|
                0 <= k < 10 ==> sv[i + k] == #[trigger] sv.subrange(i as int, i + 10)[k]);
        }
    }
    let j = eat(s, i, LC_N)?;
    let j = eat(s, j, LC_E)?;
    let j = eat(s, j, LC_W)?;
    let j = eat(s, j, LC_P)?;
    let j = eat(s, j, LC_L)?;
    let j = eat(s, j, LC_A)?;
    let j = eat(s, j, LC_Y)?;
    let j = eat(s, j, LC_E)?;
    let j = eat(s, j, LC_R)?;
    let j = eat(s, j, SPACE)?;
    proof {
        assert(sv.subrange(i as int, i + 10) =~= lit_newplayer());
    }
    Some(j)
}

// ---------------------------------------------------------------------------
// Peer snapshot encoding

/// `{"id":`
pub open spec fn key_id() -> Seq<u8> {
    seq![LBRACE, QUOTE, LC_I, LC_D, QUOTE, COLON]
}

/// `,"position":`
pub open spec fn key_position() -> Seq<u8> {
    seq![COMMA, QUOTE, LC_P, LC_O, LC_S, LC_I, LC_T, LC_I, LC_O, LC_N, QUOTE, COLON]
}

/// `,"image":`
pub open spec fn key_image() -> Seq<u8> {
    seq![COMMA, QUOTE, LC_I, LC_M, LC_A, LC_G, LC_E, QUOTE, COLON]
}

/// One peer record as `{"id":I,"position":P,"image":IMG}`.
pub open spec fn enc_session(sv: SessionView) -> Seq<u8> {
    key_id() + digits_u64(sv.id) + key_position() + enc_point(sv.position) + key_image()
        + enc_image(sv.image) + seq![RBRACE]
}

/// The comma-led tail of a peer list.
pub open spec fn enc_session_list_rest(ss: Seq<SessionView>) -> Seq<u8>
    decreases ss.len(),
{
    if ss.len() == 0 {
        Seq::empty()
    } else {
        seq![COMMA] + enc_session(ss[0]) + enc_session_list_rest(ss.skip(1))
    }
}

/// A peer list without its closing bracket.
pub open spec fn enc_sessions_open(ss: Seq<SessionView>) -> Seq<u8> {
    if ss.len() == 0 {
        seq![LBRACK]
    } else {
        seq![LBRACK] + enc_session(ss[0]) + enc_session_list_rest(ss.skip(1))
    }
}

/// A peer list as `[{"id":..},...]`.
pub open spec fn enc_sessions(ss: Seq<SessionView>) -> Seq<u8> {
    enc_sessions_open(ss) + seq![RBRACK]
}

proof fn lemma_session_rest_push(ss: Seq<SessionView>, sv: SessionView)
    ensures
        enc_session_list_rest(ss.push(sv)) == enc_session_list_rest(ss) + (seq![COMMA]
            + enc_session(sv)),
    decreases ss.len(),
{
    if ss.len() == 0 {
        assert(ss.push(sv)[0] == sv);
        assert(ss.push(sv).skip(1) =~= Seq::<SessionView>::empty());
        assert(enc_session_list_rest(ss.push(sv)) == seq![COMMA] + enc_session(sv)
            + enc_session_list_rest(ss.push(sv).skip(1)));
        assert(enc_session_list_rest(ss.push(sv).skip(1)) == Seq::<u8>::empty());
        assert(enc_session_list_rest(ss) == Seq::<u8>::empty());
        assert(enc_session_list_rest(ss.push(sv)) =~= enc_session_list_rest(ss) + (seq![COMMA]
            + enc_session(sv)));
    } else {
        assert(ss.push(sv)[0] == ss[0]);
        assert(ss.push(sv).skip(1) =~= ss.skip(1).push(sv));
        lemma_session_rest_push(ss.skip(1), sv);
        assert(enc_session_list_rest(ss.push(sv)) == seq![COMMA] + enc_session(ss[0])
            + enc_session_list_rest(ss.skip(1).push(sv)));
        assert(seq![COMMA] + enc_session(ss[0]) + (enc_session_list_rest(ss.skip(1)) + (seq![COMMA]
            + enc_session(sv))) =~= (seq![COMMA] + enc_session(ss[0]) + enc_session_list_rest(
            ss.skip(1),
        )) + (seq![COMMA] + enc_session(sv)));
    }
}

proof fn lemma_sessions_open_push(ss: Seq<SessionView>, sv: SessionView)
    ensures
        ss.len() == 0 ==> enc_sessions_open(ss.push(sv)) == enc_sessions_open(ss) + enc_session(
            sv,
        ),
        ss.len() > 0 ==> enc_sessions_open(ss.push(sv)) == enc_sessions_open(ss) + (seq![COMMA]
            + enc_session(sv)),
{
    if ss.len() == 0 {
        assert(ss.push(sv)[0] == sv);
        assert(ss.push(sv).skip(1) =~= Seq::<SessionView>::empty());
        assert(enc_session_list_rest(ss.push(sv).skip(1)) == Seq::<u8>::empty());
        assert(enc_sessions_open(ss.push(sv)) =~= enc_sessions_open(ss) + enc_session(sv));
    } else {
        assert(ss.push(sv)[0] == ss[0]);
        assert(ss.push(sv).skip(1) =~= ss.skip(1).push(sv));
        lemma_session_rest_push(ss.skip(1), sv);
        assert(enc_sessions_open(ss.push(sv)) =~= enc_sessions_open(ss) + (seq![COMMA]
            + enc_session(sv)));
    }
}

/// Writes `enc_session(s@)`.
pub fn push_session(buf: &mut Vec<u8>, s: &Session)
    ensures
        final(buf)@ == old(buf)@ + enc_session(s@),
{
    buf.push(LBRACE);
    buf.push(QUOTE);
    buf.push(LC_I);
    buf.push(LC_D);
    buf.push(QUOTE);
    buf.push(COLON);
    push_u64(buf, s.id as u64);
    buf.push(COMMA);
    buf.push(QUOTE);
    buf.push(LC_P);
    buf.push(LC_O);
    buf.push(LC_S);
    buf.push(LC_I);
    buf.push(LC_T);
    buf.push(LC_I);
    buf.push(LC_O);
    buf.push(LC_N);
    buf.push(QUOTE);
    buf.push(COLON);
    push_point(buf, s.position);
    buf.push(COMMA);
    buf.push(QUOTE);
    buf.push(LC_I);
    buf.push(LC_M);
    buf.push(LC_A);
    buf.push(LC_G);
    buf.push(LC_E);
    buf.push(QUOTE);
    buf.push(COLON);
    push_image(buf, &s.image);
    buf.push(RBRACE);
    proof {
        assert(buf@ =~= old(buf)@ + enc_session(s@));
    }
}

/// Writes `enc_sessions(...)` for the listed sessions.
pub fn push_sessions(buf: &mut Vec<u8>, ss: &Vec<Session>)
    ensures
        final(buf)@ == old(buf)@ + enc_sessions(crate::views_of_sessions(ss@)),
{
    let ghost all = crate::views_of_sessions(ss@);
    buf.push(LBRACK);
    proof {
        assert(enc_sessions_open(all.take(0)) =~= seq![LBRACK]);
        assert(buf@ =~= old(buf)@ + enc_sessions_open(all.take(0)));
    }
    let mut k: usize = 0;
    while k < ss.len()
        invariant
            k <= ss@.len(),
            all == crate::views_of_sessions(ss@),
            buf@ == old(buf)@ + enc_sessions_open(all.take(k as int)),
        decreases ss@.len() - k,
    {
        if k > 0 {
            buf.push(COMMA);
        }
        push_session(buf, &ss[k]);
        proof {
            lemma_sessions_open_push(all.take(k as int), all[k as int]);
            assert(all[k as int] == ss@[k as int]@);
            assert(all.take(k + 1) =~= all.take(k as int).push(all[k as int]));
            assert(buf@ =~= old(buf)@ + enc_sessions_open(all.take(k + 1)));
        }
        k = k + 1;
    }
    buf.push(RBRACK);
    proof {
        assert(all.take(all.len() as int) =~= all);
        assert(buf@ =~= old(buf)@ + enc_sessions(all));
    }
}

// ---------------------------------------------------------------------------
// Frames

/// `position `
pub open spec fn lit_position() -> Seq<u8> {
    seq![LC_P, LC_O, LC_S, LC_I, LC_T, LC_I, LC_O, LC_N, SPACE]
}

/// `added `
pub open spec fn lit_added() -> Seq<u8> {
    seq![LC_A, LC_D, LC_D, LC_E, LC_D, SPACE]
}

/// `newplayerconnect `
pub open spec fn lit_newplayerconnect() -> Seq<u8> {
    seq![
        LC_N,
        LC_E,
        LC_W,
        LC_P,
        LC_L,
        LC_A,
        LC_Y,
        LC_E,
        LC_R,
        LC_C,
        LC_O,
        LC_N,
        LC_N,
        LC_E,
        LC_C,
        LC_T,
        SPACE,
    ]
}

/// `disconnect `
pub open spec fn lit_disconnect() -> Seq<u8> {
    seq![LC_D, LC_I, LC_S, LC_C, LC_O, LC_N, LC_N, LC_E, LC_C, LC_T, SPACE]
}

/// `[I,{"x":..,"y":..}]` — an id paired with a point, the payload shared by
/// `motion` requests and `position` events.
pub open spec fn enc_id_point(id: nat, p: Point) -> Seq<u8> {
    seq![LBRACK] + digits_u64(id) + seq![COMMA] + enc_point(p) + seq![RBRACK]
}

/// A `motion` request line, without its newline.
pub open spec fn frame_motion(id: nat, delta: Point) -> Seq<u8> {
    lit_motion() + enc_id_point(id, delta)
}

/// A `newplayer` request line, without its newline.
pub open spec fn frame_newplayer(iv: ImageView) -> Seq<u8> {
    lit_newplayer() + enc_image(iv)
}

/// A `position` event frame, newline included.  It carries the raw delta of
/// the motion it reports, not the accumulated position.
pub open spec fn frame_position(id: nat, delta: Point) -> Seq<u8> {
    lit_position() + enc_id_point(id, delta) + seq![NL]
}

/// An `added` reply frame, newline included.
pub open spec fn frame_added(id: nat, p: Point, ss: Seq<SessionView>) -> Seq<u8> {
    lit_added() + seq![LBRACK] + digits_u64(id) + seq![COMMA] + enc_point(p) + seq![COMMA]
        + enc_sessions(ss) + seq![RBRACK, NL]
}

/// A `newplayerconnect` event frame, newline included.
pub open spec fn frame_newplayerconnect(id: nat, p: Point, iv: ImageView) -> Seq<u8> {
    lit_newplayerconnect() + seq![LBRACK] + digits_u64(id) + seq![COMMA] + enc_point(p)
        + seq![COMMA] + enc_image(iv) + seq![RBRACK, NL]
}

/// A `disconnect` event frame, newline included.
pub open spec fn frame_disconnect(id: nat) -> Seq<u8> {
    lit_disconnect() + digits_u64(id) + seq![NL]
}

/// Builds a `position` event frame.
pub fn encode_position_frame(id: usize, delta: Point) -> (r: Vec<u8>)
    ensures
        r@ == frame_position(id as nat, delta),
{
    let mut buf: Vec<u8> = Vec::new();
    buf.push(LC_P);
    buf.push(LC_O);
    buf.push(LC_S);
    buf.push(LC_I);
    buf.push(LC_T);
    buf.push(LC_I);
    buf.push(LC_O);
    buf.push(LC_N);
    buf.push(SPACE);
    buf.push(LBRACK);
    push_u64(&mut buf, id as u64);
    buf.push(COMMA);
    push_point(&mut buf, delta);
    buf.push(RBRACK);
    buf.push(NL);
    proof {
        assert(buf@ =~= frame_position(id as nat, delta));
    }
    buf
}

/// Builds an `added` reply frame for a fresh session and the peers that
/// were already present.
pub fn encode_added_frame(id: usize, p: Point, others: &Vec<Session>) -> (r: Vec<u8>)
    ensures
        r@ == frame_added(id as nat, p, crate::views_of_sessions(others@)),
{
    let mut buf: Vec<u8> = Vec::new();
    buf.push(LC_A);
    buf.push(LC_D);
    buf.push(LC_D);
    buf.push(LC_E);
    buf.push(LC_D);
    buf.push(SPACE);
    buf.push(LBRACK);
    push_u64(&mut buf, id as u64);
    buf.push(COMMA);
    push_point(&mut buf, p);
    buf.push(COMMA);
    push_sessions(&mut buf, others);
    buf.push(RBRACK);
    buf.push(NL);
    proof {
        assert(buf@ =~= frame_added(id as nat, p, crate::views_of_sessions(others@)));
    }
    buf
}

/// Builds a `newplayerconnect` event frame.
pub fn encode_newplayerconnect_frame(id: usize, p: Point, img: &Image) -> (r: Vec<u8>)
    ensures
        r@ == frame_newplayerconnect(id as nat, p, img@),
{
    let mut buf: Vec<u8> = Vec::new();
    buf.push(LC_N);
    buf.push(LC_E);
    buf.push(LC_W);
    buf.push(LC_P);
    buf.push(LC_L);
    buf.push(LC_A);
    buf.push(LC_Y);
    buf.push(LC_E);
    buf.push(LC_R);
    buf.push(LC_C);
    buf.push(LC_O);
    buf.push(LC_N);
    buf.push(LC_N);
    buf.push(LC_E);
    buf.push(LC_C);
    buf.push(LC_T);
    buf.push(SPACE);
    buf.push(LBRACK);
    push_u64(&mut buf, id as u64);
    buf.push(COMMA);
    push_point(&mut buf, p);
    buf.push(COMMA);
    push_image(&mut buf, img);
    buf.push(RBRACK);
    buf.push(NL);
    proof {
        assert(buf@ =~= frame_newplayerconnect(id as nat, p, img@));
    }
    buf
}

/// Builds a `disconnect` event frame.
pub fn encode_disconnect_frame(id: usize) -> (r: Vec<u8>)
    ensures
        r@ == frame_disconnect(id as nat),
{
    let mut buf: Vec<u8> = Vec::new();
    buf.push(LC_D);
    buf.push(LC_I);
    buf.push(LC_S);
    buf.push(LC_C);
    buf.push(LC_O);
    buf.push(LC_N);
    buf.push(LC_N);
    buf.push(LC_E);
    buf.push(LC_C);
    buf.push(LC_T);
    buf.push(SPACE);
    push_u64(&mut buf, id as u64);
    buf.push(NL);
    proof {
        assert(buf@ =~= frame_disconnect(id as nat));
    }
    buf
}

/// Builds a `motion` request line, newline included.
pub fn encode_motion_request(id: usize, delta: Point) -> (r: Vec<u8>)
    ensures
        r@ == frame_motion(id as nat, delta) + seq![NL],
{
    let mut buf: Vec<u8> = Vec::new();
    buf.push(LC_M);
    buf.push(LC_O);
    buf.push(LC_T);
    buf.push(LC_I);
    buf.push(LC_O);
    buf.push(LC_N);
    buf.push(SPACE);
    buf.push(LBRACK);
    push_u64(&mut buf, id as u64);
    buf.push(COMMA);
    push_point(&mut buf, delta);
    buf.push(RBRACK);
    buf.push(NL);
    proof {
        assert(buf@ =~= frame_motion(id as nat, delta) + seq![NL]);
    }
    buf
}

/// Builds a `newplayer` request line, newline included.
pub fn encode_newplayer_request(img: &Image) -> (r: Vec<u8>)
    ensures
        r@ == frame_newplayer(img@) + seq![NL],
{
    let mut buf: Vec<u8> = Vec::new();
    buf.push(LC_N);
    buf.push(LC_E);
    buf.push(LC_W);
    buf.push(LC_P);
    buf.push(LC_L);
    buf.push(LC_A);
    buf.push(LC_Y);
    buf.push(LC_E);
    buf.push(LC_R);
    buf.push(SPACE);
    push_image(&mut buf, img);
    buf.push(NL);
    proof {
        assert(buf@ =~= frame_newplayer(img@) + seq![NL]);
    }
    buf
}

// ---------------------------------------------------------------------------
// Request decoding

/// A decoded client request.
pub enum Request {
    /// Register a session carrying this sprite.
    Newplayer(Image),
    /// Move the session with this id by this delta.
    Motion(usize, Point),
}

/// Where each part of a `motion` frame lies.
pub proof fn lemma_motion_frame_layout(s: Seq<u8>, id: nat, d: Point)
    requires
        s == frame_motion(id, d),
    ensures
        s.len() == 10 + digits_u64(id).len() + enc_point(d).len(),
        s[0] == LC_M,
        s.subrange(0, 7) == lit_motion(),
        s[7] == LBRACK,
        s.subrange(8, 8 + digits_u64(id).len() as int) == digits_u64(id),
        s[8 + digits_u64(id).len() as int] == COMMA,
        s.subrange(9 + digits_u64(id).len() as int, s.len() as int - 1) == enc_point(d),
        s[s.len() as int - 1] == RBRACK,
{
    let di = digits_u64(id);
    let ep = enc_point(d);
    assert(s.subrange(0, s.len() as int) =~= s);
    lemma_split(s, 0, lit_motion(), enc_id_point(id, d));
    assert(s[0] == lit_motion()[0]);
    assert(s.subrange(7, s.len() as int) == enc_id_point(id, d));
    lemma_split(s, 7, seq![LBRACK] + di + seq![COMMA] + ep, seq![RBRACK]);
    lemma_split(s, 7, seq![LBRACK] + di + seq![COMMA], ep);
    lemma_split(s, 7, seq![LBRACK] + di, seq![COMMA]);
    lemma_split(s, 7, seq![LBRACK], di);
    assert(s[7] == s.subrange(7, 8)[0]);
    assert(s[8 + di.len() as int] == s.subrange(8 + di.len() as int, 9 + di.len() as int)[0]);
    assert(s[s.len() as int - 1] == s.subrange(
        7 + (seq![LBRACK] + di + seq![COMMA] + ep).len() as int,
        s.len() as int,
    )[0]);
}

/// Where each part of a `newplayer` frame lies.
pub proof fn lemma_newplayer_frame_layout(s: Seq<u8>, iv: ImageView)
    requires
        s == frame_newplayer(iv),
    ensures
        s.len() == 10 + enc_image(iv).len(),
        s[0] == LC_N,
        s.subrange(0, 10) == lit_newplayer(),
        s.subrange(10, s.len() as int) == enc_image(iv),
{
    assert(s.subrange(0, s.len() as int) =~= s);
    lemma_split(s, 0, lit_newplayer(), enc_image(iv));
    assert(s[0] == lit_newplayer()[0]);
}

/// Decodes one request line (without its terminating newline).  `None`
/// means the line is not a canonical frame; the caller drops such a line
/// and the connection stays open.
#[verifier::rlimit(100)]
#[verifier::spinoff_prover]
pub fn parse_request(line: &[u8]) -> (r: Option<Request>)
    ensures
        r matches Some(q) ==> match q {
            Request::Newplayer(img) => line@ == frame_newplayer(img@),
            Request::Motion(id, d) => line@ == frame_motion(id as nat, d),
        },
        forall|iv: ImageView|
            #![trigger frame_newplayer(iv)]
            line@ == frame_newplayer(iv) && iv.width <= usize::MAX && iv.height <= usize::MAX ==> (
            r matches Some(q) && q matches Request::Newplayer(img) && img@ == iv),
        forall|id: usize, d: Point|
            #![trigger frame_motion(id as nat, d)]
            line@ == frame_motion(id as nat, d) ==> (r matches Some(q) && q == (Request::Motion(
                id,
                d,
            ))),
{
    let ghost sv = line@;
    let slen = line.len();
    proof {
        assert(sv.len() == slen);
    }
    if slen == 0 {
        proof {
            assert forall|iv: ImageView| #![trigger frame_newplayer(iv)]
                sv == frame_newplayer(iv) implies false by {
                lemma_newplayer_frame_layout(sv, iv);
            }
            assert forall|id: usize, d: Point| #![trigger frame_motion(id as nat, d)]
                sv == frame_motion(id as nat, d) implies false by {
                lemma_motion_frame_layout(sv, id as nat, d);
            }
        }
        return None;
    }
    if line[0] == LC_M {
        proof {
            assert forall|iv: ImageView| #![trigger frame_newplayer(iv)]
                sv == frame_newplayer(iv) implies false by {
                lemma_newplayer_frame_layout(sv, iv);
            }
            assert forall|id: usize, d: Point| #![trigger frame_motion(id as nat, d)]
                sv == frame_motion(id as nat, d) implies 7 <= sv.len() && sv.subrange(0, 7)
                == lit_motion() by {
                lemma_motion_frame_layout(sv, id as nat, d);
            }
        }
        let q1 = match eat_lit_motion(line, 0) {
            Some(q) => q,
            None => {
                return None;
            },
        };
        let q2 = match eat(line, q1, LBRACK) {
            Some(q) => q,
            None => {
                proof {
                    assert forall|id: usize, d: Point| #![trigger frame_motion(id as nat, d)]
                        sv == frame_motion(id as nat, d) implies false by {
                        lemma_motion_frame_layout(sv, id as nat, d);
                    }
                }
                return None;
            },
        };
        proof {
            assert forall|id: usize, d: Point| #![trigger frame_motion(id as nat, d)]
                sv == frame_motion(id as nat, d) implies q2 + digits_u64(id as nat).len()
                <= sv.len() && sv.subrange(q2 as int, q2 + digits_u64(id as nat).len())
                == digits_u64(id as nat) && boundary(sv, q2 + digits_u64(id as nat).len()) by {
                lemma_motion_frame_layout(sv, id as nat, d);
            }
        }
        let ru = parse_usize(line, q2);
        let (id, q3) = match ru {
            Some(v) => v,
            None => {
                proof {
                    assert forall|id: usize, d: Point| #![trigger frame_motion(id as nat, d)]
                        sv == frame_motion(id as nat, d) implies false by {
                        lemma_motion_frame_layout(sv, id as nat, d);
                        let ji = (q2 + digits_u64(id as nat).len()) as usize;
                        assert(sv.subrange(q2 as int, ji as int) == digits_u64(id as nat));
                        assert(boundary(sv, ji as int));
                        assert(ru == Some((id, ji)));
                    }
                }
                return None;
            },
        };
        let q4 = match eat(line, q3, COMMA) {
            Some(q) => q,
            None => {
                proof {
                    assert forall|id2: usize, d: Point| #![trigger frame_motion(id2 as nat, d)]
                        sv == frame_motion(id2 as nat, d) implies false by {
                        lemma_motion_frame_layout(sv, id2 as nat, d);
                        let ji = (q2 + digits_u64(id2 as nat).len()) as usize;
                        assert(sv.subrange(q2 as int, ji as int) == digits_u64(id2 as nat));
                        assert(boundary(sv, ji as int));
                        assert(ru == Some((id2, ji)));
                    }
                }
                return None;
            },
        };
        proof {
            assert forall|id2: usize, d: Point| #![trigger frame_motion(id2 as nat, d)]
                sv == frame_motion(id2 as nat, d) implies id2 == id && q4 + enc_point(d).len()
                <= sv.len() && sv.subrange(q4 as int, q4 + enc_point(d).len()) == enc_point(d) by {
                lemma_motion_frame_layout(sv, id2 as nat, d);
                let ji = (q2 + digits_u64(id2 as nat).len()) as usize;
                assert(sv.subrange(q2 as int, ji as int) == digits_u64(id2 as nat));
                assert(boundary(sv, ji as int));
                assert(ru == Some((id2, ji)));
            }
        }
        let rp = parse_point(line, q4);
        let (d, q5) = match rp {
            Some(v) => v,
            None => {
                proof {
                    assert forall|id2: usize, d: Point| #![trigger frame_motion(id2 as nat, d)]
                        sv == frame_motion(id2 as nat, d) implies false by {
                        lemma_motion_frame_layout(sv, id2 as nat, d);
                        let jp = (q4 + enc_point(d).len()) as usize;
                        assert(sv.subrange(q4 as int, jp as int) == enc_point(d));
                        assert(rp == Some((d, jp)));
                    }
                }
                return None;
            },
        };
        let q6 = match eat(line, q5, RBRACK) {
            Some(q) => q,
            None => {
                proof {
                    assert forall|id2: usize, d2: Point| #![trigger frame_motion(id2 as nat, d2)]
                        sv == frame_motion(id2 as nat, d2) implies false by {
                        lemma_motion_frame_layout(sv, id2 as nat, d2);
                        let jp = (q4 + enc_point(d2).len()) as usize;
                        assert(sv.subrange(q4 as int, jp as int) == enc_point(d2));
                        assert(rp == Some((d2, jp)));
                        assert(sv[q5 as int] == RBRACK);
                    }
                }
                return None;
            },
        };
        if q6 == slen {
            proof {
                lemma_join(sv, q4 as int, q5 as int, q6 as int);
                lemma_join(sv, q3 as int, q4 as int, q6 as int);
                lemma_join(sv, q2 as int, q3 as int, q6 as int);
                lemma_join(sv, q1 as int, q2 as int, q6 as int);
                lemma_join(sv, 0, q1 as int, q6 as int);
                assert(sv.subrange(q5 as int, q6 as int) =~= seq![RBRACK]);
                assert(sv.subrange(q3 as int, q4 as int) =~= seq![COMMA]);
                assert(sv.subrange(q1 as int, q2 as int) =~= seq![LBRACK]);
                assert(sv.subrange(0, q6 as int) == lit_motion() + (seq![LBRACK] + (digits_u64(
                    id as nat,
                ) + (seq![COMMA] + (enc_point(d) + seq![RBRACK])))));
                assert(sv.subrange(0, q6 as int) =~= sv);
                assert(sv =~= frame_motion(id as nat, d));
                assert forall|id2: usize, d2: Point| #![trigger frame_motion(id2 as nat, d2)]
                    sv == frame_motion(id2 as nat, d2) implies id2 == id && d2 == d by {
                    lemma_motion_frame_layout(sv, id2 as nat, d2);
                    let jp = (q4 + enc_point(d2).len()) as usize;
                    assert(sv.subrange(q4 as int, jp as int) == enc_point(d2));
                    assert(rp == Some((d2, jp)));
                }
            }
            return Some(Request::Motion(id, d));
        } else {
            proof {
                assert forall|id2: usize, d2: Point| #![trigger frame_motion(id2 as nat, d2)]
                    sv == frame_motion(id2 as nat, d2) implies false by {
                    lemma_motion_frame_layout(sv, id2 as nat, d2);
                    let jp = (q4 + enc_point(d2).len()) as usize;
                    assert(sv.subrange(q4 as int, jp as int) == enc_point(d2));
                    assert(rp == Some((d2, jp)));
                }
            }
            return None;
        }
    }
    if line[0] == LC_N {
        proof {
            assert forall|id: usize, d: Point| #![trigger frame_motion(id as nat, d)]
                sv == frame_motion(id as nat, d) implies false by {
                lemma_motion_frame_layout(sv, id as nat, d);
            }
            assert forall|iv: ImageView| #![trigger frame_newplayer(iv)]
                sv == frame_newplayer(iv) implies 10 <= sv.len() && sv.subrange(0, 10)
                == lit_newplayer() by {
                lemma_newplayer_frame_layout(sv, iv);
            }
        }
        let q1 = match eat_lit_newplayer(line, 0) {
            Some(q) => q,
            None => {
                return None;
            },
        };
        proof {
            assert forall|iv: ImageView| #![trigger frame_newplayer(iv)]
                sv == frame_newplayer(iv) implies q1 + enc_image(iv).len() <= sv.len()
                && sv.subrange(q1 as int, q1 + enc_image(iv).len()) == enc_image(iv) by {
                lemma_newplayer_frame_layout(sv, iv);
            }
        }
        let ri = parse_image(line, q1);
        let (img, q2) = match ri {
            Some(v) => v,
            None => {
                proof {
                    assert forall|iv: ImageView| #![trigger frame_newplayer(iv)]
                        sv == frame_newplayer(iv) && iv.width <= usize::MAX && iv.height
                        <= usize::MAX implies false by {
                        lemma_newplayer_frame_layout(sv, iv);
                        let jm = (q1 + enc_image(iv).len()) as usize;
                        assert(sv.subrange(q1 as int, jm as int) == enc_image(iv));
                        assert(enc_image(iv).len() >= 1);
                        assert(ri matches Some(v) && v.0@ == iv && v.1 == jm);
                    }
                }
                return None;
            },
        };
        if q2 == slen {
            proof {
                lemma_join(sv, 0, q1 as int, q2 as int);
                assert(sv.subrange(0, q2 as int) =~= sv);
                assert(sv =~= frame_newplayer(img@));
                assert forall|iv: ImageView| #![trigger frame_newplayer(iv)]
                    sv == frame_newplayer(iv) && iv.width <= usize::MAX && iv.height
                    <= usize::MAX implies img@ == iv by {
                    lemma_newplayer_frame_layout(sv, iv);
                    let jm = (q1 + enc_image(iv).len()) as usize;
                    assert(sv.subrange(q1 as int, jm as int) == enc_image(iv));
                    assert(enc_image(iv).len() >= 1);
                    assert(ri matches Some(v) && v.0@ == iv && v.1 == jm);
                }
            }
            return Some(Request::Newplayer(img));
        } else {
            proof {
                assert forall|iv: ImageView| #![trigger frame_newplayer(iv)]
                    sv == frame_newplayer(iv) && iv.width <= usize::MAX && iv.height
                    <= usize::MAX implies false by {
                    lemma_newplayer_frame_layout(sv, iv);
                    let jm = (q1 + enc_image(iv).len()) as usize;
                    assert(sv.subrange(q1 as int, jm as int) == enc_image(iv));
                    assert(enc_image(iv).len() >= 1);
                    assert(ri matches Some(v) && v.0@ == iv && v.1 == jm);
                }
            }
            return None;
        }
    }
    proof {
        assert forall|iv: ImageView| #![trigger frame_newplayer(iv)]
            sv == frame_newplayer(iv) implies false by {
            lemma_newplayer_frame_layout(sv, iv);
        }
        assert forall|id: usize, d: Point| #![trigger frame_motion(id as nat, d)]
            sv == frame_motion(id as nat, d) implies false by {
            lemma_motion_frame_layout(sv, id as nat, d);
        }
    }
    None
}

} // verus!
