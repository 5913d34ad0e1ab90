//! Where each facelet comes from when a layer turns.
//!
//! A facelet is addressed by its face block `f` (0..6, in the order
//! U, R, F, D, L, B), its row `r` and its column `c` (both 0..n), and sits at
//! index `f * n * n + r * n + c` of the flat array. Each face is read as seen
//! from outside the cube: U with B above it, D with F above it, and the four
//! side faces with U above them.
//!
//! Turning the layers of a face carries four strips of facelets around the
//! side faces; for each turning face those four strips are listed below in
//! the order in which their contents travel.
use vstd::prelude::*;
use vstd::arithmetic::div_mod::lemma_fundamental_div_mod_converse;
use crate::face::{Move, face_index, quarter_turns};

verus! {

/// The face block across the cube from block `f`.
pub open spec fn opposite(f: int) -> int {
    if f < 3 {
        f + 3
    } else {
        f - 3
    }
}

/// Strip `p` (0..4) of the belt that turns with face `fc`, as
/// (face block, runs along a column, fixed coordinate equals the layer,
/// read in reverse).
///
/// Layer `k` of the strip lies on column (or row) `k` when the third
/// component holds and on `n - 1 - k` otherwise; position `j` along it lies
/// on row (or column) `j`, or `n - 1 - j` when the strip is reversed.
pub open spec fn strip(fc: int, p: int) -> (int, bool, bool, bool) {
    if fc == 0 {
        if p == 0 { (2, false, true, false) }
        else if p == 1 { (4, false, true, false) }
        else if p == 2 { (5, false, true, false) }
        else { (1, false, true, false) }
    } else if fc == 1 {
        if p == 0 { (2, true, false, false) }
        else if p == 1 { (0, true, false, false) }
        else if p == 2 { (5, true, true, true) }
        else { (3, true, false, false) }
    } else if fc == 2 {
        if p == 0 { (0, false, false, false) }
        else if p == 1 { (1, true, true, false) }
        else if p == 2 { (3, false, true, true) }
        else { (4, true, false, true) }
    } else if fc == 3 {
        if p == 0 { (2, false, false, false) }
        else if p == 1 { (1, false, false, false) }
        else if p == 2 { (5, false, false, false) }
        else { (4, false, false, false) }
    } else if fc == 4 {
        if p == 0 { (0, true, true, false) }
        else if p == 1 { (2, true, true, false) }
        else if p == 2 { (3, true, true, false) }
        else { (5, true, false, true) }
    } else {
        if p == 0 { (0, false, true, false) }
        else if p == 1 { (4, true, true, true) }
        else if p == 2 { (3, false, false, true) }
        else { (1, true, false, false) }
    }
}

/// Which strip of the belt of `fc` lies on face block `f`.
pub open spec fn side_pos(fc: int, f: int) -> int {
    if strip(fc, 0).0 == f {
        0
    } else if strip(fc, 1).0 == f {
        1
    } else if strip(fc, 2).0 == f {
        2
    } else {
        3
    }
}

/// The facelet at layer `k`, position `j` of strip `p` of the belt of `fc`.
pub open spec fn point(n: int, fc: int, p: int, k: int, j: int) -> (int, int, int) {
    let s = strip(fc, p);
    let fixed = if s.2 { k } else { n - 1 - k };
    let along = if s.3 { n - 1 - j } else { j };
    if s.1 {
        (s.0, along, fixed)
    } else {
        (s.0, fixed, along)
    }
}

/// Layer and position of the facelet at row `r`, column `c` of strip `p`.
pub open spec fn strip_coords(n: int, fc: int, p: int, r: int, c: int) -> (int, int) {
    let s = strip(fc, p);
    let fixed = if s.1 { c } else { r };
    let along = if s.1 { r } else { c };
    (if s.2 { fixed } else { n - 1 - fixed }, if s.3 { n - 1 - along } else { along })
}

/// The facelet whose colour arrives at `(f, r, c)` after one clockwise
/// quarter turn of the layers `m.first..=m.last` of `m.face`.
pub open spec fn quarter_source(n: int, m: Move, f: int, r: int, c: int) -> (int, int, int) {
    let fc = face_index(m.face);
    if fc == 6 {
        (f, r, c)
    } else if f == fc {
        if m.first == 0 {
            (f, n - 1 - c, r)
        } else {
            (f, r, c)
        }
    } else if f == opposite(fc) {
        if m.first <= n - 1 <= m.last {
            (f, c, n - 1 - r)
        } else {
            (f, r, c)
        }
    } else {
        let p = side_pos(fc, f);
        let kj = strip_coords(n, fc, p, r, c);
        if m.first <= kj.0 <= m.last {
            point(n, fc, (p + 3) % 4, kj.0, kj.1)
        } else {
            (f, r, c)
        }
    }
}

/// Flat index of the facelet at `(f, r, c)`.
pub open spec fn encode(n: int, f: int, r: int, c: int) -> int {
    f * (n * n) + r * n + c
}

/// Face block, row and column of flat index `i`.
pub open spec fn decode(n: int, i: int) -> (int, int, int) {
    (i / (n * n), (i % (n * n)) / n, (i % (n * n)) % n)
}

/// Number of facelets of a cube of side `n`.
pub open spec fn facelet_count(n: int) -> int {
    6 * (n * n)
}

/// Flat index whose colour arrives at index `i` after one quarter turn.
pub open spec fn quarter_source_index(n: int, m: Move, i: int) -> int {
    let d = decode(n, i);
    let s = quarter_source(n, m, d.0, d.1, d.2);
    encode(n, s.0, s.1, s.2)
}

/// Flat index whose colour arrives at index `i` after `t` quarter turns.
pub open spec fn turned_source(n: int, m: Move, t: nat, i: int) -> int
    decreases t,
{
    if t == 0 {
        i
    } else {
        quarter_source_index(n, m, turned_source(n, m, (t - 1) as nat, i))
    }
}

/// Flat index whose colour arrives at index `i` when move `m` is made.
pub open spec fn move_source(n: int, m: Move, i: int) -> int {
    turned_source(n, m, quarter_turns(m) as nat, i)
}

pub open spec fn valid_coords(n: int, f: int, r: int, c: int) -> bool {
    0 <= f < 6 && 0 <= r < n && 0 <= c < n
}

pub proof fn lemma_point_on_strip(n: int, fc: int, p: int, k: int, j: int)
    requires
        0 <= fc < 6,
        0 <= p < 4,
        0 <= k < n,
        0 <= j < n,
    ensures
        ({
            let q = point(n, fc, p, k, j);
            &&& valid_coords(n, q.0, q.1, q.2)
            &&& q.0 != fc
            &&& q.0 != opposite(fc)
            &&& side_pos(fc, q.0) == p
            &&& strip_coords(n, fc, p, q.1, q.2) == (k, j)
        }),
{
}

pub proof fn lemma_strip_of_side(n: int, fc: int, f: int, r: int, c: int)
    requires
        0 <= fc < 6,
        valid_coords(n, f, r, c),
        f != fc,
        f != opposite(fc),
    ensures
        ({
            let p = side_pos(fc, f);
            let kj = strip_coords(n, fc, p, r, c);
            &&& 0 <= p < 4
            &&& 0 <= kj.0 < n
            &&& 0 <= kj.1 < n
            &&& point(n, fc, p, kj.0, kj.1) == (f, r, c)
        }),
{
}

/// A quarter turn takes each facelet's colour from a facelet of the cube.
pub proof fn lemma_quarter_source_valid(n: int, m: Move, f: int, r: int, c: int)
    requires
        valid_coords(n, f, r, c),
    ensures
        ({
            let s = quarter_source(n, m, f, r, c);
            valid_coords(n, s.0, s.1, s.2)
        }),
{
    let fc = face_index(m.face);
    if fc != 6 && f != fc && f != opposite(fc) {
        lemma_strip_of_side(n, fc, f, r, c);
        let p = side_pos(fc, f);
        let kj = strip_coords(n, fc, p, r, c);
        lemma_point_on_strip(n, fc, (p + 3) % 4, kj.0, kj.1);
    }
}


/// Four quarter turns of the same layers bring every facelet back.
pub proof fn lemma_quarter_four(n: int, m: Move, f: int, r: int, c: int)
    requires
        valid_coords(n, f, r, c),
    ensures
        ({
            let s1 = quarter_source(n, m, f, r, c);
            let s2 = quarter_source(n, m, s1.0, s1.1, s1.2);
            let s3 = quarter_source(n, m, s2.0, s2.1, s2.2);
            quarter_source(n, m, s3.0, s3.1, s3.2) == (f, r, c)
        }),
{
    let fc = face_index(m.face);
    if fc != 6 && f != fc && f != opposite(fc) {
        lemma_strip_of_side(n, fc, f, r, c);
        let p = side_pos(fc, f);
        let kj = strip_coords(n, fc, p, r, c);
        if m.first <= kj.0 <= m.last {
            let prev1 = (p + 3) % 4;
            let prev2 = (prev1 + 3) % 4;
            let prev3 = (prev2 + 3) % 4;
            lemma_point_on_strip(n, fc, prev1, kj.0, kj.1);
            lemma_point_on_strip(n, fc, prev2, kj.0, kj.1);
            lemma_point_on_strip(n, fc, prev3, kj.0, kj.1);
            assert((prev3 + 3) % 4 == p);
        }
    }
}


/// Decoding an encoded facelet gives it back.
pub proof fn lemma_decode_encode(n: int, f: int, r: int, c: int)
    requires
        valid_coords(n, f, r, c),
    ensures
        decode(n, encode(n, f, r, c)) == (f, r, c),
        0 <= encode(n, f, r, c) < facelet_count(n),
{
    let x = r * n + c;
    assert(0 <= x < n * n) by (nonlinear_arith)
        requires
            x == r * n + c,
            0 <= r < n,
            0 <= c < n,
    ;
    lemma_fundamental_div_mod_converse(f * (n * n) + x, n * n, f, x);
    lemma_fundamental_div_mod_converse(x, n, r, c);
    assert(f * (n * n) + x < 6 * (n * n)) by (nonlinear_arith)
        requires
            0 <= f < 6,
            0 <= x < n * n,
    ;
}

/// Every index of the array decodes to a facelet and encodes back.
pub proof fn lemma_encode_decode(n: int, i: int)
    requires
        n >= 1,
        0 <= i < facelet_count(n),
    ensures
        ({
            let d = decode(n, i);
            valid_coords(n, d.0, d.1, d.2) && encode(n, d.0, d.1, d.2) == i
        }),
{
    let nn = n * n;
    assert(nn >= 1) by (nonlinear_arith)
        requires
            nn == n * n,
            n >= 1,
    ;
    vstd::arithmetic::div_mod::lemma_fundamental_div_mod(i, nn);
    vstd::arithmetic::div_mod::lemma_fundamental_div_mod(i % nn, n);
    let f = i / nn;
    let x = i % nn;
    assert(0 <= x < nn);
    assert(0 <= f < 6) by (nonlinear_arith)
        requires
            i == nn * f + x,
            0 <= x < nn,
            0 <= i < 6 * nn,
    ;
    assert(0 <= x / n < n) by (nonlinear_arith)
        requires
            x == n * (x / n) + x % n,
            0 <= x % n < n,
            0 <= x < n * n,
            n >= 1,
    ;
    assert(0 <= x % n < n);
    assert(encode(n, f, x / n, x % n) == i) by (nonlinear_arith)
        requires
            i == nn * f + x,
            x == n * (x / n) + x % n,
            nn == n * n,
    ;
}

/// A quarter turn takes each index's colour from an index of the array.
pub proof fn lemma_quarter_index_valid(n: int, m: Move, i: int)
    requires
        n >= 1,
        0 <= i < facelet_count(n),
    ensures
        0 <= quarter_source_index(n, m, i) < facelet_count(n),
{
    lemma_encode_decode(n, i);
    let d = decode(n, i);
    lemma_quarter_source_valid(n, m, d.0, d.1, d.2);
    let s = quarter_source(n, m, d.0, d.1, d.2);
    lemma_decode_encode(n, s.0, s.1, s.2);
}

/// After any number of quarter turns each index's colour comes from an
/// index of the array.
pub proof fn lemma_turned_valid(n: int, m: Move, t: nat, i: int)
    requires
        n >= 1,
        0 <= i < facelet_count(n),
    ensures
        0 <= turned_source(n, m, t, i) < facelet_count(n),
    decreases t,
{
    if t > 0 {
        lemma_turned_valid(n, m, (t - 1) as nat, i);
        lemma_quarter_index_valid(n, m, turned_source(n, m, (t - 1) as nat, i));
    }
}

/// A move takes each index's colour from an index of the array.
pub proof fn lemma_move_source_valid(n: int, m: Move, i: int)
    requires
        n >= 1,
        0 <= i < facelet_count(n),
    ensures
        0 <= move_source(n, m, i) < facelet_count(n),
{
    lemma_turned_valid(n, m, quarter_turns(m) as nat, i);
}

/// Four quarter turns of the same layers fix every index.
pub proof fn lemma_quarter_index_four(n: int, m: Move, i: int)
    requires
        n >= 1,
        0 <= i < facelet_count(n),
    ensures
        turned_source(n, m, 4, i) == i,
{
    reveal_with_fuel(turned_source, 5);
    lemma_encode_decode(n, i);
    let d = decode(n, i);
    lemma_quarter_four(n, m, d.0, d.1, d.2);
    let s1 = quarter_source(n, m, d.0, d.1, d.2);
    lemma_quarter_source_valid(n, m, d.0, d.1, d.2);
    lemma_decode_encode(n, s1.0, s1.1, s1.2);
    let s2 = quarter_source(n, m, s1.0, s1.1, s1.2);
    lemma_quarter_source_valid(n, m, s1.0, s1.1, s1.2);
    lemma_decode_encode(n, s2.0, s2.1, s2.2);
    let s3 = quarter_source(n, m, s2.0, s2.1, s2.2);
    lemma_quarter_source_valid(n, m, s2.0, s2.1, s2.2);
    lemma_decode_encode(n, s3.0, s3.1, s3.2);
}

/// Turning `a` quarter turns after `b` is turning `a + b`.
pub proof fn lemma_turned_add(n: int, m: Move, a: nat, b: nat, i: int)
    ensures
        turned_source(n, m, a, turned_source(n, m, b, i)) == turned_source(n, m, a + b, i),
    decreases a,
{
    if a > 0 {
        lemma_turned_add(n, m, (a - 1) as nat, b, i);
        assert((a + b - 1) as nat == ((a - 1) as nat + b) as nat);
    }
}


fn strip_of(fc: usize, p: usize) -> (r: (usize, bool, bool, bool))
    requires
        fc < 6,
        p < 4,
    ensures
        r.0 as int == strip(fc as int, p as int).0,
        r.1 == strip(fc as int, p as int).1,
        r.2 == strip(fc as int, p as int).2,
        r.3 == strip(fc as int, p as int).3,
{
    if fc == 0 {
        if p == 0 { (2, false, true, false) }
        else if p == 1 { (4, false, true, false) }
        else if p == 2 { (5, false, true, false) }
        else { (1, false, true, false) }
    } else if fc == 1 {
        if p == 0 { (2, true, false, false) }
        else if p == 1 { (0, true, false, false) }
        else if p == 2 { (5, true, true, true) }
        else { (3, true, false, false) }
    } else if fc == 2 {
        if p == 0 { (0, false, false, false) }
        else if p == 1 { (1, true, true, false) }
        else if p == 2 { (3, false, true, true) }
        else { (4, true, false, true) }
    } else if fc == 3 {
        if p == 0 { (2, false, false, false) }
        else if p == 1 { (1, false, false, false) }
        else if p == 2 { (5, false, false, false) }
        else { (4, false, false, false) }
    } else if fc == 4 {
        if p == 0 { (0, true, true, false) }
        else if p == 1 { (2, true, true, false) }
        else if p == 2 { (3, true, true, false) }
        else { (5, true, false, true) }
    } else {
        if p == 0 { (0, false, true, false) }
        else if p == 1 { (4, true, true, true) }
        else if p == 2 { (3, false, false, true) }
        else { (1, true, false, false) }
    }
}

/// Flat index of `(f, r, c)`, computed without overflow.
fn encode_index(n: usize, f: usize, r: usize, c: usize) -> (i: usize)
    requires
        valid_coords(n as int, f as int, r as int, c as int),
        facelet_count(n as int) <= usize::MAX,
    ensures
        i as int == encode(n as int, f as int, r as int, c as int),
{
    proof {
        lemma_decode_encode(n as int, f as int, r as int, c as int);
        assert(0 <= f * (n * n) <= f * (n * n) + r * n && 0 <= r * n) by (nonlinear_arith)
            requires
                0 <= f,
                0 <= r,
                0 <= n,
        ;
    }
    f * (n * n) + r * n + c
}

/// The index whose colour arrives at index `i` after one quarter turn of `m`
/// on a cube of side `n`.
pub fn quarter_source_at(n: usize, m: &Move, i: usize) -> (s: usize)
    requires
        n >= 1,
        facelet_count(n as int) <= usize::MAX,
        i < facelet_count(n as int),
    ensures
        s as int == quarter_source_index(n as int, *m, i as int),
        s < facelet_count(n as int),
{
    proof {
        lemma_encode_decode(n as int, i as int);
        lemma_quarter_index_valid(n as int, *m, i as int);
        assert(n * n <= facelet_count(n as int));
    }
    let nn = n * n;
    let f = i / nn;
    let x = i % nn;
    let r = x / n;
    let c = x % n;
    let fc = m.face.index();
    if fc == 6 {
        return i;
    }
    let opp = if fc < 3 { fc + 3 } else { fc - 3 };
    if f == fc {
        if m.first == 0 {
            encode_index(n, f, n - 1 - c, r)
        } else {
            i
        }
    } else if f == opp {
        if m.first <= n - 1 && n - 1 <= m.last {
            encode_index(n, f, c, n - 1 - r)
        } else {
            i
        }
    } else {
        proof {
            lemma_strip_of_side(n as int, fc as int, f as int, r as int, c as int);
        }
        let p: usize = if strip_of(fc, 0).0 == f {
            0
        } else if strip_of(fc, 1).0 == f {
            1
        } else if strip_of(fc, 2).0 == f {
            2
        } else {
            3
        };
        let here = strip_of(fc, p);
        let fixed = if here.1 { c } else { r };
        let along = if here.1 { r } else { c };
        let k = if here.2 { fixed } else { n - 1 - fixed };
        let j = if here.3 { n - 1 - along } else { along };
        if m.first <= k && k <= m.last {
            let q = (p + 3) % 4;
            proof {
                lemma_point_on_strip(n as int, fc as int, q as int, k as int, j as int);
            }
            let there = strip_of(fc, q);
            let tfixed = if there.2 { k } else { n - 1 - k };
            let talong = if there.3 { n - 1 - j } else { j };
            if there.1 {
                encode_index(n, there.0, talong, tfixed)
            } else {
                encode_index(n, there.0, tfixed, talong)
            }
        } else {
            i
        }
    }
}

/// The index whose colour arrives at index `i` when `m` is made on a cube of
/// side `n`.
pub fn move_source_at(n: usize, m: &Move, i: usize) -> (s: usize)
    requires
        n >= 1,
        facelet_count(n as int) <= usize::MAX,
        i < facelet_count(n as int),
    ensures
        s as int == move_source(n as int, *m, i as int),
        s < facelet_count(n as int),
{
    let t = m.turns % 4;
    let mut s = i;
    let mut done: u8 = 0;
    while done < t
        invariant
            done <= t,
            t as int == quarter_turns(*m),
            s as int == turned_source(n as int, *m, done as nat, i as int),
            s < facelet_count(n as int),
            n >= 1,
            facelet_count(n as int) <= usize::MAX,
        decreases t - done,
    {
        s = quarter_source_at(n, m, s);
        done = done + 1;
    }
    s
}


/// The permutation table of `m` on a cube of side `n`: one
/// `(source, destination)` pair for each facelet that the move displaces,
/// in increasing order of destination.
pub fn permutation(n: usize, m: &Move) -> (t: Vec<(usize, usize)>)
    requires
        n >= 1,
        facelet_count(n as int) <= usize::MAX,
    ensures
        forall|a: int, b: int| 0 <= a < b < t@.len() ==> t@[a].1 < t@[b].1,
        forall|a: int|
            0 <= a < t@.len() ==> {
                &&& t@[a].1 < facelet_count(n as int)
                &&& t@[a].0 as int == move_source(n as int, *m, t@[a].1 as int)
                &&& t@[a].0 != t@[a].1
            },
        forall|i: int|
            0 <= i < facelet_count(n as int) && move_source(n as int, *m, i) != i ==> exists|a: int|
                0 <= a < t@.len() && #[trigger] t@[a].1 == i,
{
    let total = 6 * (n * n);
    let mut t: Vec<(usize, usize)> = Vec::new();
    let mut i: usize = 0;
    while i < total
        invariant
            i <= total,
            total == facelet_count(n as int),
            n >= 1,
            facelet_count(n as int) <= usize::MAX,
            forall|a: int, b: int| 0 <= a < b < t@.len() ==> t@[a].1 < t@[b].1,
            forall|a: int|
                0 <= a < t@.len() ==> {
                    &&& t@[a].1 < i
                    &&& t@[a].0 as int == move_source(n as int, *m, t@[a].1 as int)
                    &&& t@[a].0 != t@[a].1
                },
            forall|i2: int|
                0 <= i2 < i && move_source(n as int, *m, i2) != i2 ==> exists|a: int|
                    0 <= a < t@.len() && #[trigger] t@[a].1 == i2,
        decreases total - i,
    {
        let s = move_source_at(n, m, i);
        let ghost before = t@;
        if s != i {
            t.push((s, i));
            assert(t@[t@.len() - 1].1 == i);
        }
        assert forall|i2: int|
            0 <= i2 < i + 1 && move_source(n as int, *m, i2) != i2 implies exists|a: int|
                0 <= a < t@.len() && #[trigger] t@[a].1 == i2 by {
            if i2 < i {
                let a = choose|a: int| 0 <= a < before.len() && #[trigger] before[a].1 == i2;
                assert(t@[a] == before[a]);
            } else {
                assert(t@[t@.len() - 1].1 == i2);
            }
        }
        i = i + 1;
    }
    t
}

} // verus!
