//! Algebraic facts about cube states and moves.
use vstd::prelude::*;
use crate::face::{Face, Move, face_index, face_of_block, inverse_move, quarter_turns};
use crate::geometry::{
    facelet_count, move_source, turned_source, quarter_source_index,
    lemma_decode_encode, lemma_move_source_valid, lemma_quarter_index_four,
    lemma_turned_add, lemma_point_on_strip, point, encode, valid_coords,
};
use crate::cube::{solved_state, blocks_uniform, kept, masked, moved};

verus! {

/// The solved cube of side `n` has `6 * n * n` facelets and each of its
/// blocks is a single colour.
pub proof fn lemma_new_is_solved(n: int)
    requires
        n >= 1,
    ensures
        solved_state(n).len() == 6 * n * n,
        blocks_uniform(n, solved_state(n)),
{
    assert(6 * (n * n) == 6 * n * n) by (nonlinear_arith);
    assert forall|b: int, k: int| 0 <= b < 6 && 0 <= k < n * n implies #[trigger] solved_state(n)[b * (n * n) + k]
        == solved_state(n)[b * (n * n)] by {
        let nn = n * n;
        assert(nn >= 1) by (nonlinear_arith)
            requires
                nn == n * n,
                n >= 1,
        ;
        vstd::arithmetic::div_mod::lemma_fundamental_div_mod_converse(b * nn + k, nn, b, k);
        vstd::arithmetic::div_mod::lemma_fundamental_div_mod_converse(b * nn, nn, b, 0);
        assert(b * nn + k < 6 * nn) by (nonlinear_arith)
            requires
                0 <= b < 6,
                0 <= k < nn,
        ;
        assert(0 <= b * nn) by (nonlinear_arith)
            requires
                0 <= b,
                nn >= 1,
        ;
    }
}

/// Quarter turns depend only on the face and layers of a move, not on its
/// turn count.
proof fn lemma_turned_same_layers(n: int, m1: Move, m2: Move, t: nat, i: int)
    requires
        m1.face == m2.face,
        m1.first == m2.first,
        m1.last == m2.last,
    ensures
        turned_source(n, m1, t, i) == turned_source(n, m2, t, i),
    decreases t,
{
    if t > 0 {
        lemma_turned_same_layers(n, m1, m2, (t - 1) as nat, i);
    }
}

/// Four quarter turns, repeated `a` times, fix every index.
proof fn lemma_turned_multiple_of_four(n: int, m: Move, a: nat, i: int)
    requires
        n >= 1,
        0 <= i < facelet_count(n),
    ensures
        turned_source(n, m, 4 * a, i) == i,
    decreases a,
{
    if a > 0 {
        lemma_turned_multiple_of_four(n, m, (a - 1) as nat, i);
        lemma_turned_add(n, m, 4, (4 * (a - 1)) as nat, i);
        lemma_quarter_index_four(n, m, i);
        assert(4 + 4 * (a - 1) == 4 * a);
    }
}

/// Making `m1` and then `m2` takes each index's colour from
/// `move_source(m1, move_source(m2, i))`.
pub proof fn lemma_moved_twice(n: int, st: Seq<Face>, m1: Move, m2: Move)
    requires
        n >= 1,
        st.len() == facelet_count(n),
    ensures
        moved(n, moved(n, st, m1), m2) == Seq::new(
            st.len(),
            |i: int| st[move_source(n, m1, move_source(n, m2, i))],
        ),
{
    assert forall|i: int| 0 <= i < st.len() implies #[trigger] moved(n, moved(n, st, m1), m2)[i]
        == st[move_source(n, m1, move_source(n, m2, i))] by {
        lemma_move_source_valid(n, m2, i);
    }
    assert(moved(n, moved(n, st, m1), m2) =~= Seq::new(
        st.len(),
        |i: int| st[move_source(n, m1, move_source(n, m2, i))],
    ));
}

/// A move followed by its inverse gives back the state it started from.
pub proof fn lemma_inverse_round_trip(n: int, st: Seq<Face>, m: Move)
    requires
        n >= 1,
        st.len() == facelet_count(n),
    ensures
        moved(n, moved(n, st, m), inverse_move(m)) == st,
{
    let mi = inverse_move(m);
    let t = quarter_turns(m) as nat;
    let ti = quarter_turns(mi) as nat;
    assert(t + ti == 0 || t + ti == 4);
    lemma_moved_twice(n, st, m, mi);
    assert forall|i: int| 0 <= i < st.len() implies move_source(n, m, move_source(n, mi, i)) == i by {
        lemma_turned_same_layers(n, mi, m, ti, i);
        lemma_turned_add(n, m, t, ti, i);
        if t + ti == 4 {
            lemma_quarter_index_four(n, m, i);
        }
    }
    assert(moved(n, moved(n, st, m), mi) =~= st);
}

/// Any move made four times over gives back the state it started from; in
/// particular four quarter turns of one layer do.
pub proof fn lemma_four_times(n: int, st: Seq<Face>, m: Move)
    requires
        n >= 1,
        st.len() == facelet_count(n),
    ensures
        moved(n, moved(n, moved(n, moved(n, st, m), m), m), m) == st,
{
    let t = quarter_turns(m) as nat;
    let s1 = moved(n, st, m);
    let s2 = moved(n, s1, m);
    lemma_moved_twice(n, st, m, m);
    lemma_moved_twice(n, s2, m, m);
    assert forall|i: int| 0 <= i < st.len() implies #[trigger] moved(n, moved(n, s2, m), m)[i] == st[i] by {
        lemma_move_source_valid(n, m, i);
        let i1 = move_source(n, m, i);
        lemma_move_source_valid(n, m, i1);
        let i2 = move_source(n, m, i1);
        lemma_move_source_valid(n, m, i2);
        lemma_turned_add(n, m, t, t, i);
        lemma_turned_add(n, m, t, t + t, i);
        lemma_turned_add(n, m, t, t + t + t, i);
        lemma_turned_multiple_of_four(n, m, t, i);
        assert(t + (t + (t + t)) == 4 * t);
    }
    assert(moved(n, moved(n, s2, m), m) =~= st);
}

/// Masking with every index of the cube kept changes nothing.
pub proof fn lemma_mask_all_kept(st: Seq<Face>, keep: Seq<i32>)
    requires
        forall|i: int| 0 <= i < st.len() ==> kept(keep, i),
    ensures
        masked(st, keep) == st,
{
    assert(masked(st, keep) =~= st);
}

/// Masking with no index kept hides every facelet.
pub proof fn lemma_mask_none_kept(st: Seq<Face>)
    ensures
        masked(st, Seq::<i32>::empty()) == Seq::new(st.len(), |i: int| Face::X),
{
    assert(masked(st, Seq::<i32>::empty()) =~= Seq::new(st.len(), |i: int| Face::X));
}


/// One quarter turn carries the colour at layer `k`, position `j` of strip
/// `p` on to the next strip of the belt, when layer `k` turns.
proof fn lemma_strip_step(n: int, m: Move, p: int, k: int, j: int)
    requires
        face_index(m.face) < 6,
        0 <= p < 4,
        m.first <= k <= m.last,
        0 <= k < n,
        0 <= j < n,
    ensures
        ({
            let fc = face_index(m.face);
            let a = point(n, fc, p, k, j);
            let b = point(n, fc, (p + 3) % 4, k, j);
            quarter_source_index(n, m, encode(n, a.0, a.1, a.2)) == encode(n, b.0, b.1, b.2)
        }),
{
    let fc = face_index(m.face);
    let a = point(n, fc, p, k, j);
    lemma_point_on_strip(n, fc, p, k, j);
    lemma_decode_encode(n, a.0, a.1, a.2);
}

/// An index that one quarter turn leaves in place stays in place.
proof fn lemma_turned_fixed(n: int, m: Move, t: nat, i: int)
    requires
        quarter_source_index(n, m, i) == i,
    ensures
        turned_source(n, m, t, i) == i,
    decreases t,
{
    if t > 0 {
        lemma_turned_fixed(n, m, (t - 1) as nat, i);
    }
}

/// In the solved cube the facelet at `(f, r, c)` shows face `f`.
proof fn lemma_solved_colour(n: int, f: int, r: int, c: int)
    requires
        valid_coords(n, f, r, c),
    ensures
        solved_state(n)[encode(n, f, r, c)] == face_of_block(f),
{
    lemma_decode_encode(n, f, r, c);
}

/// Quarter turns carry the colour at layer `k`, position `j` of the first
/// strip of the belt round the belt, one strip per turn.
proof fn lemma_turned_along_strip(n: int, m: Move, t: nat, k: int, j: int)
    requires
        face_index(m.face) < 6,
        1 <= t <= 3,
        m.first <= k <= m.last,
        0 <= k < n,
        0 <= j < n,
    ensures
        ({
            let fc = face_index(m.face);
            let a = point(n, fc, 0, k, j);
            let b = point(n, fc, 4 - t, k, j);
            turned_source(n, m, t, encode(n, a.0, a.1, a.2)) == encode(n, b.0, b.1, b.2)
        }),
    decreases t,
{
    let fc = face_index(m.face);
    let a = point(n, fc, 0, k, j);
    reveal_with_fuel(turned_source, 2);
    if t == 1 {
        lemma_strip_step(n, m, 0, k, j);
    } else {
        lemma_turned_along_strip(n, m, (t - 1) as nat, k, j);
        lemma_strip_step(n, m, 5 - t, k, j);
    }
}

/// Two facelets of one block with different colours make the state
/// unsolved.
proof fn lemma_two_colours_in_block(n: int, st: Seq<Face>, f: int, r1: int, c1: int, r2: int, c2: int)
    requires
        valid_coords(n, f, r1, c1),
        valid_coords(n, f, r2, c2),
        st[encode(n, f, r1, c1)] != st[encode(n, f, r2, c2)],
    ensures
        !blocks_uniform(n, st),
{
    let nn = n * n;
    let x1 = r1 * n + c1;
    let x2 = r2 * n + c2;
    assert(0 <= x1 < nn && 0 <= x2 < nn) by (nonlinear_arith)
        requires
            x1 == r1 * n + c1,
            x2 == r2 * n + c2,
            nn == n * n,
            0 <= r1 < n,
            0 <= c1 < n,
            0 <= r2 < n,
            0 <= c2 < n,
    ;
    if blocks_uniform(n, st) {
        assert(st[f * nn + x1] == st[f * nn]);
        assert(st[f * nn + x2] == st[f * nn]);
    }
}

/// Turning some, but not all, layers of a face of a solved cube of side at
/// least 2, by a turn that is not a whole number of revolutions, leaves a
/// block of more than one colour.
pub proof fn lemma_partial_move_unsolves(n: int, m: Move)
    requires
        n >= 2,
        m.face != Face::X,
        quarter_turns(m) != 0,
        m.first <= m.last,
        m.first < n,
        !(m.first == 0 && m.last >= n - 1),
    ensures
        !blocks_uniform(n, moved(n, solved_state(n), m)),
{
    let fc = face_index(m.face);
    let k = m.first as int;
    let other = if m.first > 0 { 0 } else { n - 1 };
    let t = quarter_turns(m);
    let st = moved(n, solved_state(n), m);
    let a = point(n, fc, 0, k, 0);
    let b = point(n, fc, 0, other, 0);
    let src = point(n, fc, 4 - t, k, 0);
    lemma_point_on_strip(n, fc, 0, k, 0);
    lemma_point_on_strip(n, fc, 0, other, 0);
    lemma_point_on_strip(n, fc, 4 - t, k, 0);
    let ea = encode(n, a.0, a.1, a.2);
    let eb = encode(n, b.0, b.1, b.2);
    lemma_decode_encode(n, a.0, a.1, a.2);
    lemma_decode_encode(n, b.0, b.1, b.2);
    lemma_turned_fixed(n, m, t as nat, eb);
    lemma_solved_colour(n, b.0, b.1, b.2);
    lemma_turned_along_strip(n, m, t as nat, k, 0);
    lemma_solved_colour(n, src.0, src.1, src.2);
    assert(face_of_block(src.0) != face_of_block(b.0));
    lemma_two_colours_in_block(n, st, a.0, a.1, a.2, b.1, b.2);
}

} // verus!
