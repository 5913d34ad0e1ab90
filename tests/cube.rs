use facelet_cube::cube::{Cube, FaceletCube};
use facelet_cube::face::{Face, Move};
use facelet_cube::geometry::permutation;

fn mv(face: Face, first: usize, last: usize, turns: u8) -> Move {
    Move { face, first, last, turns }
}

fn q(face: Face) -> Move {
    Move::quarter(face)
}

fn apply_all(c: &FaceletCube, moves: &[Move]) -> FaceletCube {
    let mut out = c.clone();
    for m in moves {
        out = out.apply_move(*m);
    }
    out
}

/// A state with many distinct colour patterns, from a fixed sequence of moves.
fn scrambled(size: i32) -> FaceletCube {
    let n = size as usize;
    let seq = [
        mv(Face::R, 0, 0, 1),
        mv(Face::U, 0, 0, 1),
        mv(Face::F, 0, 0, 2),
        mv(Face::L, 0, 0, 3),
        mv(Face::D, 0, n.saturating_sub(2), 1),
        mv(Face::B, 0, 0, 1),
        mv(Face::R, n / 2, n / 2, 1),
        mv(Face::U, 1, 1, 3),
    ];
    apply_all(&FaceletCube::new(size), &seq)
}

const ALL_FACES: [Face; 6] = [Face::U, Face::R, Face::F, Face::D, Face::L, Face::B];

#[test]
fn new_cube_is_solved_with_full_length() {
    for size in 1..=6 {
        let c = FaceletCube::new(size);
        assert_eq!(c.size(), size);
        assert_eq!(c.get_state().len(), (6 * size * size) as usize);
        assert!(c.is_solved());
    }
}

#[test]
fn new_cube_blocks_in_canonical_order() {
    let c = FaceletCube::new(3);
    let s = c.get_state();
    for (b, f) in ALL_FACES.iter().enumerate() {
        for k in 0..9 {
            assert_eq!(s[b * 9 + k], *f);
        }
    }
}

#[test]
fn get_state_is_a_copy() {
    let c = FaceletCube::new(2);
    let mut s = c.get_state();
    s[0] = Face::X;
    assert_eq!(c.get_state()[0], Face::U);
    assert!(c.is_solved());
}

#[test]
fn u_turn_size3_exact_table() {
    let t = permutation(3, &q(Face::U));
    let expected: Vec<(usize, usize)> = vec![
        (6, 0), (3, 1), (0, 2), (7, 3), (1, 5), (8, 6), (5, 7), (2, 8),
        (45, 9), (46, 10), (47, 11),
        (9, 18), (10, 19), (11, 20),
        (18, 36), (19, 37), (20, 38),
        (36, 45), (37, 46), (38, 47),
    ];
    assert_eq!(t, expected);
}

#[test]
fn u_turn_size3_state_diff() {
    let c = FaceletCube::new(3);
    let s0 = c.get_state();
    let s1 = c.apply_move(q(Face::U)).get_state();
    let mut changed = Vec::new();
    for i in 0..54 {
        if s0[i] != s1[i] {
            changed.push(i);
        }
    }
    assert_eq!(changed, vec![9, 10, 11, 18, 19, 20, 36, 37, 38, 45, 46, 47]);
    for i in 0..9 {
        assert_eq!(s1[i], Face::U);
    }
    for i in 18..21 {
        assert_eq!(s1[i], Face::R);
    }
    for i in 9..12 {
        assert_eq!(s1[i], Face::B);
    }
    for i in 36..39 {
        assert_eq!(s1[i], Face::F);
    }
    for i in 45..48 {
        assert_eq!(s1[i], Face::L);
    }
    // Down block and lower two rows of the sides are untouched
    for i in 27..36 {
        assert_eq!(s1[i], Face::D);
    }
}

#[test]
fn u_turn_rotates_up_face_stickers() {
    // Mark the Up face through a mask on a turned cube, then turn U: the
    // facelet at index 0 lands on index 2, as a clockwise turn moves the
    // back-left corner to the back-right.
    let c = FaceletCube::new(3).mask(&[0]);
    let s = c.apply_move(q(Face::U)).get_state();
    assert_eq!(s[2], Face::U);
    for i in 0..54 {
        if i != 2 {
            assert_eq!(s[i], Face::X);
        }
    }
}

#[test]
fn f_turn_size3_moves_up_row_to_right_column() {
    let s = FaceletCube::new(3).apply_move(q(Face::F)).get_state();
    // Right's left column shows Up
    assert_eq!(s[9], Face::U);
    assert_eq!(s[12], Face::U);
    assert_eq!(s[15], Face::U);
    // Up's bottom row shows Left
    assert_eq!(s[6], Face::L);
    assert_eq!(s[7], Face::L);
    assert_eq!(s[8], Face::L);
    // Down's top row shows Right, Left's right column shows Down
    assert_eq!(s[27], Face::R);
    assert_eq!(s[29], Face::R);
    assert_eq!(s[38], Face::D);
    assert_eq!(s[44], Face::D);
    // Back is untouched
    for i in 45..54 {
        assert_eq!(s[i], Face::B);
    }
}

#[test]
fn r_turn_size3_moves_front_column_up() {
    let s = FaceletCube::new(3).apply_move(q(Face::R)).get_state();
    assert_eq!(s[2], Face::F);
    assert_eq!(s[5], Face::F);
    assert_eq!(s[8], Face::F);
    assert_eq!(s[20], Face::D);
    assert_eq!(s[45], Face::U);
    assert_eq!(s[51], Face::U);
    assert_eq!(s[29], Face::B);
    for i in 36..45 {
        assert_eq!(s[i], Face::L);
    }
}

#[test]
fn inverse_round_trip_all_moves() {
    for size in 1..=4 {
        let n = size as usize;
        let s = scrambled(size);
        for f in ALL_FACES {
            for first in 0..n {
                for last in first..n {
                    for turns in 0..6u8 {
                        let m = mv(f, first, last, turns);
                        let back = s.apply_move(m).apply_move(m.inverse());
                        assert_eq!(back.get_state(), s.get_state());
                    }
                }
            }
        }
    }
}

#[test]
fn inverse_values() {
    assert_eq!(mv(Face::R, 0, 0, 1).inverse(), mv(Face::R, 0, 0, 3));
    assert_eq!(mv(Face::R, 0, 1, 2).inverse(), mv(Face::R, 0, 1, 2));
    assert_eq!(mv(Face::B, 1, 1, 3).inverse(), mv(Face::B, 1, 1, 1));
    assert_eq!(mv(Face::D, 0, 0, 4).inverse(), mv(Face::D, 0, 0, 0));
}

#[test]
fn four_quarter_turns_are_identity() {
    for size in 1..=5 {
        let n = size as usize;
        let s = scrambled(size);
        for f in ALL_FACES {
            for layer in 0..n {
                let m = mv(f, layer, layer, 1);
                let back = apply_all(&s, &[m, m, m, m]);
                assert_eq!(back.get_state(), s.get_state());
                let once = s.apply_move(m);
                assert_ne!(once.get_state(), s.get_state());
            }
        }
    }
}

#[test]
fn three_quarter_turns_equal_one_inverse() {
    let s = scrambled(3);
    let a = apply_all(&s, &[q(Face::F), q(Face::F), q(Face::F)]);
    let b = s.apply_move(mv(Face::F, 0, 0, 3));
    assert_eq!(a.get_state(), b.get_state());
    let c = s.apply_move(mv(Face::F, 0, 0, 7));
    assert_eq!(c.get_state(), b.get_state());
}

#[test]
fn commutator_has_order_six() {
    let pairs = [
        (Face::R, Face::U),
        (Face::F, Face::L),
        (Face::B, Face::D),
        (Face::L, Face::U),
        (Face::F, Face::R),
        (Face::B, Face::L),
        (Face::D, Face::R),
    ];
    for (a, b) in pairs {
        let seq = [q(a), q(b), q(a).inverse(), q(b).inverse()];
        let start = FaceletCube::new(3);
        let mut c = start.clone();
        for k in 1..=6 {
            c = apply_all(&c, &seq);
            if k < 6 {
                assert!(!c.is_solved());
            }
        }
        assert_eq!(c.get_state(), start.get_state());
    }
}

#[test]
fn r_u_has_order_105() {
    let start = FaceletCube::new(3);
    let mut c = start.clone();
    for k in 1..=105 {
        c = apply_all(&c, &[q(Face::R), q(Face::U)]);
        if k < 105 {
            assert_ne!(c.get_state(), start.get_state());
        }
    }
    assert_eq!(c.get_state(), start.get_state());
}

#[test]
fn opposite_face_turns_match_slices() {
    // turning every layer of U clockwise is turning every layer of D anticlockwise
    for size in 1..=4 {
        let n = size as usize;
        let s = scrambled(size);
        let a = s.apply_move(mv(Face::U, 0, n - 1, 1));
        let b = s.apply_move(mv(Face::D, 0, n - 1, 3));
        assert_eq!(a.get_state(), b.get_state());
        let a = s.apply_move(mv(Face::R, 0, n - 1, 1));
        let b = s.apply_move(mv(Face::L, 0, n - 1, 3));
        assert_eq!(a.get_state(), b.get_state());
        let a = s.apply_move(mv(Face::F, 0, n - 1, 1));
        let b = s.apply_move(mv(Face::B, 0, n - 1, 3));
        assert_eq!(a.get_state(), b.get_state());
    }
}

#[test]
fn layer_range_is_composition_of_layers() {
    let s = scrambled(4);
    for f in ALL_FACES {
        let a = s.apply_move(mv(f, 1, 2, 1));
        let b = apply_all(&s, &[mv(f, 1, 1, 1), mv(f, 2, 2, 1)]);
        assert_eq!(a.get_state(), b.get_state());
    }
}

#[test]
fn mask_with_every_index_keeps_state() {
    let s = scrambled(3);
    let all: Vec<i32> = (0..54).collect();
    assert_eq!(s.mask(&all).get_state(), s.get_state());
    let reversed: Vec<i32> = (0..54).rev().collect();
    assert_eq!(s.mask(&reversed).get_state(), s.get_state());
}

#[test]
fn mask_with_no_index_hides_all() {
    let s = scrambled(3);
    let m = s.mask(&[]);
    assert_eq!(m.size(), 3);
    assert!(m.get_state().iter().all(|f| *f == Face::X));
    assert_eq!(m.get_state().len(), 54);
}

#[test]
fn mask_partial_duplicates_and_out_of_range() {
    let c = FaceletCube::new(2);
    let m = c.mask(&[5, 0, 5, -1, 24, 1000, 23]);
    let s = m.get_state();
    for i in 0..24 {
        let expected = match i {
            0 => Face::U,
            5 => Face::R,
            23 => Face::B,
            _ => Face::X,
        };
        assert_eq!(s[i], expected);
    }
    // the receiver is unchanged
    assert!(c.is_solved());
}

#[test]
fn masked_solved_cube_stays_solved_when_whole_blocks_kept() {
    let c = FaceletCube::new(2);
    let keep: Vec<i32> = (0..4).collect();
    assert!(c.mask(&keep).is_solved());
    assert!(!c.mask(&[0]).is_solved());
}

#[test]
fn nontrivial_move_unsolves() {
    for size in 2..=5 {
        let n = size as usize;
        let c = FaceletCube::new(size);
        for f in ALL_FACES {
            for first in 0..n {
                for last in first..n {
                    if first == 0 && last == n - 1 {
                        continue;
                    }
                    for turns in 1..4u8 {
                        assert!(!c.apply_move(mv(f, first, last, turns)).is_solved());
                    }
                }
            }
        }
    }
}

#[test]
fn whole_cube_rotation_keeps_blocks_uniform() {
    let c = FaceletCube::new(3);
    let r = c.apply_move(mv(Face::U, 0, 2, 1));
    assert!(r.is_solved());
    assert_ne!(r.get_state(), c.get_state());
    assert_eq!(r.get_state()[18], Face::R);
}

#[test]
fn trivial_moves_change_nothing() {
    let s = scrambled(3);
    for m in [
        mv(Face::X, 0, 2, 1),
        mv(Face::U, 0, 2, 0),
        mv(Face::U, 0, 2, 4),
        mv(Face::R, 3, 9, 1),
        mv(Face::F, 2, 1, 1),
    ] {
        assert_eq!(s.apply_move(m).get_state(), s.get_state());
    }
    assert!(permutation(3, &mv(Face::X, 0, 0, 1)).is_empty());
}

#[test]
fn size_two_single_layer_moves() {
    let c = FaceletCube::new(2);
    for f in ALL_FACES {
        for layer in 0..2 {
            let m = mv(f, layer, layer, 1);
            let t = permutation(2, &m);
            // a face of four facelets plus four strips of two
            assert_eq!(t.len(), 12);
            let r = c.apply_move(m);
            let s = r.get_state();
            assert_eq!(s.len(), 24);
            for g in ALL_FACES {
                assert_eq!(s.iter().filter(|x| **x == g).count(), 4);
            }
            assert!(!r.is_solved());
            assert!(r.apply_move(m.inverse()).is_solved());
        }
    }
}

#[test]
fn size_one_cube() {
    let c = FaceletCube::new(1);
    assert_eq!(c.get_state(), vec![Face::U, Face::R, Face::F, Face::D, Face::L, Face::B]);
    let r = c.apply_move(q(Face::U));
    assert_eq!(r.get_state(), vec![Face::U, Face::B, Face::R, Face::D, Face::F, Face::L]);
    assert!(r.is_solved());
}

#[test]
fn apply_permutation_reads_before_writes() {
    let c = FaceletCube::new(1);
    // a three-cycle R -> F -> L -> R
    let r = c.apply_permutation(&[(1, 2), (2, 4), (4, 1)]);
    assert_eq!(r.get_state(), vec![Face::U, Face::L, Face::R, Face::D, Face::F, Face::B]);
    let same = c.apply_permutation(&[]);
    assert_eq!(same.get_state(), c.get_state());
}

#[test]
fn permutation_tables_are_well_formed() {
    for size in 1..=4usize {
        let total = 6 * size * size;
        for f in ALL_FACES {
            for turns in 1..4u8 {
                let t = permutation(size, &mv(f, 0, size - 1, turns));
                let mut seen = vec![false; total];
                for (s, d) in &t {
                    assert!(*s < total && *d < total && s != d);
                    assert!(!seen[*d]);
                    seen[*d] = true;
                }
            }
        }
    }
}

#[test]
fn face_indices() {
    for (b, f) in ALL_FACES.iter().enumerate() {
        assert_eq!(f.index(), b);
        assert_eq!(Face::from_block(b), *f);
    }
    assert_eq!(Face::X.index(), 6);
    assert_eq!(Face::from_block(6), Face::X);
}

#[test]
fn checked_replay_rejects_malformed_tables() {
    let c = FaceletCube::new(1);
    assert!(c.try_apply_permutation(&[(0, 6)]).is_none());
    assert!(c.try_apply_permutation(&[(9, 0)]).is_none());
    assert!(c.try_apply_permutation(&[(0, 1), (2, 1)]).is_none());
    let ok = c.try_apply_permutation(&[(1, 2), (2, 4), (4, 1)]).unwrap();
    assert_eq!(ok.get_state(), vec![Face::U, Face::L, Face::R, Face::D, Face::F, Face::B]);
    assert_eq!(c.try_apply_permutation(&[]).unwrap().get_state(), c.get_state());
}

#[test]
fn move_is_replay_of_its_table() {
    let s = scrambled(4);
    for f in ALL_FACES {
        let m = mv(f, 0, 1, 2);
        let t = permutation(4, &m);
        assert_eq!(s.apply_permutation(&t).get_state(), s.apply_move(m).get_state());
        assert_eq!(s.try_apply_permutation(&t).unwrap().get_state(), s.apply_move(m).get_state());
    }
}
