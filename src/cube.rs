//! The facelet cube: a flat array of colours, six blocks of `size * size`.
use vstd::prelude::*;
use crate::face::{Face, Move, face_of_block};
use crate::geometry::{facelet_count, move_source, permutation};

verus! {

/// The colours of a solved cube of side `n`: block `b` is filled with face `b`.
pub open spec fn solved_state(n: int) -> Seq<Face> {
    Seq::new(facelet_count(n) as nat, |i: int| face_of_block(i / (n * n)))
}

/// Every one of the six blocks of `st` holds a single colour.
pub open spec fn blocks_uniform(n: int, st: Seq<Face>) -> bool {
    forall|b: int, k: int|
        0 <= b < 6 && 0 <= k < n * n ==> #[trigger] st[b * (n * n) + k] == st[b * (n * n)]
}

/// Index `i` occurs among the kept indices.
pub open spec fn kept(keep: Seq<i32>, i: int) -> bool {
    exists|k: int| 0 <= k < keep.len() && keep[k] as int == i
}

/// `st` with every facelet whose index is not kept replaced by the sentinel.
pub open spec fn masked(st: Seq<Face>, keep: Seq<i32>) -> Seq<Face> {
    Seq::new(st.len(), |i: int| if kept(keep, i) { st[i] } else { Face::X })
}

/// `st` after move `m` on a cube of side `n`.
pub open spec fn moved(n: int, st: Seq<Face>, m: Move) -> Seq<Face> {
    Seq::new(st.len(), |i: int| st[move_source(n, m, i)])
}

/// `t` is a permutation table for an array of `len` facelets: every index
/// lies in the array and no destination occurs twice.
pub open spec fn table_fits(t: Seq<(usize, usize)>, len: int) -> bool {
    &&& forall|a: int| 0 <= a < t.len() ==> t[a].0 < len && t[a].1 < len
    &&& forall|a: int, b: int| 0 <= a < t.len() && 0 <= b < t.len() && a != b ==> t[a].1 != t[b].1
}

/// Some pair of `t` writes index `i`.
pub open spec fn written(t: Seq<(usize, usize)>, i: int) -> bool {
    exists|a: int| 0 <= a < t.len() && t[a].1 as int == i
}

/// What every representation of the cube offers: construction, the side
/// length, the facelet colours, the solved test, masking and moves. Each
/// operation returns a new cube and leaves its receiver as it was.
pub trait Cube: Sized {
    /// Side length of the cube.
    spec fn side(&self) -> int;

    /// The facelet colours, in canonical order.
    spec fn state(&self) -> Seq<Face>;

    /// The representation is consistent and holds `6 * side * side` facelets.
    spec fn wf(&self) -> bool;

    /// The solved cube of side `size`.
    fn new(size: i32) -> (c: Self)
        requires
            size >= 1,
            size * size <= i32::MAX,
            facelet_count(size as int) <= usize::MAX,
        ensures
            c.wf(),
            c.side() == size,
            c.state() == solved_state(size as int),
    ;

    /// Side length of the cube.
    fn size(&self) -> (s: i32)
        ensures
            s == self.side(),
    ;

    /// A copy of the facelet colours, in canonical order.
    fn get_state(&self) -> (v: Vec<Face>)
        ensures
            v@ == self.state(),
    ;

    /// Whether each of the six blocks holds a single colour.
    fn is_solved(&self) -> (b: bool)
        requires
            self.wf(),
        ensures
            b == blocks_uniform(self.side(), self.state()),
    ;

    /// A copy in which every facelet whose index is not in `mask` shows the
    /// sentinel `X`; indices outside the cube are ignored.
    fn mask(&self, mask: &[i32]) -> (c: Self)
        requires
            self.wf(),
        ensures
            c.wf(),
            c.side() == self.side(),
            c.state() == masked(self.state(), mask@),
    ;

    /// A copy with move `mv` made.
    fn apply_move(&self, mv: Move) -> (c: Self)
        requires
            self.wf(),
        ensures
            c.wf(),
            c.side() == self.side(),
            c.state() == moved(self.side(), self.state(), mv),
    ;
}

/// A cube of side `size` whose facelets are stored in one flat array, six
/// blocks of `size * size` in the order U, R, F, D, L, B, each block read
/// row by row. Every operation returns a new cube and leaves its receiver
/// as it was.
#[derive(Clone, Debug)]
pub struct FaceletCube {
    size: i32,
    faces: Vec<Face>,
}

impl Cube for FaceletCube {
    /// Side length of the cube.
    closed spec fn side(&self) -> int {
        self.size as int
    }

    /// The facelet colours, in canonical order.
    closed spec fn state(&self) -> Seq<Face> {
        self.faces@
    }

    /// The array holds exactly `6 * size * size` facelets.
    closed spec fn wf(&self) -> bool {
        &&& self.size >= 1
        &&& facelet_count(self.size as int) <= usize::MAX
        &&& self.faces@.len() == facelet_count(self.size as int)
    }

    /// The solved cube of side `size`.
    fn new(size: i32) -> (c: Self) {
        let n = size as usize;
        let nn = n * n;
        proof {
            assert(nn >= 1 && nn <= 6 * nn) by (nonlinear_arith)
                requires
                    nn == n * n,
                    n >= 1,
            ;
        }
        let mut faces: Vec<Face> = Vec::new();
        let mut b: usize = 0;
        while b < 6
            invariant
                b <= 6,
                nn == n * n,
                nn >= 1,
                nn <= size * size <= i32::MAX,
                n as int == size,
                6 * nn <= usize::MAX,
                faces@ == solved_state(n as int).subrange(0, b * nn),
            decreases 6 - b,
        {
            let face = Face::from_block(b);
            let mut block = repeat(face, size * size);
            let ghost before = faces@;
            let ghost blk = block@;
            faces.append(&mut block);
            proof {
                assert(b * nn + nn <= 6 * nn) by (nonlinear_arith)
                    requires
                        b < 6,
                        nn >= 1,
                ;
                assert forall|k: int| 0 <= k < nn implies #[trigger] solved_state(n as int)[b * nn + k]
                    == face_of_block(b as int) by {
                    vstd::arithmetic::div_mod::lemma_fundamental_div_mod_converse(
                        b * nn + k,
                        nn as int,
                        b as int,
                        k,
                    );
                    assert(0 <= b * nn) by (nonlinear_arith)
                        requires
                            nn >= 1,
                    ;
                }
                assert((b + 1) * nn == b * nn + nn) by (nonlinear_arith);
                assert(faces@ == before + blk);
                assert forall|i: int| 0 <= i < (b + 1) * nn implies #[trigger] faces@[i]
                    == solved_state(n as int)[i] by {
                    if i >= b * nn {
                        let k = i - b * nn;
                        assert(cloned(face, blk[k]));
                        assert(solved_state(n as int)[b * nn + k] == face_of_block(b as int));
                    }
                }
                assert(faces@ =~= solved_state(n as int).subrange(0, (b + 1) * nn));
            }
            b = b + 1;
        }
        assert(faces@ =~= solved_state(n as int));
        FaceletCube { size, faces }
    }

    /// Side length of the cube.
    fn size(&self) -> (s: i32) {
        self.size
    }

    /// A copy of the facelet colours, in canonical order.
    fn get_state(&self) -> (v: Vec<Face>) {
        let mut v: Vec<Face> = Vec::new();
        let mut i: usize = 0;
        while i < self.faces.len()
            invariant
                i <= self.faces@.len(),
                v@ == self.faces@.subrange(0, i as int),
            decreases self.faces@.len() - i,
        {
            v.push(self.faces[i]);
            i = i + 1;
            assert(v@ =~= self.faces@.subrange(0, i as int));
        }
        assert(v@ =~= self.faces@);
        v
    }

    /// Whether each of the six blocks holds a single colour.
    fn is_solved(&self) -> (b: bool) {
        let n = self.size as usize;
        let nn = n * n;
        let mut b: usize = 0;
        while b < 6
            invariant
                b <= 6,
                nn == n * n,
                n as int == self.side(),
                self.wf(),
                forall|b2: int, k: int|
                    0 <= b2 < b && 0 <= k < nn ==> #[trigger] self.faces@[b2 * nn + k]
                        == self.faces@[b2 * nn],
            decreases 6 - b,
        {
            assert(b * nn <= 6 * nn) by (nonlinear_arith)
                requires
                    b < 6,
                    nn >= 0,
            ;
            let start = b * nn;
            let mut k: usize = 0;
            while k < nn
                invariant
                    k <= nn,
                    b < 6,
                    start == b * nn,
                    nn == n * n,
                    n as int == self.side(),
                    self.wf(),
                    forall|k2: int| 0 <= k2 < k ==> #[trigger] self.faces@[start + k2] == self.faces@[start as int],
                decreases nn - k,
            {
                assert(start + k < 6 * nn) by (nonlinear_arith)
                    requires
                        start == b * nn,
                        b < 6,
                        k < nn,
                ;
                if self.faces[start + k] != self.faces[start] {
                    assert(self.faces@[(b as int) * (nn as int) + (k as int)] != self.faces@[(b as int) * (nn as int)]);
                    return false;
                }
                k = k + 1;
            }
            assert forall|b2: int, k2: int|
                0 <= b2 < b + 1 && 0 <= k2 < nn implies #[trigger] self.faces@[b2 * nn + k2]
                    == self.faces@[b2 * nn] by {
                if b2 == b {
                    assert(self.faces@[start + k2] == self.faces@[start as int]);
                }
            }
            b = b + 1;
        }
        true
    }

    /// A copy in which every facelet whose index is not in `mask` shows the
    /// sentinel `X`; indices outside the cube are ignored.
    fn mask(&self, mask: &[i32]) -> (c: Self) {
        let mut faces: Vec<Face> = Vec::new();
        let mut i: usize = 0;
        while i < self.faces.len()
            invariant
                i <= self.faces@.len(),
                faces@ == masked(self.faces@, mask@).subrange(0, i as int),
            decreases self.faces@.len() - i,
        {
            let keep = contains_index(mask, i);
            faces.push(if keep { self.faces[i] } else { Face::X });
            i = i + 1;
            assert(faces@ =~= masked(self.faces@, mask@).subrange(0, i as int));
        }
        assert(faces@ =~= masked(self.faces@, mask@));
        FaceletCube { size: self.size, faces }
    }

    /// A copy with move `mv` made.
    fn apply_move(&self, mv: Move) -> (c: Self) {
        let n = self.size as usize;
        let table = permutation(n, &mv);
        let ghost t = table@;
        let ghost len = self.faces@.len() as int;
        assert forall|a: int, b: int| 0 <= a < t.len() && 0 <= b < t.len() && a != b implies t[a].1 != t[b].1 by {
            if a < b {
                assert(t[a].1 < t[b].1);
            } else {
                assert(t[b].1 < t[a].1);
            }
        }
        proof {
            assert forall|a: int| 0 <= a < t.len() implies t[a].0 < len && t[a].1 < len by {
                crate::geometry::lemma_move_source_valid(n as int, mv, t[a].1 as int);
            }
        }
        let c = self.apply_permutation(table.as_slice());
        assert forall|i: int| 0 <= i < len implies c.state()[i] == self.state()[move_source(n as int, mv, i)] by {
            if written(t, i) {
                let a = choose|a: int| 0 <= a < t.len() && t[a].1 as int == i;
                assert(c.state()[t[a].1 as int] == self.state()[t[a].0 as int]);
            } else {
                if move_source(n as int, mv, i) != i {
                    let a = choose|a: int| 0 <= a < t.len() && #[trigger] t[a].1 == i;
                    assert(written(t, i));
                }
            }
        }
        assert(c.state() =~= moved(self.side(), self.state(), mv));
        c
    }
}

impl FaceletCube {
    /// `apply_permutation` for a table that has not been checked: `None` when
    /// an index lies outside the cube or a destination occurs twice.
    pub fn try_apply_permutation(&self, table: &[(usize, usize)]) -> (c: Option<Self>)
        requires
            self.wf(),
        ensures
            c.is_some() <==> table_fits(table@, self.state().len() as int),
            c matches Some(c) ==> {
                &&& c.wf()
                &&& c.side() == self.side()
                &&& c.state().len() == self.state().len()
                &&& forall|a: int|
                    0 <= a < table@.len() ==> #[trigger] c.state()[table@[a].1 as int]
                        == self.state()[table@[a].0 as int]
                &&& forall|i: int|
                    0 <= i < self.state().len() && !written(table@, i) ==> #[trigger] c.state()[i]
                        == self.state()[i]
            },
    {
        let len = self.faces.len();
        let mut seen: Vec<bool> = Vec::new();
        let mut i: usize = 0;
        while i < len
            invariant
                i <= len,
                seen@.len() == i,
                forall|k: int| 0 <= k < i ==> !seen@[k],
            decreases len - i,
        {
            seen.push(false);
            i = i + 1;
        }
        let mut a: usize = 0;
        while a < table.len()
            invariant
                a <= table@.len(),
                len == self.faces@.len(),
                seen@.len() == len,
                forall|a2: int| 0 <= a2 < a ==> table@[a2].0 < len && table@[a2].1 < len,
                forall|a2: int, b2: int| 0 <= a2 < a && 0 <= b2 < a && a2 != b2 ==> table@[a2].1 != table@[b2].1,
                forall|k: int|
                    0 <= k < len ==> (#[trigger] seen@[k] <==> exists|a2: int| 0 <= a2 < a && table@[a2].1 as int == k),
            decreases table@.len() - a,
        {
            let (from, to) = table[a];
            if from >= len || to >= len {
                return None;
            }
            if seen[to] {
                proof {
                    let a2 = choose|a2: int| 0 <= a2 < a && table@[a2].1 as int == to as int;
                    assert(table@[a2].1 == table@[a as int].1);
                }
                return None;
            }
            seen.set(to, true);
            a = a + 1;
        }
        Some(self.apply_permutation(table))
    }

    /// A copy in which, for each pair `(source, destination)` of `table`,
    /// the facelet at `destination` takes the colour that `source` had
    /// before any write; facelets that no pair writes keep their colour.
    pub fn apply_permutation(&self, table: &[(usize, usize)]) -> (c: Self)
        requires
            self.wf(),
            table_fits(table@, self.state().len() as int),
        ensures
            c.wf(),
            c.side() == self.side(),
            c.state().len() == self.state().len(),
            forall|a: int|
                0 <= a < table@.len() ==> #[trigger] c.state()[table@[a].1 as int]
                    == self.state()[table@[a].0 as int],
            forall|i: int|
                0 <= i < self.state().len() && !written(table@, i) ==> #[trigger] c.state()[i]
                    == self.state()[i],
    {
        let mut faces = self.get_state();
        let mut a: usize = 0;
        while a < table.len()
            invariant
                a <= table@.len(),
                self.wf(),
                table_fits(table@, self.faces@.len() as int),
                faces@.len() == self.faces@.len(),
                forall|a2: int|
                    0 <= a2 < a ==> #[trigger] faces@[table@[a2].1 as int]
                        == self.faces@[table@[a2].0 as int],
                forall|i: int|
                    0 <= i < faces@.len() && !(exists|a2: int| 0 <= a2 < a && table@[a2].1 as int == i)
                        ==> #[trigger] faces@[i] == self.faces@[i],
            decreases table@.len() - a,
        {
            let (from, to) = table[a];
            let ghost before = faces@;
            faces.set(to, self.faces[from]);
            assert forall|a2: int|
                0 <= a2 < a + 1 implies #[trigger] faces@[table@[a2].1 as int]
                    == self.faces@[table@[a2].0 as int] by {
                if a2 < a {
                    assert(table@[a2].1 != table@[a as int].1);
                }
            }
            assert forall|i: int|
                0 <= i < faces@.len() && !(exists|a2: int| 0 <= a2 < a + 1 && table@[a2].1 as int == i)
                    implies #[trigger] faces@[i] == self.faces@[i] by {
                assert(table@[a as int].1 as int != i);
                assert(!(exists|a2: int| 0 <= a2 < a && table@[a2].1 as int == i));
                assert(before[i] == self.faces@[i]);
            }
            a = a + 1;
        }
        FaceletCube { size: self.size, faces }
    }
}

/// `count` copies of `element`.
pub fn repeat<T: Clone>(element: T, count: i32) -> (v: Vec<T>)
    requires
        count >= 0,
    ensures
        v@.len() == count,
        forall|i: int| 0 <= i < count ==> cloned(element, #[trigger] v@[i]),
{
    let mut v: Vec<T> = Vec::new();
    let mut k: i32 = 0;
    while k < count
        invariant
            0 <= k <= count,
            v@.len() == k,
            forall|i: int| 0 <= i < k ==> cloned(element, #[trigger] v@[i]),
        decreases count - k,
    {
        v.push(element.clone());
        k = k + 1;
    }
    v
}

/// Whether `i` occurs in `keep`.
fn contains_index(keep: &[i32], i: usize) -> (r: bool)
    ensures
        r == kept(keep@, i as int),
{
    let mut k: usize = 0;
    while k < keep.len()
        invariant
            k <= keep@.len(),
            forall|k2: int| 0 <= k2 < k ==> keep@[k2] as int != i as int,
        decreases keep@.len() - k,
    {
        if keep[k] >= 0 && keep[k] as usize == i {
            return true;
        }
        k = k + 1;
    }
    false
}

} // verus!
