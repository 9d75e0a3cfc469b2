//! The eight congruent maps (rotations and reflections) of the squares of a
//! board whose pieces fit in a `vsize` x `hsize` rectangle at the top-left of
//! the 4x4 field. A square is numbered `row * 4 + column`.
use vstd::prelude::*;

verus! {

/// The quarter turn of a rectangle of height `size` (and any width).
pub open spec fn rotate_spec(size: usize) -> Seq<usize> {
    if size == 1 {
        seq![0, 4, 8, 12, 0, 0, 0, 0, 0, 0, 0, 0, 0, 0, 0, 0]
    } else if size == 2 {
        seq![1, 5, 9, 13, 0, 4, 8, 12, 0, 0, 0, 0, 0, 0, 0, 0]
    } else if size == 3 {
        seq![2, 6, 10, 14, 1, 5, 9, 13, 0, 4, 8, 12, 0, 0, 0, 0]
    } else {
        seq![3, 7, 11, 15, 2, 6, 10, 14, 1, 5, 9, 13, 0, 4, 8, 12]
    }
}

/// The upside-down reflection of a rectangle of height `size`.
pub open spec fn reflect_spec(size: usize) -> Seq<usize> {
    if size == 1 {
        seq![0, 1, 2, 3, 0, 0, 0, 0, 0, 0, 0, 0, 0, 0, 0, 0]
    } else if size == 2 {
        seq![4, 5, 6, 7, 0, 1, 2, 3, 0, 0, 0, 0, 0, 0, 0, 0]
    } else if size == 3 {
        seq![8, 9, 10, 11, 4, 5, 6, 7, 0, 1, 2, 3, 0, 0, 0, 0]
    } else {
        seq![12, 13, 14, 15, 8, 9, 10, 11, 4, 5, 6, 7, 0, 1, 2, 3]
    }
}

/// Sixteen squares, each on the field.
pub open spec fn is_square_map(s: Seq<usize>) -> bool {
    s.len() == 16 && forall|i: int| 0 <= i < 16 ==> #[trigger] s[i] < 16
}

/// `a` after `b`.
pub open spec fn compose_spec(a: Seq<usize>, b: Seq<usize>) -> Seq<usize> {
    Seq::new(16, |i: int| a[b[i] as int])
}

/// The height that the `t`-th quarter turn works on: turns alternate
/// between the two sides of the rectangle.
pub open spec fn turn_size(vsize: usize, hsize: usize, t: nat) -> usize {
    if t % 2 == 0 {
        vsize
    } else {
        hsize
    }
}

/// The map after `t` quarter turns, with one reflection after the fourth.
pub open spec fn maps_after(vsize: usize, hsize: usize, t: nat) -> Seq<usize>
    decreases t,
{
    if t == 0 {
        Seq::new(16, |i: int| i as usize)
    } else {
        let prev = if t - 1 == 4 {
            compose_spec(reflect_spec(vsize), maps_after(vsize, hsize, 4))
        } else {
            maps_after(vsize, hsize, (t - 1) as nat)
        };
        compose_spec(rotate_spec(turn_size(vsize, hsize, (t - 1) as nat)), prev)
    }
}

fn rotate_map(size: usize) -> (r: [usize; 16])
    ensures
        r@ == rotate_spec(size),
        is_square_map(r@),
{
    let r = if size == 1 {
        [0, 4, 8, 12, 0, 0, 0, 0, 0, 0, 0, 0, 0, 0, 0, 0]
    } else if size == 2 {
        [1, 5, 9, 13, 0, 4, 8, 12, 0, 0, 0, 0, 0, 0, 0, 0]
    } else if size == 3 {
        [2, 6, 10, 14, 1, 5, 9, 13, 0, 4, 8, 12, 0, 0, 0, 0]
    } else {
        [3, 7, 11, 15, 2, 6, 10, 14, 1, 5, 9, 13, 0, 4, 8, 12]
    };
    proof {
        assert(r@ =~= rotate_spec(size));
    }
    r
}

fn reflect_map(size: usize) -> (r: [usize; 16])
    ensures
        r@ == reflect_spec(size),
        is_square_map(r@),
{
    let r = if size == 1 {
        [0, 1, 2, 3, 0, 0, 0, 0, 0, 0, 0, 0, 0, 0, 0, 0]
    } else if size == 2 {
        [4, 5, 6, 7, 0, 1, 2, 3, 0, 0, 0, 0, 0, 0, 0, 0]
    } else if size == 3 {
        [8, 9, 10, 11, 4, 5, 6, 7, 0, 1, 2, 3, 0, 0, 0, 0]
    } else {
        [12, 13, 14, 15, 8, 9, 10, 11, 4, 5, 6, 7, 0, 1, 2, 3]
    };
    proof {
        assert(r@ =~= reflect_spec(size));
    }
    r
}

/// `a` after `b`.
fn compose(a: [usize; 16], b: [usize; 16]) -> (r: [usize; 16])
    requires
        is_square_map(b@),
        is_square_map(a@),
    ensures
        r@ == compose_spec(a@, b@),
        is_square_map(r@),
{
    let mut r: [usize; 16] = [0, 0, 0, 0, 0, 0, 0, 0, 0, 0, 0, 0, 0, 0, 0, 0];
    let mut i: usize = 0;
    while i < 16
        invariant
            0 <= i <= 16,
            r@.len() == 16,
            is_square_map(b@),
            is_square_map(a@),
            forall|k: int| 0 <= k < i ==> #[trigger] r@[k] == a@[b@[k] as int],
            forall|k: int| 0 <= k < 16 ==> #[trigger] r@[k] < 16,
        decreases 16 - i,
    {
        r[i] = a[b[i]];
        i += 1;
    }
    proof {
        assert(r@ =~= compose_spec(a@, b@));
    }
    r
}

/// The eight congruent maps of the squares of a `vsize` x `hsize` rectangle.
#[derive(Debug, Clone)]
pub struct PositionMapper {
    pub maps: Vec<[usize; 16]>,
}

impl PositionMapper {
    /// The maps of a `vsize` x `hsize` rectangle; `None` unless both sides
    /// are from 1 to 4.
    pub fn try_create(vsize: usize, hsize: usize) -> (r: Option<Self>)
        ensures
            r.is_none() <==> (vsize == 0 || vsize >= 5 || hsize == 0 || hsize >= 5),
            r.is_some() ==> r.unwrap().maps@.len() == 8 && forall|m: int|
                0 <= m < 8 ==> (#[trigger] r.unwrap().maps@[m])@ == maps_after(vsize, hsize, (m + 1) as nat),
    {
        if vsize == 0 || vsize >= 5 || hsize == 0 || hsize >= 5 {
            return None;
        }
        let mut maps: Vec<[usize; 16]> = Vec::new();
        let mut base: [usize; 16] = [0, 1, 2, 3, 4, 5, 6, 7, 8, 9, 10, 11, 12, 13, 14, 15];
        proof {
            assert(base@ =~= maps_after(vsize, hsize, 0));
        }
        let mut t: usize = 0;
        while t < 8
            invariant
                0 <= t <= 8,
                1 <= vsize <= 4,
                1 <= hsize <= 4,
                maps@.len() == t,
                is_square_map(base@),
                base@ == maps_after(vsize, hsize, t as nat),
                forall|m: int| 0 <= m < t ==> (#[trigger] maps@[m])@ == maps_after(vsize, hsize, (m + 1) as nat),
            decreases 8 - t,
        {
            if t == 4 {
                base = compose(reflect_map(vsize), base);
            }
            let size = if t % 2 == 0 {
                vsize
            } else {
                hsize
            };
            base = compose(rotate_map(size), base);
            maps.push(base);
            t += 1;
        }
        Some(PositionMapper { maps })
    }

    /// Where the `index`-th map sends square `pos`; 0 when either is out of range.
    pub fn map(&self, index: usize, pos: usize) -> (r: usize)
        ensures
            r == (if index < 8 && index < self.maps@.len() && pos < 16 {
                self.maps@[index as int]@[pos as int]
            } else {
                0
            }),
    {
        if index >= 8 || index >= self.maps.len() || pos >= 16 {
            0
        } else {
            self.maps[index][pos]
        }
    }
}

} // verus!
