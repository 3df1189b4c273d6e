//! Sand slabs: bricks of sand falling into a stack, and the bricks whose
//! removal would let others fall.
use vstd::prelude::*;
use ndarray::Array3;
use crate::text;
use crate::text::{scan_u64, ParseError};

verus! {

/// A cube of space.
#[derive(Debug, Clone, Copy, PartialEq, Eq, Hash, Structural)]
pub struct Pos {
    pub x: usize,
    pub y: usize,
    pub z: usize,
}

/// A brick: the cubes from `from` to `to`, both included.
#[derive(Debug, Clone, Copy, PartialEq, Eq, Hash, Structural)]
pub struct Brick {
    pub from: Pos,
    pub to: Pos,
}

pub open spec fn byte_is(s: Seq<u8>, i: int, c: u8) -> bool {
    0 <= i < s.len() && s[i] == c
}

/// An unsigned number at `i`: `0`, or a nonzero digit followed by digits,
/// whose value fits in a `usize`; and the position after it.
pub open spec fn p_unsigned(s: Seq<u8>, i: int) -> Option<(usize, int)> {
    if byte_is(s, i, 48u8) {
        Some((0usize, i + 1))
    } else if 0 <= i < s.len() && 49u8 <= s[i] <= 57u8 {
        let e = i + text::digit_run(s, i);
        let v = text::digits_value(s.subrange(i, e));
        if v <= usize::MAX { Some((v as usize, e)) } else { None }
    } else {
        None
    }
}

/// A position at `i`: three unsigned numbers separated by `,`.
pub open spec fn p_pos(s: Seq<u8>, i: int) -> Option<(Pos, int)> {
    match p_unsigned(s, i) {
        Some((x, i1)) => if byte_is(s, i1, 44u8) {
            match p_unsigned(s, i1 + 1) {
                Some((y, i2)) => if byte_is(s, i2, 44u8) {
                    match p_unsigned(s, i2 + 1) {
                        Some((z, i3)) => Some((Pos { x, y, z }, i3)),
                        None => None,
                    }
                } else {
                    None
                },
                None => None,
            }
        } else {
            None
        },
        None => None,
    }
}

/// A brick at `i`: two positions separated by `~`, then `\n` or the end.
pub open spec fn p_brick(s: Seq<u8>, i: int) -> Option<(Brick, int)> {
    match p_pos(s, i) {
        Some((from, i1)) => if byte_is(s, i1, 126u8) {
            match p_pos(s, i1 + 1) {
                Some((to, i2)) => if byte_is(s, i2, 10u8) {
                    Some((Brick { from, to }, i2 + 1))
                } else if i2 == s.len() {
                    Some((Brick { from, to }, i2))
                } else {
                    None
                },
                None => None,
            }
        } else {
            None
        },
        None => None,
    }
}

pub proof fn lemma_p_unsigned(s: Seq<u8>, i: int)
    ensures
        p_unsigned(s, i) matches Some((v, j)) ==> i < j <= s.len(),
{
    if 0 <= i < s.len() && 49u8 <= s[i] <= 57u8 {
        text::lemma_digit_run(s, i);
    }
}

pub proof fn lemma_p_pos(s: Seq<u8>, i: int)
    ensures
        p_pos(s, i) matches Some((p, j)) ==> i < j <= s.len(),
{
    lemma_p_unsigned(s, i);
    if let Some((x, i1)) = p_unsigned(s, i) {
        lemma_p_unsigned(s, i1 + 1);
        if let Some((y, i2)) = p_unsigned(s, i1 + 1) {
            lemma_p_unsigned(s, i2 + 1);
        }
    }
}

pub proof fn lemma_p_brick(s: Seq<u8>, i: int)
    ensures
        p_brick(s, i) matches Some((b, j)) ==> i < j <= s.len(),
{
    lemma_p_unsigned(s, i);
    if let Some((x, i1)) = p_unsigned(s, i) {
        lemma_p_unsigned(s, i1 + 1);
        if let Some((y, i2)) = p_unsigned(s, i1 + 1) {
            lemma_p_unsigned(s, i2 + 1);
        }
    }
    if let Some((from, i1)) = p_pos(s, i) {
        lemma_p_unsigned(s, i1 + 1);
        if let Some((x, j1)) = p_unsigned(s, i1 + 1) {
            lemma_p_unsigned(s, j1 + 1);
            if let Some((y, j2)) = p_unsigned(s, j1 + 1) {
                lemma_p_unsigned(s, j2 + 1);
            }
        }
    }
}

/// The bricks from `i` on, one after the other, and where they end.
pub open spec fn p_bricks(s: Seq<u8>, i: int) -> (Seq<Brick>, int)
    decreases s.len() - i,
{
    match p_brick(s, i) {
        Some((b, j)) => if i < j <= s.len() {
            let r = p_bricks(s, j);
            (seq![b] + r.0, r.1)
        } else {
            (Seq::empty(), i)
        },
        None => (Seq::empty(), i),
    }
}

/// The snapshot of the bricks: at least one, and nothing else.
pub open spec fn spec_bricks(s: Seq<u8>) -> Option<Seq<Brick>> {
    let r = p_bricks(s, 0);
    if r.0.len() >= 1 && r.1 == s.len() { Some(r.0) } else { None }
}

fn read_unsigned(s: &[u8], i: usize) -> (res: Option<(usize, usize)>)
    requires
        i <= s.len(),
    ensures
        match p_unsigned(s@, i as int) {
            Some((v, j)) => res matches Some((v2, j2)) && v2 == v && j2 as int == j,
            None => res is None,
        },
{
    proof {
        lemma_p_unsigned(s@, i as int);
    }
    if i < s.len() && s[i] == 48u8 {
        return Some((0, i + 1));
    }
    if i < s.len() && 49u8 <= s[i] && s[i] <= 57u8 {
        let (e, v) = scan_u64(s, i);
        match v {
            Some(v) => {
                if v <= usize::MAX as u64 {
                    return Some((v as usize, e));
                }
                return None;
            },
            None => {
                return None;
            },
        }
    }
    None
}

fn read_pos(s: &[u8], i: usize) -> (res: Option<(Pos, usize)>)
    requires
        i <= s.len(),
    ensures
        match p_pos(s@, i as int) {
            Some((p, j)) => res matches Some((p2, j2)) && p2 == p && j2 as int == j,
            None => res is None,
        },
{
    proof {
        lemma_p_pos(s@, i as int);
        lemma_p_unsigned(s@, i as int);
    }
    let (x, i1) = match read_unsigned(s, i) {
        Some(r) => r,
        None => return None,
    };
    if !(i1 < s.len() && s[i1] == 44u8) {
        return None;
    }
    proof {
        lemma_p_unsigned(s@, i1 + 1);
    }
    let (y, i2) = match read_unsigned(s, i1 + 1) {
        Some(r) => r,
        None => return None,
    };
    if !(i2 < s.len() && s[i2] == 44u8) {
        return None;
    }
    proof {
        lemma_p_unsigned(s@, i2 + 1);
    }
    let (z, i3) = match read_unsigned(s, i2 + 1) {
        Some(r) => r,
        None => return None,
    };
    Some((Pos { x, y, z }, i3))
}

fn read_brick(s: &[u8], i: usize) -> (res: Option<(Brick, usize)>)
    requires
        i <= s.len(),
    ensures
        match p_brick(s@, i as int) {
            Some((b, j)) => res matches Some((b2, j2)) && b2 == b && j2 as int == j,
            None => res is None,
        },
{
    proof {
        lemma_p_pos(s@, i as int);
    }
    let (from, i1) = match read_pos(s, i) {
        Some(r) => r,
        None => return None,
    };
    if !(i1 < s.len() && s[i1] == 126u8) {
        return None;
    }
    proof {
        lemma_p_pos(s@, i1 + 1);
    }
    let (to, i2) = match read_pos(s, i1 + 1) {
        Some(r) => r,
        None => return None,
    };
    if i2 < s.len() && s[i2] == 10u8 {
        Some((Brick { from, to }, i2 + 1))
    } else if i2 == s.len() {
        Some((Brick { from, to }, i2))
    } else {
        None
    }
}

/// Reads the snapshot (see `spec_bricks`).
#[verifier::loop_isolation(false)]
pub fn input_gen(input: &[u8]) -> (res: Result<Vec<Brick>, ParseError>)
    ensures
        match res {
            Ok(v) => spec_bricks(input@) == Some(v@),
            Err(e) => e == ParseError::Syntax && spec_bricks(input@) is None,
        },
{
    let mut out: Vec<Brick> = Vec::new();
    let mut i: usize = 0;
    let ghost total = p_bricks(input@, 0);
    loop
        invariant
            i <= input@.len(),
            total == p_bricks(input@, 0),
            (out@ + p_bricks(input@, i as int).0, p_bricks(input@, i as int).1) == total,
        decreases input@.len() - i,
    {
        proof {
            lemma_p_brick(input@, i as int);
        }
        match read_brick(input, i) {
            Some((b, j)) => {
                assert(p_brick(input@, i as int) == Some((b, j as int)));
                let ghost r = p_bricks(input@, j as int);
                assert(p_bricks(input@, i as int) == (seq![b] + r.0, r.1));
                out.push(b);
                assert(out@.drop_last() + (seq![b] + r.0) =~= out@ + r.0);
                i = j;
            },
            None => {
                assert(out@ + Seq::<Brick>::empty() =~= out@);
                break;
            },
        }
    }
    if out.len() == 0 || i != input.len() {
        return Err(ParseError::Syntax);
    }
    Ok(out)
}


/// The cubes of space, filled or not, held in an `ndarray` array indexed by
/// `(x, y, z)`.
#[verifier::external_body]
pub struct Space {
    cells: Array3<bool>,
}

/// The cubes of a space: `space_cells(s)[x][y][z]`.
pub uninterp spec fn space_cells(s: Space) -> Seq<Seq<Seq<bool>>>;

/// The extent of a space along x, y and z.
pub uninterp spec fn space_dim(s: Space) -> (nat, nat, nat);

/// The cubes of a space of this extent: filled exactly at height 0.
pub open spec fn floor_cells(nx: nat, ny: nat, nz: nat) -> Seq<Seq<Seq<bool>>> {
    Seq::new(nx, |x: int| Seq::new(ny, |y: int| Seq::new(nz, |z: int| z == 0)))
}

/// Whether a cube is on the floor.
fn on_floor(p: (usize, usize, usize)) -> (res: bool)
    ensures
        res == (p.2 == 0),
{
    p.2 == 0
}

/// `Array3::from_shape_fn` with the extent `(nx, ny, nz)` and `on_floor`:
/// a space filled exactly at height 0 (it panics when the number of cubes
/// exceeds `isize::MAX`).
#[verifier::external_body]
fn space_floor(nx: usize, ny: usize, nz: usize) -> (res: Space)
    requires
        nx >= 1,
        ny >= 1,
        nz >= 1,
        nx * ny * nz <= isize::MAX,
    ensures
        space_dim(res) == (nx as nat, ny as nat, nz as nat) && space_cells(res) == floor_cells(nx as nat, ny as nat, nz as nat),
{
    Space { cells: Array3::from_shape_fn((nx, ny, nz), |p| on_floor(p)) }
}

/// The space has the extent `d`, and its cubes are laid out accordingly.
pub open spec fn shaped(c: Seq<Seq<Seq<bool>>>, d: (nat, nat, nat)) -> bool {
    &&& c.len() == d.0
    &&& forall|x: int| 0 <= x < d.0 ==> (#[trigger] c[x]).len() == d.1
    &&& forall|x: int, y: int| 0 <= x < d.0 && 0 <= y < d.1 ==> (#[trigger] c[x][y]).len() == d.2
}

/// `ArrayBase::dim` on a space: its extent along x, y and z.
#[verifier::external_body]
fn space_dims(s: &Space) -> (res: (usize, usize, usize))
    ensures
        res.0 == space_dim(*s).0 && res.1 == space_dim(*s).1 && res.2 == space_dim(*s).2 && shaped(space_cells(*s), (res.0 as nat, res.1 as nat, res.2 as nat)),
{
    s.cells.dim()
}

/// Indexing a space by `(x, y, z)`.
#[verifier::external_body]
fn space_at(s: &Space, x: usize, y: usize, z: usize) -> (res: bool)
    requires
        x < space_dim(*s).0,
        y < space_dim(*s).1,
        z < space_dim(*s).2,
    ensures
        res == space_cells(*s)[x as int][y as int][z as int],
{
    s.cells[(x, y, z)]
}

/// Assigning to a cube of a space through `IndexMut`.
#[verifier::external_body]
fn space_set(s: &mut Space, x: usize, y: usize, z: usize, v: bool)
    requires
        x < space_dim(*old(s)).0,
        y < space_dim(*old(s)).1,
        z < space_dim(*old(s)).2,
    ensures
        space_dim(*final(s)) == space_dim(*old(s)),
        space_cells(*final(s)) == space_cells(*old(s)).update(x as int, space_cells(*old(s))[x as int].update(y as int,
            space_cells(*old(s))[x as int][y as int].update(z as int, v))),
{
    s.cells[(x, y, z)] = v;
}

/// `Clone` on the array of a space: a space with the same cubes.
#[verifier::external_body]
fn space_clone(s: &Space) -> (res: Space)
    ensures
        space_cells(res) == space_cells(*s) && space_dim(res) == space_dim(*s),
{
    Space { cells: s.cells.clone() }
}

/// The cube `(x, y, z)` belongs to the brick.
pub open spec fn in_box(b: Brick, x: int, y: int, z: int) -> bool {
    b.from.x <= x <= b.to.x && b.from.y <= y <= b.to.y && b.from.z <= z <= b.to.z
}

/// The space with the cubes of the brick set to `v`.
pub open spec fn blitted(c: Seq<Seq<Seq<bool>>>, b: Brick, v: bool) -> Seq<Seq<Seq<bool>>> {
    Seq::new(c.len(), |x: int| Seq::new(c[x].len(), |y: int| Seq::new(c[x][y].len(), |z: int|
        if in_box(b, x, y, z) { v } else { c[x][y][z] })))
}

/// Nothing is right below the brick.
pub open spec fn falls_freely(c: Seq<Seq<Seq<bool>>>, b: Brick) -> bool {
    forall|x: int, y: int| b.from.x <= x <= b.to.x && b.from.y <= y <= b.to.y ==> !#[trigger] c[x][y][b.from.z - 1]
}

/// The brick one cube lower.
pub open spec fn lowered(b: Brick) -> Brick {
    Brick {
        from: Pos { x: b.from.x, y: b.from.y, z: (b.from.z - 1) as usize },
        to: Pos { x: b.to.x, y: b.to.y, z: (b.to.z - 1) as usize },
    }
}

/// The space and the brick once the brick has fallen as far as it can, and
/// whether it fell at all.
pub open spec fn settle(c: Seq<Seq<Seq<bool>>>, b: Brick) -> (Seq<Seq<Seq<bool>>>, Brick, bool)
    decreases b.from.z,
{
    if b.from.z >= 1 && falls_freely(c, b) {
        let l = lowered(b);
        let r = settle(blitted(blitted(c, b, false), l, true), l);
        (r.0, r.1, true)
    } else {
        (c, b, false)
    }
}

/// A brick that has settled rests: it is on the floor or something lies
/// right below it. It keeps its place across and its height, and it is no
/// higher than it was.
pub proof fn lemma_settle_rests(c: Seq<Seq<Seq<bool>>>, b: Brick)
    requires
        b.from.z <= b.to.z,
    ensures
        !(settle(c, b).1.from.z >= 1 && falls_freely(settle(c, b).0, settle(c, b).1)),
        settle(c, b).1.from.x == b.from.x && settle(c, b).1.to.x == b.to.x,
        settle(c, b).1.from.y == b.from.y && settle(c, b).1.to.y == b.to.y,
        settle(c, b).1.from.z <= b.from.z,
        settle(c, b).1.to.z - settle(c, b).1.from.z == b.to.z - b.from.z,
    decreases b.from.z,
{
    if b.from.z >= 1 && falls_freely(c, b) {
        let l = lowered(b);
        lemma_settle_rests(blitted(blitted(c, b, false), l, true), l);
    }
}

/// The space and the bricks once the bricks from index `i` on, one after
/// the other, have fallen as far as they can, and how many of them fell.
pub open spec fn settle_from(c: Seq<Seq<Seq<bool>>>, bricks: Seq<Brick>, i: nat) -> (Seq<Seq<Seq<bool>>>, Seq<Brick>, nat)
    decreases bricks.len() - i,
{
    if i >= bricks.len() {
        (c, bricks, 0)
    } else {
        let r = settle(c, bricks[i as int]);
        let rest = settle_from(r.0, bricks.update(i as int, r.1), i + 1);
        (rest.0, rest.1, rest.2 + if r.2 { 1nat } else { 0nat })
    }
}

/// The brick lies within the space above the floor, its ends in order.
pub open spec fn placed(b: Brick, d: (nat, nat, nat)) -> bool {
    &&& b.from.x <= b.to.x < d.0
    &&& b.from.y <= b.to.y < d.1
    &&& 1 <= b.from.z <= b.to.z < d.2
}

/// The floor of the space is whole.
pub open spec fn floor_whole(c: Seq<Seq<Seq<bool>>>, d: (nat, nat, nat)) -> bool {
    forall|x: int, y: int| 0 <= x < d.0 && 0 <= y < d.1 ==> #[trigger] c[x][y][0]
}


/// The brick lies within the space, its ends in order.
pub open spec fn inside(b: Brick, d: (nat, nat, nat)) -> bool {
    &&& b.from.x <= b.to.x < d.0
    &&& b.from.y <= b.to.y < d.1
    &&& b.from.z <= b.to.z < d.2
}

/// `(x, y, z)` comes before `(px, py, pz)` in the order the cubes of a brick
/// are visited.
pub open spec fn visited_before(x: int, y: int, z: int, px: int, py: int, pz: int) -> bool {
    x < px || (x == px && y < py) || (x == px && y == py && z < pz)
}

/// The space with the cubes of the brick visited before `(px, py, pz)` set
/// to `v`.
pub open spec fn blit_part(c: Seq<Seq<Seq<bool>>>, b: Brick, v: bool, px: int, py: int, pz: int) -> Seq<Seq<Seq<bool>>> {
    Seq::new(c.len(), |x: int| Seq::new(c[x].len(), |y: int| Seq::new(c[x][y].len(), |z: int|
        if in_box(b, x, y, z) && visited_before(x, y, z, px, py, pz) { v } else { c[x][y][z] })))
}

proof fn lemma_cells_ext(a: Seq<Seq<Seq<bool>>>, b: Seq<Seq<Seq<bool>>>)
    requires
        a.len() == b.len(),
        forall|x: int| 0 <= x < a.len() ==> (#[trigger] a[x]).len() == b[x].len(),
        forall|x: int, y: int| 0 <= x < a.len() && 0 <= y < a[x].len() ==> (#[trigger] a[x][y]).len() == b[x][y].len(),
        forall|x: int, y: int, z: int| 0 <= x < a.len() && 0 <= y < a[x].len() && 0 <= z < a[x][y].len()
            ==> #[trigger] a[x][y][z] == b[x][y][z],
    ensures
        a == b,
{
    assert forall|x: int| 0 <= x < a.len() implies a[x] == b[x] by {
        assert forall|y: int| 0 <= y < a[x].len() implies a[x][y] == b[x][y] by {
            assert(a[x][y] =~= b[x][y]);
        }
        assert(a[x] =~= b[x]);
    }
    assert(a =~= b);
}

impl Brick {
    /// Whether nothing is right below the brick (see `falls_freely`).
    pub fn falling(&self, map: &Space) -> (res: bool)
        requires
            inside(*self, space_dim(*map)),
            self.from.z >= 1,
        ensures
            res == falls_freely(space_cells(*map), *self),
    {
        let (nx, ny, nz) = space_dims(map);
        let z = self.from.z - 1;
        let mut x = self.from.x;
        while x <= self.to.x
            invariant
                inside(*self, space_dim(*map)),
                nx == space_dim(*map).0,
                ny == space_dim(*map).1,
                nz == space_dim(*map).2,
                z == self.from.z - 1,
                self.from.x <= x <= self.to.x + 1,
                forall|a: int, b: int| self.from.x <= a < x && self.from.y <= b <= self.to.y
                    ==> !#[trigger] space_cells(*map)[a][b][z as int],
            decreases self.to.x + 1 - x,
        {
            let mut y = self.from.y;
            while y <= self.to.y
                invariant
                    inside(*self, space_dim(*map)),
                    nx == space_dim(*map).0,
                    ny == space_dim(*map).1,
                    nz == space_dim(*map).2,
                    z == self.from.z - 1,
                    self.from.x <= x <= self.to.x,
                    self.from.y <= y <= self.to.y + 1,
                    forall|a: int, b: int| self.from.x <= a < x && self.from.y <= b <= self.to.y
                        ==> !#[trigger] space_cells(*map)[a][b][z as int],
                    forall|b: int| self.from.y <= b < y ==> !#[trigger] space_cells(*map)[x as int][b][z as int],
                decreases self.to.y + 1 - y,
            {
                if space_at(map, x, y, z) {
                    return false;
                }
                y += 1;
            }
            x += 1;
        }
        true
    }

    /// Sets the cubes of the brick to `value` (see `blitted`).
    pub fn blit(&self, map: &mut Space, value: bool)
        requires
            inside(*self, space_dim(*old(map))),
        ensures
            space_dim(*final(map)) == space_dim(*old(map)),
            space_cells(*final(map)) == blitted(space_cells(*old(map)), *self, value),
    {
        let ghost c0 = space_cells(*map);
        let ghost b = *self;
        let (nx, ny, nz) = space_dims(map);
        let ghost d = space_dim(*map);
        proof {
            lemma_cells_ext(c0, blit_part(c0, b, value, self.from.x as int, self.from.y as int, self.from.z as int));
        }
        let mut x = self.from.x;
        while x <= self.to.x
            invariant
                inside(b, d),
                b == *self,
                d == space_dim(*map),
                nx == d.0 && ny == d.1 && nz == d.2,
                shaped(c0, d),
                self.from.x <= x <= self.to.x + 1,
                space_cells(*map) == blit_part(c0, b, value, x as int, b.from.y as int, b.from.z as int),
            decreases self.to.x + 1 - x,
        {
            let mut y = self.from.y;
            while y <= self.to.y
                invariant
                    inside(b, d),
                    b == *self,
                    d == space_dim(*map),
                    nx == d.0 && ny == d.1 && nz == d.2,
                    shaped(c0, d),
                    self.from.x <= x <= self.to.x,
                    self.from.y <= y <= self.to.y + 1,
                    space_cells(*map) == blit_part(c0, b, value, x as int, y as int, b.from.z as int),
                decreases self.to.y + 1 - y,
            {
                let mut z = self.from.z;
                while z <= self.to.z
                    invariant
                        inside(b, d),
                        b == *self,
                        d == space_dim(*map),
                        nx == d.0 && ny == d.1 && nz == d.2,
                        shaped(c0, d),
                        self.from.x <= x <= self.to.x,
                        self.from.y <= y <= self.to.y,
                        self.from.z <= z <= self.to.z + 1,
                        space_cells(*map) == blit_part(c0, b, value, x as int, y as int, z as int),
                    decreases self.to.z + 1 - z,
                {
                    space_set(map, x, y, z, value);
                    proof {
                        lemma_cells_ext(space_cells(*map), blit_part(c0, b, value, x as int, y as int, z + 1));
                    }
                    z += 1;
                }
                proof {
                    lemma_cells_ext(space_cells(*map), blit_part(c0, b, value, x as int, y + 1, b.from.z as int));
                }
                y += 1;
            }
            proof {
                lemma_cells_ext(space_cells(*map), blit_part(c0, b, value, x + 1, b.from.y as int, b.from.z as int));
            }
            x += 1;
        }
        proof {
            lemma_cells_ext(space_cells(*map), blitted(c0, b, value));
        }
    }

    /// Moves the brick one cube down (see `lowered`).
    pub fn fall(&mut self, map: &mut Space)
        requires
            inside(*old(self), space_dim(*old(map))),
            old(self).from.z > 0,
        ensures
            *final(self) == lowered(*old(self)),
            space_dim(*final(map)) == space_dim(*old(map)),
            space_cells(*final(map)) == blitted(blitted(space_cells(*old(map)), *old(self), false), lowered(*old(self)), true),
    {
        self.blit(map, false);
        self.from.z -= 1;
        self.to.z -= 1;
        self.blit(map, true);
    }
}


proof fn lemma_blitted_keeps(c: Seq<Seq<Seq<bool>>>, b: Brick, v: bool, d: (nat, nat, nat))
    requires
        shaped(c, d),
        d.2 >= 1,
    ensures
        shaped(blitted(c, b, v), d),
        b.from.z >= 1 && floor_whole(c, d) ==> floor_whole(blitted(c, b, v), d),
{
    if b.from.z >= 1 && floor_whole(c, d) {
        assert forall|x: int, y: int| 0 <= x < d.0 && 0 <= y < d.1 implies #[trigger] blitted(c, b, v)[x][y][0] by {
            assert(c[x][y][0]);
        }
    }
}

/// Lets the bricks fall one after the other, each as far as it can (see
/// `settle_from`), and returns how many of them fell.
pub fn fall(bricks: &mut Vec<Brick>, map: &mut Space) -> (ret: usize)
    requires
        forall|k: int| 0 <= k < old(bricks)@.len() ==> placed(#[trigger] old(bricks)@[k], space_dim(*old(map))),
        floor_whole(space_cells(*old(map)), space_dim(*old(map))),
    ensures
        settle_from(space_cells(*old(map)), old(bricks)@, 0) == (space_cells(*final(map)), final(bricks)@, ret as nat),
        space_dim(*final(map)) == space_dim(*old(map)),
        forall|k: int| 0 <= k < final(bricks)@.len() ==> placed(#[trigger] final(bricks)@[k], space_dim(*final(map))),
        floor_whole(space_cells(*final(map)), space_dim(*final(map))),
{
    let (nx, ny, nz) = space_dims(map);
    let ghost d = space_dim(*map);
    let ghost total = settle_from(space_cells(*map), bricks@, 0);
    let ghost n = bricks@.len();
    let mut ret: usize = 0;
    let mut i: usize = 0;
    while i < bricks.len()
        invariant
            d == space_dim(*map),
            shaped(space_cells(*map), d),
            floor_whole(space_cells(*map), d),
            bricks@.len() == n,
            forall|k: int| 0 <= k < bricks@.len() ==> placed(#[trigger] bricks@[k], d),
            i <= n,
            ret <= i,
            settle_from(space_cells(*map), bricks@, i as nat).0 == total.0,
            settle_from(space_cells(*map), bricks@, i as nat).1 == total.1,
            ret + settle_from(space_cells(*map), bricks@, i as nat).2 == total.2,
        decreases n - i,
    {
        let mut br = bricks[i];
        let ghost c_start = space_cells(*map);
        let ghost b_start = br;
        let ghost st = settle(c_start, b_start);
        let mut fell = false;
        assert(placed(br, d));
        while br.falling(map)
            invariant
                d == space_dim(*map),
                shaped(space_cells(*map), d),
                floor_whole(space_cells(*map), d),
                placed(br, d),
                settle(space_cells(*map), br).0 == st.0,
                settle(space_cells(*map), br).1 == st.1,
                st.2 == (fell || settle(space_cells(*map), br).2),
            decreases br.from.z,
        {
            proof {
                let c = space_cells(*map);
                assert(c[br.from.x as int][br.from.y as int][0]);
                assert(br.from.z >= 2);
                lemma_blitted_keeps(c, br, false, d);
                lemma_blitted_keeps(blitted(c, br, false), lowered(br), true, d);
            }
            br.fall(map);
            fell = true;
        }
        let ghost before = bricks@;
        bricks.set(i, br);
        proof {
            assert(bricks@ == before.update(i as int, br));
        }
        if fell {
            ret += 1;
        }
        i += 1;
    }
    ret
}


/// The first index from `k` on where `s` holds a brick starting above `z`.
pub open spec fn first_above(s: Seq<Brick>, z: usize, k: int) -> int
    decreases s.len() - k,
{
    if k < 0 || k >= s.len() || s[k].from.z > z {
        k
    } else {
        first_above(s, z, k + 1)
    }
}

/// The first `n` bricks sorted by the height of their lower end, bricks of
/// equal height kept in their order (each is inserted after those not
/// above it).
pub open spec fn sort_upto(input: Seq<Brick>, n: int) -> Seq<Brick>
    decreases n,
{
    if n <= 0 {
        Seq::empty()
    } else {
        let s = sort_upto(input, n - 1);
        s.insert(first_above(s, input[n - 1].from.z, 0), input[n - 1])
    }
}

pub open spec fn max_of(a: int, b: int) -> int {
    if a >= b { a } else { b }
}

/// The greatest coordinates of the first `n` bricks (0 for none).
pub open spec fn extent(input: Seq<Brick>, n: int) -> (int, int, int)
    decreases n,
{
    if n <= 0 {
        (0, 0, 0)
    } else {
        let e = extent(input, n - 1);
        let b = input[n - 1];
        (max_of(e.0, max_of(b.to.x as int, b.from.x as int)),
         max_of(e.1, max_of(b.to.y as int, b.from.y as int)),
         max_of(e.2, max_of(b.to.z as int, b.from.z as int)))
    }
}

/// The space with the first `n` bricks of `bs` filled in.
pub open spec fn blit_all(c: Seq<Seq<Seq<bool>>>, bs: Seq<Brick>, n: int) -> Seq<Seq<Seq<bool>>>
    decreases n,
{
    if n <= 0 { c } else { blitted(blit_all(c, bs, n - 1), bs[n - 1], true) }
}

/// The extent of the space for the bricks: one more than their greatest
/// coordinates.
pub open spec fn space_for(input: Seq<Brick>) -> (nat, nat, nat) {
    let e = extent(input, input.len() as int);
    ((e.0 + 1) as nat, (e.1 + 1) as nat, (e.2 + 1) as nat)
}

/// The space and the bricks once the bricks, sorted by height and filled
/// into a space with a floor, have fallen as far as they can.
pub open spec fn settled(input: Seq<Brick>) -> (Seq<Seq<Seq<bool>>>, Seq<Brick>, nat) {
    let sorted = sort_upto(input, input.len() as int);
    let d = space_for(input);
    settle_from(blit_all(floor_cells(d.0, d.1, d.2), sorted, sorted.len() as int), sorted, 0)
}

/// The ends of the brick are in order and it lies above the floor.
pub open spec fn well_formed(b: Brick) -> bool {
    b.from.x <= b.to.x && b.from.y <= b.to.y && 1 <= b.from.z <= b.to.z
}

/// The snapshot can be simulated: it has bricks, all well formed, and the
/// space for them fits in memory.
pub open spec fn snapshot_ok(input: Seq<Brick>) -> bool {
    &&& input.len() >= 1
    &&& forall|k: int| 0 <= k < input.len() ==> well_formed(#[trigger] input[k])
    &&& space_for(input).0 * space_for(input).1 * space_for(input).2 <= isize::MAX
}

proof fn lemma_sort_upto(input: Seq<Brick>, n: int)
    requires
        0 <= n <= input.len(),
    ensures
        sort_upto(input, n).len() == n,
        forall|k: int| 0 <= k < n ==> exists|j: int| 0 <= j < n && #[trigger] sort_upto(input, n)[k] == input[j],
    decreases n,
{
    if n > 0 {
        lemma_sort_upto(input, n - 1);
        let s = sort_upto(input, n - 1);
        lemma_first_above(s, input[n - 1].from.z, 0);
        let p = first_above(s, input[n - 1].from.z, 0);
        assert forall|k: int| 0 <= k < n implies exists|j: int| 0 <= j < n && #[trigger] sort_upto(input, n)[k] == input[j] by {
            if k < p {
                assert(sort_upto(input, n)[k] == s[k]);
            } else if k == p {
                assert(sort_upto(input, n)[k] == input[n - 1]);
            } else {
                assert(sort_upto(input, n)[k] == s[k - 1]);
            }
        }
    }
}

proof fn lemma_first_above(s: Seq<Brick>, z: usize, k: int)
    requires
        0 <= k <= s.len(),
    ensures
        k <= first_above(s, z, k) <= s.len(),
    decreases s.len() - k,
{
    if k < s.len() && s[k].from.z <= z {
        lemma_first_above(s, z, k + 1);
    }
}

proof fn lemma_extent(input: Seq<Brick>, n: int)
    requires
        0 <= n <= input.len(),
    ensures
        extent(input, n).0 >= 0 && extent(input, n).1 >= 0 && extent(input, n).2 >= 0,
        forall|k: int| 0 <= k < n ==> #[trigger] input[k].to.x <= extent(input, n).0 && input[k].from.x <= extent(input, n).0
            && input[k].to.y <= extent(input, n).1 && input[k].from.y <= extent(input, n).1
            && input[k].to.z <= extent(input, n).2 && input[k].from.z <= extent(input, n).2,
    decreases n,
{
    if n > 0 {
        lemma_extent(input, n - 1);
    }
}


/// Sorts the bricks by the height of their lower end, fills them into a
/// space with a floor, just large enough, and lets them fall (see
/// `settled`).
pub fn init(input: &[Brick]) -> (res: (Vec<Brick>, Space))
    requires
        snapshot_ok(input@),
    ensures
        space_cells(res.1) == settled(input@).0,
        res.0@ == settled(input@).1,
        space_dim(res.1) == space_for(input@),
        forall|k: int| 0 <= k < res.0@.len() ==> placed(#[trigger] res.0@[k], space_dim(res.1)),
        floor_whole(space_cells(res.1), space_dim(res.1)),
{
    let mut bricks: Vec<Brick> = Vec::new();
    let mut k: usize = 0;
    while k < input.len()
        invariant
            k <= input@.len(),
            bricks@ == sort_upto(input@, k as int),
        decreases input@.len() - k,
    {
        let b = input[k];
        proof {
            lemma_sort_upto(input@, k as int);
            lemma_first_above(bricks@, b.from.z, 0);
        }
        let mut p: usize = 0;
        while p < bricks.len() && bricks[p].from.z <= b.from.z
            invariant
                p <= bricks@.len(),
                first_above(bricks@, b.from.z, 0) == first_above(bricks@, b.from.z, p as int),
            decreases bricks@.len() - p,
        {
            p += 1;
        }
        bricks.insert(p, b);
        k += 1;
    }
    let ghost sorted = bricks@;
    proof {
        lemma_sort_upto(input@, input@.len() as int);
        lemma_extent(input@, input@.len() as int);
    }
    let mut mx: usize = 0;
    let mut my: usize = 0;
    let mut mz: usize = 0;
    let mut k: usize = 0;
    while k < input.len()
        invariant
            k <= input@.len(),
            extent(input@, k as int) == (mx as int, my as int, mz as int),
        decreases input@.len() - k,
    {
        let b = input[k];
        let ex = if b.to.x >= b.from.x { b.to.x } else { b.from.x };
        let ey = if b.to.y >= b.from.y { b.to.y } else { b.from.y };
        let ez = if b.to.z >= b.from.z { b.to.z } else { b.from.z };
        if ex > mx {
            mx = ex;
        }
        if ey > my {
            my = ey;
        }
        if ez > mz {
            mz = ez;
        }
        k += 1;
    }
    let ghost d = space_for(input@);
    proof {
        let a = d.0 as int;
        let b = d.1 as int;
        let c = d.2 as int;
        assert(a <= isize::MAX && b <= isize::MAX && c <= isize::MAX) by (nonlinear_arith)
            requires
                a >= 1,
                b >= 1,
                c >= 1,
                a * b * c <= isize::MAX,
        ;
    }
    let mut map = space_floor(mx + 1, my + 1, mz + 1);
    let mut k: usize = 0;
    while k < bricks.len()
        invariant
            bricks@ == sorted,
            sorted == sort_upto(input@, input@.len() as int),
            sorted.len() == input@.len(),
            forall|k: int| 0 <= k < input@.len() ==> well_formed(#[trigger] input@[k]),
            forall|k: int| 0 <= k < input@.len() ==> exists|j: int| 0 <= j < input@.len() && #[trigger] sorted[k] == input@[j],
            forall|k: int| 0 <= k < input@.len() ==> #[trigger] input@[k].to.x <= extent(input@, input@.len() as int).0
                && input@[k].to.y <= extent(input@, input@.len() as int).1
                && input@[k].to.z <= extent(input@, input@.len() as int).2,
            d == space_for(input@),
            space_dim(map) == d,
            k <= sorted.len(),
            space_cells(map) == blit_all(floor_cells(d.0, d.1, d.2), sorted, k as int),
            shaped(space_cells(map), d),
            floor_whole(space_cells(map), d),
        decreases sorted.len() - k,
    {
        let b = bricks[k];
        proof {
            let j = choose|j: int| 0 <= j < input@.len() && sorted[k as int] == input@[j];
            assert(well_formed(input@[j]));
            assert(input@[j].to.x <= extent(input@, input@.len() as int).0);
            lemma_blitted_keeps(space_cells(map), b, true, d);
        }
        b.blit(&mut map, true);
        k += 1;
    }
    proof {
        assert forall|k: int| 0 <= k < bricks@.len() implies placed(#[trigger] bricks@[k], d) by {
            let j = choose|j: int| 0 <= j < input@.len() && sorted[k] == input@[j];
            assert(well_formed(input@[j]));
            assert(input@[j].to.x <= extent(input@, input@.len() as int).0);
        }
    }
    fall(&mut bricks, &mut map);
    (bricks, map)
}


/// The number of bricks that fall when brick `i` of the settled stack is
/// taken away and the others are let fall.
pub open spec fn falls_without(c: Seq<Seq<Seq<bool>>>, bs: Seq<Brick>, i: int) -> nat {
    settle_from(blitted(c, bs[i], false), bs.remove(i), 0).2
}

/// The number of the first `n` bricks whose removal lets no other fall.
pub open spec fn safe_count(c: Seq<Seq<Seq<bool>>>, bs: Seq<Brick>, n: int) -> int
    decreases n,
{
    if n <= 0 { 0 } else { safe_count(c, bs, n - 1) + if falls_without(c, bs, n - 1) == 0 { 1int } else { 0int } }
}

/// The sum, over the first `n` bricks, of the bricks that fall without it.
pub open spec fn chain_sum(c: Seq<Seq<Seq<bool>>>, bs: Seq<Brick>, n: int) -> int
    decreases n,
{
    if n <= 0 { 0 } else { chain_sum(c, bs, n - 1) + falls_without(c, bs, n - 1) }
}

proof fn lemma_settle_from_count(c: Seq<Seq<Seq<bool>>>, bs: Seq<Brick>, i: nat)
    ensures
        settle_from(c, bs, i).2 <= if i <= bs.len() { bs.len() - i } else { 0 },
    decreases bs.len() - i,
{
    if i < bs.len() {
        lemma_settle_from_count(settle(c, bs[i as int]).0, bs.update(i as int, settle(c, bs[i as int]).1), i + 1);
    }
}

proof fn lemma_sums(c: Seq<Seq<Seq<bool>>>, bs: Seq<Brick>, n: int)
    requires
        0 <= n <= bs.len(),
    ensures
        0 <= safe_count(c, bs, n) <= n,
        0 <= chain_sum(c, bs, n) <= n * bs.len(),
    decreases n,
{
    if n > 0 {
        lemma_sums(c, bs, n - 1);
        lemma_settle_from_count(blitted(c, bs[n - 1], false), bs.remove(n - 1), 0);
        assert((n - 1) * bs.len() + bs.len() == n * bs.len()) by (nonlinear_arith);
    }
}

/// Takes brick `i` of the stack away and lets the others fall; returns
/// how many fell (see `falls_without`).
fn try_without(bricks: &Vec<Brick>, map: &Space, i: usize) -> (res: usize)
    requires
        i < bricks@.len(),
        forall|k: int| 0 <= k < bricks@.len() ==> placed(#[trigger] bricks@[k], space_dim(*map)),
        floor_whole(space_cells(*map), space_dim(*map)),
    ensures
        res == falls_without(space_cells(*map), bricks@, i as int),
{
    let (nx, ny, nz) = space_dims(map);
    let mut sym_bricks: Vec<Brick> = Vec::new();
    let mut k: usize = 0;
    while k < bricks.len()
        invariant
            k <= bricks@.len(),
            sym_bricks@ == bricks@.take(k as int),
        decreases bricks@.len() - k,
    {
        sym_bricks.push(bricks[k]);
        assert(sym_bricks@ =~= bricks@.take(k + 1));
        k += 1;
    }
    assert(sym_bricks@ =~= bricks@);
    let mut sym_map = space_clone(map);
    let b = sym_bricks[i];
    proof {
        assert(placed(b, space_dim(*map)));
        lemma_blitted_keeps(space_cells(sym_map), b, false, space_dim(sym_map));
    }
    b.blit(&mut sym_map, false);
    sym_bricks.remove(i);
    proof {
        assert forall|k: int| 0 <= k < sym_bricks@.len() implies placed(#[trigger] sym_bricks@[k], space_dim(sym_map)) by {
            if k < i {
                assert(sym_bricks@[k] == bricks@[k]);
            } else {
                assert(sym_bricks@[k] == bricks@[k + 1]);
            }
        }
    }
    fall(&mut sym_bricks, &mut sym_map)
}

/// The number of bricks that can be taken away without any other falling.
pub fn part1(input: &[Brick]) -> (res: u32)
    requires
        snapshot_ok(input@),
        input@.len() <= u32::MAX,
    ensures
        res == safe_count(settled(input@).0, settled(input@).1, settled(input@).1.len() as int),
{
    let (bricks, map) = init(input);
    let ghost c = space_cells(map);
    let ghost bs = bricks@;
    proof {
        lemma_sort_upto(input@, input@.len() as int);
        lemma_settle_len(blit_all(floor_cells(space_for(input@).0, space_for(input@).1, space_for(input@).2),
            sort_upto(input@, input@.len() as int), input@.len() as int), sort_upto(input@, input@.len() as int), 0);
    }
    let mut ret: u32 = 0;
    let mut i: usize = 0;
    while i < bricks.len()
        invariant
            c == space_cells(map),
            bs == bricks@,
            bs.len() <= u32::MAX,
            forall|k: int| 0 <= k < bricks@.len() ==> placed(#[trigger] bricks@[k], space_dim(map)),
            floor_whole(space_cells(map), space_dim(map)),
            i <= bs.len(),
            ret == safe_count(c, bs, i as int),
        decreases bs.len() - i,
    {
        proof {
            lemma_sums(c, bs, i + 1);
        }
        if try_without(&bricks, &map, i) == 0 {
            ret += 1;
        }
        i += 1;
    }
    ret
}

/// The sum, over the bricks, of the other bricks that fall when it is taken
/// away.
pub fn part2(input: &[Brick]) -> (res: usize)
    requires
        snapshot_ok(input@),
        input@.len() * input@.len() <= usize::MAX,
    ensures
        res == chain_sum(settled(input@).0, settled(input@).1, settled(input@).1.len() as int),
{
    let (bricks, map) = init(input);
    let ghost c = space_cells(map);
    let ghost bs = bricks@;
    proof {
        lemma_sort_upto(input@, input@.len() as int);
        lemma_settle_len(blit_all(floor_cells(space_for(input@).0, space_for(input@).1, space_for(input@).2),
            sort_upto(input@, input@.len() as int), input@.len() as int), sort_upto(input@, input@.len() as int), 0);
    }
    let mut ret: usize = 0;
    let mut i: usize = 0;
    while i < bricks.len()
        invariant
            c == space_cells(map),
            bs == bricks@,
            bs.len() * bs.len() <= usize::MAX,
            forall|k: int| 0 <= k < bricks@.len() ==> placed(#[trigger] bricks@[k], space_dim(map)),
            floor_whole(space_cells(map), space_dim(map)),
            i <= bs.len(),
            ret == chain_sum(c, bs, i as int),
        decreases bs.len() - i,
    {
        proof {
            lemma_sums(c, bs, i + 1);
            assert((i + 1) * bs.len() <= bs.len() * bs.len()) by (nonlinear_arith)
                requires
                    i + 1 <= bs.len(),
            ;
        }
        ret += try_without(&bricks, &map, i);
        i += 1;
    }
    ret
}

proof fn lemma_settle_len(c: Seq<Seq<Seq<bool>>>, bs: Seq<Brick>, i: nat)
    ensures
        settle_from(c, bs, i).1.len() == bs.len(),
    decreases bs.len() - i,
{
    if i < bs.len() {
        lemma_settle_len(settle(c, bs[i as int]).0, bs.update(i as int, settle(c, bs[i as int]).1), i + 1);
    }
}

} // verus!
