//! From pushes to the player's moves.

use vstd::prelude::*;

use crate::bfs::{
    is_least_path, lemma_before_irreflexive, lemma_before_transitive, lemma_followed_in_range,
    not_after,
};
use crate::bitplane::{cell_count, BitPlane};
use crate::grid::{cell_at, dir_x, dir_y, follow, lemma_pos, on_grid, pos, reaches, walk_step, Cell};
use crate::reach::{fits, lemma_cell_stored};
use crate::rules::{letter, moved};
use crate::walk::{bfs_path, offsets};

verus! {

/// A push of one box along a line.
#[derive(Clone, Copy, Debug, PartialEq, Eq, Structural)]
pub struct Push {
    pub from_x: u8,
    pub from_y: u8,
    pub to_x: u8,
    pub to_y: u8,
    /// Row-major position of the cell the player must stand on to make this push.
    pub from_flat: usize,
    /// Number of cells that the box moves.
    pub steps: u32,
}

/// The sign of a number.
pub open spec fn sign(x: int) -> int {
    if x < 0 {
        -1
    } else if x > 0 {
        1
    } else {
        0
    }
}

/// The size of a number.
pub open spec fn size(x: int) -> int {
    if x < 0 {
        -x
    } else {
        x
    }
}

/// The cell that a row-major position stands for. Rows are taken modulo 256.
pub open spec fn stand(w: u8, i: int) -> Cell {
    ((i % (w as int)) as u8, ((i / (w as int)) % 256) as u8)
}

impl Push {
    /// The cell that the box is pushed from.
    pub open spec fn from(&self) -> Cell {
        (self.from_x, self.from_y)
    }

    /// The cell that the box is pushed to.
    pub open spec fn to(&self) -> Cell {
        (self.to_x, self.to_y)
    }

    /// Horizontal direction of the push.
    pub open spec fn dx(&self) -> int {
        sign(self.to_x - self.from_x)
    }

    /// Vertical direction of the push.
    pub open spec fn dy(&self) -> int {
        sign(self.to_y - self.from_y)
    }

    /// The cell where the player stands after the push.
    pub open spec fn behind(&self) -> Cell {
        ((self.to_x - self.dx()) as u8, (self.to_y - self.dy()) as u8)
    }

    /// The letters of the push.
    pub open spec fn letters(&self) -> Seq<char> {
        let c = if self.dx() == 0 && self.dy() == -1 {
            'U'
        } else if self.dx() == 0 && self.dy() == 1 {
            'D'
        } else if self.dx() == -1 && self.dy() == 0 {
            'L'
        } else if self.dx() == 1 && self.dy() == 0 {
            'R'
        } else {
            '?'
        };
        Seq::new(
            (size(self.to_x - self.from_x) + size(self.to_y - self.from_y)) as nat,
            |i: int| c,
        )
    }

    /// The push names cells of the grid.
    pub open spec fn on(&self, w: u8, h: u8) -> bool {
        &&& on_grid(w, h, self.from())
        &&& on_grid(w, h, self.to())
        &&& on_grid(w, h, stand(w, self.from_flat as int))
    }
}

/// The first of the shortest walks, or none.
pub open spec fn walk_dirs(
    w: u8,
    h: u8,
    walls: Seq<bool>,
    boxes: Seq<bool>,
    from: Cell,
    to: Cell,
) -> Seq<int> {
    let step = walk_step(w, h, walls, boxes);
    if reaches(step, from, to) {
        choose|dirs: Seq<int>| is_least_path(step, from, to, dirs)
    } else {
        Seq::empty()
    }
}

/// The letters of a walk.
pub open spec fn walk_letters(dirs: Seq<int>) -> Seq<char> {
    Seq::new(dirs.len(), |i: int| letter(dirs[i], false))
}

/// Where the player stands after some pushes.
pub open spec fn player_after(start: Cell, path: Seq<Push>) -> Cell {
    if path.len() == 0 {
        start
    } else {
        path.last().behind()
    }
}

/// The boxes after some pushes.
pub open spec fn boxes_after(w: u8, boxes: Seq<bool>, path: Seq<Push>) -> Seq<bool>
    decreases path.len(),
{
    if path.len() == 0 {
        boxes
    } else {
        moved(w, boxes_after(w, boxes, path.drop_last()), path.last().from(), path.last().to())
    }
}

/// The moves that make some pushes: before each, the player's walk to the cell behind the box.
pub open spec fn moves_for(
    w: u8,
    h: u8,
    walls: Seq<bool>,
    start: Cell,
    boxes: Seq<bool>,
    path: Seq<Push>,
) -> Seq<char>
    decreases path.len(),
{
    if path.len() == 0 {
        Seq::empty()
    } else {
        let before = path.drop_last();
        moves_for(w, h, walls, start, boxes, before) + walk_letters(
            walk_dirs(
                w,
                h,
                walls,
                boxes_after(w, boxes, before),
                player_after(start, before),
                stand(w, path.last().from_flat as int),
            ),
        ) + path.last().letters()
    }
}

/// There is only one first of the shortest walks.
pub proof fn lemma_walk_dirs(
    w: u8,
    h: u8,
    walls: Seq<bool>,
    boxes: Seq<bool>,
    from: Cell,
    to: Cell,
    dirs: Seq<int>,
)
    requires
        is_least_path(walk_step(w, h, walls, boxes), from, to, dirs),
    ensures
        walk_dirs(w, h, walls, boxes, from, to) == dirs,
{
    let step = walk_step(w, h, walls, boxes);
    assert(follow(step, from, dirs) == Some(to));
    let other = choose|other: Seq<int>| is_least_path(step, from, to, other);
    assert(is_least_path(step, from, to, other));
    assert(follow(step, from, other) == Some(to));
    assert(not_after(dirs, other) && not_after(other, dirs));
    if dirs != other {
        lemma_before_transitive(dirs, other, dirs);
        lemma_before_irreflexive(dirs);
    }
}

/// The cell that a row-major position stands for.
pub fn stand_of(width: u8, i: usize) -> (r: (u8, u8))
    requires
        width > 0,
    ensures
        r == stand(width, i as int),
{
    let w = width as usize;
    let y: usize = i / w;
    let y8 = y as u8;
    assert(y8 == y % 256) by (bit_vector)
        requires
            y8 == y as u8,
    ;
    ((i % w) as u8, y8)
}

/// On the grid a row-major position stands for its cell.
pub proof fn lemma_stand(w: u8, h: u8, c: Cell)
    requires
        on_grid(w, h, c),
    ensures
        stand(w, pos(w, c)) == c,
        stand(w, pos(w, c)) == cell_at(w, pos(w, c)),
{
    lemma_pos(w, h, c);
    crate::bitplane::lemma_flat(w as int, h as int, c.0 as int, c.1 as int);
}

fn walk_char(step: (i8, i8)) -> (c: char)
    ensures
        forall|d: int|
            0 <= d < 4 && step == (dir_x(d) as i8, dir_y(d) as i8) ==> c == #[trigger] letter(
                d,
                false,
            ),
{
    match step {
        (0, -1) => 'u',
        (0, 1) => 'd',
        (-1, 0) => 'l',
        (1, 0) => 'r',
        _ => '?',
    }
}

/// The direction from one coordinate to another.
fn unit(from: u8, to: u8) -> (r: i32)
    ensures
        r == sign(to - from),
{
    if to < from {
        -1
    } else if to > from {
        1
    } else {
        0
    }
}

/// The distance from one coordinate to another.
fn span(from: u8, to: u8) -> (r: usize)
    ensures
        r == size(to - from),
{
    if to < from {
        (from - to) as usize
    } else {
        (to - from) as usize
    }
}

/// Append the walk from one cell to another.
fn push_walk(
    moves: &mut String,
    from: (u8, u8),
    to: (u8, u8),
    walls: &BitPlane,
    boxes: &BitPlane,
    width: u8,
    height: u8,
)
    requires
        fits(walls, width, height),
        fits(boxes, width, height),
        on_grid(width, height, from),
        on_grid(width, height, to),
    ensures
        final(moves)@ == old(moves)@ + walk_letters(
            walk_dirs(width, height, walls@, boxes@, from, to),
        ),
{
    let ghost step = walk_step(width, height, walls@, boxes@);
    let ghost dirs = walk_dirs(width, height, walls@, boxes@, from, to);
    let path = bfs_path(from.0, from.1, to.0, to.1, walls, boxes, width, height);
    proof {
        if reaches(step, from, to) {
            let found = choose|d: Seq<int>| #[trigger]
                is_least_path(step, from, to, d) && path@ == offsets(d);
            lemma_walk_dirs(width, height, walls@, boxes@, from, to, found);
            lemma_followed_in_range(step, from, dirs);
        }
        assert(path@ =~= offsets(dirs));
    }
    let ghost letters = walk_letters(dirs);
    let mut k: usize = 0;
    assert(moves@ =~= old(moves)@ + letters.take(0));
    while k < path.len()
        invariant
            k <= path@.len(),
            path@ == offsets(dirs),
            forall|i: int| 0 <= i < dirs.len() ==> 0 <= #[trigger] dirs[i] < 4,
            letters == walk_letters(dirs),
            moves@ == old(moves)@ + letters.take(k as int),
        decreases path@.len() - k,
    {
        let c = walk_char(path[k]);
        proof {
            assert(0 <= dirs[k as int] < 4);
            assert(c == letter(dirs[k as int], false));
        }
        moves.push(c);
        k += 1;
        assert(moves@ =~= old(moves)@ + letters.take(k as int));
    }
    assert(letters.take(k as int) =~= letters);
}

/// Append the letters of a push.
fn push_letters(moves: &mut String, push: &Push)
    ensures
        final(moves)@ == old(moves)@ + push.letters(),
{
    let c = match (unit(push.from_x, push.to_x), unit(push.from_y, push.to_y)) {
        (0, -1) => 'U',
        (0, 1) => 'D',
        (-1, 0) => 'L',
        (1, 0) => 'R',
        _ => '?',
    };
    let steps: usize = span(push.from_x, push.to_x) + span(push.from_y, push.to_y);
    let mut k: usize = 0;
    assert(moves@ =~= old(moves)@ + push.letters().take(0));
    while k < steps
        invariant
            k <= steps,
            steps == push.letters().len(),
            forall|i: int| 0 <= i < steps ==> push.letters()[i] == c,
            moves@ == old(moves)@ + push.letters().take(k as int),
        decreases steps - k,
    {
        moves.push(c);
        k += 1;
        assert(moves@ =~= old(moves)@ + push.letters().take(k as int));
    }
    assert(push.letters().take(k as int) =~= push.letters());
}

/// The full move sequence of some pushes, from where the player and the boxes are at first: lower
/// case letters for the player's walks, upper case letters for pushes.
pub fn reconstruct_moves(
    start_player: u16,
    initial_boxes: &BitPlane,
    path: &Vec<Push>,
    width: u8,
    walls: &BitPlane,
) -> (moves: String)
    requires
        walls.wf(),
        walls.width == width,
        fits(initial_boxes, width, walls.height),
        on_grid(width, walls.height, stand(width, start_player as int)),
        forall|k: int| 0 <= k < path@.len() ==> (#[trigger] path@[k]).on(width, walls.height),
    ensures
        moves@ == moves_for(
            width,
            walls.height,
            walls@,
            stand(width, start_player as int),
            initial_boxes@,
            path@,
        ),
{
    let height = walls.height;
    let ghost start = stand(width, start_player as int);
    let mut player_pos = start_player;
    let mut boxes = initial_boxes.clone();
    let mut moves = String::new();
    let mut k: usize = 0;
    assert(path@.take(0) =~= Seq::<Push>::empty());
    while k < path.len()
        invariant
            k <= path@.len(),
            height == walls.height,
            start == stand(width, start_player as int),
            fits(walls, width, height),
            fits(&boxes, width, height),
            on_grid(width, height, start),
            forall|j: int| 0 <= j < path@.len() ==> (#[trigger] path@[j]).on(width, height),
            stand(width, player_pos as int) == player_after(start, path@.take(k as int)),
            on_grid(width, height, stand(width, player_pos as int)),
            boxes@ == boxes_after(width, initial_boxes@, path@.take(k as int)),
            moves@ == moves_for(
                width,
                height,
                walls@,
                start,
                initial_boxes@,
                path@.take(k as int),
            ),
        decreases path@.len() - k,
    {
        let push = path[k];
        proof {
            assert(path@[k as int].on(width, height));
            assert(path@.take(k + 1).drop_last() =~= path@.take(k as int));
            assert(path@.take(k + 1).last() == push);
            lemma_cell_stored(&boxes, width, height, push.from());
            lemma_cell_stored(&boxes, width, height, push.to());
        }
        let target = stand_of(width, push.from_flat);
        let at = stand_of(width, player_pos as usize);
        push_walk(&mut moves, at, target, walls, &boxes, width, height);
        push_letters(&mut moves, &push);
        boxes.clear(push.from_x, push.from_y);
        boxes.set(push.to_x, push.to_y);
        let px: u8 = (push.to_x as i32 - unit(push.from_x, push.to_x)) as u8;
        let py: u8 = (push.to_y as i32 - unit(push.from_y, push.to_y)) as u8;
        proof {
            assert((px, py) == push.behind());
            lemma_stand(width, height, (px, py));
        }
        player_pos = (cell_count(py, width) + px as usize) as u16;
        k += 1;
    }
    assert(path@.take(k as int) =~= path@);
    moves
}

} // verus!
