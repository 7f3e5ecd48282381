//! The rules of the game.

use vstd::prelude::*;

use crate::grid::{
    at, dir_x, dir_y, lemma_pos, marked, neighbor, on_grid, opposite, pos, unmarked, Cell,
};
use crate::reach::lemma_update_cell;

verus! {

/// Walls, boxes and dead squares of a grid.
pub ghost struct Board {
    pub w: u8,
    pub h: u8,
    pub walls: Seq<bool>,
    pub boxes: Seq<bool>,
    pub dead: Seq<bool>,
}

impl Board {
    /// Every cell has its bits.
    pub open spec fn wf(self) -> bool {
        self.w * self.h <= self.boxes.len()
    }

    /// Neither wall nor box.
    pub open spec fn vacant(self, c: Cell) -> bool {
        !at(self.walls, self.w, c) && !at(self.boxes, self.w, c)
    }
}

/// Boxes after the box at `c` has moved to `to`.
pub open spec fn moved(w: u8, boxes: Seq<bool>, c: Cell, to: Cell) -> Seq<bool> {
    boxes.update(pos(w, c), false).update(pos(w, to), true)
}

/// The board after the box at `c` is pushed one cell in direction `d`, wherever the player is:
/// the cell behind the box and the cell before it must be vacant, the box may not be inside a wall,
/// and it may not come to stand on a dead square.
pub open spec fn push_box(b: Board, c: Cell, d: int) -> Option<Board> {
    match (neighbor(b.w, b.h, c, opposite(d)), neighbor(b.w, b.h, c, d)) {
        (Some(from), Some(to)) => if on_grid(b.w, b.h, c) && 0 <= d < 4 && at(b.boxes, b.w, c)
            && !at(b.walls, b.w, c) && b.vacant(from) && b.vacant(to) && !at(b.dead, b.w, to) {
            Some(Board { boxes: moved(b.w, b.boxes, c, to), ..b })
        } else {
            None
        },
        _ => None,
    }
}

/// The board after a sequence of pushes.
pub open spec fn push_boxes(b: Board, pushes: Seq<(Cell, int)>) -> Option<Board>
    decreases pushes.len(),
{
    if pushes.len() == 0 {
        Some(b)
    } else {
        match push_boxes(b, pushes.drop_last()) {
            Some(m) => push_box(m, pushes.last().0, pushes.last().1),
            None => None,
        }
    }
}

/// Which cells have boxes after a move.
pub proof fn lemma_moved(w: u8, h: u8, boxes: Seq<bool>, c: Cell, to: Cell, b: Cell)
    requires
        on_grid(w, h, c),
        on_grid(w, h, to),
        on_grid(w, h, b),
        w * h <= boxes.len(),
    ensures
        at(moved(w, boxes, c, to), w, b) == (b == to || (b != c && at(boxes, w, b))),
        moved(w, boxes, c, to).len() == boxes.len(),
{
    lemma_pos(w, h, c);
    lemma_pos(w, h, to);
    lemma_update_cell(w, h, boxes, c, b, false);
    lemma_update_cell(w, h, boxes.update(pos(w, c), false), to, b, true);
}

/// What a push requires and does.
pub proof fn lemma_push_box(b: Board, c: Cell, d: int)
    requires
        b.wf(),
        push_box(b, c, d) is Some,
    ensures
        on_grid(b.w, b.h, c),
        0 <= d < 4,
        at(b.boxes, b.w, c),
        !at(b.walls, b.w, c),
        neighbor(b.w, b.h, c, d) is Some,
        neighbor(b.w, b.h, c, opposite(d)) is Some,
        b.vacant(neighbor(b.w, b.h, c, d)->0),
        b.vacant(neighbor(b.w, b.h, c, opposite(d))->0),
        !at(b.dead, b.w, neighbor(b.w, b.h, c, d)->0),
        ({
            let after = push_box(b, c, d)->0;
            let to = neighbor(b.w, b.h, c, d)->0;
            &&& after.wf()
            &&& after.w == b.w && after.h == b.h && after.walls == b.walls && after.dead == b.dead
            &&& on_grid(b.w, b.h, to)
            &&& to != c
            &&& forall|m: Cell|
                on_grid(b.w, b.h, m) ==> #[trigger] at(after.boxes, b.w, m) == (m == to || (m != c
                    && at(b.boxes, b.w, m)))
        }),
{
    let to = neighbor(b.w, b.h, c, d)->0;
    let after = push_box(b, c, d)->0;
    assert forall|m: Cell| on_grid(b.w, b.h, m) implies #[trigger] at(after.boxes, b.w, m) == (m
        == to || (m != c && at(b.boxes, b.w, m))) by {
        lemma_moved(b.w, b.h, b.boxes, c, to, m);
    }
    lemma_moved(b.w, b.h, b.boxes, c, to, c);
}

// ── The player ────────────────────────────────────────────────────────────

/// Where the player and the boxes are.
pub ghost struct Position {
    pub player: Cell,
    pub boxes: Seq<bool>,
}

/// The letter for a step in direction `d`: upper case when the step pushes a box.
pub open spec fn letter(d: int, push: bool) -> char {
    if push {
        if d == 0 {
            'U'
        } else if d == 1 {
            'D'
        } else if d == 2 {
            'L'
        } else {
            'R'
        }
    } else {
        if d == 0 {
            'u'
        } else if d == 1 {
            'd'
        } else if d == 2 {
            'l'
        } else {
            'r'
        }
    }
}

/// The position after the player steps in direction `d`. A step without `push` needs a vacant
/// cell; one with `push` needs a box there and a vacant cell beyond it, to which the box goes.
pub open spec fn step_player(
    w: u8,
    h: u8,
    walls: Seq<bool>,
    p: Position,
    d: int,
    push: bool,
) -> Option<Position> {
    match neighbor(w, h, p.player, d) {
        Some(n) => if at(walls, w, n) || at(p.boxes, w, n) != push {
            None
        } else if !push {
            Some(Position { player: n, boxes: p.boxes })
        } else {
            match neighbor(w, h, n, d) {
                Some(to) => if at(walls, w, to) || at(p.boxes, w, to) {
                    None
                } else {
                    Some(Position { player: n, boxes: moved(w, p.boxes, n, to) })
                },
                None => None,
            }
        },
        None => None,
    }
}

/// The position after one letter, if it is the letter of a step that can be made.
pub open spec fn play_letter(w: u8, h: u8, walls: Seq<bool>, p: Position, c: char) -> Option<
    Position,
> {
    if c == 'u' {
        step_player(w, h, walls, p, 0, false)
    } else if c == 'd' {
        step_player(w, h, walls, p, 1, false)
    } else if c == 'l' {
        step_player(w, h, walls, p, 2, false)
    } else if c == 'r' {
        step_player(w, h, walls, p, 3, false)
    } else if c == 'U' {
        step_player(w, h, walls, p, 0, true)
    } else if c == 'D' {
        step_player(w, h, walls, p, 1, true)
    } else if c == 'L' {
        step_player(w, h, walls, p, 2, true)
    } else if c == 'R' {
        step_player(w, h, walls, p, 3, true)
    } else {
        None
    }
}

/// The position after the moves, if all of them can be made.
pub open spec fn play(w: u8, h: u8, walls: Seq<bool>, p: Position, moves: Seq<char>) -> Option<
    Position,
>
    decreases moves.len(),
{
    if moves.len() == 0 {
        Some(p)
    } else {
        match play(w, h, walls, p, moves.drop_last()) {
            Some(q) => play_letter(w, h, walls, q, moves.last()),
            None => None,
        }
    }
}

/// Playing the letter of a step makes the step.
pub proof fn lemma_play_letter(w: u8, h: u8, walls: Seq<bool>, p: Position, d: int, push: bool)
    requires
        0 <= d < 4,
    ensures
        play_letter(w, h, walls, p, letter(d, push)) == step_player(w, h, walls, p, d, push),
{
}

/// Playing moves one after the other.
pub proof fn lemma_play_concat(
    w: u8,
    h: u8,
    walls: Seq<bool>,
    p: Position,
    a: Seq<char>,
    b: Seq<char>,
)
    ensures
        play(w, h, walls, p, a + b) == match play(w, h, walls, p, a) {
            Some(q) => play(w, h, walls, q, b),
            None => None::<Position>,
        },
    decreases b.len(),
{
    if b.len() == 0 {
        assert(a + b =~= a);
    } else {
        lemma_play_concat(w, h, walls, p, a, b.drop_last());
        assert((a + b).drop_last() =~= a + b.drop_last());
    }
}

/// What a step to a column and row does. Without `push` the cell must be free; with it there must be
/// a box, which goes to the cell beyond if that is free.
pub open spec fn goes(
    w: u8,
    h: u8,
    walls: Seq<bool>,
    p: Position,
    to: (int, int),
    beyond: (int, int),
    push: bool,
    r: Option<Position>,
) -> bool {
    let (x, y) = to;
    let (bx, by) = beyond;
    let can = unmarked(w, h, walls, x, y) && if push {
        marked(w, h, p.boxes, x, y) && unmarked(w, h, walls, bx, by) && unmarked(
            w,
            h,
            p.boxes,
            bx,
            by,
        )
    } else {
        unmarked(w, h, p.boxes, x, y)
    };
    &&& r is Some <==> can
    &&& can ==> r->0.player.0 == x && r->0.player.1 == y
    &&& can && !push ==> r->0.boxes == p.boxes
    &&& can && push ==> r->0.boxes.len() == p.boxes.len() && forall|i: int|
        0 <= i < p.boxes.len() ==> #[trigger] r->0.boxes[i] == (i == by * w + bx || i != y * w + x
            && p.boxes[i])
}

/// Each letter moves the player one cell, `u` up, `d` down, `l` left and `r` right, and the letters
/// in upper case push a box in the same direction. Other letters are no moves.
pub proof fn law_letters_say_where_the_player_goes(
    w: u8,
    h: u8,
    walls: Seq<bool>,
    p: Position,
    c: char,
)
    requires
        on_grid(w, h, p.player),
        w * h <= p.boxes.len(),
    ensures
        ({
            let (x, y) = (p.player.0 as int, p.player.1 as int);
            let r = play_letter(w, h, walls, p, c);
            &&& c == 'u' || c == 'U' ==> goes(w, h, walls, p, (x, y - 1), (x, y - 2), c == 'U', r)
            &&& c == 'd' || c == 'D' ==> goes(w, h, walls, p, (x, y + 1), (x, y + 2), c == 'D', r)
            &&& c == 'l' || c == 'L' ==> goes(w, h, walls, p, (x - 1, y), (x - 2, y), c == 'L', r)
            &&& c == 'r' || c == 'R' ==> goes(w, h, walls, p, (x + 1, y), (x + 2, y), c == 'R', r)
            &&& !"udlrUDLR"@.contains(c) ==> r is None
        }),
{
    let (x, y) = (p.player.0 as int, p.player.1 as int);
    reveal_strlit("udlrUDLR");
    let s = "udlrUDLR"@;
    assert(s[0] == 'u' && s[1] == 'd' && s[2] == 'l' && s[3] == 'r');
    assert(s[4] == 'U' && s[5] == 'D' && s[6] == 'L' && s[7] == 'R');
    if s.contains(c) {
        let d: int = if c == 'u' || c == 'U' {
            0
        } else if c == 'd' || c == 'D' {
            1
        } else if c == 'l' || c == 'L' {
            2
        } else {
            3
        };
        lemma_goes(w, h, walls, p, d, c == 'U' || c == 'D' || c == 'L' || c == 'R');
    }
}

proof fn lemma_goes(w: u8, h: u8, walls: Seq<bool>, p: Position, d: int, push: bool)
    requires
        on_grid(w, h, p.player),
        w * h <= p.boxes.len(),
        0 <= d < 4,
    ensures
        ({
            let (x, y) = (p.player.0 + dir_x(d), p.player.1 + dir_y(d));
            let beyond = (x + dir_x(d), y + dir_y(d));
            goes(w, h, walls, p, (x, y), beyond, push, step_player(w, h, walls, p, d, push))
        }),
{
    let r = step_player(w, h, walls, p, d, push);
    if let Some(n) = neighbor(w, h, p.player, d) {
        lemma_pos(w, h, n);
        if let Some(to) = neighbor(w, h, n, d) {
            lemma_pos(w, h, to);
        }
    }
}

} // verus!
