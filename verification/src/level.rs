//! Levels and their two notations: XSB text and a compact binary form.

use vstd::prelude::*;
use vstd::string::StringExecFns;

use crate::bitplane::{cell_count, flat, lemma_flat, lemma_unflat, plane_bytes, BitPlane};
use crate::grid::{at, cell_at, cell_of, lemma_cell_at, lemma_pos, on_grid, pos, Cell};
use crate::reach::{fits, lemma_cell_stored};
use crate::text::{
    chars_of, joined, lemma_lines_joined, lines, lines_of, texts, uniform,
};

verus! {

/// Why a level could not be read.
#[derive(Clone, Copy, Debug, PartialEq, Eq, Structural)]
pub enum LevelError {
    /// The text has no lines.
    EmptyLevel,
    /// The binary form has fewer than five bytes.
    DataTooShort,
    /// The checksum does not match the bytes before it.
    CrcMismatch,
    /// The planes are cut short.
    DataTruncated,
    /// A fragment holds a character outside the alphabet.
    InvalidBase64,
    /// The payload of a fragment lacks its version and flags.
    PayloadTooShort,
    /// The payload of a fragment lacks the header of the level.
    MissingHeader,
    /// The payload of a fragment ends before the level does.
    PayloadTruncated,
    /// A fragment does not start as one of a known version does.
    UnsupportedFragment,
    /// A fragment with metadata does not start as one of a known version does.
    UnsupportedVersion,
}

/// The words for an error.
pub open spec fn words(e: LevelError) -> Seq<char> {
    match e {
        LevelError::EmptyLevel => "empty level"@,
        LevelError::DataTooShort => "data too short"@,
        LevelError::CrcMismatch => "CRC mismatch — data may be corrupted"@,
        LevelError::DataTruncated => "data truncated"@,
        LevelError::InvalidBase64 => "invalid base64url"@,
        LevelError::PayloadTooShort => "payload too short"@,
        LevelError::MissingHeader => "payload missing level header"@,
        LevelError::PayloadTruncated => "payload truncated"@,
        LevelError::UnsupportedFragment => "unsupported fragment version"@,
        LevelError::UnsupportedVersion => "unsupported version"@,
    }
}

impl LevelError {
    /// The error in words.
    pub fn message(&self) -> (r: String)
        ensures
            r@ == words(*self),
    {
        let text: &str = match self {
            LevelError::EmptyLevel => "empty level",
            LevelError::DataTooShort => "data too short",
            LevelError::CrcMismatch => "CRC mismatch — data may be corrupted",
            LevelError::DataTruncated => "data truncated",
            LevelError::InvalidBase64 => "invalid base64url",
            LevelError::PayloadTooShort => "payload too short",
            LevelError::MissingHeader => "payload missing level header",
            LevelError::PayloadTruncated => "payload truncated",
            LevelError::UnsupportedFragment => "unsupported fragment version",
            LevelError::UnsupportedVersion => "unsupported version",
        };
        String::from_str(text)
    }
}

/// A Sokoban level.
///
/// In XSB text `#` is a wall, `$` a box, `.` a goal, `*` a box on a goal, `@` the player, `+` the
/// player on a goal, and a space is floor.
pub struct SokobanLevel {
    pub width: u8,
    pub height: u8,
    pub walls: BitPlane,
    pub boxes: BitPlane,
    pub goals: BitPlane,
    /// Row-major position of the player.
    pub player_pos: u16,
}

// ── XSB text ──────────────────────────────────────────────────────────────

/// What a character puts on a plane.
#[derive(Clone, Copy, Debug, PartialEq, Eq, Structural)]
pub enum Mark {
    Wall,
    Box,
    Goal,
}

/// The character stands for the mark.
pub open spec fn is_mark(kind: Mark, c: char) -> bool {
    match kind {
        Mark::Wall => c == '#',
        Mark::Box => c == '$' || c == '*',
        Mark::Goal => c == '.' || c == '*' || c == '+',
    }
}

/// The character stands for the player.
pub open spec fn is_player(c: char) -> bool {
    c == '@' || c == '+'
}

/// The length of the longest row.
pub open spec fn widest(rows: Seq<Seq<char>>) -> int
    decreases rows.len(),
{
    if rows.len() == 0 {
        0
    } else if rows.last().len() > widest(rows.drop_last()) {
        rows.last().len() as int
    } else {
        widest(rows.drop_last())
    }
}

/// Width of the grid that the rows describe. Numbers are taken modulo 256.
pub open spec fn xsb_width(rows: Seq<Seq<char>>) -> int {
    widest(rows) % 256
}

/// Height of the grid that the rows describe.
pub open spec fn xsb_height(rows: Seq<Seq<char>>) -> int {
    rows.len() as int % 256
}

/// Position in the grid of the character in column `x` of row `y`.
pub open spec fn xsb_pos(rows: Seq<Seq<char>>, x: int, y: int) -> int {
    flat(xsb_width(rows), x % 256, y % 256)
}

/// The character in column `x` of row `y` puts a mark on position `i`.
pub open spec fn puts_mark(rows: Seq<Seq<char>>, kind: Mark, i: int, x: int, y: int) -> bool {
    &&& 0 <= y < rows.len()
    &&& 0 <= x < rows[y].len()
    &&& is_mark(kind, rows[y][x])
    &&& xsb_pos(rows, x, y) == i
}

/// Some character puts a mark on position `i`.
pub open spec fn has_mark(rows: Seq<Seq<char>>, kind: Mark, i: int) -> bool {
    exists|x: int, y: int| #[trigger] puts_mark(rows, kind, i, x, y)
}

/// The last position of the player before column `x` of row `y`, or `before` if there is none
/// in the row.
pub open spec fn player_in_row(rows: Seq<Seq<char>>, y: int, x: int, before: int) -> int
    decreases x,
{
    if x <= 0 {
        before
    } else if is_player(rows[y][x - 1]) {
        xsb_pos(rows, x - 1, y)
    } else {
        player_in_row(rows, y, x - 1, before)
    }
}

/// The last position of the player in the first `y` rows, or 0.
pub open spec fn player_in(rows: Seq<Seq<char>>, y: int) -> int
    decreases y,
{
    if y <= 0 {
        0
    } else {
        player_in_row(rows, y - 1, rows[y - 1].len() as int, player_in(rows, y - 1))
    }
}

/// Number of bits that a plane of the grid stores.
pub open spec fn xsb_bits(rows: Seq<Seq<char>>) -> int {
    8 * plane_bytes(xsb_width(rows), xsb_height(rows))
}

/// A plane of the grid can store every mark. It can when there are at most 255 rows of at most
/// 255 characters.
pub open spec fn storable(rows: Seq<Seq<char>>) -> bool {
    forall|kind: Mark, i: int, x: int, y: int| #[trigger]
        puts_mark(rows, kind, i, x, y) ==> i < xsb_bits(rows)
}

/// The plane holds the marks of the rows.
pub open spec fn holds_marks(p: &BitPlane, rows: Seq<Seq<char>>, kind: Mark) -> bool {
    &&& p.wf()
    &&& p.width == xsb_width(rows)
    &&& p.height == xsb_height(rows)
    &&& forall|i: int| 0 <= i < p@.len() ==> (#[trigger] p@[i] <==> has_mark(rows, kind, i))
}

/// The level is the one that the rows describe.
pub open spec fn reads(rows: Seq<Seq<char>>, l: &SokobanLevel) -> bool {
    &&& l.width == xsb_width(rows)
    &&& l.height == xsb_height(rows)
    &&& holds_marks(&l.walls, rows, Mark::Wall)
    &&& holds_marks(&l.boxes, rows, Mark::Box)
    &&& holds_marks(&l.goals, rows, Mark::Goal)
    &&& l.player_pos == player_in(rows, rows.len() as int)
}

/// A plane of the grid can store every mark before column `x` of row `y`.
spec fn stored_before(rows: Seq<Seq<char>>, x: int, y: int) -> bool {
    forall|kind: Mark, i: int, a: int, b: int| #[trigger]
        puts_mark(rows, kind, i, a, b) && (b < y || (b == y && a < x)) ==> i < xsb_bits(rows)
}

/// Some character before column `x` of row `y` puts a mark on position `i`.
spec fn marked_before(rows: Seq<Seq<char>>, kind: Mark, i: int, x: int, y: int) -> bool {
    exists|a: int, b: int| #[trigger]
        puts_mark(rows, kind, i, a, b) && (b < y || (b == y && a < x))
}

fn char_is_mark(kind: Mark, c: char) -> (r: bool)
    ensures
        r == is_mark(kind, c),
{
    match kind {
        Mark::Wall => c == '#',
        Mark::Box => c == '$' || c == '*',
        Mark::Goal => c == '.' || c == '*' || c == '+',
    }
}

/// The low byte of a number.
fn low_byte(n: usize) -> (r: u8)
    ensures
        r == n % 256,
{
    let r = n as u8;
    assert(r == n % 256) by (bit_vector)
        requires
            r == n as u8,
    ;
    r
}

/// The length of the longest row.
fn longest(rows: &Vec<Vec<char>>) -> (r: usize)
    ensures
        r == widest(texts(rows@)),
{
    let mut r: usize = 0;
    let mut k: usize = 0;
    let ghost all = texts(rows@);
    assert(all.take(0) =~= Seq::<Seq<char>>::empty());
    while k < rows.len()
        invariant
            k <= rows@.len(),
            all == texts(rows@),
            r == widest(all.take(k as int)),
        decreases rows@.len() - k,
    {
        assert(all.take(k + 1).drop_last() =~= all.take(k as int));
        if rows[k].len() > r {
            r = rows[k].len();
        }
        k += 1;
    }
    assert(all.take(k as int) =~= all);
    r
}

/// One more character is considered.
proof fn lemma_marked_next(rows: Seq<Seq<char>>, kind: Mark, i: int, x: int, y: int)
    requires
        0 <= y < rows.len(),
        0 <= x < rows[y].len(),
    ensures
        marked_before(rows, kind, i, x + 1, y) <==> (marked_before(rows, kind, i, x, y)
            || puts_mark(rows, kind, i, x, y)),
{
    if marked_before(rows, kind, i, x + 1, y) {
        let (a, b) = choose|a: int, b: int| #[trigger]
            puts_mark(rows, kind, i, a, b) && (b < y || (b == y && a < x + 1));
        assert(puts_mark(rows, kind, i, a, b));
    }
    if marked_before(rows, kind, i, x, y) {
        let (a, b) = choose|a: int, b: int| #[trigger]
            puts_mark(rows, kind, i, a, b) && (b < y || (b == y && a < x));
        assert(puts_mark(rows, kind, i, a, b));
    }
}

/// A row has been considered to its end.
proof fn lemma_marked_row(rows: Seq<Seq<char>>, kind: Mark, i: int, y: int)
    requires
        0 <= y < rows.len(),
    ensures
        marked_before(rows, kind, i, 0, y + 1) <==> marked_before(
            rows,
            kind,
            i,
            rows[y].len() as int,
            y,
        ),
{
    if marked_before(rows, kind, i, 0, y + 1) {
        let (a, b) = choose|a: int, b: int| #[trigger]
            puts_mark(rows, kind, i, a, b) && (b < y + 1 || (b == y + 1 && a < 0));
        assert(puts_mark(rows, kind, i, a, b));
    }
    if marked_before(rows, kind, i, rows[y].len() as int, y) {
        let (a, b) = choose|a: int, b: int| #[trigger]
            puts_mark(rows, kind, i, a, b) && (b < y || (b == y && a < rows[y].len()));
        assert(puts_mark(rows, kind, i, a, b));
    }
}

/// The plane of one kind of mark.
fn read_plane(rows: &Vec<Vec<char>>, width: u8, height: u8, kind: Mark) -> (p: BitPlane)
    requires
        storable(texts(rows@)),
        width == xsb_width(texts(rows@)),
        height == xsb_height(texts(rows@)),
    ensures
        holds_marks(&p, texts(rows@), kind),
{
    let ghost all = texts(rows@);
    let mut p = BitPlane::new(width, height);
    let mut y: usize = 0;
    while y < rows.len()
        invariant
            y <= rows@.len(),
            all == texts(rows@),
            storable(all),
            width == xsb_width(all),
            height == xsb_height(all),
            p.wf(),
            p.width == width,
            p.height == height,
            forall|i: int|
                0 <= i < p@.len() ==> (#[trigger] p@[i] <==> marked_before(all, kind, i, 0, y as int)),
        decreases rows@.len() - y,
    {
        let row = &rows[y];
        let mut x: usize = 0;
        while x < row.len()
            invariant
                y < rows@.len(),
                row == rows@[y as int],
                x <= row@.len(),
                all == texts(rows@),
                storable(all),
                width == xsb_width(all),
                height == xsb_height(all),
                p.wf(),
                p.width == width,
                p.height == height,
                forall|i: int|
                    0 <= i < p@.len() ==> (#[trigger] p@[i] <==> marked_before(
                        all,
                        kind,
                        i,
                        x as int,
                        y as int,
                    )),
            decreases row@.len() - x,
        {
            let ghost before = p@;
            let ghost f = xsb_pos(all, x as int, y as int);
            proof {
                assert(all[y as int] == row@);
                assert forall|i: int| 0 <= i < before.len() implies #[trigger] marked_before(
                    all,
                    kind,
                    i,
                    x + 1,
                    y as int,
                ) == (before[i] || puts_mark(all, kind, i, x as int, y as int)) by {
                    lemma_marked_next(all, kind, i, x as int, y as int);
                }
            }
            if char_is_mark(kind, row[x]) {
                assert(puts_mark(all, kind, f, x as int, y as int));
                p.set(low_byte(x), low_byte(y));
            }
            x += 1;
        }
        proof {
            assert(all[y as int] == row@);
            assert forall|i: int| 0 <= i < p@.len() implies #[trigger] p@[i] == marked_before(
                all,
                kind,
                i,
                0,
                y + 1,
            ) by {
                lemma_marked_row(all, kind, i, y as int);
            }
        }
        y += 1;
    }
    proof {
        assert forall|i: int| 0 <= i < p@.len() implies (#[trigger] p@[i] <==> has_mark(
            all,
            kind,
            i,
        )) by {
            if has_mark(all, kind, i) {
                let (a, b) = choose|a: int, b: int| #[trigger] puts_mark(all, kind, i, a, b);
                assert(puts_mark(all, kind, i, a, b) && b < y);
                assert(marked_before(all, kind, i, 0, y as int));
            }
        }
    }
    p
}

/// Whether a plane of the grid that the text describes can store every mark.
pub fn can_store(xsb: &str) -> (r: bool)
    ensures
        r == storable(lines(xsb@)),
{
    let rows = lines_of(&chars_of(xsb));
    let ghost all = texts(rows@);
    let height = low_byte(rows.len());
    let width = low_byte(longest(&rows));
    let bits = (cell_count(width, height) + 7) / 8 * 8;
    assert(all.len() == rows@.len());
    let mut y: usize = 0;
    while y < rows.len()
        invariant
            y <= rows@.len(),
            all == texts(rows@),
            all == lines(xsb@),
            width == xsb_width(all),
            bits == xsb_bits(all),
            stored_before(all, 0, y as int),
        decreases rows@.len() - y,
    {
        let row = &rows[y];
        let mut x: usize = 0;
        while x < row.len()
            invariant
                y < rows@.len(),
                row == rows@[y as int],
                x <= row@.len(),
                all == texts(rows@),
                all == lines(xsb@),
                width == xsb_width(all),
                bits == xsb_bits(all),
                stored_before(all, x as int, y as int),
            decreases row@.len() - x,
        {
            assert(all[y as int] == row@);
            let c = row[x];
            let (x8, y8) = (low_byte(x), low_byte(y));
            let i = cell_count(y8, width) + x8 as usize;
            let wall = char_is_mark(Mark::Wall, c);
            let has_box = char_is_mark(Mark::Box, c);
            let goal = char_is_mark(Mark::Goal, c);
            if i >= bits && (wall || has_box || goal) {
                proof {
                    let kind = if wall {
                        Mark::Wall
                    } else if has_box {
                        Mark::Box
                    } else {
                        Mark::Goal
                    };
                    assert(puts_mark(all, kind, i as int, x as int, y as int));
                }
                return false;
            }
            assert forall|kind: Mark, i: int, a: int, b: int| #[trigger]
                puts_mark(all, kind, i, a, b) && (b < y || (b == y && a < x + 1)) implies i
                < xsb_bits(all) by {
                if b == y && a == x {
                    assert(is_mark(kind, c));
                }
            }
            x += 1;
        }
        assert(all[y as int] == row@);
        y += 1;
    }
    true
}

/// The player's position.
fn read_player(rows: &Vec<Vec<char>>, width: u8) -> (r: u16)
    requires
        width == xsb_width(texts(rows@)),
    ensures
        r == player_in(texts(rows@), rows@.len() as int),
{
    let ghost all = texts(rows@);
    let mut r: u16 = 0;
    let mut y: usize = 0;
    while y < rows.len()
        invariant
            y <= rows@.len(),
            all == texts(rows@),
            width == xsb_width(all),
            r == player_in(all, y as int),
        decreases rows@.len() - y,
    {
        let row = &rows[y];
        let ghost before = r as int;
        let mut x: usize = 0;
        while x < row.len()
            invariant
                y < rows@.len(),
                row == rows@[y as int],
                x <= row@.len(),
                all == texts(rows@),
                width == xsb_width(all),
                r == player_in_row(all, y as int, x as int, before),
            decreases row@.len() - x,
        {
            assert(all[y as int] == row@);
            let c = row[x];
            if c == '@' || c == '+' {
                let (x8, y8) = (low_byte(x), low_byte(y));
                r = (cell_count(y8, width) + x8 as usize) as u16;
            }
            x += 1;
        }
        assert(all[y as int] == row@);
        y += 1;
    }
    r
}

impl SokobanLevel {
    /// The planes fit the grid.
    pub open spec fn wf(&self) -> bool {
        &&& fits(&self.walls, self.width, self.height)
        &&& fits(&self.boxes, self.width, self.height)
        &&& fits(&self.goals, self.width, self.height)
    }

    /// Read a level from XSB text. A level without a player has it at position 0.
    pub fn from_xsb(xsb: &str) -> (r: Result<SokobanLevel, LevelError>)
        requires
            storable(lines(xsb@)),
        ensures
            match r {
                Ok(l) => lines(xsb@).len() > 0 && l.wf() && reads(lines(xsb@), &l),
                Err(e) => lines(xsb@).len() == 0 && e == LevelError::EmptyLevel,
            },
    {
        let rows = lines_of(&chars_of(xsb));
        if rows.len() == 0 {
            assert(texts(rows@).len() == 0);
            return Err(LevelError::EmptyLevel);
        }
        assert(texts(rows@).len() > 0);
        let height = low_byte(rows.len());
        let width = low_byte(longest(&rows));
        let walls = read_plane(&rows, width, height, Mark::Wall);
        let boxes = read_plane(&rows, width, height, Mark::Box);
        let goals = read_plane(&rows, width, height, Mark::Goal);
        let player_pos = read_player(&rows, width);
        Ok(SokobanLevel { width, height, walls, boxes, goals, player_pos })
    }

    /// Row `y` of the level's text.
    pub open spec fn row_text(&self, y: int) -> Seq<char> {
        Seq::new(
            self.width as nat,
            |x: int|
                {
                    let i = flat(self.width as int, x, y);
                    cell_char(self.walls@[i], self.boxes@[i], self.goals@[i], self.player_pos == i)
                },
        )
    }

    /// The first `n` rows of the level's text.
    pub open spec fn row_texts(&self, n: int) -> Seq<Seq<char>> {
        Seq::new(n as nat, |y: int| self.row_text(y))
    }

    /// Write the level as XSB text, its rows separated by line feeds.
    pub fn to_xsb(&self) -> (r: String)
        requires
            self.wf(),
        ensures
            r@ == joined(self.row_texts(self.height as int), '\n'),
    {
        let mut r = String::new();
        let mut y: u8 = 0;
        assert(self.row_texts(0) =~= Seq::empty());
        while y < self.height
            invariant
                self.wf(),
                y <= self.height,
                r@ == joined(self.row_texts(y as int), '\n'),
            decreases self.height - y,
        {
            let ghost done = r@;
            if y > 0 {
                r.push('\n');
            }
            let ghost start = r@;
            let mut x: u8 = 0;
            while x < self.width
                invariant
                    self.wf(),
                    x <= self.width,
                    y < self.height,
                    r@ == start + self.row_text(y as int).take(x as int),
                decreases self.width - x,
            {
                proof {
                    lemma_cell_stored(&self.walls, self.width, self.height, (x, y));
                    lemma_cell_stored(&self.boxes, self.width, self.height, (x, y));
                    lemma_cell_stored(&self.goals, self.width, self.height, (x, y));
                }
                let at_player = self.player_pos as usize == cell_count(y, self.width) + x as usize;
                let c = char_for(
                    self.walls.get(x, y),
                    self.boxes.get(x, y),
                    self.goals.get(x, y),
                    at_player,
                );
                r.push(c);
                x += 1;
                assert(self.row_text(y as int).take(x as int) =~= self.row_text(y as int).take(
                    x - 1,
                ).push(c));
            }
            proof {
                let rows = self.row_texts(y + 1);
                assert(self.row_text(y as int).take(x as int) =~= self.row_text(y as int));
                assert(rows.drop_last() =~= self.row_texts(y as int));
                assert(rows.last() == self.row_text(y as int));
                assert(r@ =~= joined(rows, '\n'));
            }
            y += 1;
        }
        r
    }

    pub fn width(&self) -> (r: u8)
        ensures
            r == self.width,
    {
        self.width
    }

    pub fn height(&self) -> (r: u8)
        ensures
            r == self.height,
    {
        self.height
    }

    /// Row-major position of the player.
    pub fn player_pos(&self) -> (r: u16)
        ensures
            r == self.player_pos,
    {
        self.player_pos
    }

    pub fn is_wall(&self, x: u8, y: u8) -> (r: bool)
        requires
            flat(self.walls.width as int, x as int, y as int) < self.walls@.len(),
        ensures
            r == self.walls.at(x as int, y as int),
    {
        self.walls.get(x, y)
    }

    pub fn is_box(&self, x: u8, y: u8) -> (r: bool)
        requires
            flat(self.boxes.width as int, x as int, y as int) < self.boxes@.len(),
        ensures
            r == self.boxes.at(x as int, y as int),
    {
        self.boxes.get(x, y)
    }

    pub fn is_goal(&self, x: u8, y: u8) -> (r: bool)
        requires
            flat(self.goals.width as int, x as int, y as int) < self.goals@.len(),
        ensures
            r == self.goals.at(x as int, y as int),
    {
        self.goals.get(x, y)
    }

    /// Whether every goal has a box on it.
    pub fn is_solved(&self) -> (r: bool)
        requires
            self.wf(),
        ensures
            r == all_covered(self.width, self.height, self.goals@, self.boxes@),
    {
        covers(&self.goals, &self.boxes, self.width, self.height)
    }
}

/// Every goal has a box on it.
pub open spec fn all_covered(w: u8, h: u8, goals: Seq<bool>, boxes: Seq<bool>) -> bool {
    forall|c: Cell| on_grid(w, h, c) && #[trigger] at(goals, w, c) ==> at(boxes, w, c)
}

/// Whether every goal has a box on it.
pub fn covers(goals: &BitPlane, boxes: &BitPlane, width: u8, height: u8) -> (r: bool)
    requires
        fits(goals, width, height),
        fits(boxes, width, height),
    ensures
        r == all_covered(width, height, goals@, boxes@),
{
    let cells = cell_count(width, height);
    let mut i: usize = 0;
    while i < cells
        invariant
            i <= cells,
            cells == width * height,
            fits(goals, width, height),
            fits(boxes, width, height),
            forall|c: Cell|
                on_grid(width, height, c) && pos(width, c) < i && #[trigger] at(goals@, width, c)
                    ==> at(boxes@, width, c),
        decreases cells - i,
    {
        let (x, y) = cell_of(width, height, i);
        proof {
            lemma_cell_stored(goals, width, height, (x, y));
            lemma_cell_stored(boxes, width, height, (x, y));
            assert forall|c: Cell| on_grid(width, height, c) && pos(width, c) == i implies c == (
                x,
                y,
            ) by {
                lemma_pos(width, height, c);
            }
        }
        if goals.get(x, y) && !boxes.get(x, y) {
            assert(at(goals@, width, (x, y)) && !at(boxes@, width, (x, y)));
            return false;
        }
        i += 1;
    }
    proof {
        assert forall|c: Cell| on_grid(width, height, c) && #[trigger] at(
            goals@,
            width,
            c,
        ) implies at(boxes@, width, c) by {
            lemma_pos(width, height, c);
        }
    }
    true
}

/// The character for what is on a cell. A wall hides all else, and a box hides the player.
pub open spec fn cell_char(wall: bool, has_box: bool, goal: bool, player: bool) -> char {
    if wall {
        '#'
    } else if has_box {
        if goal {
            '*'
        } else {
            '$'
        }
    } else if goal {
        if player {
            '+'
        } else {
            '.'
        }
    } else if player {
        '@'
    } else {
        ' '
    }
}

fn char_for(wall: bool, has_box: bool, goal: bool, player: bool) -> (r: char)
    ensures
        r == cell_char(wall, has_box, goal, player),
{
    match (wall, has_box, goal, player) {
        (true, _, _, _) => '#',
        (_, true, true, _) => '*',
        (_, true, false, _) => '$',
        (_, false, true, true) => '+',
        (_, false, true, false) => '.',
        (_, false, false, true) => '@',
        _ => ' ',
    }
}

// ── Text and back ─────────────────────────────────────────────────────────

/// Nothing is hidden in the level's text: no box or goal is inside a wall, and the player stands
/// on a free cell.
pub open spec fn shows_all(l: &SokobanLevel) -> bool {
    &&& forall|i: int|
        0 <= i < l.width * l.height && #[trigger] l.walls@[i] ==> !l.boxes@[i] && !l.goals@[i]
    &&& l.player_pos < l.width * l.height
    &&& !l.walls@[l.player_pos as int]
    &&& !l.boxes@[l.player_pos as int]
}

proof fn lemma_widest(rows: Seq<Seq<char>>, w: int)
    requires
        rows.len() > 0,
        w >= 0,
        uniform(rows, w),
    ensures
        widest(rows) == w,
    decreases rows.len(),
{
    assert(rows[rows.len() - 1].len() == w);
    if rows.len() > 1 {
        let less = rows.drop_last();
        assert forall|k: int| 0 <= k < less.len() implies #[trigger] less[k].len() == w by {
            assert(less[k] == rows[k]);
        }
        lemma_widest(less, w);
    } else {
        assert(widest(rows.drop_last()) == 0);
    }
}

/// What the rows of a level's text say of its cells.
proof fn lemma_rows(l: &SokobanLevel, kind: Mark, i: int)
    requires
        l.wf(),
        l.width > 0,
        l.height > 0,
        0 <= i,
    ensures
        ({
            let rows = l.row_texts(l.height as int);
            &&& xsb_width(rows) == l.width
            &&& xsb_height(rows) == l.height
            &&& has_mark(rows, kind, i) <==> i < l.width * l.height && is_mark(
                kind,
                cell_char(l.walls@[i], l.boxes@[i], l.goals@[i], l.player_pos == i),
            )
        }),
{
    let rows = l.row_texts(l.height as int);
    let w = l.width as int;
    lemma_widest(rows, w);
    if has_mark(rows, kind, i) {
        let (x, y) = choose|x: int, y: int| #[trigger] puts_mark(rows, kind, i, x, y);
        lemma_flat(w, l.height as int, x, y);
    }
    if i < l.width * l.height {
        lemma_cell_at(l.width, l.height, i);
        let c = cell_at(l.width, i);
        if is_mark(kind, cell_char(l.walls@[i], l.boxes@[i], l.goals@[i], l.player_pos == i)) {
            assert(puts_mark(rows, kind, i, c.0 as int, c.1 as int));
        }
    }
}

/// The player is found where the level has it.
proof fn lemma_player_row(l: &SokobanLevel, y: int, x: int, before: int)
    requires
        l.wf(),
        shows_all(l),
        l.width > 0,
        0 <= y < l.height,
        0 <= x <= l.width,
    ensures
        player_in_row(l.row_texts(l.height as int), y, x, before) == if (l.player_pos as int)
            / (l.width as int) == y && (l.player_pos as int) % (l.width as int) < x {
            l.player_pos as int
        } else {
            before
        },
    decreases x,
{
    let rows = l.row_texts(l.height as int);
    let w = l.width as int;
    if x > 0 {
        lemma_player_row(l, y, x - 1, before);
        lemma_widest(rows, w);
        lemma_flat(w, l.height as int, x - 1, y);
        lemma_cell_at(l.width, l.height, l.player_pos as int);
        let i = flat(w, x - 1, y);
        assert(rows[y][x - 1] == cell_char(
            l.walls@[i],
            l.boxes@[i],
            l.goals@[i],
            l.player_pos == i,
        ));
    }
}

proof fn lemma_player(l: &SokobanLevel, y: int)
    requires
        l.wf(),
        shows_all(l),
        l.width > 0,
        0 <= y <= l.height,
    ensures
        player_in(l.row_texts(l.height as int), y) == if (l.player_pos as int)
            / (l.width as int) < y {
            l.player_pos as int
        } else {
            0
        },
    decreases y,
{
    if y > 0 {
        lemma_player(l, y - 1);
        let rows = l.row_texts(l.height as int);
        assert(rows[y - 1].len() == l.width);
        lemma_player_row(l, y - 1, l.width as int, player_in(rows, y - 1));
        assert((l.player_pos as int) % (l.width as int) < l.width);
    }
}

/// Reading a level's text gives the level back, when the grid is not empty and the text shows all
/// there is.
pub proof fn law_xsb_round_trip(l: &SokobanLevel, text: Seq<char>, again: &SokobanLevel)
    requires
        l.wf(),
        l.width > 0,
        l.height > 0,
        shows_all(l),
        text == joined(l.row_texts(l.height as int), '\n'),
        reads(lines(text), again),
    ensures
        storable(lines(text)),
        again.width == l.width,
        again.height == l.height,
        again.player_pos == l.player_pos,
        forall|i: int|
            0 <= i < l.width * l.height ==> (#[trigger] again.walls@[i]) == l.walls@[i],
        forall|i: int|
            0 <= i < l.width * l.height ==> (#[trigger] again.boxes@[i]) == l.boxes@[i],
        forall|i: int|
            0 <= i < l.width * l.height ==> (#[trigger] again.goals@[i]) == l.goals@[i],
{
    law_text_is_storable(l, text);
    let rows = l.row_texts(l.height as int);
    lemma_rows(l, Mark::Wall, 0);
    lemma_player(l, l.height as int);
    lemma_unflat(l.width as int, l.height as int, l.player_pos as int);
    assert forall|i: int| 0 <= i < l.width * l.height implies (#[trigger] again.walls@[i])
        == l.walls@[i] by {
        lemma_rows(l, Mark::Wall, i);
    }
    assert forall|i: int| 0 <= i < l.width * l.height implies (#[trigger] again.boxes@[i])
        == l.boxes@[i] by {
        lemma_rows(l, Mark::Box, i);
        assert(l.walls@[i] ==> !l.boxes@[i]);
    }
    assert forall|i: int| 0 <= i < l.width * l.height implies (#[trigger] again.goals@[i])
        == l.goals@[i] by {
        lemma_rows(l, Mark::Goal, i);
        assert(l.walls@[i] ==> !l.goals@[i]);
    }
}

/// The text of a level with a grid that is not empty has the level's rows as its lines, and can
/// be read.
pub proof fn law_text_is_storable(l: &SokobanLevel, text: Seq<char>)
    requires
        l.wf(),
        l.width > 0,
        l.height > 0,
        text == joined(l.row_texts(l.height as int), '\n'),
    ensures
        lines(text) == l.row_texts(l.height as int),
        storable(lines(text)),
{
    let rows = l.row_texts(l.height as int);
    lemma_lines_joined(rows, l.width as int);
    assert forall|kind: Mark, i: int, x: int, y: int| #[trigger]
        puts_mark(rows, kind, i, x, y) implies i < xsb_bits(rows) by {
        lemma_widest(rows, l.width as int);
        lemma_flat(l.width as int, l.height as int, x, y);
    }
}

/// No row is longer than the longest.
proof fn lemma_at_most_widest(rows: Seq<Seq<char>>, y: int)
    requires
        0 <= y < rows.len(),
    ensures
        rows[y].len() <= widest(rows),
    decreases rows.len(),
{
    if y < rows.len() - 1 {
        lemma_at_most_widest(rows.drop_last(), y);
        assert(rows.drop_last()[y] == rows[y]);
    }
}

/// The rows describe a grid of 1 to 255 rows and columns.
pub open spec fn is_small(rows: Seq<Seq<char>>) -> bool {
    &&& 0 < rows.len() < 256
    &&& 0 < widest(rows) < 256
}

/// The player starts on the grid.
proof fn lemma_player_in_row(rows: Seq<Seq<char>>, y: int, x: int, before: int)
    requires
        is_small(rows),
        0 <= y < rows.len(),
        0 <= x <= rows[y].len(),
        0 <= before < xsb_width(rows) * xsb_height(rows),
    ensures
        0 <= player_in_row(rows, y, x, before) < xsb_width(rows) * xsb_height(rows),
    decreases x,
{
    if x > 0 {
        lemma_at_most_widest(rows, y);
        lemma_flat(xsb_width(rows), xsb_height(rows), x - 1, y);
        lemma_player_in_row(rows, y, x - 1, before);
    }
}

proof fn lemma_player_in(rows: Seq<Seq<char>>, y: int)
    requires
        is_small(rows),
        0 <= y <= rows.len(),
    ensures
        0 <= player_in(rows, y) < xsb_width(rows) * xsb_height(rows),
    decreases y,
{
    if y == 0 {
        lemma_flat(xsb_width(rows), xsb_height(rows), 0, 0);
    } else {
        lemma_player_in(rows, y - 1);
        lemma_player_in_row(rows, y - 1, rows[y - 1].len() as int, player_in(rows, y - 1));
    }
}

/// A character of a small grid stands for the cell in its own column and row.
proof fn lemma_small_pos(rows: Seq<Seq<char>>, x: int, y: int)
    requires
        is_small(rows),
        0 <= y < rows.len(),
        0 <= x < rows[y].len(),
    ensures
        xsb_pos(rows, x, y) == flat(widest(rows), x, y),
        0 <= xsb_pos(rows, x, y) < widest(rows) * rows.len(),
        xsb_pos(rows, x, y) < xsb_bits(rows),
        xsb_pos(rows, x, y) % widest(rows) == x,
        xsb_pos(rows, x, y) / widest(rows) == y,
{
    lemma_at_most_widest(rows, y);
    lemma_flat(widest(rows), rows.len() as int, x, y);
}

/// Column `x` of row `y` has a character for the mark.
pub open spec fn shows(rows: Seq<Seq<char>>, kind: Mark, x: int, y: int) -> bool {
    x < rows[y].len() && is_mark(kind, rows[y][x])
}

proof fn lemma_small_shows(rows: Seq<Seq<char>>, kind: Mark, x: int, y: int)
    requires
        is_small(rows),
        0 <= y < rows.len(),
        0 <= x < widest(rows),
    ensures
        has_mark(rows, kind, flat(widest(rows), x, y)) <==> shows(rows, kind, x, y),
{
    let i = flat(widest(rows), x, y);
    lemma_flat(widest(rows), rows.len() as int, x, y);
    if shows(rows, kind, x, y) {
        lemma_small_pos(rows, x, y);
        assert(puts_mark(rows, kind, i, x, y));
    }
    if has_mark(rows, kind, i) {
        let (a, b) = choose|a: int, b: int| #[trigger] puts_mark(rows, kind, i, a, b);
        lemma_small_pos(rows, a, b);
    }
}

/// No cell of a small grid has both a wall and a box.
proof fn lemma_small_marks(rows: Seq<Seq<char>>, i: int)
    requires
        is_small(rows),
        has_mark(rows, Mark::Wall, i),
    ensures
        !has_mark(rows, Mark::Box, i),
{
    let (a, b) = choose|a: int, b: int| #[trigger] puts_mark(rows, Mark::Wall, i, a, b);
    lemma_small_pos(rows, a, b);
    if has_mark(rows, Mark::Box, i) {
        let (x, y) = choose|x: int, y: int| #[trigger] puts_mark(rows, Mark::Box, i, x, y);
        lemma_small_pos(rows, x, y);
    }
}

/// A grid of 1 to 255 rows and columns can be read. A cell has the marks of the character in its
/// column and row, the player starts on the grid, and no cell has both a wall and a box.
pub proof fn law_small_grids_can_be_read(rows: Seq<Seq<char>>)
    requires
        is_small(rows),
    ensures
        storable(rows),
        forall|kind: Mark, x: int, y: int|
            0 <= y < rows.len() && 0 <= x < widest(rows) ==> (#[trigger] has_mark(
                rows,
                kind,
                flat(widest(rows), x, y),
            ) <==> shows(rows, kind, x, y)),
        0 <= player_in(rows, rows.len() as int) < widest(rows) * rows.len(),
        forall|i: int|
            !(#[trigger] has_mark(rows, Mark::Wall, i) && has_mark(rows, Mark::Box, i)),
{
    assert forall|kind: Mark, i: int, x: int, y: int| #[trigger]
        puts_mark(rows, kind, i, x, y) implies i < xsb_bits(rows) by {
        lemma_small_pos(rows, x, y);
    }
    assert forall|kind: Mark, x: int, y: int|
        0 <= y < rows.len() && 0 <= x < widest(rows) implies (#[trigger] has_mark(
        rows,
        kind,
        flat(widest(rows), x, y),
    ) <==> shows(rows, kind, x, y)) by {
        lemma_small_shows(rows, kind, x, y);
    }
    assert forall|i: int|
        !(#[trigger] has_mark(rows, Mark::Wall, i) && has_mark(rows, Mark::Box, i)) by {
        if has_mark(rows, Mark::Wall, i) {
            lemma_small_marks(rows, i);
        }
    }
    lemma_player_in(rows, rows.len() as int);
}

/// The longest length is that of a row, if there are rows, and no row is longer.
proof fn lemma_widest_is_a_row(rows: Seq<Seq<char>>)
    requires
        rows.len() > 0,
    ensures
        exists|y: int| 0 <= y < rows.len() && #[trigger] rows[y].len() == widest(rows),
    decreases rows.len(),
{
    let last = rows.len() - 1;
    if rows.len() == 1 {
        assert(widest(rows.drop_last()) == 0);
        assert(rows[0].len() == widest(rows));
    } else {
        let less = rows.drop_last();
        lemma_widest_is_a_row(less);
        let y = choose|y: int| 0 <= y < less.len() && #[trigger] less[y].len() == widest(less);
        assert(rows[y].len() == widest(less));
        assert(rows[last].len() == rows.last().len());
    }
}

/// A level has as many rows as its text has lines, and as many columns as its longest line has
/// characters: no line has more, and one has as many. More than 255 are taken modulo 256.
pub proof fn law_level_is_as_large_as_its_text(rows: Seq<Seq<char>>, l: &SokobanLevel)
    requires
        reads(rows, l),
        rows.len() > 0,
    ensures
        l.height == rows.len() % 256,
        exists|y: int|
            0 <= y < rows.len() && l.width == #[trigger] rows[y].len() % 256 && forall|k: int|
                0 <= k < rows.len() ==> #[trigger] rows[k].len() <= rows[y].len(),
{
    lemma_widest_is_a_row(rows);
    let y = choose|y: int| 0 <= y < rows.len() && #[trigger] rows[y].len() == widest(rows);
    assert forall|k: int| 0 <= k < rows.len() implies #[trigger] rows[k].len()
        <= rows[y].len() by {
        lemma_at_most_widest(rows, k);
    }
}

/// What the cell in column `x` and row `y` of a level has.
pub open spec fn has_wall(l: &SokobanLevel, x: int, y: int) -> bool {
    l.walls@[y * l.width + x]
}

pub open spec fn has_box(l: &SokobanLevel, x: int, y: int) -> bool {
    l.boxes@[y * l.width + x]
}

pub open spec fn has_goal(l: &SokobanLevel, x: int, y: int) -> bool {
    l.goals@[y * l.width + x]
}

/// Each character of the text of an ordinary grid means what the notation says: `#` a wall, `$` a
/// box, `.` a goal, `*` a box on a goal, `+` a goal under the player, and anything else floor, as
/// does the end of a short row.
pub proof fn law_characters_mean_what_they_say(
    rows: Seq<Seq<char>>,
    l: &SokobanLevel,
    x: int,
    y: int,
)
    requires
        is_small(rows),
        reads(rows, l),
        0 <= y < rows.len(),
        0 <= x < l.width,
    ensures
        x >= rows[y].len() ==> !has_wall(l, x, y) && !has_box(l, x, y) && !has_goal(l, x, y),
        x < rows[y].len() ==> {
            let c = rows[y][x];
            &&& has_wall(l, x, y) <==> c == '#'
            &&& has_box(l, x, y) <==> c == '$' || c == '*'
            &&& has_goal(l, x, y) <==> c == '.' || c == '*' || c == '+'
        },
{
    law_small_grids_can_be_read(rows);
    lemma_flat(l.width as int, l.height as int, x, y);
    let i = flat(widest(rows), x, y);
    assert(has_mark(rows, Mark::Wall, i) <==> shows(rows, Mark::Wall, x, y));
    assert(has_mark(rows, Mark::Box, i) <==> shows(rows, Mark::Box, x, y));
    assert(has_mark(rows, Mark::Goal, i) <==> shows(rows, Mark::Goal, x, y));
}

proof fn lemma_no_player_after(rows: Seq<Seq<char>>, y: int, x: int, before: int, to: int)
    requires
        0 <= y < rows.len(),
        0 <= x <= to <= rows[y].len(),
        forall|k: int| x <= k < to ==> #[trigger] rows[y][k] != '@' && rows[y][k] != '+',
    ensures
        player_in_row(rows, y, to, before) == player_in_row(rows, y, x, before),
    decreases to - x,
{
    if x < to {
        lemma_no_player_after(rows, y, x, before, to - 1);
    }
}

proof fn lemma_no_player_below(rows: Seq<Seq<char>>, y: int, to: int)
    requires
        0 <= y <= to <= rows.len(),
        forall|j: int, k: int|
            y <= j < to && 0 <= k < rows[j].len() ==> #[trigger] rows[j][k] != '@' && rows[j][k]
                != '+',
    ensures
        player_in(rows, to) == player_in(rows, y),
    decreases to - y,
{
    if y < to {
        lemma_no_player_below(rows, y, to - 1);
        let row = rows[to - 1];
        assert forall|k: int| 0 <= k < row.len() implies #[trigger] row[k] != '@' && row[k]
            != '+' by {
            assert(rows[to - 1][k] != '@');
        }
        lemma_no_player_after(
            rows,
            to - 1,
            0,
            player_in(rows, to - 1),
            rows[to - 1].len() as int,
        );
    }
}

/// The player of an ordinary grid is where the last `@` or `+` of the text is, and at position 0
/// where there is none.
pub proof fn law_last_player_counts(rows: Seq<Seq<char>>, l: &SokobanLevel, x: int, y: int)
    requires
        is_small(rows),
        reads(rows, l),
    ensures
        (0 <= y < rows.len() && 0 <= x < rows[y].len() && (rows[y][x] == '@' || rows[y][x] == '+')
            && (forall|k: int| x < k < rows[y].len() ==> rows[y][k] != '@' && rows[y][k] != '+')
            && (forall|j: int, k: int|
            y < j < rows.len() && 0 <= k < rows[j].len() ==> #[trigger] rows[j][k] != '@'
                && rows[j][k] != '+')) ==> l.player_pos == y * l.width + x,
        (forall|j: int, k: int|
            0 <= j < rows.len() && 0 <= k < rows[j].len() ==> #[trigger] rows[j][k] != '@'
                && rows[j][k] != '+') ==> l.player_pos == 0,
{
    let n = rows.len() as int;
    if 0 <= y < n && 0 <= x < rows[y].len() && (rows[y][x] == '@' || rows[y][x] == '+') && (forall|
        k: int,
    |
        x < k < rows[y].len() ==> rows[y][k] != '@' && rows[y][k] != '+') && (forall|j: int, k: int|
        y < j < n && 0 <= k < rows[j].len() ==> #[trigger] rows[j][k] != '@' && rows[j][k] != '+') {
        lemma_no_player_below(rows, y + 1, n);
        lemma_no_player_after(rows, y, x + 1, player_in(rows, y), rows[y].len() as int);
        lemma_small_pos(rows, x, y);
    }
    if forall|j: int, k: int|
        0 <= j < n && 0 <= k < rows[j].len() ==> #[trigger] rows[j][k] != '@' && rows[j][k] != '+' {
        lemma_no_player_below(rows, 0, n);
    }
}

/// The text of a level has a line for each row and a character for each column: `#` for a wall,
/// else `*` and `$` for a box, `+` and `@` for the player, `.` and a space for the rest, the first of
/// each two on a goal.
pub proof fn law_text_shows_the_cells(l: &SokobanLevel, text: Seq<char>, x: int, y: int)
    requires
        l.wf(),
        l.width > 0,
        l.height > 0,
        text == joined(l.row_texts(l.height as int), '\n'),
        0 <= x < l.width,
        0 <= y < l.height,
    ensures
        lines(text).len() == l.height,
        lines(text)[y].len() == l.width,
        ({
            let c = lines(text)[y][x];
            let player = l.player_pos == y * l.width + x;
            if has_wall(l, x, y) {
                c == '#'
            } else if has_box(l, x, y) {
                c == if has_goal(l, x, y) {
                    '*'
                } else {
                    '$'
                }
            } else if player {
                c == if has_goal(l, x, y) {
                    '+'
                } else {
                    '@'
                }
            } else {
                c == if has_goal(l, x, y) {
                    '.'
                } else {
                    ' '
                }
            }
        }),
{
    law_text_is_storable(l, text);
    assert(lines(text)[y] == l.row_text(y));
}

/// Errors are told apart by their words.
pub proof fn law_errors_differ_in_words(a: LevelError, b: LevelError)
    requires
        words(a) == words(b),
    ensures
        a == b,
{
    reveal_strlit("empty level");
    reveal_strlit("data too short");
    reveal_strlit("CRC mismatch — data may be corrupted");
    reveal_strlit("data truncated");
    reveal_strlit("invalid base64url");
    reveal_strlit("payload too short");
    reveal_strlit("payload missing level header");
    reveal_strlit("payload truncated");
    reveal_strlit("unsupported fragment version");
    reveal_strlit("unsupported version");
    assert("empty level"@.len() == 11 && "CRC mismatch — data may be corrupted"@.len() == 36);
    assert("data too short"@.len() == 14 && "data truncated"@.len() == 14);
    assert("invalid base64url"@.len() == 17 && "payload too short"@.len() == 17);
    assert("payload truncated"@.len() == 17 && "unsupported version"@.len() == 19);
    assert("payload missing level header"@.len() == 28);
    assert("unsupported fragment version"@.len() == 28);
    assert("data too short"@[6] == 'o' && "data truncated"@[6] == 'r');
    assert("invalid base64url"@[0] == 'i' && "payload too short"@[0] == 'p');
    assert("payload truncated"@[0] == 'p');
    assert("payload too short"@[9] == 'o' && "payload truncated"@[9] == 'r');
    assert("payload missing level header"@[0] == 'p' && "unsupported fragment version"@[0] == 'u');
}

/// A level is solved when there is a box on every goal; boxes elsewhere do not matter.
pub proof fn law_solved_means_a_box_on_every_goal(l: &SokobanLevel)
    requires
        l.wf(),
    ensures
        all_covered(l.width, l.height, l.goals@, l.boxes@) <==> forall|x: int, y: int|
            0 <= x < l.width && 0 <= y < l.height && #[trigger] has_goal(l, x, y) ==> has_box(
                l,
                x,
                y,
            ),
{
    let (w, h) = (l.width, l.height);
    if all_covered(w, h, l.goals@, l.boxes@) {
        assert forall|x: int, y: int|
            0 <= x < w && 0 <= y < h && #[trigger] has_goal(l, x, y) implies has_box(l, x, y) by {
            let c = (x as u8, y as u8);
            assert(on_grid(w, h, c) && at(l.goals@, w, c));
        }
    }
    if forall|x: int, y: int|
        0 <= x < w && 0 <= y < h && #[trigger] has_goal(l, x, y) ==> has_box(l, x, y) {
        assert forall|c: Cell| on_grid(w, h, c) && #[trigger] at(l.goals@, w, c) implies at(
            l.boxes@,
            w,
            c,
        ) by {
            assert(has_goal(l, c.0 as int, c.1 as int));
        }
    }
}

} // verus!
