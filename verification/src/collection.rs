//! Collections of puzzles: reading them, solving them, and reporting on them.

use vstd::prelude::*;
use vstd::string::StringExecFns;

use crate::bitplane::lemma_unflat;
use crate::grid::on_grid;
use crate::level::{
    can_store, is_small, law_small_grids_can_be_read, player_in, reads, storable, words, xsb_height,
    xsb_width, LevelError, SokobanLevel,
};
use crate::moves::{stand, stand_of};
use crate::push_count::{law_push_count_is_that_of_the_moves, pushes_in};
use crate::search::{is_result, is_solution, SolverResult};
use crate::solver::Solver;
use crate::text::{
    all_digits, chars_of, decimal, digits_value, first_is, has_char, has_first, has_prefix, is_line,
    is_space, joined, law_decimal_digits, law_decimal_is_read_back,
    law_joined_lines_are_found_again, law_lines_end_at_line_feeds, law_trim_keeps_the_rest,
    law_trim_takes_white_space_alone, lines, lines_of, parse_u32, part_of, push_decimal, same_text,
    starts_with, string_of, texts, trim, trim_end, trim_start, trimmed, u32_value,
};

verus! {

// ── Arguments ─────────────────────────────────────────────────────────────

/// What the program is asked to do.
pub struct Args {
    pub levels: String,
    pub output: String,
    pub max_nodes: u32,
}

/// What arguments stand for.
pub ghost struct ArgsModel {
    pub levels: Seq<char>,
    pub output: Seq<char>,
    pub max_nodes: int,
}

impl View for Args {
    type V = ArgsModel;

    open spec fn view(&self) -> ArgsModel {
        ArgsModel {
            levels: self.levels@,
            output: self.output@,
            max_nodes: self.max_nodes as int,
        }
    }
}

/// The texts of some strings.
pub open spec fn strings(v: Seq<String>) -> Seq<Seq<char>> {
    Seq::new(v.len(), |i: int| v[i]@)
}

/// The arguments from `i` on, added to what is known; or what is wrong with them.
pub open spec fn args_from(args: Seq<Seq<char>>, i: int, known: ArgsModel) -> Result<
    ArgsModel,
    Seq<char>,
>
    decreases args.len() - i,
{
    if i >= args.len() {
        Ok(known)
    } else if args[i] == "--levels"@ {
        if i + 1 >= args.len() {
            Err("--levels needs a value"@)
        } else {
            args_from(args, i + 2, ArgsModel { levels: args[i + 1], ..known })
        }
    } else if args[i] == "--output"@ {
        if i + 1 >= args.len() {
            Err("--output needs a value"@)
        } else {
            args_from(args, i + 2, ArgsModel { output: args[i + 1], ..known })
        }
    } else if args[i] == "--max-nodes"@ {
        if i + 1 >= args.len() {
            Err("--max-nodes needs a value"@)
        } else {
            match u32_value(args[i + 1]) {
                Some(n) => args_from(args, i + 2, ArgsModel { max_nodes: n, ..known }),
                None => Err("--max-nodes must be a u32"@),
            }
        }
    } else {
        Err("Unknown flag: "@ + args[i])
    }
}

/// What is done without arguments.
pub open spec fn default_args() -> ArgsModel {
    ArgsModel {
        levels: "../sample-10.xsb"@,
        output: "solver-results.csv"@,
        max_nodes: 500_000,
    }
}

impl Args {
    /// Read the arguments of the program, its own name left out.
    pub fn parse(args: &Vec<String>) -> (r: Result<Args, String>)
        ensures
            match r {
                Ok(a) => args_from(strings(args@), 0, default_args()) == Ok::<
                    ArgsModel,
                    Seq<char>,
                >(a@),
                Err(e) => args_from(strings(args@), 0, default_args()) == Err::<
                    ArgsModel,
                    Seq<char>,
                >(e@),
            },
    {
        let ghost all = strings(args@);
        let mut known = Args {
            levels: String::from_str("../sample-10.xsb"),
            output: String::from_str("solver-results.csv"),
            max_nodes: 500_000,
        };
        let n = args.len();
        let mut i: usize = 0;
        while i < n
            invariant
                n == args@.len(),
                all == strings(args@),
                i <= n,
                args_from(all, 0, default_args()) == args_from(all, i as int, known@),
            decreases n - i,
        {
            let flag = args[i].as_str();
            assert(all[i as int] == flag@);
            if same_text(flag, "--levels") {
                if n - i < 2 {
                    return Err(String::from_str("--levels needs a value"));
                }
                known.levels = args[i + 1].clone();
            } else if same_text(flag, "--output") {
                if n - i < 2 {
                    return Err(String::from_str("--output needs a value"));
                }
                known.output = args[i + 1].clone();
            } else if same_text(flag, "--max-nodes") {
                if n - i < 2 {
                    return Err(String::from_str("--max-nodes needs a value"));
                }
                match parse_u32(args[i + 1].as_str()) {
                    Some(v) => {
                        known.max_nodes = v;
                    },
                    None => {
                        return Err(String::from_str("--max-nodes must be a u32"));
                    },
                }
            } else {
                let mut e = String::from_str("Unknown flag: ");
                e.append(flag);
                return Err(e);
            }
            i += 2;
        }
        Ok(known)
    }
}

// ── Puzzles ───────────────────────────────────────────────────────────────

/// A puzzle of a collection.
pub struct Puzzle {
    /// Its number in the collection, from 1 on.
    pub global_index: usize,
    pub title: String,
    pub author: String,
    pub collection: String,
    /// The rows of the level, without the lines for title, author and collection.
    pub grid: String,
}

/// What a puzzle stands for.
pub ghost struct PuzzleModel {
    pub global_index: int,
    pub title: Seq<char>,
    pub author: Seq<char>,
    pub collection: Seq<char>,
    pub grid: Seq<char>,
}

impl View for Puzzle {
    type V = PuzzleModel;

    open spec fn view(&self) -> PuzzleModel {
        PuzzleModel {
            global_index: self.global_index as int,
            title: self.title@,
            author: self.author@,
            collection: self.collection@,
            grid: self.grid@,
        }
    }
}

/// The position of the first two line feeds in a row from `i` on, or the end.
pub open spec fn block_end(s: Seq<char>, i: int) -> int
    decreases s.len() - i,
{
    if i + 1 >= s.len() {
        s.len() as int
    } else if s[i] == '\n' && s[i + 1] == '\n' {
        i
    } else {
        block_end(s, i + 1)
    }
}

proof fn lemma_block_end(s: Seq<char>, i: int)
    requires
        0 <= i <= s.len(),
    ensures
        i <= block_end(s, i) <= s.len(),
        block_end(s, i) < s.len() ==> block_end(s, i) + 2 <= s.len(),
    decreases s.len() - i,
{
    if i + 1 < s.len() && !(s[i] == '\n' && s[i + 1] == '\n') {
        lemma_block_end(s, i + 1);
    }
}

/// The blocks of a text from `i` on: what stands between two line feeds in a row.
pub open spec fn blocks_from(s: Seq<char>, i: int) -> Seq<Seq<char>>
    decreases s.len() - i,
    when 0 <= i <= s.len()
    via blocks_from_decreases
{
    let e = block_end(s, i);
    if e < s.len() {
        seq![s.subrange(i, e)] + blocks_from(s, e + 2)
    } else {
        seq![s.subrange(i, e)]
    }
}

#[via_fn]
proof fn blocks_from_decreases(s: Seq<char>, i: int) {
    lemma_block_end(s, i);
}

/// Every line is a comment.
pub open spec fn all_comments(rows: Seq<Seq<char>>) -> bool {
    forall|k: int| 0 <= k < rows.len() ==> first_is(#[trigger] rows[k], ';')
}

/// The line gives the value of a field.
pub open spec fn has_field(row: Seq<char>, field: Seq<char>) -> bool {
    has_prefix(trim(row), field)
}

/// The value that a line gives to a field.
pub open spec fn field_value(row: Seq<char>, field: Seq<char>) -> Seq<char> {
    trim(trim(row).skip(field.len() as int))
}

/// The value that the last of the first `n` lines that does so gives to a field.
pub open spec fn field_in(rows: Seq<Seq<char>>, n: int, field: Seq<char>) -> Seq<char>
    decreases n,
{
    if n <= 0 {
        Seq::empty()
    } else if has_field(rows[n - 1], field) {
        field_value(rows[n - 1], field)
    } else {
        field_in(rows, n - 1, field)
    }
}

/// The line belongs to the grid: it gives no field a value and is no comment.
pub open spec fn is_grid_row(row: Seq<char>) -> bool {
    &&& !has_field(row, "Title:"@)
    &&& !has_field(row, "Author:"@)
    &&& !has_field(row, "Collection:"@)
    &&& !(trim(row).len() > 0 && trim(row)[0] == ';')
}

/// The lines among the first `n` that belong to the grid.
pub open spec fn grid_rows(rows: Seq<Seq<char>>, n: int) -> Seq<Seq<char>>
    decreases n,
{
    if n <= 0 {
        Seq::empty()
    } else if is_grid_row(rows[n - 1]) {
        grid_rows(rows, n - 1).push(rows[n - 1])
    } else {
        grid_rows(rows, n - 1)
    }
}

/// The line has no character but white space.
pub open spec fn is_blank(row: Seq<char>) -> bool {
    trim(row).len() == 0
}

/// The first line from `i` on that is not blank, or the end.
pub open spec fn first_full(rows: Seq<Seq<char>>, i: int) -> int
    decreases rows.len() - i,
{
    if i < rows.len() && is_blank(rows[i]) {
        first_full(rows, i + 1)
    } else {
        i
    }
}

/// The end of the last line before `n` that is not blank, or the start.
pub open spec fn last_full(rows: Seq<Seq<char>>, n: int) -> int
    decreases n,
{
    if n > 0 && is_blank(rows[n - 1]) {
        last_full(rows, n - 1)
    } else {
        n
    }
}

/// The lines of a block, without blank ones at its ends.
pub open spec fn block_rows(block: Seq<char>) -> Seq<Seq<char>> {
    let rows = lines(block.push('\n'));
    let (from, to) = (first_full(rows, 0), last_full(rows, rows.len() as int));
    if from < to {
        rows.subrange(from, to)
    } else {
        Seq::empty()
    }
}

/// The grid of a block.
pub open spec fn block_grid(block: Seq<char>) -> Seq<char> {
    let rows = block_rows(block);
    joined(grid_rows(rows, rows.len() as int), '\n')
}

/// The block holds a puzzle: it is not blank or all comments, and its grid has a wall.
pub open spec fn is_puzzle(block: Seq<char>) -> bool {
    &&& !all_comments(block_rows(block))
    &&& block_grid(block).contains('#')
}

/// The puzzle of a block. The last line that gives a field a value counts.
pub open spec fn puzzle_in(block: Seq<char>, number: int) -> PuzzleModel {
    let rows = block_rows(block);
    let n = rows.len() as int;
    PuzzleModel {
        global_index: number,
        title: field_in(rows, n, "Title:"@),
        author: field_in(rows, n, "Author:"@),
        collection: field_in(rows, n, "Collection:"@),
        grid: block_grid(block),
    }
}

/// The puzzles of the first `n` blocks.
pub open spec fn puzzles_in(blocks: Seq<Seq<char>>, n: int) -> Seq<PuzzleModel>
    decreases n,
{
    if n <= 0 {
        Seq::empty()
    } else {
        let before = puzzles_in(blocks, n - 1);
        if is_puzzle(blocks[n - 1]) {
            before.push(puzzle_in(blocks[n - 1], before.len() as int + 1))
        } else {
            before
        }
    }
}

/// The puzzles of a collection.
pub open spec fn puzzles_of(content: Seq<char>) -> Seq<PuzzleModel> {
    let blocks = blocks_from(content, 0);
    puzzles_in(blocks, blocks.len() as int)
}

/// What some puzzles stand for.
pub open spec fn puzzle_models(v: Seq<Puzzle>) -> Seq<PuzzleModel> {
    Seq::new(v.len(), |i: int| v[i]@)
}

/// The blocks of a text.
fn blocks_of(s: &Vec<char>) -> (r: Vec<Vec<char>>)
    ensures
        texts(r@) == blocks_from(s@, 0),
{
    let mut r: Vec<Vec<char>> = Vec::new();
    let n = s.len();
    let mut i: usize = 0;
    let mut more = true;
    assert(texts(r@) + blocks_from(s@, 0) =~= blocks_from(s@, 0));
    while more
        invariant
            n == s@.len(),
            i <= n,
            more ==> texts(r@) + blocks_from(s@, i as int) == blocks_from(s@, 0),
            !more ==> texts(r@) == blocks_from(s@, 0),
        decreases n - i, (if more {
            1int
        } else {
            0
        }),
    {
        let mut e: usize = i;
        proof {
            lemma_block_end(s@, i as int);
        }
        while n - e >= 2 && !(s[e] == '\n' && s[e + 1] == '\n')
            invariant
                n == s@.len(),
                i <= e <= n,
                block_end(s@, e as int) == block_end(s@, i as int),
            decreases n - e,
        {
            e += 1;
        }
        let found = n - e >= 2;
        let ghost before = texts(r@);
        let ghost rest = blocks_from(s@, i as int);
        if found {
            let block = part_of(s, i, e);
            let ghost text = block@;
            r.push(block);
            proof {
                assert(texts(r@) =~= before.push(text));
                assert(texts(r@) + blocks_from(s@, e + 2) =~= before + rest);
            }
            i = e + 2;
        } else {
            let block = part_of(s, i, n);
            let ghost text = block@;
            r.push(block);
            proof {
                assert(texts(r@) =~= before.push(text));
                assert(texts(r@) =~= before + rest);
            }
            more = false;
        }
    }
    r
}

/// The lines of a block, without blank ones at its ends.
fn rows_of(block: &Vec<char>) -> (r: Vec<Vec<char>>)
    ensures
        texts(r@) == block_rows(block@),
{
    let mut text: Vec<char> = part_of(block, 0, block.len());
    text.push('\n');
    let all = lines_of(&text);
    let ghost rows = texts(all@);
    assert(text@ =~= block@.push('\n'));
    let mut from: usize = 0;
    while from < all.len() && trimmed(&all[from]).len() == 0
        invariant
            from <= all@.len(),
            rows == texts(all@),
            first_full(rows, from as int) == first_full(rows, 0),
        decreases all@.len() - from,
    {
        assert(rows[from as int] == all@[from as int]@);
        from += 1;
    }
    assert(from < rows.len() ==> rows[from as int] == all@[from as int]@);
    let mut to: usize = all.len();
    while to > 0 && trimmed(&all[to - 1]).len() == 0
        invariant
            to <= all@.len(),
            rows == texts(all@),
            last_full(rows, to as int) == last_full(rows, rows.len() as int),
        decreases to,
    {
        assert(rows[to - 1] == all@[to - 1]@);
        to -= 1;
    }
    assert(to > 0 ==> rows[to - 1] == all@[to - 1]@);
    let mut r: Vec<Vec<char>> = Vec::new();
    let mut k: usize = from;
    while k < to
        invariant
            rows == texts(all@),
            from <= k,
            to <= all@.len(),
            from > to ==> r@.len() == 0,
            from <= to ==> k <= to && texts(r@) == rows.subrange(from as int, k as int),
        decreases to - k,
    {
        let row = part_of(&all[k], 0, all[k].len());
        let ghost before = texts(r@);
        assert(row@ =~= rows[k as int]);
        r.push(row);
        assert(texts(r@) =~= before.push(rows[k as int]));
        assert(rows.subrange(from as int, k + 1) =~= before.push(rows[k as int]));
        k += 1;
    }
    assert(texts(r@) =~= block_rows(block@));
    r
}

/// Whether every line is a comment.
fn are_comments(rows: &Vec<Vec<char>>) -> (r: bool)
    ensures
        r == all_comments(texts(rows@)),
{
    let mut k: usize = 0;
    while k < rows.len()
        invariant
            k <= rows@.len(),
            forall|j: int| 0 <= j < k ==> first_is(#[trigger] texts(rows@)[j], ';'),
        decreases rows@.len() - k,
    {
        if !has_first(&rows[k], ';') {
            assert(!first_is(texts(rows@)[k as int], ';'));
            return false;
        }
        k += 1;
    }
    true
}

/// The value that a line gives to a field, the line without white space at its ends.
fn value_in(line: &Vec<char>, field: &str) -> (r: Option<String>)
    ensures
        match r {
            Some(v) => has_prefix(line@, field@) && v@ == trim(line@.skip(field@.len() as int)),
            None => !has_prefix(line@, field@),
        },
{
    if starts_with(line, field) {
        let prefix = chars_of(field);
        let rest = part_of(line, prefix.len(), line.len());
        assert(rest@ =~= line@.skip(field@.len() as int));
        Some(string_of(&trimmed(&rest)))
    } else {
        None
    }
}

/// Append a row to a grid.
fn push_row(grid: &mut Vec<char>, first: bool, row: &Vec<char>)
    ensures
        final(grid)@ == (if first {
            old(grid)@
        } else {
            old(grid)@.push('\n')
        }) + row@,
{
    if !first {
        grid.push('\n');
    }
    let ghost start = grid@;
    let mut k: usize = 0;
    assert(grid@ =~= start + row@.take(0));
    while k < row.len()
        invariant
            k <= row@.len(),
            grid@ == start + row@.take(k as int),
        decreases row@.len() - k,
    {
        grid.push(row[k]);
        k += 1;
        assert(grid@ =~= start + row@.take(k as int));
    }
    assert(row@.take(k as int) =~= row@);
}

/// The puzzle of a block, if it holds one.
fn read_puzzle(block: &Vec<char>, number: usize) -> (r: Option<Puzzle>)
    ensures
        match r {
            Some(p) => is_puzzle(block@) && p@ == puzzle_in(block@, number as int),
            None => !is_puzzle(block@),
        },
{
    let rows = rows_of(block);
    if are_comments(&rows) {
        return None;
    }
    let ghost all = texts(rows@);
    let mut grid: Vec<char> = Vec::new();
    let mut count: usize = 0;
    let mut title = String::new();
    let mut author = String::new();
    let mut collection = String::new();
    let mut k: usize = 0;
    proof {
        lemma_fields_differ();
    }
    while k < rows.len()
        invariant
            k <= rows@.len(),
            all == texts(rows@),
            count == grid_rows(all, k as int).len(),
            count <= k,
            grid@ == joined(grid_rows(all, k as int), '\n'),
            title@ == field_in(all, k as int, "Title:"@),
            author@ == field_in(all, k as int, "Author:"@),
            collection@ == field_in(all, k as int, "Collection:"@),
            forall|s: Seq<char>|
                has_prefix(s, "Title:"@) ==> !(#[trigger] has_prefix(s, "Author:"@)) && !has_prefix(
                    s,
                    "Collection:"@,
                ),
            forall|s: Seq<char>|
                has_prefix(s, "Author:"@) ==> !(#[trigger] has_prefix(s, "Collection:"@)),
        decreases rows@.len() - k,
    {
        let line = trimmed(&rows[k]);
        assert(all[k as int] == rows@[k as int]@);
        let ghost row = rows@[k as int]@;
        if let Some(v) = value_in(&line, "Title:") {
            title = v;
        } else if let Some(v) = value_in(&line, "Author:") {
            author = v;
        } else if let Some(v) = value_in(&line, "Collection:") {
            collection = v;
        } else if !(line.len() > 0 && line[0] == ';') {
            proof {
                let before = grid_rows(all, k as int);
                let after = grid_rows(all, k + 1);
                assert(after == before.push(row));
                assert(after.drop_last() =~= before);
            }
            push_row(&mut grid, count == 0, &rows[k]);
            count += 1;
            assert(grid@ =~= joined(grid_rows(all, k + 1), '\n'));
        }
        k += 1;
    }
    if !has_char(&grid, '#') {
        return None;
    }
    Some(
        Puzzle { global_index: number, title, author, collection, grid: string_of(&grid) },
    )
}

/// No line gives two fields a value.
proof fn lemma_fields_differ()
    ensures
        forall|s: Seq<char>|
            has_prefix(s, "Title:"@) ==> !(#[trigger] has_prefix(s, "Author:"@)) && !has_prefix(
                s,
                "Collection:"@,
            ),
        forall|s: Seq<char>|
            has_prefix(s, "Author:"@) ==> !(#[trigger] has_prefix(s, "Collection:"@)),
{
    reveal_strlit("Title:");
    reveal_strlit("Author:");
    reveal_strlit("Collection:");
    assert forall|s: Seq<char>| has_prefix(s, "Title:"@) implies !(#[trigger] has_prefix(
        s,
        "Author:"@,
    )) && !has_prefix(s, "Collection:"@) by {
        assert(s.take(6)[0] == 'T');
        if has_prefix(s, "Author:"@) {
            assert(s.take(7)[0] == 'A');
        }
        if has_prefix(s, "Collection:"@) {
            assert(s.take(11)[0] == 'C');
        }
    }
    assert forall|s: Seq<char>| has_prefix(s, "Author:"@) implies !(#[trigger] has_prefix(
        s,
        "Collection:"@,
    )) by {
        assert(s.take(7)[0] == 'A');
        if has_prefix(s, "Collection:"@) {
            assert(s.take(11)[0] == 'C');
        }
    }
}

/// Read a collection: blocks with a blank line between them, each the rows of a grid with lines
/// for title, author and collection. Blocks of comments are left out.
pub fn parse_normalised_xsb(content: &str) -> (r: Vec<Puzzle>)
    ensures
        puzzle_models(r@) == puzzles_of(content@),
{
    let blocks = blocks_of(&chars_of(content));
    let ghost all = texts(blocks@);
    let mut puzzles: Vec<Puzzle> = Vec::new();
    let mut k: usize = 0;
    assert(puzzle_models(puzzles@) =~= puzzles_in(all, 0));
    while k < blocks.len()
        invariant
            k <= blocks@.len(),
            all == texts(blocks@),
            puzzles@.len() <= k,
            puzzle_models(puzzles@) == puzzles_in(all, k as int),
        decreases blocks@.len() - k,
    {
        let ghost before = puzzle_models(puzzles@);
        assert(all[k as int] == blocks@[k as int]@);
        if let Some(p) = read_puzzle(&blocks[k], puzzles.len() + 1) {
            let ghost m = p@;
            puzzles.push(p);
            assert(puzzle_models(puzzles@) =~= before.push(m));
        }
        k += 1;
    }
    puzzles
}

proof fn lemma_numbered(blocks: Seq<Seq<char>>, n: int, k: int)
    requires
        0 <= n <= blocks.len(),
        0 <= k < puzzles_in(blocks, n).len(),
    ensures
        puzzles_in(blocks, n)[k].global_index == k + 1,
        puzzles_in(blocks, n)[k].grid.contains('#'),
    decreases n,
{
    if n > 0 && k < puzzles_in(blocks, n - 1).len() {
        lemma_numbered(blocks, n - 1, k);
    }
}

/// The puzzles of a collection are numbered from 1 on, and each has a grid with a wall. So the
/// grid has a line, and no puzzle is refused as empty.
pub proof fn law_puzzles_are_numbered(content: Seq<char>)
    ensures
        forall|k: int|
            0 <= k < puzzles_of(content).len() ==> (#[trigger] puzzles_of(
                content,
            )[k]).global_index == k + 1 && puzzles_of(content)[k].grid.contains('#') && lines(
                puzzles_of(content)[k].grid,
            ).len() > 0,
{
    let blocks = blocks_from(content, 0);
    assert forall|k: int| 0 <= k < puzzles_of(content).len() implies (#[trigger] puzzles_of(
        content,
    )[k]).global_index == k + 1 && puzzles_of(content)[k].grid.contains('#') && lines(
        puzzles_of(content)[k].grid,
    ).len() > 0 by {
        lemma_numbered(blocks, blocks.len() as int, k);
    }
}

// ── Solving ───────────────────────────────────────────────────────────────

/// What came of a puzzle.
pub struct SolveResult {
    pub solved: bool,
    pub push_count: u32,
    pub moves: String,
}

/// The player starts on the grid that the rows describe.
pub open spec fn starts_on_grid(rows: Seq<Seq<char>>) -> bool {
    let (w, h) = (xsb_width(rows) as u8, xsb_height(rows) as u8);
    on_grid(w, h, stand(w, player_in(rows, rows.len() as int)))
}

/// A solver can take up the level that the rows describe, or there are none.
pub open spec fn is_ready(rows: Seq<Seq<char>>) -> bool {
    &&& storable(rows)
    &&& rows.len() > 0 ==> starts_on_grid(rows)
}

/// `v` is a solver for the level `l`, which the rows describe.
pub open spec fn prepared(rows: Seq<Seq<char>>, l: &SokobanLevel, v: &Solver) -> bool {
    &&& l.wf()
    &&& reads(rows, l)
    &&& v.wf()
    &&& v.width == l.width
    &&& v.height == l.height
    &&& v.walls@ == l.walls@
    &&& v.goals@ == l.goals@
}

/// The result is that of a search of at most `max_nodes` nodes for a solution of the level that
/// the rows describe. Moves that are found solve the level.
pub open spec fn is_outcome(rows: Seq<Seq<char>>, max_nodes: int, s: &SolveResult) -> bool {
    exists|l: SokobanLevel, v: Solver, r: SolverResult|
        {
            &&& #[trigger] prepared(rows, &l, &v)
            &&& #[trigger] is_result(v.ground(), l.boxes@, l.player_pos as int, max_nodes, &r)
            &&& s.solved == r.solved
            &&& s.push_count == r.push_count
            &&& s.moves@ == r.moves@
            &&& s.solved ==> is_solution(v.ground(), l.boxes@, l.player_pos as int, s.moves@)
        }
}

/// A solver can take up every level with a grid of 1 to 255 rows and columns.
pub proof fn law_small_grids_are_ready(rows: Seq<Seq<char>>)
    requires
        is_small(rows),
    ensures
        is_ready(rows),
{
    law_small_grids_can_be_read(rows);
    let (w, h) = (xsb_width(rows), xsb_height(rows));
    lemma_unflat(w, h, player_in(rows, rows.len() as int));
}

/// Whether a solver can take up the level that a grid describes.
pub fn can_solve(grid: &str) -> (r: bool)
    ensures
        r == is_ready(lines(grid@)),
{
    if !can_store(grid) {
        return false;
    }
    match SokobanLevel::from_xsb(grid) {
        Ok(l) => {
            if l.width == 0 {
                return false;
            }
            let (x, y) = stand_of(l.width, l.player_pos as usize);
            x < l.width && y < l.height
        },
        Err(_) => true,
    }
}

/// Solve a puzzle with a search of at most `max_nodes` nodes.
pub fn solve_puzzle(puzzle: &Puzzle, max_nodes: u32) -> (r: Result<SolveResult, String>)
    requires
        is_ready(lines(puzzle.grid@)),
    ensures
        match r {
            Ok(s) => lines(puzzle.grid@).len() > 0 && is_outcome(
                lines(puzzle.grid@),
                max_nodes as int,
                &s,
            ),
            Err(e) => lines(puzzle.grid@).len() == 0 && e@ == words(LevelError::EmptyLevel),
        },
{
    let ghost rows = lines(puzzle.grid@);
    let level = match SokobanLevel::from_xsb(puzzle.grid.as_str()) {
        Ok(l) => l,
        Err(e) => {
            return Err(e.message());
        },
    };
    let solver = Solver::new(&level);
    let result = solver.solve(&level, max_nodes);
    let s = SolveResult {
        solved: result.solved(),
        push_count: result.push_count(),
        moves: result.moves(),
    };
    proof {
        assert(prepared(rows, &level, &solver));
    }
    Ok(s)
}

// ── Reports ───────────────────────────────────────────────────────────────

/// The names of the columns of a report.
pub open spec fn columns() -> Seq<Seq<char>> {
    seq![
        "index"@,
        "title"@,
        "collection"@,
        "author"@,
        "solved"@,
        "push_count"@,
        "moves"@,
    ]
}

/// The row of a report for a puzzle.
pub open spec fn report_row(p: PuzzleModel, r: &Result<SolveResult, String>) -> Seq<Seq<char>> {
    let outcome = match r {
        Ok(s) => seq![
            if s.solved {
                "true"@
            } else {
                "false"@
            },
            decimal(s.push_count as nat),
            s.moves@,
        ],
        Err(e) => seq!["error"@, "0"@, e@],
    };
    seq![decimal(p.global_index as nat), p.title, p.collection, p.author] + outcome
}

/// A number in decimal.
fn number(n: u64) -> (r: String)
    ensures
        r@ == decimal(n as nat),
{
    let mut r = String::new();
    push_decimal(&mut r, n);
    r
}

/// The names of the columns of a report.
pub fn report_header() -> (r: Vec<String>)
    ensures
        strings(r@) == columns(),
{
    let mut r: Vec<String> = Vec::new();
    r.push(String::from_str("index"));
    r.push(String::from_str("title"));
    r.push(String::from_str("collection"));
    r.push(String::from_str("author"));
    r.push(String::from_str("solved"));
    r.push(String::from_str("push_count"));
    r.push(String::from_str("moves"));
    assert(strings(r@) =~= columns());
    r
}

/// The row of a report for a puzzle. An error stands in the place of the moves.
pub fn report_record(puzzle: &Puzzle, result: &Result<SolveResult, String>) -> (r: Vec<String>)
    ensures
        strings(r@) == report_row(puzzle@, result),
{
    let mut r: Vec<String> = Vec::new();
    r.push(number(puzzle.global_index as u64));
    r.push(puzzle.title.clone());
    r.push(puzzle.collection.clone());
    r.push(puzzle.author.clone());
    match result {
        Ok(s) => {
            r.push(String::from_str(if s.solved { "true" } else { "false" }));
            r.push(number(s.push_count as u64));
            r.push(s.moves.clone());
        },
        Err(e) => {
            r.push(String::from_str("error"));
            r.push(String::from_str("0"));
            r.push(e.clone());
        },
    }
    assert(strings(r@) =~= report_row(puzzle@, result));
    r
}

/// How many puzzles were solved, given up, and not read.
pub struct Tally {
    pub solved: usize,
    pub unsolved: usize,
    pub errored: usize,
}

/// A puzzle was solved.
pub open spec fn is_solved_result(r: Result<SolveResult, String>) -> bool {
    match r {
        Ok(s) => s.solved,
        Err(_) => false,
    }
}

/// Count the results of a run.
pub fn tally(results: &Vec<Result<SolveResult, String>>) -> (t: Tally)
    ensures
        t.solved == results@.filter(|r: Result<SolveResult, String>| is_solved_result(r)).len(),
        t.errored == results@.filter(|r: Result<SolveResult, String>| r is Err).len(),
        t.solved + t.unsolved + t.errored == results@.len(),
{
    let ghost solved_by = |r: Result<SolveResult, String>| is_solved_result(r);
    let ghost errored_by = |r: Result<SolveResult, String>| r is Err;
    let mut t = Tally { solved: 0, unsolved: 0, errored: 0 };
    let mut k: usize = 0;
    proof {
        reveal(Seq::filter);
        assert(results@.take(0).filter(solved_by).len() == 0);
        assert(results@.take(0).filter(errored_by).len() == 0);
    }
    while k < results.len()
        invariant
            k <= results@.len(),
            solved_by == (|r: Result<SolveResult, String>| is_solved_result(r)),
            errored_by == (|r: Result<SolveResult, String>| r is Err),
            t.solved == results@.take(k as int).filter(solved_by).len(),
            t.errored == results@.take(k as int).filter(errored_by).len(),
            t.solved + t.unsolved + t.errored == k,
        decreases results@.len() - k,
    {
        proof {
            reveal(Seq::filter);
            assert(results@.take(k + 1).drop_last() =~= results@.take(k as int));
        }
        match &results[k] {
            Ok(s) => {
                if s.solved {
                    t.solved += 1;
                } else {
                    t.unsolved += 1;
                }
            },
            Err(_) => {
                t.errored += 1;
            },
        }
        k += 1;
    }
    assert(results@.take(k as int) =~= results@);
    t
}

/// Milliseconds between two lines of progress.
pub const PROGRESS_INTERVAL_MS: u64 = 200;

/// Whether a line of progress is due at `now_ms`, `last_ms` being the time of the last one. The
/// last puzzle always has its line.
pub fn is_progress_due(done: usize, total: usize, now_ms: u64, last_ms: u64) -> (r: bool)
    ensures
        r == (done == total || now_ms - last_ms >= PROGRESS_INTERVAL_MS),
{
    done == total || now_ms.saturating_sub(last_ms) >= PROGRESS_INTERVAL_MS
}

// ── Laws ──────────────────────────────────────────────────────────────────

/// The row of a report reads as its columns say. The index and the number of pushes are read back
/// as numbers. Of a puzzle that was solved the number is that of the upper case letters among the
/// moves, whatever the other letters, as far as it fits 32 bits.
pub proof fn law_report_row_reads_as_its_columns(
    rows: Seq<Seq<char>>,
    max_nodes: int,
    p: PuzzleModel,
    r: &Result<SolveResult, String>,
)
    requires
        0 <= p.global_index,
    ensures
        columns() == seq![
            "index"@,
            "title"@,
            "collection"@,
            "author"@,
            "solved"@,
            "push_count"@,
            "moves"@,
        ],
        report_row(p, r).len() == 7,
        digits_value(report_row(p, r)[0]) == p.global_index && all_digits(report_row(p, r)[0]),
        report_row(p, r)[1] == p.title,
        report_row(p, r)[2] == p.collection,
        report_row(p, r)[3] == p.author,
        match r {
            Ok(s) => {
                &&& report_row(p, r)[4] == (if s.solved {
                    "true"@
                } else {
                    "false"@
                })
                &&& u32_value(report_row(p, r)[5]) == Some(s.push_count as int)
                &&& report_row(p, r)[6] == s.moves@
                &&& is_outcome(rows, max_nodes, s) ==> u32_value(report_row(p, r)[5]) == Some(
                    pushes_in(report_row(p, r)[6]) as int % 0x1_0000_0000,
                )
                &&& is_outcome(rows, max_nodes, s) && !s.solved ==> report_row(p, r)[5] == "0"@
                    && report_row(p, r)[6].len() == 0
            },
            Err(e) => {
                &&& report_row(p, r)[4] == "error"@
                &&& report_row(p, r)[5] == "0"@
                &&& report_row(p, r)[6] == e@
            },
        },
{
    law_decimal_is_read_back(p.global_index as nat);
    if let Ok(s) = r {
        law_decimal_is_read_back(s.push_count as nat);
        if is_outcome(rows, max_nodes, s) {
            lemma_outcome_counts(rows, max_nodes, s);
            reveal_strlit("0");
            law_decimal_digits(0, 0);
            reveal_strlit("0123456789");
            assert("0"@ =~= seq!['0']);
        }
    }
}

/// The number of pushes of an outcome is that of its moves.
proof fn lemma_outcome_counts(rows: Seq<Seq<char>>, max_nodes: int, s: &SolveResult)
    requires
        is_outcome(rows, max_nodes, s),
    ensures
        s.push_count == pushes_in(s.moves@) % 0x1_0000_0000,
        !s.solved ==> s.push_count == 0 && s.moves@.len() == 0,
{
    let (l, v, r) = choose|l: SokobanLevel, v: Solver, r: SolverResult|
        {
            &&& #[trigger] prepared(rows, &l, &v)
            &&& #[trigger] is_result(v.ground(), l.boxes@, l.player_pos as int, max_nodes, &r)
            &&& s.solved == r.solved
            &&& s.push_count == r.push_count
            &&& s.moves@ == r.moves@
            &&& s.solved ==> is_solution(v.ground(), l.boxes@, l.player_pos as int, s.moves@)
        };
    law_push_count_is_that_of_the_moves(
        v.ground(),
        l.boxes@,
        l.player_pos as int,
        max_nodes,
        &r,
    );
}

/// A run counts as solved what its report calls solved, and as an error what its report calls one.
pub proof fn law_tally_counts_what_the_rows_say(p: PuzzleModel, r: Result<SolveResult, String>)
    ensures
        is_solved_result(r) <==> report_row(p, &r)[4] == "true"@,
        r is Err <==> report_row(p, &r)[4] == "error"@,
        r is Ok && !is_solved_result(r) <==> report_row(p, &r)[4] == "false"@,
{
    reveal_strlit("true");
    reveal_strlit("false");
    reveal_strlit("error");
    assert("true"@[0] == 't' && "false"@[0] == 'f' && "error"@[0] == 'e');
}

/// There are at most five lines of progress a second, the last one left aside.
pub proof fn law_five_lines_of_progress_a_second()
    ensures
        5 * PROGRESS_INTERVAL_MS == 1000,
{
}

/// A character of a grid.
pub open spec fn is_grid_char(c: char) -> bool {
    c == '#' || c == '$' || c == '.' || c == '*' || c == '@' || c == '+' || c == ' '
}

/// The line could be a row of a grid: it has characters, all of them of a grid.
pub open spec fn is_plain_row(row: Seq<char>) -> bool {
    row.len() > 0 && forall|x: int| 0 <= x < row.len() ==> is_grid_char(#[trigger] row[x])
}

/// The value of a field as it can be written on a line: no white space at its ends, no line feeds.
pub open spec fn is_plain_value(value: Seq<char>) -> bool {
    &&& value.len() > 0 && !is_space(value[0]) && !is_space(value.last())
    &&& !value.contains('\n')
}

/// A puzzle as it is written in a collection.
pub ghost struct Entry {
    pub rows: Seq<Seq<char>>,
    pub title: Seq<char>,
    pub author: Seq<char>,
    pub collection: Seq<char>,
}

impl Entry {
    /// Rows of a grid with a wall, the first and the last not blank, and values for the fields.
    pub open spec fn wf(self) -> bool {
        &&& self.rows.len() > 0
        &&& forall|y: int| 0 <= y < self.rows.len() ==> is_plain_row(#[trigger] self.rows[y])
        &&& !is_blank(self.rows[0])
        &&& exists|y: int| 0 <= y < self.rows.len() && (#[trigger] self.rows[y]).contains('#')
        &&& is_plain_value(self.title) && is_plain_value(self.author) && is_plain_value(
            self.collection,
        )
    }

    /// The lines of the puzzle: its rows, then its fields.
    pub open spec fn lines(self) -> Seq<Seq<char>> {
        self.rows + seq![
            "Title: "@ + self.title,
            "Author: "@ + self.author,
            "Collection: "@ + self.collection,
        ]
    }

    /// The text of the puzzle.
    pub open spec fn text(self) -> Seq<char> {
        joined(self.lines(), '\n')
    }
}

/// The text of a collection: its puzzles with a blank line between them.
pub open spec fn collection_text(entries: Seq<Entry>) -> Seq<char>
    decreases entries.len(),
{
    if entries.len() == 0 {
        Seq::empty()
    } else if entries.len() == 1 {
        entries[0].text()
    } else {
        entries[0].text() + seq!['\n', '\n'] + collection_text(entries.skip(1))
    }
}

/// A row of a grid gives no field a value and is no comment.
proof fn lemma_plain_row(row: Seq<char>)
    requires
        is_plain_row(row),
    ensures
        is_grid_row(row),
        is_line(row),
        !first_is(row, ';'),
{
    reveal_strlit("Title:");
    reveal_strlit("Author:");
    reveal_strlit("Collection:");
    let (i, j) = law_trim_takes_white_space_alone(row);
    let t = trim(row);
    if t.len() > 0 {
        assert(t[0] == row[i]);
        assert(is_grid_char(row[i]));
        if has_prefix(t, "Title:"@) {
            assert(t.take(6)[0] == 'T');
        }
        if has_prefix(t, "Author:"@) {
            assert(t.take(7)[0] == 'A');
        }
        if has_prefix(t, "Collection:"@) {
            assert(t.take(11)[0] == 'C');
        }
    }
    if row.contains('\n') {
        let x = choose|x: int| 0 <= x < row.len() && row[x] == '\n';
        assert(is_grid_char(row[x]));
    }
    assert(is_grid_char(row[row.len() - 1]));
    if first_is(row, ';') {
        lemma_trim_start_of_grid(row);
    }
}

proof fn lemma_trim_start_of_grid(row: Seq<char>)
    requires
        forall|x: int| 0 <= x < row.len() ==> is_grid_char(#[trigger] row[x]),
    ensures
        !first_is(row, ';'),
    decreases row.len(),
{
    if row.len() > 0 {
        assert(is_grid_char(row[0]));
        if is_space(row[0]) {
            let t = row.skip(1);
            assert forall|x: int| 0 <= x < t.len() implies is_grid_char(#[trigger] t[x]) by {
                assert(t[x] == row[x + 1]);
            }
            lemma_trim_start_of_grid(t);
        }
    }
}

/// A line with the name of a field and a value.
proof fn lemma_field_line(name: Seq<char>, value: Seq<char>)
    requires
        name.len() > 1,
        name.last() == ' ',
        !is_space(name[0]),
        !name.contains('\n'),
        is_plain_value(value),
    ensures
        trim(name + value) == name + value,
        is_line(name + value),
        !is_blank(name + value),
        has_field(name + value, name.drop_last()),
        field_value(name + value, name.drop_last()) == value,
{
    let s = name + value;
    let field = name.drop_last();
    assert(s[0] == name[0] && s.last() == value.last());
    law_trim_keeps_the_rest(s);
    law_trim_keeps_the_rest(value);
    assert(s.take(field.len() as int) =~= field);
    assert(s.skip(field.len() as int) =~= seq![' '] + value);
    if s.contains('\n') {
        let k = choose|k: int| 0 <= k < s.len() && s[k] == '\n';
        if k < name.len() {
            assert(name.contains(name[k]));
        } else {
            assert(value.contains(value[k - name.len()]));
        }
    }
    assert(is_space('\r'));
}

/// The fields of an entry.
proof fn lemma_entry_fields(e: Entry)
    requires
        e.wf(),
    ensures
        ({
            let (t, a, c) = (
                "Title: "@ + e.title,
                "Author: "@ + e.author,
                "Collection: "@ + e.collection,
            );
            &&& is_line(t) && is_line(a) && is_line(c)
            &&& !is_blank(c)
            &&& has_field(t, "Title:"@) && field_value(t, "Title:"@) == e.title
            &&& has_field(a, "Author:"@) && field_value(a, "Author:"@) == e.author
            &&& has_field(c, "Collection:"@) && field_value(c, "Collection:"@) == e.collection
            &&& !has_field(a, "Title:"@) && !has_field(c, "Title:"@) && !has_field(c, "Author:"@)
        }),
{
    reveal_strlit("Title: ");
    reveal_strlit("Author: ");
    reveal_strlit("Collection: ");
    reveal_strlit("Title:");
    reveal_strlit("Author:");
    reveal_strlit("Collection:");
    lemma_field_line("Title: "@, e.title);
    lemma_field_line("Author: "@, e.author);
    lemma_field_line("Collection: "@, e.collection);
    assert("Title: "@.drop_last() =~= "Title:"@);
    assert("Author: "@.drop_last() =~= "Author:"@);
    assert("Collection: "@.drop_last() =~= "Collection:"@);
    let (a, c) = ("Author: "@ + e.author, "Collection: "@ + e.collection);
    assert(a[0] == 'A' && c[0] == 'C');
    if has_prefix(a, "Title:"@) {
        assert(a.take(6)[0] == 'T');
    }
    if has_prefix(c, "Title:"@) {
        assert(c.take(6)[0] == 'T');
    }
    if has_prefix(c, "Author:"@) {
        assert(c.take(7)[0] == 'A');
    }
}

/// All rows of a grid are kept.
proof fn lemma_rows_kept(rows: Seq<Seq<char>>, n: int, k: int)
    requires
        0 <= k <= n <= rows.len(),
        forall|y: int| 0 <= y < n ==> is_plain_row(#[trigger] rows[y]),
    ensures
        grid_rows(rows, k) == rows.take(k),
        field_in(rows, k, "Title:"@) == Seq::<char>::empty(),
        field_in(rows, k, "Author:"@) == Seq::<char>::empty(),
        field_in(rows, k, "Collection:"@) == Seq::<char>::empty(),
    decreases k,
{
    if k > 0 {
        lemma_rows_kept(rows, n, k - 1);
        assert(is_plain_row(rows[k - 1]));
        lemma_plain_row(rows[k - 1]);
        assert(rows.take(k) =~= rows.take(k - 1).push(rows[k - 1]));
    } else {
        assert(rows.take(0) =~= Seq::<Seq<char>>::empty());
    }
}

/// The lines of an entry are the rows of its block.
proof fn lemma_entry_rows(e: Entry)
    requires
        e.wf(),
    ensures
        block_rows(e.text()) == e.lines(),
        forall|k: int| 0 <= k < e.lines().len() ==> is_line(#[trigger] e.lines()[k]),
{
    let all = e.lines();
    let n = e.rows.len() as int;
    lemma_entry_fields(e);
    assert forall|k: int| 0 <= k < all.len() implies is_line(#[trigger] all[k]) by {
        if k < n {
            assert(is_plain_row(e.rows[k]));
            lemma_plain_row(e.rows[k]);
        }
    }
    law_joined_lines_are_found_again(all);
    assert(first_full(all, 0) == 0);
    assert(last_full(all, n + 3) == n + 3);
    assert(all.subrange(0, n + 3) =~= all);
}

/// A puzzle that is written as a block is read back: its title, author and collection, and all its
/// rows, as they stand and in order.
pub proof fn law_puzzle_is_read_back(e: Entry, number: int)
    requires
        e.wf(),
    ensures
        is_puzzle(e.text()),
        puzzle_in(e.text(), number) == (PuzzleModel {
            global_index: number,
            title: e.title,
            author: e.author,
            collection: e.collection,
            grid: joined(e.rows, '\n'),
        }),
{
    let all = e.lines();
    let n = e.rows.len() as int;
    lemma_entry_rows(e);
    lemma_entry_fields(e);
    assert forall|y: int| 0 <= y < n implies is_plain_row(#[trigger] all[y]) by {
        assert(is_plain_row(e.rows[y]));
    }
    lemma_rows_kept(all, n, n);
    assert(all.take(n) =~= e.rows);
    let (t, a, c) = (
        "Title: "@ + e.title,
        "Author: "@ + e.author,
        "Collection: "@ + e.collection,
    );
    assert(all[n] == t && all[n + 1] == a && all[n + 2] == c);
    lemma_fields_differ();
    assert(has_prefix(trim(t), "Title:"@) && has_prefix(trim(a), "Author:"@));
    assert(field_in(all, n + 1, "Title:"@) == e.title);
    assert(field_in(all, n + 2, "Title:"@) == e.title);
    assert(field_in(all, n + 3, "Title:"@) == e.title);
    assert(field_in(all, n + 2, "Author:"@) == e.author);
    assert(field_in(all, n + 3, "Author:"@) == e.author);
    assert(field_in(all, n + 3, "Collection:"@) == e.collection);
    assert(grid_rows(all, n + 1) == e.rows);
    assert(grid_rows(all, n + 2) == e.rows);
    assert(grid_rows(all, n + 3) == e.rows);
    assert(is_plain_row(e.rows[0]));
    lemma_plain_row(e.rows[0]);
    assert(all[0] == e.rows[0]);
    let y = choose|y: int| 0 <= y < n && (#[trigger] e.rows[y]).contains('#');
    lemma_joined_holds(e.rows, '\n', y, '#');
}

/// What a part holds, the parts joined hold.
proof fn lemma_joined_holds(parts: Seq<Seq<char>>, separator: char, k: int, c: char)
    requires
        0 <= k < parts.len(),
        parts[k].contains(c),
    ensures
        joined(parts, separator).contains(c),
    decreases parts.len(),
{
    let n = parts.len();
    let all = joined(parts, separator);
    if n > 1 {
        let less = joined(parts.drop_last(), separator);
        if k < n - 1 {
            lemma_joined_holds(parts.drop_last(), separator, k, c);
            let i = choose|i: int| 0 <= i < less.len() && less[i] == c;
            assert(all[i] == c);
        } else {
            let i = choose|i: int| 0 <= i < parts[k].len() && parts[k][i] == c;
            assert(all[less.len() + 1 + i] == c);
        }
    }
}

/// The text has no blank line and ends with a line's character.
pub open spec fn is_gapless(s: Seq<char>) -> bool {
    &&& s.len() > 0 && s.last() != '\n'
    &&& forall|i: int| 0 <= i < s.len() - 1 ==> !(#[trigger] s[i] == '\n' && s[i + 1] == '\n')
}

proof fn lemma_joined_gapless(parts: Seq<Seq<char>>)
    requires
        parts.len() > 0,
        forall|k: int| 0 <= k < parts.len() ==> is_line(#[trigger] parts[k]),
    ensures
        is_gapless(joined(parts, '\n')),
    decreases parts.len(),
{
    let n = parts.len();
    let all = joined(parts, '\n');
    let last = parts[n - 1];
    assert(is_line(parts[n - 1]));
    assert forall|i: int| 0 <= i < last.len() implies #[trigger] last[i] != '\n' by {
        assert(last.contains(last[i]));
    }
    if n > 1 {
        let less = parts.drop_last();
        assert forall|k: int| 0 <= k < less.len() implies is_line(#[trigger] less[k]) by {
            assert(less[k] == parts[k]);
        }
        lemma_joined_gapless(less);
        let part = joined(less, '\n');
        assert forall|i: int| 0 <= i < all.len() - 1 implies !(#[trigger] all[i] == '\n' && all[i
            + 1] == '\n') by {
            if i < part.len() - 1 {
                assert(all[i] == part[i] && all[i + 1] == part[i + 1]);
            } else if i == part.len() - 1 {
                assert(all[i] == part.last());
            } else {
                assert(all[i + 1] == last[i - part.len()]);
            }
        }
    }
}

/// A block ends where its text does.
proof fn lemma_block_ends(s: Seq<char>, rest: Seq<char>, i: int)
    requires
        is_gapless(s),
        0 <= i <= s.len(),
    ensures
        block_end(s + seq!['\n', '\n'] + rest, i) == s.len(),
        block_end(s, i) == s.len(),
    decreases s.len() - i,
{
    let all = s + seq!['\n', '\n'] + rest;
    if i < s.len() {
        lemma_block_ends(s, rest, i + 1);
        assert(all[i] == s[i]);
        if i + 1 < s.len() {
            assert(all[i + 1] == s[i + 1]);
        } else {
            assert(s[i] == s.last());
            assert(block_end(all, i) == block_end(all, i + 1));
        }
    } else {
        assert(all[i] == '\n' && all[i + 1] == '\n');
    }
}

proof fn lemma_block_end_skip(s: Seq<char>, i: int, k: int)
    requires
        0 <= i <= s.len(),
        0 <= k,
    ensures
        i + k <= s.len() ==> block_end(s.skip(i), k) + i == block_end(s, i + k),
    decreases s.len() - i - k,
{
    let t = s.skip(i);
    if i + k + 1 < s.len() {
        assert(t[k] == s[i + k] && t[k + 1] == s[i + k + 1]);
        lemma_block_end_skip(s, i, k + 1);
    }
}

proof fn lemma_blocks_skip(s: Seq<char>, i: int, k: int)
    requires
        0 <= i <= s.len(),
        0 <= k,
        i + k <= s.len(),
    ensures
        blocks_from(s.skip(i), k) == blocks_from(s, i + k),
    decreases s.len() - i - k,
{
    let t = s.skip(i);
    lemma_block_end(t, k);
    lemma_block_end_skip(s, i, k);
    let e = block_end(t, k);
    assert(t.subrange(k, e) =~= s.subrange(i + k, i + e));
    if e < t.len() {
        lemma_blocks_skip(s, i, e + 2);
    }
}

/// A blank line ends a block, and the other blocks are those of the rest. A text without a blank
/// line is one block.
pub proof fn law_blocks_end_at_blank_lines(block: Seq<char>, rest: Seq<char>)
    requires
        is_gapless(block),
    ensures
        blocks_from(block, 0) == seq![block],
        blocks_from(block + seq!['\n', '\n'] + rest, 0) == seq![block] + blocks_from(rest, 0),
{
    let all = block + seq!['\n', '\n'] + rest;
    let n = block.len() as int;
    lemma_block_ends(block, rest, 0);
    assert(block.subrange(0, n) =~= block);
    assert(all.subrange(0, n) =~= block);
    lemma_blocks_skip(all, n + 2, 0);
    assert(all.skip(n + 2) =~= rest);
}

/// What entries are read as, numbered from `number` on.
pub open spec fn models_of(entries: Seq<Entry>, number: int) -> Seq<PuzzleModel> {
    Seq::new(
        entries.len(),
        |k: int|
            PuzzleModel {
                global_index: number + k,
                title: entries[k].title,
                author: entries[k].author,
                collection: entries[k].collection,
                grid: joined(entries[k].rows, '\n'),
            },
    )
}

proof fn lemma_collection_blocks(entries: Seq<Entry>)
    requires
        entries.len() > 0,
        forall|k: int| 0 <= k < entries.len() ==> (#[trigger] entries[k]).wf(),
    ensures
        blocks_from(collection_text(entries), 0) == Seq::new(
            entries.len(),
            |k: int| entries[k].text(),
        ),
    decreases entries.len(),
{
    let first = entries[0];
    assert(entries[0].wf());
    lemma_entry_rows(first);
    lemma_joined_gapless(first.lines());
    let blocks = Seq::new(entries.len(), |k: int| entries[k].text());
    if entries.len() == 1 {
        law_blocks_end_at_blank_lines(first.text(), Seq::empty());
        assert(seq![first.text()] =~= blocks);
    } else {
        let rest = entries.skip(1);
        assert forall|k: int| 0 <= k < rest.len() implies (#[trigger] rest[k]).wf() by {
            assert(rest[k] == entries[k + 1]);
        }
        lemma_collection_blocks(rest);
        law_blocks_end_at_blank_lines(first.text(), collection_text(rest));
        assert(seq![first.text()] + Seq::new(rest.len(), |k: int| rest[k].text()) =~= blocks);
    }
}

proof fn lemma_puzzles_read(entries: Seq<Entry>, n: int)
    requires
        0 <= n <= entries.len(),
        forall|k: int| 0 <= k < entries.len() ==> (#[trigger] entries[k]).wf(),
    ensures
        puzzles_in(Seq::new(entries.len(), |k: int| entries[k].text()), n) == models_of(
            entries,
            1,
        ).take(n),
    decreases n,
{
    let blocks = Seq::new(entries.len(), |k: int| entries[k].text());
    let models = models_of(entries, 1);
    if n > 0 {
        lemma_puzzles_read(entries, n - 1);
        assert(entries[n - 1].wf());
        law_puzzle_is_read_back(entries[n - 1], n);
        assert(models.take(n) =~= models.take(n - 1).push(models[n - 1]));
    } else {
        assert(models.take(0) =~= Seq::<PuzzleModel>::empty());
    }
}

/// A collection is read back: every puzzle that was written, in order, with its number, its title,
/// its author, its collection and all its rows.
pub proof fn law_collection_is_read_back(entries: Seq<Entry>)
    requires
        entries.len() > 0,
        forall|k: int| 0 <= k < entries.len() ==> (#[trigger] entries[k]).wf(),
    ensures
        puzzles_of(collection_text(entries)) == models_of(entries, 1),
{
    let models = models_of(entries, 1);
    lemma_collection_blocks(entries);
    lemma_puzzles_read(entries, entries.len() as int);
    assert(models.take(entries.len() as int) =~= models);
}

/// The grid of two runs of lines is that of the first and then that of the second. A line is left
/// out where it is a comment or gives a field a value, and there alone; a line that is kept stays
/// as it is, however often it occurs.
pub proof fn law_grid_keeps_every_other_line(
    before: Seq<Seq<char>>,
    line: Seq<char>,
    after: Seq<Seq<char>>,
)
    ensures
        ({
            let all = before.push(line) + after;
            let kept = grid_rows(before, before.len() as int);
            let rest = grid_rows(after, after.len() as int);
            let left_out = trim(line).len() > 0 && trim(line)[0] == ';' || has_prefix(
                trim(line),
                "Title:"@,
            ) || has_prefix(trim(line), "Author:"@) || has_prefix(trim(line), "Collection:"@);
            &&& left_out ==> grid_rows(all, all.len() as int) == kept + rest
            &&& !left_out ==> grid_rows(all, all.len() as int) == kept.push(line) + rest
        }),
{
    let more = before.push(line);
    lemma_rows_add_up(more, after, after.len() as int);
    lemma_rows_add_up(before, seq![line], 0);
    assert(before + seq![line] =~= more);
    assert(more + after.take(after.len() as int) =~= more + after);
}

proof fn lemma_rows_add_up(a: Seq<Seq<char>>, b: Seq<Seq<char>>, n: int)
    requires
        0 <= n <= b.len(),
    ensures
        grid_rows(a + b, a.len() + n) == grid_rows(a, a.len() as int) + grid_rows(b, n),
    decreases n,
{
    if n > 0 {
        lemma_rows_add_up(a, b, n - 1);
        assert((a + b)[a.len() + n - 1] == b[n - 1]);
        assert(grid_rows(a + b, a.len() + n - 1).push(b[n - 1]) =~= grid_rows(a, a.len() as int)
            + grid_rows(b, n - 1).push(b[n - 1]));
    } else {
        lemma_rows_of_part(a, b, a.len() as int);
    }
}

proof fn lemma_rows_of_part(a: Seq<Seq<char>>, b: Seq<Seq<char>>, n: int)
    requires
        0 <= n <= a.len(),
    ensures
        grid_rows(a + b, n) == grid_rows(a, n),
    decreases n,
{
    if n > 0 {
        lemma_rows_of_part(a, b, n - 1);
        assert((a + b)[n - 1] == a[n - 1]);
    }
}

/// A line that gives a field a value counts over the lines before it, and one that does not changes
/// nothing. The value is what follows the name of the field, without the white space around it.
pub proof fn law_last_value_of_a_field_counts(
    before: Seq<Seq<char>>,
    line: Seq<char>,
    field: Seq<char>,
)
    ensures
        ({
            let n = before.len() as int;
            let known = field_in(before, n, field);
            &&& has_prefix(trim(line), field) ==> field_in(before.push(line), n + 1, field) == trim(
                trim(line).skip(field.len() as int),
            )
            &&& !has_prefix(trim(line), field) ==> field_in(before.push(line), n + 1, field)
                == known
            &&& field_in(Seq::empty(), 0, field).len() == 0
        }),
{
    lemma_prefix_fields(before, line, before.len() as int, field);
    assert(before.push(line)[before.len() as int] == line);
}

proof fn lemma_prefix_fields(rows: Seq<Seq<char>>, line: Seq<char>, n: int, field: Seq<char>)
    requires
        0 <= n <= rows.len(),
    ensures
        field_in(rows.push(line), n, field) == field_in(rows, n, field),
    decreases n,
{
    if n > 0 {
        lemma_prefix_fields(rows, line, n - 1, field);
    }
}

/// Arguments that are in order do not change what is made of those after them.
proof fn lemma_args_more(args: Seq<Seq<char>>, i: int, known: ArgsModel, more: Seq<Seq<char>>)
    requires
        0 <= i <= args.len(),
        args_from(args, i, known) is Ok,
    ensures
        args_from(args + more, i, known) == args_from(
            args + more,
            args.len() as int,
            args_from(args, i, known)->Ok_0,
        ),
    decreases args.len() - i,
{
    let all = args + more;
    if i < args.len() {
        assert(all[i] == args[i]);
        assert(i + 1 < args.len());
        assert(all[i + 1] == args[i + 1]);
        if args[i] == "--levels"@ {
            lemma_args_more(args, i + 2, ArgsModel { levels: args[i + 1], ..known }, more);
        } else if args[i] == "--output"@ {
            lemma_args_more(args, i + 2, ArgsModel { output: args[i + 1], ..known }, more);
        } else if args[i] == "--max-nodes"@ {
            let n = u32_value(args[i + 1])->0;
            lemma_args_more(args, i + 2, ArgsModel { max_nodes: n, ..known }, more);
        }
    }
}

/// Arguments that are in order stay so with a flag and its value after them, which change the one
/// setting that the flag names: the last value counts. Without arguments the settings are those of
/// the program.
pub proof fn law_last_argument_counts(args: Seq<Seq<char>>, value: Seq<char>)
    requires
        args_from(args, 0, default_args()) is Ok,
    ensures
        ({
            let known = args_from(args, 0, default_args())->Ok_0;
            &&& args_from(args + seq!["--levels"@, value], 0, default_args()) == Ok::<
                ArgsModel,
                Seq<char>,
            >(ArgsModel { levels: value, output: known.output, max_nodes: known.max_nodes })
            &&& args_from(args + seq!["--output"@, value], 0, default_args()) == Ok::<
                ArgsModel,
                Seq<char>,
            >(ArgsModel { levels: known.levels, output: value, max_nodes: known.max_nodes })
            &&& args_from(args + seq!["--max-nodes"@, value], 0, default_args()) == (
            match u32_value(value) {
                Some(n) => Ok::<ArgsModel, Seq<char>>(
                    ArgsModel { levels: known.levels, output: known.output, max_nodes: n },
                ),
                None => Err::<ArgsModel, Seq<char>>("--max-nodes must be a u32"@),
            })
            &&& args.len() == 0 ==> known.levels == "../sample-10.xsb"@ && known.output
                == "solver-results.csv"@ && known.max_nodes == 500_000
        }),
{
    reveal_strlit("--levels");
    reveal_strlit("--output");
    reveal_strlit("--max-nodes");
    assert("--levels"@[2] == 'l' && "--output"@[2] == 'o' && "--max-nodes"@[2] == 'm');
    let n = args.len() as int;
    let known = args_from(args, 0, default_args())->Ok_0;
    lemma_args_more(args, 0, default_args(), seq!["--levels"@, value]);
    lemma_args_more(args, 0, default_args(), seq!["--output"@, value]);
    lemma_args_more(args, 0, default_args(), seq!["--max-nodes"@, value]);
    let all = args + seq!["--levels"@, value];
    assert(all[n] == "--levels"@ && all[n + 1] == value);
    assert(args_from(all, n, known) == args_from(all, n + 2, ArgsModel { levels: value, ..known }));
    let all = args + seq!["--output"@, value];
    assert(all[n] == "--output"@ && all[n + 1] == value);
    assert(args_from(all, n, known) == args_from(all, n + 2, ArgsModel { output: value, ..known }));
    let all = args + seq!["--max-nodes"@, value];
    assert(all[n] == "--max-nodes"@ && all[n + 1] == value);
    assert(args_from(all, n, known) == match u32_value(value) {
        Some(m) => args_from(all, n + 2, ArgsModel { max_nodes: m, ..known }),
        None => Err("--max-nodes must be a u32"@),
    });
}

/// After arguments that are in order, one that is no flag is named in the error, whatever follows
/// it; and a flag at the end lacks its value.
pub proof fn law_wrong_argument_is_named(
    args: Seq<Seq<char>>,
    flag: Seq<char>,
    more: Seq<Seq<char>>,
)
    requires
        args_from(args, 0, default_args()) is Ok,
    ensures
        ({
            let known = flag == "--levels"@ || flag == "--output"@ || flag == "--max-nodes"@;
            &&& !known ==> args_from(args + (seq![flag] + more), 0, default_args()) == Err::<
                ArgsModel,
                Seq<char>,
            >("Unknown flag: "@ + flag)
            &&& known ==> args_from(args + seq![flag], 0, default_args()) == Err::<
                ArgsModel,
                Seq<char>,
            >(flag + " needs a value"@)
        }),
{
    let n = args.len() as int;
    lemma_args_more(args, 0, default_args(), seq![flag] + more);
    lemma_args_more(args, 0, default_args(), seq![flag]);
    assert((args + (seq![flag] + more))[n] == flag);
    assert((args + seq![flag])[n] == flag);
    reveal_strlit(" needs a value");
    reveal_strlit("--levels");
    reveal_strlit("--output");
    reveal_strlit("--max-nodes");
    reveal_strlit("--levels needs a value");
    reveal_strlit("--output needs a value");
    reveal_strlit("--max-nodes needs a value");
    assert("--levels needs a value"@ =~= "--levels"@ + " needs a value"@);
    assert("--output needs a value"@ =~= "--output"@ + " needs a value"@);
    assert("--max-nodes needs a value"@ =~= "--max-nodes"@ + " needs a value"@);
}

/// A block holds a puzzle exactly if its grid has a wall; comments among its lines do not matter.
pub proof fn law_puzzle_has_a_wall(block: Seq<char>)
    ensures
        is_puzzle(block) <==> block_grid(block).contains('#'),
{
    let rows = block_rows(block);
    if all_comments(rows) {
        lemma_comments_give_no_rows(rows, rows.len() as int);
    }
}

proof fn lemma_comments_give_no_rows(rows: Seq<Seq<char>>, n: int)
    requires
        0 <= n <= rows.len(),
        all_comments(rows),
    ensures
        grid_rows(rows, n).len() == 0,
    decreases n,
{
    if n > 0 {
        lemma_comments_give_no_rows(rows, n - 1);
        assert(first_is(rows[n - 1], ';'));
        lemma_comment_trimmed(trim_start(rows[n - 1]));
    }
}

/// White space at the end of a comment does not reach its first character.
proof fn lemma_comment_trimmed(s: Seq<char>)
    requires
        s.len() > 0,
        s[0] == ';',
    ensures
        trim_end(s).len() > 0,
        trim_end(s)[0] == ';',
    decreases s.len(),
{
    if is_space(s.last()) {
        assert(!is_space(s[0]));
        lemma_comment_trimmed(s.drop_last());
    }
}

/// Blank lines before and after the lines of a block change nothing.
pub proof fn law_blank_lines_around_do_not_count(block: Seq<char>)
    ensures
        block_rows(seq!['\n'] + block) == block_rows(block),
        block_rows(block.push('\n')) == block_rows(block),
{
    let rows = lines(block.push('\n'));
    let none = Seq::<char>::empty();
    let more = lines((seq!['\n'] + block).push('\n'));
    assert((seq!['\n'] + block).push('\n') =~= none + seq!['\n'] + block.push('\n'));
    law_lines_end_at_line_feeds(none, block.push('\n'));
    assert(trim(none) =~= none);
    assert(more == seq![none] + rows);
    lemma_full_shifted(rows, none, 0);
    lemma_last_full_shifted(rows, none, rows.len() as int);
    lemma_first_full(rows, 0);
    lemma_last_full(rows, rows.len() as int);
    assert(more[0] == none);
    assert(first_full(more, 0) == first_full(more, 1));
    let (from, to) = (first_full(rows, 0), last_full(rows, rows.len() as int));
    if from < to {
        assert(more.subrange(from + 1, to + 1) =~= rows.subrange(from, to));
    }
    let after = lines(block.push('\n').push('\n'));
    lemma_lines_more(block.push('\n'));
    assert(after == rows.push(none));
    lemma_first_full_more(rows, none, 0);
    lemma_last_full_more(rows, none);
    if from < to {
        assert(after.subrange(from, to) =~= rows.subrange(from, to));
    }
}

proof fn lemma_first_full(rows: Seq<Seq<char>>, i: int)
    requires
        0 <= i <= rows.len(),
    ensures
        i <= first_full(rows, i) <= rows.len(),
    decreases rows.len() - i,
{
    if i < rows.len() && is_blank(rows[i]) {
        lemma_first_full(rows, i + 1);
    }
}

proof fn lemma_last_full(rows: Seq<Seq<char>>, n: int)
    requires
        0 <= n <= rows.len(),
    ensures
        0 <= last_full(rows, n) <= n,
    decreases n,
{
    if n > 0 && is_blank(rows[n - 1]) {
        lemma_last_full(rows, n - 1);
    }
}

proof fn lemma_full_shifted(rows: Seq<Seq<char>>, line: Seq<char>, i: int)
    requires
        0 <= i <= rows.len(),
    ensures
        first_full(seq![line] + rows, i + 1) == first_full(rows, i) + 1,
    decreases rows.len() - i,
{
    if i < rows.len() {
        assert((seq![line] + rows)[i + 1] == rows[i]);
        if is_blank(rows[i]) {
            lemma_full_shifted(rows, line, i + 1);
        }
    }
}

proof fn lemma_last_full_shifted(rows: Seq<Seq<char>>, line: Seq<char>, n: int)
    requires
        0 <= n <= rows.len(),
        is_blank(line),
    ensures
        last_full(seq![line] + rows, n + 1) == (if last_full(rows, n) == 0 {
            0
        } else {
            last_full(rows, n) + 1
        }),
    decreases n,
{
    let all = seq![line] + rows;
    if n > 0 {
        assert(all[n] == rows[n - 1]);
        if is_blank(rows[n - 1]) {
            lemma_last_full_shifted(rows, line, n - 1);
        }
    } else {
        assert(all[0] == line);
        assert(last_full(all, 0) == 0);
    }
}

proof fn lemma_first_full_more(rows: Seq<Seq<char>>, line: Seq<char>, i: int)
    requires
        0 <= i <= rows.len(),
        is_blank(line),
    ensures
        first_full(rows.push(line), i) == (if first_full(rows, i) == rows.len() {
            rows.len() as int + 1
        } else {
            first_full(rows, i)
        }),
    decreases rows.len() - i,
{
    lemma_first_full(rows, i);
    if i < rows.len() {
        assert(rows.push(line)[i] == rows[i]);
        if is_blank(rows[i]) {
            lemma_first_full_more(rows, line, i + 1);
        }
    } else {
        assert(rows.push(line)[i] == line);
        assert(first_full(rows.push(line), i + 1) == i + 1);
    }
}

proof fn lemma_last_full_more(rows: Seq<Seq<char>>, line: Seq<char>)
    requires
        is_blank(line),
    ensures
        last_full(rows.push(line), rows.len() as int + 1) == last_full(rows, rows.len() as int),
{
    let n = rows.len() as int;
    assert(rows.push(line)[n] == line);
    lemma_last_full_part(rows, line, n);
}

proof fn lemma_last_full_part(rows: Seq<Seq<char>>, line: Seq<char>, n: int)
    requires
        0 <= n <= rows.len(),
    ensures
        last_full(rows.push(line), n) == last_full(rows, n),
    decreases n,
{
    if n > 0 {
        assert(rows.push(line)[n - 1] == rows[n - 1]);
        lemma_last_full_part(rows, line, n - 1);
    }
}

/// A line feed after a text that ends with one adds a line without characters.
proof fn lemma_lines_more(s: Seq<char>)
    requires
        s.len() > 0,
        s.last() == '\n',
    ensures
        lines(s.push('\n')) == lines(s).push(Seq::empty()),
    decreases s.len(),
{
    let none = Seq::<char>::empty();
    let e = first_feed(s, 0);
    lemma_first_feed(s, 0);
    let rest = s.skip(e + 1);
    let line = s.take(e);
    assert(s =~= line + seq!['\n'] + rest);
    assert(s.push('\n') =~= line + seq!['\n'] + rest.push('\n'));
    lemma_first_line_of(line, rest);
    lemma_first_line_of(line, rest.push('\n'));
    if rest.len() > 0 {
        lemma_lines_more(rest);
        assert(seq![stripped(line)] + lines(rest).push(none) =~= (seq![stripped(line)] + lines(
            rest,
        )).push(none));
    } else {
        assert(rest =~= none);
        assert(rest.push('\n') =~= none + seq!['\n'] + none);
        law_lines_end_at_line_feeds(none, none);
        assert(lines(rest.push('\n')) =~= seq![none]);
        assert(seq![stripped(line)] + seq![none] =~= (seq![stripped(line)] + lines(rest)).push(
            none,
        ));
    }
}

/// A line without a carriage return at its end.
spec fn stripped(line: Seq<char>) -> Seq<char> {
    if line.len() > 0 && line.last() == '\r' {
        line.drop_last()
    } else {
        line
    }
}

proof fn lemma_first_line_of(line: Seq<char>, rest: Seq<char>)
    requires
        !line.contains('\n'),
    ensures
        lines(line + seq!['\n'] + rest) == seq![stripped(line)] + lines(rest),
{
    law_lines_end_at_line_feeds(line, rest);
    if line.len() > 0 && line.last() == '\r' {
        let less = line.drop_last();
        assert(!less.contains('\n')) by {
            if less.contains('\n') {
                let k = choose|k: int| 0 <= k < less.len() && less[k] == '\n';
                assert(line[k] == '\n');
            }
        }
        law_lines_end_at_line_feeds(less, rest);
        assert(line + seq!['\n'] + rest =~= less + seq!['\r', '\n'] + rest);
    }
}

/// The first line feed from `i` on.
spec fn first_feed(s: Seq<char>, i: int) -> int
    decreases s.len() - i,
{
    if i >= s.len() || s[i] == '\n' {
        i
    } else {
        first_feed(s, i + 1)
    }
}

proof fn lemma_first_feed(s: Seq<char>, i: int)
    requires
        0 <= i < s.len(),
        s.last() == '\n',
        !s.take(i).contains('\n'),
    ensures
        i <= first_feed(s, i) < s.len(),
        s[first_feed(s, i)] == '\n',
        !s.take(first_feed(s, i)).contains('\n'),
    decreases s.len() - i,
{
    if s[i] != '\n' {
        let more = s.take(i + 1);
        assert(!more.contains('\n')) by {
            if more.contains('\n') {
                let k = choose|k: int| 0 <= k < more.len() && more[k] == '\n';
                assert(s.take(i)[k] == '\n');
            }
        }
        lemma_first_feed(s, i + 1);
    }
}

} // verus!
