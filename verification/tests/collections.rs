use sokoban_utils::collection::{
    can_solve, is_progress_due, parse_normalised_xsb, report_header, report_record, solve_puzzle,
    tally, Args, Puzzle, SolveResult,
};
use sokoban_utils::fxhash::{FxHashMap, FxHasher};
use sokoban_utils::text::{
    char_is_space, chars_of, lines_of, parse_u32, push_decimal, string_of, trimmed,
};
use std::hash::Hasher;

fn args(list: &[&str]) -> Result<Args, String> {
    Args::parse(&list.iter().map(|s| s.to_string()).collect())
}

#[test]
fn arguments_have_defaults() {
    let a = args(&[]).ok().unwrap();
    assert_eq!(a.levels, "../sample-10.xsb");
    assert_eq!(a.output, "solver-results.csv");
    assert_eq!(a.max_nodes, 500_000);
}

#[test]
fn arguments_are_read_in_any_order() {
    let a = args(&["--max-nodes", "7", "--output", "o.csv", "--levels", "l.xsb"]).ok().unwrap();
    assert_eq!((a.levels.as_str(), a.output.as_str(), a.max_nodes), ("l.xsb", "o.csv", 7));
    let a = args(&["--output", "a", "--output", "--levels"]).ok().unwrap();
    assert_eq!((a.levels.as_str(), a.output.as_str()), ("../sample-10.xsb", "--levels"));
}

#[test]
fn bad_arguments_are_named() {
    assert_eq!(args(&["--levels"]).err().unwrap(), "--levels needs a value");
    assert_eq!(args(&["--levels", "a", "--output"]).err().unwrap(), "--output needs a value");
    assert_eq!(args(&["--max-nodes"]).err().unwrap(), "--max-nodes needs a value");
    assert_eq!(args(&["--max-nodes", "x"]).err().unwrap(), "--max-nodes must be a u32");
    assert_eq!(args(&["--help"]).err().unwrap(), "Unknown flag: --help");
}

const COLLECTION: &str = "; A section\n; of comments\n\n#####\n#@$.#\n#####\nTitle: First one\nAuthor:Ann\nCollection:  Ours \n\n\n  ####\n  #@*#\n ; note\n  ####\nTitle: Second\nTitle: Renamed\n\nno grid here\n\n####\r\n#+$#\r\n####";

#[test]
fn a_collection_is_split_into_puzzles() {
    let puzzles = parse_normalised_xsb(COLLECTION);
    let seen: Vec<(usize, &str, &str, &str, &str)> = puzzles
        .iter()
        .map(|p| {
            (
                p.global_index,
                p.title.as_str(),
                p.author.as_str(),
                p.collection.as_str(),
                p.grid.as_str(),
            )
        })
        .collect();
    assert_eq!(
        seen,
        vec![
            (1, "First one", "Ann", "Ours", "#####\n#@$.#\n#####"),
            (2, "Renamed", "", "", "  ####\n  #@*#\n  ####"),
            (3, "", "", "", "####\n#+$#\n####"),
        ],
    );
    let puzzles = parse_normalised_xsb(
        "; header\n\n  ###\n###@#\n#####\nTitle: T\nAuthor: A\nCollection: C\n",
    );
    assert_eq!(puzzles.len(), 1);
    assert_eq!(puzzles[0].grid, "  ###\n###@#\n#####");
    assert_eq!((puzzles[0].title.as_str(), puzzles[0].global_index), ("T", 1));
    let puzzles = parse_normalised_xsb("\n \n ###  \n\t\n\n###\r\n\n");
    assert_eq!(puzzles[0].grid, " ###  ");
    assert_eq!(puzzles[1].grid, "###");
    assert!(parse_normalised_xsb("").is_empty());
    assert!(parse_normalised_xsb("\n\n\n\n").is_empty());
    assert!(parse_normalised_xsb("; #").is_empty());
}

fn puzzle(grid: &str) -> Puzzle {
    Puzzle {
        global_index: 3,
        title: "T".to_string(),
        author: "A".to_string(),
        collection: "C".to_string(),
        grid: grid.to_string(),
    }
}

#[test]
fn puzzles_are_solved_and_reported() {
    let p = puzzle("#####\n#@$.#\n#####");
    assert!(can_solve(&p.grid));
    let r = solve_puzzle(&p, 100);
    let s = r.as_ref().ok().unwrap();
    assert_eq!((s.solved, s.push_count, s.moves.as_str()), (true, 1, "R"));
    assert_eq!(report_record(&p, &r), vec!["3", "T", "C", "A", "true", "1", "R"]);
    let p = puzzle("####\n#$ #\n#@.#\n####");
    let r = solve_puzzle(&p, 100);
    assert_eq!(report_record(&p, &r), vec!["3", "T", "C", "A", "false", "0", ""]);
    let p = puzzle("");
    assert!(can_solve(&p.grid));
    let r = solve_puzzle(&p, 100);
    assert_eq!(report_record(&p, &r), vec!["3", "T", "C", "A", "error", "0", "empty level"]);
    assert_eq!(
        report_header(),
        vec!["index", "title", "collection", "author", "solved", "push_count", "moves"],
    );
}

#[test]
fn a_grid_must_fit_and_hold_its_player() {
    assert!(can_solve("# #"));
    assert!(!can_solve(&"#".repeat(256)));
    assert!(!can_solve(&" ".repeat(256)));
    // The player is past the only column that counts.
    assert!(!can_solve(&format!("#  @{}", " ".repeat(253))));
    assert!(can_solve(&vec!["#".repeat(255); 255].join("\n")));
}

#[test]
fn results_are_counted() {
    let result = |solved: bool| Ok(SolveResult { solved, push_count: 0, moves: String::new() });
    let t = tally(&vec![result(true), Err("e".to_string()), result(false), result(true)]);
    assert_eq!((t.solved, t.unsolved, t.errored), (2, 1, 1));
    let t = tally(&vec![]);
    assert_eq!((t.solved, t.unsolved, t.errored), (0, 0, 0));
}

#[test]
fn progress_is_reported_now_and_then_and_at_the_end() {
    assert!(!is_progress_due(1, 3, 199, 0));
    assert!(is_progress_due(1, 3, 200, 0));
    assert!(!is_progress_due(1, 3, 399, 200));
    assert!(is_progress_due(3, 3, 200, 200));
    assert!(!is_progress_due(1, 3, 5, 9000));
}

#[test]
fn white_space_is_that_of_unicode() {
    for n in 0..=0x10ffffu32 {
        if let Some(c) = char::from_u32(n) {
            assert_eq!(char_is_space(c), c.is_whitespace());
        }
    }
}

#[test]
fn lines_and_trimming_are_those_of_strings() {
    for text in ["", "\n", "a", "a\n", "a\nb", "a\r\nb\r", "\r\n\n\r", " x \n\ty\u{3000}", "\u{85} é \u{2029}"] {
        let chars = chars_of(text);
        let lines: Vec<String> = lines_of(&chars).iter().map(string_of).collect();
        assert_eq!(lines, text.lines().collect::<Vec<&str>>());
        assert_eq!(string_of(&trimmed(&chars)), text.trim());
    }
}

#[test]
fn numbers_are_those_of_strings() {
    for text in ["0", "7", "+7", "007", "4294967295", "4294967296", "", "+", "-1", " 1", "1 ", "1x", "٣"] {
        assert_eq!(parse_u32(text), text.parse::<u32>().ok());
    }
    for n in [0, 9, 10, 4294967296, u64::MAX] {
        let mut text = "n=".to_string();
        push_decimal(&mut text, n);
        assert_eq!(text, format!("n={n}"));
    }
}

#[test]
fn hashes_are_those_of_the_fx_algorithm() {
    let mut h = FxHasher::default();
    assert_eq!(h.finish(), 0);
    h.write_u64(1);
    assert_eq!(h.finish(), 0x517cc1b727220a95);
    h.write_u8(2);
    assert_eq!(h.finish(), 0x6a4be67ff98fabc8);
    let mut h = FxHasher::default();
    h.write(b"hello world!");
    assert_eq!(h.finish(), 0x1a4f0af733454230);
    h.write(b"");
    assert_eq!(h.finish(), 0x1a4f0af733454230);
    let mut h = FxHasher::default();
    h.write_u16(1);
    let mut i = FxHasher::default();
    i.write_u32(1);
    let mut j = FxHasher::default();
    j.write_usize(1);
    assert_eq!((h.finish(), i.finish(), j.finish()), (0x517cc1b727220a95, 0x517cc1b727220a95, 0x517cc1b727220a95));
}

#[test]
fn the_hasher_serves_maps() {
    let mut map: FxHashMap<u64, &str> = FxHashMap::default();
    map.insert(5, "five");
    assert_eq!(map.get(&5), Some(&"five"));
    assert_eq!(map.get(&6), None);
}
