use i18n_puzzles::pipes::board::PipeGrid;
use i18n_puzzles::pipes::frame::{read_framed, remove_frame};
use i18n_puzzles::pipes::glyph::{connections_to_char, get_connections, glyph_chars};
use i18n_puzzles::pipes::propagate::{lock_grid, propagate, Infeasible, Propagation};
use i18n_puzzles::pipes::render::render;
use i18n_puzzles::pipes::search::{is_internally_consistent, lock_cell, search, successors};
use i18n_puzzles::pipes::solver::{parse_string, solve, GridError};
use i18n_puzzles::utils::text::{chars_of, split_lines};
use i18n_puzzles::pipes::tile::{port_kind, rotate, Connection, Pipe};
use i18n_puzzles::pipes::{part_one, part_two};
use i18n_puzzles::utils::grid2d::Grid2D;

const S: Option<Connection> = Some(Connection::Single);
const D: Option<Connection> = Some(Connection::Double);

fn grid(text: &str) -> PipeGrid {
    parse_string(text).expect("a rectangular grid")
}

fn lock_ends(g: &mut PipeGrid) {
    let n = g.bytes.len();
    let first = g.bytes[0].as_ref().unwrap().possible_orientations[0];
    let last = g.bytes[n - 1].as_ref().unwrap().possible_orientations[0];
    lock_cell(g, 0, first);
    lock_cell(g, n - 1, last);
}

#[test]
fn test_part_one() {
    let result = part_one("");
    assert_eq!(result, None);
}

#[test]
fn test_part_two() {
    let result = part_two("");
    assert_eq!(result, None);
}

#[test]
fn four_turns_restore_every_glyph() {
    for c in glyph_chars() {
        let p = get_connections(c);
        let q = rotate(&rotate(&rotate(&rotate(&p))));
        assert_eq!(p, q);
        assert_ne!(rotate(&p), [None, None, None, None]);
    }
}

#[test]
fn rotate_turns_clockwise() {
    let corner = get_connections('└');
    assert_eq!(corner, [S, None, None, S]);
    assert_eq!(rotate(&corner), get_connections('┌'));
    assert_eq!(port_kind(&get_connections('╒'), 0), D);
    assert_eq!(port_kind(&get_connections('╒'), 1), S);
    assert_eq!(port_kind(&get_connections('╒'), 2), None);
}

#[test]
fn glyph_table_round_trips() {
    for c in glyph_chars() {
        assert_eq!(connections_to_char(&get_connections(c)), c);
    }
    assert_eq!(get_connections('x'), [None, None, None, None]);
    assert_eq!(connections_to_char(&[S, None, None, None]), ' ');
    assert_eq!(glyph_chars().len(), 40);
}

#[test]
fn fresh_tiles_list_distinct_rotations() {
    let line = Pipe::new(get_connections('─'));
    assert_eq!(line.possible_orientations.len(), 2);
    assert_eq!(line.possible_orientations[1].rotations, 1);
    assert_eq!(line.possible_orientations[1].connections, get_connections('│'));
    assert_eq!(Pipe::new(get_connections('┼')).possible_orientations.len(), 1);
    let corner = Pipe::new(get_connections('╔'));
    let turns: Vec<u32> = corner.possible_orientations.iter().map(|o| o.rotations).collect();
    assert_eq!(turns, vec![0, 1, 2, 3]);
    assert_eq!(corner.possible_orientations[2].connections, get_connections('╝'));
}

#[test]
fn parse_reports_bad_shapes() {
    assert!(matches!(parse_string(""), Err(GridError::Empty)));
    assert!(matches!(parse_string("──\n─"), Err(GridError::Ragged)));
    let g = grid("─x\r\n┼│\n");
    assert_eq!(g.width, 2);
    assert_eq!(g.height, 2);
    assert!(g.bytes[1].is_none());
    assert_eq!(g.bytes[2].as_ref().unwrap().possible_orientations.len(), 1);
}

#[test]
fn lines_split_at_newlines() {
    let lines = split_lines(&chars_of("ab\r\n\ncd\n"));
    assert_eq!(lines, vec![vec!['a', 'b'], vec![], vec!['c', 'd']]);
    assert_eq!(split_lines(&chars_of("")).len(), 0);
    assert_eq!(split_lines(&chars_of("x")), vec![vec!['x']]);
}

#[test]
fn facing_singles_cost_nothing() {
    assert_eq!(part_one("──"), Some(0));
}

#[test]
fn one_quarter_turn_costs_one() {
    assert_eq!(part_one("─│─"), Some(1));
    // In a 1×2 grid both tiles are the fixed source and destination.
    assert_eq!(part_one("─│"), Some(0));
}

#[test]
fn port_facing_off_grid_is_infeasible() {
    let mut g = Grid2D { width: 1, height: 1, bytes: vec![Some(Pipe::new([S, None, None, None]))] };
    assert_eq!(propagate(&mut g), Err(Infeasible));
}

#[test]
fn double_facing_single_is_infeasible() {
    let mut g = grid("═─═");
    lock_ends(&mut g);
    assert_eq!(propagate(&mut g), Err(Infeasible));
    assert_eq!(part_one("═─═"), None);
}

#[test]
fn propagation_locks_and_reports_cost() {
    let mut g = grid("─││─");
    lock_ends(&mut g);
    assert_eq!(propagate(&mut g), Ok(Propagation { cost: 2, progress: true }));
    assert_eq!(render(&g), "────\n");
    assert_eq!(part_one("─││─"), Some(2));
}

#[test]
fn second_propagation_changes_nothing() {
    let mut g = grid("┌┐┘┌\n┌├┬└\n┘├├┌\n┌┤└├");
    lock_ends(&mut g);
    assert!(propagate(&mut g).is_ok());
    let before = render(&g);
    assert_eq!(propagate(&mut g), Ok(Propagation { cost: 0, progress: false }));
    assert!(!lock_grid(&mut g));
    assert_eq!(render(&g), before);
}

#[test]
fn search_resolves_open_tiles() {
    let text = "┌┐┘┌\n┌├┬└\n┘├├┌\n┌┤└├";
    let mut g = grid(text);
    lock_ends(&mut g);
    assert!(propagate(&mut g).is_ok());
    assert!(render(&g).contains('#'));
    assert!(!successors(&g).is_empty());
    assert_eq!(search(&g), Some(26));
    assert_eq!(part_one(text), Some(26));
}

#[test]
fn fully_locked_grid_is_judged_by_consistency() {
    let mut g = grid("┌┐\n└┘");
    lock_ends(&mut g);
    assert!(propagate(&mut g).is_ok());
    assert!(is_internally_consistent(&g));
    assert_eq!(search(&g), Some(0));
    let mut bad = grid("─┼─");
    lock_ends(&mut bad);
    assert!(!is_internally_consistent(&bad));
}

#[test]
fn repeated_runs_agree() {
    let text = "┌┐┘┌\n┌├┬└\n┘├├┌\n┌┤└├";
    let g = grid(text);
    assert_eq!(solve(&g), solve(&g));
    assert_eq!(part_one(text), part_one(text));
}

#[test]
fn missing_source_gives_no_answer() {
    assert_eq!(part_one(" ─"), None);
    assert_eq!(part_one("─ "), None);
}

#[test]
fn frame_is_removed() {
    let mut text = String::new();
    for i in 0..3 {
        text.push_str(&format!("header {i}\n"));
    }
    text.push_str("1234567─│─7654321\n");
    text.push_str("short\n");
    for i in 0..4 {
        text.push_str(&format!("footer {i}\n"));
    }
    assert_eq!(remove_frame(text.clone()), "─│─\n");
    assert_eq!(part_one(&remove_frame(text)), Some(1));
}

#[test]
fn framed_bytes_are_decoded() {
    let mut bytes: Vec<u8> = Vec::new();
    for _ in 0..3 {
        bytes.extend_from_slice(b"frame\n");
    }
    bytes.extend_from_slice(b"abcdefg");
    bytes.extend_from_slice(&[0xC4, 0xB3, 0xC4]);
    bytes.extend_from_slice(b"hijklmn\n");
    for _ in 0..4 {
        bytes.extend_from_slice(b"frame\n");
    }
    let text = read_framed(bytes).unwrap();
    assert_eq!(text, "─│─");
    assert_eq!(part_one(&text), Some(1));
    assert_eq!(read_framed(b"too\nshort\n".to_vec()), None);
}

#[test]
fn render_marks_open_and_empty_cells() {
    let g = grid("─x\n│┼");
    assert_eq!(render(&g), "# \n#┼\n");
}

#[test]
fn locked_tiles_record_least_turns() {
    let mut g = grid("─│┐─\n─┘└─");
    lock_ends(&mut g);
    let _ = propagate(&mut g);
    for cell in g.bytes.iter().flatten() {
        if cell.possible_orientations.len() == 1 {
            let o = cell.possible_orientations[0];
            let mut p = cell.original;
            let mut turns = 0;
            while p != o.connections {
                p = rotate(&p);
                turns += 1;
            }
            assert_eq!(turns, o.rotations);
        }
    }
}
