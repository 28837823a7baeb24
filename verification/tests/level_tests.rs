use droom_ball::level::{
    find_cell, is_art_map_path, is_walkable_cell, mark_art_start_and_goal, maze_from_lines,
    player_start_direction, reachable_cells, decode_art,
};

fn maze(rows: &[&str]) -> Vec<Vec<char>> {
    rows.iter().map(|row| row.chars().collect()).collect()
}

fn text(maze: &Vec<Vec<char>>) -> Vec<String> {
    maze.iter().map(|row| row.iter().collect()).collect()
}

fn sample_maze() -> Vec<Vec<char>> {
    maze(&["#####", "#p  #", "# # #", "#  g#", "#####"])
}

#[test]
fn walkable_cells_are_floor_start_and_goal() {
    assert!(is_walkable_cell(' '));
    assert!(is_walkable_cell('p'));
    assert!(is_walkable_cell('g'));
    assert!(!is_walkable_cell('+'));
    assert!(!is_walkable_cell('#'));
}

#[test]
fn find_cell_returns_first_in_row_major_order() {
    let m = maze(&["  g", "p p", "g  "]);
    assert_eq!(find_cell(&m, 'p'), Some((0, 1)));
    assert_eq!(find_cell(&m, 'g'), Some((2, 0)));
    assert_eq!(find_cell(&m, 'x'), None);
}

#[test]
fn reachable_cells_in_breadth_first_order() {
    let cells = reachable_cells(&sample_maze());
    assert_eq!(
        cells,
        vec![(1, 1), (2, 1), (1, 2), (3, 1), (1, 3), (3, 2), (2, 3), (3, 3)]
    );
}

#[test]
fn reachable_cells_without_start_is_empty() {
    assert!(reachable_cells(&maze(&["   ", " g "])).is_empty());
    assert!(reachable_cells(&Vec::new()).is_empty());
}

#[test]
fn reachable_cells_list_each_cell_once_and_only_the_region() {
    // Two regions: the one holding the start is listed, the other is not.
    let m = maze(&["p #  ", "  #  "]);
    let cells = reachable_cells(&m);
    assert_eq!(cells, vec![(0, 0), (1, 0), (0, 1), (1, 1)]);
}

#[test]
fn start_direction_faces_first_open_neighbour() {
    // right, left, down, up are tried in that order
    assert_eq!(player_start_direction(&maze(&["#p #"])), Some(0));
    assert_eq!(player_start_direction(&maze(&[" p#"])), Some(1));
    assert_eq!(player_start_direction(&maze(&["#p#", "# #"])), Some(2));
    assert_eq!(player_start_direction(&maze(&["# #", "#p#"])), Some(3));
    assert_eq!(player_start_direction(&maze(&["#p#"])), None);
    assert_eq!(player_start_direction(&maze(&["   "])), None);
}

#[test]
fn start_direction_skips_rows_whose_start_is_walled_in() {
    // The first row's start has no open neighbour; the next row's has one.
    let m = maze(&["#p#", "###", "#p "]);
    assert_eq!(player_start_direction(&m), Some(0));
}

#[test]
fn art_maps_live_under_maps() {
    assert!(is_art_map_path("maps/mapa1.txt"));
    assert!(!is_art_map_path("map/mapa1.txt"));
    assert!(!is_art_map_path("maze.txt"));
    assert!(!is_art_map_path("maps"));
}

#[test]
fn braille_characters_decode_into_two_by_four_blocks() {
    let source = maze(&["\u{2801}\u{2880}"]);
    // dot 1 (bit 0) is the top-left dot; dot 8 (bit 7) the bottom-right one
    let m = decode_art(&source);
    assert_eq!(text(&m), vec![" +++", "++++", "++++", "+++ "]);
}

#[test]
fn characters_below_braille_are_walls() {
    let m = decode_art(&maze(&["a"]));
    assert_eq!(text(&m), vec!["++", "++", "++", "++"]);
}

#[test]
fn short_lines_are_padded_with_walls() {
    let m = decode_art(&maze(&["\u{28ff}\u{28ff}", "\u{28ff}"]));
    assert_eq!(m.len(), 8);
    assert_eq!(text(&m)[4], "  ++");
}

#[test]
fn art_map_gets_start_and_goal_at_far_ends() {
    let m = maze_from_lines("maps/test.txt", maze(&["\u{28ff}\u{28ff}"]));
    assert_eq!(text(&m), vec!["g   ", "    ", "    ", "   p"]);
}

#[test]
fn start_and_goal_go_to_the_largest_region() {
    let m = maze_from_lines("maps/test.txt", maze(&["\u{28ff}\u{2800}\u{2847}"]));
    assert_eq!(
        text(&m),
        vec!["g ++ +", "  ++ +", "  ++ +", " p++ +"]
    );
}

#[test]
fn two_lines_of_art() {
    let m = maze_from_lines("maps/test.txt", maze(&["\u{28ff}\u{28ff}", "\u{2847}\u{2800}"]));
    assert_eq!(
        text(&m),
        vec!["   g", "    ", "    ", "    ", " +++", " +++", " +++", "p+++"]
    );
}

#[test]
fn other_files_are_the_maze_itself() {
    let source = maze(&["+++", "+p+"]);
    let m = maze_from_lines("levels/one.txt", source.clone());
    assert_eq!(m, source);
}

#[test]
fn marking_without_open_cells_changes_nothing() {
    let mut m = maze(&["++", "++"]);
    mark_art_start_and_goal(&mut m);
    assert_eq!(text(&m), vec!["++", "++"]);
    let mut empty: Vec<Vec<char>> = Vec::new();
    mark_art_start_and_goal(&mut empty);
    assert!(empty.is_empty());
}

#[test]
fn marking_a_single_open_cell_leaves_the_goal_there() {
    let mut m = maze(&["+ +", "+++"]);
    mark_art_start_and_goal(&mut m);
    assert_eq!(text(&m), vec!["+g+", "+++"]);
}

#[test]
fn ties_between_regions_go_to_the_first() {
    let mut m = maze(&["  +  "]);
    mark_art_start_and_goal(&mut m);
    assert_eq!(text(&m), vec!["gp+  "]);
}

#[test]
fn start_and_goal_are_farthest_apart_in_steps() {
    // the two ends of the corridor are two rows apart but ten steps apart
    let mut m = maze(&["     ", "++++ ", "     "]);
    mark_art_start_and_goal(&mut m);
    assert_eq!(text(&m), vec!["g    ", "++++ ", "p    "]);
    let mut m = maze(&["   + ", "++ + ", "     "]);
    mark_art_start_and_goal(&mut m);
    assert_eq!(text(&m), vec!["g  +p", "++ + ", "     "]);
}
