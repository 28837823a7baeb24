use droom_ball::caster::{probe_cell, RayStep};
use droom_ball::color::{tint_color, Color};
use droom_ball::framebuffer::Framebuffer;
use droom_ball::hud::{decimal_chars, render_hud};
use droom_ball::map_view::{minimap_layout, render_maze, render_minimap, MinimapLayout};
use droom_ball::textures::{texture_files, texture_key, Texture, TextureManager};
use droom_ball::world_renderer::{draw_crosshair, draw_sky_and_floor};
use droom_ball::combat::{Pickup, PickupKind, SpawnPoint};
use droom_ball::sprites::{new_enemy, EnemyKind};

fn maze(rows: &[&str]) -> Vec<Vec<char>> {
    rows.iter().map(|row| row.chars().collect()).collect()
}

fn rgb(r: u8, g: u8, b: u8) -> Color {
    Color::new(r, g, b, 255)
}

fn px(fb: &Framebuffer, x: u32, y: u32) -> Color {
    fb.get_pixel(x, y).unwrap()
}

#[test]
fn a_new_framebuffer_is_all_background() {
    let fb = Framebuffer::new(4, 3, rgb(1, 2, 3));
    assert_eq!(fb.width(), 4);
    assert_eq!(fb.height(), 3);
    assert_eq!(px(&fb, 3, 2), rgb(1, 2, 3));
    assert_eq!(fb.get_pixel(4, 0), None);
    assert_eq!(fb.current_color(), Color::white());
}

#[test]
fn set_pixel_draws_only_inside_the_picture() {
    let mut fb = Framebuffer::new(4, 3, Color::black());
    fb.set_current_color(Color::red());
    fb.set_pixel(2, 1);
    fb.set_pixel(9, 1);
    fb.set_pixel(1, 3);
    assert_eq!(px(&fb, 2, 1), Color::red());
    assert_eq!(px(&fb, 1, 2), Color::black());
    fb.clear();
    assert_eq!(px(&fb, 2, 1), Color::black());
    assert_eq!(fb.current_color(), Color::red());
}

#[test]
fn pixels_come_out_as_rgba_bytes_row_by_row() {
    let mut fb = Framebuffer::new(2, 2, Color::new(0, 0, 0, 0));
    fb.set_current_color(Color::new(1, 2, 3, 4));
    fb.set_pixel(1, 0);
    fb.set_current_color(Color::new(5, 6, 7, 8));
    fb.set_pixel(0, 1);
    assert_eq!(
        fb.rgba_bytes(),
        vec![0, 0, 0, 0, 1, 2, 3, 4, 5, 6, 7, 8, 0, 0, 0, 0]
    );
}

#[test]
fn named_colors() {
    assert_eq!(Color::white(), rgb(255, 255, 255));
    assert_eq!(Color::red(), rgb(255, 0, 0));
    assert_eq!(Color::green(), rgb(0, 128, 0));
    assert_eq!(Color::skyblue(), rgb(135, 206, 235));
    assert_eq!(Color::darkgray(), rgb(169, 169, 169));
}

#[test]
fn tint_scales_each_channel() {
    let c = tint_color(Color::new(200, 100, 255, 7), Color::new(255, 128, 0, 1));
    assert_eq!(c, Color::new(200, 50, 0, 7));
    assert_eq!(tint_color(rgb(10, 20, 30), Color::white()), rgb(10, 20, 30));
}

#[test]
fn decimal_digits() {
    assert_eq!(decimal_chars(0), vec!['0']);
    assert_eq!(decimal_chars(7), vec!['7']);
    assert_eq!(decimal_chars(1204), vec!['1', '2', '0', '4']);
    assert_eq!(decimal_chars(u64::MAX).len(), 20);
}

#[test]
fn hud_bars_and_labels() {
    let mut fb = Framebuffer::new(200, 120, Color::black());
    render_hud(&mut fb, 50, 12, 12, 3);
    // 'V' at (18, 14): its top row is 101, so the first 2x2 dot is lit and
    // the second is not
    assert_eq!(px(&fb, 18, 14), Color::white());
    assert_eq!(px(&fb, 19, 15), Color::white());
    assert_eq!(px(&fb, 20, 14), Color::black());
    // the health bar is half full: 85 of 170 pixels red, the rest dark grey
    assert_eq!(px(&fb, 18 + 10, 30), Color::red());
    assert_eq!(px(&fb, 18 + 84, 30), Color::red());
    assert_eq!(px(&fb, 18 + 85, 30), Color::darkgray());
    // the outline is white
    assert_eq!(px(&fb, 18, 26), Color::white());
    assert_eq!(px(&fb, 18 + 169, 37), Color::white());
    // the ammunition bar is full
    assert_eq!(px(&fb, 18 + 150, 64), Color::yellow());
    // the value text of the health bar starts with '5' (top row 111), in red
    assert_eq!(px(&fb, 130, 14), Color::red());
    assert_eq!(px(&fb, 134, 14), Color::red());
    // the number of enemies, '3' in sky blue, at (92, 84)
    assert_eq!(px(&fb, 92, 84), Color::skyblue());
    assert_eq!(px(&fb, 92, 86), Color::black());
    assert_eq!(fb.current_color(), Color::skyblue());
}

#[test]
fn hud_keeps_values_within_the_bar() {
    let mut fb = Framebuffer::new(200, 120, Color::black());
    render_hud(&mut fb, -5, 20, 0, 0);
    // negative health draws an empty bar; ammunition above a maximum of
    // one (the least maximum) draws a full one
    assert_eq!(px(&fb, 20, 30), Color::darkgray());
    assert_eq!(px(&fb, 100, 64), Color::yellow());
}

fn texture_2x2(colors: [Color; 4]) -> Texture {
    Texture::from_pixels(2, 2, colors.to_vec()).unwrap()
}

#[test]
fn textures_need_one_pixel_per_position() {
    assert!(Texture::from_pixels(2, 2, vec![Color::black(); 3]).is_none());
    assert!(Texture::from_pixels(0, 0, vec![]).is_none());
    let t = Texture::from_pixels(3, 1, vec![Color::black(); 3]).unwrap();
    assert_eq!((t.width(), t.height()), (3, 1));
}

#[test]
fn texture_lookup_falls_back_to_the_wall_texture() {
    let mut textures = TextureManager::new();
    assert_eq!(textures.dimensions('x'), None);
    assert_eq!(textures.get_pixel_color('x', 0, 0), Color::white());
    textures.insert('#', texture_2x2([Color::red(), Color::green(), Color::yellow(), Color::black()]));
    assert_eq!(textures.dimensions('x'), Some((2, 2)));
    assert_eq!(textures.get_pixel_color('x', 1, 0), Color::green());
    // coordinates are held to the texture
    assert_eq!(textures.get_pixel_color('#', 9, 9), Color::black());
    textures.insert('x', Texture::from_pixels(1, 1, vec![Color::orange()]).unwrap());
    assert_eq!(textures.get_pixel_color('x', 5, 5), Color::orange());
    textures.insert('x', Texture::from_pixels(1, 1, vec![Color::magenta()]).unwrap());
    assert_eq!(textures.get_pixel_color('x', 0, 0), Color::magenta());
}

#[test]
fn wall_textures_alternate() {
    assert_eq!(texture_key('+', 0, 0), '#');
    assert_eq!(texture_key('|', 1, 0), 'w');
    assert_eq!(texture_key('D', 1, 1), '#');
    assert_eq!(texture_key('x', 1, 0), 'x');
    let mut textures = TextureManager::new();
    textures.insert('w', Texture::from_pixels(1, 1, vec![Color::green()]).unwrap());
    assert_eq!(textures.cell_dimensions('+', 1, 0), Some((1, 1)));
    assert_eq!(textures.cell_dimensions('+', 0, 0), None);
    assert_eq!(textures.get_cell_pixel_color('-', 0, 1, 0, 0), Color::green());
}

#[test]
fn level_texture_files() {
    let files = texture_files(1);
    assert_eq!(files.len(), 10);
    assert_eq!(files[0], ('#', "assets/deadline.png"));
    assert_eq!(files[5], ('x', "assets/sphere2.png"));
    assert_eq!(texture_files(7)[5].1, "assets/sphere3.png");
}

#[test]
fn map_draws_cells_over_their_share() {
    let mut fb = Framebuffer::new(8, 4, Color::orange());
    let mut textures = TextureManager::new();
    textures.insert('#', texture_2x2([Color::red(), Color::green(), Color::yellow(), Color::black()]));
    let m = maze(&["p#", " g"]);
    render_maze(&mut fb, &m, &textures);
    // each cell is 4 by 2 pixels
    assert_eq!(px(&fb, 0, 0), Color::magenta());
    assert_eq!(px(&fb, 3, 1), Color::magenta());
    assert_eq!(px(&fb, 0, 2), Color::black());
    assert_eq!(px(&fb, 7, 3), Color::red());
    // the wall stretches its 2x2 texture over 4x2 pixels
    assert_eq!(px(&fb, 4, 0), Color::red());
    assert_eq!(px(&fb, 5, 0), Color::red());
    assert_eq!(px(&fb, 6, 0), Color::green());
    assert_eq!(px(&fb, 4, 1), Color::yellow());
    assert_eq!(px(&fb, 7, 1), Color::black());
}

#[test]
fn untextured_walls_take_the_colour_last_drawn() {
    let mut fb = Framebuffer::new(4, 1, Color::orange());
    let textures = TextureManager::new();
    let m = maze(&["g+ +"]);
    render_maze(&mut fb, &m, &textures);
    assert_eq!(px(&fb, 0, 0), Color::red());
    assert_eq!(px(&fb, 1, 0), Color::red());
    assert_eq!(px(&fb, 2, 0), Color::black());
    assert_eq!(px(&fb, 3, 0), Color::black());
}

#[test]
fn minimap_layout_keeps_the_maze_proportions() {
    let m = maze(&["    ", "    "]);
    let layout = minimap_layout(400, 300, &m);
    assert_eq!(
        layout,
        MinimapLayout { columns: 4, rows: 2, width: 100, height: 50, margin_x: 288, margin_y: 12 }
    );
    let tall = maze(&[" ", " ", " ", " "]);
    let layout = minimap_layout(400, 300, &tall);
    assert_eq!((layout.width, layout.height), (18, 75));
    assert_eq!(layout.margin_x, 400 - 30);
}

#[test]
fn minimap_draws_frame_cells_and_markers() {
    let mut fb = Framebuffer::new(400, 300, Color::orange());
    let m = maze(&["p+  ", "   g"]);
    let enemies = vec![new_enemy(EnemyKind::Grunt)];
    let pickups = vec![
        Pickup { at: SpawnPoint::At(0, 0), kind: PickupKind::Switch, active: true },
        Pickup { at: SpawnPoint::At(0, 0), kind: PickupKind::Health, active: true },
    ];
    render_minimap(&mut fb, &m, &enemies, &vec![(60, 40)], &pickups, &vec![(80, 10), (10, 40)], (50, 25));
    // layout: 100 by 50 pixels at (288, 12); cells 25 by 25
    assert_eq!(px(&fb, 286, 30), Color::white()); // frame
    assert_eq!(px(&fb, 285, 30), Color::orange());
    assert_eq!(px(&fb, 286, 10), Color::magenta()); // the start marker reaches over the frame
    assert_eq!(px(&fb, 288 + 30, 12 + 5), Color::black()); // the wall
    assert_eq!(px(&fb, 288 + 60, 12 + 5), Color::white()); // floor
    assert_eq!(px(&fb, 288 + 10, 12 + 10), Color::magenta()); // the start cell
    assert_eq!(px(&fb, 288 + 90, 12 + 30), Color::red()); // the goal cell
    assert_eq!(px(&fb, 288 + 60, 12 + 40), Color::red()); // the enemy
    assert_eq!(px(&fb, 288 + 80, 12 + 10), Color::orange()); // the switch
    assert_eq!(px(&fb, 288 + 10, 12 + 40), Color::white()); // no marker for health
    assert_eq!(px(&fb, 288 + 50, 12 + 25), Color::skyblue()); // the player
    assert_eq!(px(&fb, 288 + 53, 12 + 28), Color::skyblue());
    assert_eq!(px(&fb, 288 + 54, 12 + 28), Color::white());
}

#[test]
fn sky_floor_and_crosshair() {
    let mut fb = Framebuffer::new(20, 10, Color::orange());
    let textures = TextureManager::new();
    draw_sky_and_floor(&mut fb, &textures, 5);
    assert_eq!(px(&fb, 0, 0), Color::skyblue());
    assert_eq!(px(&fb, 19, 4), Color::skyblue());
    assert_eq!(px(&fb, 0, 5), Color::black());
    draw_crosshair(&mut fb, true);
    assert_eq!(px(&fb, 10, 5), Color::yellow());
    assert_eq!(px(&fb, 6, 5), Color::yellow());
    assert_eq!(px(&fb, 5, 5), Color::black());
    assert_eq!(px(&fb, 10, 1), Color::yellow());
    assert_eq!(px(&fb, 11, 6), Color::black());
    draw_crosshair(&mut fb, false);
    assert_eq!(px(&fb, 14, 5), Color::white());
}

#[test]
fn sky_texture_stretches_over_the_top() {
    let mut fb = Framebuffer::new(4, 4, Color::orange());
    let mut textures = TextureManager::new();
    textures.insert('c', texture_2x2([Color::red(), Color::green(), Color::yellow(), Color::magenta()]));
    draw_sky_and_floor(&mut fb, &textures, 2);
    assert_eq!(px(&fb, 0, 0), Color::red());
    assert_eq!(px(&fb, 3, 0), Color::green());
    assert_eq!(px(&fb, 1, 1), Color::yellow());
    assert_eq!(px(&fb, 2, 1), Color::magenta());
    assert_eq!(px(&fb, 2, 3), Color::black());
}

#[test]
fn rays_stop_at_walls_goal_and_edges() {
    let m = maze(&["+ p", " g "]);
    assert_eq!(probe_cell(&m, 0, 0), RayStep::Blocked('+'));
    assert_eq!(probe_cell(&m, 1, 0), RayStep::Through);
    assert_eq!(probe_cell(&m, 2, 0), RayStep::Through);
    assert_eq!(probe_cell(&m, 1, 1), RayStep::Blocked('g'));
    assert_eq!(probe_cell(&m, -1, 0), RayStep::Outside);
    assert_eq!(probe_cell(&m, 3, 0), RayStep::Outside);
    assert_eq!(probe_cell(&m, 0, 2), RayStep::Outside);
}

#[test]
fn minimap_ignores_enemies_out_of_play_and_pickups_other_than_switches() {
    let m = maze(&["p+  ", "   g"]);
    let mut gone = new_enemy(EnemyKind::Brute);
    gone.active = false;
    let grunt = new_enemy(EnemyKind::Grunt);
    let switch = Pickup { at: SpawnPoint::At(0, 0), kind: PickupKind::Switch, active: true };
    let used = Pickup { at: SpawnPoint::At(0, 0), kind: PickupKind::Switch, active: false };
    let health = Pickup { at: SpawnPoint::At(0, 0), kind: PickupKind::Health, active: true };
    let mut all = Framebuffer::new(400, 300, Color::orange());
    render_minimap(
        &mut all,
        &m,
        &vec![gone, grunt],
        &vec![(20, 20), (60, 40)],
        &vec![health, used, switch],
        &vec![(10, 40), (30, 30), (80, 10)],
        (50, 25),
    );
    let mut shown = Framebuffer::new(400, 300, Color::orange());
    render_minimap(&mut shown, &m, &vec![grunt], &vec![(60, 40)], &vec![switch], &vec![(80, 10)], (50, 25));
    assert!(all.rgba_bytes() == shown.rgba_bytes());
}
