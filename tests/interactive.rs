use starfield::{
    reachable, InteractiveSky, Link, LinkStyle, Sky, Star, TickInput, INITIAL_LIGHT,
};

fn bright(x: i16, y: i16) -> Star {
    Star::new(x, y, true)
}

fn chain(n: usize, linked: usize) -> InteractiveSky {
    let mut stars = Vec::new();
    for i in 0..n {
        stars.push(bright(100 + 20 * i as i16, 100));
    }
    let mut links = Vec::new();
    for i in 0..linked {
        links.push(Link::new(i as u16, (i + 1) as u16, LinkStyle::Bright));
    }
    InteractiveSky::from_sky(Sky::new(stars, links), INITIAL_LIGHT)
}

fn at(x: i16, y: i16, down: bool) -> TickInput {
    TickInput { mouse_x: x, mouse_y: y, mouse_down: down, focus_x: 0, focus_y: 0 }
}

fn drag(sky: &mut InteractiveSky, from: (i16, i16), to: (i16, i16)) {
    sky.update(&at(from.0, from.1, true));
    sky.update(&at(to.0, to.1, true));
    sky.update(&at(to.0, to.1, false));
}

#[test]
fn closing_four_stars_completes_a_constellation() {
    let mut sky = chain(4, 2);
    drag(&mut sky, (140, 100), (160, 100));
    assert_eq!(sky.sky.links.len(), 3);
    assert_eq!(sky.sky.links[2], Link::new(2, 3, LinkStyle::Dim));
    assert_eq!(sky.light, INITIAL_LIGHT - 1);
    for star in &sky.sky.stars {
        assert!(!star.bright);
    }
    for link in &sky.sky.links {
        assert_eq!(link.style, LinkStyle::Dim);
    }
    assert!(!sky.draft_line.visible);
}

#[test]
fn closing_six_stars_returns_two_light() {
    let mut sky = chain(6, 4);
    drag(&mut sky, (180, 100), (200, 100));
    assert_eq!(sky.sky.links.len(), 5);
    assert_eq!(sky.light, INITIAL_LIGHT - 1 + 2);
    for star in &sky.sky.stars {
        assert!(!star.bright);
    }
}

#[test]
fn pre_linked_chain_counts_each_star_once() {
    let mut sky = chain(4, 2);
    assert_eq!(reachable(&sky.sky.links, 4, 0).len(), 3);
    drag(&mut sky, (140, 100), (160, 100));
    let members = reachable(&sky.sky.links, 4, 3);
    assert_eq!(members.len(), 4);
    assert_eq!(members[0], 3);
    assert_eq!(sky.light, INITIAL_LIGHT - 1);
}

#[test]
fn three_stars_do_not_complete() {
    let mut sky = chain(3, 1);
    drag(&mut sky, (120, 100), (140, 100));
    assert_eq!(sky.sky.links.len(), 2);
    assert_eq!(sky.sky.links[1], Link::new(1, 2, LinkStyle::Bright));
    assert_eq!(sky.light, INITIAL_LIGHT - 1);
    for star in &sky.sky.stars {
        assert!(star.bright);
    }
}

#[test]
fn completion_dims_lonely_stars_and_keeps_linked_ones() {
    let mut stars = vec![bright(100, 100), bright(120, 100), bright(140, 100), bright(160, 100)];
    stars.push(bright(400, 400));
    stars.push(bright(500, 500));
    stars.push(bright(520, 500));
    let links = vec![
        Link::new(0, 1, LinkStyle::Bright),
        Link::new(1, 2, LinkStyle::Bright),
        Link::new(5, 6, LinkStyle::Bright),
    ];
    let mut sky = InteractiveSky::from_sky(Sky::new(stars, links), INITIAL_LIGHT);
    drag(&mut sky, (140, 100), (160, 100));
    assert!(!sky.sky.stars[4].bright);
    assert!(sky.sky.stars[5].bright);
    assert!(sky.sky.stars[6].bright);
    assert_eq!(sky.sky.links[2].style, LinkStyle::Bright);
}

#[test]
fn release_over_the_anchor_commits_nothing() {
    let mut sky = chain(4, 2);
    sky.update(&at(140, 100, true));
    assert!(sky.draft_line.visible);
    sky.update(&at(141, 101, true));
    sky.update(&at(141, 101, false));
    assert_eq!(sky.sky.links.len(), 2);
    assert_eq!(sky.light, INITIAL_LIGHT);
    assert!(!sky.draft_line.visible);
}

#[test]
fn release_over_empty_space_commits_nothing() {
    let mut sky = chain(4, 2);
    sky.update(&at(140, 100, true));
    sky.update(&at(150, 120, true));
    sky.update(&at(150, 120, false));
    assert_eq!(sky.sky.links.len(), 2);
    assert_eq!(sky.light, INITIAL_LIGHT);
    for star in &sky.sky.stars {
        assert!(star.bright);
    }
}

#[test]
fn press_on_empty_space_starts_no_draft() {
    let mut sky = chain(4, 2);
    sky.update(&at(300, 300, true));
    assert!(!sky.draft_line.visible);
    sky.update(&at(160, 100, false));
    assert_eq!(sky.sky.links.len(), 2);
    assert_eq!(sky.light, INITIAL_LIGHT);
}

#[test]
fn draft_line_is_clamped_to_reach() {
    let mut sky = InteractiveSky::from_sky(Sky::new(vec![bright(300, 300)], vec![]), INITIAL_LIGHT);
    sky.update(&at(300, 300, true));
    assert!(sky.draft_line.visible);
    assert_eq!((sky.draft_line.end_x, sky.draft_line.end_y), (300, 300));
    sky.update(&at(400, 300, true));
    assert_eq!((sky.draft_line.end_x, sky.draft_line.end_y), (335, 300));
    sky.update(&at(350, 350, true));
    assert_eq!((sky.draft_line.end_x, sky.draft_line.end_y), (324, 324));
    let dx = sky.draft_line.end_x as i32 - 300;
    let dy = sky.draft_line.end_y as i32 - 300;
    assert!(dx * dx + dy * dy <= 35 * 35);
    assert!(dx * dx + dy * dy > 33 * 33);
}

#[test]
fn draft_line_follows_a_near_pointer() {
    let mut sky = InteractiveSky::from_sky(Sky::new(vec![bright(300, 300)], vec![]), INITIAL_LIGHT);
    sky.update(&at(300, 300, true));
    sky.update(&at(310, 320, true));
    assert_eq!((sky.draft_line.end_x, sky.draft_line.end_y), (310, 320));
}

#[test]
fn draft_line_snaps_onto_a_hovered_star() {
    let mut sky = chain(2, 0);
    sky.update(&at(100, 100, true));
    sky.update(&at(118, 102, true));
    assert_eq!((sky.draft_line.end_x, sky.draft_line.end_y), (120, 100));
    assert_eq!(sky.draft_line.start_idx, 0);
}

#[test]
fn focus_moves_the_pointer_into_the_world() {
    let mut sky = chain(2, 0);
    let input = TickInput { mouse_x: 20, mouse_y: 30, mouse_down: true, focus_x: 80, focus_y: 70 };
    sky.update(&input);
    assert!(sky.draft_line.visible);
    assert_eq!(sky.draft_line.start_idx, 0);
}

#[test]
fn cursor_marks_the_hovered_bright_star() {
    let mut sky = chain(2, 0);
    sky.update(&at(122, 98, false));
    assert!(sky.cursor.visible);
    assert_eq!((sky.cursor.x, sky.cursor.y), (120, 100));
    sky.update(&at(200, 200, false));
    assert!(!sky.cursor.visible);
}

#[test]
fn dim_stars_cannot_be_hovered() {
    let stars = vec![Star::new(100, 100, false), bright(120, 100)];
    let mut sky = InteractiveSky::from_sky(Sky::new(stars, vec![]), INITIAL_LIGHT);
    assert_eq!(sky.get_bright_star_idx_at(100, 100), None);
    assert_eq!(sky.get_bright_star_idx_at(117, 103), Some(1));
    assert_eq!(sky.get_bright_star_idx_at(116, 100), None);
    sky.update(&at(100, 100, true));
    assert!(!sky.draft_line.visible);
}

#[test]
fn light_saturates_at_zero() {
    let mut sky = InteractiveSky::from_sky(
        Sky::new(vec![bright(100, 100), bright(120, 100), bright(300, 300), bright(320, 300)], vec![]),
        0,
    );
    drag(&mut sky, (100, 100), (120, 100));
    assert_eq!(sky.sky.links.len(), 1);
    assert_eq!(sky.light, 0);
}

#[test]
fn new_sky_starts_idle() {
    let sky = InteractiveSky::new(12345);
    assert_eq!(sky.light, INITIAL_LIGHT);
    assert!(!sky.draft_line.visible);
    assert!(!sky.cursor.visible);
    assert!(!sky.prev_mouse_down);
    assert!(!sky.sky.stars.is_empty());
}
