use starfield::{
    generate_sky, isqrt, next_random, reachable, LinkStyle, Sky, Star, MAX_STARS,
};

fn distance(a: &Star, b: &Star) -> i64 {
    let dx = a.x as i64 - b.x as i64;
    let dy = a.y as i64 - b.y as i64;
    isqrt((dx * dx + dy * dy) as u64) as i64
}

fn check_rules(sky: &Sky) {
    let stars = &sky.stars;
    for (i, a) in stars.iter().enumerate() {
        assert!(a.bright);
        assert!(a.x >= 0 && a.x < 640 && a.y >= 0 && a.y < 640);
        let mut near = false;
        for (j, b) in stars.iter().enumerate() {
            if i == j {
                continue;
            }
            let d = distance(a, b);
            assert!(d >= 20, "stars {i} and {j} are {d} apart");
            assert!(!(d > 35 && d <= 47), "stars {i} and {j} are {d} apart");
            if d <= 35 {
                near = true;
            }
        }
        if i > 0 {
            assert!(near, "star {i} has no star within reach");
        }
    }
    for link in &sky.links {
        assert!((link.start_idx as usize) < stars.len());
        assert!((link.end_idx as usize) < stars.len());
        assert_eq!(link.style, LinkStyle::Bright);
        assert!(distance(&stars[link.start_idx as usize], &stars[link.end_idx as usize]) <= 30);
    }
}

#[test]
fn generation_is_deterministic() {
    for seed in [0u32, 7, 12345, 0xdead_beef] {
        let a = generate_sky(seed);
        let b = generate_sky(seed);
        assert_eq!(a.stars, b.stars);
        assert_eq!(a.links, b.links);
    }
}

#[test]
fn different_seeds_give_different_skies() {
    let a = generate_sky(1);
    let b = generate_sky(2);
    assert_ne!(a.stars, b.stars);
}

#[test]
fn generated_stars_keep_spacing_and_reach() {
    for seed in [0u32, 1, 12345, 0xdead_beef, u32::MAX] {
        check_rules(&generate_sky(seed));
    }
}

#[test]
fn generation_places_every_star() {
    for seed in [0u32, 12345, 424242] {
        assert_eq!(generate_sky(seed).stars.len(), MAX_STARS);
    }
}

#[test]
fn first_star_comes_from_two_draws_of_the_seed() {
    let seed: u32 = 12345;
    let mut state = seed;
    let x = 320 + (next_random(&mut state) % 64) as i16;
    let y = 320 + (next_random(&mut state) % 64) as i16;
    let sky = generate_sky(seed);
    assert_eq!(sky.stars[0], Star::new(x, y, true));
    assert_eq!((x, y), (358, 361));
}

#[test]
fn preset_constellations_stay_small() {
    for seed in [0u32, 12345, 99] {
        let sky = generate_sky(seed);
        for i in 0..sky.stars.len() {
            assert!(reachable(&sky.links, sky.stars.len(), i as u16).len() <= 3);
        }
    }
}

#[test]
fn reachable_lists_each_star_of_a_constellation_once() {
    let links = vec![
        starfield::Link::new(0, 1, LinkStyle::Bright),
        starfield::Link::new(1, 2, LinkStyle::Bright),
        starfield::Link::new(2, 0, LinkStyle::Dim),
        starfield::Link::new(3, 4, LinkStyle::Bright),
    ];
    let mut from_zero = reachable(&links, 6, 0);
    assert_eq!(from_zero[0], 0);
    from_zero.sort();
    assert_eq!(from_zero, vec![0, 1, 2]);
    let mut from_four = reachable(&links, 6, 4);
    assert_eq!(from_four[0], 4);
    from_four.sort();
    assert_eq!(from_four, vec![3, 4]);
    assert_eq!(reachable(&links, 6, 5), vec![5]);
}
