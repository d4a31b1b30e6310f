use rand::rngs::SmallRng;
use rand::{Rng, SeedableRng};
use stellar::mtree::MTree;
use stellar::system::{
    assemble_system, draw_star_amount, get_arrangement_num, random_gen_from_string,
    seed_from_string, star_amount_for_draw,
};

fn values_in_order<T: Clone + std::fmt::Debug>(tree: &MTree<T>) -> Vec<T> {
    let mut out = Vec::new();
    let mut it = tree.iter();
    while let Some(v) = it.next() {
        out.push(v.clone());
    }
    out
}

fn hex(bytes: &[u8]) -> String {
    bytes.iter().map(|b| format!("{:02x}", b)).collect()
}

#[test]
fn seed_is_the_sha256_of_the_seed_text() {
    assert_eq!(
        hex(&seed_from_string("abc")),
        "ba7816bf8f01cfea414140de5dae2223b00361a396177a9cb410ff61f20015ad"
    );
    assert_eq!(
        hex(&seed_from_string("")),
        "e3b0c44298fc1c149afbf4c8996fb92427ae41e4649b934ca495991b7852b855"
    );
}

#[test]
fn equal_seed_strings_give_equal_generators() {
    let mut a = random_gen_from_string("eriku");
    let mut b = random_gen_from_string("eriku");
    assert_eq!(a, b);
    for _ in 0..100 {
        assert_eq!(a.random::<u64>(), b.random::<u64>());
    }
    assert_eq!(draw_star_amount(&mut a), draw_star_amount(&mut b));
}

#[test]
fn different_seed_strings_give_different_streams() {
    let mut a = random_gen_from_string("eriku");
    let mut b = random_gen_from_string("Eriku");
    assert_ne!(seed_from_string("eriku"), seed_from_string("Eriku"));
    let xs: Vec<u64> = (0..4).map(|_| a.random()).collect();
    let ys: Vec<u64> = (0..4).map(|_| b.random()).collect();
    assert_ne!(xs, ys);
}

#[test]
fn star_amount_table_boundaries() {
    assert_eq!(star_amount_for_draw(0), 1);
    assert_eq!(star_amount_for_draw(70), 1);
    assert_eq!(star_amount_for_draw(71), 2);
    assert_eq!(star_amount_for_draw(95), 2);
    assert_eq!(star_amount_for_draw(96), 3);
    assert_eq!(star_amount_for_draw(99), 3);
    assert_eq!(star_amount_for_draw(100), 4);
    assert_eq!(star_amount_for_draw(101), 5);
    assert_eq!(star_amount_for_draw(-1), 5);
}

#[test]
fn drawn_star_amounts_stay_in_range() {
    let mut rng = random_gen_from_string("star count");
    let mut seen = [0u32; 5];
    for _ in 0..2000 {
        let n = draw_star_amount(&mut rng);
        assert!((1..=4).contains(&n));
        seen[n as usize] += 1;
    }
    assert!(seen[1] > seen[2]);
    assert!(seen[2] > seen[3]);
}

#[test]
fn arrangement_numbers() {
    assert_eq!(get_arrangement_num(0), 1);
    assert_eq!(get_arrangement_num(1), 1);
    assert_eq!(get_arrangement_num(2), 1);
    assert_eq!(get_arrangement_num(3), 1);
    assert_eq!(get_arrangement_num(4), 1);
    assert_eq!(get_arrangement_num(6), 2);
    assert_eq!(get_arrangement_num(7), 1);
    assert_eq!(get_arrangement_num(9), 2);
    assert_eq!(get_arrangement_num(12), 3);
    assert_eq!(get_arrangement_num(u32::MAX), 715827883);
}

#[test]
fn assembled_system_has_planets_below_the_star_and_moons_below_planets() {
    let planets = vec![
        ("a", vec!["a-moon-1", "a-moon-2"]),
        ("b", vec![]),
        ("c", vec!["c-moon-1"]),
    ];
    let tree = assemble_system("star", planets);
    assert_eq!(
        values_in_order(&tree),
        vec!["star", "a", "a-moon-1", "a-moon-2", "b", "c", "c-moon-1"]
    );
    assert_eq!(
        tree.hierarchy(),
        vec![(0, 0), (1, 1), (2, 2), (2, 3), (1, 4), (1, 5), (2, 6)]
    );
    assert_eq!(tree.get_value(6), Some(&"c-moon-1"));
}

#[test]
fn assembled_system_without_planets_is_the_star_alone() {
    let tree = assemble_system(1u8, Vec::new());
    assert_eq!(values_in_order(&tree), vec![1]);
    assert_eq!(tree.hierarchy(), vec![(0, 0)]);
}

#[test]
fn assembled_system_root_children_follow_planet_order() {
    let planets: Vec<(u32, Vec<u32>)> = (1..=5).map(|p| (p, (0..p).map(|m| p * 100 + m).collect())).collect();
    let mut tree = assemble_system(0u32, planets);
    let mut count = 0;
    {
        let mut root = tree.root_handle();
        for i in 0..5usize {
            let mut planet = root.nth_child(i).unwrap();
            assert_eq!(*planet.value(), i as u32 + 1);
            for j in 0..=i {
                let moon = planet.nth_child(j).unwrap();
                assert_eq!(*moon.value(), (i as u32 + 1) * 100 + j as u32);
            }
            assert!(planet.nth_child(i + 1).is_none());
        }
        assert!(root.nth_child(5).is_none());
    }
    let mut it = tree.iter();
    while it.next().is_some() {
        count += 1;
    }
    assert_eq!(count, 1 + 5 + 15);
}

#[test]
fn generator_is_seeded_with_the_full_digest() {
    let a = random_gen_from_string("eriku");
    let b = SmallRng::from_seed(seed_from_string("eriku"));
    assert_eq!(a, b);
    assert_ne!(a, SmallRng::from_seed([0u8; 32]));
}
