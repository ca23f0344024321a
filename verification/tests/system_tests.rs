use water_sort::game_elements::color::Color;
use water_sort::game_elements::glass::Glass;
use water_sort::game_elements::glass_system::{GlassSystem, GlassSystemError};
use water_sort::game_elements::step::Step;
use water_sort::solver::data_structures::system_dictionary::SystemDictionary;
use water_sort::solver::evaluation::SolutionValueMode;
use water_sort::solver::solution_value;

fn glass_of(ids: &[u8]) -> Glass {
    let mut g = Glass::new();
    for &id in ids {
        g.push(Color::new(id)).unwrap();
    }
    g
}

fn ids_of(g: &Glass) -> Vec<u8> {
    (1..=g.top).map(|i| g.glass[i].id()).collect()
}

fn system(glasses: &[&[u8]]) -> GlassSystem {
    GlassSystem::new(glasses.iter().map(|g| glass_of(g)).collect())
}

#[test]
fn readme_pour_example() {
    // i: [R, G, G, G] and j: [B, G, _, _] give i: [R, G, _, _], j: [B, G, G, G].
    let mut s = system(&[&[1, 2, 2, 2], &[3, 2]]);
    assert_eq!(s.try_pour(0, 1), Ok(()));
    assert_eq!(ids_of(&s.get_state()[0]), vec![1, 2]);
    assert_eq!(ids_of(&s.get_state()[1]), vec![3, 2, 2, 2]);
}

#[test]
fn pour_into_empty_moves_the_whole_run() {
    let mut s = system(&[&[1, 2, 2], &[]]);
    assert_eq!(s.try_pour(0, 1), Ok(()));
    assert_eq!(ids_of(&s.get_state()[0]), vec![1]);
    assert_eq!(ids_of(&s.get_state()[1]), vec![2, 2]);
}

#[test]
fn pour_onto_other_color_moves_nothing() {
    let mut s = system(&[&[1, 2], &[3]]);
    assert_eq!(s.try_pour(0, 1), Ok(()));
    assert_eq!(ids_of(&s.get_state()[0]), vec![1, 2]);
    assert_eq!(ids_of(&s.get_state()[1]), vec![3]);
}

#[test]
fn pour_with_bad_indices() {
    let mut s = system(&[&[1], &[]]);
    assert_eq!(s.try_pour(0, 0), Err(GlassSystemError::InvalidGlassIndices(0, 0, 2)));
    assert_eq!(s.try_pour(2, 0), Err(GlassSystemError::InvalidGlassIndices(2, 0, 2)));
    assert_eq!(s.try_pour(0, 5), Err(GlassSystemError::InvalidGlassIndices(0, 5, 2)));
    assert_eq!(ids_of(&s.get_state()[0]), vec![1]);
}

#[test]
fn solved_systems() {
    assert!(system(&[&[1, 1, 1, 1], &[], &[2, 2, 2, 2]]).is_solved());
    assert!(!system(&[&[1, 1, 1], &[1]]).is_solved());
    assert!(system(&[]).is_solved());
}

#[test]
fn valid_steps_in_order() {
    let s = system(&[&[1, 2], &[2], &[1, 1, 1, 1], &[]]);
    let steps: Vec<(usize, usize)> = s.get_valid_steps().iter().map(|st| (st.source, st.destination)).collect();
    assert_eq!(steps, vec![(0, 1), (0, 3), (1, 0), (1, 3)]);
}

#[test]
fn every_valid_step_moves_liquid() {
    let s = system(&[&[1, 2, 1, 2], &[2, 1, 2, 1], &[], &[]]);
    for st in s.get_valid_steps() {
        let mut next = s.clone();
        assert_eq!(next.try_pour(st.source, st.destination), Ok(()));
        assert!(next.get_state()[st.destination].top > s.get_state()[st.destination].top);
        assert!(next != s || st.source != st.destination);
    }
}

#[test]
fn systems_equal_up_to_order() {
    let a = system(&[&[1, 2], &[2], &[]]);
    let b = system(&[&[], &[1, 2], &[2]]);
    let c = system(&[&[], &[2, 1], &[2]]);
    assert!(a == b);
    assert!(a != c);
    assert!(a != system(&[&[1, 2], &[2]]));
    assert!(a == a.clone());
}

#[test]
fn dictionary_ids() {
    let mut d = SystemDictionary::new();
    let a = system(&[&[1, 2], &[]]);
    let b = system(&[&[2, 1], &[]]);
    assert_eq!(d.get_id(&a), None);
    assert_eq!(d.add_system(a.clone()), 0);
    assert_eq!(d.add_system(b.clone()), 1);
    assert_eq!(d.get_id(&a), Some(&0));
    assert_eq!(d.get_id(&system(&[&[], &[2, 1]])), Some(&1));
    assert!(d.get_system(&1).unwrap() == &b);
    assert!(d.get_system(&2).is_none());
    assert_eq!(d.len(), 2);
}

#[test]
fn solution_values() {
    // Glass slots (sentinel first): [0,1,2,0,0], [0,3,3,3,3], [0,0,0,0,0].
    let s = system(&[&[1, 2], &[3, 3, 3, 3], &[]]);
    assert_eq!(solution_value(&s, &SolutionValueMode::Constant), 1 + 1);
    // Distinct colors per glass: {0,1,2} = 3, {0,3} = 2, {0} = 1.
    assert_eq!(solution_value(&s, &SolutionValueMode::ColorCount), 3 + 2 + 1 + 1);
    // Changes per glass: 0->1->2->0: 3; 0->3: 1; none: 0.
    assert_eq!(solution_value(&s, &SolutionValueMode::AlternatingColors), 3 + 1 + 0 + 1);
}

#[test]
fn step_equality() {
    assert_eq!(Step { source: 1, destination: 2 }, Step { source: 1, destination: 2 });
    assert_ne!(Step { source: 1, destination: 2 }, Step { source: 2, destination: 1 });
}

#[test]
fn fingerprint_ignores_glass_order() {
    let a = system(&[&[1, 2], &[2, 1, 1], &[]]);
    let b = system(&[&[], &[1, 2], &[2, 1, 1]]);
    assert_eq!(a.fingerprint(), b.fingerprint());
    // One glass [1, 2]: slot ids 0 (empty), 1, 2 and top 2.
    let one = system(&[&[1, 2]]);
    assert_eq!(one.fingerprint(), 256 * 1 + 65536 * 2 + 1099511627776 * 2);
    assert_eq!(system(&[]).fingerprint(), 0);
}

#[test]
fn dictionary_finds_latest_equal_system() {
    let mut d = SystemDictionary::new();
    let a = system(&[&[1, 2], &[]]);
    let b = system(&[&[], &[1, 2]]);
    assert_eq!(d.add_system(a.clone()), 0);
    assert_eq!(d.add_system(system(&[&[3], &[3]])), 1);
    assert_eq!(d.add_system(b.clone()), 2);
    assert_eq!(d.get_id(&a), Some(&2));
    assert_eq!(d.get_id(&system(&[&[3], &[3]])), Some(&1));
    assert_eq!(d.get_id(&system(&[&[3], &[]])), None);
    assert_eq!(d.len(), 3);
}

#[test]
fn solved_system_allows_no_move() {
    let s = system(&[&[1, 1, 1, 1], &[], &[2, 2, 2, 2], &[]]);
    assert!(s.is_solved());
    assert!(s.get_valid_steps().is_empty());
}

#[test]
fn pour_moves_the_top_run_until_full() {
    // A run of three 2s on top of the source; room for two on the destination.
    let mut s = system(&[&[1, 2, 2, 2], &[3, 2]]);
    assert_eq!(s.try_pour(0, 1), Ok(()));
    assert_eq!(ids_of(&s.get_state()[0]), vec![1, 2]);
    assert_eq!(ids_of(&s.get_state()[1]), vec![3, 2, 2, 2]);
    // A run of two 2s; the pour stops where the source shows another color.
    let mut t = system(&[&[1, 2, 2], &[]]);
    assert_eq!(t.try_pour(0, 1), Ok(()));
    assert_eq!(ids_of(&t.get_state()[0]), vec![1]);
    assert_eq!(ids_of(&t.get_state()[1]), vec![2, 2]);
}

#[test]
fn step_text_is_decimal() {
    assert_eq!(Step { source: 10, destination: 0 }.to_string(), "(10, 0)");
    assert_eq!(Step { source: 1203, destination: 99 }.to_string(), "(1203, 99)");
}
