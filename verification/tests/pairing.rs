use config_diff::{is_config_extension, pair_names};

fn names(list: &[&str]) -> Vec<Vec<u8>> {
    list.iter().map(|name| name.as_bytes().to_vec()).collect()
}

fn sorted(mut pairs: Vec<(usize, usize)>) -> Vec<(usize, usize)> {
    pairs.sort();
    pairs
}

#[test]
fn extension_is_cfg_in_either_case() {
    assert!(is_config_extension("cfg"));
    assert!(is_config_extension("CFG"));
    assert!(!is_config_extension("Cfg"));
    assert!(!is_config_extension("cfG"));
    assert!(!is_config_extension(""));
    assert!(!is_config_extension("cf"));
    assert!(!is_config_extension("cfgs"));
    assert!(!is_config_extension("ini"));
    assert!(!is_config_extension(".cfg"));
}

#[test]
fn files_are_paired_by_name() {
    let left = names(&["a.cfg", "b.cfg", "c.cfg"]);
    let right = names(&["c.cfg", "d.cfg", "a.cfg"]);
    assert_eq!(sorted(pair_names(left, right)), vec![(0, 2), (2, 0)]);
}

#[test]
fn files_of_one_tree_only_are_not_paired() {
    assert!(pair_names(names(&["a.cfg"]), names(&["b.cfg"])).is_empty());
    assert!(pair_names(names(&["a.cfg"]), names(&[])).is_empty());
    assert!(pair_names(names(&[]), names(&["a.cfg"])).is_empty());
    assert!(pair_names(names(&[]), names(&[])).is_empty());
}

#[test]
fn last_file_of_a_name_counts() {
    let left = names(&["x.cfg", "y.cfg", "x.cfg"]);
    let right = names(&["x.cfg", "x.cfg", "x.cfg", "z.cfg"]);
    assert_eq!(sorted(pair_names(left, right)), vec![(2, 2)]);
}

#[test]
fn names_are_compared_exactly() {
    let left = names(&["a.cfg", "B.CFG"]);
    let right = names(&["A.cfg", "B.CFG", "a.cfg "]);
    assert_eq!(sorted(pair_names(left, right)), vec![(1, 1)]);
}

#[test]
fn names_need_not_be_text() {
    let left: Vec<Vec<u8>> = vec![vec![0xff, b'.', b'c'], vec![]];
    let right: Vec<Vec<u8>> = vec![vec![], vec![0xfe, b'.', b'c'], vec![0xff, b'.', b'c']];
    assert_eq!(sorted(pair_names(left, right)), vec![(0, 2), (1, 0)]);
}

fn step(state: &mut u64) -> usize {
    *state = state.wrapping_mul(6364136223846793005).wrapping_add(1442695040888963407);
    (*state >> 33) as usize
}

#[test]
fn pairing_agrees_with_a_join_of_two_maps() {
    let pool = ["a.cfg", "b.cfg", "c.cfg", "d.CFG", "e.cfg", "f.cfg"];
    let mut state: u64 = 3;
    for _ in 0..2000 {
        let mut left: Vec<&str> = Vec::new();
        let mut right: Vec<&str> = Vec::new();
        for _ in 0..step(&mut state) % 8 {
            left.push(pool[step(&mut state) % pool.len()]);
        }
        for _ in 0..step(&mut state) % 8 {
            right.push(pool[step(&mut state) % pool.len()]);
        }
        let by_name_left: std::collections::BTreeMap<&str, usize> =
            left.iter().enumerate().map(|(at, name)| (*name, at)).collect();
        let by_name_right: std::collections::BTreeMap<&str, usize> =
            right.iter().enumerate().map(|(at, name)| (*name, at)).collect();
        let mut expected: Vec<(usize, usize)> = by_name_left
            .iter()
            .filter_map(|(name, at)| by_name_right.get(name).map(|other| (*at, *other)))
            .collect();
        expected.sort();
        assert_eq!(sorted(pair_names(names(&left), names(&right))), expected);
    }
}
