//! Ranges, sets and maps of code points, and sets of states.

use regex_dfa::char_map::{CharMap, CharMultiMap, CharRange, CharSet};
use regex_dfa::state_set;

fn set_of(ranges: &[(u32, u32)]) -> CharSet {
    let mut set = CharSet::new();
    for &(a, b) in ranges {
        set.insert(CharRange::new(a, b));
    }
    set
}

fn ranges_of(set: &CharSet) -> Vec<(u32, u32)> {
    set.ranges().iter().map(|r| (r.start, r.end)).collect()
}

#[test]
fn range_constructors() {
    assert_eq!(CharRange::new(3, 9), CharRange { start: 3, end: 9 });
    assert_eq!(CharRange::single(7), CharRange { start: 7, end: 7 });
    assert_eq!(CharRange::full(), CharRange { start: 0, end: u32::MAX });
    assert!(CharRange::new(9, 3).is_empty());
    assert!(!CharRange::single(0).is_empty());
    assert!(CharRange::new(3, 9).contains(3));
    assert!(CharRange::new(3, 9).contains(9));
    assert!(!CharRange::new(3, 9).contains(10));
}

#[test]
fn range_intersection() {
    let a = CharRange::new(10, 20);
    assert_eq!(a.intersection(&CharRange::new(15, 30)), Some(CharRange::new(15, 20)));
    assert_eq!(a.intersection(&CharRange::new(20, 30)), Some(CharRange::new(20, 20)));
    assert_eq!(a.intersection(&CharRange::new(21, 30)), None);
    assert_eq!(a.intersection(&CharRange::new(30, 21)), None);
}

#[test]
fn range_to_char_pair_leaves_surrogates_out() {
    assert_eq!(CharRange::new(0x61, 0x7A).to_char_pair(), Some(('a', 'z')));
    assert_eq!(CharRange::new(0xD800, 0xDFFF).to_char_pair(), None);
    assert_eq!(CharRange::new(0xD7FF, 0xE000).to_char_pair(), Some(('\u{D7FF}', '\u{E000}')));
    assert_eq!(CharRange::new(0xD900, 0xE001).to_char_pair(), Some(('\u{E000}', '\u{E001}')));
    assert_eq!(CharRange::new(0x10, 0xD900).to_char_pair(), Some(('\u{10}', '\u{D7FF}')));
    assert_eq!(CharRange::new(0x110000, u32::MAX).to_char_pair(), None);
    assert_eq!(CharRange::new(0x10FFFF, u32::MAX).to_char_pair(), Some(('\u{10FFFF}', '\u{10FFFF}')));
    assert_eq!(CharRange::new(5, 4).to_char_pair(), None);
}

#[test]
fn set_insert_merges_what_touches() {
    let mut set = CharSet::new();
    assert!(set.is_empty());
    set.insert(CharRange::new(10, 20));
    set.insert(CharRange::new(21, 30));
    assert_eq!(ranges_of(&set), vec![(10, 30)]);
    set.insert(CharRange::new(5, 7));
    assert_eq!(ranges_of(&set), vec![(5, 7), (10, 30)]);
    set.insert(CharRange::new(8, 8));
    assert_eq!(ranges_of(&set), vec![(5, 8), (10, 30)]);
    set.insert(CharRange::new(9, 9));
    assert_eq!(ranges_of(&set), vec![(5, 30)]);
    set.insert(CharRange::new(40, 39));
    assert_eq!(ranges_of(&set), vec![(5, 30)]);
    set.insert(CharRange::new(0, u32::MAX));
    assert!(set.is_full());
}

#[test]
fn set_operations() {
    let a = set_of(&[(1, 5), (10, 20)]);
    let b = set_of(&[(4, 12), (30, 40)]);
    assert_eq!(ranges_of(&a.union(&b)), vec![(1, 20), (30, 40)]);
    assert_eq!(ranges_of(&a.intersect(&b)), vec![(4, 5), (10, 12)]);
    assert_eq!(ranges_of(&a.negated()), vec![(0, 0), (6, 9), (21, u32::MAX)]);
    assert_eq!(ranges_of(&CharSet::new().negated()), vec![(0, u32::MAX)]);
    assert!(CharSet::full().negated().is_empty());
    assert!(a.union(&a.negated()).is_full());
    assert!(a.intersect(&a.negated()).is_empty());
    assert!(a.contains(10) && a.contains(5) && !a.contains(6));
    assert!(a.same(&set_of(&[(10, 20), (1, 3), (4, 5)])));
    assert!(!a.same(&b));
    assert_eq!(a.clip(CharRange::new(3, 15)), vec![CharRange::new(3, 5), CharRange::new(10, 15)]);
}

#[test]
fn multi_map_group_splits_at_every_boundary() {
    let mut m = CharMultiMap::new();
    m.push(CharRange::new(b'a' as u32, b'c' as u32), 1);
    m.push(CharRange::new(b'b' as u32, b'd' as u32), 2);
    m.push(CharRange::new(b'b' as u32, b'b' as u32), 1);
    let g = m.group().into_vec();
    assert_eq!(
        g,
        vec![
            (CharRange::new(0x61, 0x61), vec![1]),
            (CharRange::new(0x62, 0x62), vec![1, 2]),
            (CharRange::new(0x63, 0x63), vec![1, 2]),
            (CharRange::new(0x64, 0x64), vec![2]),
        ]
    );
    assert_eq!(m.targets_at(0x62), vec![1, 2]);
    assert_eq!(m.targets_at(0x65), Vec::<usize>::new());
    assert!(CharMultiMap::new().group().is_empty());
}

#[test]
fn multi_map_group_reaches_the_last_code_point() {
    let mut m = CharMultiMap::new();
    m.push(CharRange::new(0, u32::MAX), 3);
    m.push(CharRange::new(u32::MAX, u32::MAX), 4);
    let g = m.group().into_vec();
    assert_eq!(
        g,
        vec![
            (CharRange::new(0, u32::MAX - 1), vec![3]),
            (CharRange::new(u32::MAX, u32::MAX), vec![3, 4]),
        ]
    );
}

#[test]
fn multi_map_filter_and_intersect() {
    let mut m = CharMultiMap::new();
    m.push(CharRange::new(0, 9), 1);
    m.push(CharRange::new(5, 20), 2);
    m.push(CharRange::new(30, 40), 1);
    let kept = m.filter_values(&vec![1]);
    assert_eq!(kept.into_vec(), vec![(CharRange::new(0, 9), 1), (CharRange::new(30, 40), 1)]);
    let cut = m.intersect(&set_of(&[(8, 10), (35, 50)]));
    assert_eq!(
        cut.into_vec(),
        vec![
            (CharRange::new(8, 9), 1),
            (CharRange::new(8, 10), 2),
            (CharRange::new(35, 40), 1),
        ]
    );
    assert!(m.same(&m.clone()));
    assert_eq!(m.len(), 3);
    assert_eq!(m.get(1), (CharRange::new(5, 20), 2));
}

#[test]
fn map_find_and_intersect() {
    let mut m: CharMap<usize> = CharMap::new();
    m.push(CharRange::new(0, 9), 7);
    m.push(CharRange::new(5, 20), 8);
    assert_eq!(m.find(4), Some(7));
    assert_eq!(m.find(5), Some(7));
    assert_eq!(m.find(10), Some(8));
    assert_eq!(m.find(21), None);

    let mut sets: CharMap<Vec<usize>> = CharMap::new();
    sets.push(CharRange::new(0, 9), vec![1, 2]);
    sets.push(CharRange::new(10, 20), vec![3]);
    let cut = sets.intersect(&set_of(&[(5, 12), (18, 30)]));
    assert_eq!(
        cut.into_vec(),
        vec![
            (CharRange::new(5, 9), vec![1, 2]),
            (CharRange::new(10, 12), vec![3]),
            (CharRange::new(18, 20), vec![3]),
        ]
    );
    assert!(sets.same(&sets.clone()));
}

#[test]
fn state_sets() {
    let mut v: Vec<usize> = Vec::new();
    state_set::insert(&mut v, 5);
    state_set::insert(&mut v, 2);
    state_set::insert(&mut v, 9);
    state_set::insert(&mut v, 5);
    assert_eq!(v, vec![2, 5, 9]);
    assert!(state_set::contains(&v, 9));
    assert!(!state_set::contains(&v, 3));

    let mut w = vec![1, 5];
    state_set::union_with(&mut w, &v);
    assert_eq!(w, vec![1, 2, 5, 9]);
    state_set::intersect_with(&mut w, &vec![9, 1, 7]);
    assert_eq!(w, vec![1, 9]);
    assert!(state_set::is_disjoint(&w, &vec![2, 5]));
    assert!(!state_set::is_disjoint(&w, &vec![2, 9]));

    let mut o = vec![1, 3, 3, 8];
    state_set::insert_ordered(&mut o, 3);
    state_set::insert_ordered(&mut o, 0);
    state_set::insert_ordered(&mut o, 9);
    assert_eq!(o, vec![0, 1, 3, 3, 3, 8, 9]);
    assert!(state_set::same(&o, &state_set::copy(&o)));
    let mut e = vec![4];
    state_set::extend(&mut e, &vec![2, 4]);
    assert_eq!(e, vec![4, 2, 4]);
}
