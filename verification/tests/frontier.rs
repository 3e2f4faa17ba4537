use astar_grid::ext::Unfolding;
use astar_grid::frontier::Frontier;

#[test]
fn frontier_starts_empty() {
    let mut open = Frontier::new();
    assert!(open.is_empty());
    assert_eq!(open.len(), 0);
    assert_eq!(open.pop(), None);
}

#[test]
fn frontier_pops_by_ascending_cost() {
    let mut open = Frontier::new();
    open.push(7, 0);
    open.push(3, 1);
    open.push(9, 2);
    open.push(1, 3);
    assert_eq!(open.len(), 4);
    assert_eq!(open.pop(), Some((1, 3)));
    assert_eq!(open.pop(), Some((3, 1)));
    assert_eq!(open.pop(), Some((7, 0)));
    assert_eq!(open.pop(), Some((9, 2)));
    assert_eq!(open.pop(), None);
}

#[test]
fn frontier_breaks_ties_by_order_of_entering() {
    let mut open = Frontier::new();
    open.push(4, 10);
    open.push(2, 11);
    open.push(4, 12);
    open.push(2, 13);
    open.push(2, 14);
    assert_eq!(open.pop(), Some((2, 11)));
    assert_eq!(open.pop(), Some((2, 13)));
    assert_eq!(open.pop(), Some((2, 14)));
    assert_eq!(open.pop(), Some((4, 10)));
    assert_eq!(open.pop(), Some((4, 12)));
    assert!(open.is_empty());
}

#[test]
fn frontier_keeps_duplicates() {
    let mut open = Frontier::new();
    open.push(5, 1);
    open.push(5, 1);
    open.push(4, 1);
    assert_eq!(open.len(), 3);
    assert_eq!(open.get(0), (5, 1));
    assert_eq!(open.get(2), (4, 1));
    assert_eq!(open.pop(), Some((4, 1)));
    assert_eq!(open.get(0), (5, 1));
    assert_eq!(open.get(1), (5, 1));
    assert_eq!(open.len(), 2);
}

#[test]
fn frontier_takes_entries_between_pops() {
    let mut open = Frontier::new();
    open.push(6, 0);
    open.push(8, 1);
    assert_eq!(open.pop(), Some((6, 0)));
    open.push(7, 2);
    open.push(8, 3);
    assert_eq!(open.pop(), Some((7, 2)));
    assert_eq!(open.pop(), Some((8, 1)));
    assert_eq!(open.pop(), Some((8, 3)));
}

#[test]
fn unfold_counts_down() {
    let mut walk = Some(3u32).unfold(|n: &u32| if *n == 0 { None } else { Some(*n - 1) });
    assert_eq!(walk.next(), Some(3));
    assert_eq!(walk.next(), Some(2));
    assert_eq!(walk.next(), Some(1));
    assert_eq!(walk.next(), Some(0));
    assert_eq!(walk.next(), None);
    assert_eq!(walk.next(), None);
}

#[test]
fn unfold_from_nothing_is_empty() {
    let mut walk = None.unfold(|n: &u32| Some(*n + 1));
    assert_eq!(walk.next(), None);
    assert_eq!(walk.next(), None);
}

#[test]
fn unfold_follows_links() {
    let prev: Vec<Option<usize>> = vec![None, Some(0), Some(0), Some(2), Some(3)];
    let mut walk = Some(4usize).unfold(|i: &usize| prev[*i]);
    let mut seen = Vec::new();
    while let Some(i) = walk.next() {
        seen.push(i);
    }
    assert_eq!(seen, vec![4, 3, 2, 0]);
}
