use bplus_tree::key::Key;
use bplus_tree::medium::{InMemoryMedium, Medium};
use bplus_tree::normal_btree::{BPlusTree, Bound, LeafIter, TreeError};
use bplus_tree::pool::{BpmError, BufferPoolManager};
use bplus_tree::store::{Page, PageId};
use std::cell::RefCell;
use std::collections::BTreeMap;
use std::rc::Rc;

fn tree_of(t: usize, frames: usize, keys: &[u8]) -> BPlusTree<InMemoryMedium> {
    let mut tree = BPlusTree::new(t, BufferPoolManager::new(InMemoryMedium::new(), frames)).unwrap();
    for k in keys {
        tree.insert(Key::from(*k), vec![*k, *k]).unwrap();
    }
    tree
}

fn find(tree: &mut BPlusTree<InMemoryMedium>, k: u8) -> Option<Vec<u8>> {
    tree.search(&Key::from(k)).unwrap()
}

fn keys_of(tree: &mut BPlusTree<InMemoryMedium>) -> Vec<u8> {
    let mut it = tree.iter().unwrap();
    let mut out = vec![];
    while let Some((k, _)) = it.next(tree) {
        out.push(k.as_bytes()[0]);
    }
    out
}

fn range(tree: &mut BPlusTree<InMemoryMedium>, start: u8, end: Bound<Key>) -> Vec<u8> {
    let mut it = tree.range_from(&Key::from(start), end).unwrap();
    let mut out = vec![];
    while let Some((k, _)) = it.next(tree) {
        out.push(k.as_bytes()[0]);
    }
    out
}

fn shape(tree: &mut BPlusTree<InMemoryMedium>) -> Vec<(usize, bool, Vec<u8>)> {
    let outline = tree.print_tree().unwrap();
    outline
        .lines
        .iter()
        .map(|l| (l.depth, l.leaf, l.keys.iter().map(|k| k.as_bytes()[0]).collect()))
        .collect()
}

/// A medium that fails when it is told to.
struct Frail {
    inner: InMemoryMedium,
    left: usize,
}

impl Frail {
    fn spend(&mut self) -> Result<(), &'static str> {
        if self.left == 0 {
            return Err("spent");
        }
        self.left -= 1;
        Ok(())
    }
}

impl Medium for Frail {
    type Error = &'static str;

    fn read_page(&mut self, id: PageId) -> Result<Page, &'static str> {
        self.spend()?;
        self.inner.read_page(id).map_err(|_| "no such page")
    }

    fn write_page(&mut self, id: PageId, data: &Page) -> Result<(), &'static str> {
        self.spend()?;
        self.inner.write_page(id, data).map_err(|_| "no such page")
    }

    fn allocate_page(&mut self) -> Result<PageId, &'static str> {
        self.spend()?;
        self.inner.allocate_page().map_err(|_| "no page")
    }

    fn free_page(&mut self, id: PageId) -> Result<(), &'static str> {
        self.spend()?;
        self.inner.free_page(id).map_err(|_| "no such page")
    }
}

#[test]
fn an_empty_tree_on_pages() {
    let mut tree = tree_of(2, 4, &[]);
    assert_eq!(tree.len(), 0);
    assert!(tree.is_empty());
    assert_eq!(find(&mut tree, 1), None);
    assert_eq!(keys_of(&mut tree), vec![]);
    assert_eq!(shape(&mut tree), vec![(0, true, vec![])]);
    assert_eq!(tree.remove(&Key::from(1u8)).unwrap(), None);
}

#[test]
fn the_shape_of_seven_entries() {
    let mut tree = tree_of(2, 8, &[1, 2, 3, 4, 5, 6, 7]);
    assert_eq!(tree.len(), 7);
    assert_eq!(
        shape(&mut tree),
        vec![
            (0, false, vec![3, 5]),
            (1, true, vec![1, 2]),
            (1, true, vec![3, 4]),
            (1, true, vec![5, 6, 7]),
        ]
    );
    assert_eq!(keys_of(&mut tree), vec![1, 2, 3, 4, 5, 6, 7]);
    let outline = tree.print_tree().unwrap();
    assert_eq!(outline.t, 2);
    assert_eq!(outline.len, 7);
}

#[test]
fn a_lookup_of_a_separator_goes_to_its_left() {
    let mut tree = tree_of(2, 8, &[1, 2, 3, 4, 5, 6, 7]);
    for k in [1, 2, 4, 6, 7] {
        assert_eq!(find(&mut tree, k), Some(vec![k, k]));
    }
    assert_eq!(find(&mut tree, 3), None);
    assert_eq!(find(&mut tree, 5), None);
    assert_eq!(find(&mut tree, 8), None);
}

#[test]
fn an_insertion_of_a_separator_adds_a_second_entry() {
    let mut tree = tree_of(2, 8, &[1, 2, 3, 4]);
    assert_eq!(find(&mut tree, 3), None);
    tree.insert(Key::from(3u8), vec![33]).unwrap();
    assert_eq!(find(&mut tree, 3), Some(vec![33]));
    assert_eq!(tree.len(), 5);
    assert_eq!(keys_of(&mut tree), vec![1, 2, 3, 3, 4]);
}

#[test]
fn a_later_value_replaces_an_earlier_one_on_pages() {
    let mut tree = tree_of(3, 8, &[1, 2, 3]);
    tree.insert(Key::from(2u8), vec![9]).unwrap();
    assert_eq!(tree.len(), 3);
    assert_eq!(find(&mut tree, 2), Some(vec![9]));
}

#[test]
fn removals_from_a_tree_on_pages() {
    let keys: Vec<u8> = (1..13).collect();
    let mut tree = tree_of(3, 8, &keys);
    assert_eq!(
        shape(&mut tree),
        vec![
            (0, false, vec![4, 8]),
            (1, true, vec![1, 2, 3]),
            (1, true, vec![4, 5, 6, 7]),
            (1, true, vec![8, 9, 10, 11, 12]),
        ]
    );
    assert_eq!(tree.remove(&Key::from(1u8)).unwrap(), Some(vec![1, 1]));
    assert_eq!(tree.remove(&Key::from(12u8)).unwrap(), Some(vec![12, 12]));
    assert_eq!(tree.remove(&Key::from(7u8)).unwrap(), Some(vec![7, 7]));
    assert_eq!(tree.remove(&Key::from(7u8)).unwrap(), None);
    assert_eq!(tree.len(), 9);
    assert_eq!(find(&mut tree, 7), None);
    assert_eq!(keys_of(&mut tree), vec![2, 3, 4, 5, 6, 8, 9, 10, 11]);
}

#[test]
fn a_removal_can_run_into_an_empty_leaf() {
    let mut tree = tree_of(2, 8, &[7, 6, 5, 4, 3, 2, 1, 0]);
    for k in [7u8, 1, 2, 6, 4, 5, 0] {
        assert!(tree.remove(&Key::from(k)).is_ok());
    }
    assert!(matches!(tree.remove(&Key::from(7u8)), Err(TreeError::EmptyLeaf)));
}

#[test]
fn an_entry_that_does_not_fit_is_refused() {
    let mut tree = tree_of(2, 8, &[1]);
    assert!(tree.insert(Key::from(2u8), vec![0; 8000]).is_ok());
    assert!(matches!(tree.insert(Key::from(3u8), vec![0; 8000]), Err(TreeError::PageFull)));
}

#[test]
fn ranges_of_a_tree_on_pages() {
    let keys: Vec<u8> = (1..21).collect();
    let mut tree = tree_of(3, 4, &keys);
    assert_eq!(range(&mut tree, 2, Bound::Included(Key::from(6u8))), vec![2, 3, 4, 5, 6]);
    assert_eq!(range(&mut tree, 2, Bound::Excluded(Key::from(6u8))), vec![2, 3, 4, 5]);
    assert_eq!(range(&mut tree, 18, Bound::Unbounded), vec![18, 19, 20]);
    assert_eq!(range(&mut tree, 21, Bound::Unbounded), vec![]);
    assert_eq!(range(&mut tree, 5, Bound::Included(Key::from(4u8))), vec![]);
    assert_eq!(range(&mut tree, 0, Bound::Unbounded), keys);
}

#[test]
fn a_walk_on_pages_that_has_ended_stays_ended() {
    let mut tree = tree_of(2, 4, &[1, 2]);
    let mut it = tree.range_from(&Key::from(1u8), Bound::Included(Key::from(1u8))).unwrap();
    assert_eq!(it.next(&mut tree), Some((Key::from(1u8), vec![1, 1])));
    assert_eq!(it.next(&mut tree), None);
    assert_eq!(it.next(&mut tree), None);
}

#[test]
fn many_entries_through_few_frames() {
    let pool = BufferPoolManager::new(InMemoryMedium::new(), 3);
    let mut tree = BPlusTree::new(4, pool).unwrap();
    let mut map: BTreeMap<Vec<u8>, Vec<u8>> = BTreeMap::new();
    let mut seed: u64 = 5;
    for _ in 0..1500 {
        seed = seed.wrapping_mul(6364136223846793005).wrapping_add(1442695040888963407);
        let k = (seed >> 20).to_be_bytes().to_vec();
        tree.insert(Key::from(k.clone()), k[3..].to_vec()).unwrap();
        map.insert(k.clone(), k[3..].to_vec());
        assert_eq!(tree.len(), map.len());
    }
    let mut it = tree.iter().unwrap();
    let mut got = vec![];
    while let Some((k, v)) = it.next(&mut tree) {
        got.push((k.as_bytes().to_vec(), v));
    }
    let all: Vec<(Vec<u8>, Vec<u8>)> = map.into_iter().collect();
    assert_eq!(got, all);
    let lines = tree.print_tree().unwrap().lines;
    let leaves: Vec<usize> = lines.iter().filter(|l| l.leaf).map(|l| l.depth).collect();
    assert!(leaves.iter().all(|d| *d == leaves[0]));
    for l in &lines {
        assert!(l.depth == 0 || !l.leaf || l.keys.len() >= 3);
    }
}

#[test]
fn lookups_find_what_no_separator_hides() {
    let keys: Vec<u8> = (0..200).collect();
    let mut tree = tree_of(3, 6, &keys);
    let lines = tree.print_tree().unwrap().lines;
    let mut separators = vec![];
    for l in lines.iter().filter(|l| !l.leaf) {
        for k in &l.keys {
            separators.push(k.as_bytes()[0]);
        }
    }
    assert!(separators.len() > 30);
    for k in keys {
        let expected = if separators.contains(&k) { None } else { Some(vec![k, k]) };
        assert_eq!(find(&mut tree, k), expected);
    }
}

#[test]
fn a_tree_needs_a_frame() {
    let pool = BufferPoolManager::new(InMemoryMedium::new(), 0);
    assert!(matches!(BPlusTree::new(2, pool), Err(BpmError::BufferFull)));
}

#[test]
fn one_frame_is_too_few_to_go_down() {
    let pool = BufferPoolManager::new(InMemoryMedium::new(), 1);
    let mut tree = BPlusTree::new(2, pool).unwrap();
    for k in 1..4u8 {
        tree.insert(Key::from(k), vec![k]).unwrap();
    }
    assert!(matches!(
        tree.insert(Key::from(4u8), vec![4]),
        Err(TreeError::Pool(BpmError::BufferFull))
    ));
}

#[test]
fn a_failing_medium_is_reported() {
    let store = BufferPoolManager::new(Frail { inner: InMemoryMedium::new(), left: 0 }, 4);
    assert!(matches!(BPlusTree::new(2, store), Err(BpmError::Medium("spent"))));
    let store = BufferPoolManager::new(Frail { inner: InMemoryMedium::new(), left: 5 }, 4);
    let mut tree = BPlusTree::new(2, store).unwrap();
    let mut failed = false;
    for k in 0..10u8 {
        match tree.insert(Key::from(k), vec![k]) {
            Ok(()) => {}
            Err(TreeError::Pool(BpmError::Medium(text))) => {
                assert_eq!(text, "spent");
                failed = true;
                break;
            }
            Err(_) => panic!("another error"),
        }
    }
    assert!(failed);
}

/// What a medium was asked for, and what it refuses.
#[derive(Default)]
struct Log {
    allocated: Vec<PageId>,
    freed: Vec<PageId>,
    read: Vec<PageId>,
    refuses_reads: bool,
    refuses_writes: bool,
}

/// A medium in memory that is watched from outside.
struct Watched {
    inner: InMemoryMedium,
    log: Rc<RefCell<Log>>,
}

impl Medium for Watched {
    type Error = &'static str;

    fn read_page(&mut self, id: PageId) -> Result<Page, &'static str> {
        if self.log.borrow().refuses_reads {
            return Err("no read");
        }
        self.log.borrow_mut().read.push(id);
        self.inner.read_page(id).map_err(|_| "no such page")
    }

    fn write_page(&mut self, id: PageId, data: &Page) -> Result<(), &'static str> {
        if self.log.borrow().refuses_writes {
            return Err("no write");
        }
        self.inner.write_page(id, data).map_err(|_| "no such page")
    }

    fn allocate_page(&mut self) -> Result<PageId, &'static str> {
        let id = self.inner.allocate_page().map_err(|_| "no page")?;
        self.log.borrow_mut().allocated.push(id);
        Ok(id)
    }

    fn free_page(&mut self, id: PageId) -> Result<(), &'static str> {
        self.log.borrow_mut().freed.push(id);
        self.inner.free_page(id).map_err(|_| "no such page")
    }
}

fn watched(frames: usize, keys: &[u8]) -> (BPlusTree<Watched>, Rc<RefCell<Log>>) {
    let log = Rc::new(RefCell::new(Log::default()));
    let medium = Watched { inner: InMemoryMedium::new(), log: log.clone() };
    let mut tree = BPlusTree::new(2, BufferPoolManager::new(medium, frames)).unwrap();
    for k in keys {
        tree.insert(Key::from(*k), vec![*k]).unwrap();
    }
    (tree, log)
}

#[test]
fn nodes_keep_their_pages_in_order() {
    let (mut tree, log) = watched(2, &[1, 2, 3, 4, 5, 6, 7]);
    assert_eq!(log.borrow().allocated, vec![0, 1, 2, 3]);
    assert_eq!(log.borrow().freed, vec![]);
    log.borrow_mut().read.clear();
    let mut it = tree.iter().unwrap();
    let mut n = 0;
    while it.next(&mut tree).is_some() {
        n += 1;
    }
    assert_eq!(n, 7);
    let mut leaves: Vec<PageId> = log.borrow().read.iter().copied().filter(|id| *id != 1).collect();
    leaves.dedup();
    assert!(leaves.ends_with(&[2, 3]));
}

#[test]
fn the_last_page_of_the_window_is_given_back() {
    let (mut tree, log) = watched(8, &[1, 2, 3, 4, 5, 6, 7]);
    assert_eq!(tree.remove(&Key::from(1u8)).unwrap(), Some(vec![1]));
    assert_eq!(log.borrow().freed, vec![]);
    assert_eq!(tree.remove(&Key::from(2u8)).unwrap(), Some(vec![2]));
    assert_eq!(log.borrow().freed, vec![2]);
    assert_eq!(log.borrow().allocated, vec![0, 1, 2, 3]);
    let lines = tree.print_tree().unwrap().lines;
    let keys: Vec<Vec<u8>> =
        lines.iter().map(|l| l.keys.iter().map(|k| k.as_bytes()[0]).collect()).collect();
    assert_eq!(keys, vec![vec![5], vec![3, 4], vec![5, 6, 7]]);
}

#[test]
fn a_walk_brings_the_next_leaf_in_ahead() {
    let (mut tree, log) = watched(2, &[1, 2, 3, 4, 5, 6, 7]);
    let mut it = tree.iter().unwrap();
    log.borrow_mut().read.clear();
    assert_eq!(it.next(&mut tree).unwrap().1, vec![1]);
    assert_eq!(log.borrow().read, vec![2]);
    assert_eq!(it.next(&mut tree).unwrap().1, vec![2]);
    assert_eq!(log.borrow().read, vec![2]);
    assert_eq!(it.next(&mut tree).unwrap().1, vec![3]);
    assert_eq!(log.borrow().read, vec![2, 3]);
}

/// What a walk gives, up to some number of entries.
fn given(it: &mut LeafIter, tree: &mut BPlusTree<Watched>, most: usize) -> Vec<u8> {
    let mut out = vec![];
    while out.len() < most {
        match it.next(tree) {
            Some((k, _)) => out.push(k.as_bytes()[0]),
            None => break,
        }
    }
    out
}

#[test]
fn a_walk_gives_the_leaf_at_hand_when_the_next_one_cannot_be_had() {
    let (mut tree, log) = watched(2, &[1, 2, 3, 4, 5, 6, 7]);
    let mut it = tree.iter().unwrap();
    log.borrow_mut().refuses_reads = true;
    assert_eq!(given(&mut it, &mut tree, 2), vec![1, 2]);
}

#[test]
fn a_walk_strays_where_a_page_is_lost() {
    let (mut tree, log) = watched(2, &[1, 2, 3, 4, 5, 6, 7]);
    let mut it = tree.iter().unwrap();
    assert_eq!(given(&mut it, &mut tree, 1), vec![1]);
    log.borrow_mut().refuses_reads = true;
    // The frame that was to take the last leaf still holds the first one.
    assert_eq!(given(&mut it, &mut tree, 9), vec![2, 3, 4, 1, 2, 3, 4, 1, 2]);
    log.borrow_mut().refuses_reads = false;
    assert_eq!(given(&mut it, &mut tree, 3), vec![3, 4, 1]);
}

#[test]
fn a_walk_ends_where_a_page_is_lost_to_an_inner_node() {
    let (mut tree, log) = watched(3, &[1, 2, 3, 4, 5, 6, 7]);
    let mut it = tree.iter().unwrap();
    assert_eq!(given(&mut it, &mut tree, 1), vec![1]);
    log.borrow_mut().refuses_reads = true;
    assert_eq!(given(&mut it, &mut tree, 9), vec![2, 3, 4]);
    assert_eq!(it.next(&mut tree), None);
}

#[test]
fn reading_goes_on_beside_a_lost_page() {
    let (mut tree, log) = watched(3, &[1, 2, 3, 4, 5, 6, 7]);
    let mut it = tree.range_from(&Key::from(3u8), Bound::Unbounded).unwrap();
    log.borrow_mut().refuses_reads = true;
    assert_eq!(it.next(&mut tree).unwrap().1, vec![3]);
    log.borrow_mut().refuses_reads = false;
    assert_eq!(tree.len(), 7);
    assert_eq!(tree.search(&Key::from(1u8)).unwrap(), Some(vec![1]));
    assert_eq!(tree.search(&Key::from(4u8)).unwrap(), Some(vec![4]));
    let mut it = tree.iter().unwrap();
    assert_eq!(given(&mut it, &mut tree, 4), vec![1, 2, 3, 4]);
}

#[test]
fn a_leaf_is_written_though_its_slots_reach_into_its_cells() {
    let mut tree = tree_of(2, 4, &[]);
    assert!(tree.is_neat());
    assert!(tree.insert(Key::from(1u8), vec![7; 8180]).is_ok());
    assert_eq!(tree.len(), 1);
    assert!(!tree.is_neat());
    let mut tree = tree_of(2, 4, &[]);
    assert!(matches!(tree.insert(Key::from(1u8), vec![7; 8188]), Err(TreeError::PageFull)));
    let mut tree = tree_of(2, 4, &[]);
    assert!(tree.insert(Key::from(1u8), vec![7; 8169]).is_ok());
    assert!(tree.is_neat());
    assert_eq!(find(&mut tree, 1), Some(vec![7; 8169]));
}

#[test]
fn a_window_is_read_to_be_counted_and_read_again() {
    let (mut tree, log) = watched(2, &[1, 2, 3, 4]);
    assert_eq!(log.borrow().allocated, vec![0, 1, 2]);
    tree.insert(Key::from(5u8), vec![5]).unwrap();
    log.borrow_mut().read.clear();
    tree.insert(Key::from(6u8), vec![6]).unwrap();
    assert_eq!(log.borrow().allocated, vec![0, 1, 2, 3]);
    // Counted, looked at, gathered; a page for one more; written; the separators read back.
    assert_eq!(log.borrow().read, vec![0, 2, 0, 2, 0, 2, 3, 0, 2, 3, 2, 3]);
}

#[test]
fn one_frame_is_enough_for_a_single_leaf() {
    let (mut tree, _) = watched(1, &[1, 2, 3]);
    assert_eq!(tree.search(&Key::from(2u8)).unwrap(), Some(vec![2]));
    assert_eq!(tree.remove(&Key::from(2u8)).unwrap(), Some(vec![2]));
    let mut it = tree.iter().unwrap();
    assert_eq!(given(&mut it, &mut tree, 9), vec![1, 3]);
    let mut it = tree.range_from(&Key::from(2u8), Bound::Unbounded).unwrap();
    assert_eq!(given(&mut it, &mut tree, 9), vec![3]);
    assert_eq!(tree.print_tree().unwrap().lines.len(), 1);
}

#[test]
fn a_walk_asks_again_for_a_leaf_that_could_not_be_brought_in_ahead() {
    let (mut tree, log) = watched(3, &[1, 2, 3, 4, 5, 6, 7]);
    let mut it = tree.iter().unwrap();
    log.borrow_mut().refuses_writes = true;
    log.borrow_mut().refuses_reads = true;
    assert_eq!(it.next(&mut tree).unwrap().1, vec![1]);
    log.borrow_mut().refuses_writes = false;
    log.borrow_mut().refuses_reads = false;
    let mut rest = vec![];
    while let Some((_, v)) = it.next(&mut tree) {
        rest.push(v[0]);
    }
    assert_eq!(rest, vec![2, 3, 4, 5, 6, 7]);
}
