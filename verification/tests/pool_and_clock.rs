use bplus_tree::clock::ClockReplacer;
use bplus_tree::medium::{InMemoryMedium, InMemoryMediumError, Medium};
use bplus_tree::pool::{BpmError, BufferPoolManager};
use bplus_tree::store::{Page, PageId};
use std::cell::RefCell;
use std::rc::Rc;

fn page_of(b: u8) -> Page {
    let mut page = Page::default();
    page.0[0] = b;
    page.0[8191] = b;
    page
}

fn write(pool: &mut BufferPoolManager<InMemoryMedium>, id: PageId, b: u8) {
    let guard = pool.write(id).unwrap();
    pool.set_page(&guard, page_of(b));
    pool.release_written(guard);
}

fn read(pool: &mut BufferPoolManager<InMemoryMedium>, id: PageId) -> u8 {
    let guard = pool.read(id).unwrap();
    let b = pool.page(&guard).0[0];
    assert_eq!(pool.page(&guard).0[8191], b);
    pool.release(guard);
    b
}

fn allocate(pool: &mut BufferPoolManager<InMemoryMedium>) -> PageId {
    let (id, guard) = pool.allocate().unwrap();
    pool.release_written(guard);
    id
}

#[test]
fn frames_that_nobody_used_go_first() {
    let mut clock = ClockReplacer::new(3);
    assert_eq!(clock.victim(), Some(0));
    assert_eq!(clock.victim(), Some(1));
    assert_eq!(clock.victim(), Some(2));
    assert_eq!(clock.victim(), None);
}

#[test]
fn a_frame_that_was_used_gets_a_second_chance() {
    let mut clock = ClockReplacer::new(3);
    clock.pin(0);
    clock.unpin(0);
    assert_eq!(clock.victim(), Some(1));
    assert_eq!(clock.victim(), Some(2));
    assert_eq!(clock.victim(), Some(0));
}

#[test]
fn a_pinned_frame_is_no_victim() {
    let mut clock = ClockReplacer::new(2);
    clock.pin(0);
    assert_eq!(clock.victim(), Some(1));
    assert_eq!(clock.victim(), None);
    clock.unpin(0);
    assert_eq!(clock.victim(), Some(0));
}

#[test]
fn when_all_were_used_the_first_one_goes() {
    let mut clock = ClockReplacer::new(3);
    for f in 0..3 {
        clock.pin(f);
        clock.unpin(f);
    }
    assert_eq!(clock.victim(), Some(0));
}

#[test]
fn a_clock_without_frames_has_no_victim() {
    let mut clock = ClockReplacer::new(0);
    assert_eq!(clock.victim(), None);
}

#[test]
fn a_medium_in_memory() {
    let mut medium = InMemoryMedium::new();
    assert_eq!(medium.allocate_page().unwrap(), 0);
    assert_eq!(medium.allocate_page().unwrap(), 1);
    assert_eq!(medium.read_page(1).unwrap().0[0], 0);
    medium.write_page(1, &page_of(5)).unwrap();
    assert_eq!(medium.read_page(1).unwrap().0[0], 5);
    assert_eq!(medium.read_page(0).unwrap().0[0], 0);
    medium.free_page(1).unwrap();
    assert!(medium.read_page(1).is_err());
    assert_eq!(medium.allocate_page().unwrap(), 2);
}

#[test]
fn a_page_that_there_is_not() {
    let mut medium = InMemoryMedium::new();
    let InMemoryMediumError(text) = medium.read_page(7).err().unwrap();
    assert_eq!(text, "page 7 not found");
    let InMemoryMediumError(text) = medium.read_page(1234567890123).err().unwrap();
    assert_eq!(text, "page 1234567890123 not found");
    let InMemoryMediumError(text) = medium.read_page(u64::MAX).err().unwrap();
    assert_eq!(text, "page 18446744073709551615 not found");
}

#[test]
fn a_page_can_be_written_that_was_not_allocated() {
    let mut medium = InMemoryMedium::new();
    medium.write_page(40, &page_of(3)).unwrap();
    assert_eq!(medium.read_page(40).unwrap().0[0], 3);
}

#[test]
fn a_read_gives_back_what_was_written() {
    let mut pool = BufferPoolManager::new(InMemoryMedium::new(), 3);
    let a = allocate(&mut pool);
    let b = allocate(&mut pool);
    write(&mut pool, a, 11);
    write(&mut pool, b, 22);
    assert_eq!(read(&mut pool, a), 11);
    assert_eq!(read(&mut pool, b), 22);
}

#[test]
fn pages_outlive_their_frames() {
    let mut pool = BufferPoolManager::new(InMemoryMedium::new(), 2);
    let ids: Vec<PageId> = (0..20).map(|_| allocate(&mut pool)).collect();
    assert_eq!(ids, (0..20).collect::<Vec<u64>>());
    for (i, id) in ids.iter().enumerate() {
        write(&mut pool, *id, i as u8);
    }
    for (i, id) in ids.iter().enumerate() {
        assert_eq!(read(&mut pool, *id), i as u8);
    }
    for (i, id) in ids.iter().enumerate().rev() {
        assert_eq!(read(&mut pool, *id), i as u8);
    }
}

#[test]
fn a_pool_whose_frames_are_all_held_is_full() {
    let mut pool = BufferPoolManager::new(InMemoryMedium::new(), 2);
    let a = allocate(&mut pool);
    let b = allocate(&mut pool);
    let c = allocate(&mut pool);
    let ga = pool.read(a).unwrap();
    let gb = pool.write(b).unwrap();
    assert!(matches!(pool.read(c), Err(BpmError::BufferFull)));
    assert!(matches!(pool.write(c), Err(BpmError::BufferFull)));
    // A page that is held can be had once more.
    let ga2 = pool.read(a).unwrap();
    pool.release(ga2);
    pool.release(ga);
    let gc = pool.read(c).unwrap();
    pool.release(gc);
    pool.release_written(gb);
}

#[test]
fn a_pool_without_frames_is_full() {
    let mut pool = BufferPoolManager::new(InMemoryMedium::new(), 0);
    assert!(matches!(pool.allocate(), Err(BpmError::BufferFull)));
}

#[test]
fn the_medium_speaks_through_the_pool() {
    let mut pool = BufferPoolManager::new(InMemoryMedium::new(), 2);
    match pool.read(7) {
        Err(BpmError::Medium(InMemoryMediumError(text))) => assert_eq!(text, "page 7 not found"),
        _ => panic!("the page is there"),
    }
}

#[test]
fn a_page_that_was_given_back_is_gone() {
    let mut pool = BufferPoolManager::new(InMemoryMedium::new(), 3);
    let a = allocate(&mut pool);
    let b = allocate(&mut pool);
    write(&mut pool, a, 1);
    write(&mut pool, b, 2);
    pool.free(a).unwrap();
    assert!(matches!(pool.read(a), Err(BpmError::Medium(_))));
    assert_eq!(read(&mut pool, b), 2);
}

#[test]
fn a_new_page_is_blank() {
    let mut pool = BufferPoolManager::new(InMemoryMedium::new(), 1);
    let a = allocate(&mut pool);
    write(&mut pool, a, 9);
    let (b, guard) = pool.allocate().unwrap();
    assert_ne!(a, b);
    assert!(pool.page_of(&guard).0.iter().all(|x| *x == 0));
    pool.release_written(guard);
    assert_eq!(read(&mut pool, a), 9);
}

/// A medium in memory that tells what it was asked for.
struct Told {
    inner: InMemoryMedium,
    told: Rc<RefCell<Vec<(char, PageId)>>>,
}

impl Medium for Told {
    type Error = InMemoryMediumError;

    fn read_page(&mut self, id: PageId) -> Result<Page, InMemoryMediumError> {
        self.told.borrow_mut().push(('r', id));
        self.inner.read_page(id)
    }

    fn write_page(&mut self, id: PageId, data: &Page) -> Result<(), InMemoryMediumError> {
        self.told.borrow_mut().push(('w', id));
        self.inner.write_page(id, data)
    }

    fn allocate_page(&mut self) -> Result<PageId, InMemoryMediumError> {
        let id = self.inner.allocate_page()?;
        self.told.borrow_mut().push(('a', id));
        Ok(id)
    }

    fn free_page(&mut self, id: PageId) -> Result<(), InMemoryMediumError> {
        self.told.borrow_mut().push(('f', id));
        self.inner.free_page(id)
    }
}

#[test]
fn what_the_medium_is_asked_for() {
    let told = Rc::new(RefCell::new(vec![]));
    let medium = Told { inner: InMemoryMedium::new(), told: told.clone() };
    let mut pool = BufferPoolManager::new(medium, 2);
    for _ in 0..3 {
        let (_, guard) = pool.allocate().unwrap();
        pool.release_written(guard);
    }
    let first = vec![('a', 0), ('r', 0), ('a', 1), ('r', 1), ('a', 2), ('w', 1), ('r', 2)];
    assert_eq!(*told.borrow(), first);
    told.borrow_mut().clear();
    let guard = pool.read(0).unwrap();
    pool.release(guard);
    assert_eq!(*told.borrow(), vec![]);
    let guard = pool.read(1).unwrap();
    pool.release(guard);
    assert_eq!(*told.borrow(), vec![('w', 0), ('r', 1)]);
    told.borrow_mut().clear();
    pool.free(2).unwrap();
    assert_eq!(*told.borrow(), vec![('f', 2)]);
    told.borrow_mut().clear();
    let guard = pool.read(0).unwrap();
    pool.release(guard);
    assert_eq!(*told.borrow(), vec![('r', 0)]);
}

#[test]
fn a_frame_stays_pinned_through_any_turns() {
    let mut clock = ClockReplacer::new(3);
    clock.pin(1);
    for _ in 0..4 {
        clock.pin(0);
        clock.unpin(0);
        clock.unpin(2);
        assert_ne!(clock.victim(), Some(1));
        assert_ne!(clock.victim(), Some(1));
    }
    assert_eq!(clock.victim(), None);
}

#[test]
fn only_pages_that_were_written_to_go_back() {
    let told = Rc::new(RefCell::new(vec![]));
    let medium = Told { inner: InMemoryMedium::new(), told: told.clone() };
    let mut pool = BufferPoolManager::new(medium, 1);
    for _ in 0..2 {
        let (_, guard) = pool.allocate().unwrap();
        pool.release_written(guard);
    }
    for (id, writes) in [(0, false), (1, true), (0, false)] {
        if writes {
            let guard = pool.write(id).unwrap();
            pool.release_written(guard);
        } else {
            let guard = pool.read(id).unwrap();
            pool.release(guard);
        }
    }
    let asked: Vec<(char, PageId)> = told.borrow().iter().copied().skip(5).collect();
    assert_eq!(asked, vec![('w', 1), ('r', 0), ('r', 1), ('w', 1), ('r', 0)]);
}

#[test]
fn a_full_pool_asks_the_medium_before_it_refuses() {
    let told = Rc::new(RefCell::new(vec![]));
    let medium = Told { inner: InMemoryMedium::new(), told: told.clone() };
    let mut pool = BufferPoolManager::new(medium, 0);
    assert!(matches!(pool.allocate(), Err(BpmError::BufferFull)));
    assert_eq!(*told.borrow(), vec![('a', 0)]);
}

#[test]
fn a_page_that_could_not_be_read_can_be_given_back() {
    let mut pool = BufferPoolManager::new(InMemoryMedium::new(), 2);
    assert!(matches!(pool.read(0), Err(BpmError::Medium(_))));
    let stray = pool.read(0).unwrap();
    pool.release(stray);
    pool.free(0).unwrap();
    assert!(matches!(pool.read(0), Err(BpmError::Medium(_))));
}
