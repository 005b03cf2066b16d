use bplus_tree::codec::{Internal, Leaf, LeafEntry, Node};
use bplus_tree::key::Key;
use bplus_tree::page::SlottedPage;
use bplus_tree::store::{Page, PageType, NULL_PAGE, PAGE_SIZE};

fn entry(key: &[u8], value: &[u8]) -> LeafEntry {
    LeafEntry { key: Key::from(key), value: value.to_vec() }
}

fn sample_leaf() -> Leaf {
    Leaf { entries: vec![entry(b"ab", b"xyz"), entry(b"c", b""), entry(b"d", b"1")], next: Some(9) }
}

fn sample_internal() -> Internal {
    Internal { keys: vec![Key::from("b"), Key::from("dd")], children: vec![3, 258, 5] }
}

#[test]
fn the_bytes_of_a_leaf() {
    let page = sample_leaf().serialize();
    assert_eq!(page[0], 1);
    assert_eq!(page[1..3], [3, 0]);
    assert_eq!(page[5..13], [9, 0, 0, 0, 0, 0, 0, 0]);
    // Cells of nine, five and six bytes, stacked from the end of the page.
    let first = PAGE_SIZE - 9;
    let last = first - 5 - 6;
    assert_eq!(page[3..5], (last as u16).to_le_bytes());
    assert_eq!(page[16..18], (first as u16).to_le_bytes());
    assert_eq!(page[18..20], ((first - 5) as u16).to_le_bytes());
    assert_eq!(page[20..22], (last as u16).to_le_bytes());
    assert_eq!(page[22..24], [0, 0]);
    assert_eq!(page[first..], [2, 0, 3, 0, b'a', b'b', b'x', b'y', b'z']);
    assert_eq!(page[first - 5..first], [1, 0, 0, 0, b'c']);
}

#[test]
fn the_bytes_of_an_inner_node() {
    let page = sample_internal().serialize();
    assert_eq!(page[0], 2);
    assert_eq!(page[1..3], [2, 0]);
    assert_eq!(page[5..13], [3, 0, 0, 0, 0, 0, 0, 0]);
    let first = PAGE_SIZE - 11;
    assert_eq!(page[16..18], (first as u16).to_le_bytes());
    assert_eq!(page[first..], [1, 0, b'b', 2, 1, 0, 0, 0, 0, 0, 0]);
}

#[test]
fn an_empty_leaf_has_no_next_page() {
    let page = Leaf::new().serialize();
    assert_eq!(page[5..13], [255u8; 8]);
    assert_eq!(page[3..5], (PAGE_SIZE as u16).to_le_bytes());
    let leaf = Leaf::deserialize(&page).unwrap();
    assert_eq!(leaf.entries.len(), 0);
    assert_eq!(leaf.next, None);
    assert_eq!(SlottedPage(&page).next_leaf(), NULL_PAGE);
}

#[test]
fn a_leaf_is_read_back() {
    let leaf = Leaf::deserialize(&sample_leaf().serialize()).unwrap();
    assert_eq!(leaf.next, Some(9));
    let got: Vec<(Vec<u8>, Vec<u8>)> =
        leaf.entries.iter().map(|e| (e.key.as_bytes().to_vec(), e.value.clone())).collect();
    assert_eq!(
        got,
        vec![
            (b"ab".to_vec(), b"xyz".to_vec()),
            (b"c".to_vec(), b"".to_vec()),
            (b"d".to_vec(), b"1".to_vec()),
        ]
    );
}

#[test]
fn an_inner_node_is_read_back() {
    let node = Internal::deserialize(&sample_internal().serialize()).unwrap();
    assert_eq!(node.keys, vec![Key::from("b"), Key::from("dd")]);
    assert_eq!(node.children, vec![3, 258, 5]);
    let empty = Internal::deserialize(&Internal::new().serialize()).unwrap();
    assert_eq!(empty.keys.len(), 0);
    assert_eq!(empty.children.len(), 0);
}

#[test]
fn a_node_is_read_back_as_what_it_is() {
    let node = Node::deserialize(&Node::from(sample_leaf()).serialize());
    assert!(node.is_leaf() && !node.is_internal());
    assert_eq!(node.key_count(), 3);
    assert!(Leaf::try_from(node).is_ok());
    let node = Node::deserialize(&Node::from(sample_internal()).serialize());
    assert!(node.is_internal() && !node.is_leaf());
    assert_eq!(node.key_count(), 2);
    assert_eq!(Leaf::try_from(node).err(), Some("Not a leaf"));
    let node = Node::from(sample_leaf());
    assert_eq!(Internal::try_from(node).err(), Some("Not an internal node"));
    assert!(Internal::try_from(Node::from(sample_internal())).is_ok());
}

#[test]
fn a_full_page_is_read_back() {
    // Six entries of 1360 bytes and their slots fill the page but for four bytes.
    let entries: Vec<LeafEntry> = (0..6u8).map(|i| entry(&[i], &vec![i; 1355])).collect();
    let leaf = Leaf { entries, next: None };
    let node = Node::from(leaf);
    assert!(node.fits());
    let back = Leaf::try_from(Node::deserialize(&node.serialize())).ok().unwrap();
    assert_eq!(back.entries.len(), 6);
    for (i, e) in back.entries.iter().enumerate() {
        assert_eq!(e.key.as_bytes(), [i as u8]);
        assert_eq!(e.value, vec![i as u8; 1355]);
    }
}

#[test]
fn where_a_node_ceases_to_fit() {
    // Head and slot take up eighteen bytes, the cell four and its key and value.
    let fits = |n: usize| Node::from(Leaf { entries: vec![entry(b"k", &vec![0; n])], next: None }).fits();
    assert!(fits(PAGE_SIZE - 23));
    assert!(!fits(PAGE_SIZE - 22));
    let key = |n: usize| {
        Node::from(Internal { keys: vec![Key::from(vec![0; n])], children: vec![1, 2] }).fits()
    };
    assert!(key(PAGE_SIZE - 28));
    assert!(!key(PAGE_SIZE - 27));
}

#[test]
fn a_page_is_read_in_place() {
    let bytes = sample_leaf().serialize();
    let page = SlottedPage(&bytes);
    assert!(page.is_leaf());
    assert_eq!(page.cell_count(), 3);
    assert_eq!(page.next_leaf(), 9);
    assert_eq!(page.get_leaf_key(0), b"ab");
    assert_eq!(page.get_leaf_value(0), b"xyz");
    assert_eq!(page.get_leaf_key(2), b"d");
    assert_eq!(page.get_leaf_value(1), b"");
    assert_eq!(page.leaf_find(b"ab"), Ok(0));
    assert_eq!(page.leaf_find(b"c"), Ok(1));
    assert_eq!(page.leaf_find(b"a"), Err(0));
    assert_eq!(page.leaf_find(b"abc"), Err(1));
    assert_eq!(page.leaf_find(b"z"), Err(3));
}

#[test]
fn a_route_goes_to_the_left_of_an_equal_separator() {
    let bytes = sample_internal().serialize();
    let page = SlottedPage(&bytes);
    assert!(!page.is_leaf());
    assert_eq!(page.leftmost_child(), 3);
    assert_eq!(page.get_internal_key(1), b"dd");
    assert_eq!(page.get_internal_child(0), 258);
    assert_eq!(page.internal_route(b"a"), (0, 3));
    assert_eq!(page.internal_route(b"b"), (0, 3));
    assert_eq!(page.internal_route(b"c"), (1, 258));
    assert_eq!(page.internal_route(b"dd"), (1, 258));
    assert_eq!(page.internal_route(b"de"), (2, 5));
}

#[test]
fn a_child_index_goes_to_the_right_of_an_equal_separator() {
    let node = sample_internal();
    assert_eq!(node.child_index(&Key::from("a")), 0);
    assert_eq!(node.child_index(&Key::from("b")), 1);
    assert_eq!(node.child_index(&Key::from("dd")), 2);
    assert_eq!(node.child_index(&Key::from("z")), 2);
}

#[test]
fn places_among_entries() {
    let leaf = sample_leaf();
    assert_eq!(leaf.find_pos(&Key::from("ab")), Ok(0));
    assert_eq!(leaf.find_pos(&Key::from("b")), Err(1));
    assert_eq!(leaf.find_pos(&Key::from("d")), Ok(2));
    assert_eq!(leaf.find_pos(&Key::from("e")), Err(3));
}

#[test]
fn page_types_and_their_bytes() {
    assert_eq!(u8::from(PageType::Leaf), 1);
    assert_eq!(u8::from(PageType::Internal), 2);
    assert_eq!(PageType::from_byte(1), PageType::Leaf);
    assert_eq!(PageType::from_byte(2), PageType::Internal);
}

#[test]
fn a_page_starts_out_blank() {
    let page = Page::default();
    assert_eq!(page.len(), PAGE_SIZE);
    assert!(page.iter().all(|b| *b == 0));
    let mut other = page.clone();
    other.0[7] = 1;
    assert_eq!(page.0[7], 0);
    assert_eq!(other.clone().0[7], 1);
}

#[test]
fn keys_from_bytes_and_text() {
    assert_eq!(Key::from(vec![1u8, 2]).as_bytes(), [1, 2]);
    assert_eq!(Key::from(&[1u8, 2][..]).as_bytes(), [1, 2]);
    assert_eq!(Key::from([1u8, 2]).as_bytes(), [1, 2]);
    assert_eq!(Key::from(&[1u8, 2]).as_bytes(), [1, 2]);
    assert_eq!(Key::from("h\u{e9}").as_bytes(), [b'h', 0xc3, 0xa9]);
    assert_eq!(Key::from(String::from("hi")).as_bytes(), b"hi");
    assert_eq!(Key::from("hi").len(), 2);
    assert_eq!(Key::from("").len(), 0);
}

#[test]
fn keys_from_numbers_have_the_low_byte_first() {
    assert_eq!(Key::from(7u8).as_bytes(), [7]);
    assert_eq!(Key::from(0x0102u16).as_bytes(), [2, 1]);
    assert_eq!(Key::from(0x01020304u32).as_bytes(), [4, 3, 2, 1]);
    assert_eq!(Key::from(1u64).as_bytes(), [1, 0, 0, 0, 0, 0, 0, 0]);
    assert_eq!(Key::from(258u128).as_bytes(), 258u128.to_le_bytes());
    assert_eq!(Key::from(258usize).as_bytes(), 258usize.to_le_bytes());
    assert_eq!(Key::from(-1i8).as_bytes(), [255]);
    assert_eq!(Key::from(-2i16).as_bytes(), [254, 255]);
    assert_eq!(Key::from(-2i32).as_bytes(), (-2i32).to_le_bytes());
    assert_eq!(Key::from(-2i64).as_bytes(), (-2i64).to_le_bytes());
    assert_eq!(Key::from(-2i128).as_bytes(), (-2i128).to_le_bytes());
    assert_eq!(Key::from(-2isize).as_bytes(), (-2isize).to_le_bytes());
}

#[test]
fn keys_from_truth_values_and_characters() {
    assert_eq!(Key::from(true).as_bytes(), [1]);
    assert_eq!(Key::from(false).as_bytes(), [0]);
    assert_eq!(Key::from('a').as_bytes(), [b'a']);
    assert_eq!(Key::from('\u{e9}').as_bytes(), [0xc3, 0xa9]);
    assert_eq!(Key::from('\u{20ac}').as_bytes(), [0xe2, 0x82, 0xac]);
    assert_eq!(Key::from('\u{1f600}').as_bytes(), [0xf0, 0x9f, 0x98, 0x80]);
}

#[test]
fn keys_are_ordered_like_words() {
    assert!(Key::from("a") < Key::from("ab"));
    assert!(Key::from("ab") < Key::from("b"));
    assert!(Key::from("") < Key::from("a"));
    assert!(Key::from("b") > Key::from("ab"));
    assert!(Key::from("ab") <= Key::from("ab"));
    assert_eq!(Key::from("ab"), Key::from("ab"));
    assert_ne!(Key::from("ab"), Key::from("ba"));
    assert_eq!(Key::from("ab").clone(), Key::from("ab"));
    let mut keys = vec![Key::from("c"), Key::from("ab"), Key::from("b")];
    keys.sort();
    assert_eq!(keys, vec![Key::from("ab"), Key::from("b"), Key::from("c")]);
}
