use lzari::tree::MatchFinder;
use lzari::window::Window;

fn nodes_of(t: &MatchFinder) -> Vec<usize> {
    (0..4096).filter(|p| t.has_node(*p)).collect()
}

fn window_nodes(w: &Window) -> Vec<usize> {
    (0..4096).filter(|p| w.has_node(*p)).collect()
}

fn ranges(a: usize, b: usize) -> Vec<usize> {
    (a..=b).collect()
}

#[test]
fn tree_reports_the_longest_match_on_its_way() {
    let mut t = MatchFinder::new();
    t.init_tree();
    for (i, b) in b"abcabcabd".iter().enumerate() {
        t.put(i, *b);
    }
    assert_eq!(t.byte_at(8), b'd');
    assert_eq!(t.insert_node(0), (0, 0));
    assert_eq!(t.insert_node(3), (3, 5));
    assert_eq!(t.insert_node(6), (3, 0));
    assert_eq!(t.insert_node(1), (3, 0));
    assert_eq!(t.insert_node(4), (3, 4));
    assert_eq!(nodes_of(&t), vec![0, 1, 3, 4, 6]);
    t.delete_node(3);
    assert_eq!(nodes_of(&t), vec![0, 1, 4, 6]);
    t.delete_node(3);
    t.delete_node(0);
    assert_eq!(nodes_of(&t), vec![1, 4, 6]);
    assert_eq!(t.insert_node(7), (3, 0));
    assert_eq!(nodes_of(&t), vec![1, 4, 6, 7]);
}

#[test]
fn equal_strings_keep_only_the_later_position() {
    let mut t = MatchFinder::new();
    t.init_tree();
    assert_eq!(nodes_of(&t), Vec::<usize>::new());
    assert_eq!(t.insert_node(10), (0, 0));
    assert_eq!(t.insert_node(20), (10, 60));
    assert_eq!(nodes_of(&t), vec![20]);
}

#[test]
fn removing_inner_nodes_keeps_the_rest() {
    let mut t = MatchFinder::new();
    t.init_tree();
    let text: Vec<u8> = (0..200u32).map(|i| b'a' + ((i * i + 3 * i) % 5) as u8).collect();
    for (i, b) in text.iter().enumerate() {
        t.put(i, *b);
    }
    let mut live = Vec::new();
    for p in 0..120usize {
        let (_, len) = t.insert_node(p);
        if len == 60 {
            live.clear();
            live.extend(nodes_of(&t));
        } else {
            live.push(p);
            live.sort();
        }
        assert_eq!(nodes_of(&t), live);
    }
    for p in (0..120usize).step_by(3) {
        t.delete_node(p);
        live.retain(|q| *q != p);
        assert_eq!(nodes_of(&t), live);
    }
    for p in 0..120usize {
        t.delete_node(p);
        live.retain(|q| *q != p);
        assert_eq!(nodes_of(&t), live);
    }
    assert_eq!(nodes_of(&t), Vec::<usize>::new());
}

#[test]
fn short_input_slides_without_reading() {
    let mut w = Window::new();
    assert_eq!(w.start(b"xyzxyzxyzxyz"), (4095, 0));
    assert_eq!(w.lookahead(), 12);
    assert_eq!(w.front(), b'x');
    assert_eq!(w.front_position(), 4036);
    assert_eq!(window_nodes(&w), ranges(3976, 4036));
    let expected = [
        (4095, 0),
        (4095, 0),
        (3, 9),
        (3, 8),
        (3, 7),
        (3, 6),
        (3, 5),
        (3, 4),
        (3, 3),
        (3, 0),
        (3, 0),
        (0, 0),
    ];
    for (k, want) in expected.iter().enumerate() {
        assert_eq!(w.slide(None), *want);
        assert_eq!(w.lookahead(), 11 - k);
        assert_eq!(w.front_position(), 4037 + k);
        let top = if k < 11 { 4037 + k } else { 4047 };
        assert_eq!(window_nodes(&w), ranges(3976, top));
    }
}

#[test]
fn tree_holds_exactly_the_window_when_nothing_repeats() {
    let mut x: u32 = 123456789;
    let data: Vec<u8> = (0..9000)
        .map(|_| {
            x ^= x << 13;
            x ^= x >> 17;
            x ^= x << 5;
            (x >> 9) as u8
        })
        .collect();
    let mut w = Window::new();
    let (_, len) = w.start(&data);
    assert!(len < 60);
    let mut filled = 61usize;
    let mut front = 4036usize;
    for k in 0..8500usize {
        let (_, len) = w.slide(Some(data[60 + k]));
        assert!(len < 60);
        front = (front + 1) % 4096;
        if filled < 4037 {
            filled += 1;
        }
        assert_eq!(w.front_position(), front);
        assert_eq!(w.front(), data[k + 1]);
        if k % 97 == 0 || (4030..4045).contains(&k) {
            for p in 0..4096usize {
                let behind = (front + 4096 - p) % 4096;
                assert_eq!(w.has_node(p), behind < filled, "slide {k}, position {p}");
            }
        }
    }
}

#[test]
fn repeated_text_displaces_older_positions() {
    let data: Vec<u8> = (0..6000u64).map(|i| ((i * i * 31 + i * 7 + 3) % 251) as u8).collect();
    let mut w = Window::new();
    assert_eq!(w.start(&data), (4095, 0));
    assert_eq!(window_nodes(&w), ranges(3976, 4036));
    let mut found = (0, 0);
    for k in 0..4200usize {
        found = w.slide(Some(data[60 + k]));
        if k + 1 == 100 {
            let mut want = ranges(0, 40);
            want.extend(ranges(3976, 4095));
            assert_eq!(window_nodes(&w), want);
            assert_eq!(found, (4095, 0));
        }
        if k + 1 == 3977 {
            let mut want = ranges(3667, 3917);
            want.extend(ranges(3977, 4035));
            assert_eq!(window_nodes(&w), want);
            assert_eq!(found, (251, 60));
        }
    }
    assert_eq!(found, (251, 60));
    assert_eq!(w.front_position(), 44);
    let mut want = ranges(0, 44);
    want.extend(ranges(3890, 4095));
    assert_eq!(window_nodes(&w), want);
}

#[test]
fn run_of_one_byte_keeps_a_single_recent_node() {
    let data = vec![b'A'; 200];
    let mut w = Window::new();
    assert_eq!(w.start(&data), (4095, 0));
    for k in 0..5usize {
        assert_eq!(w.slide(Some(b'A')), (1, 60));
        let mut want = ranges(3976, 4035);
        want.push(4037 + k);
        assert_eq!(window_nodes(&w), want);
    }
}
