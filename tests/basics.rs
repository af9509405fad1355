use rand::distributions::{Distribution, Uniform};
use stream_alerter::{RingBuffer, StreamAlerter, Trie};

#[test]
fn test_trie() {
    let mut trie = Trie::default();
    assert!(!trie.query_str(""));
    trie.insert_str("中文");
    trie.insert_str("Yes");
    trie.insert_str("邱张华");
    assert!(trie.query_str("中文"));
    assert!(!trie.query_str("中"));
    assert!(trie.query_str("Yes"));
    assert!(!trie.query_str("邱"));
    assert!(trie.query_str("邱张华"));
}

#[test]
fn test_ring() {
    let mut ring = RingBuffer::new(3);
    ring.insert('a');
    ring.insert('b');
    ring.insert('c');
    let mut cursor = ring.cursor();
    assert_eq!(ring.get(cursor.next()), 'c');
    assert_eq!(ring.get(cursor.next()), 'b');
    assert_eq!(ring.get(cursor.next()), 'a');
    assert_eq!(ring.get(cursor.next()), ' ');
    ring.insert('d');
    let mut cursor = ring.cursor();
    assert_eq!(ring.get(cursor.next()), 'd');
    assert_eq!(ring.get(cursor.next()), 'c');
    assert_eq!(ring.get(cursor.next()), 'b');
    assert_eq!(ring.get(cursor.next()), 'a');
    ring.insert('x');
    let mut cursor = ring.cursor();
    assert_eq!(ring.get(cursor.next()), 'x');
    assert_eq!(ring.get(cursor.next()), 'd');
    assert_eq!(ring.get(cursor.next()), 'c');
    assert_eq!(ring.get(cursor.next()), 'b');
}

#[test]
fn test_stream_alerter() {
    let mut sa = StreamAlerter::new(vec![
        "赌博".to_string(),
        "游戏".to_string(),
        "摇头丸".to_string(),
        "XXX".to_string(),
    ]);
    assert!(!sa.query('a'));
    assert!(!sa.query('赌'));
    assert!(sa.query('博'));
    assert!(!sa.query('游'));
    assert!(sa.query('戏'));
    assert!(!sa.query('摇'));
    assert!(!sa.query('头'));
    assert!(sa.query('丸'));
    assert!(!sa.query('X'));
    assert!(!sa.query('X'));
    assert!(sa.query('X'));
}

#[test]
fn test_stream_alerter_02() {
    let mut rng = rand::thread_rng();
    let mut sa = StreamAlerter::new(vec!["abc".to_string(), "xyz".to_string()]);

    let mut count = 0;
    let uniform = Uniform::new(0u8, 26u8);
    for _i in 0..1_000_000 {
        let ch = (b'a' + uniform.sample(&mut rng)) as char;
        if sa.query(ch) {
            count += 1;
        }
    }
    assert_ne!(count, 0)
}
