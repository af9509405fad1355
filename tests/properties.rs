use stream_alerter::{BackwardCursor, RingBuffer, StreamAlerter, Trie};

fn feed(sa: &mut StreamAlerter, text: &str) -> Vec<bool> {
    text.chars().map(|c| sa.query(c)).collect()
}

#[test]
fn capacity_is_rounded_to_a_power_of_two() {
    assert_eq!(RingBuffer::new(0).capacity_of(), 2);
    assert_eq!(RingBuffer::new(1).capacity_of(), 2);
    assert_eq!(RingBuffer::new(2).capacity_of(), 2);
    assert_eq!(RingBuffer::new(3).capacity_of(), 4);
    assert_eq!(RingBuffer::new(4).capacity_of(), 4);
    assert_eq!(RingBuffer::new(5).capacity_of(), 8);
    assert_eq!(RingBuffer::new(1000).capacity_of(), 1024);
    assert_eq!(RingBuffer::new(1025).capacity_of(), 2048);
}

#[test]
fn defaults_hold_the_default_capacity() {
    assert_eq!(RingBuffer::default().capacity_of(), 1024);
    let mut cursor = BackwardCursor::default();
    assert_eq!(cursor.next(), 1023);
    assert_eq!(cursor.next(), 1022);
    let mut sa = StreamAlerter::default();
    assert_eq!(feed(&mut sa, "abc"), vec![false, false, false]);
}

#[test]
fn backward_order_includes_blank_slot() {
    let mut ring = RingBuffer::new(4);
    assert_eq!(ring.capacity_of(), 4);
    ring.insert('a');
    ring.insert('b');
    ring.insert('c');
    let mut cursor = ring.cursor();
    let got: Vec<char> = (0..4).map(|_| ring.get(cursor.next())).collect();
    assert_eq!(got, vec!['c', 'b', 'a', ' ']);
}

#[test]
fn wraparound_overwrites_oldest() {
    let mut ring = RingBuffer::new(4);
    for c in ['a', 'b', 'c', 'd'] {
        ring.insert(c);
    }
    let mut cursor = ring.cursor();
    let got: Vec<char> = (0..4).map(|_| ring.get(cursor.next())).collect();
    assert_eq!(got, vec!['d', 'c', 'b', 'a']);
    ring.insert('e');
    let mut cursor = ring.cursor();
    let got: Vec<char> = (0..5).map(|_| ring.get(cursor.next())).collect();
    assert_eq!(got, vec!['e', 'd', 'c', 'b', 'e']);
}

#[test]
fn cursor_wraps_from_zero_to_last_slot() {
    let ring = RingBuffer::new(2);
    let mut cursor = ring.cursor();
    assert_eq!(cursor.next(), 1);
    assert_eq!(cursor.next(), 0);
    assert_eq!(cursor.next(), 1);
}

#[test]
fn trie_mismatch_gives_no_match() {
    let mut trie = Trie::default();
    trie.insert_str("abc");
    assert!(!trie.query_str("x"));
    assert!(!trie.query_str("xy"));
    assert!(!trie.query_str("xyz"));
    assert!(!trie.query_str("bc"));
    assert!(!trie.query_str("abd"));
    assert!(trie.query_str("abc"));
    let mut sa = StreamAlerter::new(vec!["abc".to_string()]);
    assert_eq!(feed(&mut sa, "xyz"), vec![false, false, false]);
}

#[test]
fn trie_matches_any_keyword_tail() {
    let mut trie = Trie::default();
    trie.insert("Yes".to_string());
    assert!(trie.query("OhYes".to_string()));
    assert!(!trie.query("Yesno".to_string()));
    assert!(!trie.query("es".to_string()));
}

#[test]
fn single_character_keywords_alarm_on_their_character() {
    let mut sa = StreamAlerter::new(vec!["博".to_string(), "戏".to_string(), "丸".to_string()]);
    assert_eq!(feed(&mut sa, "博a戏丸b"), vec![true, false, true, true, false]);
}

#[test]
fn multi_character_keyword_alarms_at_its_end() {
    let mut sa = StreamAlerter::new(vec!["abc".to_string()]);
    assert_eq!(feed(&mut sa, "abc"), vec![false, false, true]);
    assert_eq!(feed(&mut sa, "abcd"), vec![false, false, true, false]);
}

#[test]
fn unrelated_keywords_do_not_cross_trigger() {
    let mut sa = StreamAlerter::new(vec!["abc".to_string(), "xyz".to_string()]);
    assert_eq!(feed(&mut sa, "axyz"), vec![false, false, false, true]);
    assert_eq!(feed(&mut sa, "abxyzc"), vec![false, false, false, false, true, false]);
}

#[test]
fn empty_keyword_list_never_alarms() {
    let mut sa = StreamAlerter::new(vec![]);
    assert_eq!(feed(&mut sa, "  abc xyz  "), vec![false; 11]);
    let mut sa = StreamAlerter::new(vec![String::new()]);
    assert_eq!(feed(&mut sa, "a b"), vec![false; 3]);
}

#[test]
fn empty_keyword_in_trie_matches_nothing() {
    let mut trie = Trie::default();
    trie.insert_str("");
    assert!(!trie.query_str(""));
    assert!(!trie.query_str("abc"));
    trie.insert_str("bc");
    assert!(trie.query_str("abc"));
    assert!(!trie.query_str("ab"));
}

#[test]
fn construction_order_does_not_matter() {
    let text = "xabcxyzabxyzcabcc";
    let mut one = StreamAlerter::new(vec!["abc".to_string(), "xyz".to_string()]);
    let mut two = StreamAlerter::new(vec![
        "xyz".to_string(),
        "abc".to_string(),
        "xyz".to_string(),
    ]);
    let a = feed(&mut one, text);
    let b = feed(&mut two, text);
    assert_eq!(a, b);
    assert_eq!(a.iter().filter(|x| **x).count(), 4);
}

#[test]
fn fresh_buffer_blanks_count_as_earlier_characters() {
    let mut sa = StreamAlerter::new(vec![" a".to_string()]);
    assert_eq!(feed(&mut sa, "aa a"), vec![true, false, false, true]);
}

#[test]
fn overlapping_keywords_report_once() {
    let mut sa = StreamAlerter::new(vec!["XX".to_string(), "XXX".to_string()]);
    assert_eq!(feed(&mut sa, "XXXX"), vec![false, true, true, true]);
}
