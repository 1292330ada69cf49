use mini_lsm::block::{BlockBuilder, BlockIterator};
use mini_lsm::iterators::{MergeIterator, StorageIterator};

/// A source over a fixed run of entries; it can be told to fail at a step.
struct RunIterator {
    entries: Vec<(Vec<u8>, Vec<u8>)>,
    at: usize,
    fail_at: Option<usize>,
}

impl RunIterator {
    fn new(entries: &[(u8, &str)]) -> Box<RunIterator> {
        Box::new(RunIterator {
            entries: entries
                .iter()
                .map(|(k, v)| (vec![*k], v.as_bytes().to_vec()))
                .collect(),
            at: 0,
            fail_at: None,
        })
    }

    fn failing(entries: &[(u8, &str)], fail_at: usize) -> Box<RunIterator> {
        let mut it = RunIterator::new(entries);
        it.fail_at = Some(fail_at);
        it
    }
}

impl StorageIterator for RunIterator {
    type Error = String;

    fn key(&self) -> &[u8] {
        &self.entries[self.at].0
    }

    fn value(&self) -> &[u8] {
        &self.entries[self.at].1
    }

    fn is_valid(&self) -> bool {
        self.at < self.entries.len()
    }

    fn next(&mut self) -> Result<(), String> {
        if self.fail_at == Some(self.at) {
            return Err(format!("read failed at {}", self.at));
        }
        self.at += 1;
        Ok(())
    }
}

/// Steps the merge until it holds no entry, and collects what it held.
fn drain(m: &mut MergeIterator<RunIterator>) -> Vec<(u8, String)> {
    let mut out = Vec::new();
    loop {
        m.next().unwrap();
        if !m.has_current() {
            return out;
        }
        out.push((m.key()[0], String::from_utf8(m.value().to_vec()).unwrap()));
    }
}

#[test]
fn merge_prefers_the_source_given_first() {
    let a = RunIterator::new(&[(1, "a"), (3, "c")]);
    let b = RunIterator::new(&[(1, "b"), (2, "x")]);
    let mut m = MergeIterator::create(vec![a, b]);
    assert_eq!(
        drain(&mut m),
        vec![(1, "a".to_string()), (2, "x".to_string()), (3, "c".to_string())]
    );
}

#[test]
fn merge_of_no_sources_is_exhausted() {
    let mut m: MergeIterator<RunIterator> = MergeIterator::create(vec![]);
    assert!(!m.is_valid());
    assert!(!m.has_current());
    for _ in 0..3 {
        assert!(m.next().is_ok());
        assert!(!m.is_valid());
        assert!(!m.has_current());
    }
}

#[test]
fn merge_of_sources_that_have_run_out_is_exhausted() {
    let mut m = MergeIterator::create(vec![
        RunIterator::new(&[]),
        RunIterator::new(&[]),
        RunIterator::new(&[]),
    ]);
    assert!(!m.is_valid());
    assert!(!m.has_current());
    for _ in 0..3 {
        assert!(m.next().is_ok());
        assert!(!m.is_valid());
        assert!(!m.has_current());
    }
}

#[test]
fn no_entry_is_held_before_the_first_step() {
    let m = MergeIterator::create(vec![RunIterator::new(&[(1, "a")])]);
    assert!(!m.has_current());
    assert!(!m.is_valid());
}

#[test]
fn three_sources_on_one_key_give_the_first_ones_value_once() {
    let mut m = MergeIterator::create(vec![
        RunIterator::new(&[(5, "zero")]),
        RunIterator::new(&[(5, "one"), (6, "six")]),
        RunIterator::new(&[(5, "two"), (7, "seven")]),
    ]);
    m.next().unwrap();
    assert!(m.has_current());
    assert_eq!(m.key(), &[5]);
    assert_eq!(m.value(), b"zero");
    m.next().unwrap();
    assert_eq!(m.key(), &[6]);
    assert_eq!(m.value(), b"six");
    m.next().unwrap();
    assert_eq!(m.key(), &[7]);
    assert_eq!(m.value(), b"seven");
    m.next().unwrap();
    assert!(!m.has_current());
}

#[test]
fn a_later_source_wins_where_the_earlier_lack_the_key() {
    let mut m = MergeIterator::create(vec![
        RunIterator::new(&[(2, "a2"), (4, "a4")]),
        RunIterator::new(&[(1, "b1"), (2, "b2"), (3, "b3")]),
        RunIterator::new(&[(1, "c1"), (3, "c3"), (4, "c4"), (5, "c5")]),
    ]);
    assert_eq!(
        drain(&mut m),
        vec![
            (1, "b1".to_string()),
            (2, "a2".to_string()),
            (3, "b3".to_string()),
            (4, "a4".to_string()),
            (5, "c5".to_string()),
        ]
    );
}

#[test]
fn sources_that_have_run_out_are_left_aside() {
    let mut m = MergeIterator::create(vec![
        RunIterator::new(&[]),
        RunIterator::new(&[(1, "x"), (2, "y")]),
        RunIterator::new(&[]),
    ]);
    assert_eq!(drain(&mut m), vec![(1, "x".to_string()), (2, "y".to_string())]);
}

#[test]
fn the_entry_held_stays_until_the_next_step() {
    let mut m = MergeIterator::create(vec![RunIterator::new(&[(1, "a"), (2, "b")])]);
    m.next().unwrap();
    assert_eq!(m.key(), &[1]);
    assert_eq!(m.value(), b"a");
    assert_eq!(m.key(), &[1]);
    assert_eq!(m.value(), b"a");
    m.next().unwrap();
    assert_eq!(m.key(), &[2]);
    assert_eq!(m.value(), b"b");
}

#[test]
fn is_valid_says_whether_the_winning_source_had_more() {
    let a = RunIterator::new(&[(1, "a"), (3, "c")]);
    let b = RunIterator::new(&[(1, "b"), (2, "x")]);
    let mut m = MergeIterator::create(vec![a, b]);
    assert!(!m.is_valid());
    m.next().unwrap();
    // key 1 from the first source, which goes on to key 3
    assert!(m.has_current());
    assert!(m.is_valid());
    m.next().unwrap();
    // key 2 from the second source, which has run out
    assert!(m.has_current());
    assert!(!m.is_valid());
    m.next().unwrap();
    // key 3 from the first source, which has run out
    assert!(m.has_current());
    assert!(!m.is_valid());
    m.next().unwrap();
    assert!(!m.has_current());
    assert!(!m.is_valid());
}

#[test]
fn a_step_after_the_end_changes_nothing() {
    let mut m = MergeIterator::create(vec![RunIterator::new(&[(9, "z")])]);
    assert_eq!(drain(&mut m), vec![(9, "z".to_string())]);
    for _ in 0..3 {
        assert!(m.next().is_ok());
        assert!(!m.has_current());
        assert!(!m.is_valid());
    }
}

#[test]
fn a_failing_winner_hands_its_error_on() {
    let mut m = MergeIterator::create(vec![
        RunIterator::failing(&[(1, "a"), (2, "b")], 1),
        RunIterator::new(&[(3, "c")]),
    ]);
    assert!(m.next().is_ok());
    assert_eq!(m.key(), &[1]);
    assert_eq!(m.next(), Err("read failed at 1".to_string()));
    assert!(!m.has_current());
    assert!(!m.is_valid());
    assert!(m.next().is_ok());
    assert!(!m.has_current());
}

#[test]
fn a_failing_shadowed_source_hands_its_error_on() {
    let mut m = MergeIterator::create(vec![
        RunIterator::new(&[(1, "a"), (2, "b")]),
        RunIterator::failing(&[(1, "hidden"), (5, "e")], 0),
    ]);
    assert_eq!(m.next(), Err("read failed at 0".to_string()));
    assert!(!m.has_current());
}

#[test]
fn merge_over_blocks() {
    let mut newer = BlockBuilder::new(4096);
    assert!(newer.add(b"b", b"new-b"));
    assert!(newer.add(b"d", b"new-d"));
    let mut older = BlockBuilder::new(4096);
    assert!(older.add(b"a", b"old-a"));
    assert!(older.add(b"b", b"old-b"));
    assert!(older.add(b"c", b"old-c"));
    assert!(older.add(b"d", b"old-d"));
    let sources = vec![
        Box::new(BlockIterator::create_and_seek_to_first(newer.build())),
        Box::new(BlockIterator::create_and_seek_to_first(older.build())),
    ];
    let mut m = MergeIterator::create(sources);
    let mut seen: Vec<(Vec<u8>, Vec<u8>)> = Vec::new();
    loop {
        m.next().unwrap();
        if !m.has_current() {
            break;
        }
        seen.push((m.key().to_vec(), m.value().to_vec()));
    }
    assert_eq!(
        seen,
        vec![
            (b"a".to_vec(), b"old-a".to_vec()),
            (b"b".to_vec(), b"new-b".to_vec()),
            (b"c".to_vec(), b"old-c".to_vec()),
            (b"d".to_vec(), b"new-d".to_vec()),
        ]
    );
}

#[test]
fn keys_are_ordered_as_byte_strings() {
    let mut short = BlockBuilder::new(4096);
    assert!(short.add(b"ab", b"1"));
    let mut long = BlockBuilder::new(4096);
    assert!(long.add(b"a", b"2"));
    assert!(long.add(b"abc", b"3"));
    let mut m = MergeIterator::create(vec![
        Box::new(BlockIterator::create_and_seek_to_first(short.build())),
        Box::new(BlockIterator::create_and_seek_to_first(long.build())),
    ]);
    let mut keys: Vec<Vec<u8>> = Vec::new();
    loop {
        m.next().unwrap();
        if !m.has_current() {
            break;
        }
        keys.push(m.key().to_vec());
    }
    assert_eq!(keys, vec![b"a".to_vec(), b"ab".to_vec(), b"abc".to_vec()]);
}
