use fnv::FnvHashSet;
use retained_heap_calculator::calculator::RetainedHeapCalculator;
use retained_heap_calculator::graph::ThreadRootSet;
use retained_heap_calculator::parse::{parse, put_thread, try_parse, Snapshot};
use retained_heap_calculator::text::{
    chars_of, is_space_char, parse_address_list, parse_decimal, split_words,
    try_parse_address_list,
};

fn lines(text: &[&str]) -> Vec<String> {
    text.iter().map(|line| line.to_string()).collect()
}

fn set(items: &[u64]) -> FnvHashSet<u64> {
    let mut set = FnvHashSet::default();
    for item in items {
        set.insert(*item);
    }
    set
}

fn decimal(text: &str, max: u64) -> Option<u64> {
    parse_decimal(&text.chars().collect(), max)
}

fn read(text: &[&str]) -> Snapshot {
    let input = lines(text);
    assert!(try_parse(&input).is_ok());
    parse(&input)
}

fn sample() -> Vec<&'static str> {
    vec![
        "objects", "1", "10", "3", "2", "2", "20", "1 6", "3", "3", "30", "2 4", "1 5", "4", "40",
        "5", "3", "5", "50", "3", "4", "6", "60", "7", "2", "7", "70", "", "6", "threads",
        "thread1", "1 2", "thread2", "5 7",
    ]
}

#[test]
fn decimal_numbers() {
    assert_eq!(decimal("0", u64::MAX), Some(0));
    assert_eq!(decimal("42", u64::MAX), Some(42));
    assert_eq!(decimal("+42", u64::MAX), Some(42));
    assert_eq!(decimal("007", u64::MAX), Some(7));
    assert_eq!(decimal("18446744073709551615", u64::MAX), Some(u64::MAX));
    assert_eq!(decimal("000018446744073709551615", u64::MAX), Some(u64::MAX));
    assert_eq!(decimal("4294967295", 0xFFFF_FFFF), Some(4294967295));
}

#[test]
fn decimal_numbers_that_are_none() {
    assert_eq!(decimal("", u64::MAX), None);
    assert_eq!(decimal("+", u64::MAX), None);
    assert_eq!(decimal("-1", u64::MAX), None);
    assert_eq!(decimal("++1", u64::MAX), None);
    assert_eq!(decimal("1+", u64::MAX), None);
    assert_eq!(decimal("12a", u64::MAX), None);
    assert_eq!(decimal(" 1", u64::MAX), None);
    assert_eq!(decimal("1 ", u64::MAX), None);
    assert_eq!(decimal("0x10", u64::MAX), None);
    assert_eq!(decimal("\u{663}", u64::MAX), None);
    assert_eq!(decimal("18446744073709551616", u64::MAX), None);
    assert_eq!(decimal("99999999999999999999999", u64::MAX), None);
    assert_eq!(decimal("4294967296", 0xFFFF_FFFF), None);
}

#[test]
fn decimal_agrees_with_std() {
    for text in ["0", "+0", "17", "+17", "", "+", "-", "-3", "1_000", "18446744073709551615",
        "18446744073709551616", "00000000000000000000000001", "9", "a", "1e3"]
    {
        assert_eq!(decimal(text, u64::MAX), text.parse::<u64>().ok());
        assert_eq!(decimal(text, 0xFFFF_FFFF), text.parse::<u32>().ok().map(|n| n as u64));
    }
}

#[test]
fn white_space_is_as_std_has_it() {
    for code in 0u32..0x3100 {
        if let Some(c) = char::from_u32(code) {
            assert_eq!(is_space_char(c), c.is_whitespace());
        }
    }
    assert!(!is_space_char('\u{FEFF}'));
    assert!(!is_space_char('\u{200B}'));
}

#[test]
fn words_are_split_at_white_space() {
    let words = split_words(&chars_of("  12\t3 \u{a0}\u{3000}45\n"));
    let expected: Vec<Vec<char>> =
        vec!["12".chars().collect(), "3".chars().collect(), "45".chars().collect()];
    assert_eq!(words, expected);
    assert!(split_words(&chars_of("")).is_empty());
    assert!(split_words(&chars_of(" \t ")).is_empty());
    assert_eq!(split_words(&chars_of("x")), vec![vec!['x']]);
}

#[test]
fn characters_of_a_string() {
    assert_eq!(chars_of("a\u{e9}1"), vec!['a', '\u{e9}', '1']);
    assert!(chars_of("").is_empty());
}

#[test]
fn address_lists() {
    assert_eq!(parse_address_list(""), set(&[]));
    assert_eq!(parse_address_list("   "), set(&[]));
    assert_eq!(parse_address_list("5"), set(&[5]));
    assert_eq!(parse_address_list("1 2  3\t4"), set(&[1, 2, 3, 4]));
    assert_eq!(parse_address_list("7 7 +7 07"), set(&[7]));
    assert_eq!(parse_address_list("18446744073709551615 0"), set(&[0, u64::MAX]));
}

#[test]
fn address_lists_are_tested() {
    assert_eq!(try_parse_address_list(""), Some(set(&[])));
    assert_eq!(try_parse_address_list("1 2  3\t4"), Some(set(&[1, 2, 3, 4])));
    assert_eq!(try_parse_address_list("7 7 +7 07"), Some(set(&[7])));
    assert_eq!(try_parse_address_list("1 x 3"), None);
    assert_eq!(try_parse_address_list("1,2"), None);
    assert_eq!(try_parse_address_list("-1"), None);
    assert_eq!(try_parse_address_list("18446744073709551616"), None);
}

#[test]
fn sample_snapshot_is_read() {
    let snapshot = read(&sample());
    assert_eq!(snapshot.objects.len(), 7);
    assert_eq!(snapshot.objects[&1].size, 10);
    assert_eq!(snapshot.objects[&1].referents, set(&[3]));
    assert_eq!(snapshot.objects[&1].inbound_references, set(&[2]));
    assert_eq!(snapshot.objects[&3].referents, set(&[2, 4]));
    assert_eq!(snapshot.objects[&3].inbound_references, set(&[1, 5]));
    assert_eq!(snapshot.objects[&7].size, 70);
    assert_eq!(snapshot.objects[&7].referents, set(&[]));
    assert_eq!(snapshot.objects[&7].inbound_references, set(&[6]));
    assert_eq!(snapshot.threads.len(), 2);
    assert_eq!(snapshot.threads[0].name, "thread1");
    assert_eq!(snapshot.threads[0].roots, set(&[1, 2]));
    assert_eq!(snapshot.threads[1].name, "thread2");
    assert_eq!(snapshot.threads[1].roots, set(&[5, 7]));
}

#[test]
fn sample_snapshot_is_calculated() {
    let snapshot = read(&sample());
    let mut calculator = RetainedHeapCalculator::new(snapshot.objects, snapshot.threads);
    assert!(calculator.calculate().is_ok());
    let sizes = &calculator.object_retained_heap;
    // 1 -> 3 -> {2, 4}, 2 -> {1, 6}, 4 -> 5 -> 3, 6 -> 7
    assert_eq!(sizes[&7], 70);
    assert_eq!(sizes[&6], 130);
    assert_eq!(sizes[&1], 10);
    assert_eq!(sizes[&2], 20 + 10 + 130);
    // Removing 3 releases the whole cycle: 3, 2, 4, 1, 5 and the subtree of 6.
    assert_eq!(sizes[&3], 30 + 20 + 40 + 10 + 50 + 130);
    assert_eq!(sizes[&4], 40 + 50);
    assert_eq!(sizes[&5], 50);
    assert_eq!(calculator.thread_retained_heap, vec![0, 0]);
}

#[test]
fn objects_only() {
    let snapshot = read(&["objects", "8", "16", "9", ""]);
    assert_eq!(snapshot.objects.len(), 1);
    assert_eq!(snapshot.objects[&8].size, 16);
    assert_eq!(snapshot.objects[&8].referents, set(&[9]));
    assert!(snapshot.threads.is_empty());
    let none = read(&["objects"]);
    assert!(none.objects.is_empty());
    assert!(none.threads.is_empty());
    let no_objects = read(&["objects", "threads", "main", "  "]);
    assert!(no_objects.objects.is_empty());
    assert_eq!(no_objects.threads.len(), 1);
    assert_eq!(no_objects.threads[0].roots, set(&[]));
}

#[test]
fn empty_address_line_ends_the_objects() {
    let snapshot = read(&["objects", "1", "2", "", "", "", "worker", "1"]);
    assert_eq!(snapshot.objects.len(), 1);
    assert_eq!(snapshot.threads.len(), 1);
    assert_eq!(snapshot.threads[0].name, "worker");
    // The line `threads` after an empty line is a thread's name.
    assert!(try_parse(&lines(&["objects", "", "threads", "main", "1"])).is_err());
    let odd = read(&["objects", "", "threads", "1 2"]);
    assert_eq!(odd.threads[0].name, "threads");
    assert_eq!(odd.threads[0].roots, set(&[1, 2]));
}

#[test]
fn record_cut_off_after_its_address_is_broken() {
    assert!(try_parse(&lines(&["objects", "1"])).is_err());
    assert!(try_parse(&lines(&["objects", "1", ""])).is_err());
    assert!(try_parse(&lines(&["objects", "1", "", "", ""])).is_err());
    assert!(try_parse(&lines(&["objects", "1", "2", "", "", "5"])).is_err());
    assert!(try_parse(&lines(&["objects", "1", "2", "", "", "5", "", "main", "1"])).is_err());
    assert!(try_parse(&lines(&["objects", "1", "2", "", "", "5", "threads", "main", "1"])).is_err());
}

#[test]
fn later_records_replace_earlier_ones() {
    let snapshot = read(&[
        "objects", "1", "2", "3", "", "1", "5", "", "6", "threads", "a", "1", "b", "2", "a", "3 4",
    ]);
    assert_eq!(snapshot.objects.len(), 1);
    assert_eq!(snapshot.objects[&1].size, 5);
    assert_eq!(snapshot.objects[&1].referents, set(&[]));
    assert_eq!(snapshot.objects[&1].inbound_references, set(&[6]));
    assert_eq!(snapshot.threads.len(), 2);
    assert_eq!(snapshot.threads[0].name, "a");
    assert_eq!(snapshot.threads[0].roots, set(&[3, 4]));
    assert_eq!(snapshot.threads[1].name, "b");
    assert_eq!(snapshot.threads[1].roots, set(&[2]));
}

#[test]
fn broken_inputs() {
    let broken: Vec<Vec<&str>> = vec![
        vec![],
        vec![""],
        vec!["threads"],
        vec!["Objects"],
        vec!["objects ", "threads"],
        vec!["objects", "x"],
        vec!["objects", "-1", "1", "", ""],
        vec!["objects", " 1", "1", "", ""],
        vec!["objects", "18446744073709551616", "1", "", ""],
        vec!["objects", "1", "4294967296", "", ""],
        vec!["objects", "1", "ten", "", ""],
        vec!["objects", "1", "10"],
        vec!["objects", "1", "10", "2"],
        vec!["objects", "1", "10", "2 x", ""],
        vec!["objects", "1", "10", "", "y"],
        vec!["objects", "threads", ""],
        vec!["objects", "threads", "main"],
        vec!["objects", "threads", "main", "1 z"],
        vec!["objects", "threads", "main", "1", ""],
        vec!["objects", "threads", "main", "1", "other"],
    ];
    for input in broken {
        assert!(try_parse(&lines(&input)).is_err(), "{:?}", input);
    }
}

#[test]
fn thread_names_are_kept_as_they_are() {
    let snapshot = read(&["objects", "threads", " main thread ", "1", "42", "2"]);
    assert_eq!(snapshot.threads[0].name, " main thread ");
    assert_eq!(snapshot.threads[1].name, "42");
}

#[test]
fn put_thread_replaces_by_name() {
    let mut threads: Vec<ThreadRootSet> = Vec::new();
    put_thread(&mut threads, "a".to_string(), set(&[1]));
    put_thread(&mut threads, "b".to_string(), set(&[2]));
    put_thread(&mut threads, "c".to_string(), set(&[3]));
    put_thread(&mut threads, "b".to_string(), set(&[4, 5]));
    assert_eq!(threads.len(), 3);
    assert_eq!(threads[0].roots, set(&[1]));
    assert_eq!(threads[1].name, "b");
    assert_eq!(threads[1].roots, set(&[4, 5]));
    assert_eq!(threads[2].roots, set(&[3]));
}
