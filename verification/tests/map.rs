use git_subset::map::OidMap;
use git_subset::oid::Oid;

#[test]
fn test_resolve() {
    let mut map = OidMap::new();

    let a = Oid::from_hex("0000000000000000000000000000000000000000").unwrap();
    let b = Oid::from_hex("0000000000000000000000000000000000000001").unwrap();
    let c = Oid::from_hex("0000000000000000000000000000000000000002").unwrap();

    map.insert(a, Some(b));
    assert_eq!(map.resolve(&a), Some(Some(b)));
    assert_eq!(map.resolve(&b), None);

    map.insert(b, Some(c));
    assert_eq!(map.resolve(&a), Some(Some(c)));
    assert_eq!(map.resolve(&b), Some(Some(c)));

    map.insert(c, None);
    assert_eq!(map.resolve(&a), Some(None));
    assert_eq!(map.resolve(&b), Some(None));
    assert_eq!(map.resolve(&c), Some(None));
}

fn id(text: &str) -> Oid {
    Oid::from_hex(text).unwrap()
}

#[test]
fn insert_hands_back_what_was_there() {
    let mut map = OidMap::new();
    let a = id("a1");
    let b = id("b2");
    assert_eq!(map.get(&a), None);
    assert!(!map.contains_key(&a));
    assert_eq!(map.insert(a, Some(b)), None);
    assert_eq!(map.insert(a, None), Some(Some(b)));
    assert_eq!(map.insert(a, Some(a)), Some(None));
    assert_eq!(map.get(&a), Some(Some(a)));
    assert!(map.contains_key(&a));
    assert_eq!(map.len(), 1);
    assert_eq!(map.entry(0).key, a);
    assert_eq!(map.entry(0).value, Some(a));
}

#[test]
fn get_takes_one_step_and_resolve_all() {
    let mut map = OidMap::new();
    let (a, b, c) = (id("0a"), id("0b"), id("0c"));
    map.insert(a, Some(b));
    map.insert(b, Some(c));
    assert_eq!(map.get(&a), Some(Some(b)));
    assert_eq!(map.resolve(&a), Some(Some(c)));
    assert_eq!(map.resolve(&c), None);
    // A key that maps to itself ends its chain.
    map.insert(c, Some(c));
    assert_eq!(map.resolve(&a), Some(Some(c)));
    assert_eq!(map.resolve(&c), Some(Some(c)));
}

#[test]
fn resolve_does_not_run_in_circles() {
    let mut map = OidMap::new();
    let (a, b, c, d) = (id("0a"), id("0b"), id("0c"), id("0d"));
    map.insert(a, Some(b));
    map.insert(b, Some(a));
    assert_eq!(map.resolve(&a), Some(None));
    assert_eq!(map.resolve(&b), Some(None));
    map.insert(c, Some(a));
    assert_eq!(map.resolve(&c), Some(None));
    map.insert(d, Some(d));
    assert_eq!(map.resolve(&d), Some(Some(d)));
}

#[test]
fn resolve_follows_long_chains() {
    let mut map = OidMap::new();
    let ids: Vec<Oid> = (0..200u32).map(|i| id(&format!("{:08x}", i * 7919 + 1))).collect();
    for i in (0..199).rev() {
        map.insert(ids[i], Some(ids[i + 1]));
    }
    assert_eq!(map.len(), 199);
    for i in 0..199 {
        assert_eq!(map.resolve(&ids[i]), Some(Some(ids[199])));
    }
    map.insert(ids[199], None);
    assert_eq!(map.resolve(&ids[0]), Some(None));
}

#[test]
fn keys_with_one_slot_are_kept_apart() {
    let mut map = OidMap::new();
    let a = id("0102030405060708000000000000000000000001");
    let b = id("0102030405060708000000000000000000000002");
    let c = id("0102030405060708000000000000000000000003");
    assert_eq!(a.slot(), b.slot());
    map.insert(a, Some(c));
    map.insert(b, None);
    assert_eq!(map.get(&a), Some(Some(c)));
    assert_eq!(map.get(&b), Some(None));
    assert_eq!(map.get(&c), None);
    assert_eq!(map.len(), 2);
}

#[test]
fn from_reader_passes_over_what_it_cannot_read() {
    let a = "00000000000000000000000000000000000000aa";
    let b = "00000000000000000000000000000000000000bb";
    let c = "00000000000000000000000000000000000000cc";
    let d = "00000000000000000000000000000000000000dd";
    let text = format!(
        "# a comment\n\n{a} {b}\n  {c}  \nnot an id\n{b} nothing\n{d}  {a}\n{b} {c} {d}\n{a}{b}\n",
        a = a,
        b = b,
        c = c,
        d = d
    );
    let map = OidMap::from_reader(text.as_bytes());
    assert_eq!(map.len(), 3);
    assert_eq!(map.get(&id(a)), Some(Some(id(b))));
    assert_eq!(map.get(&id(c)), Some(None));
    // Pieces after the second are not looked at.
    assert_eq!(map.get(&id(b)), Some(Some(id(c))));
    // Two spaces enclose an empty piece, which spells nothing.
    assert_eq!(map.get(&id(d)), None);
}

#[test]
fn from_reader_lets_the_later_line_count() {
    let a = "00000000000000000000000000000000000000aa";
    let b = "00000000000000000000000000000000000000bb";
    let text = format!("{a} {b}\n{a}\n", a = a, b = b);
    let map = OidMap::from_reader(text.as_bytes());
    assert_eq!(map.len(), 1);
    assert_eq!(map.get(&id(a)), Some(None));
    assert_eq!(OidMap::from_reader(b"").len(), 0);
}

#[test]
fn write_puts_each_entry_on_a_line() {
    let mut map = OidMap::new();
    let a = id("00000000000000000000000000000000000000aa");
    let b = id("00000000000000000000000000000000000000bb");
    let c = id("00000000000000000000000000000000000000cc");
    map.insert(b, None);
    map.insert(a, Some(c));
    map.insert(c, Some(c));
    map.insert(b, Some(a));
    map.insert(c, None);
    let text = String::from_utf8(map.write()).unwrap();
    assert_eq!(
        text,
        "00000000000000000000000000000000000000bb 00000000000000000000000000000000000000aa\n\
         00000000000000000000000000000000000000aa 00000000000000000000000000000000000000cc\n\
         00000000000000000000000000000000000000cc\n"
    );
    assert_eq!(String::from_utf8(OidMap::new().write()).unwrap(), "");
}

#[test]
fn what_is_written_is_read_back() {
    let mut map = OidMap::new();
    let ids: Vec<Oid> = (0..50u32).map(|i| id(&format!("{:040x}", i * 104729 + 3))).collect();
    for i in 0..49 {
        map.insert(ids[i], if i % 3 == 0 { None } else { Some(ids[i + 1]) });
    }
    let again = OidMap::from_reader(&map.write());
    assert_eq!(again.len(), map.len());
    for i in 0..50 {
        assert_eq!(again.get(&ids[i]), map.get(&ids[i]));
        assert_eq!(again.resolve(&ids[i]), map.resolve(&ids[i]));
    }
    assert_eq!(again.write(), map.write());
}

#[test]
fn parse_line_reads_one_entry() {
    let a = id("aa");
    let b = id("bb");
    assert_eq!(OidMap::parse_line(b"aa").map(|e| (e.key, e.value)), Some((a, None)));
    assert_eq!(OidMap::parse_line(b" aa bb ").map(|e| (e.key, e.value)), Some((a, Some(b))));
    assert!(OidMap::parse_line(b"").is_none());
    assert!(OidMap::parse_line(b"#aa").is_none());
    assert!(OidMap::parse_line(b"aa xx").is_none());
    assert!(OidMap::parse_line(b"xx aa").is_none());
}
