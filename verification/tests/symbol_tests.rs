use ref_safety::symbol::{Symbol, SymbolPool, Tag, MAX_INLINE_LEN};

#[test]
fn test_size() {
    // Assert that the size of a Symbol is fairly small, since it is used
    // throughout a code base; increases to this size should be
    // scrutinized.
    assert_eq!(std::mem::size_of::<Symbol>(), std::mem::size_of::<u64>());
}

#[test]
fn test_tag() {
    let mut pool = SymbolPool::new();
    let s = "bonjour le monde";
    for n in 0..=s.len() {
        let sym = pool.intern(&s[..n]);
        assert_eq!(sym.len(&pool), n);
        let expected_tag = if n <= MAX_INLINE_LEN { Tag::Inlined } else { Tag::Dynamic };
        assert_eq!(sym.tag(), expected_tag)
    }
}

#[test]
fn test_from_different_strings_have_different_addresses() {
    let mut pool = SymbolPool::new();
    let s1 = pool.intern("hi");
    let s2 = pool.intern("hello");
    assert_eq!(s1.tag(), Tag::Inlined);
    assert_eq!(s2.tag(), Tag::Inlined);
    assert_ne!(s1.0, s2.0);

    let s1 = pool.intern("hi");
    let s2 = pool.intern("bonjour le monde");
    assert_eq!(s1.tag(), Tag::Inlined);
    assert_eq!(s2.tag(), Tag::Dynamic);
    assert_ne!(s1.0, s2.0);

    let s1 = pool.intern("bonjour!");
    let s2 = pool.intern("bonjour le monde");
    assert_eq!(s1.tag(), Tag::Dynamic);
    assert_eq!(s2.tag(), Tag::Dynamic);
    assert_ne!(s1.0, s2.0);
}

#[test]
fn test_from_identical_strings_have_the_same_address() {
    let mut pool = SymbolPool::new();
    let s1 = pool.intern("hi");
    let s2 = pool.intern("hi");
    assert_eq!(s1.tag(), Tag::Inlined);
    assert_eq!(s2.tag(), Tag::Inlined);
    assert_eq!(s1.0, s2.0);

    let s1 = pool.intern("bonjour le monde");
    let s2 = pool.intern("bonjour le monde");
    assert_eq!(s1.tag(), Tag::Dynamic);
    assert_eq!(s2.tag(), Tag::Dynamic);
    assert_eq!(s1.0, s2.0);
}

#[test]
fn test_round_trip_bytes() {
    let mut pool = SymbolPool::new();
    let short = pool.intern("abc");
    assert_eq!(short.as_bytes(&pool), b"abc".to_vec());
    assert_eq!(short.len(&pool), 3);
    let long = pool.intern("bonjour le monde");
    assert_eq!(long.as_bytes(&pool), b"bonjour le monde".to_vec());
    assert_eq!(long.len(&pool), 16);
    let empty = pool.intern("");
    assert_eq!(empty.as_bytes(&pool), Vec::<u8>::new());
    assert_eq!(empty.tag(), Tag::Inlined);
}
