use rope::{range_bounds_to_range, Bound, Builder, Error, Info, Rope, Slice, MAX_LEAF_BYTES, MIN_LEAF_BYTES};

fn samples() -> Vec<String> {
    let mut long = String::new();
    for i in 0..3000 {
        long.push_str(match i % 4 {
            0 => "a",
            1 => "é",
            2 => "€",
            _ => "😀",
        });
    }
    let mut ascii = String::new();
    for i in 0..9000 {
        ascii.push(char::from(b'a' + (i % 26) as u8));
    }
    vec![
        String::new(),
        "a".to_string(),
        "hello".to_string(),
        "héllo".to_string(),
        "😀€é".to_string(),
        long,
        ascii,
    ]
}

fn boundaries(s: &str) -> Vec<usize> {
    let mut out = Vec::new();
    let step = if s.len() > 200 { 97 } else { 1 };
    let mut i = 0;
    while i <= s.len() {
        let mut j = i;
        while !s.is_char_boundary(j) {
            j -= 1;
        }
        out.push(j);
        i += step;
    }
    out.push(s.len());
    out
}

fn chunks_of(r: &Rope) -> String {
    let mut out = String::new();
    let mut it = r.chunks();
    while let Some(c) = it.next() {
        assert!(!c.is_empty());
        out.push_str(c);
    }
    out
}

fn slice_chunks_of(s: &Slice) -> String {
    let mut out = String::new();
    let mut it = s.chunks();
    while let Some(c) = it.next() {
        out.push_str(c);
    }
    out
}

fn chunks_rev_of(r: &Rope) -> String {
    let mut out = String::new();
    let mut it = r.chunks_rev();
    while let Some(c) = it.next() {
        out.extend(c.chars().rev());
    }
    out
}

fn bytes_of(r: &Rope) -> Vec<u8> {
    let mut out = Vec::new();
    let mut it = r.bytes();
    while let Some(b) = it.next() {
        out.push(b);
    }
    out
}

fn bytes_rev_of(r: &Rope) -> Vec<u8> {
    let mut out = Vec::new();
    let mut it = r.bytes_rev();
    while let Some(b) = it.next() {
        out.push(b);
    }
    out
}

fn chars_of(r: &Rope) -> Vec<char> {
    let mut out = Vec::new();
    let mut it = r.chars();
    while let Some(c) = it.next() {
        out.push(c);
    }
    out
}

fn chars_rev_of(r: &Rope) -> Vec<char> {
    let mut out = Vec::new();
    let mut it = r.chars_rev();
    while let Some(c) = it.next() {
        out.push(c);
    }
    out
}

#[test]
fn hello_lengths() {
    let r = Rope::from("hello");
    assert_eq!(r.byte_len(), 5);
    assert_eq!(r.char_len(), 5);
}

#[test]
fn accented_lengths() {
    let r = Rope::from("héllo");
    assert_eq!(r.byte_len(), 6);
    assert_eq!(r.char_len(), 5);
    assert_eq!(r.char_at_byte(3), Ok(2));
}

#[test]
fn split_off_in_the_middle() {
    let mut r = Rope::from("abcdef");
    let other = r.split_off(3).unwrap();
    assert_eq!(chunks_of(&r), "abc");
    assert_eq!(chunks_of(&other), "def");
}

#[test]
fn append_two_words() {
    let mut r = Rope::from("abc");
    r.append(Rope::from("def"));
    assert_eq!(chunks_of(&r), "abcdef");
}

#[test]
fn truncate_front_two_bytes() {
    let mut r = Rope::from("abcdef");
    r.truncate_front(2).unwrap();
    assert_eq!(chunks_of(&r), "cdef");
}

#[test]
fn slice_middle() {
    let r = Rope::from("abcdef");
    let s = r.slice(1..4).unwrap();
    assert_eq!(slice_chunks_of(&s), "bcd");
}

#[test]
fn is_empty() {
    for s in samples() {
        assert_eq!(Rope::from(&s).is_empty(), s.is_empty());
    }
    assert!(Rope::empty().is_empty());
}

#[test]
fn byte_len() {
    for s in samples() {
        assert_eq!(Rope::from(&s).byte_len(), s.len());
    }
}

#[test]
fn char_len() {
    for s in samples() {
        assert_eq!(Rope::from(&s).char_len(), s.chars().count());
    }
}

#[test]
fn char_at_byte() {
    for s in samples() {
        let r = Rope::from(&s);
        for i in boundaries(&s) {
            assert_eq!(r.char_at_byte(i), Ok(s[..i].chars().count()));
        }
    }
}

#[test]
fn char_at_byte_errors() {
    let r = Rope::from("héllo");
    assert_eq!(r.char_at_byte(2), Err(Error::InvalidBoundary));
    assert_eq!(r.char_at_byte(7), Err(Error::OutOfRange));
    assert_eq!(r.char_at_byte(6), Ok(5));
    assert_eq!(Rope::empty().char_at_byte(0), Ok(0));
    assert_eq!(Rope::empty().char_at_byte(1), Err(Error::OutOfRange));
}

#[test]
fn chunks() {
    for s in samples() {
        assert_eq!(chunks_of(&Rope::from(&s)), s);
    }
}

#[test]
fn chunks_rev() {
    for s in samples() {
        let expected: String = s.chars().rev().collect();
        assert_eq!(chunks_rev_of(&Rope::from(&s)), expected);
    }
}

#[test]
fn bytes() {
    for s in samples() {
        assert_eq!(bytes_of(&Rope::from(&s)), s.bytes().collect::<Vec<_>>());
    }
}

#[test]
fn bytes_rev() {
    for s in samples() {
        assert_eq!(bytes_rev_of(&Rope::from(&s)), s.bytes().rev().collect::<Vec<_>>());
    }
}

#[test]
fn chars() {
    for s in samples() {
        assert_eq!(chars_of(&Rope::from(&s)), s.chars().collect::<Vec<_>>());
    }
}

#[test]
fn chars_rev() {
    for s in samples() {
        assert_eq!(chars_rev_of(&Rope::from(&s)), s.chars().rev().collect::<Vec<_>>());
    }
}

#[test]
fn exhausted_iterators_stay_exhausted() {
    let r = Rope::from("é");
    let mut it = r.chars();
    assert_eq!(it.next(), Some('é'));
    assert_eq!(it.next(), None);
    assert_eq!(it.next(), None);
    let mut b = r.bytes_rev();
    assert_eq!(b.next(), Some(0xa9));
    assert_eq!(b.next(), Some(0xc3));
    assert_eq!(b.next(), None);
}

#[test]
fn append() {
    let all = samples();
    for a in &all {
        for b in &all {
            let mut r = Rope::from(a);
            r.append(Rope::from(b));
            let mut expected = a.clone();
            expected.push_str(b);
            assert_eq!(chunks_of(&r), expected);
            assert_eq!(r.char_len(), expected.chars().count());
        }
    }
}

#[test]
fn append_many_small_pieces() {
    let mut r = Rope::empty();
    let mut expected = String::new();
    for i in 0..2000 {
        let piece = if i % 3 == 0 { "xé" } else { "yz€" };
        r.append(Rope::from(piece));
        expected.push_str(piece);
    }
    assert_eq!(chunks_of(&r), expected);
    assert_eq!(r.char_len(), expected.chars().count());
    for i in boundaries(&expected) {
        assert_eq!(r.char_at_byte(i), Ok(expected[..i].chars().count()));
    }
}

#[test]
fn split_off() {
    for s in samples() {
        for i in boundaries(&s) {
            let mut r = Rope::from(&s);
            let other = r.split_off(i).unwrap();
            assert_eq!(chunks_of(&r), s[..i]);
            assert_eq!(chunks_of(&other), s[i..]);
            assert_eq!(r.char_len(), s[..i].chars().count());
            assert_eq!(other.char_len(), s[i..].chars().count());
        }
    }
}

#[test]
fn split_off_errors_leave_rope_unchanged() {
    let mut r = Rope::from("héllo");
    assert!(matches!(r.split_off(2), Err(Error::InvalidBoundary)));
    assert!(matches!(r.split_off(9), Err(Error::InvalidBoundary)));
    assert_eq!(chunks_of(&r), "héllo");
}

#[test]
fn truncate_front() {
    for s in samples() {
        for i in boundaries(&s) {
            let mut r = Rope::from(&s);
            r.truncate_front(i).unwrap();
            assert_eq!(chunks_of(&r), s[i..]);
        }
    }
}

#[test]
fn truncate_back() {
    for s in samples() {
        for i in boundaries(&s) {
            let mut r = Rope::from(&s);
            r.truncate_back(i).unwrap();
            assert_eq!(chunks_of(&r), s[..i]);
        }
    }
}

#[test]
fn truncate_errors() {
    let mut r = Rope::from("😀");
    assert_eq!(r.truncate_front(1), Err(Error::InvalidBoundary));
    assert_eq!(r.truncate_back(5), Err(Error::InvalidBoundary));
    assert_eq!(chunks_of(&r), "😀");
    r.truncate_back(0).unwrap();
    assert!(r.is_empty());
}

#[test]
fn append_then_split_off_round_trip() {
    let all = samples();
    for a in &all {
        for b in &all {
            let mut r = Rope::from(a);
            r.append(Rope::from(b));
            let back = r.split_off(a.len()).unwrap();
            assert_eq!(chunks_of(&r), *a);
            assert_eq!(chunks_of(&back), *b);
        }
    }
}

#[test]
fn read_queries_repeat() {
    for s in samples() {
        let r = Rope::from(&s);
        assert_eq!(r.byte_len(), r.byte_len());
        assert_eq!(r.char_len(), r.char_len());
        assert_eq!(chunks_of(&r), chunks_of(&r));
        assert_eq!(chars_of(&r), chars_of(&r));
    }
}

#[test]
fn slice_is_empty() {
    for s in samples() {
        let r = Rope::from(&s);
        for &a in &boundaries(&s) {
            for &b in &boundaries(&s) {
                if a <= b {
                    assert_eq!(r.slice(a..b).unwrap().is_empty(), a == b);
                }
            }
        }
    }
}

#[test]
fn slice_queries() {
    for s in samples() {
        let r = Rope::from(&s);
        let bs = boundaries(&s);
        for &a in &bs {
            for &b in &bs {
                if a > b {
                    continue;
                }
                let sub = &s[a..b];
                let sl = r.slice(a..b).unwrap();
                assert_eq!(sl.byte_len(), sub.len());
                assert_eq!(sl.char_len(), sub.chars().count());
                assert_eq!(slice_chunks_of(&sl), sub);
                for i in boundaries(sub) {
                    assert_eq!(sl.char_at_byte(i), Ok(sub[..i].chars().count()));
                }
            }
        }
        assert_eq!(chunks_of(&r), s);
    }
}

#[test]
fn slice_iterators() {
    let s = samples()[5].clone();
    let r = Rope::from(&s);
    let (a, b) = (1001, 6001);
    let sub = &s[a..b];
    let sl = r.slice(a..b).unwrap();
    let mut out = String::new();
    let mut it = sl.chunks_rev();
    while let Some(c) = it.next() {
        out.extend(c.chars().rev());
    }
    assert_eq!(out, sub.chars().rev().collect::<String>());
    let mut bytes = Vec::new();
    let mut it = sl.bytes();
    while let Some(x) = it.next() {
        bytes.push(x);
    }
    assert_eq!(bytes, sub.bytes().collect::<Vec<_>>());
    let mut bytes = Vec::new();
    let mut it = sl.bytes_rev();
    while let Some(x) = it.next() {
        bytes.push(x);
    }
    assert_eq!(bytes, sub.bytes().rev().collect::<Vec<_>>());
    let mut chars = Vec::new();
    let mut it = sl.chars();
    while let Some(x) = it.next() {
        chars.push(x);
    }
    assert_eq!(chars, sub.chars().collect::<Vec<_>>());
    let mut chars = Vec::new();
    let mut it = sl.chars_rev();
    while let Some(x) = it.next() {
        chars.push(x);
    }
    assert_eq!(chars, sub.chars().rev().collect::<Vec<_>>());
}

#[test]
fn slice_errors() {
    let r = Rope::from("héllo");
    assert!(matches!(r.slice(0..2), Err(Error::InvalidBoundary)));
    assert!(matches!(r.slice(2..3), Err(Error::InvalidBoundary)));
    assert!(matches!(r.slice(3..9), Err(Error::OutOfRange)));
    assert!(matches!(r.slice(4..3), Err(Error::OutOfRange)));
    let sl = r.slice(0..6).unwrap();
    assert_eq!(sl.char_at_byte(2), Err(Error::InvalidBoundary));
    assert_eq!(sl.char_at_byte(7), Err(Error::OutOfRange));
}

#[test]
fn slice_bounds() {
    let r = Rope::from("abcdef");
    let s = r.slice_bounds(Bound::Excluded(0), Bound::Included(3)).unwrap();
    assert_eq!(slice_chunks_of(&s), "bcd");
    let s = r.slice_bounds(Bound::Unbounded, Bound::Unbounded).unwrap();
    assert_eq!(slice_chunks_of(&s), "abcdef");
    assert!(matches!(r.slice_bounds(Bound::Included(2), Bound::Excluded(7)), Err(Error::OutOfRange)));
}

#[test]
fn range_bounds() {
    assert_eq!(range_bounds_to_range(Bound::Included(1), Bound::Excluded(4), 6), Ok(1..4));
    assert_eq!(range_bounds_to_range(Bound::Excluded(1), Bound::Included(4), 6), Ok(2..5));
    assert_eq!(range_bounds_to_range(Bound::Unbounded, Bound::Unbounded, 6), Ok(0..6));
    assert_eq!(range_bounds_to_range(Bound::Included(5), Bound::Excluded(4), 6), Err(Error::OutOfRange));
    assert_eq!(range_bounds_to_range(Bound::Included(0), Bound::Included(6), 6), Err(Error::OutOfRange));
    assert_eq!(range_bounds_to_range(Bound::Excluded(usize::MAX), Bound::Unbounded, 6), Err(Error::OutOfRange));
}

#[test]
fn builder_pushes() {
    let mut b = Builder::new();
    let mut expected = String::new();
    for i in 0..500 {
        let piece = if i % 2 == 0 { "ab😀cd" } else { "€€€€€€€€€€€€€€€€€€€€€" };
        b.push(piece);
        expected.push_str(piece);
    }
    let r = b.finish();
    assert_eq!(chunks_of(&r), expected);
    assert_eq!(r.char_len(), expected.chars().count());
}

#[test]
fn builder_push_bytes() {
    let mut b = Builder::new();
    assert_eq!(b.push_bytes("hé".as_bytes()), Ok(()));
    assert_eq!(b.push_bytes(&[0xc3]), Err(Error::InvalidEncoding));
    assert_eq!(b.push_bytes(&[0xff, 0x41]), Err(Error::InvalidEncoding));
    assert_eq!(b.push_bytes(b"llo"), Ok(()));
    let r = b.finish();
    assert_eq!(chunks_of(&r), "héllo");
}

#[test]
fn builder_empty() {
    let r = Builder::new().finish();
    assert!(r.is_empty());
    assert_eq!(chunks_of(&r), "");
}

#[test]
fn cursor_walks_chunks() {
    let s = samples()[6].clone();
    let r = Rope::from(&s);
    let mut c = r.cursor_front();
    let mut out = String::new();
    loop {
        assert_eq!(c.current_chunk().len(), c.chunk_end() - c.chunk_start());
        out.push_str(c.current_chunk());
        if !c.advance_chunk() {
            break;
        }
    }
    assert_eq!(out, s);
    let mut back = Vec::new();
    let mut c = r.cursor_back();
    loop {
        back.push(c.current_chunk().to_string());
        if !c.retreat_chunk() {
            break;
        }
    }
    back.reverse();
    assert_eq!(back.concat(), s);
}

#[test]
fn cursor_seek() {
    let s = samples()[6].clone();
    let r = Rope::from(&s);
    let mut c = r.cursor_front();
    for &pos in &[0, 1, 1023, 1024, 5000, 8999] {
        assert_eq!(c.seek(pos), Ok(()));
        assert!(c.chunk_start() <= pos && pos < c.chunk_end());
        assert_eq!(c.current_chunk(), &s[c.chunk_start()..c.chunk_end()]);
    }
    assert_eq!(c.seek(9000), Ok(()));
    assert_eq!(c.current_chunk(), "");
    assert_eq!(c.seek(9001), Err(Error::OutOfRange));
}

#[test]
fn clone_shares_text() {
    let s = samples()[5].clone();
    let r = Rope::from(&s);
    let mut c = r.clone();
    c.truncate_back(10).unwrap();
    assert_eq!(chunks_of(&r), s);
    assert_eq!(chunks_of(&c), s[..10]);
    let shared = r.share();
    assert_eq!(chunks_of(&shared), s);
}

#[test]
fn collected_iterators() {
    for s in samples() {
        let r = Rope::from(&s);
        assert_eq!(r.chunks().collect_string(), s);
        assert_eq!(r.bytes().collect_vec(), s.bytes().collect::<Vec<_>>());
        assert_eq!(r.bytes_rev().collect_vec(), s.bytes().rev().collect::<Vec<_>>());
        assert_eq!(r.chars().collect_vec(), s.chars().collect::<Vec<_>>());
        assert_eq!(r.chars_rev().collect_vec(), s.chars().rev().collect::<Vec<_>>());
    }
}

#[test]
fn collect_after_partial_iteration() {
    let r = Rope::from("héllo wörld");
    let mut it = r.chars();
    assert_eq!(it.next(), Some('h'));
    assert_eq!(it.next(), Some('é'));
    assert_eq!(it.collect_vec(), "llo wörld".chars().collect::<Vec<_>>());
    let mut it = r.bytes();
    assert_eq!(it.next(), Some(b'h'));
    assert_eq!(it.collect_vec().len(), 12);
}

#[test]
fn appended_tall_ropes_merge_seam() {
    let a: String = "x".repeat(30000);
    let b: String = "y".repeat(30000);
    let mut r = Rope::from(&a);
    r.append(Rope::from(&b));
    r.append(Rope::from("z"));
    let mut front = Rope::from("w");
    front.append(r);
    let mut expected = String::from("w");
    expected.push_str(&a);
    expected.push_str(&b);
    expected.push('z');
    assert_eq!(front.chunks().collect_string(), expected);
    assert_eq!(front.byte_len(), 60002);
    assert_eq!(front.char_at_byte(30001), Ok(30001));
}

#[test]
fn split_tall_rope_near_edges() {
    let s: String = "ab€".repeat(10000);
    for &i in &[0, 1, 2, 5, 1025, 29995, 49995, 49997, 50000] {
        let mut r = Rope::from(&s);
        let right = r.split_off(i).unwrap();
        assert_eq!(r.chunks().collect_string(), s[..i]);
        assert_eq!(right.chunks().collect_string(), s[i..]);
        let mut again = r;
        again.append(right);
        assert_eq!(again.chunks().collect_string(), s);
    }
}

#[test]
fn deep_tree_traversal() {
    let mut s = String::new();
    for i in 0..40000 {
        s.push_str(if i % 5 == 0 { "ü" } else { "k" });
        if i % 7 == 0 {
            s.push('😀');
        }
    }
    let r = Rope::from(&s);
    assert_eq!(r.chunks().collect_string(), s);
    assert_eq!(chunks_rev_of(&r), s.chars().rev().collect::<String>());
    assert_eq!(r.chars_rev().collect_vec(), s.chars().rev().collect::<Vec<_>>());
    let mut c = r.cursor_back();
    let mut seen = 0;
    loop {
        seen += c.current_chunk().len();
        if !c.retreat_chunk() {
            break;
        }
    }
    assert_eq!(seen, s.len());
    assert_eq!(c.chunk_start(), 0);
    let target = s.len() / 3;
    let mut target_b = target;
    while !s.is_char_boundary(target_b) {
        target_b -= 1;
    }
    assert_eq!(c.seek(target), Ok(()));
    assert!(c.chunk_start() <= target && target < c.chunk_end());
    assert!(c.advance_chunk());
    assert!(c.retreat_chunk());
    assert!(c.chunk_start() <= target && target < c.chunk_end());
    let sl = r.slice(target_b..s.len()).unwrap();
    assert_eq!(sl.chunks().collect_string(), s[target_b..]);
    assert_eq!(sl.char_len(), s[target_b..].chars().count());
}

#[test]
fn info_combine() {
    let a = Info { byte_len: 6, char_len: 5 };
    let b = Info { byte_len: 4, char_len: 1 };
    assert_eq!(a.combine(b), Info { byte_len: 10, char_len: 6 });
    assert_eq!(Info::new().combine(a), a);
    assert_eq!(a.combine(b).combine(Info::new()), a.combine(b));
}

#[test]
fn rope_char_boundaries() {
    let r = Rope::from("a€b");
    let found: Vec<bool> = (0..7).map(|i| r.is_char_boundary(i)).collect();
    assert_eq!(found, vec![true, true, false, false, true, true, false]);
    let sl = r.slice(1..4).unwrap();
    assert!(sl.is_char_boundary(0));
    assert!(!sl.is_char_boundary(1));
    assert!(sl.is_char_boundary(3));
    assert!(!sl.is_char_boundary(4));
}

#[test]
fn slice_cursors() {
    let s = "xyz".repeat(2000);
    let r = Rope::from(&s);
    let sl = r.slice(100..5000).unwrap();
    let mut c = sl.cursor_front();
    let mut out = String::new();
    loop {
        out.push_str(c.current_chunk());
        if !c.advance_chunk() {
            break;
        }
    }
    assert_eq!(out, s[100..5000]);
    let mut c = sl.cursor_back();
    assert_eq!(c.chunk_end(), 5000);
    let mut total = 0;
    loop {
        total += c.current_chunk().len();
        if !c.retreat_chunk() {
            break;
        }
    }
    assert_eq!(total, 4900);
    assert_eq!(c.chunk_start(), 100);
}

#[test]
fn leaves_stay_bounded() {
    let s = "é".repeat(5000);
    let r = Rope::from(&s);
    let mut it = r.chunks();
    let mut count = 0;
    while let Some(c) = it.next() {
        assert!(c.len() <= MAX_LEAF_BYTES);
        count += 1;
    }
    assert!(count >= 10);
}

#[test]
fn empty_rope_iterators() {
    let r = Rope::empty();
    assert_eq!(r.chunks().next(), None);
    assert_eq!(r.chunks_rev().next(), None);
    assert_eq!(r.bytes().next(), None);
    assert_eq!(r.chars_rev().next(), None);
    assert_eq!(r.char_len(), 0);
    let mut c = r.cursor_front();
    assert_eq!(c.current_chunk(), "");
    assert!(!c.advance_chunk());
    assert!(!c.retreat_chunk());
}

fn chunk_lengths(r: &Rope) -> Vec<usize> {
    let mut out = Vec::new();
    let mut it = r.chunks();
    while let Some(c) = it.next() {
        out.push(c.len());
    }
    out
}

fn assert_leaves_hold_minimum(r: &Rope) {
    let lens = chunk_lengths(r);
    if lens.len() > 1 {
        for len in lens {
            assert!(len >= MIN_LEAF_BYTES && len <= MAX_LEAF_BYTES);
        }
    }
}

#[test]
fn leaves_hold_minimum_after_edits() {
    let mut r = Rope::empty();
    let mut expected = String::new();
    for i in 0..3000 {
        let piece = if i % 3 == 0 { "xé" } else { "yz€" };
        r.append(Rope::from(piece));
        expected.push_str(piece);
    }
    assert_leaves_hold_minimum(&r);
    for i in boundaries(&expected) {
        let mut left = r.clone();
        let right = left.split_off(i).unwrap();
        assert_leaves_hold_minimum(&left);
        assert_leaves_hold_minimum(&right);
        assert_eq!(left.chunks().collect_string(), expected[..i]);
        assert_eq!(right.chunks().collect_string(), expected[i..]);
    }
    let built = Rope::from(&expected);
    assert_leaves_hold_minimum(&built);
}
