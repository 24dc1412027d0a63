use regexrel::charset::{alphabet_partition, representative_chars, CharSet, Interval};
use regexrel::config::Alphabet;


#[test]
fn alphabet_partition_covers_a_range_ending_at_the_last_scalar_value() {
    // Regression guard: this used to add a boundary *after* an
    // interval's end only when `end < 0x10ffff`, so an interval ending
    // exactly at the top of the Unicode range got no trailing boundary.
    // Since `alphabet_partition` recovers ranges by pairing *adjacent*
    // boundaries with `windows(2)`, that left the interval's own
    // boundary unpaired -- silently dropping the whole top range from
    // the returned partition (and so from the DFA transitions built
    // from it), even though the interval itself was well-formed.
    let set = CharSet::from_u32_intervals(vec![Interval::new(0x10fffe, 0x10ffff)]);
    let partition = alphabet_partition(&[&set]);
    assert_eq!(
        partition,
        vec![(0x10fffe, 0x10ffff, char::from_u32(0x10fffe).unwrap())],
        "range ending at U+10FFFF must survive the partition, not be silently dropped"
    );
}

/// `representative_chars` and `alphabet_partition` both accept either
/// `&[CharSet]` (owned sets) or `&[&CharSet]` (references into someone
/// else's data) via `Borrow<CharSet>`, so every existing call site could
/// switch to the shared versions without an extra allocation or clone
/// just to match a different shape. Exercise both shapes directly so a
/// future signature change that breaks one of them fails here, not only
/// via a knock-on compile error at some call site.
#[test]
fn accepts_both_owned_and_referenced_charset_slices() {
    let owned: Vec<CharSet> = vec![CharSet::from_interval('a', 'c')];
    let borrowed: Vec<&CharSet> = owned.iter().collect();
    assert_eq!(
        representative_chars(&owned),
        representative_chars(&borrowed)
    );
    assert_eq!(alphabet_partition(&owned), alphabet_partition(&borrowed));
}

#[test]
fn merges_adjacent_and_overlapping_intervals() {
    let set = CharSet::from_u32_intervals(vec![
        Interval::new(10, 12),
        Interval::new(13, 14),
        Interval::new(5, 8),
        Interval::new(7, 11),
    ]);
    assert_eq!(set.intervals(), &[Interval::new(5, 14)]);
}

#[test]
fn union_normalizes_both_inputs() {
    let left = CharSet::from_interval('a', 'c');
    let right = CharSet::from_interval('d', 'f');
    assert_eq!(
        left.union(&right).intervals(),
        &[Interval::new('a' as u32, 'f' as u32)]
    );
}

#[test]
fn intersection_keeps_only_shared_ranges() {
    let left = CharSet::from_u32_intervals(vec![Interval::new(0, 5), Interval::new(10, 20)]);
    let right = CharSet::from_u32_intervals(vec![Interval::new(3, 12), Interval::new(18, 30)]);
    assert_eq!(
        left.intersect(&right).intervals(),
        &[
            Interval::new(3, 5),
            Interval::new(10, 12),
            Interval::new(18, 20),
        ]
    );
}

#[test]
fn subtraction_can_split_an_interval() {
    let source = CharSet::from_u32_intervals(vec![Interval::new(0, 10)]);
    let removed = CharSet::from_u32_intervals(vec![Interval::new(3, 7)]);
    assert_eq!(
        source.subtract(&removed).intervals(),
        &[Interval::new(0, 2), Interval::new(8, 10)]
    );
}

#[test]
fn subtracting_disjoint_set_is_identity() {
    let source = CharSet::from_interval('a', 'z');
    let removed = CharSet::ascii_digits();
    assert_eq!(source.subtract(&removed), source);
}

#[test]
fn complement_respects_ascii_domain() {
    let complement = CharSet::ascii_digits().complement(Alphabet::Ascii);
    assert!(complement.contains('a'));
    assert!(!complement.contains('4'));
    assert!(!complement.contains('é'));
}

#[test]
fn unicode_universe_excludes_surrogates() {
    let universe = CharSet::empty().complement(Alphabet::Unicode);
    assert!(universe.contains('\u{d7ff}'));
    assert!(universe.contains('\u{e000}'));
    assert!(universe.contains('\u{10ffff}'));
    assert_eq!(
        universe.intervals(),
        &[Interval::new(0, 0xd7ff), Interval::new(0xe000, 0x10ffff)]
    );
}

#[test]
fn dot_excludes_only_newline_when_requested() {
    let dot = CharSet::any(Alphabet::Ascii, false);
    assert!(dot.contains('\r'));
    assert!(!dot.contains('\n'));
    assert!(dot.contains('a'));
}

#[test]
fn shorthand_sets_have_documented_ascii_membership() {
    assert!(CharSet::ascii_digits().contains('7'));
    assert!(!CharSet::ascii_digits().contains('x'));
    assert!(CharSet::ascii_word().contains('_'));
    assert!(CharSet::ascii_word().contains('Z'));
    assert!(!CharSet::ascii_word().contains('-'));
    assert!(CharSet::ascii_space().contains('\t'));
    assert!(CharSet::ascii_space().contains(' '));
    assert!(!CharSet::ascii_space().contains('a'));
}

#[test]
fn contains_binary_search_handles_gaps_and_boundaries() {
    let set = CharSet::from_u32_intervals(vec![
        Interval::new('a' as u32, 'c' as u32),
        Interval::new('x' as u32, 'z' as u32),
    ]);
    for member in ['a', 'b', 'c', 'x', 'y', 'z'] {
        assert!(set.contains(member), "{member:?}");
    }
    for nonmember in ['`', 'd', 'w', '{'] {
        assert!(!set.contains(nonmember), "{nonmember:?}");
    }
}

#[test]
fn union_merges_two_normalized_lists_without_resorting() {
    let left = CharSet::from_u32_intervals(vec![Interval::new(1, 2), Interval::new(10, 12)]);
    let right = CharSet::from_u32_intervals(vec![
        Interval::new(3, 4),
        Interval::new(8, 9),
        Interval::new(20, 21),
    ]);
    assert_eq!(
        left.union(&right).intervals(),
        &[
            Interval::new(1, 4),
            Interval::new(8, 12),
            Interval::new(20, 21),
        ]
    );
}
