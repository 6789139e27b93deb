use frayed::{Defray, FraughtTools, Frayed, FrayedIter, FrayedTools, Group, Prefix, UnfusedPrefix};

/// Yields 1, 2, None, 4, 5, None, 7, None, None, ...
fn seven() -> FrayedIter<u8> {
    FrayedIter::new(vec![Some(1), Some(2), None, Some(4), Some(5), None, Some(7), None, None])
}

/// Reads a producer up to its first terminator, as an ordinary iterator is read.
fn until_none<J: Frayed<Item = u8>>(it: &mut J) -> Vec<u8> {
    let mut out = Vec::new();
    while let Some(x) = it.next() {
        out.push(x);
    }
    out
}

fn all_groups<J: Frayed<Item = u8>>(split: &mut Defray<J>) -> Vec<Vec<u8>> {
    let mut out = Vec::new();
    while let Some(g) = split.next_group() {
        out.push(g.collect(split));
    }
    out
}

#[test]
fn test_vec_into_iter_clone() {
    let v = vec![1, 2, 3];
    let i = v.into_iter();
    let c = i.clone();
    assert_eq!(c.count(), 3);
    assert_eq!(i.count(), 3);
}

#[test]
fn test_prefix() {
    let v: Vec<u8> = vec![1, 2, 3];
    let mut split = v.prefix(seven()).defray();
    let first = split.next_group().unwrap();
    let second = split.next_group().unwrap();
    let third = split.next_group().unwrap();
    assert!(split.next_group().is_none());
    assert!(split.next_group().is_none());

    let v: Vec<_> = third.collect(&mut split);
    assert_eq!(v, [1, 2, 3, 7]);
    let v: Vec<_> = second.collect(&mut split);
    assert_eq!(v, [1, 2, 3, 4, 5]);
    let v: Vec<_> = first.collect(&mut split);
    assert_eq!(v, [1, 2, 3, 1, 2]);
}

#[test]
fn defray_unfused() {
    let v: Vec<_> = until_none(&mut seven());
    assert_eq!(v, [1, 2]);
    let mut split = seven().defray();
    let iter = split.next_group().unwrap();
    let v: Vec<_> = iter.collect(&mut split);
    assert_eq!(v, [1, 2]);

    let iter = split.next_group().unwrap();
    let v: Vec<_> = iter.collect(&mut split);
    assert_eq!(v, [4, 5]);
    let iter = split.next_group().unwrap();
    let v: Vec<_> = iter.collect(&mut split);
    assert_eq!(v, [7]);
    assert!(split.next_group().is_none());
}

#[test]
fn split_unfused_on_fused() {
    // An ordinary sequence read as frayed has one group.
    let mut split = vec![1u8, 2].frayed().defray();
    let first = split.next_group().unwrap();
    assert_eq!(first.collect(&mut split), [1, 2]);
    assert!(split.next_group().is_none());
}

#[test]
fn split_unfused_drop_second() {
    let v: Vec<_> = until_none(&mut seven());
    assert_eq!(v, [1, 2]);
    let mut split = seven().defray();
    let iter = split.next_group().unwrap();
    let v: Vec<_> = iter.collect(&mut split);
    assert_eq!(v, [1, 2]);

    // Drop this one.
    if let Some(g) = split.next_group() {
        g.release(&mut split);
    }
    let iter = split.next_group().unwrap();
    let v: Vec<_> = iter.collect(&mut split);
    assert_eq!(v, [7]);
    assert!(split.next_group().is_none());
}

#[test]
fn split_unfused_out_of_order() {
    let mut split = seven().defray();
    let first = split.next_group().unwrap();
    let second = split.next_group().unwrap();
    let third = split.next_group().unwrap();
    assert!(split.next_group().is_none());
    assert!(split.next_group().is_none());

    let v: Vec<_> = third.collect(&mut split);
    assert_eq!(v, [7]);
    let v: Vec<_> = second.collect(&mut split);
    assert_eq!(v, [4, 5]);
    let v: Vec<_> = first.collect(&mut split);
    assert_eq!(v, [1, 2]);
}

#[test]
fn split_map() {
    let defray = seven().defray();
    let split = defray.map(|x: Vec<u8>| x.iter().sum::<u8>());
    let v: Vec<u8> = split.into_vec();
    assert_eq!(v, vec![3, 9, 7]);
}

#[test]
fn in_order_reading_allocates_no_queue() {
    let mut split = seven().defray();
    let mut seen = Vec::new();
    while let Some(mut g) = split.next_group() {
        assert_eq!(split.buffered_groups(), 0);
        let mut group = Vec::new();
        while let Some(x) = g.next(&mut split) {
            group.push(x);
            assert_eq!(split.buffered_groups(), 0);
        }
        g.release(&mut split);
        seen.push(group);
    }
    assert_eq!(split.buffered_groups(), 0);
    assert_eq!(seen, vec![vec![1, 2], vec![4, 5], vec![7]]);
}

#[test]
fn reading_ahead_buffers_then_reclaims() {
    let mut split = seven().defray();
    let first = split.next_group().unwrap();
    let second = split.next_group().unwrap();
    assert_eq!(split.buffered_groups(), 1);
    assert_eq!(first.collect(&mut split), [1, 2]);
    assert_eq!(split.buffered_groups(), 0);
    assert_eq!(second.collect(&mut split), [4, 5]);
}

#[test]
fn double_terminator_ends_the_split() {
    // [1, 2], then a terminator at once: that is the end, [4, 5] is never read.
    let input = vec![Some(1u8), Some(2), None, None, Some(4), Some(5)];
    let mut split = FrayedIter::new(input).defray();
    assert_eq!(all_groups(&mut split), vec![vec![1, 2]]);
    assert!(split.next_group().is_none());
    let mut rest = split.into_inner();
    assert_eq!(until_none(&mut rest), [4, 5]);
}

#[test]
fn empty_first_group_is_reported_as_none() {
    let input = vec![None, Some(4u8), Some(5)];
    let mut split = FrayedIter::new(input).defray();
    assert!(split.next_group().is_none());
    let g = split.next_group().unwrap();
    assert_eq!(g.collect(&mut split), [4, 5]);
    assert!(split.next_group().is_none());
}

#[test]
fn out_of_order_matches_in_order() {
    let input = vec![Some(1u8), None, Some(2), Some(3), None, Some(4), Some(5), Some(6)];
    let mut in_order = FrayedIter::new(input.clone()).defray();
    let expected = all_groups(&mut in_order);
    assert_eq!(expected, vec![vec![1], vec![2, 3], vec![4, 5, 6]]);

    let mut split = FrayedIter::new(input).defray();
    let a = split.next_group().unwrap();
    let mut b = split.next_group().unwrap();
    let c = split.next_group().unwrap();
    assert_eq!(b.next(&mut split), Some(2));
    assert_eq!(c.collect(&mut split), expected[2]);
    assert_eq!(a.collect(&mut split), expected[0]);
    assert_eq!(b.next(&mut split), Some(3));
    assert_eq!(b.next(&mut split), None);
}

#[test]
fn dropping_a_group_keeps_the_others() {
    let input = vec![Some(1u8), Some(2), None, Some(3), Some(4), None, Some(5)];
    let mut split = FrayedIter::new(input).defray();
    let a = split.next_group().unwrap();
    let b = split.next_group().unwrap();
    a.release(&mut split);
    let c = split.next_group().unwrap();
    assert_eq!(c.collect(&mut split), [5]);
    assert_eq!(b.collect(&mut split), [3, 4]);
    assert!(split.next_group().is_none());
}

#[test]
fn exhausted_group_stays_exhausted() {
    let mut split = seven().defray();
    let mut g = split.next_group().unwrap();
    assert_eq!(g.next(&mut split), Some(1));
    assert_eq!(g.next(&mut split), Some(2));
    for _ in 0..3 {
        assert_eq!(g.next(&mut split), None);
    }
    let h = split.next_group().unwrap();
    assert_eq!(h.collect(&mut split), [4, 5]);
    assert_eq!(g.next(&mut split), None);
}

#[test]
fn prefix_before_each_group() {
    let p: Vec<u8> = vec![1, 2];
    let mut split = p.prefix(seven()).defray();
    assert_eq!(all_groups(&mut split), vec![vec![1, 2, 1, 2], vec![1, 2, 4, 5], vec![1, 2, 7]]);
    assert!(split.next_group().is_none());
}

#[test]
fn prefix_two_groups_round_trip() {
    let post = FrayedIter::new(vec![Some(10u8), None, Some(20), Some(21)]);
    let mut split = Prefix::new(vec![7u8, 8], post).defray();
    assert_eq!(all_groups(&mut split), vec![vec![7, 8, 10], vec![7, 8, 20, 21]]);
}

#[test]
fn prefix_of_empty_postfix() {
    let empty: Vec<Option<u8>> = Vec::new();
    let mut split = Prefix::new(vec![7u8, 8], FrayedIter::new(empty.clone())).defray();
    assert!(split.next_group().is_none());
    assert!(split.next_group().is_none());

    let forced = Prefix::new(vec![7u8, 8], FrayedIter::new(empty.clone())).prefix_empty(true);
    let mut split = forced.defray();
    assert_eq!(all_groups(&mut split), vec![vec![7, 8]]);
    assert!(split.next_group().is_none());

    let off = Prefix::new(vec![7u8, 8], FrayedIter::new(empty.clone())).prefix_empty(false);
    let mut split = off.defray();
    assert!(split.next_group().is_none());

    let required = UnfusedPrefix::new(vec![7u8, 8], FrayedIter::new(empty)).require_prefix();
    let mut split = required.defray();
    assert_eq!(all_groups(&mut split), vec![vec![7, 8]]);
}

#[test]
fn unfused_prefix_matches_prefix() {
    let mut split = UnfusedPrefix::new(vec![1u8, 2], seven()).defray();
    assert_eq!(all_groups(&mut split), vec![vec![1, 2, 1, 2], vec![1, 2, 4, 5], vec![1, 2, 7]]);
    let mut again = UnfusedPrefix::new(vec![1u8, 2], seven()).require_prefix();
    assert_eq!(until_none(&mut again), [1, 2, 1, 2]);
}

#[test]
fn producer_is_handed_back() {
    let mut split = seven().defray();
    let g = split.next_group().unwrap();
    assert_eq!(g.collect(&mut split), [1, 2]);
    let mut rest = split.into_inner();
    assert_eq!(until_none(&mut rest), [4, 5]);
}

#[test]
fn producer_can_be_borrowed() {
    let split = vec![3u8].frayed().defray();
    let it: &FrayedIter<u8> = split.iter_ref();
    let _ = it;
    let mut whole = split.into_inner();
    assert_eq!(until_none(&mut whole), [3]);
}

#[test]
fn map_stops_at_an_empty_first_group() {
    let input = vec![None, Some(4u8)];
    let split = FrayedIter::new(input).defray();
    let v: Vec<usize> = split.map(|x: Vec<u8>| x.len()).into_vec();
    assert!(v.is_empty());
}

#[test]
fn group_type_is_public() {
    let mut split = seven().defray();
    let g: Group<u8> = split.next_group().unwrap();
    assert_eq!(g.collect(&mut split), [1, 2]);
}
