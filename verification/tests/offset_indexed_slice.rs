use rt_matchmaking::matchmaking::utils::OffsetIndexedSlice;

#[test]
fn from_slice_clips_at_left_edge() {
    let view = OffsetIndexedSlice::from_slice(&[10, 20, 30], 0, 2).unwrap();

    assert_eq!(view.get_offset(-1), None);
    assert_eq!(view.get_offset(0), Some(&10));
    assert_eq!(view.get_offset(1), Some(&20));
    assert_eq!(view.get_offset(2), Some(&30));
}

#[test]
fn from_slice_returns_empty_when_window_is_fully_out_of_range() {
    let view = OffsetIndexedSlice::from_slice(&[10, 20, 30], 10, 2).unwrap();

    assert_eq!(view.iter().count(), 0);
    assert_eq!(view.into_vec(), Vec::<i32>::new());
}

#[test]
fn from_slice_allows_empty_input() {
    let view = OffsetIndexedSlice::<i32>::from_slice(&[], 0, 3).unwrap();

    assert_eq!(view.iter().count(), 0);
    assert_eq!(view.into_vec(), Vec::<i32>::new());
}

#[test]
fn try_from_slice_map_succeeds_with_empty_overlap() {
    let view =
        OffsetIndexedSlice::try_from_slice_map(&mut [1, 2, 3], 10, 2, |value| Some(*value * 2)).unwrap();

    assert_eq!(view.iter().count(), 0);
}

#[test]
fn zip_preserves_only_overlapping_offsets() {
    let left = OffsetIndexedSlice::new(vec![1, 2].into_boxed_slice(), 0, 1);
    let right = OffsetIndexedSlice::new(vec![10, 20].into_boxed_slice(), 1, 1);

    let zipped = left.zip(right);

    assert_eq!(zipped.get_offset(-1), None);
    assert_eq!(zipped.get_offset(0), Some(&(1, 20)));
    assert_eq!(zipped.get_offset(1), None);
}

#[test]
fn map_into_materializes_only_the_visible_view() {
    let view = OffsetIndexedSlice::new(vec![10, 20, 30].into_boxed_slice(), 2, 0);

    assert_eq!(view.map_into(|value| value + 1).into_vec(), vec![31]);
}

#[test]
fn scan_only_visits_materialised_view() {
    let view = OffsetIndexedSlice::new(vec![10, 20, 30].into_boxed_slice(), 2, 0);
    let mut seen = Vec::new();

    view.scan(|value| seen.push(*value));

    assert_eq!(seen, vec![30]);
}

#[test]
fn from_slice_clips_at_right_edge() {
    let view = OffsetIndexedSlice::from_slice(&[1, 2, 3, 4], 3, 2).unwrap();

    assert_eq!(view.get_offset(-3), None);
    assert_eq!(view.get_offset(-2), Some(&2));
    assert_eq!(view.get_offset(-1), Some(&3));
    assert_eq!(view.get_offset(0), Some(&4));
    assert_eq!(view.get_offset(1), None);
    assert_eq!(view.into_vec(), vec![2, 3, 4]);
}

#[test]
fn get_offset_mut_writes_through_the_window() {
    let mut view = OffsetIndexedSlice::new(vec![5, 6, 7].into_boxed_slice(), 1, 1);

    *view.get_offset_mut(1).unwrap() += 10;
    assert!(view.get_offset_mut(2).is_none());

    assert_eq!(view.into_vec(), vec![5, 6, 17]);
}

#[test]
fn from_slice_map_passes_container_indices() {
    let view = OffsetIndexedSlice::from_slice_map(&[7, 8, 9, 10], 2, 1, |value, index| value * 100 + index as i32);

    assert_eq!(view.get_offset(-1), Some(&801));
    assert_eq!(view.get_offset(0), Some(&902));
    assert_eq!(view.get_offset(1), Some(&1003));
}

#[test]
fn try_from_slice_map_reports_the_first_refused_index() {
    let mut container = [2, 4, 5, 6];
    let result = OffsetIndexedSlice::try_from_slice_map(&mut container, 1, 2, |value| {
        if *value % 2 == 0 { Some(*value) } else { None }
    });

    assert_eq!(result.err(), Some(2));
}

#[test]
fn map_and_map_in_place_keep_the_offsets() {
    let mut view = OffsetIndexedSlice::new(vec![1, 2, 3].into_boxed_slice(), 1, 1);

    let doubled = view.map(|value| value * 2);
    assert_eq!(doubled.get_offset(-1), Some(&2));
    assert_eq!(doubled.get_offset(1), Some(&6));

    view.map_in_place(|value| *value += 1);
    assert_eq!(view.into_vec(), vec![2, 3, 4]);
}

#[test]
fn trim_keeps_the_view() {
    let view = OffsetIndexedSlice::new(vec![1, 2, 3, 4, 5].into_boxed_slice(), 3, 1).trim();

    assert_eq!(view.get_offset(-1), Some(&3));
    assert_eq!(view.get_offset(0), Some(&4));
    assert_eq!(view.get_offset(1), Some(&5));
    assert_eq!(view.get_offset(2), None);
    assert_eq!(view.into_vec(), vec![3, 4, 5]);
}

#[test]
fn new_mut_view_borrows_the_window() {
    let mut container = [1, 2, 3, 4];
    {
        let mut view = OffsetIndexedSlice::new_mut_view(&mut container, 0, 1);
        assert!(view.get_offset(-1).is_none());
        **view.get_offset_mut(1).unwrap() = 20;
    }

    assert_eq!(container, [1, 20, 3, 4]);
}

#[test]
fn mutable_view_writes_through_to_its_entry_only() {
    let mut container = [1, 2, 3, 4, 5];
    {
        let mut view = OffsetIndexedSlice::new_mut_view(&mut container, 2, 1);
        **view.get_offset_mut(1).unwrap() = 40;
    }
    assert_eq!(container, [1, 2, 3, 40, 5]);
}

#[test]
fn offsets_beyond_the_limit_read_nothing() {
    let view = OffsetIndexedSlice::from_slice(&[1, 2, 3, 4, 5], 2, 1).unwrap();
    assert!(view.get_offset(2).is_none());
    assert!(view.get_offset(-2).is_none());
    assert_eq!(*view.get_offset(1).unwrap(), 4);
}
