use rustyplot::ratio::Ratio;
use rustyplot::sorting::{
    click_header, sort_indicator, sort_rows, SortColumn, SortDirection, SortKey,
};

fn whole(n: u128) -> SortKey {
    SortKey::Finite(Ratio { num: n, den: 1 })
}

#[test]
fn default_sorting() {
    assert_eq!(SortColumn::default(), SortColumn::AvgRtt);
    assert_eq!(SortDirection::default(), SortDirection::Desc);
}

#[test]
fn clicks_toggle_the_direction() {
    let mut column = SortColumn::default();
    let mut direction = SortDirection::default();
    click_header(&mut column, &mut direction, SortColumn::Loss);
    assert_eq!((column, direction), (SortColumn::Loss, SortDirection::Asc));
    click_header(&mut column, &mut direction, SortColumn::Loss);
    assert_eq!((column, direction), (SortColumn::Loss, SortDirection::Desc));
    click_header(&mut column, &mut direction, SortColumn::Loss);
    assert_eq!((column, direction), (SortColumn::Loss, SortDirection::Asc));
    click_header(&mut column, &mut direction, SortColumn::PingCount);
    assert_eq!((column, direction), (SortColumn::PingCount, SortDirection::Asc));
}

#[test]
fn indicator_stands_at_the_current_column() {
    let asc = SortDirection::Asc;
    let desc = SortDirection::Desc;
    assert_eq!(sort_indicator(SortColumn::Loss, asc, SortColumn::Loss), Some(" \u{25B2}"));
    assert_eq!(sort_indicator(SortColumn::Loss, desc, SortColumn::Loss), Some(" \u{25BC}"));
    assert_eq!(sort_indicator(SortColumn::Loss, desc, SortColumn::AvgRtt), None);
}

#[test]
fn rows_are_sorted_both_ways() {
    let keys = vec![whole(5), SortKey::Infinite, whole(1), whole(3)];
    assert_eq!(sort_rows(&keys, SortDirection::Asc), vec![2, 3, 0, 1]);
    assert_eq!(sort_rows(&keys, SortDirection::Desc), vec![1, 0, 3, 2]);
    assert!(sort_rows(&vec![], SortDirection::Asc).is_empty());
}

#[test]
fn ties_keep_their_order_in_both_directions() {
    let keys = vec![whole(2), whole(1), whole(2), whole(1)];
    assert_eq!(sort_rows(&keys, SortDirection::Asc), vec![1, 3, 0, 2]);
    assert_eq!(sort_rows(&keys, SortDirection::Desc), vec![0, 2, 1, 3]);
    // 2/4 and 1/2 tie as well
    let halves = vec![
        SortKey::Finite(Ratio { num: 2, den: 4 }),
        SortKey::Finite(Ratio { num: 1, den: 2 }),
    ];
    assert_eq!(sort_rows(&halves, SortDirection::Desc), vec![0, 1]);
}

#[test]
fn kinds_of_keys_come_one_after_the_other() {
    let finite = whole(u128::MAX);
    let beyond = SortKey::Beyond(Ratio { num: 0, den: 1 });
    let infinite = SortKey::Infinite;
    assert!(finite.is_first(&beyond, SortDirection::Asc));
    assert!(beyond.is_first(&infinite, SortDirection::Asc));
    assert!(finite.is_first(&infinite, SortDirection::Asc));
    assert!(!infinite.is_first(&finite, SortDirection::Asc));
    assert!(!beyond.is_first(&finite, SortDirection::Asc));
    assert!(infinite.is_first(&beyond, SortDirection::Desc));
    assert!(!infinite.is_first(&infinite, SortDirection::Asc));
    let larger = SortKey::Beyond(Ratio { num: 1, den: 1 });
    assert!(beyond.is_first(&larger, SortDirection::Asc));
    assert!(!beyond.is_first(&beyond, SortDirection::Asc));
}
