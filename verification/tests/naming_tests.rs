use grid_anneal::next_file_index;
use grid_anneal::parse_numbered_csv;

fn names(list: &[&str]) -> Vec<Vec<u8>> {
    list.iter().map(|s| s.as_bytes().to_vec()).collect()
}

#[test]
fn parse_accepts_numbered_csv_names() {
    assert_eq!(parse_numbered_csv(&b"12.csv".to_vec()), Some(12));
    assert_eq!(parse_numbered_csv(&b"0.csv".to_vec()), Some(0));
    assert_eq!(parse_numbered_csv(&b"007.csv".to_vec()), Some(7));
    assert_eq!(parse_numbered_csv(&b"+5.csv".to_vec()), Some(5));
    assert_eq!(parse_numbered_csv(&b"4294967295.csv".to_vec()), Some(u32::MAX));
}

#[test]
fn parse_rejects_everything_else() {
    assert_eq!(parse_numbered_csv(&b"".to_vec()), None);
    assert_eq!(parse_numbered_csv(&b".csv".to_vec()), None);
    assert_eq!(parse_numbered_csv(&b"+.csv".to_vec()), None);
    assert_eq!(parse_numbered_csv(&b"1+2.csv".to_vec()), None);
    assert_eq!(parse_numbered_csv(&b"-3.csv".to_vec()), None);
    assert_eq!(parse_numbered_csv(&b"12.txt".to_vec()), None);
    assert_eq!(parse_numbered_csv(&b"12csv".to_vec()), None);
    assert_eq!(parse_numbered_csv(&b"a12.csv".to_vec()), None);
    assert_eq!(parse_numbered_csv(&b"4294967296.csv".to_vec()), None);
    assert_eq!(parse_numbered_csv(&b"99999999999999999999.csv".to_vec()), None);
}

#[test]
fn next_index_of_empty_directory_is_zero() {
    assert_eq!(next_file_index(&vec![]), 0);
}

#[test]
fn next_index_is_one_past_the_largest_numbered_entry() {
    let ns = names(&["3.csv", "12.csv", "x.csv", "7.txt", "nota.csv"]);
    assert_eq!(next_file_index(&ns), 13);
    assert_eq!(next_file_index(&names(&["0.csv"])), 1);
    assert_eq!(next_file_index(&names(&["5.csv", "5.csv"])), 6);
}

#[test]
fn next_index_ignores_unparsable_names() {
    let ns = names(&["readme.md", "data.txt", "99999999999999.csv"]);
    assert_eq!(next_file_index(&ns), 0);
}
