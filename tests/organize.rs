use dhs::{date_dir, date_partition, place_entry, year_dir_name, DatePartition, Placement};

#[test]
fn epoch_and_known_dates() {
    assert_eq!(date_partition(0), Some(DatePartition { year: 1970, month: 1, day: 1 }));
    assert_eq!(date_partition(1_700_000_000), Some(DatePartition { year: 2023, month: 11, day: 14 }));
    assert_eq!(date_partition(-1), Some(DatePartition { year: 1969, month: 12, day: 31 }));
    assert_eq!(date_partition(i64::MAX), None);
}

#[test]
fn dated_directory_is_zero_padded() {
    let p = DatePartition { year: 2023, month: 3, day: 7 };
    assert_eq!(date_dir("root", p), "root/2023/03/07");
    assert_eq!(year_dir_name(5), "0005");
    assert_eq!(year_dir_name(-5), "-005");
    assert_eq!(year_dir_name(12345), "12345");
}

#[test]
fn files_move_and_directories_stay() {
    match place_entry("root", "a.txt", true, 1_700_000_000) {
        Placement::Move { dir, to } => {
            assert_eq!(dir, "root/2023/11/14");
            assert_eq!(to, "root/2023/11/14/a.txt");
        }
        _ => panic!("file was not moved"),
    }
    assert!(matches!(place_entry("root", "2023", false, 0), Placement::Stay));
    assert!(matches!(place_entry("root", "a.txt", true, i64::MAX), Placement::NoDate));
}

#[test]
fn second_organize_run_moves_nothing() {
    // After the first run the root holds only the date directories.
    let after_first = vec![("2023", false), ("1970", false)];
    for (name, is_file) in after_first {
        assert!(matches!(place_entry("root", name, is_file, 1_700_000_000), Placement::Stay));
    }
}
