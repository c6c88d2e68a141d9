use ironlog::{
    get_initial_number_of_wal, get_next_number_of_wal, get_wal_sequence, is_segment_name,
    is_wal_file, rotated_segment_path, segment_file_name, segment_path_in, segment_sequence,
};

#[test]
fn test_is_wal_file() {
    let path1 = "wal-0001.bin";
    let path2 = "./";
    let path3 = "/etc/passwd";

    assert_eq!(true, is_wal_file(path1));
    assert_eq!(false, is_wal_file(path2));
    assert_eq!(false, is_wal_file(path3));
}

#[test]
fn test_get_next_number_of_wal() {
    let path1 = "wal-0000.bin";
    let path2 = "wal-0123.bin";
    let path3 = "./";
    let path4 = "/etc/passwd";

    assert_eq!(1, get_next_number_of_wal(path1));
    assert_eq!(124, get_next_number_of_wal(path2));
    assert_eq!(0, get_next_number_of_wal(path3));
    assert_eq!(0, get_next_number_of_wal(path4));
}

#[test]
fn test_get_initial_number_of_wal() {
    let mut listing: Vec<String> = Vec::new();
    let init_number = get_initial_number_of_wal(&listing);
    assert_eq!(init_number, 0);

    listing.push(String::from("/tmp/log/wal-0000.bin"));
    let init_number = get_initial_number_of_wal(&listing);
    assert_eq!(init_number, 1);

    listing.push(String::from("/tmp/log/wal-0123.bin"));
    let init_number = get_initial_number_of_wal(&listing);
    assert_eq!(init_number, 124);
}

#[test]
fn initial_number_ignores_order_and_strays() {
    let listing = vec![
        String::from("./wal-0123.bin"),
        String::from("./stray.bin"),
        String::from("./wal-0000.bin"),
        String::from("./wal-12.bin"),
    ];
    assert_eq!(get_initial_number_of_wal(&listing), 124);
    let strays = vec![String::from("./stray.bin"), String::from("./wal-abcd.bin")];
    assert_eq!(get_initial_number_of_wal(&strays), 0);
}

#[test]
fn segment_names_are_strict() {
    assert!(is_segment_name("wal-0000.bin"));
    assert!(is_segment_name("wal-0123.bin"));
    assert!(!is_segment_name("wal-00001.bin"));
    assert!(!is_segment_name("wal-abcd.bin"));
    assert!(!is_segment_name("notwal-0001.bin"));
    assert!(!is_segment_name("wal-0001.txt"));
    assert!(!is_segment_name("wal-001.bin"));
    assert!(!is_segment_name("WAL-0001.bin"));
    assert!(!is_segment_name(""));
    assert!(!is_segment_name("wal-٣٣.bin"));
}

#[test]
fn segment_paths_are_judged_by_file_name() {
    assert!(is_wal_file("/var/log/app/wal-0042.bin"));
    assert!(!is_wal_file("/var/log/app/wal-00001.bin"));
    assert!(!is_wal_file("/var/log/app/wal-0001.txt"));
    assert!(!is_wal_file("/var/log/app/"));
    assert!(!is_wal_file("wal-0001.bin/.."));
    assert!(!is_wal_file("/"));
    assert!(!is_wal_file(""));
}

#[test]
fn sequences_are_read_from_names() {
    assert_eq!(segment_sequence("wal-0123.bin"), Some(123));
    assert_eq!(segment_sequence("wal-9999.bin"), Some(9999));
    assert_eq!(segment_sequence("wal-12x4.bin"), None);
    assert_eq!(get_wal_sequence("/data/wal-0007.bin"), Some(7));
    assert_eq!(get_wal_sequence("/data/wal-7.bin"), None);
    assert_eq!(get_next_number_of_wal("/data/wal-9999.bin"), 10000);
}

#[test]
fn segment_file_names_are_zero_padded() {
    assert_eq!(segment_file_name(0), "wal-0000.bin");
    assert_eq!(segment_file_name(7), "wal-0007.bin");
    assert_eq!(segment_file_name(124), "wal-0124.bin");
    assert_eq!(segment_file_name(9999), "wal-9999.bin");
    assert_eq!(segment_file_name(12345), "wal-12345.bin");
}

#[test]
fn segment_paths_join_directory_and_name() {
    assert_eq!(segment_path_in("/var/log", 3), "/var/log/wal-0003.bin");
    assert_eq!(segment_path_in("", 3), "./wal-0003.bin");
}

#[test]
fn rotation_targets_the_next_sibling_segment() {
    assert_eq!(rotated_segment_path("/tmp/d/wal-0000.bin"), "/tmp/d/wal-0001.bin");
    assert_eq!(rotated_segment_path("/tmp/d/wal-0123.bin"), "/tmp/d/wal-0124.bin");
    assert_eq!(rotated_segment_path("wal-0000.bin"), "./wal-0001.bin");
    assert_eq!(rotated_segment_path("/tmp/d/other.bin"), "/tmp/d/wal-0000.bin");
}
