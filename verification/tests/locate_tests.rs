use d_td::locate::{db_file_name, locate};

#[test]
fn reserved_filename_is_fixed() {
    assert_eq!(db_file_name(), ".todo.db.txt");
}

#[test]
fn nested_subdirectory_finds_ancestor_database() {
    // Position 0 is the starting directory, deeper in the tree; position 2
    // is the ancestor that holds the reserved filename. The ancestor's file
    // wins over creating a new one in the subdirectory.
    let probes = vec![false, false, true];
    assert_eq!(locate(&probes), Some(2));
}

#[test]
fn current_directory_database_wins_over_ancestors() {
    let probes = vec![true, true, false];
    assert_eq!(locate(&probes), Some(0));
}

#[test]
fn no_database_anywhere_means_a_fresh_one() {
    let probes = vec![false, false, false];
    assert_eq!(locate(&probes), None);
    assert_eq!(locate(&Vec::new()), None);
}

#[test]
fn nearest_of_several_databases_is_chosen() {
    let probes = vec![false, true, true];
    assert_eq!(locate(&probes), Some(1));
}
