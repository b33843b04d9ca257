use sort_files::naming::{unique_relative_path, NameSet};

#[test]
fn first_name_is_the_file_name() {
    let mut names = NameSet::new();
    assert_eq!(unique_relative_path("", "a.txt", &mut names), "a.txt");
    assert!(names.contains(&"a.txt".to_string()));
}

#[test]
fn repeated_collisions_count_up() {
    let mut names = NameSet::new();
    assert_eq!(unique_relative_path("", "a.txt", &mut names), "a.txt");
    assert_eq!(unique_relative_path("", "a.txt", &mut names), "a_1.txt");
    assert_eq!(unique_relative_path("", "a.txt", &mut names), "a_2.txt");
    assert_eq!(unique_relative_path("", "a.txt", &mut names), "a_3.txt");
}

#[test]
fn name_without_extension() {
    let mut names = NameSet::new();
    assert_eq!(unique_relative_path("", "README", &mut names), "README");
    assert_eq!(unique_relative_path("", "README", &mut names), "README_1");
}

#[test]
fn suffix_goes_before_last_dot() {
    let mut names = NameSet::new();
    assert_eq!(unique_relative_path("", "a.tar.gz", &mut names), "a.tar.gz");
    assert_eq!(unique_relative_path("", "a.tar.gz", &mut names), "a.tar_1.gz");
}

#[test]
fn base_directory_is_joined() {
    let mut names = NameSet::new();
    assert_eq!(unique_relative_path("2023", "a.jpg", &mut names), "2023/a.jpg");
    assert_eq!(unique_relative_path("2023", "a.jpg", &mut names), "2023/a_1.jpg");
    assert_eq!(unique_relative_path("2024", "a.jpg", &mut names), "2024/a.jpg");
}

#[test]
fn taken_variant_is_skipped() {
    let mut names = NameSet::new();
    names.insert("a.txt".to_string());
    names.insert("a_1.txt".to_string());
    let r = unique_relative_path("", "a.txt", &mut names);
    assert_eq!(r, "a_2.txt");
    assert!(names.contains(&"a_2.txt".to_string()));
}
