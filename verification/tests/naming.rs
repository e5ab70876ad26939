use flowstore::naming::flow_file_name;
use flowstore::naming::flow_name_of;
use flowstore::naming::is_flow_file_name;
use flowstore::naming::resolve_root;

#[test]
fn file_name_appends_extension() {
    assert_eq!(flow_file_name("alpha"), String::from("alpha.json"));
    assert_eq!(flow_file_name(""), String::from(".json"));
    assert_eq!(flow_file_name("a.json"), String::from("a.json.json"));
}

#[test]
fn conventional_names_are_recognised() {
    assert!(is_flow_file_name("alpha.json"));
    assert!(is_flow_file_name(".json"));
    assert!(is_flow_file_name("a.b.json"));
    assert!(!is_flow_file_name("alpha.txt"));
    assert!(!is_flow_file_name("alpha"));
    assert!(!is_flow_file_name("json"));
    assert!(!is_flow_file_name(""));
    assert!(!is_flow_file_name("alpha.json.bak"));
}

#[test]
fn flow_name_strips_one_extension() {
    assert_eq!(flow_name_of("alpha.json"), Some(String::from("alpha")));
    assert_eq!(flow_name_of(".json"), Some(String::from("")));
    assert_eq!(flow_name_of("a.json.json"), Some(String::from("a.json")));
    assert_eq!(flow_name_of("alpha.txt"), None);
    assert_eq!(flow_name_of("alpha"), None);
}

#[test]
fn root_is_fixed_subdirectory_of_working_directory() {
    assert_eq!(
        resolve_root(Some(String::from("/home/user"))),
        String::from("/home/user/.flowtool")
    );
}

#[test]
fn root_falls_back_to_current_directory() {
    assert_eq!(resolve_root(None), String::from("./.flowtool"));
}
