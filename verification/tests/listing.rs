use flowstore::listing::flow_names_from_entries;
use flowstore::listing::sort_names;
use flowstore::order::str_lt;

#[test]
fn comparison_is_lexicographic() {
    assert!(str_lt("a", "b"));
    assert!(!str_lt("b", "a"));
    assert!(str_lt("a", "ab"));
    assert!(!str_lt("ab", "a"));
    assert!(str_lt("", "a"));
    assert!(!str_lt("a", ""));
    assert!(!str_lt("same", "same"));
    assert!(str_lt("Z", "a"));
    assert!(str_lt("abc", "abd"));
}

#[test]
fn sorting_orders_and_keeps_every_name() {
    let names = vec![
        String::from("pear"),
        String::from("apple"),
        String::from("pear"),
        String::from(""),
        String::from("fig"),
    ];
    let sorted = sort_names(names);
    assert_eq!(
        sorted,
        vec![
            String::from(""),
            String::from("apple"),
            String::from("fig"),
            String::from("pear"),
            String::from("pear"),
        ]
    );
}

#[test]
fn entries_are_filtered_stripped_and_sorted() {
    let entries = vec![
        String::from("b.json"),
        String::from("readme.txt"),
        String::from("a.json"),
        String::from("c.json"),
        String::from("archive.json.bak"),
        String::from("plain"),
    ];
    let names = flow_names_from_entries(&entries);
    assert_eq!(
        names,
        vec![String::from("a"), String::from("b"), String::from("c")]
    );
}

#[test]
fn no_entries_list_no_names() {
    let names = flow_names_from_entries(&Vec::new());
    assert_eq!(names, Vec::<String>::new());
}
