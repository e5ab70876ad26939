use flowstore::store::FlowError;
use flowstore::store::FlowStore;

fn names(store: &FlowStore) -> Vec<String> {
    store.list()
}

#[test]
fn round_trip_returns_payload() {
    let mut store = FlowStore::new();
    store.write("alpha", String::from("payload one"));
    let got = store.read("alpha");
    assert_eq!(got, Ok(String::from("payload one")));
}

#[test]
fn read_missing_name_not_found() {
    let store = FlowStore::new();
    let got = store.read("missing");
    assert_eq!(got, Err(FlowError::NotFound));
    assert_eq!(FlowError::NotFound.message(), String::from("flow not found"));
}

#[test]
fn read_other_name_not_found() {
    let mut store = FlowStore::new();
    store.write("alpha", String::from("data"));
    assert_eq!(store.read("beta"), Err(FlowError::NotFound));
}

#[test]
fn delete_is_idempotent() {
    let mut store = FlowStore::new();
    store.delete("never-written");
    store.write("alpha", String::from("data"));
    store.delete("alpha");
    store.delete("alpha");
    assert_eq!(store.read("alpha"), Err(FlowError::NotFound));
}

#[test]
fn overwrite_keeps_last_payload() {
    let mut store = FlowStore::new();
    store.write("alpha", String::from("first"));
    store.write("alpha", String::from("second"));
    assert_eq!(store.read("alpha"), Ok(String::from("second")));
    assert_eq!(names(&store), vec![String::from("alpha")]);
}

#[test]
fn list_on_fresh_store_is_empty() {
    let store = FlowStore::new();
    assert_eq!(names(&store), Vec::<String>::new());
}

#[test]
fn list_is_sorted() {
    let mut store = FlowStore::new();
    store.write("b", String::from("1"));
    store.write("a", String::from("2"));
    store.write("c", String::from("3"));
    assert_eq!(
        names(&store),
        vec![String::from("a"), String::from("b"), String::from("c")]
    );
}

#[test]
fn list_ignores_foreign_files() {
    let mut store = FlowStore::new();
    store.write("b", String::from("1"));
    store.write("a", String::from("2"));
    store.write("c", String::from("3"));
    store.place_file(String::from("readme.txt"), String::from("not a flow"));
    store.place_file(String::from("notes"), String::from("not a flow either"));
    assert_eq!(
        names(&store),
        vec![String::from("a"), String::from("b"), String::from("c")]
    );
}

#[test]
fn placed_conventional_file_is_listed() {
    let mut store = FlowStore::new();
    store.place_file(String::from("manual.json"), String::from("{}"));
    assert_eq!(names(&store), vec![String::from("manual")]);
    assert_eq!(store.read("manual"), Ok(String::from("{}")));
}

#[test]
fn write_read_delete_scenario() {
    let mut store = FlowStore::new();
    store.write("demo", String::from("{\"x\":1}"));
    assert_eq!(store.read("demo"), Ok(String::from("{\"x\":1}")));
    store.delete("demo");
    assert_eq!(store.read("demo"), Err(FlowError::NotFound));
    assert!(!names(&store).contains(&String::from("demo")));
}

#[test]
fn empty_name_is_a_valid_flow() {
    let mut store = FlowStore::new();
    store.write("", String::from("anonymous"));
    assert_eq!(store.read(""), Ok(String::from("anonymous")));
    assert_eq!(names(&store), vec![String::from("")]);
    store.delete("");
    assert_eq!(names(&store), Vec::<String>::new());
}

#[test]
fn payload_is_kept_byte_for_byte() {
    let mut store = FlowStore::new();
    let payload = String::from("  line one\n\tline two\u{263a} \r\n");
    store.write("raw", payload.clone());
    assert_eq!(store.read("raw"), Ok(payload));
}

#[test]
fn stores_are_independent_per_name() {
    let mut store = FlowStore::new();
    store.write("one", String::from("1"));
    store.write("two", String::from("2"));
    store.delete("one");
    assert_eq!(store.read("two"), Ok(String::from("2")));
    assert_eq!(store.read("one"), Err(FlowError::NotFound));
}
