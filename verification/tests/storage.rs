use socketing::storage::FunctionalStorage;

#[test]
fn calls_the_function_filed_under_a_name() {
    let store: FunctionalStorage<Box<dyn Fn() -> i32>> = FunctionalStorage::new(vec![
        ("f1".to_string(), Box::new(|| 1) as Box<dyn Fn() -> i32>),
        ("add2".to_string(), Box::new(|| 2 + 3) as Box<dyn Fn() -> i32>),
    ]);
    assert_eq!(store.call("f1"), 1);
    assert_eq!(store.call("add2"), 5);
}

#[test]
fn later_entry_under_a_name_wins() {
    let store: FunctionalStorage<Box<dyn Fn() -> &'static str>> = FunctionalStorage::new(vec![
        ("f".to_string(), Box::new(|| "first") as Box<dyn Fn() -> &'static str>),
        ("g".to_string(), Box::new(|| "other") as Box<dyn Fn() -> &'static str>),
        ("f".to_string(), Box::new(|| "second") as Box<dyn Fn() -> &'static str>),
    ]);
    assert_eq!(store.call("f"), "second");
    assert_eq!(store.call("g"), "other");
}

#[test]
fn unit_functions_run_on_call() {
    let counter = std::rc::Rc::new(std::cell::Cell::new(0));
    let c = counter.clone();
    let store: FunctionalStorage<Box<dyn Fn()>> = FunctionalStorage::new(vec![(
        "f1".to_string(),
        Box::new(move || c.set(c.get() + 1)) as Box<dyn Fn()>,
    )]);
    store.call("f1");
    store.call("f1");
    assert_eq!(counter.get(), 2);
}
