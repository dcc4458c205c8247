use zuffy::lazy::{Given, Lazy};

#[test]
fn test_copy_value_unwrap() {
    const VALUE: u32 = 10;
    let x = Lazy::from_value(VALUE);
    assert_eq!(x.unwrap(), VALUE);
}

#[test]
fn test_copy_value_get() {
    const VALUE: u32 = 10;
    let mut x = Lazy::from_value(VALUE);
    let a = *x.get();
    let b = *x.get();
    assert_eq!(a, b);
    let first = format!("{:p}", x.get());
    let second = format!("{:p}", x.get());
    assert_eq!(first, second);
    assert_eq!(a, VALUE);
}

#[test]
fn test_nocopy_value_unwrap() {
    let value = "foobar".to_string();
    let x = Lazy::from_value(value.clone());
    assert_eq!(x.unwrap(), value);
}

#[test]
fn test_nocopy_value_get() {
    let value = "foobar".to_string();
    let mut x = Lazy::from_value(value.clone());
    let a = x.get().clone();
    let b = x.get().clone();
    assert_eq!(a, b);
    let first = format!("{:p}", x.get());
    let second = format!("{:p}", x.get());
    assert_eq!(first, second);
    assert_eq!(a, value);
}

#[test]
fn test_fn_unwrap() {
    let x = Lazy::from_fn(|| format!("{} {}", "A", "B"));
    assert_eq!(x.unwrap().as_str(), "A B");
}

#[test]
fn test_fn_get() {
    let mut x = Lazy::from_fn(|| format!("{} {}", "A", "B"));
    let a = x.get().clone();
    let b = x.get().clone();
    assert_eq!(a, b);
    let first = format!("{:p}", x.get());
    let second = format!("{:p}", x.get());
    assert_eq!(first, second);
    assert_eq!(a.as_str(), "A B");
}

#[test]
fn generator_runs_once() {
    let runs = std::rc::Rc::new(std::cell::Cell::new(0u32));
    let counter = runs.clone();
    let mut x = Lazy::from_fn(move || {
        counter.set(counter.get() + 1);
        7u64
    });
    assert_eq!(runs.get(), 0);
    assert_eq!(*x.get(), 7);
    assert_eq!(*x.get(), 7);
    assert_eq!(runs.get(), 1);
    assert_eq!(x.unwrap(), 7);
    assert_eq!(runs.get(), 1);
}

#[test]
fn a_given_value_is_generated_on_the_first_read() {
    let mut x = Lazy::from_fn(Given::new("kept".to_string()));
    assert_eq!(x.get().as_str(), "kept");
    assert_eq!(x.unwrap(), "kept");
}
