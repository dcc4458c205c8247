use std::cell::{Cell, RefCell};
use std::rc::Rc;
use zuffy::future::{
    Engine, Fulfiller, Future, Mapper, Next, NoopFulfiller, PrematureSync, Promise, SyncFuture,
};

struct Through<T>(Box<dyn FnOnce(T) -> T>);

impl<T> Mapper<T> for Through<T> {
    fn through(self, from: T) -> T {
        (self.0)(from)
    }
}

fn through<T>(f: impl FnOnce(T) -> T + 'static) -> Through<T> {
    Through(Box::new(f))
}

struct Then<T>(Box<dyn FnOnce(&mut Chain<T>, T) -> Future<T>>);

impl<T> Next<T, Through<T>> for Then<T> {
    fn next(self, engine: &mut Chain<T>, from: T) -> Future<T> {
        (self.0)(engine, from)
    }
}

fn then<T>(f: impl FnOnce(&mut Chain<T>, T) -> Future<T> + 'static) -> Then<T> {
    Then(Box::new(f))
}

type Chain<T> = Engine<T, Through<T>, Then<T>>;

struct ConstantFulfiller<T: Clone + Default> {
    constant: T,
    promise: Option<Promise<T>>,
    eager: bool,
}

impl<T: Clone + Default> ConstantFulfiller<T> {
    fn new() -> ConstantFulfiller<T> {
        ConstantFulfiller { constant: Default::default(), promise: None, eager: false }
    }

    fn new_eager(eager: bool) -> ConstantFulfiller<T> {
        ConstantFulfiller { constant: Default::default(), promise: None, eager }
    }

    fn start(
        &mut self,
        engine: &mut Chain<T>,
        constant: T,
    ) -> SyncFuture<'_, T, ConstantFulfiller<T>> {
        self.constant = constant;
        SyncFuture::new(engine, self)
    }

    fn poll(&mut self, engine: &mut Chain<T>) {
        if self.eager {
            return;
        }
        self.promise.take().unwrap().fulfill(engine, self.constant.clone());
    }
}

impl<T: Clone + Default> Fulfiller<T, Through<T>, Then<T>> for ConstantFulfiller<T> {
    fn sync(&mut self, engine: &mut Chain<T>, promise: Promise<T>) {
        promise.fulfill(engine, self.constant.clone());
    }

    fn async_(&mut self, engine: &mut Chain<T>, promise: Promise<T>) {
        if self.eager {
            promise.fulfill(engine, self.constant.clone());
        } else {
            self.promise = Some(promise);
        }
    }
}

struct IdleFulfiller;

impl Fulfiller<u32, Through<u32>, Then<u32>> for IdleFulfiller {
    fn sync(&mut self, _engine: &mut Chain<u32>, _promise: Promise<u32>) {}

    fn async_(&mut self, _engine: &mut Chain<u32>, _promise: Promise<u32>) {}
}

#[test]
fn test_copy_sync() {
    let mut engine = Chain::new();
    let mut ful = ConstantFulfiller::new();
    assert_eq!(ful.start(&mut engine, 5u32).sync(&mut engine), Ok(5u32));
    assert_eq!(ful.start(&mut engine, 6u32).sync(&mut engine), Ok(6u32));
}

#[test]
fn test_nocopy_sync() {
    let mut engine = Chain::new();
    let mut ful = ConstantFulfiller::new();
    assert_eq!(ful.start(&mut engine, "yah".to_string()).sync(&mut engine).unwrap().as_str(), "yah");
    assert_eq!(ful.start(&mut engine, "gah".to_string()).sync(&mut engine).unwrap().as_str(), "gah");
}

#[test]
fn test_async() {
    for eager in [false, true].iter() {
        let mut engine = Chain::new();
        let mut ful = ConstantFulfiller::new_eager(*eager);
        let called_getter: Rc<Cell<bool>> = Rc::new(Cell::new(false));
        let called_setter = called_getter.clone();

        {
            let cont = ful.start(&mut engine, "foo".to_string()).async_(&mut engine);
            assert_eq!(cont.ready(&engine), *eager);
            let _ = cont.map(
                &mut engine,
                through(move |x: String| {
                    assert_eq!(x.as_str(), "foo");
                    called_setter.set(true);
                    x
                }),
            );
        }
        ful.poll(&mut engine);
        assert!(called_getter.get(), "eager: {}", eager);
    }
}

#[test]
fn test_ready() {
    let mut engine = Chain::new();
    let fut = SyncFuture::new_ready(&mut engine, 5u32);
    assert!(fut.ready(&engine));
    assert_eq!(fut.sync(&mut engine), Ok(5u32));
}

#[test]
fn test_then_map() {
    let mut engine = Chain::new();
    let mut client = ConstantFulfiller::new();
    let client2 = Rc::new(RefCell::new(ConstantFulfiller::new()));
    let client2_clone = client2.clone();
    let (fut, prom) = SyncFuture::new_with_promise(&mut engine);

    client
        .start(&mut engine, 5u32)
        .async_(&mut engine)
        .then(
            &mut engine,
            then(move |engine, x| client2.borrow_mut().start(engine, x + 2u32).async_(engine)),
        )
        .forward(&mut engine, prom);
    client.poll(&mut engine);
    client2_clone.borrow_mut().poll(&mut engine);
    assert_eq!(fut.sync(&mut engine), Ok(7u32));
}

#[test]
fn test_then_many() {
    let mut engine = Chain::new();
    let mut client = ConstantFulfiller::new();
    let client2 = Rc::new(RefCell::new(ConstantFulfiller::new()));
    let client3 = Rc::new(RefCell::new(ConstantFulfiller::new()));
    let client4 = Rc::new(RefCell::new(ConstantFulfiller::new()));
    let client5 = Rc::new(RefCell::new(ConstantFulfiller::new()));
    let client2_clone = client2.clone();
    let client3_clone = client3.clone();
    let client4_clone = client4.clone();
    let client5_clone = client5.clone();
    let (fut, prom) = SyncFuture::new_with_promise(&mut engine);

    client
        .start(&mut engine, 2u32)
        .async_(&mut engine)
        .then(
            &mut engine,
            then(move |engine, x| client2.borrow_mut().start(engine, x * 3u32).async_(engine)),
        )
        .then(
            &mut engine,
            then(move |engine, x| client3.borrow_mut().start(engine, x * 5u32).async_(engine)),
        )
        .map(&mut engine, through(|x| x * 7u32))
        .then(
            &mut engine,
            then(move |engine, x| client4.borrow_mut().start(engine, x * 11u32).async_(engine)),
        )
        .then(
            &mut engine,
            then(move |engine, x| client5.borrow_mut().start(engine, x * 13u32).async_(engine)),
        )
        .forward(&mut engine, prom);
    assert!(!fut.ready(&engine));
    client.poll(&mut engine);
    assert!(!fut.ready(&engine));
    client2_clone.borrow_mut().poll(&mut engine);
    client3_clone.borrow_mut().poll(&mut engine);
    client4_clone.borrow_mut().poll(&mut engine);
    assert!(!fut.ready(&engine));
    client5_clone.borrow_mut().poll(&mut engine);
    assert!(fut.ready(&engine));
    assert_eq!(fut.sync(&mut engine), Ok(2 * 3 * 5 * 7 * 11 * 13));
}

#[test]
fn fulfill_then_sync_returns_the_value() {
    let mut engine = Chain::new();
    let (fut, prom) = SyncFuture::new_with_promise(&mut engine);
    assert!(!fut.ready(&engine));
    prom.fulfill(&mut engine, "v".to_string());
    assert!(fut.ready(&engine));
    assert_eq!(fut.sync(&mut engine), Ok("v".to_string()));
}

#[test]
fn map_over_a_ready_future_is_eager() {
    let mut engine = Chain::new();
    let ran = Rc::new(Cell::new(false));
    let flag = ran.clone();
    let mapped = SyncFuture::new_ready(&mut engine, 20u32).async_(&mut engine).map(
        &mut engine,
        through(move |x| {
            flag.set(true);
            x + 1
        }),
    );
    assert!(ran.get());
    assert!(mapped.ready(&engine));
    let (fut, prom) = SyncFuture::new_with_promise(&mut engine);
    mapped.forward(&mut engine, prom);
    assert_eq!(fut.sync(&mut engine), Ok(21u32));
}

#[test]
fn map_on_a_pending_future_waits_for_the_value() {
    let mut engine = Chain::new();
    let (source, prom) = SyncFuture::new_with_promise(&mut engine);
    let mapped = source.async_(&mut engine).map(&mut engine, through(|x: u32| x * 2));
    assert!(!mapped.ready(&engine));
    prom.fulfill(&mut engine, 21);
    assert!(mapped.ready(&engine));
    let (fut, sink) = SyncFuture::new_with_promise(&mut engine);
    mapped.forward(&mut engine, sink);
    assert_eq!(fut.sync(&mut engine), Ok(42u32));
}

#[test]
fn then_and_map_equal_the_mapped_composition() {
    let mut engine = Chain::new();
    let chained = SyncFuture::new_ready(&mut engine, 3u32)
        .async_(&mut engine)
        .then(
            &mut engine,
            then(|engine, x| SyncFuture::new_ready(engine, x + 4).async_(engine)),
        )
        .map(&mut engine, through(|x| x * 10));
    let composed = SyncFuture::new_ready(&mut engine, 3u32)
        .async_(&mut engine)
        .map(&mut engine, through(|x| (x + 4) * 10));
    assert!(chained.ready(&engine));
    assert!(composed.ready(&engine));
    let (left, sink) = SyncFuture::new_with_promise(&mut engine);
    chained.forward(&mut engine, sink);
    let (right, sink) = SyncFuture::new_with_promise(&mut engine);
    composed.forward(&mut engine, sink);
    assert_eq!(left.sync(&mut engine), Ok(70u32));
    assert_eq!(right.sync(&mut engine), Ok(70u32));
}

#[test]
fn sync_without_delivery_is_premature() {
    let mut engine = Chain::new();
    let mut idle = IdleFulfiller;
    let fut = SyncFuture::new(&mut engine, &mut idle);
    assert!(!fut.ready(&engine));
    assert_eq!(fut.sync(&mut engine), Err(PrematureSync));

    let (fut, _prom) = SyncFuture::<u32, NoopFulfiller<u32>>::new_with_promise(&mut engine);
    assert_eq!(fut.sync(&mut engine), Err(PrematureSync));
}

#[test]
fn a_claimed_value_is_gone() {
    let mut engine = Chain::new();
    let fut = SyncFuture::new_ready(&mut engine, 9u32);
    let again = SyncFuture::new_ready(&mut engine, 8u32);
    assert_eq!(fut.claim(&mut engine), Ok(9));
    assert_eq!(engine.len(), 2);
    assert_eq!(again.claim(&mut engine), Ok(8));
}

#[test]
fn async_reports_readiness_of_the_fulfiller() {
    let mut engine = Chain::new();
    let mut eager = ConstantFulfiller::new_eager(true);
    let cont = eager.start(&mut engine, 1u32).async_(&mut engine);
    assert!(cont.ready(&engine));

    let mut deferred = ConstantFulfiller::new_eager(false);
    let cont = deferred.start(&mut engine, 2u32).async_(&mut engine);
    assert!(!cont.ready(&engine));
    deferred.poll(&mut engine);
    assert!(cont.ready(&engine));
}

#[test]
fn forward_on_a_pending_future_relays_later() {
    let mut engine = Chain::new();
    let (source, prom) = SyncFuture::new_with_promise(&mut engine);
    let (fut, sink) = SyncFuture::new_with_promise(&mut engine);
    source.async_(&mut engine).forward(&mut engine, sink);
    assert!(!fut.ready(&engine));
    prom.fulfill(&mut engine, 11u32);
    assert_eq!(fut.sync(&mut engine), Ok(11u32));
}

#[test]
fn engine_counts_its_states() {
    let mut engine = Chain::<u32>::new();
    assert_eq!(engine.len(), 0);
    engine.well_formed();
    let (fut, prom) = SyncFuture::new_with_promise(&mut engine);
    assert_eq!(engine.len(), 1);
    let mapped = fut.async_(&mut engine).map(&mut engine, through(|x| x + 1));
    assert_eq!(engine.len(), 2);
    prom.fulfill(&mut engine, 1);
    engine.well_formed();
    assert_eq!(engine.len(), 2);
    assert!(mapped.ready(&engine));
}

#[test]
fn then_on_a_ready_future_waits_for_a_pending_answer() {
    let mut engine = Chain::new();
    let later = Rc::new(RefCell::new(ConstantFulfiller::new()));
    let later_clone = later.clone();
    let chained = SyncFuture::new_ready(&mut engine, 4u32).async_(&mut engine).then(
        &mut engine,
        then(move |engine, x| later.borrow_mut().start(engine, x * 10).async_(engine)),
    );
    assert!(!chained.ready(&engine));
    later_clone.borrow_mut().poll(&mut engine);
    assert!(chained.ready(&engine));
    let (fut, sink) = SyncFuture::new_with_promise(&mut engine);
    chained.forward(&mut engine, sink);
    assert_eq!(fut.sync(&mut engine), Ok(40u32));
}

#[test]
fn a_promise_fulfilled_once_delivers_to_the_whole_chain() {
    let mut engine = Chain::new();
    let (source, prom) = SyncFuture::new_with_promise(&mut engine);
    let order = Rc::new(RefCell::new(Vec::new()));
    let first = order.clone();
    let second = order.clone();
    let last = source
        .async_(&mut engine)
        .map(
            &mut engine,
            through(move |x: u32| {
                first.borrow_mut().push(1);
                x + 1
            }),
        )
        .map(
            &mut engine,
            through(move |x: u32| {
                second.borrow_mut().push(2);
                x * 2
            }),
        );
    assert!(order.borrow().is_empty());
    prom.fulfill(&mut engine, 3);
    assert_eq!(*order.borrow(), vec![1, 2]);
    let (fut, sink) = SyncFuture::new_with_promise(&mut engine);
    last.forward(&mut engine, sink);
    assert_eq!(fut.sync(&mut engine), Ok(8u32));
}
