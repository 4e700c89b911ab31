use juno::error::Error;
use juno::ipc::Communicate;
use juno::msg::broker::{channel_timeout, Broker, Publisher, Subscriber};
use juno::msg::{Msg, Topic};
use juno::string::sformat;
use std::cell::Cell;
use std::rc::Rc;
use std::time::Duration;

struct TestComm;

impl Communicate for TestComm {
    fn send<T: Send>(&self, _: T) -> Result<(), Error> {
        return Ok(());
    }

    fn try_send<T: Send>(&self, _: T, _: i32) -> Result<(), Error> {
        return Ok(());
    }

    fn recv<T: Send>(&self) -> Result<T, Error> {
        unreachable!()
    }

    fn try_recv<T: Send>(&self, _: i32) -> Result<Option<T>, Error> {
        unreachable!()
    }
}

/// A channel that counts what it is given and keeps nothing: it is always
/// empty. It notes the size of the last message and the last timeout.
#[derive(Clone)]
struct Line {
    sent: Rc<Cell<usize>>,
    size: Rc<Cell<usize>>,
    timeout: Rc<Cell<Option<i32>>>,
    broken: bool,
}

impl Line {
    fn new() -> Self {
        Line {
            sent: Rc::new(Cell::new(0)),
            size: Rc::new(Cell::new(0)),
            timeout: Rc::new(Cell::new(None)),
            broken: false,
        }
    }

    fn broken() -> Self {
        Line { broken: true, ..Line::new() }
    }

    fn put<T: Send>(&self, msg: T) -> Result<(), Error> {
        if self.broken {
            return Err(fault());
        }
        self.sent.set(self.sent.get() + 1);
        self.size.set(std::mem::size_of_val(&msg));
        Ok(())
    }
}

fn fault() -> Error {
    Error::CollectionsError(sformat::<64>("transport fault"))
}

fn text_of(e: &Error) -> String {
    match e {
        Error::CollectionsError(text) => {
            text.as_str().unwrap().trim_end_matches('\0').to_string()
        }
    }
}

impl Communicate for Line {
    fn send<T: Send>(&self, msg: T) -> Result<(), Error> {
        self.put(msg)
    }

    fn try_send<T: Send>(&self, msg: T, timeout: i32) -> Result<(), Error> {
        self.timeout.set(Some(timeout));
        self.put(msg)
    }

    fn recv<T: Send>(&self) -> Result<T, Error> {
        if self.broken {
            return Err(fault());
        }
        panic!("a blocking receive on an empty channel")
    }

    fn try_recv<T: Send>(&self, timeout: i32) -> Result<Option<T>, Error> {
        self.timeout.set(Some(timeout));
        if self.broken {
            return Err(fault());
        }
        Ok(None)
    }
}

#[test]
fn test_get_index() {
    let mut broker = Broker::<TestComm, 10>::new(TestComm {}, TestComm {});
    let test_topic: Topic = 100;
    let index_1 = broker.get_index(test_topic).unwrap();
    assert_eq!(broker.register(TestComm {}, test_topic, 100).unwrap(), index_1);
    let index_2 = broker.get_index(test_topic * 2).unwrap();
    assert_ne!(index_1, index_2)
}

#[test]
fn colliding_topics_get_slots_of_their_own() {
    let mut broker = Broker::<TestComm, 10>::new(TestComm, TestComm);
    assert_eq!(broker.find(100), None);
    assert_eq!(broker.register(TestComm, 100, 1).unwrap(), 0);
    // The primary slot of topic 200 is 0 as well; its step is 7 - 200 mod 3 = 5.
    assert_eq!(broker.get_index(200), Some(5));
    assert_eq!(broker.register(TestComm, 200, 2).unwrap(), 5);
    assert_eq!(broker.find(100), Some(0));
    assert_eq!(broker.find(200), Some(5));
    // Topic 300 collides too; its step is 7.
    assert_eq!(broker.register(TestComm, 300, 3).unwrap(), 7);
    assert_eq!(broker.find(100), Some(0));
    assert_eq!(broker.find(200), Some(5));
    assert_eq!(broker.find(300), Some(7));
    assert_eq!(broker.find(400), None);
}

#[test]
fn probe_wraps_around_the_end() {
    let mut broker = Broker::<TestComm, 10>::new(TestComm, TestComm);
    let topics = [100, 200, 300, 42, 52, 7, 27, 37];
    let slots = [0, 5, 7, 2, 8, 3, 4, 9];
    for (topic, slot) in topics.iter().zip(slots.iter()) {
        assert_eq!(broker.register(TestComm, *topic, 0).unwrap(), *slot);
    }
    for (topic, slot) in topics.iter().zip(slots.iter()) {
        assert_eq!(broker.find(*topic), Some(*slot));
    }
    assert_eq!(broker.find(1), None);
    assert_eq!(broker.find(17), None);
}

#[test]
fn registration_fails_where_the_tries_find_no_empty_slot() {
    let mut broker = Broker::<TestComm, 10>::new(TestComm, TestComm);
    broker.register(TestComm, 100, 0).unwrap();
    broker.register(TestComm, 200, 0).unwrap();
    // Topic 500 starts at slot 0 with step 5: its tries are the slots 0 and 5 only.
    assert_eq!(broker.get_index(500), None);
    let err = broker.register(TestComm, 500, 0).unwrap_err();
    assert_eq!(text_of(&err), "Table is full");
    assert_eq!(broker.find(500), None);
    assert_eq!(broker.find(100), Some(0));
    assert_eq!(broker.find(200), Some(5));
}

#[test]
fn full_broker_refuses_before_it_probes() {
    let mut broker = Broker::<TestComm, 3>::new(TestComm, TestComm);
    assert_eq!(broker.register(TestComm, 3, 0).unwrap(), 0);
    assert_eq!(broker.register(TestComm, 1, 0).unwrap(), 1);
    assert_eq!(broker.register(TestComm, 2, 0).unwrap(), 2);
    assert_eq!(broker.get_index(4), None);
    assert_eq!(text_of(&broker.register(TestComm, 4, 0).unwrap_err()), "Table is full");
    assert_eq!(broker.find(3), Some(0));
    assert_eq!(broker.find(1), Some(1));
    assert_eq!(broker.find(2), Some(2));
    assert_eq!(broker.find(4), None);
}

#[test]
fn small_brokers() {
    let mut broker = Broker::<TestComm, 0>::new(TestComm, TestComm);
    assert_eq!(broker.get_index(5), None);
    assert_eq!(broker.find(5), None);
    assert!(broker.register(TestComm, 5, 0).is_err());

    let mut broker = Broker::<TestComm, 1>::new(TestComm, TestComm);
    assert_eq!(broker.register(TestComm, 5, 0).unwrap(), 0);
    assert!(broker.register(TestComm, 6, 0).is_err());
    assert_eq!(broker.find(5), Some(0));
    assert_eq!(broker.find(6), None);

    // With two slots the step of every topic is 2: a topic has one slot to go to.
    let mut broker = Broker::<TestComm, 2>::new(TestComm, TestComm);
    assert_eq!(broker.register(TestComm, 5, 0).unwrap(), 1);
    assert!(broker.register(TestComm, 7, 0).is_err());
    assert_eq!(broker.find(5), Some(1));
    assert_eq!(broker.find(7), None);
}

#[test]
fn second_registration_of_a_topic_does_not_change_its_route() {
    let mut broker = Broker::<TestComm, 7>::new(TestComm, TestComm);
    assert_eq!(broker.register(TestComm, 14, 0).unwrap(), 0);
    assert_eq!(broker.register(TestComm, 14, 0).unwrap(), 5);
    assert_eq!(broker.find(14), Some(0));
}

#[test]
fn registered_subscriber_gets_the_message() {
    let wanted = Line::new();
    let other = Line::new();
    let mut broker = Broker::<Line, 10>::new(Line::new(), Line::new());
    broker.register(wanted.clone(), 42, 1).unwrap();
    broker.register(other.clone(), 43, 2).unwrap();

    let inbox = Line::new();
    let publisher = Publisher::new(inbox.clone());
    publisher.publish(Msg::new(42, 0x1122_3344_5566_7788u64)).unwrap();
    assert_eq!(inbox.sent.get(), 1);
    assert_eq!(inbox.size.get(), std::mem::size_of::<Msg<u64>>());

    // The broker's side: the message goes to the channel registered for its topic.
    assert_eq!(broker.forward(Msg::new(42, 0x1122_3344_5566_7788u64)).unwrap(), true);
    assert_eq!(wanted.sent.get(), 1);
    assert_eq!(wanted.size.get(), std::mem::size_of::<Msg<u64>>());
    assert_eq!(other.sent.get(), 0);

    assert_eq!(broker.forward(Msg::new(43, 1u8)).unwrap(), true);
    assert_eq!(wanted.sent.get(), 1);
    assert_eq!(other.sent.get(), 1);
    assert_eq!(other.size.get(), std::mem::size_of::<Msg<u8>>());
}

#[test]
fn message_without_subscriber_is_undeliverable() {
    let wanted = Line::new();
    let mut broker = Broker::<Line, 4>::new(Line::new(), Line::new());
    broker.register(wanted.clone(), 42, 1).unwrap();
    assert_eq!(broker.forward(Msg::new(41, 5u8)).unwrap(), false);
    assert_eq!(wanted.sent.get(), 0);
}

#[test]
fn transport_fault_comes_through_unchanged() {
    let mut broker = Broker::<Line, 4>::new(Line::new(), Line::new());
    broker.register(Line::broken(), 42, 1).unwrap();
    let err = broker.forward(Msg::new(42, 5u8)).unwrap_err();
    assert_eq!(text_of(&err), "transport fault");

    let publisher = Publisher::new(Line::broken());
    assert_eq!(text_of(&publisher.publish(Msg::new(1, 1u8)).unwrap_err()), "transport fault");
    let err = publisher.try_publish(Msg::new(1, 1u8), Duration::from_millis(5)).unwrap_err();
    assert_eq!(text_of(&err), "transport fault");

    let subscriber = Subscriber::new(Line::broken(), 1, 1);
    assert_eq!(subscriber.topic, 1);
    assert!(subscriber.recv::<u8>().is_err());
    assert!(subscriber.try_recv::<u8>(Duration::from_millis(5)).is_err());
}

#[test]
fn try_recv_on_an_empty_channel_is_absence() {
    let channel = Line::new();
    let subscriber = Subscriber::new(channel.clone(), 9, 1);
    let got = subscriber.try_recv::<u32>(Duration::from_millis(0)).unwrap();
    assert!(got.is_none());
    // The channel was asked not to wait.
    assert_eq!(channel.timeout.get(), Some(0));
}

#[test]
fn try_publish_and_try_recv_hand_the_timeout_on() {
    let channel = Line::new();
    let publisher = Publisher::new(channel.clone());
    publisher.try_publish(Msg::new(9, 77u32), Duration::from_millis(250)).unwrap();
    assert_eq!(channel.timeout.get(), Some(250));
    assert_eq!(channel.sent.get(), 1);
    let subscriber = Subscriber::new(channel.clone(), 9, 1);
    assert!(subscriber.try_recv::<u32>(Duration::from_secs(2)).unwrap().is_none());
    assert_eq!(channel.timeout.get(), Some(2000));
}

#[test]
fn timeout_is_cut_to_32_bits() {
    assert_eq!(channel_timeout(Duration::from_millis(0)), 0);
    assert_eq!(channel_timeout(Duration::from_micros(1999)), 1);
    assert_eq!(channel_timeout(Duration::from_millis(2147483647)), i32::MAX);
    assert_eq!(channel_timeout(Duration::from_millis(2147483648)), i32::MIN);
    assert_eq!(channel_timeout(Duration::from_millis(4294967296 + 12)), 12);
}

#[test]
fn message_holds_what_it_was_made_of() {
    let msg = Msg::new(7, "payload");
    assert_eq!(msg.topic, 7);
    assert_eq!(msg.data, "payload");
    let named = juno::msg::named::Msg { topic: sformat::<64>("door/open"), mid: 3, data: 1u8 };
    assert_eq!(named.topic.as_str().unwrap().trim_end_matches('\0'), "door/open");
    assert_eq!(named.mid, 3);
    assert_eq!(named.data, 1);
}
