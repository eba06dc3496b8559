use market_data_order_book::messages::{pack_messages, CoreMessage, CancelOrderMsg, Packet, Price};
use market_data_order_book::order::{new_order_ptr, Order};
use market_data_order_book::order_queue::OrderQueue;
use market_data_order_book::perf_counter::{compute_stats, PerfCounter};
use market_data_order_book::price::{pow10, Price4, Price9};
use market_data_order_book::ring_buffer::{spsc_channel, RingBuffer};
use market_data_order_book::types::{OrderType, Side};

fn order(id: u64) -> Order {
    new_order_ptr(OrderType::Gfd, Side::Bid, id, Price::from_raw(1), 1, 0)
}

#[test]
fn price_raw_value_round_trips() {
    let p = Price::from_raw(1_000_243);
    assert_eq!(p.raw_value(), 1_000_243);
    assert_eq!(p.num_places(), 6);
    assert_eq!(Price4::from_raw(7).num_places(), 4);
    assert_eq!(Price9::from_raw(7).num_places(), 9);
}

#[test]
fn pow10_and_divisor() {
    assert_eq!(pow10(0), 1);
    assert_eq!(pow10(6), 1_000_000);
    assert_eq!(pow10(19), 10_000_000_000_000_000_000);
    assert_eq!(Price::divisor(), 1_000_000);
    assert_eq!(Price4::divisor(), 10_000);
}

#[test]
fn num_digits_counts_integer_part() {
    assert_eq!(Price::from_raw(123_456_789).num_digits(), 3);
    assert_eq!(Price::from_raw(999_999).num_digits(), 0);
    assert_eq!(Price::from_raw(1_000_000).num_digits(), 1);
    assert_eq!(Price4::from_raw(1_000_243).num_digits(), 3);
    assert_eq!(Price::from_raw(u64::MAX).num_digits(), 14);
}

#[test]
fn order_fill_lifecycle() {
    let mut o = new_order_ptr(OrderType::Gfd, Side::Ask, 5, Price::from_raw(10), 8, 42);
    assert_eq!(o.order_type(), OrderType::Gfd);
    assert_eq!(o.side(), Side::Ask);
    assert_eq!(o.order_id(), 5);
    assert_eq!(o.price().raw_value(), 10);
    assert_eq!(o.creation_time(), 42);
    assert!(!o.fill(9));
    assert_eq!(o.remaining_quantity(), 8);
    assert!(o.fill(3));
    assert_eq!(o.remaining_quantity(), 5);
    assert_eq!(o.filled_quantity(), 3);
    assert_eq!(o.initial_quantity(), 8);
    assert!(!o.is_filled());
    assert!(o.fill(5));
    assert!(o.is_filled());
    assert_eq!(o.filled_quantity(), 8);
}

#[test]
fn order_queue_keeps_smallest_id_in_front() {
    let mut q = OrderQueue::new();
    assert!(q.is_empty());
    assert_eq!(q.front(), None);
    q.push_back(order(7));
    q.push_back(order(3));
    q.push_back(order(9));
    q.push_back(order(3));
    assert_eq!(q.front(), Some(3));
    q.erase(3);
    assert_eq!(q.front(), Some(7));
    q.erase(42);
    q.pop_front();
    assert_eq!(q.front(), Some(9));
    q.pop_front();
    assert!(q.is_empty());
    q.pop_front();
    assert!(q.is_empty());
    let d = OrderQueue::default();
    assert!(d.is_empty());
}

#[test]
fn ring_buffer_is_fifo_and_bounded() {
    let mut r: RingBuffer<u32> = RingBuffer::new(3);
    assert!(r.is_empty());
    assert!(r.push(1));
    assert!(r.push(2));
    assert!(!r.push(3));
    assert_eq!(r.pop(), Some(1));
    assert!(r.push(3));
    assert_eq!(r.pop(), Some(2));
    assert_eq!(r.pop(), Some(3));
    assert_eq!(r.pop(), None);
    assert!(r.is_empty());
    for i in 0..10 {
        assert!(r.push(i));
        assert_eq!(r.pop(), Some(i));
    }
}

#[test]
fn spsc_channel_ends_share_one_ring() {
    let (tx, rx) = spsc_channel::<u64>(4);
    let rx2 = rx.clone();
    assert!(rx.is_empty());
    assert!(tx.push(10));
    assert!(tx.push(20));
    assert!(tx.push(30));
    assert!(!tx.push(40));
    assert!(!rx2.is_empty());
    assert_eq!(rx.pop(), Some(10));
    assert_eq!(rx2.pop(), Some(20));
    assert_eq!(rx.pop(), Some(30));
    assert_eq!(rx.pop(), None);
}

#[test]
fn compute_stats_values() {
    assert_eq!(compute_stats(&[]), (0, 0, 0, 0));
    assert_eq!(compute_stats(&[5, 1, 4, 2]), (1, 5, 3, 3));
    assert_eq!(compute_stats(&[3, 1, 2]), (1, 3, 2, 2));
    assert_eq!(compute_stats(&[7]), (7, 7, 7, 7));
    assert_eq!(compute_stats(&[u64::MAX, u64::MAX - 1]), (u64::MAX - 1, u64::MAX, u64::MAX - 1, u64::MAX - 1));
    assert_eq!(compute_stats(&[1, 2]), (1, 2, 1, 1));
}

#[test]
fn perf_counter_records_each_call() {
    let mut p = PerfCounter::new(String::from("perf.csv"));
    assert_eq!(p.output_file(), "perf.csv");
    let r = p.time_add(|| 41 + 1);
    assert_eq!(r, 42);
    let s = p.time_update(|| "done");
    assert_eq!(s, "done");
    p.time_cancel(|| ());
    p.time_cancel(|| ());
    assert_eq!(p.add_samples().len(), 1);
    assert_eq!(p.update_samples().len(), 1);
    assert_eq!(p.cancel_samples().len(), 2);
}

#[test]
fn packet_collects_messages() {
    let mut p: Packet<Price> = Packet::new();
    assert!(p.is_empty());
    p.push(CoreMessage::CancelOrder(CancelOrderMsg { order_id: 1, instrument_id: 2 }));
    assert_eq!(p.len(), 1);
    assert!(!p.is_empty());
}

#[test]
fn precision_conversions_scale_the_raw_value() {
    let p4 = Price4::from_raw(1_000_243);
    let p6: Price = Price::from(p4);
    assert_eq!(p6.raw_value(), 100_024_300);
    let p9: Price9 = Price9::from(p4);
    assert_eq!(p9.raw_value(), 100_024_300_000);
    assert_eq!(Price9::from(p6).raw_value(), 100_024_300_000);
    let back6: Price = Price::from(Price9::from_raw(1_234_567_891));
    assert_eq!(back6.raw_value(), 1_234_567);
    let back4: Price4 = Price4::from(Price::from_raw(1_234_567));
    assert_eq!(back4.raw_value(), 12_345);
    assert_eq!(Price4::from(Price9::from_raw(1_234_567_891)).raw_value(), 12_345);
    let direct: Price = Price::from(77u64);
    assert_eq!(direct.raw_value(), 77);
}

#[test]
fn prices_order_by_raw_value() {
    assert!(Price::from_raw(5) < Price::from_raw(6));
    assert!(Price::from_raw(6) == Price::from_raw(6));
    assert!(Price::default().raw_value() == 0);
}

#[test]
fn conversion_round_trips_give_the_price_back() {
    let p4 = Price4::from_raw(123_456);
    assert_eq!(Price4::from(Price::from(p4)).raw_value(), 123_456);
    assert_eq!(Price4::from(Price9::from(p4)).raw_value(), 123_456);
    let p6 = Price::from_raw(987_654_321);
    assert_eq!(Price::from(Price9::from(p6)).raw_value(), 987_654_321);
}

#[test]
fn messages_are_packed_in_order_into_full_packets() {
    let msgs: Vec<CoreMessage<Price>> = (0..7u64)
        .map(|i| CoreMessage::CancelOrder(CancelOrderMsg { order_id: i, instrument_id: 1 }))
        .collect();
    let packets = pack_messages(msgs, 3);
    let sizes: Vec<usize> = packets.iter().map(|p| p.len()).collect();
    assert_eq!(sizes, vec![3, 3, 1]);
    let ids: Vec<u64> = packets
        .iter()
        .flat_map(|p| p.messages.iter())
        .map(|m| match m {
            CoreMessage::CancelOrder(c) => c.order_id,
            _ => panic!("unexpected message"),
        })
        .collect();
    assert_eq!(ids, vec![0, 1, 2, 3, 4, 5, 6]);
    assert!(pack_messages(Vec::<CoreMessage<Price>>::new(), 3).is_empty());
    let exact: Vec<CoreMessage<Price>> = (0..6u64)
        .map(|i| CoreMessage::CancelOrder(CancelOrderMsg { order_id: i, instrument_id: 1 }))
        .collect();
    let sizes: Vec<usize> = pack_messages(exact, 3).iter().map(|p| p.len()).collect();
    assert_eq!(sizes, vec![3, 3]);
}
