use bevy_netahoy::debug::NetworkConditioner;

fn xorshift(mut value: u64) -> u64 {
    value ^= value << 13;
    value ^= value >> 7;
    value ^= value << 17;
    value.max(1)
}

#[test]
fn rng_is_seeded_xorshift() {
    let mut conditioner = NetworkConditioner::<u32>::new(0, 0, 0, 42);
    let first = conditioner.next_u64();
    assert_eq!(first, xorshift(42));
    assert_eq!(conditioner.next_u64(), xorshift(first));
    // A zero seed counts as one.
    let mut zero = NetworkConditioner::<u32>::new(0, 0, 0, 0);
    assert_eq!(zero.next_u64(), xorshift(1));
}

#[test]
fn full_loss_drops_everything() {
    let mut conditioner = NetworkConditioner::new(0, 0, 1 << 24, 7);
    for packet in 0..20u32 {
        conditioner.condition_packet(packet, 1_000);
    }
    assert!(conditioner.take_ready(u128::MAX / 2).is_empty());
}

#[test]
fn fixed_latency_releases_in_order() {
    let mut conditioner = NetworkConditioner::new(100, 0, 0, 7);
    conditioner.condition_packet(1u32, 0);
    conditioner.condition_packet(2u32, 5_000_000);
    // 100 ms = 100_000_000 ns after arrival.
    assert!(conditioner.take_ready(99_999_999).is_empty());
    assert_eq!(conditioner.take_ready(100_000_000), vec![1]);
    assert_eq!(conditioner.take_ready(200_000_000), vec![2]);
    assert!(conditioner.take_ready(300_000_000).is_empty());
}

#[test]
fn jittered_packets_come_out_sorted_by_readiness() {
    let mut conditioner = NetworkConditioner::new(100, 15, 0, 99);
    for packet in 0..32u32 {
        conditioner.condition_packet(packet, 0);
    }
    assert!(conditioner.take_ready(84_999_999).is_empty());
    let released = conditioner.take_ready(115_000_000);
    assert_eq!(released.len(), 32);
    let mut sorted = released.clone();
    sorted.sort();
    assert_eq!(sorted, (0..32).collect::<Vec<u32>>());
}

#[test]
fn jitter_delay_matches_draw() {
    // With a 10 ms jitter bound the delay is latency - 10 + draw % 21.
    let mut reference = NetworkConditioner::<u32>::new(0, 0, 0, 5);
    let loss_draw = reference.next_u64();
    let jitter_draw = reference.next_u64();
    let delay_ms = 50 - 10 + (jitter_draw % 21) as u128;
    assert_eq!(loss_draw, xorshift(5));
    let mut conditioner = NetworkConditioner::new(50, 10, 0, 5);
    conditioner.condition_packet(9u32, 0);
    assert!(conditioner.take_ready(delay_ms * 1_000_000 - 1).is_empty());
    assert_eq!(conditioner.take_ready(delay_ms * 1_000_000), vec![9]);
}
