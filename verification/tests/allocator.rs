use pcb_sim::buddy_system::BuddySystem;
use pcb_sim::pcb::PCB;

#[test]
fn pool_size_rounds_up_to_a_power_of_two() {
    assert_eq!(BuddySystem::new(1).get_pool_size(), 1);
    assert_eq!(BuddySystem::new(3).get_pool_size(), 4);
    assert_eq!(BuddySystem::new(4).get_pool_size(), 4);
    assert_eq!(BuddySystem::new(100).get_pool_size(), 128);
}

#[test]
fn allocate_and_deallocate_round_trip_restores_the_free_lists() {
    let mut b = BuddySystem::new(8);
    let first = b.allocate().unwrap();
    b.deallocate(first);
    // merging has reversed the split: the pool is again one whole block,
    // so the next allocation starts from scratch and returns the same slot
    assert_eq!(b.get_used_count(), 0);
    assert_eq!(b.allocate().unwrap(), first);
}

#[test]
fn double_free_changes_nothing() {
    let mut b = BuddySystem::new(4);
    let s1 = b.allocate().unwrap();
    let _s2 = b.allocate().unwrap();
    b.deallocate(s1);
    assert_eq!(b.get_used_count(), 1);
    b.deallocate(s1);
    assert_eq!(b.get_used_count(), 1);
    b.deallocate(17);
    assert_eq!(b.get_used_count(), 1);
}

#[test]
fn used_plus_free_is_the_pool_size_throughout() {
    let mut b = BuddySystem::new(8);
    let mut slots = Vec::new();
    for _ in 0..8 {
        assert_eq!(b.get_used_count() + b.get_free_count(), 8);
        slots.push(b.allocate().unwrap());
    }
    assert_eq!(b.allocate(), None);
    for s in slots {
        b.deallocate(s);
        assert_eq!(b.get_used_count() + b.get_free_count(), 8);
    }
    assert_eq!(b.get_free_count(), 8);
}

#[test]
fn stored_records_can_be_read_back() {
    let mut b = BuddySystem::new(2);
    let slot = b.allocate().unwrap();
    let mut pcb = PCB::new(slot, 42);
    pcb.priority = 9;
    b.store_pcb(slot, pcb);
    let got = b.get_pcb(slot).unwrap();
    assert_eq!(got.pid, 42);
    assert_eq!(got.priority, 9);
    assert!(b.get_pcb(slot + 100).is_none());
}
