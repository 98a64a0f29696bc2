use caramel::mm::{build_free_memory, MemMapEntry, PhysicalMemory};

fn entry(base: u64, size: u64, typ: u32) -> MemMapEntry {
    MemMapEntry { base, size, typ }
}

#[test]
fn reservation_dominates_in_any_order() {
    // The same bytes reported free and reserved end up excluded, whichever
    // report comes first.
    let free_first = vec![entry(0x200000, 0x1000, 1), entry(0x200800, 0x1000, 2)];
    let reserved_first = vec![entry(0x200800, 0x1000, 2), entry(0x200000, 0x1000, 1)];

    for entries in [free_first, reserved_first] {
        let rs = build_free_memory(&entries);
        assert_eq!(rs.num_ranges(), 1);
        let r = rs.range_at(0);
        // Only the unreserved front part of the free entry remains.
        assert_eq!((r.start, r.end), (0x200000, 0x2007ff));
    }
}

#[test]
fn first_megabyte_always_excluded() {
    let entries = vec![entry(0, 0x500000, 1)];
    let rs = build_free_memory(&entries);
    assert_eq!(rs.num_ranges(), 1);
    let r = rs.range_at(0);
    assert_eq!((r.start, r.end), (0x100000, 0x4fffff));
}

#[test]
fn zero_sized_entries_are_skipped() {
    let entries = vec![entry(0x300000, 0, 1), entry(0x400000, 0, 2), entry(0x500000, 0x1000, 1)];
    let rs = build_free_memory(&entries);
    assert_eq!(rs.num_ranges(), 1);
    let r = rs.range_at(0);
    assert_eq!((r.start, r.end), (0x500000, 0x500fff));
}

#[test]
fn sanitization_end_to_end() {
    // A map with a reservation punched into the first free region: after the
    // two passes and the low-memory cut, exactly the second region remains.
    let entries = vec![
        entry(0x0, 0xA0000, 1),
        entry(0x100000, 0x1000000, 1),
        entry(0x9F000, 0x2000, 2),
    ];
    let rs = build_free_memory(&entries);
    assert_eq!(rs.num_ranges(), 1);
    let r = rs.range_at(0);
    assert_eq!((r.start, r.end), (0x100000, 0x10FFFFF));
}

#[test]
fn allocator_lifecycle() {
    let mut pm = PhysicalMemory::new();

    // Allocation before initialization reports failure as a null address.
    assert_eq!(pm.allocate(0x1000, 8), 0);

    let entries = vec![
        entry(0x0, 0xA0000, 1),
        entry(0x100000, 0x1000000, 1),
        entry(0x9F000, 0x2000, 2),
    ];
    pm.init(&entries);

    // The sanitized map holds exactly 0x1000000 bytes at 0x100000.
    let base = pm.allocate(0x1000000, 1);
    assert_eq!(base, 0x100000);

    // Everything is taken now.
    assert_eq!(pm.allocate(1, 1), 0);

    // Freeing returns the bytes for reuse.
    pm.deallocate(base, 0x1000000);
    assert_eq!(pm.allocate(0x1000, 0x1000), 0x100000);
}

#[test]
fn deallocate_zero_is_a_no_op() {
    let mut pm = PhysicalMemory::new();
    // A zero-sized deallocation is legal even before initialization.
    pm.deallocate(0x1234, 0);
    assert_eq!(pm.allocate(0x10, 1), 0);
}
