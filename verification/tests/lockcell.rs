use caramel::lockcell::LockCell;

#[test]
fn test_lock() {
    let mut var: LockCell<usize> = LockCell::new(5);

    {
        // We want mutable access through a guard, but the cell stays shared
        // between the two critical sections.
        let access = var.lock();
        assert!(*var.read(&access) == 5);
        var.write(&access, 10);
        var.unlock(access);
    }
    {
        let access2 = var.lock();
        assert!(*var.read(&access2) == 10);
        var.unlock(access2);
    }
}

#[test]
fn fifo_handoff_observes_previous_write() {
    // Three critical sections in ticket order: each observes exactly the
    // value the previous one left, and no update is lost.
    let mut cell: LockCell<u64> = LockCell::new(0);

    let g0 = cell.lock();
    assert_eq!(*cell.read(&g0), 0);
    cell.write(&g0, 111);
    cell.unlock(g0);

    let g1 = cell.lock();
    assert_eq!(*cell.read(&g1), 111);
    cell.write(&g1, 222);
    cell.unlock(g1);

    let g2 = cell.lock();
    assert_eq!(*cell.read(&g2), 222);
    cell.unlock(g2);
}

#[test]
fn get_mut_updates_in_place() {
    let mut cell: LockCell<u64> = LockCell::new(7);
    let g = cell.lock();
    {
        let v = cell.get_mut(&g);
        *v += 1;
    }
    assert_eq!(*cell.read(&g), 8);
    cell.unlock(g);
}
