use math_machines::Phase;

#[test]
fn new_phase_is_all_zero() {
    let p = Phase::new();
    assert_eq!(p.input(), 0);
    assert_eq!(p.result(), 0);
    assert_eq!(p.phase(), [0, 0, 0]);
}

#[test]
fn setinput_changes_only_the_input() {
    let mut p = Phase::new();
    p.set(0, 7);
    p.setinput(42);
    assert_eq!(p.input(), 42);
    assert_eq!(p.phase(), [7, 0, 0]);
}

#[test]
fn result_is_the_head_slot() {
    let mut p = Phase::new();
    p.set(0, 5);
    p.set(1, 3);
    p.set(2, 2);
    assert_eq!(p.result(), 5);
    assert_eq!(p.get(1), 3);
    assert_eq!(p.get(2), 2);
}

#[test]
fn rotate_moves_slots_to_the_right() {
    let mut p = Phase::new();
    p.set(0, 1);
    p.set(1, 2);
    p.set(2, 3);
    p.rotate(1);
    assert_eq!(p.phase(), [3, 1, 2]);
    p.rotate(3);
    assert_eq!(p.phase(), [3, 1, 2]);
    p.rotate(2);
    assert_eq!(p.phase(), [1, 2, 3]);
}
