use rodio::engine::{
    apply_command, earlier_deadline, initial_deadline, sleep_millis, Command, IDLE_INTERVAL_NS,
};

fn ids(sounds: &Vec<(usize, &'static str)>) -> Vec<usize> {
    sounds.iter().map(|e| e.0).collect()
}

#[test]
fn play_then_stop_then_volume() {
    let mut sounds: Vec<(usize, &'static str)> = Vec::new();
    assert!(apply_command(&mut sounds, Command::<&str, u8>::Play(1, "a")).is_none());
    assert!(apply_command(&mut sounds, Command::<&str, u8>::Play(2, "b")).is_none());
    assert_eq!(apply_command(&mut sounds, Command::<&str, u8>::SetVolume(2, 7)), Some((1, 7)));
    assert!(apply_command(&mut sounds, Command::<&str, u8>::Stop(2)).is_none());
    assert_eq!(ids(&sounds), vec![1]);
    assert_eq!(apply_command(&mut sounds, Command::<&str, u8>::SetVolume(2, 9)), None);
    assert_eq!(ids(&sounds), vec![1]);
}

#[test]
fn stop_removes_every_matching_entry() {
    let mut sounds: Vec<(usize, &'static str)> = vec![(3, "x"), (4, "y"), (3, "z"), (5, "w")];
    apply_command(&mut sounds, Command::<&str, u8>::Stop(3));
    assert_eq!(sounds, vec![(4, "y"), (5, "w")]);
}

#[test]
fn stop_of_unknown_id_is_a_no_op() {
    let mut sounds: Vec<(usize, &'static str)> = vec![(1, "x")];
    apply_command(&mut sounds, Command::<&str, u8>::Stop(8));
    assert_eq!(sounds, vec![(1, "x")]);
}

#[test]
fn volume_goes_to_first_matching_entry() {
    let mut sounds: Vec<(usize, &'static str)> = vec![(1, "x"), (6, "y"), (6, "z")];
    assert_eq!(apply_command(&mut sounds, Command::<&str, u8>::SetVolume(6, 3)), Some((1, 3)));
    assert_eq!(sounds.len(), 3);
}

#[test]
fn deadlines() {
    assert_eq!(IDLE_INTERVAL_NS, 10_000_000);
    assert_eq!(initial_deadline(1_000), 10_001_000);
    assert_eq!(initial_deadline(u64::MAX - 1), u64::MAX);
    assert_eq!(earlier_deadline(10_001_000, 2_000, 3_000_000), 3_002_000);
    assert_eq!(earlier_deadline(10_001_000, 2_000, 30_000_000), 10_001_000);
    assert_eq!(earlier_deadline(5, u64::MAX, 10), 5);
}

#[test]
fn sleep_rounds_down_to_milliseconds() {
    assert_eq!(sleep_millis(10_000_000, 0), Some(9));
    assert_eq!(sleep_millis(3_499_999, 0), Some(2));
    assert_eq!(sleep_millis(1_500_000, 1_000_000), Some(0));
    assert_eq!(sleep_millis(1_499_999, 1_000_000), None);
    assert_eq!(sleep_millis(5, 10), None);
}

#[test]
fn clock_backed_deadlines() {
    let d = rodio::engine::idle_deadline();
    assert!(d >= IDLE_INTERVAL_NS);
    let d2 = rodio::engine::deadline_after_step(d, 0);
    assert!(d2 <= d);
    assert!(d2 > 0);
    match rodio::engine::sleep_millis_until(d) {
        Some(ms) => assert!(ms <= 10),
        None => {}
    }
}

#[test]
fn sound_ids_increase() {
    let mut ids = rodio::engine::SoundIds::new();
    assert_eq!(ids.allocate(), Some(1));
    assert_eq!(ids.allocate(), Some(2));
    assert_eq!(ids.allocate(), Some(3));
}
