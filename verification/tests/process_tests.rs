use eucalypt::process::{next_pid, setup_initial_stack, MAX_PROCESSES, NO_PROCESS};
use eucalypt::{
    cleanup_terminated_processes, create_process, destroy_process, exit_current_process, get_current_process,
    get_current_process_mut, get_process, get_process_mut, init_kernel_process, Priority, ProcessState, ProcessTable,
};

#[test]
fn kernel_then_two_processes() {
    let mut t = ProcessTable::new();
    assert!(get_current_process(&t).is_none());
    init_kernel_process(&mut t, 0x8000, 0x1000);
    let k = get_current_process(&t).unwrap();
    assert_eq!((k.pid, k.rsp, k.pml4), (0, 0x8000, 0x1000));
    assert!(k.state == ProcessState::Running);
    assert!(k.priority == Priority::Idle);
    assert_eq!(create_process(&mut t, 0xAAAA, 0x10000, 0x1FF60, 0x1000), Some(1));
    assert_eq!(create_process(&mut t, 0xBBBB, 0x20000, 0x2FF60, 0x1000), Some(2));
    let p = get_process(&t, 2).unwrap();
    assert_eq!((p.pid, p.entry, p.stack_base, p.rsp), (2, 0xBBBB, 0x20000, 0x2FF60));
    assert!(p.state == ProcessState::Ready);
    assert!(p.priority == Priority::Normal);
    assert!(get_process(&t, 3).is_none());
    assert!(get_process(&t, 1000).is_none());
}

#[test]
fn table_fills_up() {
    let mut t = ProcessTable::new();
    init_kernel_process(&mut t, 1, 1);
    for i in 1..MAX_PROCESSES as u64 {
        assert_eq!(next_pid(&t), Some(i));
        assert_eq!(create_process(&mut t, i, i, i, 1), Some(i));
    }
    assert_eq!(next_pid(&t), None);
    assert_eq!(create_process(&mut t, 9, 9, 9, 1), None);
}

#[test]
fn destroy_gives_the_process_back() {
    let mut t = ProcessTable::new();
    init_kernel_process(&mut t, 1, 1);
    create_process(&mut t, 0xAAAA, 0x10000, 0x1FF60, 1);
    t.current = 1;
    let p = destroy_process(&mut t, 1).unwrap();
    assert_eq!((p.pid, p.stack_base), (1, 0x10000));
    assert_eq!(t.current, 0);
    assert!(get_process(&t, 1).is_none());
    assert!(destroy_process(&mut t, 1).is_none());
    assert!(destroy_process(&mut t, 64).is_none());
}

#[test]
fn exit_and_cleanup() {
    let mut t = ProcessTable::new();
    init_kernel_process(&mut t, 1, 1);
    create_process(&mut t, 0xA, 0x10000, 0x1FF60, 1);
    create_process(&mut t, 0xB, 0x20000, 0x2FF60, 1);
    t.current = 2;
    exit_current_process(&mut t);
    assert!(get_process(&t, 2).unwrap().state == ProcessState::Terminated);
    let removed = cleanup_terminated_processes(&mut t);
    assert_eq!(removed.len(), 1);
    assert_eq!(removed[0].pid, 2);
    assert!(get_process(&t, 2).is_none());
    assert!(get_process(&t, 1).is_some());
    assert_eq!(t.current, 0);
    assert_eq!(t.count, 3);
}

#[test]
fn changes_through_mutable_lookups_land_in_the_table() {
    let mut t = ProcessTable::new();
    assert!(get_current_process_mut(&mut t).is_none());
    init_kernel_process(&mut t, 1, 1);
    create_process(&mut t, 0xA, 0x10000, 0x1FF60, 1);
    get_process_mut(&mut t, 1).unwrap().priority = Priority::High;
    assert!(get_process(&t, 1).unwrap().priority == Priority::High);
    get_current_process_mut(&mut t).unwrap().wake_at_tick = 77;
    assert_eq!(get_process(&t, 0).unwrap().wake_at_tick, 77);
    assert!(get_process_mut(&mut t, 5).is_none());
    assert!(Priority::Realtime > Priority::Normal);
    assert_eq!(NO_PROCESS, usize::MAX);
}

#[test]
fn initial_stack_frame() {
    let (words, rsp) = setup_initial_stack(0x20000, 0xAAAA, 0xBBBB);
    assert_eq!(words.len(), 20);
    assert_eq!(&words[..5], &[0x10, 0x20000, 0x202, 0x08, 0xBBBB]);
    assert_eq!(words[6], 0xAAAA);
    assert!(words.iter().enumerate().all(|(i, &w)| i < 5 || i == 6 || w == 0));
    assert_eq!(rsp, 0x20000 - 160);
}
