use kernel_process::process::process::{AddressSpace, State, TrapFrame};
use kernel_process::process::{add_user_process, init, sys_exit, sys_fork, sys_getpid, sys_wait, sys_yield};

fn space(handle: usize) -> AddressSpace {
    AddressSpace { handle, kernel_stack: 0x1000 * handle, user_stack: 0x8000_0000 + handle }
}

fn frame() -> TrapFrame {
    TrapFrame { ip: 0x40_0000, sp: 0x7fff_0000, ret: 57, arg: 3, flags: 0x202, user: true }
}

#[test]
fn fork_exit_wait_round_trip() {
    let mut processor = init(space(1), space(2), 0xdead);
    assert_eq!(processor.len(), 2);
    assert_eq!(sys_getpid(&processor), 1);
    assert_eq!(processor.get(2).unwrap().name(), "idle");

    let third = add_user_process(&mut processor, "sh", 0x40_0000, Some(space(3)));
    assert_eq!(third, Some(3));
    assert_eq!(processor.get(3).unwrap().name(), "sh");

    // init gives up the CPU; pid 3 is the next ready process.
    let mut rsp: usize = 0x1111;
    assert_eq!(sys_yield(&mut processor, &mut rsp), 0);
    assert_eq!(sys_getpid(&processor), 3);
    assert_eq!(rsp, space(3).kernel_stack);
    assert_eq!(processor.get(1).unwrap().context().sp, 0x1111);

    let tf = frame();
    assert_eq!(sys_fork(&mut processor, &tf, Some(space(4))), 4);
    let child = processor.get(4).unwrap();
    assert_eq!(child.parent(), Some(3));
    assert_eq!(child.state(), State::Ready);
    assert_eq!(child.context().tf, TrapFrame { ret: 0, ..tf });
    assert_eq!(processor.get(3).unwrap().children(), &vec![4]);

    // pid 3 waits: its child is alive, so it blocks and pid 4 runs.
    let mut code: i32 = -5;
    assert_eq!(sys_wait(&mut processor, &mut rsp, 0, Some(&mut code)), 0);
    assert_eq!(code, -5);
    assert_eq!(sys_getpid(&processor), 4);

    // pid 4 exits with code 7; the CPU goes round to init, then to pid 3.
    assert_eq!(sys_exit(&mut processor, &mut rsp, 7), 0);
    assert_eq!(processor.get(4).unwrap().state(), State::Zombie(7));
    assert_eq!(processor.get(4).unwrap().space(), None);
    assert_eq!(processor.take_released(), vec![space(4)]);
    assert_eq!(sys_getpid(&processor), 1);
    assert_eq!(sys_yield(&mut processor, &mut rsp), 0);
    assert_eq!(sys_getpid(&processor), 3);

    assert_eq!(sys_wait(&mut processor, &mut rsp, 0, Some(&mut code)), 4);
    assert_eq!(code, 7);
    assert!(processor.get(4).is_none());
    assert!(processor.get(3).unwrap().children().is_empty());
    assert_eq!(sys_wait(&mut processor, &mut rsp, 4, Some(&mut code)), -1);
}
