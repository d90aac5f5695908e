use kernel_process::process::process::{
    AddressSpace, State, TrapFrame, IDLE_PID, INIT_PID,
};
use kernel_process::process::processor::Processor;
use kernel_process::process::{
    add_user_process, init, sys_exit, sys_fork, sys_kill, sys_sleep, sys_wait, sys_yield,
    timer_handler,
};

fn space(handle: usize) -> AddressSpace {
    AddressSpace { handle, kernel_stack: 0x1000 * handle, user_stack: 0x8000_0000 + handle }
}

fn frame() -> TrapFrame {
    TrapFrame { ip: 1, sp: 2, ret: 3, arg: 4, flags: 5, user: true }
}

/// Checks what must hold of every table, up to the pid `limit`.
fn check(p: &Processor, limit: usize) {
    let mut present = 0;
    let mut running = 0;
    for pid in 0..limit {
        let entry = match p.get(pid) {
            Some(e) => e,
            None => continue,
        };
        present += 1;
        assert_eq!(entry.pid(), pid);
        assert!(pid >= 1);
        if entry.state() == State::Running {
            running += 1;
            assert_eq!(pid, p.current_pid());
        }
        if let State::Zombie(_) = entry.state() {
            assert_eq!(entry.space(), None);
            if pid != INIT_PID {
                assert!(entry.children().is_empty());
            }
        }
        if let Some(parent) = entry.parent() {
            assert!(parent < pid);
            assert!(p.get(parent).unwrap().has_child(pid));
        }
        let kids = entry.children();
        for (i, c) in kids.iter().enumerate() {
            assert_eq!(p.get(*c).unwrap().parent(), Some(pid));
            assert!(!kids[..i].contains(c));
        }
    }
    assert_eq!(present, p.len());
    assert!(running <= 1);
    assert!(p.get(p.current_pid()).is_some());
    assert_eq!(p.get(INIT_PID).unwrap().parent(), None);
    assert_eq!(p.get(IDLE_PID).unwrap().parent(), None);
    let idle = p.get(IDLE_PID).unwrap().state();
    assert!(idle == State::Ready || idle == State::Running);
}

fn next(seed: &mut u64) -> usize {
    *seed = seed.wrapping_mul(6364136223846793005).wrapping_add(1442695040888963407);
    (*seed >> 33) as usize
}

fn churn(mut seed: u64, steps: usize) {
    let mut p = init(space(1), space(2), 0);
    let mut rsp: usize = 0;
    let mut made = 2;
    let tf = frame();
    check(&p, made + 1);
    for _ in 0..steps {
        let pick = next(&mut seed) % (made + 2);
        match next(&mut seed) % 9 {
            0 => {
                if sys_fork(&mut p, &tf, Some(space(made + 1))) > 0 {
                    made += 1;
                }
            }
            1 => {
                if add_user_process(&mut p, "u", 0, Some(space(made + 1))).is_some() {
                    made += 1;
                }
            }
            2 => {
                sys_yield(&mut p, &mut rsp);
            }
            3 => {
                timer_handler(&mut p, &tf, &mut rsp);
            }
            4 => {
                sys_exit(&mut p, &mut rsp, pick);
            }
            5 => {
                sys_kill(&mut p, pick);
            }
            6 => {
                sys_sleep(&mut p, &mut rsp, pick % 4);
            }
            7 => {
                let mut code = 0;
                sys_wait(&mut p, &mut rsp, 0, Some(&mut code));
            }
            _ => {
                sys_wait(&mut p, &mut rsp, pick, None);
            }
        }
        check(&p, made + 1);
    }
    p.take_released();
    check(&p, made + 1);
}

#[test]
fn table_stays_consistent_under_churn() {
    churn(1, 400);
    churn(2, 400);
    churn(0xdead_beef, 400);
}

#[test]
fn table_stays_consistent_under_long_churn() {
    churn(7, 3000);
}

#[test]
fn adds_leave_one_process_running() {
    let mut p = init(space(1), space(2), 0);
    for h in 3..40 {
        if h % 2 == 0 {
            sys_fork(&mut p, &frame(), Some(space(h)));
        } else {
            add_user_process(&mut p, "u", 0, Some(space(h)));
        }
        let running: Vec<usize> = (1..=h)
            .filter(|&q| p.get(q).map(|e| e.state()) == Some(State::Running))
            .collect();
        assert_eq!(running, vec![INIT_PID]);
        assert_eq!(p.current_pid(), INIT_PID);
    }
    check(&p, 41);
}

#[test]
fn released_spaces_are_those_of_the_ended_processes() {
    let mut p = init(space(1), space(2), 0);
    let mut rsp: usize = 0;
    for h in 3..9 {
        add_user_process(&mut p, "u", 0, Some(space(h)));
    }
    sys_kill(&mut p, 5);
    sys_yield(&mut p, &mut rsp);
    sys_exit(&mut p, &mut rsp, 0);
    sys_kill(&mut p, 8);
    sys_kill(&mut p, 5);
    assert_eq!(p.take_released(), vec![space(5), space(3), space(8)]);
    check(&p, 10);
}
