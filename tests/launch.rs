use std::collections::BTreeSet;
use usermode_gate::failure::{exit_status, Failure};
use usermode_gate::launch::{plan_invocation, Action, Category, Plan};
use usermode_gate::registry::{Helper, Registry};
use usermode_gate::sanitize::{failure_status, sanitize_steps, FdStep};

fn args(items: &[&str]) -> Vec<Vec<u8>> {
    items.iter().map(|s| s.as_bytes().to_vec()).collect()
}

fn registry(caps: Option<&str>) -> Registry {
    let h = match Helper::from_config("/sbin/modprobe".to_string(), None, caps) {
        Ok(h) => h,
        Err(_) => panic!("bad helper"),
    };
    Registry { helpers: vec![h] }
}

fn plan(caps: Option<&str>, invocation: &[&str]) -> Plan {
    match plan_invocation(&registry(caps), &args(invocation)) {
        Ok(p) => p,
        Err(_) => panic!("expected a plan"),
    }
}

/// A stand-in for the kernel that records what is done to it.
#[derive(Default)]
struct FakeKernel {
    calls: Vec<&'static str>,
    no_root: bool,
    effective: BTreeSet<u8>,
    inheritable: BTreeSet<u8>,
    permitted: BTreeSet<u8>,
    ambient: BTreeSet<u8>,
    nnp_count: usize,
    exec_count: usize,
}

impl FakeKernel {
    fn perform(&mut self, action: Action, caps: &[u8]) {
        let keep: BTreeSet<u8> = caps.iter().copied().collect();
        match action {
            Action::SetNoRoot => {
                self.calls.push("securebits");
                self.no_root = true;
            }
            Action::ReplaceSet(Category::Effective) => {
                self.calls.push("set");
                self.effective = keep;
            }
            Action::ReplaceSet(Category::Inheritable) => {
                self.calls.push("set");
                self.inheritable = keep;
            }
            Action::ReplaceSet(Category::Permitted) => {
                self.calls.push("set");
                self.permitted = keep;
            }
            Action::ReplaceSet(Category::Ambient) => {
                self.calls.push("set");
                self.ambient = keep;
            }
            Action::RaiseAmbient(c) => {
                self.calls.push("raise");
                self.ambient.insert(c);
            }
            Action::SetNoNewPrivs => {
                self.calls.push("nnp");
                self.nnp_count += 1;
            }
            Action::Exec => {
                self.calls.push("exec");
                self.exec_count += 1;
            }
        }
    }
}

fn run(p: &Plan) -> FakeKernel {
    let mut k = FakeKernel::default();
    k.effective = (0..41).collect();
    k.inheritable = (0..41).collect();
    k.permitted = (0..41).collect();
    for a in &p.actions {
        k.perform(*a, &p.caps);
    }
    k
}

#[test]
fn restriction_keeps_exactly_the_configured_set() {
    let p = plan(Some("cap_sys_module"), &["/sbin/modprobe", "-q", "ext4"]);
    let k = run(&p);
    let only: BTreeSet<u8> = [16u8].into_iter().collect();
    assert!(k.no_root);
    assert_eq!(k.effective, only);
    assert_eq!(k.inheritable, only);
    assert_eq!(k.permitted, only);
    assert!(k.ambient.contains(&16));
    assert_eq!(k.nnp_count, 1);
    assert_eq!(k.exec_count, 1);
}

#[test]
fn kernel_calls_come_in_order() {
    let p = plan(Some("cap_sys_module cap_net_admin"), &["/sbin/modprobe", "x"]);
    let k = run(&p);
    assert_eq!(
        k.calls,
        vec!["securebits", "set", "set", "set", "raise", "raise", "nnp", "exec"]
    );
    assert_eq!(
        p.actions,
        vec![
            Action::SetNoRoot,
            Action::ReplaceSet(Category::Effective),
            Action::ReplaceSet(Category::Inheritable),
            Action::ReplaceSet(Category::Permitted),
            Action::RaiseAmbient(16),
            Action::RaiseAmbient(12),
            Action::SetNoNewPrivs,
            Action::Exec,
        ]
    );
}

#[test]
fn absent_set_skips_restriction() {
    let p = plan(None, &["/sbin/modprobe"]);
    assert_eq!(p.actions, vec![Action::Exec]);
    assert!(p.caps.is_empty());
    let blank = plan(Some("   "), &["/sbin/modprobe"]);
    assert_eq!(blank.actions, vec![Action::Exec]);
}

#[test]
fn empty_set_drops_everything() {
    let p = plan(Some(","), &["/sbin/modprobe"]);
    let k = run(&p);
    assert!(k.effective.is_empty());
    assert!(k.inheritable.is_empty());
    assert!(k.permitted.is_empty());
    assert!(k.ambient.is_empty());
    assert_eq!(k.calls, vec!["securebits", "set", "set", "set", "nnp", "exec"]);
}

#[test]
fn unknown_invocation_gets_no_plan() {
    let reg = registry(Some("cap_sys_module"));
    match plan_invocation(&reg, &args(&["/bin/sh", "-c", "id"])) {
        Err(e) => assert_eq!(e.path, b"/bin/sh".to_vec()),
        Ok(_) => panic!("nothing may run"),
    }
}

#[test]
fn launch_uses_helper_path_and_fixed_environment() {
    let p = plan(None, &["/sbin/modprobe", "-q", "ext4"]);
    assert_eq!(p.launch.program, "/sbin/modprobe");
    assert_eq!(p.launch.args, args(&["-q", "ext4"]));
    let env: Vec<(String, String)> =
        p.launch.env.iter().map(|v| (v.name.clone(), v.value.clone())).collect();
    assert_eq!(
        env,
        vec![
            ("HOME".to_string(), "/".to_string()),
            ("TERM".to_string(), "linux".to_string()),
            ("PATH".to_string(), "/sbin:/bin:/usr/sbin:/usr/bin".to_string()),
        ]
    );
}

#[test]
fn sanitization_steps_and_statuses() {
    let steps = sanitize_steps();
    assert_eq!(
        steps,
        vec![
            FdStep::OpenNull,
            FdStep::Redirect(0),
            FdStep::Redirect(1),
            FdStep::Redirect(2),
            FdStep::CloseFrom(3),
        ]
    );
    assert_eq!(failure_status(FdStep::OpenNull), 2);
    assert_eq!(failure_status(FdStep::Redirect(1)), 3);
    assert_eq!(failure_status(FdStep::CloseFrom(3)), 3);
}

#[test]
fn sanitization_leaves_only_standard_streams_on_null() {
    // 0, 1, 2 on a file and pipes; 5 and 7 open too.
    let mut table: std::collections::BTreeMap<i32, &str> =
        [(0, "file"), (1, "pipe"), (2, "pipe"), (5, "socket"), (7, "file")].into_iter().collect();
    let mut null_fd = -1;
    for step in sanitize_steps() {
        match step {
            FdStep::OpenNull => {
                null_fd = (0..).find(|fd| !table.contains_key(fd)).unwrap();
                table.insert(null_fd, "null");
            }
            FdStep::Redirect(fd) => {
                let target = table[&null_fd];
                table.insert(fd, target);
            }
            FdStep::CloseFrom(lo) => table.retain(|fd, _| *fd < lo),
        }
    }
    let expected: std::collections::BTreeMap<i32, &str> =
        [(0, "null"), (1, "null"), (2, "null")].into_iter().collect();
    assert_eq!(table, expected);
}

#[test]
fn exit_statuses_are_distinct_for_sanitization() {
    assert_eq!(exit_status(&Failure::Descriptors(FdStep::OpenNull)), 2);
    assert_eq!(exit_status(&Failure::Descriptors(FdStep::CloseFrom(3))), 3);
    assert_eq!(exit_status(&Failure::Config), 1);
    assert_eq!(exit_status(&Failure::UnknownHelper), 1);
    assert_eq!(exit_status(&Failure::Kernel(Action::SetNoNewPrivs)), 1);
    assert_eq!(exit_status(&Failure::Exec), 1);
}
