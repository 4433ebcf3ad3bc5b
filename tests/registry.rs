use usermode_gate::registry::{Helper, Registry};

fn args(items: &[&str]) -> Vec<Vec<u8>> {
    items.iter().map(|s| s.as_bytes().to_vec()).collect()
}

fn helper(path: &str, argc: Option<usize>, caps: Option<&str>) -> Helper {
    match Helper::from_config(path.to_string(), argc, caps) {
        Ok(h) => h,
        Err(_) => panic!("bad helper"),
    }
}

#[test]
fn modprobe_with_three_arguments_is_admitted() {
    let reg = Registry { helpers: vec![helper("/sbin/modprobe", Some(3), None)] };
    let found = reg.find_helper(&args(&["/sbin/modprobe", "-q", "ext4"]));
    match found {
        Ok(h) => assert_eq!(h.path, "/sbin/modprobe"),
        Err(_) => panic!("expected a helper"),
    }
}

#[test]
fn modprobe_with_four_arguments_is_rejected() {
    let reg = Registry { helpers: vec![helper("/sbin/modprobe", Some(3), None)] };
    let found = reg.find_helper(&args(&["/sbin/modprobe", "-q", "ext4", "extra"]));
    match found {
        Err(e) => assert_eq!(e.path, b"/sbin/modprobe".to_vec()),
        Ok(_) => panic!("expected a rejection"),
    }
}

#[test]
fn unknown_path_is_rejected_with_its_path() {
    let reg = Registry {
        helpers: vec![helper("/sbin/modprobe", None, None), helper("/sbin/hotplug", Some(2), None)],
    };
    match reg.find_helper(&args(&["/tmp/evil", "x"])) {
        Err(e) => assert_eq!(e.path, b"/tmp/evil".to_vec()),
        Ok(_) => panic!("expected a rejection"),
    }
    assert_eq!(reg.find_index(&args(&["/sbin/modprobe2"])), None);
}

#[test]
fn path_must_match_exactly() {
    let h = helper("/sbin/modprobe", None, None);
    assert!(!h.allowed(&args(&["/sbin/modprobe/"])));
    assert!(!h.allowed(&args(&["sbin/modprobe"])));
    assert!(h.allowed(&args(&["/sbin/modprobe"])));
    assert!(h.allowed(&args(&["/sbin/modprobe", "a", "b", "c"])));
}

#[test]
fn non_utf8_argument_is_compared_as_bytes() {
    let h = helper("/sbin/modprobe", None, None);
    assert!(!h.allowed(&vec![vec![0xff, 0xfe]]));
    assert!(h.allowed(&vec![b"/sbin/modprobe".to_vec(), vec![0xff]]));
}

#[test]
fn empty_invocation_is_rejected() {
    let reg = Registry { helpers: vec![helper("/sbin/modprobe", None, None)] };
    match reg.find_helper(&Vec::new()) {
        Err(e) => assert!(e.path.is_empty()),
        Ok(_) => panic!("expected a rejection"),
    }
}

#[test]
fn first_matching_helper_wins() {
    let reg = Registry {
        helpers: vec![
            helper("/sbin/modprobe", Some(2), Some("cap_kill")),
            helper("/sbin/modprobe", None, Some("cap_sys_module")),
            helper("/sbin/modprobe", None, None),
        ],
    };
    assert_eq!(reg.find_index(&args(&["/sbin/modprobe", "x"])), Some(0));
    assert_eq!(reg.find_index(&args(&["/sbin/modprobe", "x", "y"])), Some(1));
}

#[test]
fn capability_text_is_parsed_into_the_helper() {
    let h = helper("/sbin/modprobe", None, Some("= cap_sys_module+eip"));
    let caps = h.capabilities.expect("a set");
    assert_eq!(caps.indices(), vec![16]);
    let absent = helper("/sbin/modprobe", None, Some("  "));
    assert!(absent.capabilities.is_none());
    let missing = helper("/sbin/modprobe", Some(1), None);
    assert!(missing.capabilities.is_none());
    assert_eq!(missing.argc, Some(1));
}

#[test]
fn bad_capability_text_fails_the_helper() {
    match Helper::from_config("/sbin/x".to_string(), None, Some("cap_sys_modul")) {
        Err(e) => assert_eq!(e.name, "cap_sys_modul"),
        Ok(_) => panic!("expected an error"),
    }
}
