use usermode_gate::capability::{parse_caps, CapabilitySet};

fn indices(set: &CapabilitySet) -> Vec<u8> {
    let mut v = set.indices();
    v.sort();
    v
}

fn parsed(text: &str) -> Vec<u8> {
    match parse_caps(text) {
        Ok(Some(set)) => indices(&set),
        _ => panic!("expected a capability set for {:?}", text),
    }
}

#[test]
fn legacy_format_ignores_flags() {
    assert_eq!(parsed("= cap_sys_module+eip"), parsed("cap_sys_module"));
    assert_eq!(parsed("cap_sys_module"), vec![16]);
}

#[test]
fn legacy_format_with_several_flags() {
    assert_eq!(parsed("= cap_net_admin+ei cap_kill-e"), vec![5, 12]);
}

#[test]
fn blank_text_is_absent() {
    assert!(matches!(parse_caps(""), Ok(None)));
    assert!(matches!(parse_caps("   \t\n"), Ok(None)));
    assert!(matches!(parse_caps(" = "), Ok(None)));
}

#[test]
fn separators_only_give_the_empty_set() {
    match parse_caps(",") {
        Ok(Some(set)) => assert_eq!(set.len(), 0),
        _ => panic!("expected the empty set"),
    }
}

#[test]
fn lower_case_names_are_upper_cased() {
    match parse_caps("cap_sys_module") {
        Ok(Some(set)) => {
            assert_eq!(set.len(), 1);
            assert_eq!(set.caps[0].index, 16);
            assert_eq!(set.caps[0].name, "CAP_SYS_MODULE");
        }
        _ => panic!("expected a set"),
    }
}

#[test]
fn upper_case_names_resolve() {
    assert_eq!(parsed("CAP_NET_ADMIN,CAP_SYS_ADMIN"), vec![12, 21]);
}

#[test]
fn duplicates_collapse() {
    match parse_caps("cap_net_admin cap_net_admin,CAP_NET_ADMIN+e") {
        Ok(Some(set)) => {
            assert_eq!(set.len(), 1);
            assert!(set.contains(12));
            assert!(!set.contains(16));
        }
        _ => panic!("expected a set"),
    }
}

#[test]
fn unicode_white_space_separates() {
    assert_eq!(parsed("\u{3000}cap_kill\u{a0}cap_chown\u{2003}"), vec![0, 5]);
}

#[test]
fn unknown_name_is_reported() {
    match parse_caps("cap_sys_module, cap_bogus+e") {
        Err(e) => {
            assert_eq!(e.name, "cap_bogus");
            assert_eq!(e.message(), "bad caps cap_bogus");
        }
        _ => panic!("expected an error"),
    }
}

#[test]
fn first_unknown_name_is_reported() {
    match parse_caps("cap_nope cap_kill cap_other") {
        Err(e) => assert_eq!(e.name, "cap_nope"),
        _ => panic!("expected an error"),
    }
}

#[test]
fn flag_alone_names_nothing() {
    match parse_caps("+eip") {
        Err(e) => assert_eq!(e.name, ""),
        _ => panic!("expected an error"),
    }
}

#[test]
fn names_without_prefix_are_unknown() {
    assert!(parse_caps("sys_module").is_err());
}

#[test]
fn canonical_text_parses_back() {
    let text = "= cap_sys_module+eip, cap_net_admin-e cap_kill";
    let first = match parse_caps(text) {
        Ok(Some(set)) => set,
        _ => panic!("expected a set"),
    };
    let canonical = first.to_text();
    assert_eq!(canonical, "CAP_SYS_MODULE CAP_NET_ADMIN CAP_KILL");
    assert_eq!(parsed(&canonical), indices(&first));
}

#[test]
fn empty_set_has_empty_text() {
    let set = CapabilitySet::new();
    assert_eq!(set.to_text(), "");
    assert_eq!(set.len(), 0);
}
