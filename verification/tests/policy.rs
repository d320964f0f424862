use trej::config::parsing::{ClientInfo, ConfigFile, LockEntry, PortInfo};
use trej::model::ports::PortFullname;
use trej::{LockConfig, LockStatus};

fn name(raw: &str) -> PortFullname {
    PortFullname::new(raw.to_owned()).unwrap()
}

fn client_entry(client: &str, lock: Option<LockStatus>, ports: Vec<(&str, PortInfo)>) -> LockEntry {
    let mut info = ClientInfo::new();
    if let Some(l) = lock {
        info = info.with_lock(l);
    }
    for (short, pinfo) in ports {
        info.ports.push((short.to_owned(), pinfo));
    }
    LockEntry::Client {
        name: client.to_owned(),
        info,
    }
}

fn port_entry(full: &str, lock: Option<LockStatus>, peers: Vec<&str>) -> LockEntry {
    let mut info = PortInfo::new();
    if let Some(l) = lock {
        info.set_lock(l);
    }
    for peer in peers {
        info.connections.push(name(peer));
    }
    LockEntry::Port {
        name: name(full),
        info,
    }
}

#[test]
fn lattice_joins() {
    assert_eq!(LockStatus::Unlocked.with_force(), LockStatus::Force);
    assert_eq!(LockStatus::Unlocked.with_block(), LockStatus::Block);
    assert_eq!(LockStatus::Force.with_block(), LockStatus::Full);
    assert_eq!(LockStatus::Block.with_force(), LockStatus::Full);
    assert_eq!(LockStatus::Full.with_force(), LockStatus::Full);
    for s in [
        LockStatus::Unlocked,
        LockStatus::Force,
        LockStatus::Block,
        LockStatus::Full,
    ] {
        assert!(s.with_force().should_force());
        assert!(s.with_block().should_block());
        assert_eq!(s.with_force().with_block(), LockStatus::Full);
    }
    assert!(!LockStatus::Unlocked.should_force());
    assert!(!LockStatus::Unlocked.should_block());
    assert!(LockStatus::Full.should_force());
    assert!(LockStatus::Full.should_block());
    assert_eq!(LockStatus::default(), LockStatus::Unlocked);
}

#[test]
fn statuses_inherit_and_override() {
    let file = ConfigFile {
        entries: vec![
            client_entry("studio", Some(LockStatus::Block), vec![]),
            port_entry("studio:mic", Some(LockStatus::Force), vec![]),
        ],
    };
    let cfg = LockConfig::from_config_file(&file).unwrap();
    assert_eq!(cfg.client_status("studio"), LockStatus::Block);
    assert_eq!(cfg.client_status("other"), LockStatus::Unlocked);
    // A port entry overrides its client's status; a port without one
    // inherits it.
    assert_eq!(cfg.port_status(&name("studio:mic")), LockStatus::Force);
    assert_eq!(cfg.port_status(&name("studio:aux")), LockStatus::Block);
    assert_eq!(cfg.port_status(&name("other:out")), LockStatus::Unlocked);
}

#[test]
fn force_block_asymmetry() {
    let a = name("client_a:out1");
    let b = name("client_b:in1");
    // Declared pair with a forced port: the connection is forced.
    let file = ConfigFile {
        entries: vec![
            client_entry("client_a", Some(LockStatus::Force), vec![]),
            port_entry("client_a:out1", None, vec!["client_b:in1"]),
        ],
    };
    let cfg = LockConfig::from_config_file(&file).unwrap();
    assert_eq!(cfg.connection_status(&a, &b), LockStatus::Force);
    assert_eq!(cfg.connection_status(&b, &a), LockStatus::Force);

    // The same lock without the declaration blocks instead of forcing.
    let file = ConfigFile {
        entries: vec![client_entry("client_a", Some(LockStatus::Block), vec![])],
    };
    let cfg = LockConfig::from_config_file(&file).unwrap();
    assert_eq!(cfg.connection_status(&a, &b), LockStatus::Block);

    // A declared pair whose port is locked Block (not Force) is left alone:
    // existing declared connections are never retroactively blocked.
    let file = ConfigFile {
        entries: vec![
            client_entry("client_a", Some(LockStatus::Block), vec![]),
            port_entry("client_a:out1", None, vec!["client_b:in1"]),
        ],
    };
    let cfg = LockConfig::from_config_file(&file).unwrap();
    assert_eq!(cfg.connection_status(&a, &b), LockStatus::Unlocked);

    // A pair with no locks anywhere is unrestricted.
    let cfg = LockConfig::new();
    assert_eq!(cfg.connection_status(&a, &b), LockStatus::Unlocked);
}

#[test]
fn forced_connections_filter() {
    let file = ConfigFile {
        entries: vec![
            client_entry("client_a", Some(LockStatus::Force), vec![]),
            port_entry("client_a:out1", None, vec!["client_b:in1"]),
            port_entry("client_c:out1", None, vec!["client_d:in1"]),
        ],
    };
    let cfg = LockConfig::from_config_file(&file).unwrap();
    let forced = cfg.forced_connections();
    assert_eq!(forced.len(), 1);
    assert_eq!(forced[0].0.as_str(), "client_a:out1");
    assert_eq!(forced[0].1.as_str(), "client_b:in1");
}

fn same_policy(x: &LockConfig, y: &LockConfig, clients: &[&str], ports: &[&str]) {
    for c in clients {
        assert_eq!(x.client_status(c), y.client_status(c));
    }
    for p in ports {
        assert_eq!(x.port_status(&name(p)), y.port_status(&name(p)));
        for q in ports {
            assert_eq!(
                x.connection_status(&name(p), &name(q)),
                y.connection_status(&name(p), &name(q))
            );
        }
    }
    let fx = x.forced_connections();
    let fy = y.forced_connections();
    assert_eq!(fx.len(), fy.len());
    for (a, b) in fx.iter().zip(fy.iter()) {
        assert_eq!(a.0.as_str(), b.0.as_str());
        assert_eq!(a.1.as_str(), b.1.as_str());
    }
}

#[test]
fn config_round_trip_merges_symmetric_declarations() {
    // The same logical connection declared once nested under a client and
    // once under a fullname key, from the two opposite sides.
    let file = ConfigFile {
        entries: vec![
            client_entry(
                "client_a",
                Some(LockStatus::Force),
                vec![("out1", {
                    let mut p = PortInfo::new();
                    p.connections.push(name("client_b:in1"));
                    p
                })],
            ),
            port_entry("client_b:in1", None, vec!["client_a:out1"]),
        ],
    };
    let loaded = LockConfig::from_config_file(&file).unwrap();
    // The symmetric declarations merged into one canonical pair, forced
    // through client_a's lock.
    assert_eq!(loaded.forced_connections().len(), 1);
    let stored = loaded.to_config_file();
    let reloaded = LockConfig::from_config_file(&stored).unwrap();
    let interesting = [
        "client_a:out1",
        "client_b:in1",
        "client_a:other",
        "client_c:x",
    ];
    same_policy(&loaded, &reloaded, &["client_a", "client_b"], &interesting);

    // Round trip again after the pair gains force eligibility.
    let file = ConfigFile {
        entries: vec![
            client_entry("client_b", Some(LockStatus::Force), vec![]),
            client_entry(
                "client_a",
                None,
                vec![("out1", {
                    let mut p = PortInfo::new();
                    p.connections.push(name("client_b:in1"));
                    p
                })],
            ),
        ],
    };
    let loaded = LockConfig::from_config_file(&file).unwrap();
    assert_eq!(loaded.forced_connections().len(), 1);
    let stored = loaded.to_config_file();
    let reloaded = LockConfig::from_config_file(&stored).unwrap();
    same_policy(&loaded, &reloaded, &["client_a", "client_b"], &interesting);
}

#[test]
fn load_rejects_bad_nested_name() {
    let long_client: String = std::iter::repeat('c').take(100).collect();
    let file = ConfigFile {
        entries: vec![client_entry(
            &long_client,
            None,
            vec![("p", PortInfo::new())],
        )],
    };
    let err = match LockConfig::from_config_file(&file) {
        Err(e) => e,
        Ok(_) => panic!("load accepted a bad nested name"),
    };
    assert_eq!(err, trej::NameError::ClientnameTooLong);
}
