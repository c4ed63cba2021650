use respkv::role::{init_role, Role};

#[test]
fn alone_the_server_is_a_primary_with_a_fresh_identifier() {
    let role = init_role(None);
    match role {
        Role::Master {
            master_replid,
            master_repl_offset,
        } => {
            assert_eq!(master_replid.len(), 40);
            assert!(master_replid
                .iter()
                .all(|b| b.is_ascii_alphanumeric()));
            assert_eq!(master_repl_offset, 0);
        }
        Role::Slave { .. } => panic!("expected a primary"),
    }
}

#[test]
fn two_starts_draw_identifiers_independently() {
    let a = match init_role(None) {
        Role::Master { master_replid, .. } => master_replid,
        _ => panic!("expected a primary"),
    };
    let b = match init_role(None) {
        Role::Master { master_replid, .. } => master_replid,
        _ => panic!("expected a primary"),
    };
    // a collision of two 40-character draws is beyond unlikely
    assert_ne!(a, b);
}

#[test]
fn a_configured_primary_address_makes_a_follower() {
    let role = init_role(Some((b"10.0.0.7".to_vec(), 6380)));
    match role {
        Role::Slave { host, port } => {
            assert_eq!(host, b"10.0.0.7".to_vec());
            assert_eq!(port, 6380);
        }
        Role::Master { .. } => panic!("expected a follower"),
    }
}
