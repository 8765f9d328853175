use dapp_lib::app_type::AppType;
use dapp_lib::config::{
    apply_conf_line, parse_for_storage_rule, parse_neighbor_line, read_policy, CharCursor, ConfSettings, Nat,
    PortAllocationRule,
};
use dapp_lib::search::Query;
use dapp_lib::storage::{StorageCondition, StoragePolicy};
use dapp_lib::swarm::{GnomeId, SwarmName};

fn gid(s: String) -> Option<GnomeId> {
    u64::from_str_radix(&s, 16).ok().map(GnomeId)
}

#[test]
fn storage_policy_numbers_and_names() {
    for i in 0..9usize {
        assert_eq!(StoragePolicy::get(i).get_id(), i);
    }
    assert_eq!(StoragePolicy::get(20), StoragePolicy::Forget);
    assert_eq!(StoragePolicy::MatchOrForget.get_string(), "MatchOrForget");
    assert_eq!(StoragePolicy::string_vec().len(), 9);
    assert_eq!(StoragePolicy::string_vec()[6], "MatchAndManifestOrFirstPages");
    assert!(StoragePolicy::MatchAndManifestOrForget.is_a_match_policy());
    assert!(!StoragePolicy::All.is_a_match_policy());
}

#[test]
fn storage_condition_is_met() {
    let me = GnomeId(5);
    let s = SwarmName { founder: GnomeId(5), name: "swarm".to_string() };
    assert!(StorageCondition::IamFounder.is_met(me, None, &s, false));
    assert!(!StorageCondition::FounderIs(GnomeId(6)).is_met(me, None, &s, false));
    assert!(StorageCondition::CatalogApp.is_met(me, Some(AppType::Catalog), &s, false));
    assert!(!StorageCondition::ForumApp.is_met(me, Some(AppType::Catalog), &s, false));
    assert!(StorageCondition::SearchMatch.is_met(me, None, &s, true));
    assert!(StorageCondition::Default.is_met(me, None, &s, false));
    let named = StorageCondition::SwarmName(SwarmName { founder: GnomeId(5), name: "swarm".to_string() });
    assert!(named.is_met(me, None, &s, false));
    assert_eq!(StorageCondition::get(2).get_id(), 2);
    assert_eq!(StorageCondition::string_vec()[1], "FounderIs");
    match StorageCondition::FounderIs(GnomeId(1)).update(Some(GnomeId(2)), None) {
        StorageCondition::FounderIs(g) => assert_eq!(g, GnomeId(2)),
        _ => panic!("wrong condition"),
    }
}

#[test]
fn read_policy_reads_a_word() {
    let mut c = CharCursor { chars: "  Forget rest".chars().collect(), pos: 0 };
    assert_eq!(read_policy(&mut c), Some(StoragePolicy::Forget));
    assert_eq!(c.pos, 9);
    let mut e = CharCursor { chars: "   ".chars().collect(), pos: 0 };
    assert_eq!(read_policy(&mut e), None);
}

#[test]
fn storage_rule_lines() {
    assert!(parse_for_storage_rule("# comment".to_string(), &gid).is_none());
    assert!(parse_for_storage_rule(String::new(), &gid).is_none());
    match parse_for_storage_rule("Default All".to_string(), &gid) {
        Some((StorageCondition::Default, StoragePolicy::All)) => {}
        other => panic!("{:?}", other),
    }
    match parse_for_storage_rule("FounderIs ff Datastore".to_string(), &gid) {
        Some((StorageCondition::FounderIs(g), StoragePolicy::Datastore)) => assert_eq!(g, GnomeId(255)),
        other => panic!("{:?}", other),
    }
    match parse_for_storage_rule("SwarmName 1f \"my swarm\" Manifest".to_string(), &gid) {
        Some((StorageCondition::SwarmName(s), StoragePolicy::Manifest)) => {
            assert_eq!(s.founder, GnomeId(31));
            assert_eq!(s.name, "my swarm");
        }
        other => panic!("{:?}", other),
    }
    assert!(parse_for_storage_rule("Unknown All".to_string(), &gid).is_none());
    assert!(parse_for_storage_rule("CatalogApp Nothing".to_string(), &gid).is_none());
}

#[test]
fn conf_lines_change_settings() {
    let mut s = ConfSettings::defaults();
    assert_eq!(s.max_connected_swarms, 8);
    apply_conf_line(&mut s, "AUTOSAVE");
    apply_conf_line(&mut s, "LISTEN_PORT 1026");
    apply_conf_line(&mut s, "MAX_CONNECTED_SWARMS 300");
    apply_conf_line(&mut s, "MAX_UPLOAD_BYTES_PER_SECOND +99");
    apply_conf_line(&mut s, "STORAGE_DIR /tmp/store");
    apply_conf_line(&mut s, "# LISTEN_PORT 9");
    assert!(s.autosave);
    assert_eq!(s.listen_port, Some(1026));
    assert_eq!(s.max_connected_swarms, 8);
    assert_eq!(s.upload_bandwidth, 99);
    assert_eq!(s.storage_dir, Some("/tmp/store".to_string()));
    assert_eq!(s.search_dir, None);
}

/// Four dot-separated numbers below 256: an IPv4 address.
fn ip_of(s: String) -> Option<String> {
    let parts: Vec<&str> = s.split('.').collect();
    if parts.len() == 4 && parts.iter().all(|p| p.parse::<u8>().is_ok()) {
        Some(s)
    } else {
        None
    }
}

fn transport_of(n: u8) -> Option<u8> {
    if n < 3 { Some(n) } else { None }
}

#[test]
fn neighbor_lines() {
    let n = parse_neighbor_line("192.168.0.1 1026 2 4 0", &ip_of, &transport_of, 9).unwrap();
    assert_eq!(n.ip, "192.168.0.1");
    assert_eq!(n.port, 1026);
    assert_eq!(n.nat, Nat::FullCone);
    assert_eq!(n.port_allocation, (PortAllocationRule::PortSensitive, 1));
    assert_eq!(n.transport, 0);
    let u = parse_neighbor_line("10.0.0.1 80 3 9 7", &ip_of, &transport_of, 9).unwrap();
    assert_eq!(u.nat, Nat::Unknown);
    assert_eq!(u.port_allocation, (PortAllocationRule::Random, 1));
    // an unknown transport becomes the fallback
    assert_eq!(u.transport, 9);
    assert!(parse_neighbor_line("10.0.0.1 80 3", &ip_of, &transport_of, 9).is_none());
    assert!(parse_neighbor_line("10.0.0.1 port 3 1 1", &ip_of, &transport_of, 9).is_none());
    assert!(parse_neighbor_line("#10.0.0.1 80 3 1 1", &ip_of, &transport_of, 9).is_none());
    // the first word must be an address
    assert!(parse_neighbor_line("foo 1 2 3 4", &ip_of, &transport_of, 9).is_none());
}

#[test]
fn query_words_and_compare() {
    let q = Query::new("red  green red".to_string(), true);
    assert_eq!(q.words.len(), 2);
    assert!(q.is_permanent);
    assert_eq!(q.compare(&"a red  green red car".to_string()), 101);
    assert_eq!(q.compare(&"a red green red car".to_string()), 150);
    assert_eq!(q.compare(&"green apple".to_string()), 50);
    assert_eq!(q.compare(&"green red".to_string()), 100);
    assert_eq!(q.compare(&"blue".to_string()), 0);
}

#[test]
fn written_storage_rules_read_back() {
    let gid = |_t: String| -> Option<GnomeId> { None };
    let words = ["IamFounder", "CatalogApp", "ForumApp", "SearchMatch", "Default"];
    for id in 0..9usize {
        let pol = StoragePolicy::get(id);
        for (k, w) in words.iter().enumerate() {
            let line = format!("{} {}", w, pol.get_string());
            let (c, p) = parse_for_storage_rule(line, &gid).unwrap();
            assert_eq!(p, pol);
            let ok = match (k, c) {
                (0, StorageCondition::IamFounder) => true,
                (1, StorageCondition::CatalogApp) => true,
                (2, StorageCondition::ForumApp) => true,
                (3, StorageCondition::SearchMatch) => true,
                (4, StorageCondition::Default) => true,
                _ => false,
            };
            assert!(ok);
        }
    }
}
