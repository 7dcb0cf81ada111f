use golden_core::federation::{
    announces_itself, expired_entities, export_entities, follows_bootstrap, host_of, import_entity,
    judge_url, peer_address, register_peer, settle_peer, sweep, validate_external_url, Import,
    PeerBook, UrlError, UrlParts,
};
use golden_core::graph::{Entity, EntityKind, SpaceGraph};
use golden_core::host::{is_internal_address, read_host, read_octet, HostAddress};
use golden_core::stamp::Timestamp;

fn at(secs: i64) -> Timestamp {
    Timestamp { secs, nanos: 0 }
}

fn entity(id: u128, label: &str, secs: i64) -> Entity {
    let mut e = Entity::new_at(EntityKind::Event, label, id, at(secs));
    e.embedding = Some(vec![id as u32]);
    e.activity_vec = Some(vec![id as u32 + 100]);
    e
}

fn parts(scheme: &str, host: Option<&str>) -> Option<UrlParts> {
    Some(UrlParts { scheme: scheme.to_string(), host: host.map(|h| h.to_string()) })
}

#[test]
fn peers_are_known_once() {
    let mut b = PeerBook::new();
    b.insert("https://a", 1);
    b.insert("https://b", 2);
    b.insert("https://a", 3);
    assert_eq!(b.peers, vec![("https://a".to_string(), 3), ("https://b".to_string(), 2)]);
    assert_eq!(b.find("https://b"), Some(1));
    assert_eq!(b.find("https://c"), None);
    assert_eq!(b.addresses(), vec!["https://a", "https://b"]);
    assert_eq!(b.others("https://a"), vec![("https://b".to_string(), 2)]);
    assert_eq!(b.others("https://z").len(), 2);
}

#[test]
fn hearsay_does_not_replace_a_known_peer() {
    let mut b = PeerBook::new();
    b.insert("https://a", 1);
    assert!(!b.learn("https://a", 9));
    assert!(b.learn("https://b", 2));
    assert_eq!(b.peers, vec![("https://a".to_string(), 1), ("https://b".to_string(), 2)]);
}

#[test]
fn of_two_rows_the_later_counts() {
    let rows = vec![
        ("https://a".to_string(), 1),
        ("https://b".to_string(), 2),
        ("https://a".to_string(), 3),
    ];
    let b = PeerBook::from_list(&rows);
    assert_eq!(b.peers, vec![("https://a".to_string(), 3), ("https://b".to_string(), 2)]);
}

#[test]
fn internal_addresses_are_recognized() {
    let internal = [
        [127, 0, 0, 1],
        [127, 9, 9, 9],
        [10, 1, 2, 3],
        [172, 16, 0, 1],
        [172, 31, 255, 255],
        [192, 168, 1, 1],
        [169, 254, 0, 1],
        [0, 0, 0, 0],
    ];
    for a in internal {
        assert!(is_internal_address(&HostAddress::V4(a)), "{:?}", a);
        assert!(blocked_by_std(a), "{:?}", a);
    }
    let public = [[8, 8, 8, 8], [172, 15, 0, 1], [172, 32, 0, 1], [192, 167, 0, 1], [0, 0, 0, 1]];
    for a in public {
        assert!(!is_internal_address(&HostAddress::V4(a)), "{:?}", a);
        assert!(!blocked_by_std(a), "{:?}", a);
    }
    assert!(is_internal_address(&HostAddress::V6([0, 0, 0, 0, 0, 0, 0, 0])));
    assert!(is_internal_address(&HostAddress::V6([0, 0, 0, 0, 0, 0, 0, 1])));
    assert!(!is_internal_address(&HostAddress::V6([0, 0, 0, 0, 0, 0, 0, 2])));
    assert!(!is_internal_address(&HostAddress::V6([1, 0, 0, 0, 0, 0, 0, 0])));
}

fn blocked_by_std(a: [u8; 4]) -> bool {
    let v4 = core::net::Ipv4Addr::from(a);
    v4.is_loopback() || v4.is_private() || v4.is_link_local() || v4.is_unspecified()
}

#[test]
fn every_fault_of_an_address_is_named() {
    let none: Option<HostAddress> = None;
    let e = judge_url(&None, "", &none).unwrap_err();
    assert!(matches!(e, UrlError::Invalid));
    assert_eq!(e.message(), "invalid URL");
    let e = judge_url(&parts("ftp", Some("a")), "a", &none).unwrap_err();
    assert_eq!(e.message(), "scheme 'ftp' not allowed");
    for host in ["localhost", "ip6-localhost"] {
        let e = judge_url(&parts("http", Some(host)), host, &none).unwrap_err();
        assert!(matches!(e, UrlError::InternalHost));
        assert_eq!(e.message(), "internal host not allowed");
    }
    let own = Some(HostAddress::V4([127, 0, 0, 1]));
    let e = judge_url(&parts("https", Some("127.0.0.1")), "127.0.0.1", &own).unwrap_err();
    assert!(matches!(e, UrlError::PrivateAddress));
    assert_eq!(e.message(), "private/internal IP not allowed");
    assert!(judge_url(&parts("https", None), "", &none).is_ok());
    let public = Some(HostAddress::V4([8, 8, 8, 8]));
    assert!(judge_url(&parts("http", Some("8.8.8.8")), "8.8.8.8", &public).is_ok());
}

#[test]
fn addresses_are_read_from_text() {
    for url in ["https://example.org/x", "http://8.8.8.8:99", "https://172.32.0.1", "http://[::1]/"] {
        assert!(validate_external_url(url).is_ok(), "{}", url);
    }
    assert!(matches!(validate_external_url("no url"), Err(UrlError::Invalid)));
    match validate_external_url("ftp://10.0.0.1") {
        Err(UrlError::Scheme(s)) => assert_eq!(s, "ftp"),
        other => panic!("{:?}", other),
    }
    assert!(matches!(validate_external_url("HTTP://LocalHost:80/"), Err(UrlError::InternalHost)));
    let internal = ["http://10.0.0.1/", "https://127.0.0.1", "http://0x7f.1", "http://0/", "http://192.168.7.9:80"];
    for url in internal {
        assert!(matches!(validate_external_url(url), Err(UrlError::PrivateAddress)), "{}", url);
    }
}

#[test]
fn octets_are_read_as_they_are_written() {
    for v in 0..=255u8 {
        assert_eq!(read_octet(&v.to_string()), Some(v));
    }
    for bad in ["", "256", "00", "01", "1000", "-1", "+1", " 1", "1a", "999", "\u{661}"] {
        assert_eq!(read_octet(bad), None, "{}", bad);
    }
}

#[test]
fn hosts_are_read_as_the_standard_library_reads_them() {
    let hosts = [
        "127.0.0.1", "0.0.0.0", "255.255.255.255", "1.2.3", "1.2.3.4.5", "1.2.3.", ".1.2.3", "1..2.3",
        "1.2.3.256", "01.2.3.4", "1.2.3.4 ", "example.org", "", "...", "[::1]",
    ];
    for host in hosts {
        let expected = host.parse::<core::net::Ipv4Addr>().ok().map(|a| HostAddress::V4(a.octets()));
        assert_eq!(read_host(host), expected, "{}", host);
    }
}

#[test]
fn hosts_are_written_in_lower_case() {
    assert_eq!(host_of("https://Example.ORG:8080/Path"), "example.org");
    assert_eq!(host_of("foo://EXAMPLE/"), "example");
    assert_eq!(host_of("mailto:a@b"), "");
    assert_eq!(host_of("nonsense"), "");
    assert_eq!(host_of("http://0x7f.1/"), "127.0.0.1");
}

#[test]
fn a_node_that_registers_is_told_of_the_others() {
    let mut b = PeerBook::new();
    b.insert("https://b.example", 2);
    let others = register_peer(&mut b, "https://a.example//", 1).unwrap();
    assert_eq!(others, vec![("https://b.example".to_string(), 2)]);
    assert_eq!(b.peers[1], ("https://a.example".to_string(), 1));
    let again = register_peer(&mut b, "https://a.example", 7).unwrap();
    assert_eq!(again.len(), 1);
    assert_eq!(b.peers[1].1, 7);
    assert_eq!(peer_address("https://a.example//"), "https://a.example");
}

#[test]
fn a_refused_node_leaves_no_trace() {
    let mut b = PeerBook::new();
    assert!(register_peer(&mut b, "http://localhost/", 1).is_none());
    assert!(register_peer(&mut b, "?", 1).is_none());
    assert!(register_peer(&mut b, "http://192.168.0.1", 1).is_none());
    assert!(settle_peer(&mut b, "https://a", 1, true).is_none());
    assert!(b.peers.is_empty());
    assert_eq!(settle_peer(&mut b, "https://a", 1, false), Some(vec![]));
    assert_eq!(b.peers.len(), 1);
}

#[test]
fn only_public_nodes_announce_themselves() {
    assert!(!announces_itself(""));
    assert!(!announces_itself("https://space.gold3112.online"));
    assert!(announces_itself("https://mine.example"));
    assert!(follows_bootstrap("https://space.gold3112.online", "https://mine.example/"));
    assert!(!follows_bootstrap("https://mine.example", "https://mine.example/"));
    assert!(follows_bootstrap("https://space.gold3112.online", ""));
}

#[test]
fn what_belongs_to_the_node_is_not_shared() {
    let mut g = SpaceGraph::new();
    for (i, l) in ["oak", "oak·convergence", "wanderer_1", "elm", "a wanderer_"].iter().enumerate() {
        g.add_entity(entity(i as u128, l, 0));
    }
    let labels: Vec<String> = export_entities(&g).into_iter().map(|e| e.label).collect();
    assert_eq!(labels, vec!["oak", "elm", "a wanderer_"]);
    assert_eq!(export_entities(&g)[0].embedding, Some(vec![0]));
}

#[test]
fn news_from_other_nodes_is_taken_over() {
    let mut g = SpaceGraph::new();
    g.add_entity(entity(1, "oak", 50));
    assert_eq!(import_entity(&mut g, entity(2, "elm", 10)), Import::Added(1));
    assert_eq!(g.get_entity(&2).unwrap().label, "elm");
    assert_eq!(import_entity(&mut g, entity(3, "oak", 60)), Import::Refreshed(0));
    let oak = g.entity_at(0);
    assert_eq!(oak.id, 1);
    assert_eq!(oak.embedding, Some(vec![1]));
    assert_eq!(oak.activity_vec, Some(vec![103]));
    assert_eq!(oak.last_active, at(60));
    assert_eq!(import_entity(&mut g, entity(4, "oak", 60)), Import::Kept(0));
    assert_eq!(import_entity(&mut g, entity(5, "oak", 20)), Import::Kept(0));
    assert_eq!(g.entity_at(0).activity_vec, Some(vec![103]));
    assert_eq!(g.entity_count(), 2);
}

#[test]
fn the_order_of_news_does_not_matter_to_its_time() {
    let mut a = SpaceGraph::new();
    import_entity(&mut a, entity(1, "oak", 5));
    import_entity(&mut a, entity(2, "oak", 9));
    let mut b = SpaceGraph::new();
    import_entity(&mut b, entity(2, "oak", 9));
    import_entity(&mut b, entity(1, "oak", 5));
    assert_eq!(a.entity_at(0).last_active, at(9));
    assert_eq!(b.entity_at(0).last_active, at(9));
    assert_eq!(import_entity(&mut a, entity(2, "oak", 9)), Import::Kept(0));
    assert_eq!(a.entity_count(), 1);
}

#[test]
fn time_is_up_at_the_end() {
    let mut g = SpaceGraph::new();
    for (i, end) in [Some(9), Some(10), Some(11), None].into_iter().enumerate() {
        let mut e = entity(i as u128, "x", 0);
        e.expires_at = end.map(at);
        g.add_entity(e);
    }
    g.add_relation(2, 3, 7);
    g.add_relation(0, 3, 7);
    assert_eq!(expired_entities(&g, at(10)), vec![0, 1]);
    assert_eq!(sweep(&mut g, at(10)), vec![0, 1]);
    assert!(expired_entities(&g, at(10)).is_empty());
    assert_eq!(g.entity_count(), 2);
    assert_eq!((g.entity_at(0).id, g.entity_at(1).id), (3, 2));
    assert!(g.get_entity(&0).is_none() && g.get_entity(&1).is_none());
    assert_eq!(g.get_entity(&2).unwrap().expires_at, Some(at(11)));
    assert_eq!(g.get_entity(&3).unwrap().expires_at, None);
    assert_eq!(g.shortest_path(2, 3), Some(1));
    assert_eq!(g.relation_count(), 1);
}
