use injecttools::cidr::{cloudflare_ranges, is_cloudflare_ip, CidrBlock, EdgeNetworkTable};
use injecttools::ipv4::parse_ipv4;
use injecttools::markers::{head_confirms_edge, render_head, trace_marker};
use injecttools::scan::{tally, ProbeOutcome};
use injecttools::probe::OutcomeKind;

fn ip(a: u32, b: u32, c: u32, d: u32) -> u32 {
    (a << 24) | (b << 16) | (c << 8) | d
}

#[test]
fn block_bounds_are_inside() {
    let b = CidrBlock::new(ip(104, 16, 0, 0), 13).unwrap();
    assert_eq!(b.first_address(), ip(104, 16, 0, 0));
    assert_eq!(b.last_address(), ip(104, 23, 255, 255));
    assert!(b.contains(ip(104, 16, 0, 0)));
    assert!(b.contains(ip(104, 23, 255, 255)));
    assert!(b.contains(ip(104, 16, 1, 1)));
    assert!(!b.contains(ip(104, 24, 0, 0)));
    assert!(!b.contains(ip(104, 15, 255, 255)));
    assert_eq!(b.network(), ip(104, 16, 0, 0));
    assert_eq!(b.prefix(), 13);
}

#[test]
fn unaligned_base_is_masked() {
    let b = CidrBlock::new(ip(10, 1, 2, 3), 8).unwrap();
    assert_eq!(b.first_address(), ip(10, 0, 0, 0));
    assert_eq!(b.last_address(), ip(10, 255, 255, 255));
    let all = CidrBlock::new(0, 0).unwrap();
    assert!(all.contains(u32::MAX));
    let one = CidrBlock::new(ip(1, 2, 3, 4), 32).unwrap();
    assert!(one.contains(ip(1, 2, 3, 4)));
    assert!(!one.contains(ip(1, 2, 3, 5)));
    assert!(CidrBlock::new(0, 33).is_none());
}

#[test]
fn cloudflare_table_membership() {
    let t = EdgeNetworkTable::cloudflare();
    assert_eq!(t.len(), 15);
    assert_eq!(cloudflare_ranges().len(), 15);
    assert!(t.is_edge_network(ip(104, 16, 1, 1)));
    assert!(t.is_edge_network(ip(104, 16, 0, 0)));
    assert!(t.is_edge_network(ip(104, 27, 255, 255)));
    assert!(t.is_edge_network(ip(173, 245, 63, 255)));
    assert!(t.is_edge_network(ip(131, 0, 72, 0)));
    assert!(!t.is_edge_network(ip(8, 8, 8, 8)));
    assert!(!t.is_edge_network(ip(104, 28, 0, 0)));
    assert!(!t.is_edge_network(ip(173, 245, 64, 0)));
    assert!(t.is_well_formed());
    assert!(is_cloudflare_ip("162.159.0.1"));
    assert!(is_cloudflare_ip("104.16.1.1"));
    assert!(!is_cloudflare_ip("1.1.1.1"));
    assert!(!is_cloudflare_ip("8.8.8.8"));
    assert!(!is_cloudflare_ip("not an address"));
    assert!(!is_cloudflare_ip("2606:4700::1111"));
    assert!(!is_cloudflare_ip("104.016.1.1"));
}

#[test]
fn texts_that_do_not_parse_are_skipped() {
    let t = EdgeNetworkTable::from_cidr_texts(&vec![
        "10.0.0.0/8",
        "not a block",
        "1.2.3.4/33",
        "192.168.1.7",
    ]);
    assert_eq!(t.len(), 2);
    assert!(t.is_edge_network(ip(10, 200, 0, 1)));
    assert!(t.is_edge_network(ip(192, 168, 1, 7)));
    assert!(!t.is_edge_network(ip(192, 168, 1, 8)));
    assert!(!t.is_edge_network(ip(1, 2, 3, 4)));
    let empty = EdgeNetworkTable::new(Vec::new());
    assert!(!empty.is_edge_network(ip(10, 0, 0, 1)));
}

fn h(name: &str, value: &str) -> (Vec<u8>, Vec<u8>) {
    (name.as_bytes().to_vec(), value.as_bytes().to_vec())
}

#[test]
fn head_text_renders_each_header() {
    let head = render_head(&vec![h("date", "today"), h("server", "nginx")]);
    assert_eq!(head, b"date: today\nserver: nginx\n".to_vec());
    assert!(render_head(&Vec::new()).is_empty());
}

#[test]
fn edge_confirmation_looks_anywhere_in_the_head() {
    let confirms = |hs: Vec<(Vec<u8>, Vec<u8>)>| head_confirms_edge(&render_head(&hs));
    assert!(confirms(vec![h("CF-Ray", "8a1b-SIN")]));
    assert!(confirms(vec![h("x-cf-ray", "1")]));
    assert!(confirms(vec![h("cf-cache-status", "HIT")]));
    assert!(confirms(vec![h("Server", "Cloudflare")]));
    assert!(confirms(vec![h("server", "cloudflare-nginx")]));
    assert!(!confirms(vec![h("server", "nginx"), h("content-type", "text/html")]));
    assert!(!confirms(vec![h("cf-rayx", "1")]));
    assert!(!confirms(Vec::new()));
    assert!(head_confirms_edge(&b"HTTP/1.1 200 OK\r\nCF-RAY: abc\r\n".to_vec()));
}

#[test]
fn trace_marker_is_the_last_ray_line() {
    let head = render_head(&vec![h("cf-ray", "first-AMS"), h("date", "x"), h("CF-Ray", " last-SIN ")]);
    assert_eq!(trace_marker(&head), Some(b"last-SIN".to_vec()));
    let colon = render_head(&vec![h("cf-ray", "abc:def")]);
    assert_eq!(trace_marker(&colon), Some(b"abc".to_vec()));
    let none = render_head(&vec![h("x-cf-ray", "abc"), h("server", "cloudflare")]);
    assert_eq!(trace_marker(&none), None);
    assert_eq!(trace_marker(&b"HTTP/1.1 200 OK\r\ncf-ray: 77-LHR\r\n".to_vec()), Some(b"77-LHR".to_vec()));
}

#[test]
fn tally_counts_each_category() {
    let mk = |index: usize, kind: OutcomeKind| ProbeOutcome {
        index,
        candidate: format!("h{}", index),
        kind,
        ip: None,
        status_code: None,
        marker: None,
        elapsed_ms: 0,
    };
    let outs = vec![
        mk(0, OutcomeKind::Working),
        mk(1, OutcomeKind::Working),
        mk(2, OutcomeKind::TargetIssue),
        mk(3, OutcomeKind::DnsFailure),
    ];
    let c = tally(&outs);
    assert_eq!(c.working, 2);
    assert_eq!(c.target_issues, 1);
    assert_eq!(c.dns_failures, 1);
    assert_eq!(c.restricted, 0);
    assert_eq!(c.subdomain_issues, 0);
    assert_eq!(c.not_edge_network, 0);
}

#[test]
fn dotted_quad_texts() {
    assert_eq!(parse_ipv4(b"104.16.1.1"), Some(ip(104, 16, 1, 1)));
    assert_eq!(parse_ipv4(b"0.0.0.0"), Some(0));
    assert_eq!(parse_ipv4(b"255.255.255.255"), Some(u32::MAX));
    assert_eq!(parse_ipv4(b"10.200.3.45"), Some(ip(10, 200, 3, 45)));
    assert_eq!(parse_ipv4(b"256.1.1.1"), None);
    assert_eq!(parse_ipv4(b"1.2.3.300"), None);
    assert_eq!(parse_ipv4(b"01.2.3.4"), None);
    assert_eq!(parse_ipv4(b"1.2.3"), None);
    assert_eq!(parse_ipv4(b"1.2.3.4.5"), None);
    assert_eq!(parse_ipv4(b"1.2.3.4 "), None);
    assert_eq!(parse_ipv4(b"1..2.3"), None);
    assert_eq!(parse_ipv4(b"1234.1.1.1"), None);
    assert_eq!(parse_ipv4(b""), None);
    assert_eq!(parse_ipv4(b"::1"), None);
}
