use wsl_devctl::cli::parse_manual_ports;
use wsl_devctl::data::{format_uptime, parse_caddyfile, parse_listen_port, parse_site_port};

#[test]
fn uptime_uses_largest_whole_unit() {
    assert_eq!(format_uptime(None), "-");
    assert_eq!(format_uptime(Some(0)), "0s");
    assert_eq!(format_uptime(Some(59)), "59s");
    assert_eq!(format_uptime(Some(60)), "1m");
    assert_eq!(format_uptime(Some(3599)), "59m");
    assert_eq!(format_uptime(Some(3600)), "1h");
    assert_eq!(format_uptime(Some(86399)), "23h");
    assert_eq!(format_uptime(Some(86400)), "1d");
    assert_eq!(format_uptime(Some(200000)), "2d");
    assert_eq!(format_uptime(Some(u64::MAX)), "213503982334601d");
}

#[test]
fn listen_port_after_last_colon_or_whole() {
    assert_eq!(parse_listen_port(":8080"), Some(8080));
    assert_eq!(parse_listen_port("localhost:443"), Some(443));
    assert_eq!(parse_listen_port("[::1]:2019"), Some(2019));
    assert_eq!(parse_listen_port("8080"), Some(8080));
    assert_eq!(parse_listen_port(":+80"), Some(80));
    assert_eq!(parse_listen_port(":065535"), Some(65535));
    assert_eq!(parse_listen_port(":65536"), None);
    assert_eq!(parse_listen_port("abc"), None);
    assert_eq!(parse_listen_port(":"), None);
    assert_eq!(parse_listen_port(""), None);
    assert_eq!(parse_listen_port(": 80"), None);
    assert_eq!(parse_listen_port(":-1"), None);
    assert_eq!(parse_listen_port(":+"), None);
}

#[test]
fn site_port_needs_a_colon() {
    assert_eq!(parse_site_port("localhost:8080"), Some(8080));
    assert_eq!(parse_site_port("example.com"), None);
    assert_eq!(parse_site_port("8080"), None);
    assert_eq!(parse_site_port("http://a:b"), None);
}

#[test]
fn manual_ports_skip_what_is_no_port() {
    assert_eq!(parse_manual_ports("3000,5173,8080"), vec![3000, 5173, 8080]);
    assert_eq!(parse_manual_ports(" 3000 , x, 70000,8080,"), vec![3000, 8080]);
    assert_eq!(parse_manual_ports(""), Vec::<u16>::new());
    assert_eq!(parse_manual_ports("\t22\u{a0}"), vec![22]);
}

#[test]
fn caddyfile_sites_and_blocks() {
    let text = "# comment\nexample.com:8080 {\n    root * /var/www/site\n    file_server\n}\nroot /orphan\nlocalhost {\n  root    *   /srv/app  \n}\n";
    let sites = parse_caddyfile(text);
    assert_eq!(sites.len(), 3);
    assert_eq!(sites[0].label, "example.com:8080");
    assert_eq!(sites[0].root, "/var/www/site");
    assert_eq!(sites[0].port, Some(8080));
    assert_eq!(sites[0].source, "caddyfile");
    assert_eq!(sites[1].label, "(unnamed-caddy-site)");
    assert_eq!(sites[1].root, "/orphan");
    assert_eq!(sites[1].port, None);
    assert_eq!(sites[2].label, "localhost");
    assert_eq!(sites[2].root, "/srv/app");
    assert_eq!(sites[2].port, None);
}

#[test]
fn caddyfile_crlf_and_nested_braces() {
    let sites = parse_caddyfile("a.com:81 {{\r\n root /x\r\n}\r\nrootless\n");
    assert_eq!(sites.len(), 1);
    assert_eq!(sites[0].label, "a.com:81");
    assert_eq!(sites[0].root, "/x");
    assert_eq!(sites[0].port, Some(81));
    assert!(parse_caddyfile("").is_empty());
    assert!(parse_caddyfile("root\n").is_empty());
}
