use wsl_devctl::data::{
    caddy_sites_from_config, collect_port_owners, extract_port, merge_caddy_sites,
    parse_port_from_value, pm2_process_from_json, pm2_processes_from_json, select_conflicts, CaddySite,
    caddy_sites_from_body, pm2_processes_from_jlist,
    Pm2Process,
};
use wsl_devctl::json::{JsonNumber, JsonValue};

fn to_json(v: serde_json::Value) -> JsonValue {
    match v {
        serde_json::Value::Null => JsonValue::Null,
        serde_json::Value::Bool(b) => JsonValue::Bool(b),
        serde_json::Value::Number(n) => JsonValue::Number(JsonNumber { as_u64: n.as_u64(), as_i64: n.as_i64() }),
        serde_json::Value::String(s) => JsonValue::Str(s),
        serde_json::Value::Array(a) => JsonValue::Array(a.into_iter().map(to_json).collect()),
        serde_json::Value::Object(m) => JsonValue::Object(m.into_iter().map(|(k, v)| (k, to_json(v))).collect()),
    }
}

fn parse(text: &str) -> JsonValue {
    to_json(serde_json::from_str(text).unwrap())
}

fn proc(name: &str, status: &str, port: Option<u16>) -> Pm2Process {
    Pm2Process {
        name: name.to_string(),
        status: status.to_string(),
        port,
        memory_mb: 0,
        uptime_secs: None,
        pid: None,
    }
}

fn site(label: &str, port: Option<u16>) -> CaddySite {
    CaddySite { label: label.to_string(), root: "/r".to_string(), port, source: "caddyfile".to_string() }
}

#[test]
fn jlist_records_sorted_by_name() {
    let val = parse(
        r#"[{"name":"web","pid":123,"pm2_env":{"status":"online","pm_uptime":1000,"env":{"PORT":"3000"}},"monit":{"memory":10485760}},
            {"name":"api","pm2_env":{"status":"stopped","PORT":4000,"pm_uptime":99999}},
            {"pid":-1}]"#,
    );
    let ps = pm2_processes_from_json(&val, 61000);
    let names: Vec<&str> = ps.iter().map(|p| p.name.as_str()).collect();
    assert_eq!(names, vec!["api", "unknown", "web"]);
    assert_eq!(ps[0].status, "stopped");
    assert_eq!(ps[0].port, Some(4000));
    assert_eq!(ps[0].uptime_secs, None);
    assert_eq!(ps[0].memory_mb, 0);
    assert_eq!(ps[1].status, "unknown");
    assert_eq!(ps[1].pid, Some(-1));
    assert_eq!(ps[1].port, None);
    assert_eq!(ps[2].port, Some(3000));
    assert_eq!(ps[2].uptime_secs, Some(60));
    assert_eq!(ps[2].memory_mb, 10);
    assert_eq!(ps[2].pid, Some(123));
}

#[test]
fn jlist_that_is_no_array_has_no_processes() {
    assert!(pm2_processes_from_json(&parse(r#"{"name":"x"}"#), 0).is_empty());
}

#[test]
fn equal_names_keep_document_order() {
    let val = parse(r#"[{"name":"b","pid":1},{"name":"a","pid":2},{"name":"b","pid":3}]"#);
    let ps = pm2_processes_from_json(&val, 0);
    let pids: Vec<Option<i64>> = ps.iter().map(|p| p.pid).collect();
    assert_eq!(pids, vec![Some(2), Some(1), Some(3)]);
}

#[test]
fn one_process_record() {
    let p = pm2_process_from_json(&parse(r#"{"name":"n","monit":{"memory":2097151},"pm2_env":{"pm_uptime":0}}"#), 5999);
    assert_eq!(p.name, "n");
    assert_eq!(p.status, "unknown");
    assert_eq!(p.memory_mb, 1);
    assert_eq!(p.uptime_secs, Some(5));
}

#[test]
fn port_from_env_before_own_record() {
    let env = parse(r#"{"PORT":1,"env":{"PORT":"abc","port":5000}}"#);
    assert_eq!(extract_port(&env), Some(5000));
    let env = parse(r#"{"port":"7000","env":{"NEXT_PORT":70000}}"#);
    assert_eq!(extract_port(&env), Some(7000));
    let env = parse(r#"{"env":{"npm_package_config_port":"8081","VITE_PORT":5173}}"#);
    assert_eq!(extract_port(&env), Some(5173));
    assert_eq!(extract_port(&parse(r#"{"env":[1,2]}"#)), None);
}

#[test]
fn port_values() {
    assert_eq!(parse_port_from_value(Some(&parse("8080"))), Some(8080));
    assert_eq!(parse_port_from_value(Some(&parse("65536"))), None);
    assert_eq!(parse_port_from_value(Some(&parse("-1"))), None);
    assert_eq!(parse_port_from_value(Some(&parse("80.5"))), None);
    assert_eq!(parse_port_from_value(Some(&parse(r#""443""#))), Some(443));
    assert_eq!(parse_port_from_value(Some(&parse("true"))), None);
    assert_eq!(parse_port_from_value(None), None);
}

#[test]
fn admin_config_file_servers_depth_first() {
    let val = parse(
        r#"{"apps":{"http":{"servers":{"srv0":{"listen":[":8080"],"routes":[
            {"match":[{"host":["docs.local"]}],"handle":[{"handler":"file_server","root":"/srv/docs"}]},
            {"handle":[{"handler":"subroute","routes":[{"match":[{"root":"/srv/nested"}],"handle":[{"handler":"file_server"}]}]}]},
            {"handle":[{"handler":"reverse_proxy"}]}]},
          "srv1":{"routes":[{"handle":[{"handler":"file_server"}]}]}}}}}"#,
    );
    let sites = caddy_sites_from_config(&val);
    assert_eq!(sites.len(), 3);
    assert_eq!(sites[0].label, "docs.local");
    assert_eq!(sites[0].root, "/srv/docs");
    assert_eq!(sites[0].port, Some(8080));
    assert_eq!(sites[0].source, "caddy-api");
    assert_eq!(sites[1].label, "api:srv0");
    assert_eq!(sites[1].root, "/srv/nested");
    assert_eq!(sites[2].label, "api:srv1");
    assert_eq!(sites[2].root, "(unknown)");
    assert_eq!(sites[2].port, None);
    assert!(caddy_sites_from_config(&parse(r#"{"apps":{}}"#)).is_empty());
}

#[test]
fn merged_sites_sorted_stably_by_label() {
    let merged = merge_caddy_sites(vec![site("b", None), site("a", Some(1))], vec![site("a", Some(2))]);
    let got: Vec<(String, Option<u16>)> = merged.into_iter().map(|s| (s.label, s.port)).collect();
    assert_eq!(
        got,
        vec![("a".to_string(), Some(1)), ("a".to_string(), Some(2)), ("b".to_string(), None)]
    );
}

#[test]
fn port_owners_and_conflicts() {
    let pm2 = vec![proc("web", "online", Some(3000)), proc("api", "online", Some(3000)), proc("db", "online", Some(5432)), proc("x", "stopped", None)];
    let caddy = vec![site("docs", Some(8080))];
    let claims = collect_port_owners(&pm2, &caddy, &[5432, 9000]);
    let ports: Vec<u16> = claims.iter().map(|c| c.port).collect();
    assert_eq!(ports, vec![3000, 5432, 8080, 9000]);
    assert_eq!(claims[0].owners, vec!["web (PM2)", "api (PM2)"]);
    assert_eq!(claims[1].owners, vec!["db (PM2)", "manual watch"]);
    assert_eq!(claims[2].owners, vec!["docs (Caddy)"]);
    assert_eq!(claims[3].owners, vec!["manual watch"]);
    let conflicts = select_conflicts(claims, &vec![false, false, true, true]);
    let got: Vec<(u16, usize, bool)> = conflicts.iter().map(|c| (c.port, c.owners.len(), c.is_open)).collect();
    assert_eq!(got, vec![(3000, 2, false), (5432, 2, false), (9000, 1, true)]);
}

#[test]
fn watched_port_closed_is_no_conflict() {
    let claims = collect_port_owners(&[], &[], &[9000]);
    assert!(select_conflicts(claims, &vec![false]).is_empty());
    assert!(collect_port_owners(&[], &[], &[]).is_empty());
}

#[test]
fn file_servers_appended_after_existing() {
    let routes = match parse(r#"[{"handle":[{"handler":"file_server","root":"/a"}]}]"#) {
        JsonValue::Array(a) => a,
        _ => unreachable!(),
    };
    let mut out = vec![site("first", None)];
    wsl_devctl::data::collect_file_servers(&routes, Some(81), "api:x", &mut out);
    assert_eq!(out.len(), 2);
    assert_eq!(out[0].label, "first");
    assert_eq!(out[1].label, "api:x");
    assert_eq!(out[1].root, "/a");
    assert_eq!(out[1].port, Some(81));
}

#[test]
fn jlist_bytes_give_sorted_processes() {
    let out = br#"[{"name":"web","pm2_env":{"status":"online","PORT":3000}},{"name":"api","pid":7}]"#;
    let ps = pm2_processes_from_jlist(out, 0).unwrap();
    let got: Vec<(&str, Option<u16>, Option<i64>)> = ps.iter().map(|p| (p.name.as_str(), p.port, p.pid)).collect();
    assert_eq!(got, vec![("api", None, Some(7)), ("web", Some(3000), None)]);
    assert!(pm2_processes_from_jlist(b"[]", 0).unwrap().is_empty());
}

#[test]
fn invalid_json_bytes_give_none() {
    assert!(pm2_processes_from_jlist(b"[{\"name\":", 0).is_none());
    assert!(pm2_processes_from_jlist(b"", 0).is_none());
    assert!(caddy_sites_from_body(b"not json").is_none());
}

#[test]
fn json_nested_to_the_parser_limit() {
    let depth = 120;
    let mut text = String::new();
    for _ in 0..depth {
        text.push('[');
    }
    for _ in 0..depth {
        text.push(']');
    }
    assert!(pm2_processes_from_jlist(text.as_bytes(), 0).is_some());
    let mut deep = String::new();
    for _ in 0..200 {
        deep.push('[');
    }
    for _ in 0..200 {
        deep.push(']');
    }
    assert!(pm2_processes_from_jlist(deep.as_bytes(), 0).is_none());
}

#[test]
fn admin_config_body_gives_sites() {
    let body = br#"{"apps":{"http":{"servers":{"srv0":{"listen":[":8080"],"routes":[{"handle":[{"handler":"file_server","root":"/srv"}]}]}}}}}"#;
    let sites = caddy_sites_from_body(body).unwrap();
    assert_eq!(sites.len(), 1);
    assert_eq!(sites[0].label, "api:srv0");
    assert_eq!(sites[0].root, "/srv");
    assert_eq!(sites[0].port, Some(8080));
    assert!(caddy_sites_from_body(b"{}").unwrap().is_empty());
}
