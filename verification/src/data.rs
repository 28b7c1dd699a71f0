//! Process and site records, and how they are read from PM2's process list,
//! Caddy's admin configuration and a Caddyfile.
use vstd::prelude::*;
use std::collections::BTreeMap;
use vstd::laws_cmp::obeys_cmp;
use vstd::std_specs::btree::{increasing_seq, key_obeys_cmp_spec, spec_keys_iter};
use vstd::std_specs::cmp::OrdSpec;
use vstd::std_specs::iter::IteratorSpec;
use crate::json::{json_of_bytes, parse_json, lemma_get_array_decreases, JsonValue, json_get, json_get_opt, json_str, json_u64, json_i64, json_array, json_first};
use crate::sort::{
    SortKey, SortKeyExec, is_sorted, key_class, lemma_stable_sort_sorted, lemma_stable_sort_stable,
    lemma_stable_sort_view, sort_stable, stable_sort,
};
use crate::text::{
    chars_of, chars_of_string, decimal, is_digit, last_index_of, lemma_decimal_digits, lemma_lex_prefix_first,
    lemma_lex_total, lemma_lex_trans, lex_le, unsigned_body,
    lex_le_exec, parse_u16, parse_u16_spec, push_all, push_decimal, push_str, rfind_char, slice_chars,
    string_of, trim, trim_chars, trim_end_char, trim_end_matches, trim_start_char,
    trim_start_matches, has_prefix, starts_with, split_on, split_chars, views,
};

verus! {

/// A PM2-managed process.
#[derive(Debug)]
pub struct Pm2Process {
    pub name: String,
    pub status: String,
    pub port: Option<u16>,
    pub memory_mb: u64,
    pub uptime_secs: Option<u64>,
    pub pid: Option<i64>,
}

/// The contents of a [`Pm2Process`].
pub struct Pm2View {
    pub name: Seq<char>,
    pub status: Seq<char>,
    pub port: Option<u16>,
    pub memory_mb: u64,
    pub uptime_secs: Option<u64>,
    pub pid: Option<i64>,
}

impl View for Pm2Process {
    type V = Pm2View;

    open spec fn view(&self) -> Pm2View {
        Pm2View {
            name: self.name@,
            status: self.status@,
            port: self.port,
            memory_mb: self.memory_mb,
            uptime_secs: self.uptime_secs,
            pid: self.pid,
        }
    }
}

/// A static root that Caddy serves.
#[derive(Debug)]
pub struct CaddySite {
    pub label: String,
    pub root: String,
    pub port: Option<u16>,
    pub source: String,
}

/// The contents of a [`CaddySite`].
pub struct CaddyView {
    pub label: Seq<char>,
    pub root: Seq<char>,
    pub port: Option<u16>,
    pub source: Seq<char>,
}

impl View for CaddySite {
    type V = CaddyView;

    open spec fn view(&self) -> CaddyView {
        CaddyView { label: self.label@, root: self.root@, port: self.port, source: self.source@ }
    }
}

/// A port claimed by more than one owner, or watched by hand and found open.
#[derive(Debug)]
pub struct PortConflict {
    pub port: u16,
    pub owners: Vec<String>,
    pub is_open: bool,
}

/// The contents of a [`PortConflict`].
pub struct ConflictView {
    pub port: u16,
    pub owners: Seq<Seq<char>>,
    pub is_open: bool,
}

/// The text of each string in a sequence.
pub open spec fn texts(s: Seq<String>) -> Seq<Seq<char>> {
    s.map_values(|x: String| x@)
}

impl View for PortConflict {
    type V = ConflictView;

    open spec fn view(&self) -> ConflictView {
        ConflictView { port: self.port, owners: texts(self.owners@), is_open: self.is_open }
    }
}

/// The views of a sequence of processes.
pub open spec fn pm2_views(s: Seq<Pm2Process>) -> Seq<Pm2View> {
    s.map_values(|p: Pm2Process| p@)
}

/// The views of a sequence of sites.
pub open spec fn caddy_views(s: Seq<CaddySite>) -> Seq<CaddyView> {
    s.map_values(|c: CaddySite| c@)
}

/// The views of a sequence of conflicts.
pub open spec fn conflict_views(s: Seq<PortConflict>) -> Seq<ConflictView> {
    s.map_values(|c: PortConflict| c@)
}

impl SortKey for Pm2View {
    open spec fn key_le(&self, other: &Self) -> bool {
        lex_le(self.name, other.name)
    }

    proof fn lemma_key_total(a: &Self, b: &Self) {
        lemma_lex_total(a.name, b.name);
    }

    proof fn lemma_key_trans(a: &Self, b: &Self, c: &Self) {
        lemma_lex_trans(a.name, b.name, c.name);
    }
}

impl SortKey for Pm2Process {
    open spec fn key_le(&self, other: &Self) -> bool {
        lex_le(self.name@, other.name@)
    }

    proof fn lemma_key_total(a: &Self, b: &Self) {
        lemma_lex_total(a.name@, b.name@);
    }

    proof fn lemma_key_trans(a: &Self, b: &Self, c: &Self) {
        lemma_lex_trans(a.name@, b.name@, c.name@);
    }
}

impl SortKeyExec for Pm2Process {
    fn exec_key_le(&self, other: &Self) -> (r: bool) {
        let a = chars_of_string(&self.name);
        let b = chars_of_string(&other.name);
        lex_le_exec(&a, &b)
    }
}

impl SortKey for CaddyView {
    open spec fn key_le(&self, other: &Self) -> bool {
        lex_le(self.label, other.label)
    }

    proof fn lemma_key_total(a: &Self, b: &Self) {
        lemma_lex_total(a.label, b.label);
    }

    proof fn lemma_key_trans(a: &Self, b: &Self, c: &Self) {
        lemma_lex_trans(a.label, b.label, c.label);
    }
}

impl SortKey for CaddySite {
    open spec fn key_le(&self, other: &Self) -> bool {
        lex_le(self.label@, other.label@)
    }

    proof fn lemma_key_total(a: &Self, b: &Self) {
        lemma_lex_total(a.label@, b.label@);
    }

    proof fn lemma_key_trans(a: &Self, b: &Self, c: &Self) {
        lemma_lex_trans(a.label@, b.label@, c.label@);
    }
}

impl SortKeyExec for CaddySite {
    fn exec_key_le(&self, other: &Self) -> (r: bool) {
        let a = chars_of_string(&self.label);
        let b = chars_of_string(&other.label);
        lex_le_exec(&a, &b)
    }
}

/// Processes sorted stably by name.
pub fn sort_processes(v: Vec<Pm2Process>) -> (r: Vec<Pm2Process>)
    ensures
        pm2_views(r@) == stable_sort(pm2_views(v@)),
{
    let r = sort_stable(v);
    proof {
        lemma_stable_sort_view(v@);
    }
    r
}

/// Sites sorted stably by label.
pub fn sort_sites(v: Vec<CaddySite>) -> (r: Vec<CaddySite>)
    ensures
        caddy_views(r@) == stable_sort(caddy_views(v@)),
{
    let r = sort_stable(v);
    proof {
        lemma_stable_sort_view(v@);
    }
    r
}

/// How long a process has been up, in its largest whole unit.
pub open spec fn uptime_text(uptime_secs: Option<u64>) -> Seq<char> {
    match uptime_secs {
        None => "-"@,
        Some(s) => if s < 60 {
            decimal(s as nat) + "s"@
        } else if s < 3600 {
            decimal((s / 60) as nat) + "m"@
        } else if s < 86400 {
            decimal((s / 3600) as nat) + "h"@
        } else {
            decimal((s / 86400) as nat) + "d"@
        },
    }
}

/// Formats an uptime as seconds, minutes, hours or days, or `-` where there is none.
pub fn format_uptime(uptime_secs: Option<u64>) -> (r: String)
    ensures
        r@ == uptime_text(uptime_secs),
{
    let mut v: Vec<char> = Vec::new();
    match uptime_secs {
        None => {
            push_str(&mut v, "-");
        },
        Some(s) => {
            if s < 60 {
                push_decimal(&mut v, s);
                push_str(&mut v, "s");
            } else if s < 3600 {
                push_decimal(&mut v, s / 60);
                push_str(&mut v, "m");
            } else if s < 86400 {
                push_decimal(&mut v, s / 3600);
                push_str(&mut v, "h");
            } else {
                push_decimal(&mut v, s / 86400);
                push_str(&mut v, "d");
            }
        },
    }
    assert(v@ =~= uptime_text(uptime_secs));
    string_of(&v)
}

/// An uptime is shown as a whole number of its largest unit that fits: seconds
/// below a minute, minutes below an hour, hours below a day, days beyond. The
/// number shown is how many whole units have passed: that many units fit in the
/// uptime, and one more does not.
pub proof fn lemma_uptime_units(secs: u64)
    ensures
        exists|n: nat, unit: char, w: nat|
            #![trigger decimal(n), seq![unit], w * n]
            {
                &&& uptime_text(Some(secs)) == decimal(n) + seq![unit]
                &&& w * n <= secs < w * (n + 1)
                &&& (unit == 's' && w == 1 && secs < 60 || unit == 'm' && w == 60 && 60 <= secs < 3600
                    || unit == 'h' && w == 3600 && 3600 <= secs < 86400 || unit == 'd' && w == 86400 && 86400
                    <= secs)
            },
{
    reveal_strlit("s");
    reveal_strlit("m");
    reveal_strlit("h");
    reveal_strlit("d");
    let s = secs as nat;
    if secs < 60 {
        assert(uptime_text(Some(secs)) == decimal(s) + seq!['s']);
        assert(1 * s <= secs < 1 * (s + 1));
    } else if secs < 3600 {
        let n = s / 60;
        assert(uptime_text(Some(secs)) == decimal(n) + seq!['m']);
        assert(60 * n <= secs < 60 * (n + 1)) by (nonlinear_arith)
            requires
                n == s / 60,
                s == secs,
        ;
    } else if secs < 86400 {
        let n = s / 3600;
        assert(uptime_text(Some(secs)) == decimal(n) + seq!['h']);
        assert(3600 * n <= secs < 3600 * (n + 1)) by (nonlinear_arith)
            requires
                n == s / 3600,
                s == secs,
        ;
    } else {
        let n = s / 86400;
        assert(uptime_text(Some(secs)) == decimal(n) + seq!['d']);
        assert(86400 * n <= secs < 86400 * (n + 1)) by (nonlinear_arith)
            requires
                n == s / 86400,
                s == secs,
        ;
    }
}

/// The port after the last `:` of a listen address, or the whole address as a port.
pub open spec fn listen_port_spec(s: Seq<char>) -> Option<u16> {
    match last_index_of(s, ':') {
        Some(i) => parse_u16_spec(s.skip(i + 1)),
        None => parse_u16_spec(s),
    }
}

/// Reads the port of a Caddy listen address such as `:8080` or `localhost:80`.
pub fn parse_listen_port(s: &str) -> (r: Option<u16>)
    ensures
        r == listen_port_spec(s@),
{
    let cs = chars_of(s);
    match rfind_char(&cs, ':') {
        Some(i) => {
            let tail = slice_chars(&cs, i + 1, cs.len());
            assert(tail@ =~= cs@.skip(i + 1));
            parse_u16(&tail)
        },
        None => parse_u16(&cs),
    }
}

/// The port after the last `:` of a site address, where it has one.
pub open spec fn site_port_spec(s: Seq<char>) -> Option<u16> {
    match last_index_of(s, ':') {
        Some(i) => parse_u16_spec(s.skip(i + 1)),
        None => None,
    }
}

/// Reads the port of a Caddyfile site address such as `localhost:8080`.
pub fn parse_site_port(site: &str) -> (r: Option<u16>)
    ensures
        r == site_port_spec(site@),
{
    let cs = chars_of(site);
    site_port_of_chars(&cs)
}

fn site_port_of_chars(cs: &Vec<char>) -> (r: Option<u16>)
    ensures
        r == site_port_spec(cs@),
{
    match rfind_char(cs, ':') {
        Some(i) => {
            let tail = slice_chars(cs, i + 1, cs.len());
            assert(tail@ =~= cs@.skip(i + 1));
            parse_u16(&tail)
        },
        None => None,
    }
}


/// A listen address that ends in a colon and a port's decimal digits has that
/// port, whatever comes before the colon; a bare port's digits are that port.
pub proof fn lemma_listen_port_of_address(h: Seq<char>, p: u16)
    ensures
        listen_port_spec(h + ":"@ + decimal(p as nat)) == Some(p),
        listen_port_spec(decimal(p as nat)) == Some(p),
{
    let d = decimal(p as nat);
    lemma_decimal_digits(p as nat);
    assert(":"@ =~= seq![':']) by {
        reveal_strlit(":");
    }
    lemma_last_colon_after(h, d);
    assert((h + ":"@ + d).skip(h.len() + 1int) =~= d);
    assert(is_digit(d[0]));
    assert(unsigned_body(d) == d);
    lemma_no_colon_in_digits(d);
}

proof fn lemma_no_colon_in_digits(d: Seq<char>)
    requires
        forall|i: int| 0 <= i < d.len() ==> is_digit(#[trigger] d[i]),
    ensures
        last_index_of(d, ':') is None,
    decreases d.len(),
{
    if d.len() > 0 {
        assert(is_digit(d[d.len() - 1]));
        assert forall|i: int| 0 <= i < d.drop_last().len() implies is_digit(#[trigger] d.drop_last()[i]) by {
            assert(d.drop_last()[i] == d[i]);
        }
        lemma_no_colon_in_digits(d.drop_last());
    }
}

proof fn lemma_last_colon_after(h: Seq<char>, d: Seq<char>)
    requires
        forall|i: int| 0 <= i < d.len() ==> is_digit(#[trigger] d[i]),
    ensures
        last_index_of(h + seq![':'] + d, ':') == Some(h.len() as int),
    decreases d.len(),
{
    let s = h + seq![':'] + d;
    if d.len() > 0 {
        assert(is_digit(d[d.len() - 1]));
        assert(s.last() == d.last());
        assert(s.drop_last() =~= h + seq![':'] + d.drop_last());
        lemma_last_colon_after(h, d.drop_last());
    } else {
        assert(s =~= h.push(':'));
    }
}

/// A site address that ends in a colon and a port's decimal digits has that
/// port, whatever comes before the colon, other colons included (as in
/// `http://localhost:8080` or `[::1]:8080`).
pub proof fn lemma_site_port_of_address(h: Seq<char>, p: u16)
    ensures
        site_port_spec(h + ":"@ + decimal(p as nat)) == Some(p),
{
    let d = decimal(p as nat);
    lemma_decimal_digits(p as nat);
    assert(":"@ =~= seq![':']) by {
        reveal_strlit(":");
    }
    lemma_last_colon_after(h, d);
    let s = h + ":"@ + d;
    assert(s.skip(h.len() + 1int) =~= d);
    assert(is_digit(d[0]));
    assert(unsigned_body(d) == d);
}

/// The port that a JSON value names: a number or a string that is a `u16`.
pub open spec fn port_of_value(v: Option<JsonValue>) -> Option<u16> {
    match v {
        Some(JsonValue::Number(n)) => match n.as_u64 {
            Some(u) => if u <= u16::MAX {
                Some(u as u16)
            } else {
                None
            },
            None => None,
        },
        Some(JsonValue::Str(s)) => parse_u16_spec(s@),
        _ => None,
    }
}

/// Reads a port from a JSON value that is a number or a string.
pub fn parse_port_from_value(v: Option<&JsonValue>) -> (r: Option<u16>)
    ensures
        r == port_of_value(match v {
            Some(x) => Some(*x),
            None => None,
        }),
{
    match v {
        Some(JsonValue::Number(n)) => match n.as_u64 {
            Some(u) => if u <= 65535 {
                Some(u as u16)
            } else {
                None
            },
            None => None,
        },
        Some(JsonValue::Str(s)) => {
            let cs = chars_of_string(s);
            parse_u16(&cs)
        },
        _ => None,
    }
}

/// The port of the first of `keys` in `obj` that names one.
pub open spec fn first_port(obj: JsonValue, keys: Seq<Seq<char>>) -> Option<u16>
    decreases keys.len(),
{
    if keys.len() == 0 {
        None
    } else {
        match port_of_value(json_get(obj, keys[0])) {
            Some(p) => Some(p),
            None => first_port(obj, keys.drop_first()),
        }
    }
}

/// The variables of a process environment that may hold its port, in the order they are tried.
pub open spec fn env_port_keys() -> Seq<Seq<char>> {
    seq!["PORT"@, "port"@, "VITE_PORT"@, "DEV_PORT"@, "NEXT_PORT"@, "npm_package_config_port"@]
}

/// The keys of PM2's own record that may hold the port.
pub open spec fn own_port_keys() -> Seq<Seq<char>> {
    seq!["PORT"@, "port"@]
}

/// The port of a PM2 process: from its `env`, else from PM2's own record.
pub open spec fn extract_port_spec(pm2_env: JsonValue) -> Option<u16> {
    let from_env = match json_get(pm2_env, "env"@) {
        Some(env) => first_port(env, env_port_keys()),
        None => None,
    };
    match from_env {
        Some(p) => Some(p),
        None => first_port(pm2_env, own_port_keys()),
    }
}

fn first_port_exec(obj: &JsonValue, keys: &Vec<String>) -> (r: Option<u16>)
    ensures
        r == first_port(*obj, texts(keys@)),
{
    let mut i: usize = 0;
    assert(texts(keys@).skip(0) =~= texts(keys@));
    while i < keys.len()
        invariant
            i <= keys.len(),
            first_port(*obj, texts(keys@)) == first_port(*obj, texts(keys@).skip(i as int)),
        decreases keys.len() - i,
    {
        let ghost rest = texts(keys@).skip(i as int);
        assert(rest[0] == keys@[i as int]@);
        let p = parse_port_from_value(obj.get(keys[i].as_str()));
        if p.is_some() {
            return p;
        }
        assert(rest.drop_first() =~= texts(keys@).skip(i + 1));
        i += 1;
    }
    None
}

/// Finds the port of a PM2 process in its `pm2_env` record.
pub fn extract_port(pm2_env: &JsonValue) -> (r: Option<u16>)
    ensures
        r == extract_port_spec(*pm2_env),
{
    let env_keys: Vec<String> = vec![
        "PORT".to_owned(),
        "port".to_owned(),
        "VITE_PORT".to_owned(),
        "DEV_PORT".to_owned(),
        "NEXT_PORT".to_owned(),
        "npm_package_config_port".to_owned(),
    ];
    assert(texts(env_keys@) =~= env_port_keys());
    if let Some(env) = pm2_env.get("env") {
        let p = first_port_exec(env, &env_keys);
        if p.is_some() {
            return p;
        }
    }
    let own_keys: Vec<String> = vec!["PORT".to_owned(), "port".to_owned()];
    assert(texts(own_keys@) =~= own_port_keys());
    first_port_exec(pm2_env, &own_keys)
}

proof fn lemma_first_port_at(obj: JsonValue, keys: Seq<Seq<char>>, k: int)
    requires
        0 <= k < keys.len(),
        forall|j: int| 0 <= j < k ==> port_of_value(json_get(obj, #[trigger] keys[j])) is None,
    ensures
        first_port(obj, keys) == match port_of_value(json_get(obj, keys[k])) {
            Some(p) => Some(p),
            None => first_port(obj, keys.skip(k + 1)),
        },
    decreases k,
{
    if k > 0 {
        assert(port_of_value(json_get(obj, keys[0])) is None);
        let rest = keys.drop_first();
        assert forall|j: int| 0 <= j < k - 1 implies port_of_value(json_get(obj, #[trigger] rest[j])) is None by {
            assert(rest[j] == keys[j + 1]);
        }
        lemma_first_port_at(obj, rest, k - 1);
        assert(rest.skip(k) =~= keys.skip(k + 1));
    } else {
        assert(keys.drop_first() =~= keys.skip(1));
    }
}

proof fn lemma_first_port_none(obj: JsonValue, keys: Seq<Seq<char>>)
    requires
        forall|j: int| 0 <= j < keys.len() ==> port_of_value(json_get(obj, #[trigger] keys[j])) is None,
    ensures
        first_port(obj, keys) is None,
    decreases keys.len(),
{
    if keys.len() > 0 {
        assert(port_of_value(json_get(obj, keys[0])) is None);
        let rest = keys.drop_first();
        assert forall|j: int| 0 <= j < rest.len() implies port_of_value(json_get(obj, #[trigger] rest[j])) is None by {
            assert(rest[j] == keys[j + 1]);
        }
        lemma_first_port_none(obj, rest);
    }
}

/// The `k`-th variable of a process environment that is tried for its port.
pub open spec fn port_variable(k: int) -> Seq<char> {
    if k == 0 {
        "PORT"@
    } else if k == 1 {
        "port"@
    } else if k == 2 {
        "VITE_PORT"@
    } else if k == 3 {
        "DEV_PORT"@
    } else if k == 4 {
        "NEXT_PORT"@
    } else {
        "npm_package_config_port"@
    }
}

proof fn lemma_port_variables()
    ensures
        env_port_keys().len() == 6,
        forall|k: int| 0 <= k < 6 ==> #[trigger] env_port_keys()[k] == port_variable(k),
{
}

/// The port of a process from its `env`: the variables tried are `PORT`, `port`,
/// `VITE_PORT`, `DEV_PORT`, `NEXT_PORT` and `npm_package_config_port`, in that
/// order, and the first of them that names a port (a `u16` number, or text that
/// parses as one) gives the process its port.
pub proof fn lemma_port_from_env(pm2_env: JsonValue, env: JsonValue, k: int, p: u16)
    requires
        json_get(pm2_env, "env"@) == Some(env),
        0 <= k < 6,
        port_of_value(json_get(
            env,
            port_variable(k),
        )) == Some(p),
        forall|j: int| 0 <= j < k ==> port_of_value(json_get(
            env,
            #[trigger] port_variable(j),
        )) is None,
    ensures
        extract_port_spec(pm2_env) == Some(p),
{
    let keys = env_port_keys();
    lemma_port_variables();
    lemma_first_port_at(env, keys, k);
}

/// Where no variable of the `env` names a port (none of `PORT`, `port`,
/// `VITE_PORT`, `DEV_PORT`, `NEXT_PORT` and `npm_package_config_port`), or there
/// is no `env`, the port is the first of `PORT` and `port` in PM2's own record
/// that names one, and otherwise there is none.
pub proof fn lemma_port_from_own_record(pm2_env: JsonValue)
    requires
        json_get(pm2_env, "env"@) matches Some(env) ==> forall|j: int| 0 <= j < 6 ==> port_of_value(json_get(
            env,
            #[trigger] port_variable(j),
        )) is None,
    ensures
        extract_port_spec(pm2_env) == match port_of_value(json_get(pm2_env, "PORT"@)) {
            Some(p) => Some(p),
            None => port_of_value(json_get(pm2_env, "port"@)),
        },
{
    let keys = env_port_keys();
    lemma_port_variables();
    if let Some(env) = json_get(pm2_env, "env"@) {
        lemma_first_port_none(env, keys);
    }
    let own = own_port_keys();
    assert(own[0] == "PORT"@);
    assert(own.drop_first() =~= seq!["port"@]);
    assert(own.drop_first().drop_first() =~= Seq::<Seq<char>>::empty());
    assert(first_port(pm2_env, own.drop_first().drop_first()) is None);
    assert(first_port(pm2_env, own.drop_first()) == port_of_value(json_get(pm2_env, "port"@)));
}

/// `v`, or `d` where there is none.
pub open spec fn text_or(v: Option<Seq<char>>, d: Seq<char>) -> Seq<char> {
    match v {
        Some(s) => s,
        None => d,
    }
}

/// The process that one element of PM2's `jlist` output describes, at wall-clock time `now_ms`.
pub open spec fn pm2_record(p: JsonValue, now_ms: u64) -> Pm2View {
    let env = match json_get(p, "pm2_env"@) {
        Some(e) => e,
        None => JsonValue::Null,
    };
    let memory_bytes: u64 = match json_u64(json_get_opt(json_get(p, "monit"@), "memory"@)) {
        Some(m) => m,
        None => 0,
    };
    Pm2View {
        name: text_or(json_str(json_get(p, "name"@)), "unknown"@),
        status: text_or(json_str(json_get(env, "status"@)), "unknown"@),
        port: extract_port_spec(env),
        memory_mb: memory_bytes / 1024 / 1024,
        uptime_secs: match json_u64(json_get(env, "pm_uptime"@)) {
            Some(started_ms) => if started_ms <= now_ms {
                Some(((now_ms - started_ms) / 1000) as u64)
            } else {
                None
            },
            None => None,
        },
        pid: json_i64(json_get(p, "pid"@)),
    }
}

/// The elements of PM2's `jlist` output: the array's elements, or none where it is no array.
pub open spec fn jlist_elements(val: JsonValue) -> Seq<JsonValue> {
    match json_array(Some(val)) {
        Some(a) => a,
        None => Seq::empty(),
    }
}

/// The processes of a `jlist` document, in document order.
pub open spec fn jlist_records(val: JsonValue, now_ms: u64) -> Seq<Pm2View> {
    jlist_elements(val).map_values(|p: JsonValue| pm2_record(p, now_ms))
}

fn text_field(v: Option<&JsonValue>, default: &str) -> (r: String)
    ensures
        r@ == text_or(
            json_str(
                match v {
                    Some(x) => Some(*x),
                    None => None,
                },
            ),
            default@,
        ),
{
    match v {
        Some(x) => match x.as_str() {
            Some(s) => s.clone(),
            None => default.to_owned(),
        },
        None => default.to_owned(),
    }
}

/// Reads one process from an element of PM2's `jlist` output.
pub fn pm2_process_from_json(p: &JsonValue, now_ms: u64) -> (r: Pm2Process)
    ensures
        r@ == pm2_record(*p, now_ms),
{
    let name = text_field(p.get("name"), "unknown");
    let pid = match p.get("pid") {
        Some(x) => x.as_i64(),
        None => None,
    };
    let null = JsonValue::Null;
    let env: &JsonValue = match p.get("pm2_env") {
        Some(e) => e,
        None => &null,
    };
    let status = text_field(env.get("status"), "unknown");
    let memory_bytes: u64 = match p.get("monit") {
        Some(m) => match m.get("memory") {
            Some(x) => match x.as_u64() {
                Some(b) => b,
                None => 0,
            },
            None => 0,
        },
        None => 0,
    };
    let memory_mb = memory_bytes / 1024 / 1024;
    let uptime_secs = match env.get("pm_uptime") {
        Some(x) => match x.as_u64() {
            Some(started_ms) => if started_ms <= now_ms {
                Some((now_ms - started_ms) / 1000)
            } else {
                None
            },
            None => None,
        },
        None => None,
    };
    let port = extract_port(env);
    Pm2Process { name, status, port, memory_mb, uptime_secs, pid }
}

/// The processes in the output of `pm2 jlist`, sorted stably by name, where the
/// output is a JSON document; none where it is not.
pub fn pm2_processes_from_jlist(stdout: &[u8], now_ms: u64) -> (r: Option<Vec<Pm2Process>>)
    ensures
        match json_of_bytes(stdout@) {
            None => r is None,
            Some(v) => r matches Some(ps) && pm2_views(ps@) == stable_sort(jlist_records(v, now_ms)),
        },
{
    match parse_json(stdout) {
        Some(v) => Some(pm2_processes_from_json(&v, now_ms)),
        None => None,
    }
}

/// The processes of PM2's `jlist` output, sorted stably by name.
pub fn pm2_processes_from_json(val: &JsonValue, now_ms: u64) -> (r: Vec<Pm2Process>)
    ensures
        pm2_views(r@) == stable_sort(jlist_records(*val, now_ms)),
{
    let mut out: Vec<Pm2Process> = Vec::new();
    match val.as_array() {
        Some(arr) => {
            let mut i: usize = 0;
            while i < arr.len()
                invariant
                    i <= arr.len(),
                    jlist_elements(*val) == arr@,
                    pm2_views(out@) == jlist_records(*val, now_ms).take(i as int),
                decreases arr.len() - i,
            {
                let p = pm2_process_from_json(&arr[i], now_ms);
                let ghost before = out@;
                assert(jlist_records(*val, now_ms)[i as int] == pm2_record(arr@[i as int], now_ms));
                out.push(p);
                assert(pm2_views(out@) =~= pm2_views(before).push(p@));
                i += 1;
                assert(pm2_views(out@) =~= jlist_records(*val, now_ms).take(i as int));
            }
            assert(jlist_records(*val, now_ms).take(arr.len() as int) =~= jlist_records(*val, now_ms));
        },
        None => {
            assert(pm2_views(out@) =~= jlist_records(*val, now_ms));
        },
    }
    sort_processes(out)
}


/// Where a Caddyfile parse stands after some lines: the sites found, and the
/// address and port of the enclosing site block, if any.
pub struct CaddyfileState {
    pub sites: Seq<CaddyView>,
    pub label: Option<Seq<char>>,
    pub port: Option<u16>,
}

/// The label of sites whose `root` stands outside any site block.
pub open spec fn unnamed_site() -> Seq<char> {
    "(unnamed-caddy-site)"@
}

/// One line of a Caddyfile applied to the parse state. Blank lines and comments are
/// skipped; a line ending in `{` opens a site block; a line starting with `}` closes
/// it; a `root ` directive records a site.
pub open spec fn caddyfile_step(st: CaddyfileState, raw: Seq<char>) -> CaddyfileState {
    let line = trim(raw);
    if line.len() == 0 || line[0] == '#' {
        st
    } else if line.last() == '{' {
        let site = trim(trim_end_char(line, '{'));
        CaddyfileState { sites: st.sites, label: Some(site), port: site_port_spec(site) }
    } else if line[0] == '}' {
        CaddyfileState { sites: st.sites, label: None, port: None }
    } else if has_prefix(line, "root "@) {
        let root = trim(trim_start_char(trim(line.skip(4)), '*'));
        let site = CaddyView {
            label: text_or(st.label, unnamed_site()),
            root: root,
            port: st.port,
            source: "caddyfile"@,
        };
        CaddyfileState { sites: st.sites.push(site), label: st.label, port: st.port }
    } else {
        st
    }
}

/// The parse state after the given lines.
pub open spec fn caddyfile_run(lines: Seq<Seq<char>>) -> CaddyfileState
    decreases lines.len(),
{
    if lines.len() == 0 {
        CaddyfileState { sites: Seq::empty(), label: None, port: None }
    } else {
        caddyfile_step(caddyfile_run(lines.drop_last()), lines.last())
    }
}

/// Blank lines and comment lines (those whose first non-blank character is `#`)
/// change nothing in a Caddyfile parse, and a line that starts with `}` (and does
/// not end in `{`) closes the site block: later roots have no address or port.
pub proof fn lemma_caddyfile_skips_and_closes(st: CaddyfileState, raw: Seq<char>)
    ensures
        trim(raw).len() == 0 ==> caddyfile_step(st, raw) == st,
        trim(raw).len() > 0 && trim(raw)[0] == '#' ==> caddyfile_step(st, raw) == st,
        trim(raw).len() > 0 && trim(raw)[0] == '}' && trim(raw).last() != '{' ==> caddyfile_step(st, raw)
            == (CaddyfileState { sites: st.sites, label: None, port: None }),
{
}

/// The static sites that a Caddyfile declares. Its lines are taken as the pieces
/// between newlines; these differ from what `str::lines` yields only in trailing
/// whitespace and in a last, empty piece, which trimming and skipping blank lines absorb.
pub open spec fn caddyfile_sites(contents: Seq<char>) -> Seq<CaddyView> {
    caddyfile_run(split_on(contents, '\n')).sites
}

/// Finds the static sites declared in the text of a Caddyfile.
pub fn parse_caddyfile(contents: &str) -> (r: Vec<CaddySite>)
    ensures
        caddy_views(r@) == caddyfile_sites(contents@),
{
    let cs = chars_of(contents);
    let lines = split_chars(&cs, '\n');
    let root_prefix = chars_of("root ");
    let mut out: Vec<CaddySite> = Vec::new();
    let mut label: Option<Vec<char>> = None;
    let mut port: Option<u16> = None;
    let mut i: usize = 0;
    assert(views(lines@).take(0) =~= Seq::<Seq<char>>::empty());
    assert(caddy_views(out@) =~= Seq::<CaddyView>::empty());
    while i < lines.len()
        invariant
            i <= lines.len(),
            views(lines@) == split_on(cs@, '\n'),
            cs@ == contents@,
            root_prefix@ == "root "@,
            caddyfile_run(views(lines@).take(i as int)) == (CaddyfileState {
                sites: caddy_views(out@),
                label: match label {
                    Some(x) => Some(x@),
                    None => None,
                },
                port: port,
            }),
        decreases lines.len() - i,
    {
        let ghost st = caddyfile_run(views(lines@).take(i as int));
        assert(views(lines@).take(i + 1).drop_last() =~= views(lines@).take(i as int));
        assert(views(lines@).take(i + 1).last() == lines@[i as int]@);
        let line = trim_chars(&lines[i]);
        if line.len() == 0 || line[0] == '#' {
        } else if line[line.len() - 1] == '{' {
            let site = trim_chars(&trim_end_matches(&line, '{'));
            port = site_port_of_chars(&site);
            label = Some(site);
        } else if line[0] == '}' {
            label = None;
            port = None;
        } else if starts_with(&line, &root_prefix) {
            proof {
                reveal_strlit("root ");
            }
            let tail = slice_chars(&line, 4, line.len());
            assert(tail@ =~= line@.skip(4));
            let root = trim_chars(&trim_start_matches(&trim_chars(&tail), '*'));
            let site_label = match &label {
                Some(l) => string_of(l),
                None => "(unnamed-caddy-site)".to_owned(),
            };
            let site = CaddySite {
                label: site_label,
                root: string_of(&root),
                port: port,
                source: "caddyfile".to_owned(),
            };
            let ghost before = out@;
            out.push(site);
            assert(caddy_views(out@) =~= caddy_views(before).push(site@));
        }
        i += 1;
    }
    assert(views(lines@).take(lines.len() as int) =~= views(lines@));
    out
}


/// Whether a route handler is a file server.
pub open spec fn is_file_server(h: JsonValue) -> bool {
    json_str(json_get(h, "handler"@)) == Some("file_server"@)
}

/// The site that a file-server handler `h` of `route` describes. Its root is the
/// handler's, else that of the route's first matcher; its label is the first host
/// of that matcher, else `prefix`.
pub open spec fn file_server_site(route: JsonValue, h: JsonValue, port: Option<u16>, prefix: Seq<char>) -> CaddyView {
    let first_match = json_first(json_get(route, "match"@));
    CaddyView {
        label: text_or(json_str(json_first(json_get_opt(first_match, "host"@))), prefix),
        root: match json_str(json_get(h, "root"@)) {
            Some(r) => r,
            None => text_or(json_str(json_get_opt(first_match, "root"@)), "(unknown)"@),
        },
        port: port,
        source: "caddy-api"@,
    }
}

/// The file servers of a list of routes, depth first, in document order.
pub open spec fn route_sites(routes: Seq<JsonValue>, port: Option<u16>, prefix: Seq<char>) -> Seq<CaddyView>
    decreases routes,
{
    if routes.len() == 0 {
        Seq::empty()
    } else {
        proof {
            assert(decreases_to!(routes => routes[routes.len() - 1]));
        }
        route_sites(routes.drop_last(), port, prefix) + route_handles_sites(routes.last(), port, prefix)
    }
}

/// The file servers under the handlers of one route.
pub open spec fn route_handles_sites(route: JsonValue, port: Option<u16>, prefix: Seq<char>) -> Seq<CaddyView>
    decreases route,
{
    proof {
        lemma_get_array_decreases(route, "handle"@);
    }
    match json_array(json_get(route, "handle"@)) {
        Some(hs) => handles_sites(route, hs, port, prefix),
        None => Seq::empty(),
    }
}

/// The file servers under some handlers of `route`.
pub open spec fn handles_sites(route: JsonValue, hs: Seq<JsonValue>, port: Option<u16>, prefix: Seq<char>) -> Seq<CaddyView>
    decreases hs,
{
    if hs.len() == 0 {
        Seq::empty()
    } else {
        proof {
            assert(decreases_to!(hs => hs[hs.len() - 1]));
        }
        handles_sites(route, hs.drop_last(), port, prefix) + handle_sites(route, hs.last(), port, prefix)
    }
}

/// The file server that one handler is, if it is one, then those of its subroutes.
pub open spec fn handle_sites(route: JsonValue, h: JsonValue, port: Option<u16>, prefix: Seq<char>) -> Seq<CaddyView>
    decreases h,
{
    proof {
        lemma_get_array_decreases(h, "routes"@);
    }
    let own: Seq<CaddyView> = if is_file_server(h) {
        seq![file_server_site(route, h, port, prefix)]
    } else {
        Seq::empty()
    };
    own + match json_array(json_get(h, "routes"@)) {
        Some(sub) => route_sites(sub, port, prefix),
        None => Seq::empty(),
    }
}


fn opt_text_of(v: Option<&JsonValue>) -> (r: Option<&String>)
    ensures
        match r {
            Some(t) => json_str(
                match v {
                    Some(x) => Some(*x),
                    None => None,
                },
            ) == Some(t@),
            None => json_str(
                match v {
                    Some(x) => Some(*x),
                    None => None,
                },
            ) is None,
        },
{
    match v {
        Some(x) => x.as_str(),
        None => None,
    }
}

fn first_of(v: Option<&JsonValue>) -> (r: Option<&JsonValue>)
    ensures
        match r {
            Some(x) => json_first(
                match v {
                    Some(y) => Some(*y),
                    None => None,
                },
            ) == Some(*x),
            None => json_first(
                match v {
                    Some(y) => Some(*y),
                    None => None,
                },
            ) is None,
        },
{
    match v {
        Some(x) => match x.as_array() {
            Some(a) => if a.len() > 0 {
                Some(&a[0])
            } else {
                None
            },
            None => None,
        },
        None => None,
    }
}

fn get_of<'a>(v: Option<&'a JsonValue>, key: &str) -> (r: Option<&'a JsonValue>)
    ensures
        match r {
            Some(x) => json_get_opt(
                match v {
                    Some(y) => Some(*y),
                    None => None,
                },
                key@,
            ) == Some(*x),
            None => json_get_opt(
                match v {
                    Some(y) => Some(*y),
                    None => None,
                },
                key@,
            ) is None,
        },
{
    match v {
        Some(x) => x.get(key),
        None => None,
    }
}

fn file_server_site_exec(route: &JsonValue, h: &JsonValue, port: Option<u16>, prefix: &str) -> (r: CaddySite)
    ensures
        r@ == file_server_site(*route, *h, port, prefix@),
{
    let first_match = first_of(route.get("match"));
    let root = match opt_text_of(h.get("root")) {
        Some(t) => t.clone(),
        None => match opt_text_of(get_of(first_match, "root")) {
            Some(t) => t.clone(),
            None => "(unknown)".to_owned(),
        },
    };
    let label = match opt_text_of(first_of(get_of(first_match, "host"))) {
        Some(t) => t.clone(),
        None => prefix.to_owned(),
    };
    CaddySite { label, root, port, source: "caddy-api".to_owned() }
}

fn handler_is_file_server(h: &JsonValue) -> (r: bool)
    ensures
        r == is_file_server(*h),
{
    let fs = "file_server".to_owned();
    match opt_text_of(h.get("handler")) {
        Some(t) => *t == fs,
        None => false,
    }
}

/// Appends to `out` the file servers of `routes`, depth first, in document order.
pub fn collect_file_servers(routes: &[JsonValue], port: Option<u16>, prefix: &str, out: &mut Vec<CaddySite>)
    ensures
        caddy_views(final(out)@) == caddy_views(old(out)@) + route_sites(routes@, port, prefix@),
    decreases routes@,
{
    let mut i: usize = 0;
    assert(routes@.take(0) =~= Seq::<JsonValue>::empty());
    assert(caddy_views(out@) =~= caddy_views(old(out)@) + Seq::<CaddyView>::empty());
    while i < routes.len()
        invariant
            i <= routes.len(),
            caddy_views(out@) == caddy_views(old(out)@) + route_sites(
                routes@.take(i as int),
                port,
                prefix@,
            ),
        decreases routes.len() - i,
    {
        let route = &routes[i];
        let ghost base = caddy_views(out@);
        assert(routes@.take(i + 1).drop_last() =~= routes@.take(i as int));
        assert(routes@.take(i + 1).last() == routes@[i as int]);
        proof {
            lemma_get_array_decreases(*route, "handle"@);
        }
        match route.get("handle") {
            Some(hv) => match hv.as_array() {
                Some(hs) => {
                    let mut j: usize = 0;
                    assert(hs@.take(0) =~= Seq::<JsonValue>::empty());
                    assert(caddy_views(out@) =~= base + Seq::<CaddyView>::empty());
                    while j < hs.len()
                        invariant
                            j <= hs.len(),
                            i < routes.len(),
                            *route == routes@[i as int],
                            json_array(json_get(*route, "handle"@)) == Some(hs@),
                            decreases_to!(routes@ => hs@),
                            caddy_views(out@) == base + handles_sites(
                                *route,
                                hs@.take(j as int),
                                port,
                                prefix@,
                            ),
                        decreases hs.len() - j,
                    {
                        let h = &hs[j];
                        let ghost base2 = caddy_views(out@);
                        assert(hs@.take(j + 1).drop_last() =~= hs@.take(j as int));
                        assert(hs@.take(j + 1).last() == hs@[j as int]);
                        if handler_is_file_server(h) {
                            let site = file_server_site_exec(route, h, port, prefix);
                            out.push(site);
                            assert(caddy_views(out@) =~= base2.push(site@));
                        }
                        let ghost base3 = caddy_views(out@);
                        let ghost own: Seq<CaddyView> = if is_file_server(*h) {
                            seq![file_server_site(*route, *h, port, prefix@)]
                        } else {
                            Seq::empty()
                        };
                        assert(base3 =~= base2 + own);
                        let ghost subs: Seq<CaddyView> = match json_array(json_get(*h, "routes"@)) {
                            Some(sub) => route_sites(sub, port, prefix@),
                            None => Seq::empty(),
                        };
                        proof {
                            lemma_get_array_decreases(*h, "routes"@);
                            assert(decreases_to!(hs@ => hs@[j as int]));
                        }
                        match h.get("routes") {
                            Some(rv) => match rv.as_array() {
                                Some(sub) => {
                                    collect_file_servers(sub.as_slice(), port, prefix, out);
                                },
                                None => {},
                            },
                            None => {},
                        }
                        assert(caddy_views(out@) =~= base3 + subs);
                        assert(handle_sites(*route, *h, port, prefix@) == own + subs);
                        assert(handles_sites(*route, hs@.take(j + 1), port, prefix@)
                            == handles_sites(*route, hs@.take(j as int), port, prefix@) + handle_sites(*route, *h, port, prefix@));
                        assert(caddy_views(out@) =~= base + handles_sites(
                            *route,
                            hs@.take(j + 1),
                            port,
                            prefix@,
                        ));
                        j += 1;
                    }
                    assert(hs@.take(hs.len() as int) =~= hs@);
                    assert(route_handles_sites(*route, port, prefix@) == handles_sites(*route, hs@, port, prefix@));
                    assert(caddy_views(out@) == base + route_handles_sites(*route, port, prefix@));
                },
                None => {},
            },
            None => {},
        }
        assert(caddy_views(out@) =~= base + route_handles_sites(*route, port, prefix@));
        assert(route_sites(routes@.take(i + 1), port, prefix@) == route_sites(routes@.take(i as int), port, prefix@)
            + route_handles_sites(*route, port, prefix@));
        assert(caddy_views(out@) =~= caddy_views(old(out)@) + route_sites(
            routes@.take(i + 1),
            port,
            prefix@,
        ));
        i += 1;
    }
    assert(routes@.take(routes.len() as int) =~= routes@);
}


/// The port that a server of the admin configuration listens on: that of its first listen address.
pub open spec fn server_listen_port(sv: JsonValue) -> Option<u16> {
    match json_str(json_first(json_get(sv, "listen"@))) {
        Some(addr) => listen_port_spec(addr),
        None => None,
    }
}

/// The file servers of one named server of the admin configuration.
pub open spec fn server_sites(name: Seq<char>, sv: JsonValue) -> Seq<CaddyView> {
    match json_array(json_get(sv, "routes"@)) {
        Some(routes) => route_sites(routes, server_listen_port(sv), "api:"@ + name),
        None => Seq::empty(),
    }
}

/// The file servers of some servers of the admin configuration, in order.
pub open spec fn servers_sites(m: Seq<(String, JsonValue)>) -> Seq<CaddyView>
    decreases m.len(),
{
    if m.len() == 0 {
        Seq::empty()
    } else {
        servers_sites(m.drop_last()) + server_sites(m.last().0@, m.last().1)
    }
}

/// The static sites of Caddy's admin configuration: the file servers of the
/// servers under `apps.http.servers`, in the order the configuration lists them.
pub open spec fn api_sites(config: JsonValue) -> Seq<CaddyView> {
    match json_get_opt(json_get_opt(json_get(config, "apps"@), "http"@), "servers"@) {
        Some(JsonValue::Object(m)) => servers_sites(m@),
        _ => Seq::empty(),
    }
}

/// The sites of the file servers in a body of Caddy's admin configuration, where
/// the body is a JSON document; none where it is not.
pub fn caddy_sites_from_body(body: &[u8]) -> (r: Option<Vec<CaddySite>>)
    ensures
        match json_of_bytes(body@) {
            None => r is None,
            Some(v) => r matches Some(s) && caddy_views(s@) == api_sites(v),
        },
{
    match parse_json(body) {
        Some(v) => Some(caddy_sites_from_config(&v)),
        None => None,
    }
}

/// Finds the static sites in Caddy's admin configuration.
pub fn caddy_sites_from_config(config: &JsonValue) -> (r: Vec<CaddySite>)
    ensures
        caddy_views(r@) == api_sites(*config),
{
    let mut out: Vec<CaddySite> = Vec::new();
    let servers = get_of(get_of(config.get("apps"), "http"), "servers");
    match servers {
        Some(JsonValue::Object(m)) => {
            let mut i: usize = 0;
            assert(caddy_views(out@) =~= servers_sites(m@.take(0)));
            while i < m.len()
                invariant
                    i <= m.len(),
                    caddy_views(out@) == servers_sites(m@.take(i as int)),
                decreases m.len() - i,
            {
                let name = &m[i].0;
                let sv = &m[i].1;
                let ghost base = caddy_views(out@);
                assert(m@.take(i + 1).drop_last() =~= m@.take(i as int));
                assert(m@.take(i + 1).last() == m@[i as int]);
                let listen_port = match opt_text_of(first_of(sv.get("listen"))) {
                    Some(addr) => parse_listen_port(addr.as_str()),
                    None => None,
                };
                match sv.get("routes") {
                    Some(rv) => match rv.as_array() {
                        Some(routes) => {
                            let mut p: Vec<char> = Vec::new();
                            push_str(&mut p, "api:");
                            let nc = chars_of_string(name);
                            push_all(&mut p, &nc);
                            let prefix = string_of(&p);
                            collect_file_servers(routes.as_slice(), listen_port, prefix.as_str(), &mut out);
                        },
                        None => {},
                    },
                    None => {},
                }
                assert(caddy_views(out@) =~= base + server_sites(m@[i as int].0@, m@[i as int].1));
                i += 1;
            }
            assert(m@.take(m.len() as int) =~= m@);
        },
        _ => {},
    }
    out
}

/// All static sites: those of the admin configuration, then those of the
/// Caddyfile, sorted stably by label.
pub open spec fn merged_sites(api: Seq<CaddyView>, file: Seq<CaddyView>) -> Seq<CaddyView> {
    stable_sort(api + file)
}

/// Joins the sites of the admin configuration and of the Caddyfile, sorted stably by label.
pub fn merge_caddy_sites(api: Vec<CaddySite>, file: Vec<CaddySite>) -> (r: Vec<CaddySite>)
    ensures
        caddy_views(r@) == merged_sites(caddy_views(api@), caddy_views(file@)),
{
    let mut all = api;
    let mut file = file;
    let ghost a = all@;
    let ghost f = file@;
    all.append(&mut file);
    assert(caddy_views(all@) =~= caddy_views(a) + caddy_views(f));
    sort_sites(all)
}


/// The owners that claim one port, in the order they were found.
#[derive(Debug)]
pub struct PortOwners {
    pub port: u16,
    pub owners: Vec<String>,
}

/// The contents of a [`PortOwners`].
pub struct OwnersView {
    pub port: u16,
    pub owners: Seq<Seq<char>>,
}

impl View for PortOwners {
    type V = OwnersView;

    open spec fn view(&self) -> OwnersView {
        OwnersView { port: self.port, owners: texts(self.owners@) }
    }
}

/// The views of a sequence of port claims.
pub open spec fn owners_views(s: Seq<PortOwners>) -> Seq<OwnersView> {
    s.map_values(|o: PortOwners| o@)
}

/// The owner label of a process: its name, marked as PM2's.
pub open spec fn pm2_label(name: Seq<char>) -> Seq<char> {
    name + " (PM2)"@
}

/// The owner label of a site: its label, marked as Caddy's.
pub open spec fn caddy_label(label: Seq<char>) -> Seq<char> {
    label + " (Caddy)"@
}

/// The owner label of a port watched by hand.
pub open spec fn manual_label() -> Seq<char> {
    "manual watch"@
}

/// The labels of the processes that claim `port`, in order.
pub open spec fn pm2_owner_labels(ps: Seq<Pm2View>, port: u16) -> Seq<Seq<char>>
    decreases ps.len(),
{
    if ps.len() == 0 {
        Seq::empty()
    } else {
        let r = pm2_owner_labels(ps.drop_last(), port);
        if ps.last().port == Some(port) {
            r.push(pm2_label(ps.last().name))
        } else {
            r
        }
    }
}

/// The labels of the sites that claim `port`, in order.
pub open spec fn caddy_owner_labels(cs: Seq<CaddyView>, port: u16) -> Seq<Seq<char>>
    decreases cs.len(),
{
    if cs.len() == 0 {
        Seq::empty()
    } else {
        let r = caddy_owner_labels(cs.drop_last(), port);
        if cs.last().port == Some(port) {
            r.push(caddy_label(cs.last().label))
        } else {
            r
        }
    }
}

/// One `manual watch` label for each time `port` is watched by hand.
pub open spec fn manual_owner_labels(ms: Seq<u16>, port: u16) -> Seq<Seq<char>>
    decreases ms.len(),
{
    if ms.len() == 0 {
        Seq::empty()
    } else {
        let r = manual_owner_labels(ms.drop_last(), port);
        if ms.last() == port {
            r.push(manual_label())
        } else {
            r
        }
    }
}

/// Everything that claims `port`: processes, then sites, then manual watches.
pub open spec fn owner_labels(pm2: Seq<Pm2View>, caddy: Seq<CaddyView>, manual: Seq<u16>, port: u16) -> Seq<Seq<char>> {
    pm2_owner_labels(pm2, port) + caddy_owner_labels(caddy, port) + manual_owner_labels(manual, port)
}

/// Whether anything claims `port`.
pub open spec fn port_claimed(pm2: Seq<Pm2View>, caddy: Seq<CaddyView>, manual: Seq<u16>, port: u16) -> bool {
    ||| exists|i: int| 0 <= i < pm2.len() && #[trigger] pm2[i].port == Some(port)
    ||| exists|i: int| 0 <= i < caddy.len() && #[trigger] caddy[i].port == Some(port)
    ||| exists|i: int| 0 <= i < manual.len() && #[trigger] manual[i] == port
}

proof fn lemma_pm2_labels_nonempty(ps: Seq<Pm2View>, port: u16)
    ensures
        pm2_owner_labels(ps, port).len() > 0 <==> exists|i: int| 0 <= i < ps.len() && #[trigger] ps[i].port == Some(port),
    decreases ps.len(),
{
    if ps.len() > 0 {
        lemma_pm2_labels_nonempty(ps.drop_last(), port);
        if exists|i: int| 0 <= i < ps.drop_last().len() && #[trigger] ps.drop_last()[i].port == Some(port) {
            let i = choose|i: int| 0 <= i < ps.drop_last().len() && #[trigger] ps.drop_last()[i].port == Some(port);
            assert(ps[i].port == Some(port));
        }
        if exists|i: int| 0 <= i < ps.len() && #[trigger] ps[i].port == Some(port) {
            let i = choose|i: int| 0 <= i < ps.len() && #[trigger] ps[i].port == Some(port);
            if i < ps.len() - 1 {
                assert(ps.drop_last()[i].port == Some(port));
            }
        }
    }
}

proof fn lemma_caddy_labels_nonempty(cs: Seq<CaddyView>, port: u16)
    ensures
        caddy_owner_labels(cs, port).len() > 0 <==> exists|i: int| 0 <= i < cs.len() && #[trigger] cs[i].port == Some(port),
    decreases cs.len(),
{
    if cs.len() > 0 {
        lemma_caddy_labels_nonempty(cs.drop_last(), port);
        if exists|i: int| 0 <= i < cs.drop_last().len() && #[trigger] cs.drop_last()[i].port == Some(port) {
            let i = choose|i: int| 0 <= i < cs.drop_last().len() && #[trigger] cs.drop_last()[i].port == Some(port);
            assert(cs[i].port == Some(port));
        }
        if exists|i: int| 0 <= i < cs.len() && #[trigger] cs[i].port == Some(port) {
            let i = choose|i: int| 0 <= i < cs.len() && #[trigger] cs[i].port == Some(port);
            if i < cs.len() - 1 {
                assert(cs.drop_last()[i].port == Some(port));
            }
        }
    }
}

proof fn lemma_manual_labels_nonempty(ms: Seq<u16>, port: u16)
    ensures
        manual_owner_labels(ms, port).len() > 0 <==> exists|i: int| 0 <= i < ms.len() && #[trigger] ms[i] == port,
    decreases ms.len(),
{
    if ms.len() > 0 {
        lemma_manual_labels_nonempty(ms.drop_last(), port);
        if exists|i: int| 0 <= i < ms.drop_last().len() && #[trigger] ms.drop_last()[i] == port {
            let i = choose|i: int| 0 <= i < ms.drop_last().len() && #[trigger] ms.drop_last()[i] == port;
            assert(ms[i] == port);
        }
        if exists|i: int| 0 <= i < ms.len() && #[trigger] ms[i] == port {
            let i = choose|i: int| 0 <= i < ms.len() && #[trigger] ms[i] == port;
            if i < ms.len() - 1 {
                assert(ms.drop_last()[i] == port);
            }
        }
    }
}

/// A port has owners exactly when something claims it.
pub proof fn lemma_owner_labels_claimed(pm2: Seq<Pm2View>, caddy: Seq<CaddyView>, manual: Seq<u16>, port: u16)
    ensures
        owner_labels(pm2, caddy, manual, port).len() > 0 <==> port_claimed(pm2, caddy, manual, port),
{
    lemma_pm2_labels_nonempty(pm2, port);
    lemma_caddy_labels_nonempty(caddy, port);
    lemma_manual_labels_nonempty(manual, port);
}

/// Whether `s` is strictly increasing.
pub open spec fn strictly_increasing(s: Seq<u16>) -> bool {
    forall|i: int, j: int| 0 <= i < j < s.len() ==> #[trigger] s[i] < #[trigger] s[j]
}

/// The owners that `m` holds for `port`: none where it does not hold the port.
pub open spec fn held_owners(m: Map<u16, Vec<String>>, port: u16) -> Seq<Seq<char>> {
    if m.contains_key(port) {
        texts(m[port]@)
    } else {
        Seq::empty()
    }
}

/// Adds `label` to the owners of `port`, after those it has already.
fn add_owner(owners: &mut BTreeMap<u16, Vec<String>>, port: u16, label: String)
    ensures
        forall|q: u16| #[trigger] final(owners)@.contains_key(q) <==> (old(owners)@.contains_key(q) || q == port),
        forall|q: u16| #[trigger] held_owners(final(owners)@, q) == if q == port {
            held_owners(old(owners)@, q).push(label@)
        } else {
            held_owners(old(owners)@, q)
        },
{
    proof {
        assert(obeys_cmp::<u16>());
    }
    let mut v: Vec<String> = match owners.remove(&port) {
        Some(v) => v,
        None => Vec::new(),
    };
    let ghost before = texts(v@);
    assert(before == held_owners(old(owners)@, port));
    v.push(label);
    assert(texts(v@) =~= before.push(label@));
    owners.insert(port, v);
}

/// Takes the owners of `port` out of `owners`.
fn take_owners(owners: &mut BTreeMap<u16, Vec<String>>, port: u16) -> (r: Vec<String>)
    requires
        old(owners)@.contains_key(port),
    ensures
        r == old(owners)@[port],
        final(owners)@ == old(owners)@.remove(port),
{
    proof {
        assert(obeys_cmp::<u16>());
    }
    match owners.remove(&port) {
        Some(v) => v,
        None => Vec::new(),
    }
}

/// The ports that `owners` holds, in increasing order.
fn held_ports(owners: &BTreeMap<u16, Vec<String>>) -> (r: Vec<u16>)
    ensures
        strictly_increasing(r@),
        forall|q: u16| #[trigger] r@.contains(q) <==> owners@.contains_key(q),
{
    proof {
        assert(obeys_cmp::<u16>());
        assert(key_obeys_cmp_spec::<u16>());
        assert(obeys_cmp::<&u16>());
    }
    let mut r: Vec<u16> = Vec::new();
    let ghost keys = IteratorSpec::remaining(&spec_keys_iter(owners));
    for k in it: owners.keys()
        invariant
            it.seq() == keys,
            forall|i: int| 0 <= i < r@.len() ==> r@[i] == *it.seq()[i],
            r@.len() == it.index(),
    {
        r.push(*k);
    }
    proof {
        assert(keys.unref().to_set() == owners@.dom());
        assert(increasing_seq(keys));
        assert(r@ =~= keys.unref());
        assert forall|i: int, j: int| 0 <= i < j < r@.len() implies #[trigger] r@[i] < #[trigger] r@[j] by {
            assert(OrdSpec::cmp_spec(&keys[i], &keys[j]) is Less);
        }
        assert forall|q: u16| #[trigger] r@.contains(q) <==> owners@.contains_key(q) by {
            assert(r@.to_set().contains(q) <==> r@.contains(q));
        }
    }
    r
}

fn label_with(name: &String, mark: &str) -> (r: String)
    ensures
        r@ == name@ + mark@,
{
    let mut v = chars_of_string(name);
    push_str(&mut v, mark);
    string_of(&v)
}

/// The ports that something claims, in increasing order, each with its owners:
/// processes, then sites, then manual watches, each in input order.
pub fn collect_port_owners(pm2: &[Pm2Process], caddy: &[CaddySite], manual: &[u16]) -> (r: Vec<PortOwners>)
    ensures
        forall|i: int, j: int| 0 <= i < j < r@.len() ==> #[trigger] r@[i].port < #[trigger] r@[j].port,
        forall|i: int| 0 <= i < r@.len() ==> (#[trigger] r@[i])@.owners == owner_labels(
            pm2_views(pm2@),
            caddy_views(caddy@),
            manual@,
            r@[i].port,
        ),
        forall|i: int| 0 <= i < r@.len() ==> port_claimed(
            pm2_views(pm2@),
            caddy_views(caddy@),
            manual@,
            (#[trigger] r@[i]).port,
        ),
        forall|p: u16| port_claimed(pm2_views(pm2@), caddy_views(caddy@), manual@, p) ==> exists|i: int|
            0 <= i < r@.len() && (#[trigger] r@[i]).port == p,
{
    let ghost pv = pm2_views(pm2@);
    let ghost cv = caddy_views(caddy@);
    let mut owners: BTreeMap<u16, Vec<String>> = BTreeMap::new();
    let mut i: usize = 0;
    assert(pv.take(0) =~= Seq::<Pm2View>::empty());
    while i < pm2.len()
        invariant
            i <= pm2.len(),
            pv == pm2_views(pm2@),
            forall|q: u16| #[trigger] owners@.contains_key(q) ==> held_owners(owners@, q).len() > 0,
            forall|q: u16| #[trigger] held_owners(owners@, q) == pm2_owner_labels(pv.take(i as int), q),
        decreases pm2.len() - i,
    {
        assert(pv.take(i + 1).drop_last() =~= pv.take(i as int));
        assert(pv.take(i + 1).last() == pm2@[i as int]@);
        if let Some(p) = pm2[i].port {
            let l = label_with(&pm2[i].name, " (PM2)");
            add_owner(&mut owners, p, l);
        }
        i += 1;
    }
    assert(pv.take(pm2.len() as int) =~= pv);
    let mut i: usize = 0;
    assert(cv.take(0) =~= Seq::<CaddyView>::empty());
    while i < caddy.len()
        invariant
            i <= caddy.len(),
            cv == caddy_views(caddy@),
            forall|q: u16| #[trigger] owners@.contains_key(q) ==> held_owners(owners@, q).len() > 0,
            forall|q: u16| #[trigger] held_owners(owners@, q) == pm2_owner_labels(pv, q) + caddy_owner_labels(
                cv.take(i as int),
                q,
            ),
        decreases caddy.len() - i,
    {
        assert(cv.take(i + 1).drop_last() =~= cv.take(i as int));
        assert(cv.take(i + 1).last() == caddy@[i as int]@);
        if let Some(p) = caddy[i].port {
            let l = label_with(&caddy[i].label, " (Caddy)");
            add_owner(&mut owners, p, l);
        }
        assert forall|q: u16| #[trigger] held_owners(owners@, q) == pm2_owner_labels(pv, q) + caddy_owner_labels(
            cv.take(i + 1),
            q,
        ) by {
            assert(pm2_owner_labels(pv, q) + caddy_owner_labels(cv.take(i as int), q).push(caddy_label(cv[i as int].label))
                =~= (pm2_owner_labels(pv, q) + caddy_owner_labels(cv.take(i as int), q)).push(caddy_label(cv[i as int].label)));
        }
        i += 1;
    }
    assert(cv.take(caddy.len() as int) =~= cv);
    let mut i: usize = 0;
    assert(manual@.take(0) =~= Seq::<u16>::empty());
    assert forall|q: u16| #[trigger] held_owners(owners@, q) == pm2_owner_labels(pv, q) + caddy_owner_labels(cv, q)
        + manual_owner_labels(manual@.take(0), q) by {
        assert(pm2_owner_labels(pv, q) + caddy_owner_labels(cv, q) =~= pm2_owner_labels(pv, q) + caddy_owner_labels(cv, q)
            + manual_owner_labels(manual@.take(0), q));
    }
    while i < manual.len()
        invariant
            i <= manual.len(),
            forall|q: u16| #[trigger] owners@.contains_key(q) ==> held_owners(owners@, q).len() > 0,
            forall|q: u16| #[trigger] held_owners(owners@, q) == pm2_owner_labels(pv, q) + caddy_owner_labels(cv, q)
                + manual_owner_labels(manual@.take(i as int), q),
        decreases manual.len() - i,
    {
        assert(manual@.take(i + 1).drop_last() =~= manual@.take(i as int));
        assert(manual@.take(i + 1).last() == manual@[i as int]);
        let l = "manual watch".to_owned();
        add_owner(&mut owners, manual[i], l);
        assert forall|q: u16| #[trigger] held_owners(owners@, q) == pm2_owner_labels(pv, q) + caddy_owner_labels(cv, q)
            + manual_owner_labels(manual@.take(i + 1), q) by {
            assert(pm2_owner_labels(pv, q) + caddy_owner_labels(cv, q) + manual_owner_labels(manual@.take(i as int), q).push(
                manual_label(),
            ) =~= (pm2_owner_labels(pv, q) + caddy_owner_labels(cv, q) + manual_owner_labels(manual@.take(i as int), q)).push(
                manual_label(),
            ));
        }
        i += 1;
    }
    assert(manual@.take(manual.len() as int) =~= manual@);
    assert forall|q: u16| #[trigger] owners@.contains_key(q) <==> port_claimed(pv, cv, manual@, q) by {
        lemma_owner_labels_claimed(pv, cv, manual@, q);
        assert(held_owners(owners@, q) == owner_labels(pv, cv, manual@, q));
    }
    let ports = held_ports(&owners);
    assert forall|k: int| 0 <= k < ports@.len() implies #[trigger] owners@.contains_key(ports@[k])
        && texts(owners@[ports@[k]]@) == owner_labels(pv, cv, manual@, ports@[k]) by {
        assert(ports@.contains(ports@[k]));
        assert(held_owners(owners@, ports@[k]) == owner_labels(pv, cv, manual@, ports@[k]));
    }
    let mut out: Vec<PortOwners> = Vec::new();
    let mut j: usize = 0;
    while j < ports.len()
        invariant
            j <= ports.len(),
            strictly_increasing(ports@),
            forall|q: u16| #[trigger] ports@.contains(q) <==> port_claimed(pv, cv, manual@, q),
            forall|k: int| j <= k < ports@.len() ==> #[trigger] owners@.contains_key(ports@[k])
                && texts(owners@[ports@[k]]@) == owner_labels(pv, cv, manual@, ports@[k]),
            out@.len() == j,
            forall|k: int| 0 <= k < j ==> (#[trigger] out@[k]).port == ports@[k],
            forall|k: int| 0 <= k < j ==> (#[trigger] out@[k])@.owners == owner_labels(pv, cv, manual@, out@[k].port),
        decreases ports.len() - j,
    {
        let port = ports[j];
        assert(owners@.contains_key(ports@[j as int]));
        let held = take_owners(&mut owners, port);
        assert forall|k: int| j + 1 <= k < ports@.len() implies #[trigger] owners@.contains_key(ports@[k])
            && texts(owners@[ports@[k]]@) == owner_labels(pv, cv, manual@, ports@[k]) by {
            assert(ports@[j as int] < ports@[k]);
        }
        out.push(PortOwners { port, owners: held });
        j += 1;
    }
    assert forall|i: int| 0 <= i < out@.len() implies port_claimed(pv, cv, manual@, (#[trigger] out@[i]).port) by {
        assert(ports@.contains(ports@[i]));
    }
    assert forall|p: u16| port_claimed(pv, cv, manual@, p) implies exists|i: int|
        0 <= i < out@.len() && (#[trigger] out@[i]).port == p by {
        assert(ports@.contains(p));
        let i = choose|i: int| 0 <= i < ports@.len() && ports@[i] == p;
        assert(out@[i].port == p);
    }
    assert forall|i: int, j: int| 0 <= i < j < out@.len() implies #[trigger] out@[i].port < #[trigger] out@[j].port by {
        assert(ports@[i] < ports@[j]);
    }
    out
}


/// Whether a port is in conflict: more than one owner claims it, or it is
/// watched by hand and something listens on it.
pub open spec fn is_conflict(owners: Seq<Seq<char>>, is_open: bool) -> bool {
    owners.len() > 1 || (owners.contains(manual_label()) && is_open)
}

/// The conflicts among claimed ports, where `open[i]` tells whether the port of
/// `claims[i]` was found open.
pub open spec fn conflicts_spec(claims: Seq<OwnersView>, open: Seq<bool>) -> Seq<ConflictView>
    decreases claims.len(),
{
    if claims.len() == 0 || open.len() == 0 {
        Seq::empty()
    } else {
        let r = conflicts_spec(claims.drop_last(), open.drop_last());
        let c = claims.last();
        if is_conflict(c.owners, open.last()) {
            r.push(ConflictView { port: c.port, owners: c.owners, is_open: open.last() })
        } else {
            r
        }
    }
}

fn has_manual_owner(owners: &Vec<String>) -> (r: bool)
    ensures
        r == texts(owners@).contains(manual_label()),
{
    let manual = "manual watch".to_owned();
    let mut i: usize = 0;
    while i < owners.len()
        invariant
            i <= owners.len(),
            manual@ == manual_label(),
            forall|k: int| 0 <= k < i ==> owners@[k]@ != manual_label(),
        decreases owners.len() - i,
    {
        if owners[i] == manual {
            assert(texts(owners@)[i as int] == manual_label());
            return true;
        }
        i += 1;
    }
    assert forall|k: int| 0 <= k < texts(owners@).len() implies texts(owners@)[k] != manual_label() by {
        assert(texts(owners@)[k] == owners@[k]@);
    }
    false
}

/// When a claimed port is a conflict: always where two or more owners claim it;
/// where one owner claims it, exactly when that owner is a manual watch and the
/// port was found open; never where nothing claims it.
pub proof fn lemma_conflict_rule(owners: Seq<Seq<char>>, open: bool)
    ensures
        owners.len() >= 2 ==> is_conflict(owners, open),
        owners.len() == 1 ==> (is_conflict(owners, open) <==> (owners[0] == "manual watch"@ && open)),
        owners.len() == 0 ==> !is_conflict(owners, open),
{
    if owners.len() == 1 {
        assert(owners.contains(manual_label()) <==> owners[0] == manual_label());
    }
}

/// Keeps the claimed ports that are in conflict, with whether each was found open.
pub fn select_conflicts(claims: Vec<PortOwners>, open: &Vec<bool>) -> (r: Vec<PortConflict>)
    requires
        claims.len() == open.len(),
    ensures
        conflict_views(r@) == conflicts_spec(owners_views(claims@), open@),
{
    let ghost orig = claims@;
    let mut claims = claims;
    let mut out: Vec<PortConflict> = Vec::new();
    let mut i: usize = 0;
    assert(claims@ =~= orig.skip(0));
    assert(owners_views(orig).take(0) =~= Seq::<OwnersView>::empty());
    assert(conflict_views(out@) =~= Seq::<ConflictView>::empty());
    while claims.len() > 0
        invariant
            i + claims.len() == orig.len() == open.len(),
            claims@ == orig.skip(i as int),
            conflict_views(out@) == conflicts_spec(owners_views(orig).take(i as int), open@.take(i as int)),
        decreases claims.len(),
    {
        let c = claims.remove(0);
        assert(c == orig[i as int]);
        assert(claims@ =~= orig.skip(i + 1));
        assert(owners_views(orig).take(i + 1).drop_last() =~= owners_views(orig).take(i as int));
        assert(open@.take(i + 1).drop_last() =~= open@.take(i as int));
        assert(owners_views(orig).take(i + 1).last() == c@);
        assert(open@.take(i + 1).last() == open@[i as int]);
        let is_open = open[i];
        if c.owners.len() > 1 || (has_manual_owner(&c.owners) && is_open) {
            let ghost before = conflict_views(out@);
            let conflict = PortConflict { port: c.port, owners: c.owners, is_open };
            out.push(conflict);
            assert(conflict_views(out@) =~= before.push(conflict@));
        }
        i += 1;
    }
    assert(owners_views(orig).take(i as int) =~= owners_views(orig));
    assert(open@.take(i as int) =~= open@);
    out
}


/// The processes read from a `jlist` document come out sorted by name, each
/// record of the document exactly once, and those of one name in document order.
pub proof fn lemma_jlist_sorted(val: JsonValue, now_ms: u64)
    ensures
        is_sorted(stable_sort(jlist_records(val, now_ms))),
        stable_sort(jlist_records(val, now_ms)).to_multiset() =~= jlist_records(val, now_ms).to_multiset(),
        forall|y: Pm2View| #[trigger] stable_sort(jlist_records(val, now_ms)).filter(key_class(y))
            == jlist_records(val, now_ms).filter(key_class(y)),
{
    lemma_stable_sort_sorted(jlist_records(val, now_ms));
    assert forall|y: Pm2View| #[trigger] stable_sort(jlist_records(val, now_ms)).filter(key_class(y))
        == jlist_records(val, now_ms).filter(key_class(y)) by {
        lemma_stable_sort_stable(jlist_records(val, now_ms), y);
    }
}

/// The joined sites come out sorted by label, each site of either source exactly
/// once, and those of one label in their order: the admin configuration's first.
pub proof fn lemma_merged_sites_sorted(api: Seq<CaddyView>, file: Seq<CaddyView>)
    ensures
        is_sorted(merged_sites(api, file)),
        merged_sites(api, file).to_multiset() =~= (api + file).to_multiset(),
        forall|y: CaddyView| #[trigger] merged_sites(api, file).filter(key_class(y))
            == (api + file).filter(key_class(y)),
{
    lemma_stable_sort_sorted(api + file);
    assert forall|y: CaddyView| #[trigger] merged_sites(api, file).filter(key_class(y))
        == (api + file).filter(key_class(y)) by {
        lemma_stable_sort_stable(api + file, y);
    }
}

/// A site whose label is a proper prefix of another's comes before it in the
/// joined list, as `str` orders labels (`example.com` before `example.com:8080`).
pub proof fn lemma_merged_prefix_first(api: Seq<CaddyView>, file: Seq<CaddyView>, i: int, j: int, t: Seq<char>)
    requires
        0 <= i < merged_sites(api, file).len(),
        0 <= j < merged_sites(api, file).len(),
        t.len() > 0,
        merged_sites(api, file)[j].label == merged_sites(api, file)[i].label + t,
    ensures
        i < j,
{
    let m = merged_sites(api, file);
    lemma_stable_sort_sorted(api + file);
    lemma_lex_prefix_first(m[i].label, t);
    if j < i {
        assert(m[j].key_le(&m[i]));
    }
    if i == j {
        assert(m[j].label.len() == m[i].label.len() + t.len());
    }
}

/// A process whose name is a proper prefix of another's comes before it in the
/// list read from `jlist`, as `str` orders names (`web` before `web-worker`).
pub proof fn lemma_jlist_prefix_first(val: JsonValue, now_ms: u64, i: int, j: int, t: Seq<char>)
    requires
        0 <= i < stable_sort(jlist_records(val, now_ms)).len(),
        0 <= j < stable_sort(jlist_records(val, now_ms)).len(),
        t.len() > 0,
        stable_sort(jlist_records(val, now_ms))[j].name == stable_sort(jlist_records(val, now_ms))[i].name + t,
    ensures
        i < j,
{
    let m = stable_sort(jlist_records(val, now_ms));
    lemma_stable_sort_sorted(jlist_records(val, now_ms));
    lemma_lex_prefix_first(m[i].name, t);
    if j < i {
        assert(m[j].key_le(&m[i]));
    }
    if i == j {
        assert(m[j].name.len() == m[i].name.len() + t.len());
    }
}

/// Whether `c` reports the claim `claim`, found open or not as `open` says, as a conflict.
pub open spec fn conflict_of(c: ConflictView, claim: OwnersView, open: bool) -> bool {
    &&& c.port == claim.port
    &&& c.owners == claim.owners
    &&& c.is_open == open
    &&& is_conflict(claim.owners, open)
}

/// The conflicts reported are exactly the claimed ports in conflict: each comes
/// from a claim, with its owners and openness, in claim order; each claim in
/// conflict is reported.
pub proof fn lemma_conflicts_exact(claims: Seq<OwnersView>, open: Seq<bool>)
    requires
        claims.len() == open.len(),
    ensures
        forall|k: int| #![trigger conflicts_spec(claims, open)[k]]
            0 <= k < conflicts_spec(claims, open).len() ==> exists|i: int|
            #![trigger claims[i]]
            0 <= i < claims.len() && conflict_of(conflicts_spec(claims, open)[k], claims[i], open[i]),
        forall|i: int| 0 <= i < claims.len() && is_conflict(claims[i].owners, #[trigger] open[i]) ==> exists|k: int|
            0 <= k < conflicts_spec(claims, open).len() && (#[trigger] conflicts_spec(claims, open)[k]).port
                == claims[i].port,
    decreases claims.len(),
{
    if claims.len() > 0 {
        let dc = claims.drop_last();
        let dopen = open.drop_last();
        lemma_conflicts_exact(dc, dopen);
        let r = conflicts_spec(dc, dopen);
        let full = conflicts_spec(claims, open);
        let n = claims.len() - 1;
        assert forall|k: int| #![trigger full[k]] 0 <= k < full.len() implies exists|i: int|
            #![trigger claims[i]]
            0 <= i < claims.len() && conflict_of(full[k], claims[i], open[i]) by {
            if k < r.len() {
                assert(full[k] == r[k]);
                let i = choose|i: int| #![trigger dc[i]] 0 <= i < dc.len() && conflict_of(r[k], dc[i], dopen[i]);
                assert(dc[i] == claims[i] && dopen[i] == open[i]);
            } else {
                assert(claims[n] == claims.last() && open[n] == open.last());
                assert(conflict_of(full[k], claims[n], open[n]));
            }
        }
        assert forall|i: int| 0 <= i < claims.len() && is_conflict(claims[i].owners, #[trigger] open[i]) implies exists|k: int|
            0 <= k < full.len() && (#[trigger] full[k]).port == claims[i].port by {
            if i < n {
                assert(dc[i] == claims[i] && dopen[i] == open[i]);
                assert(is_conflict(dc[i].owners, dopen[i]));
                let k = choose|k: int| 0 <= k < r.len() && (#[trigger] r[k]).port == dc[i].port;
                assert(full[k] == r[k]);
            } else {
                assert(claims[n] == claims.last() && open[n] == open.last());
                assert(full[r.len() as int].port == claims[i].port);
            }
        }
    }
}

} // verus!

