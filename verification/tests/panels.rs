use wsl_devctl::app::{App, Effect, InputMode};
use wsl_devctl::data::{CaddySite, Pm2Process, PortConflict};
use wsl_devctl::ui::{process_row, row_hit, LineStyle};

fn proc(name: &str, status: &str, port: Option<u16>, mem: u64, up: Option<u64>) -> Pm2Process {
    Pm2Process {
        name: name.to_string(),
        status: status.to_string(),
        port,
        memory_mb: mem,
        uptime_secs: up,
        pid: None,
    }
}

#[test]
fn row_text_columns() {
    let p = proc("web", "online", Some(3000), 10, Some(60));
    assert_eq!(process_row(&p, true), "> web                :3000  ● 1m     10MB [r:restart][s:stop][l:logs]");
    let p = proc("api-gateway-service-long", "stopped", None, 12345, Some(60));
    assert_eq!(process_row(&p, false), "  api-gateway-service-long -      ○ -    12345MB [r:restart][s:start][l:logs]");
}

#[test]
fn row_buttons_cover_their_labels() {
    let p = proc("web", "online", Some(3000), 10, Some(60));
    let text = process_row(&p, false);
    let chars: Vec<char> = text.chars().collect();
    let at = |label: &str| -> usize {
        let l: Vec<char> = label.chars().collect();
        (0..chars.len()).find(|&i| chars[i..].starts_with(&l)).unwrap()
    };
    assert_eq!((at("[r:restart]"), at("[s:stop]"), at("[l:logs]")), (42, 53, 61));
    let h = row_hit(&p, 2, 5, 1, 98);
    assert_eq!((h.y, h.process_index), (5, 2));
    assert_eq!(h.restart_x, (43, 53));
    assert_eq!(h.stop_x, (54, 61));
    assert_eq!(h.logs_x, (62, 69));
    let s = proc("api", "stopped", None, 10, None);
    let h = row_hit(&s, 0, 0, 0, 200);
    assert_eq!(h.restart_x, (42, 52));
    assert_eq!(h.stop_x, (53, 61));
    assert_eq!(h.logs_x, (62, 69));
}

#[test]
fn buttons_are_clipped_to_the_panel() {
    let p = proc("web", "online", Some(3000), 10, Some(60));
    let h = row_hit(&p, 0, 0, 1, 50);
    assert_eq!(h.restart_x, (43, 50));
    assert!(h.stop_x.0 > h.stop_x.1);
    assert!(h.logs_x.0 > h.logs_x.1);
    let h = row_hit(&p, 0, 0, 1, 0);
    assert!(h.restart_x.0 > h.restart_x.1);
}

#[test]
fn process_panel_groups_rows() {
    let mut app = App::new(1000, vec![]);
    app.pm2_processes = vec![
        proc("web", "online", Some(3000), 1, Some(5)),
        proc("api", "stopped", None, 2, None),
        proc("worker", "online", None, 3, Some(4000)),
    ];
    app.selected = 1;
    let lines = app.process_lines(1, 4, 98, 20);
    let texts: Vec<&str> = lines.iter().map(|l| l.text.as_str()).collect();
    assert_eq!(texts.len(), 6);
    assert_eq!(texts[0], "🔥 RUNNING (2)");
    assert!(texts[1].starts_with("  web "));
    assert!(texts[2].starts_with("  worker "));
    assert_eq!(texts[3], "");
    assert_eq!(texts[4], "😴 STOPPED (1)");
    assert!(texts[5].starts_with("> api "));
    assert_eq!(lines[0].style, LineStyle::RunningHeader);
    assert_eq!(lines[4].style, LineStyle::StoppedHeader);
    assert_eq!(lines[5].style, LineStyle::Selected);
    assert_eq!(lines[1].style, LineStyle::Plain);
    let ys: Vec<(u16, usize)> = app.row_hits.iter().map(|h| (h.y, h.process_index)).collect();
    assert_eq!(ys, vec![(5, 0), (6, 2), (9, 1)]);
    // The header line holds no row.
    assert_eq!(app.click(45, 4), Effect::Continue);
    assert_eq!(app.selected, 1);
    // "[r:restart]" of the worker row is drawn at columns 43..=53 of line 6.
    assert_eq!(app.click(43, 6), Effect::Restart);
    assert_eq!(app.selected, 2);
    assert_eq!(app.selected_process_index(), Some(2));
    assert_eq!(app.click(42, 6), Effect::Continue);
    // "[s:start]" of the stopped api row, then its "[l:logs]".
    assert_eq!(app.click(54, 9), Effect::ToggleStartStop);
    assert_eq!(app.selected, 1);
    assert_eq!(app.click(70, 9), Effect::Logs);
    assert_eq!(app.click(71, 9), Effect::Continue);
}

#[test]
fn rows_below_the_panel_are_not_clickable() {
    let mut app = App::new(1000, vec![]);
    app.pm2_processes = vec![
        proc("web", "online", Some(3000), 1, Some(5)),
        proc("api", "stopped", None, 2, None),
        proc("worker", "online", None, 3, Some(4000)),
    ];
    let lines = app.process_lines(1, 4, 98, 3);
    assert_eq!(lines.len(), 6);
    let ys: Vec<(u16, usize)> = app.row_hits.iter().map(|h| (h.y, h.process_index)).collect();
    assert_eq!(ys, vec![(5, 0), (6, 2)]);
    assert_eq!(app.click(45, 9), Effect::Continue);
}

#[test]
fn lower_panel_lines() {
    let mut app = App::new(1000, vec![]);
    let texts = |app: &App| app.lower_lines().into_iter().map(|l| l.text).collect::<Vec<String>>();
    assert_eq!(texts(&app), vec!["🌐 Caddy Static Roots", "", "⚠️ PORT CONFLICTS", "• none"]);
    app.caddy_sites = (0..5)
        .map(|i| CaddySite {
            label: format!("s{i}"),
            root: "/srv".to_string(),
            port: if i == 0 { Some(8080) } else { None },
            source: "caddyfile".to_string(),
        })
        .collect();
    app.conflicts = vec![PortConflict {
        port: 3000,
        owners: vec!["web (PM2)".to_string(), "api (PM2)".to_string()],
        is_open: true,
    }];
    let t = texts(&app);
    assert_eq!(t.len(), 8);
    assert_eq!(t[1], "• s0 :8080 -> /srv");
    assert_eq!(t[2], "• s1 - -> /srv");
    assert_eq!(t[4], "• s3 - -> /srv");
    assert_eq!(t[7], "• :3000 -> web (PM2) vs api (PM2) [open]");
    app.conflicts[0].is_open = false;
    app.conflicts[0].owners = vec!["manual watch".to_string()];
    assert_eq!(texts(&app)[7], "• :3000 -> manual watch [closed]");
}

#[test]
fn titles_and_help() {
    let mut app = App::new(1000, vec![]);
    assert_eq!(app.filter_title(), "Filter (/ or f)");
    app.input_mode = InputMode::Filtering;
    assert_eq!(app.filter_title(), "Filter (typing…)");
    app.set_status("ok");
    assert_eq!(
        app.help_text(),
        "j/k:nav ↑/↓ | enter:browser | r:restart | s:stop/start | l:logs | q:quit || ok"
    );
}
