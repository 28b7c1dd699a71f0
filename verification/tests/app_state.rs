use wsl_devctl::actions::{CommandOutcome, Pm2Action, Pm2Command, Pm2Request};
use wsl_devctl::app::{App, Effect, InputMode, RowHit};
use wsl_devctl::data::{Pm2Process, PortConflict};
use wsl_devctl::keys::{map_event, AppCommand, InputEvent, Key};

fn proc(name: &str, status: &str, port: Option<u16>) -> Pm2Process {
    Pm2Process {
        name: name.to_string(),
        status: status.to_string(),
        port,
        memory_mb: 0,
        uptime_secs: None,
        pid: None,
    }
}

fn app_with(procs: Vec<Pm2Process>) -> App {
    let mut app = App::new(2000, vec![]);
    app.pm2_processes = procs;
    app
}

fn three() -> App {
    app_with(vec![proc("web", "online", Some(3000)), proc("api", "stopped", None), proc("worker", "online", Some(4000))])
}

#[test]
fn new_app_is_due_for_refresh() {
    let app = App::new(2000, vec![3000]);
    assert_eq!(app.status_message, "Loading…");
    assert_eq!(app.input_mode, InputMode::Normal);
    assert_eq!(app.manual_ports, vec![3000]);
    assert!(app.should_refresh());
}

#[test]
fn refresh_not_due_right_after_touch() {
    let mut app = App::new(1_000_000, vec![]);
    app.touch_refresh();
    assert!(!app.should_refresh());
    let mut app = App::new(0, vec![]);
    app.touch_refresh();
    assert!(app.should_refresh());
}

#[test]
fn refresh_due_by_elapsed_time() {
    assert!(App::refresh_due(None, 5));
    assert!(!App::refresh_due(Some(4), 5));
    assert!(App::refresh_due(Some(5), 5));
}

#[test]
fn blank_filter_shows_everything_in_order() {
    let mut app = three();
    assert_eq!(app.filtered_indices(), vec![0, 1, 2]);
    app.filter = " \t ".to_string();
    assert_eq!(app.filtered_indices(), vec![0, 1, 2]);
}

#[test]
fn filter_keeps_matching_processes() {
    let mut app = three();
    app.filter = " api ".to_string();
    assert_eq!(app.filtered_indices(), vec![1]);
    app.filter = "zzz".to_string();
    assert!(app.filtered_indices().is_empty());
    app.filter = "wkr".to_string();
    assert_eq!(app.filtered_indices(), vec![2]);
    app.filter = "stopped".to_string();
    assert_eq!(app.filtered_indices(), vec![1]);
}

#[test]
fn filter_is_case_sensitive_only_with_capitals() {
    let mut app = three();
    app.filter = "WEB".to_string();
    assert!(app.filtered_indices().is_empty());
    app.filter = "web".to_string();
    assert_eq!(app.filtered_indices(), vec![0]);
    let mut app = app_with(vec![proc("Web", "online", None)]);
    app.filter = "web".to_string();
    assert_eq!(app.filtered_indices(), vec![0]);
}

#[test]
fn filter_lists_each_match_once_best_first() {
    let mut app = three();
    app.filter = "o".to_string();
    let mut got = app.filtered_indices();
    assert_eq!(got.len(), 3);
    got.sort();
    assert_eq!(got, vec![0, 1, 2]);
}

#[test]
fn selection_moves_within_shown_rows() {
    let mut app = three();
    app.move_up();
    assert_eq!(app.selected, 0);
    app.move_down();
    app.move_down();
    assert_eq!(app.selected, 2);
    app.move_down();
    assert_eq!(app.selected, 2);
    app.move_up();
    assert_eq!(app.selected, 1);
    assert_eq!(app.selected_process_index(), Some(1));
}

#[test]
fn clamp_brings_selection_onto_rows() {
    let mut app = three();
    app.selected = 7;
    app.clamp_selection();
    assert_eq!(app.selected, 2);
    app.filter = "zzz".to_string();
    app.clamp_selection();
    assert_eq!(app.selected, 0);
    assert_eq!(app.selected_process_index(), None);
}

#[test]
fn typing_then_deleting_restores_filter() {
    let mut app = three();
    app.filter = "ap".to_string();
    assert_eq!(app.apply_command(AppCommand::Type('é')), Effect::Continue);
    assert_eq!(app.filter, "apé");
    assert_eq!(app.apply_command(AppCommand::Backspace), Effect::Continue);
    assert_eq!(app.filter, "ap");
    app.filter = String::new();
    app.apply_command(AppCommand::Backspace);
    assert_eq!(app.filter, "");
}

#[test]
fn typing_clamps_selection() {
    let mut app = three();
    app.selected = 2;
    app.apply_command(AppCommand::Type('a'));
    app.apply_command(AppCommand::Type('p'));
    assert_eq!(app.filtered_indices(), vec![1]);
    assert_eq!(app.selected, 0);
}

#[test]
fn commands_and_effects() {
    let mut app = three();
    assert_eq!(app.apply_command(AppCommand::Quit), Effect::Quit);
    assert_eq!(app.apply_command(AppCommand::Refresh), Effect::Refresh);
    assert_eq!(app.apply_command(AppCommand::Enter), Effect::OpenBrowser);
    assert_eq!(app.apply_command(AppCommand::Restart), Effect::Restart);
    assert_eq!(app.apply_command(AppCommand::ToggleStartStop), Effect::ToggleStartStop);
    assert_eq!(app.apply_command(AppCommand::Logs), Effect::Logs);
    assert_eq!(app.apply_command(AppCommand::Ignore), Effect::Continue);
    app.apply_command(AppCommand::StartFilter);
    assert_eq!(app.input_mode, InputMode::Filtering);
    app.apply_command(AppCommand::CancelFilter);
    assert_eq!(app.input_mode, InputMode::Normal);
    app.apply_command(AppCommand::StartFilter);
    app.selected = 9;
    app.apply_command(AppCommand::SubmitFilter);
    assert_eq!(app.input_mode, InputMode::Normal);
    assert_eq!(app.selected, 2);
    app.apply_command(AppCommand::Up);
    assert_eq!(app.selected, 1);
    app.apply_command(AppCommand::Down);
    assert_eq!(app.selected, 2);
}

#[test]
fn key_bindings() {
    let k = |c: char| InputEvent::Key(Key::Char(c));
    assert_eq!(map_event(k('q'), InputMode::Normal), AppCommand::Quit);
    assert_eq!(map_event(InputEvent::Key(Key::Esc), InputMode::Normal), AppCommand::Quit);
    assert_eq!(map_event(k('j'), InputMode::Normal), AppCommand::Down);
    assert_eq!(map_event(InputEvent::Key(Key::Up), InputMode::Normal), AppCommand::Up);
    assert_eq!(map_event(k('r'), InputMode::Normal), AppCommand::Restart);
    assert_eq!(map_event(k('R'), InputMode::Normal), AppCommand::Refresh);
    assert_eq!(map_event(k('s'), InputMode::Normal), AppCommand::ToggleStartStop);
    assert_eq!(map_event(k('l'), InputMode::Normal), AppCommand::Logs);
    assert_eq!(map_event(k('/'), InputMode::Normal), AppCommand::StartFilter);
    assert_eq!(map_event(k('f'), InputMode::Normal), AppCommand::StartFilter);
    assert_eq!(map_event(InputEvent::Key(Key::Enter), InputMode::Normal), AppCommand::Enter);
    assert_eq!(map_event(k('x'), InputMode::Normal), AppCommand::Ignore);
    assert_eq!(map_event(k('q'), InputMode::Filtering), AppCommand::Type('q'));
    assert_eq!(map_event(InputEvent::Key(Key::Esc), InputMode::Filtering), AppCommand::CancelFilter);
    assert_eq!(map_event(InputEvent::Key(Key::Enter), InputMode::Filtering), AppCommand::SubmitFilter);
    assert_eq!(map_event(InputEvent::Key(Key::Backspace), InputMode::Filtering), AppCommand::Backspace);
    assert_eq!(map_event(InputEvent::Key(Key::Up), InputMode::Filtering), AppCommand::Ignore);
    assert_eq!(
        map_event(InputEvent::MouseDown { column: 4, row: 7 }, InputMode::Filtering),
        AppCommand::MouseClick { x: 4, y: 7 }
    );
    assert_eq!(map_event(InputEvent::Other, InputMode::Normal), AppCommand::Ignore);
}

#[test]
fn toggle_stops_running_and_starts_stopped() {
    let mut app = three();
    let c = app.pm2_command(Pm2Request::ToggleStartStop).unwrap();
    assert_eq!(c.name, "web");
    assert_eq!(c.action, Pm2Action::Stop);
    app.selected = 1;
    let c = app.pm2_command(Pm2Request::ToggleStartStop).unwrap();
    assert_eq!(c.name, "api");
    assert_eq!(c.action, Pm2Action::Start);
    assert_eq!(c.action.subcommand(), "start");
    let c = app.pm2_command(Pm2Request::Logs).unwrap();
    assert_eq!(c.action.subcommand(), "logs");
    let c = app.pm2_command(Pm2Request::Restart).unwrap();
    assert_eq!(c.action.subcommand(), "restart");
}

#[test]
fn no_selection_no_command() {
    let mut app = app_with(vec![]);
    assert!(app.pm2_command(Pm2Request::Restart).is_none());
    assert_eq!(app.status_message, "no process selected");
    assert!(app.browser_url().is_none());
    assert_eq!(app.status_message, "no process selected");
}

#[test]
fn pm2_reports() {
    let mut app = three();
    let cmd = |a: Pm2Action| Pm2Command { name: "web".to_string(), action: a };
    app.report_pm2(&cmd(Pm2Action::Restart), &CommandOutcome::Success { stdout: String::new() });
    assert_eq!(app.status_message, "restarted web");
    app.report_pm2(&cmd(Pm2Action::Stop), &CommandOutcome::Success { stdout: String::new() });
    assert_eq!(app.status_message, "stopped web");
    app.report_pm2(&cmd(Pm2Action::Start), &CommandOutcome::Success { stdout: String::new() });
    assert_eq!(app.status_message, "started web");
    app.report_pm2(&cmd(Pm2Action::Stop), &CommandOutcome::Failure { stderr: "  boom \n".to_string() });
    assert_eq!(app.status_message, "stop failed for web: boom");
    app.report_pm2(&cmd(Pm2Action::Start), &CommandOutcome::SpawnError { message: "not found".to_string() });
    assert_eq!(app.status_message, "start failed for web: not found");
    app.report_pm2(&cmd(Pm2Action::Logs), &CommandOutcome::Success { stdout: "line1\r\nline2".to_string() });
    assert_eq!(app.status_message, "logs web: line1");
    app.report_pm2(&cmd(Pm2Action::Logs), &CommandOutcome::Success { stdout: String::new() });
    assert_eq!(app.status_message, "logs web: no log lines");
    app.report_pm2(&cmd(Pm2Action::Logs), &CommandOutcome::Success { stdout: "\nsecond".to_string() });
    assert_eq!(app.status_message, "logs web: ");
    app.report_pm2(&cmd(Pm2Action::Logs), &CommandOutcome::Success { stdout: "only\r".to_string() });
    assert_eq!(app.status_message, "logs web: only\r");
    app.report_pm2(&cmd(Pm2Action::Logs), &CommandOutcome::Failure { stderr: "x".to_string() });
    assert_eq!(app.status_message, "logs failed for web: x");
    app.report_pm2(&cmd(Pm2Action::Restart), &CommandOutcome::Failure { stderr: String::new() });
    assert_eq!(app.status_message, "restart failed for web: ");
}

#[test]
fn browser_address_of_selected_process() {
    let mut app = three();
    assert_eq!(app.browser_url(), Some("http://localhost:3000".to_string()));
    app.selected = 1;
    assert_eq!(app.browser_url(), None);
    assert_eq!(app.status_message, "selected process has no PORT");
    app.report_browser(&"http://localhost:3000".to_string(), true);
    assert_eq!(app.status_message, "opened http://localhost:3000");
    app.report_browser(&"http://localhost:3000".to_string(), false);
    assert_eq!(app.status_message, "failed to open http://localhost:3000");
}

#[test]
fn refresh_replaces_data_and_counts() {
    let mut app = three();
    app.selected = 2;
    let conflict = PortConflict { port: 1, owners: vec!["a".to_string(), "b".to_string()], is_open: false };
    app.apply_refresh(vec![proc("x", "online", None)], vec![], vec![conflict]);
    assert_eq!(app.pm2_processes.len(), 1);
    assert_eq!(app.selected, 0);
    assert_eq!(app.status_message, "refreshed: 1 pm2, 0 caddy, 1 conflicts");
    assert!(!app.should_refresh());
}

#[test]
fn click_selects_row_and_presses_button() {
    let mut app = three();
    app.row_hits = vec![
        RowHit { y: 3, process_index: 2, restart_x: (10, 20), stop_x: (21, 29), logs_x: (30, 37) },
        RowHit { y: 4, process_index: 1, restart_x: (10, 20), stop_x: (21, 29), logs_x: (30, 37) },
    ];
    assert_eq!(app.click(15, 3), Effect::Restart);
    assert_eq!(app.selected, 2);
    assert_eq!(app.click(25, 4), Effect::ToggleStartStop);
    assert_eq!(app.selected, 1);
    assert_eq!(app.click(37, 3), Effect::Logs);
    assert_eq!(app.selected, 2);
    assert_eq!(app.click(5, 4), Effect::Continue);
    assert_eq!(app.selected, 1);
    assert_eq!(app.click(15, 9), Effect::Continue);
    assert_eq!(app.selected, 1);
    assert_eq!(app.apply_command(AppCommand::MouseClick { x: 12, y: 3 }), Effect::Restart);
    assert_eq!(app.selected, 2);
}

#[test]
fn equal_scores_keep_list_order() {
    let mut app = app_with(vec![proc("x", "online", None), proc("api", "online", None), proc("x", "online", None)]);
    app.filter = "x".to_string();
    assert_eq!(app.filtered_indices(), vec![0, 2]);
}

#[test]
fn zero_interval_is_always_due() {
    let mut app = App::new(0, vec![]);
    app.touch_refresh();
    assert!(app.should_refresh());
}

#[test]
fn pm2_arguments_and_refresh_rule() {
    let cmd = Pm2Command { name: "web".to_string(), action: Pm2Action::Logs };
    assert_eq!(cmd.args(), vec!["logs", "web", "--lines", "20", "--nostream"]);
    assert!(!cmd.action.refreshes_after());
    let cmd = Pm2Command { name: "api".to_string(), action: Pm2Action::Stop };
    assert_eq!(cmd.args(), vec!["stop", "api"]);
    assert!(cmd.action.refreshes_after());
    assert!(Pm2Action::Restart.refreshes_after());
    assert!(Pm2Action::Start.refreshes_after());
}

#[test]
fn browser_launchers_in_order() {
    let url = "http://localhost:3000".to_string();
    let l = wsl_devctl::actions::launchers(&url);
    assert_eq!(
        l,
        vec![
            vec!["wslview".to_string(), url.clone()],
            vec!["xdg-open".to_string(), url.clone()],
            vec!["cmd.exe".to_string(), "/C".to_string(), "start".to_string(), "".to_string(), url.clone()],
        ]
    );
}
