//! PM2 commands on the selected process, opening it in a browser, and what the
//! status line reports of them.
use vstd::prelude::*;
use crate::app::App;
use crate::data::texts;
use crate::text::{chars_of_string, decimal, push_all, push_decimal, push_str, slice_chars, string_of, trim, trim_chars};

verus! {

/// A PM2 operation that the user can ask for on the selected process.
#[derive(Debug, Clone, Copy, PartialEq, Eq)]
pub enum Pm2Request {
    Restart,
    ToggleStartStop,
    Logs,
}

/// A PM2 subcommand run on one process.
#[derive(Debug, Clone, Copy, PartialEq, Eq)]
pub enum Pm2Action {
    Restart,
    Stop,
    Start,
    Logs,
}

impl Pm2Action {
    /// The PM2 subcommand.
    pub open spec fn word(self) -> Seq<char> {
        match self {
            Pm2Action::Restart => "restart"@,
            Pm2Action::Stop => "stop"@,
            Pm2Action::Start => "start"@,
            Pm2Action::Logs => "logs"@,
        }
    }

    /// What a successful run did to the process.
    pub open spec fn done_word(self) -> Seq<char> {
        match self {
            Pm2Action::Restart => "restarted"@,
            Pm2Action::Stop => "stopped"@,
            Pm2Action::Start => "started"@,
            Pm2Action::Logs => "logs"@,
        }
    }

    /// The PM2 subcommand, as its command line names it.
    pub fn subcommand(&self) -> (r: &'static str)
        ensures
            r@ == self.word(),
    {
        match self {
            Pm2Action::Restart => "restart",
            Pm2Action::Stop => "stop",
            Pm2Action::Start => "start",
            Pm2Action::Logs => "logs",
        }
    }

    /// Whether the process list is refreshed after the subcommand has run: after
    /// each one that changes a process, not after logs.
    pub fn refreshes_after(&self) -> (r: bool)
        ensures
            r == !(*self is Logs),
    {
        match self {
            Pm2Action::Logs => false,
            _ => true,
        }
    }
}

/// The subcommand that a request calls for on a process with the given status:
/// a running (`online`) process is stopped, any other started.
pub open spec fn action_for(request: Pm2Request, status: Seq<char>) -> Pm2Action {
    match request {
        Pm2Request::Restart => Pm2Action::Restart,
        Pm2Request::Logs => Pm2Action::Logs,
        Pm2Request::ToggleStartStop => if status == "online"@ {
            Pm2Action::Stop
        } else {
            Pm2Action::Start
        },
    }
}

/// A PM2 subcommand to run on a named process.
#[derive(Debug)]
pub struct Pm2Command {
    pub name: String,
    pub action: Pm2Action,
}

/// The arguments of `pm2` for a subcommand on the process `name`: the subcommand
/// and the name, and for logs the last twenty lines without following them.
pub open spec fn pm2_args(name: Seq<char>, action: Pm2Action) -> Seq<Seq<char>> {
    seq![action.word(), name] + if action is Logs {
        seq!["--lines"@, "20"@, "--nostream"@]
    } else {
        Seq::<Seq<char>>::empty()
    }
}

impl Pm2Command {
    /// The arguments of `pm2` that run this command.
    pub fn args(&self) -> (r: Vec<String>)
        ensures
            texts(r@) == pm2_args(self.name@, self.action),
    {
        let mut r: Vec<String> = Vec::new();
        r.push(self.action.subcommand().to_owned());
        r.push(self.name.clone());
        match self.action {
            Pm2Action::Logs => {
                r.push("--lines".to_owned());
                r.push("20".to_owned());
                r.push("--nostream".to_owned());
            },
            _ => {},
        }
        assert(texts(r@) =~= pm2_args(self.name@, self.action));
        r
    }
}

/// The commands that may open `url` in a browser, in the order they are tried:
/// `wslview`, then `xdg-open`, then Windows' `start` through `cmd.exe`.
pub open spec fn browser_launchers(url: Seq<char>) -> Seq<Seq<Seq<char>>> {
    seq![
        seq!["wslview"@, url],
        seq!["xdg-open"@, url],
        seq!["cmd.exe"@, "/C"@, "start"@, ""@, url],
    ]
}

/// The commands that may open `url` in a browser, in the order they are tried;
/// each is a program and its arguments.
pub fn launchers(url: &String) -> (r: Vec<Vec<String>>)
    ensures
        r@.len() == browser_launchers(url@).len(),
        forall|k: int| 0 <= k < r@.len() ==> texts(#[trigger] r@[k]@) == browser_launchers(url@)[k],
{
    let mut a: Vec<String> = Vec::new();
    a.push("wslview".to_owned());
    a.push(url.clone());
    let mut b: Vec<String> = Vec::new();
    b.push("xdg-open".to_owned());
    b.push(url.clone());
    let mut c: Vec<String> = Vec::new();
    c.push("cmd.exe".to_owned());
    c.push("/C".to_owned());
    c.push("start".to_owned());
    c.push("".to_owned());
    c.push(url.clone());
    assert(texts(a@) =~= browser_launchers(url@)[0]);
    assert(texts(b@) =~= browser_launchers(url@)[1]);
    assert(texts(c@) =~= browser_launchers(url@)[2]);
    let mut r: Vec<Vec<String>> = Vec::new();
    r.push(a);
    r.push(b);
    r.push(c);
    r
}

/// How running an outside command ended.
#[derive(Debug)]
pub enum CommandOutcome {
    /// It ran and succeeded; its standard output.
    Success { stdout: String },
    /// It ran and failed; its standard error.
    Failure { stderr: String },
    /// It could not be run; why.
    SpawnError { message: String },
}

/// The position of the first `c` in `s`, where there is one.
pub open spec fn first_index_of(s: Seq<char>, c: char) -> Option<int>
    decreases s.len(),
{
    if s.len() == 0 {
        None
    } else if s[0] == c {
        Some(0)
    } else {
        match first_index_of(s.drop_first(), c) {
            Some(i) => Some(i + 1),
            None => None,
        }
    }
}

/// The first line of `text`, as `str::lines` yields it: up to the first newline,
/// without a carriage return before it; none where `text` is empty.
pub open spec fn first_line(text: Seq<char>) -> Option<Seq<char>> {
    if text.len() == 0 {
        None
    } else {
        match first_index_of(text, '\n') {
            Some(i) => {
                let l = text.take(i);
                Some(
                    if l.len() > 0 && l.last() == '\r' {
                        l.drop_last()
                    } else {
                        l
                    },
                )
            },
            None => Some(text),
        }
    }
}

/// The status line after running `action` on the process `name`.
pub open spec fn report_text(name: Seq<char>, action: Pm2Action, outcome: CommandOutcome) -> Seq<char> {
    match outcome {
        CommandOutcome::Success { stdout } => match action {
            Pm2Action::Logs => "logs "@ + name + ": "@ + match first_line(stdout@) {
                Some(l) => l,
                None => "no log lines"@,
            },
            _ => action.done_word() + " "@ + name,
        },
        CommandOutcome::Failure { stderr } => action.word() + " failed for "@ + name + ": "@ + trim(
            stderr@,
        ),
        CommandOutcome::SpawnError { message } => action.word() + " failed for "@ + name + ": "@
            + message@,
    }
}

/// The address at which a process listening on `port` is browsed.
pub open spec fn local_url(port: u16) -> Seq<char> {
    "http://localhost:"@ + decimal(port as nat)
}

fn first_line_exec(text: &String) -> (r: Option<Vec<char>>)
    ensures
        match r {
            Some(l) => first_line(text@) == Some(l@),
            None => first_line(text@) is None,
        },
{
    let cs = chars_of_string(text);
    if cs.len() == 0 {
        return None;
    }
    let mut i: usize = 0;
    assert(cs@.skip(0) =~= cs@);
    while i < cs.len() && cs[i] != '\n'
        invariant
            i <= cs@.len(),
            cs@ == text@,
            forall|k: int| 0 <= k < i ==> cs@[k] != '\n',
            first_index_of(cs@, '\n') == match first_index_of(cs@.skip(i as int), '\n') {
                Some(q) => Some(q + i),
                None => None,
            },
        decreases cs@.len() - i,
    {
        assert(cs@.skip(i as int).drop_first() =~= cs@.skip(i + 1));
        i += 1;
    }
    if i == cs.len() {
        assert(cs@.skip(i as int).len() == 0);
        return Some(cs);
    }
    assert(cs@.skip(i as int)[0] == '\n');
    let mut end = i;
    if end > 0 && cs[end - 1] == '\r' {
        end -= 1;
    }
    let l = slice_chars(&cs, 0, end);
    assert(cs@.take(i as int) =~= cs@.subrange(0, i as int));
    assert(l@ =~= (if i > 0 && cs@.take(i as int).last() == '\r' {
        cs@.take(i as int).drop_last()
    } else {
        cs@.take(i as int)
    }));
    Some(l)
}

impl App {
    /// The PM2 command that a request calls for on the selected process. Where no
    /// process is selected there is none, and the status line says so.
    pub fn pm2_command(&mut self, request: Pm2Request) -> (r: Option<Pm2Command>)
        ensures
            match old(self).selected_spec() {
                None => {
                    &&& r is None
                    &&& final(self).status_message@ == "no process selected"@
                    &&& *final(self) == old(self).with_status(final(self).status_message)
                },
                Some(i) => {
                    &&& *final(self) == *old(self)
                    &&& i < old(self).pm2_processes@.len()
                    &&& r matches Some(c) && c.name@ == old(self).pm2_processes@[i as int].name@
                        && c.action == action_for(request, old(self).pm2_processes@[i as int].status@)
                },
            },
    {
        let sel = self.selected_process_index();
        match sel {
            None => {
                self.set_status("no process selected");
                None
            },
            Some(idx) => {
                proof {
                    self.lemma_filtered_view();
                }
                let p = &self.pm2_processes[idx];
                let action = match request {
                    Pm2Request::Restart => Pm2Action::Restart,
                    Pm2Request::Logs => Pm2Action::Logs,
                    Pm2Request::ToggleStartStop => {
                        let online = "online".to_owned();
                        if p.status == online {
                            Pm2Action::Stop
                        } else {
                            Pm2Action::Start
                        }
                    },
                };
                Some(Pm2Command { name: p.name.clone(), action })
            },
        }
    }

    /// Reports on the status line how running a PM2 command ended.
    pub fn report_pm2(&mut self, cmd: &Pm2Command, outcome: &CommandOutcome)
        ensures
            final(self).status_message@ == report_text(cmd.name@, cmd.action, *outcome),
            *final(self) == old(self).with_status(final(self).status_message),
    {
        let mut v: Vec<char> = Vec::new();
        let name = chars_of_string(&cmd.name);
        match outcome {
            CommandOutcome::Success { stdout } => match cmd.action {
                Pm2Action::Logs => {
                    push_str(&mut v, "logs ");
                    push_all(&mut v, &name);
                    push_str(&mut v, ": ");
                    match first_line_exec(stdout) {
                        Some(l) => push_all(&mut v, &l),
                        None => push_str(&mut v, "no log lines"),
                    }
                },
                Pm2Action::Restart => {
                    push_str(&mut v, "restarted");
                    push_str(&mut v, " ");
                    push_all(&mut v, &name);
                },
                Pm2Action::Stop => {
                    push_str(&mut v, "stopped");
                    push_str(&mut v, " ");
                    push_all(&mut v, &name);
                },
                Pm2Action::Start => {
                    push_str(&mut v, "started");
                    push_str(&mut v, " ");
                    push_all(&mut v, &name);
                },
            },
            CommandOutcome::Failure { stderr } => {
                push_str(&mut v, cmd.action.subcommand());
                push_str(&mut v, " failed for ");
                push_all(&mut v, &name);
                push_str(&mut v, ": ");
                let e = chars_of_string(stderr);
                let t = trim_chars(&e);
                push_all(&mut v, &t);
            },
            CommandOutcome::SpawnError { message } => {
                push_str(&mut v, cmd.action.subcommand());
                push_str(&mut v, " failed for ");
                push_all(&mut v, &name);
                push_str(&mut v, ": ");
                let m = chars_of_string(message);
                push_all(&mut v, &m);
            },
        }
        assert(v@ =~= report_text(cmd.name@, cmd.action, *outcome));
        self.status_message = string_of(&v);
    }

    /// The address to open for the selected process. Where no process is selected,
    /// or it has no port, there is none, and the status line says why.
    pub fn browser_url(&mut self) -> (r: Option<String>)
        ensures
            match old(self).selected_spec() {
                None => {
                    &&& r is None
                    &&& final(self).status_message@ == "no process selected"@
                    &&& *final(self) == old(self).with_status(final(self).status_message)
                },
                Some(i) => match old(self).pm2_processes@[i as int].port {
                    None => {
                        &&& r is None
                        &&& final(self).status_message@ == "selected process has no PORT"@
                        &&& *final(self) == old(self).with_status(final(self).status_message)
                    },
                    Some(p) => {
                        &&& *final(self) == *old(self)
                        &&& r matches Some(u) && u@ == local_url(p)
                    },
                },
            },
    {
        match self.selected_process_index() {
            None => {
                self.set_status("no process selected");
                None
            },
            Some(idx) => {
                proof {
                    self.lemma_filtered_view();
                }
                match self.pm2_processes[idx].port {
                    None => {
                        self.set_status("selected process has no PORT");
                        None
                    },
                    Some(port) => {
                        let mut v: Vec<char> = Vec::new();
                        push_str(&mut v, "http://localhost:");
                        push_decimal(&mut v, port as u64);
                        Some(string_of(&v))
                    },
                }
            },
        }
    }

    /// Reports on the status line whether the browser could be started on `url`.
    pub fn report_browser(&mut self, url: &String, opened: bool)
        ensures
            final(self).status_message@ == (if opened {
                "opened "@
            } else {
                "failed to open "@
            }) + url@,
            *final(self) == old(self).with_status(final(self).status_message),
    {
        let mut v: Vec<char> = Vec::new();
        if opened {
            push_str(&mut v, "opened ");
        } else {
            push_str(&mut v, "failed to open ");
        }
        let u = chars_of_string(url);
        push_all(&mut v, &u);
        self.status_message = string_of(&v);
    }

}

} // verus!
