//! The dashboard's state: processes and sites, the filter, the selection, and
//! the status line.
use vstd::prelude::*;
use std::time::Instant;
use crate::clock::{elapsed_millis, instant_checked_sub_millis, instant_now};
use crate::data::{CaddySite, Pm2Process, Pm2View, PortConflict, pm2_views};
use crate::keys::AppCommand;
use crate::fuzzy::{skim_fuzzy_match, skim_matches, skim_score};
use crate::rank::{lemma_ranked, rank_matches, ranked};
use crate::text::{chars_of_string, decimal, push_all, push_decimal, push_str, string_of, trim, trim_chars};

verus! {

/// Where a row of the process list lies on screen, and the columns of its action buttons.
#[derive(Debug, Clone, Copy, Default)]
pub struct RowHit {
    pub y: u16,
    pub process_index: usize,
    pub restart_x: (u16, u16),
    pub stop_x: (u16, u16),
    pub logs_x: (u16, u16),
}

/// Whether keys move the selection or edit the filter.
#[derive(Debug, Clone, Copy, PartialEq, Eq, Structural)]
pub enum InputMode {
    Normal,
    Filtering,
}

/// The dashboard's state.
pub struct App {
    /// How long after a refresh the next one is due, in milliseconds.
    pub refresh_interval_ms: u64,
    /// When the data was last refreshed: before the first refresh, one interval
    /// before the dashboard was made, or none where the clock does not reach back
    /// that far.
    pub last_refresh: Option<Instant>,
    pub filter: String,
    pub input_mode: InputMode,
    /// The position of the selected process among the filtered ones.
    pub selected: usize,
    pub pm2_processes: Vec<Pm2Process>,
    pub caddy_sites: Vec<CaddySite>,
    pub conflicts: Vec<PortConflict>,
    pub status_message: String,
    pub manual_ports: Vec<u16>,
    pub row_hits: Vec<RowHit>,
}

/// What remains to be done after a command, outside the state: refreshing,
/// opening a browser, running PM2, or quitting.
#[derive(Debug, Clone, Copy, PartialEq, Eq)]
pub enum Effect {
    Continue,
    Quit,
    Refresh,
    OpenBrowser,
    Restart,
    ToggleStartStop,
    Logs,
}

/// The first row on screen line `y`.
pub open spec fn first_hit(hits: Seq<RowHit>, y: u16) -> Option<RowHit>
    decreases hits.len(),
{
    if hits.len() == 0 {
        None
    } else if hits[0].y == y {
        Some(hits[0])
    } else {
        first_hit(hits.drop_first(), y)
    }
}

/// The first position at which `v` occurs in `s`.
pub open spec fn position_of(s: Seq<usize>, v: usize) -> Option<int>
    decreases s.len(),
{
    if s.len() == 0 {
        None
    } else if s[0] == v {
        Some(0)
    } else {
        match position_of(s.drop_first(), v) {
            Some(p) => Some(p + 1),
            None => None,
        }
    }
}

/// The first row on a line is found wherever no earlier row lies on that line.
pub proof fn lemma_first_hit_at(hits: Seq<RowHit>, k: int)
    requires
        0 <= k < hits.len(),
        forall|j: int| 0 <= j < k ==> (#[trigger] hits[j]).y != hits[k].y,
    ensures
        first_hit(hits, hits[k].y) == Some(hits[k]),
    decreases k,
{
    if k > 0 {
        let d = hits.drop_first();
        assert forall|j: int| 0 <= j < k - 1 implies (#[trigger] d[j]).y != d[k - 1].y by {
            assert(d[j] == hits[j + 1]);
        }
        lemma_first_hit_at(d, k - 1);
        assert(hits[0].y != hits[k].y);
    }
}

/// A value that occurs in a sequence is found at a position that holds it.
pub proof fn lemma_position_of(s: Seq<usize>, v: usize)
    ensures
        s.contains(v) ==> (position_of(s, v) matches Some(p) && 0 <= p < s.len() && s[p] == v),
    decreases s.len(),
{
    if s.len() > 0 && s[0] != v {
        lemma_position_of(s.drop_first(), v);
        if s.contains(v) {
            let i = choose|i: int| 0 <= i < s.len() && s[i] == v;
            assert(s.drop_first()[i - 1] == v);
        }
    }
}

/// The filter after typing `c`.
pub open spec fn typed_filter(f: Seq<char>, c: char) -> Seq<char> {
    f.push(c)
}

/// The filter after deleting its last character, where it has one.
pub open spec fn erased_filter(f: Seq<char>) -> Seq<char> {
    if f.len() > 0 {
        f.drop_last()
    } else {
        f
    }
}

/// Typing a character and then deleting one gives the filter back.
pub proof fn lemma_type_then_erase(f: Seq<char>, c: char)
    ensures
        erased_filter(typed_filter(f, c)) == f,
{
    assert(f.push(c).drop_last() =~= f);
}

/// The selection stays on the shown rows: clamping brings it onto them (or to the
/// top where there are none), and moving up or down from a shown row lands on one.
pub proof fn lemma_selection_on_rows(selected: usize, len: nat)
    ensures
        len > 0 ==> App::clamped(selected, len) < len,
        len == 0 ==> App::clamped(selected, len) == 0,
        selected < len ==> App::clamped(selected, len) == selected,
        selected < len ==> (if selected > 0 { (selected - 1) as usize } else { selected }) < len,
        selected < len ==> (if selected + 1 < len { (selected + 1) as usize } else { selected }) < len,
{
}

/// Whether column `x` lies in the span `r`, both ends included.
pub open spec fn in_span(x: u16, r: (u16, u16)) -> bool {
    r.0 <= x <= r.1
}

/// The action of a click at column `x` on a row: restart, stop or start, or logs,
/// by the button under it.
pub open spec fn click_effect(hit: RowHit, x: u16) -> Effect {
    if in_span(x, hit.restart_x) {
        Effect::Restart
    } else if in_span(x, hit.stop_x) {
        Effect::ToggleStartStop
    } else if in_span(x, hit.logs_x) {
        Effect::Logs
    } else {
        Effect::Continue
    }
}

/// The status line after a refresh that found the given numbers of processes,
/// sites and conflicts.
pub open spec fn refresh_text(pm2: nat, caddy: nat, conflicts: nat) -> Seq<char> {
    "refreshed: "@ + decimal(pm2) + " pm2, "@ + decimal(caddy) + " caddy, "@ + decimal(conflicts)
        + " conflicts"@
}

/// The text that the filter is matched against: a process's name and status.
pub open spec fn haystack(p: Pm2View) -> Seq<char> {
    p.name + " "@ + p.status
}

/// The score of `query` against each process.
pub open spec fn match_scores(ps: Seq<Pm2View>, query: Seq<char>) -> Seq<Option<i64>> {
    Seq::new(ps.len(), |i: int| skim_score(haystack(ps[i]), query))
}

/// The positions `0..n`.
pub open spec fn all_positions(n: nat) -> Seq<usize> {
    Seq::new(n, |i: int| i as usize)
}

impl App {
    /// The positions of the processes that the filter shows, in display order:
    /// all of them where the trimmed filter is empty, else those that match it,
    /// best match first.
    pub open spec fn filtered_view(&self) -> Seq<usize> {
        let q = trim(self.filter@);
        if q.len() == 0 {
            all_positions(self.pm2_processes@.len())
        } else {
            ranked(match_scores(pm2_views(self.pm2_processes@), q))
        }
    }

    /// A new dashboard with no data yet. Its last refresh is set one refresh
    /// interval back from now, so that the first refresh is due at once; where the
    /// monotonic clock does not reach that far back, there is none, which is due as
    /// well. Which instant that is depends on the clock, and is not stated.
    pub fn new(refresh_interval_ms: u64, manual_ports: Vec<u16>) -> (r: Self)
        ensures
            r.refresh_interval_ms == refresh_interval_ms,
            r.filter@.len() == 0,
            r.input_mode == InputMode::Normal,
            r.selected == 0,
            r.pm2_processes@.len() == 0,
            r.caddy_sites@.len() == 0,
            r.conflicts@.len() == 0,
            r.status_message@ == "Loading…"@,
            r.manual_ports@ == manual_ports@,
            r.row_hits@.len() == 0,
    {
        let now = instant_now();
        let last_refresh = instant_checked_sub_millis(&now, refresh_interval_ms);
        App {
            refresh_interval_ms,
            last_refresh,
            filter: String::new(),
            input_mode: InputMode::Normal,
            selected: 0,
            pm2_processes: Vec::new(),
            caddy_sites: Vec::new(),
            conflicts: Vec::new(),
            status_message: "Loading…".to_owned(),
            manual_ports,
            row_hits: Vec::new(),
        }
    }

    /// The positions of the processes that the filter shows, in display order.
    /// Where the trimmed filter is not empty, these are the processes whose name
    /// and status hold the filter's characters in order.
    pub fn filtered_indices(&self) -> (r: Vec<usize>)
        ensures
            r@ == self.filtered_view(),
            trim(self.filter@).len() > 0 ==> forall|i: int|
                0 <= i < self.pm2_processes@.len() ==> (r@.contains(i as usize) <==> skim_matches(
                    haystack(#[trigger] self.pm2_processes@[i]@),
                    trim(self.filter@),
                )),
    {
        let fc = chars_of_string(&self.filter);
        let q = trim_chars(&fc);
        let n = self.pm2_processes.len();
        if q.len() == 0 {
            let mut r: Vec<usize> = Vec::new();
            let mut i: usize = 0;
            while i < n
                invariant
                    i <= n == self.pm2_processes@.len(),
                    r@ == all_positions(i as nat),
                decreases n - i,
            {
                r.push(i);
                i += 1;
                assert(r@ =~= all_positions(i as nat));
            }
            return r;
        }
        let query = string_of(&q);
        let ghost pv = pm2_views(self.pm2_processes@);
        let mut scores: Vec<Option<i64>> = Vec::new();
        let mut i: usize = 0;
        while i < n
            invariant
                i <= n == self.pm2_processes@.len(),
                pv == pm2_views(self.pm2_processes@),
                query@ == trim(self.filter@),
                scores@ == match_scores(pv, query@).take(i as int),
                forall|k: int| 0 <= k < i ==> ((#[trigger] scores@[k]) is Some <==> skim_matches(
                    haystack(pv[k]),
                    query@,
                )),
            decreases n - i,
        {
            let p = &self.pm2_processes[i];
            let mut hay = chars_of_string(&p.name);
            push_str(&mut hay, " ");
            let sc = chars_of_string(&p.status);
            push_all(&mut hay, &sc);
            let hs = string_of(&hay);
            assert(pv[i as int] == p@);
            let score = skim_fuzzy_match(hs.as_str(), query.as_str());
            scores.push(score);
            i += 1;
            assert(scores@ =~= match_scores(pv, query@).take(i as int));
        }
        assert(match_scores(pv, query@).take(n as int) =~= match_scores(pv, query@));
        let r = rank_matches(&scores);
        proof {
            lemma_ranked(scores@);
            assert forall|i: int| 0 <= i < n implies (r@.contains(i as usize) <==> skim_matches(
                haystack(#[trigger] self.pm2_processes@[i]@),
                trim(self.filter@),
            )) by {
                assert(pv[i] == self.pm2_processes@[i]@);
                if r@.contains(i as usize) {
                    let k = choose|k: int| 0 <= k < r@.len() && r@[k] == i as usize;
                    assert(scores@[r@[k] as int] is Some);
                }
                if scores@[i] is Some {
                    assert(ranked(scores@).contains(i as usize));
                }
            }
        }
        r
    }

    /// The rows that the filter shows are processes of the list, each shown once;
    /// a blank filter shows every process in list order, and any other shows the
    /// matching ones best score first.
    pub proof fn lemma_filtered_view(&self)
        ensures
            forall|k: int| 0 <= k < self.filtered_view().len() ==> (#[trigger] self.filtered_view()[k])
                < self.pm2_processes@.len(),
            self.filtered_view().no_duplicates(),
            self.filtered_view().len() <= self.pm2_processes@.len(),
            trim(self.filter@).len() == 0 ==> self.filtered_view().len() == self.pm2_processes@.len(),
            trim(self.filter@).len() > 0 ==> forall|k: int, l: int|
                0 <= k < l < self.filtered_view().len() ==> (#[trigger] match_scores(
                    pm2_views(self.pm2_processes@),
                    trim(self.filter@),
                )[self.filtered_view()[k] as int])->0 > (#[trigger] match_scores(
                    pm2_views(self.pm2_processes@),
                    trim(self.filter@),
                )[self.filtered_view()[l] as int])->0 || (match_scores(
                    pm2_views(self.pm2_processes@),
                    trim(self.filter@),
                )[self.filtered_view()[k] as int] == match_scores(
                    pm2_views(self.pm2_processes@),
                    trim(self.filter@),
                )[self.filtered_view()[l] as int] && self.filtered_view()[k] < self.filtered_view()[l]),
            trim(self.filter@).len() == 0 ==> forall|k: int, l: int|
                0 <= k < l < self.filtered_view().len() ==> #[trigger] self.filtered_view()[k]
                    < #[trigger] self.filtered_view()[l],
    {
        let q = trim(self.filter@);
        assert(self.pm2_processes@.len() == self.pm2_processes.len());
        if q.len() == 0 {
            let v = self.filtered_view();
            assert forall|a: int, b: int| 0 <= a < v.len() && 0 <= b < v.len() && a != b implies v[a] != v[b] by {
            }
        } else {
            lemma_ranked(match_scores(pm2_views(self.pm2_processes@), q));
        }
    }

    /// This state with the selection at position `s`.
    pub open spec fn with_selected(self, s: usize) -> App {
        App { selected: s, ..self }
    }

    /// This state with the status line `msg`.
    pub open spec fn with_status(self, msg: String) -> App {
        App { status_message: msg, ..self }
    }

    /// The position in the process list of the selected process, where the
    /// selection falls on a shown process.
    pub open spec fn selected_spec(&self) -> Option<usize> {
        if self.selected < self.filtered_view().len() {
            Some(self.filtered_view()[self.selected as int])
        } else {
            None
        }
    }

    /// The position in the process list of the selected process, where there is one.
    pub fn selected_process_index(&self) -> (r: Option<usize>)
        ensures
            r == self.selected_spec(),
    {
        let filtered = self.filtered_indices();
        if self.selected < filtered.len() {
            Some(filtered[self.selected])
        } else {
            None
        }
    }

    /// Moves the selection one row up, where it is not at the top.
    pub fn move_up(&mut self)
        ensures
            *final(self) == old(self).with_selected(
                if old(self).selected > 0 {
                    (old(self).selected - 1) as usize
                } else {
                    old(self).selected
                },
            ),
    {
        if self.selected > 0 {
            self.selected -= 1;
        }
    }

    /// Moves the selection one row down, where a shown row lies below it.
    pub fn move_down(&mut self)
        ensures
            *final(self) == old(self).with_selected(
                if old(self).selected + 1 < old(self).filtered_view().len() {
                    (old(self).selected + 1) as usize
                } else {
                    old(self).selected
                },
            ),
    {
        let len = self.filtered_indices().len();
        if len > 0 && self.selected < len - 1 {
            self.selected += 1;
        }
    }

    /// The selection brought onto the shown rows: the last of them where it lies
    /// beyond, the first where there are none.
    pub open spec fn clamped(selected: usize, len: nat) -> usize {
        if len == 0 {
            0
        } else if selected >= len {
            (len - 1) as usize
        } else {
            selected
        }
    }

    /// Brings the selection onto the shown rows.
    pub fn clamp_selection(&mut self)
        ensures
            *final(self) == old(self).with_selected(
                App::clamped(old(self).selected, old(self).filtered_view().len()),
            ),
            final(self).filtered_view() == old(self).filtered_view(),
    {
        let len = self.filtered_indices().len();
        if len == 0 {
            self.selected = 0;
        } else if self.selected >= len {
            self.selected = len - 1;
        }
    }

    /// Sets the status line.
    pub fn set_status(&mut self, msg: &str)
        ensures
            final(self).status_message@ == msg@,
            *final(self) == old(self).with_status(final(self).status_message),
    {
        self.status_message = msg.to_owned();
    }

    /// Whether a refresh is due after `elapsed_ms` milliseconds since the last one,
    /// where there was one.
    pub open spec fn refresh_due_spec(elapsed_ms: Option<u128>, interval_ms: u64) -> bool {
        match elapsed_ms {
            None => true,
            Some(e) => e >= interval_ms,
        }
    }

    /// Over the time since the last refresh: right after it (no time elapsed) a
    /// refresh is due only with an interval of zero; once a full interval has
    /// elapsed it is due; and once due it stays due as more time elapses.
    pub proof fn lemma_refresh_due_over_time(interval_ms: u64, e1: u128, e2: u128)
        ensures
            App::refresh_due_spec(Some(0), interval_ms) <==> interval_ms == 0,
            e1 >= interval_ms ==> App::refresh_due_spec(Some(e1), interval_ms),
            e1 <= e2 && App::refresh_due_spec(Some(e1), interval_ms) ==> App::refresh_due_spec(
                Some(e2),
                interval_ms,
            ),
    {
    }

    /// Whether a refresh is due after `elapsed_ms` milliseconds since the last one.
    pub fn refresh_due(elapsed_ms: Option<u128>, interval_ms: u64) -> (r: bool)
        ensures
            r == App::refresh_due_spec(elapsed_ms, interval_ms),
    {
        match elapsed_ms {
            None => true,
            Some(e) => e >= interval_ms as u128,
        }
    }

    /// Whether the refresh interval has passed since the last refresh. It is due
    /// where there is no last refresh, and always with an interval of zero;
    /// otherwise it depends on the clock, and `refresh_due` says what each reading
    /// of it gives.
    pub fn should_refresh(&self) -> (r: bool)
        ensures
            self.last_refresh is None ==> r,
            self.refresh_interval_ms == 0 ==> r,
    {
        let elapsed = match &self.last_refresh {
            Some(t) => Some(elapsed_millis(t)),
            None => None,
        };
        App::refresh_due(elapsed, self.refresh_interval_ms)
    }

    /// A click at cell (`x`, `y`): on a process row it selects that process, where
    /// the filter shows it, and presses the button under `x`, if any.
    pub fn click(&mut self, x: u16, y: u16) -> (r: Effect)
        ensures
            match first_hit(old(self).row_hits@, y) {
                None => *final(self) == *old(self) && r == Effect::Continue,
                Some(hit) => {
                    &&& *final(self) == old(self).with_selected(
                        match position_of(old(self).filtered_view(), hit.process_index) {
                            Some(p) => p as usize,
                            None => old(self).selected,
                        },
                    )
                    &&& r == click_effect(hit, x)
                },
            },
    {
        let mut k: usize = 0;
        assert(self.row_hits@.skip(0) =~= self.row_hits@);
        while k < self.row_hits.len() && self.row_hits[k].y != y
            invariant
                k <= self.row_hits@.len(),
                first_hit(self.row_hits@, y) == first_hit(self.row_hits@.skip(k as int), y),
            decreases self.row_hits@.len() - k,
        {
            assert(self.row_hits@.skip(k as int).drop_first() =~= self.row_hits@.skip(k + 1));
            k += 1;
        }
        if k == self.row_hits.len() {
            return Effect::Continue;
        }
        let hit = self.row_hits[k];
        assert(self.row_hits@.skip(k as int)[0] == hit);
        let filtered = self.filtered_indices();
        let mut p: usize = 0;
        assert(filtered@.skip(0) =~= filtered@);
        while p < filtered.len() && filtered[p] != hit.process_index
            invariant
                p <= filtered@.len(),
                position_of(filtered@, hit.process_index) == match position_of(
                    filtered@.skip(p as int),
                    hit.process_index,
                ) {
                    Some(q) => Some(q + p),
                    None => None,
                },
            decreases filtered@.len() - p,
        {
            assert(filtered@.skip(p as int).drop_first() =~= filtered@.skip(p + 1));
            p += 1;
        }
        if p < filtered.len() {
            assert(filtered@.skip(p as int)[0] == hit.process_index);
            self.selected = p;
        }
        if hit.restart_x.0 <= x && x <= hit.restart_x.1 {
            Effect::Restart
        } else if hit.stop_x.0 <= x && x <= hit.stop_x.1 {
            Effect::ToggleStartStop
        } else if hit.logs_x.0 <= x && x <= hit.logs_x.1 {
            Effect::Logs
        } else {
            Effect::Continue
        }
    }

    /// Applies a command to the state, and says what remains to be done outside it.
    pub fn apply_command(&mut self, cmd: AppCommand) -> (r: Effect)
        ensures
            match cmd {
                AppCommand::Ignore => *final(self) == *old(self) && r == Effect::Continue,
                AppCommand::Quit => *final(self) == *old(self) && r == Effect::Quit,
                AppCommand::Refresh => *final(self) == *old(self) && r == Effect::Refresh,
                AppCommand::Enter => *final(self) == *old(self) && r == Effect::OpenBrowser,
                AppCommand::Restart => *final(self) == *old(self) && r == Effect::Restart,
                AppCommand::ToggleStartStop => *final(self) == *old(self) && r
                    == Effect::ToggleStartStop,
                AppCommand::Logs => *final(self) == *old(self) && r == Effect::Logs,
                AppCommand::Up => r == Effect::Continue && *final(self) == old(self).with_selected(
                    if old(self).selected > 0 {
                        (old(self).selected - 1) as usize
                    } else {
                        old(self).selected
                    },
                ),
                AppCommand::Down => r == Effect::Continue && *final(self) == old(
                    self,
                ).with_selected(
                    if old(self).selected + 1 < old(self).filtered_view().len() {
                        (old(self).selected + 1) as usize
                    } else {
                        old(self).selected
                    },
                ),
                AppCommand::StartFilter => r == Effect::Continue && *final(self) == (App {
                    input_mode: InputMode::Filtering,
                    ..*old(self)
                }),
                AppCommand::CancelFilter => r == Effect::Continue && *final(self) == (App {
                    input_mode: InputMode::Normal,
                    ..*old(self)
                }),
                AppCommand::SubmitFilter => r == Effect::Continue && *final(self) == (App {
                    input_mode: InputMode::Normal,
                    selected: App::clamped(old(self).selected, old(self).filtered_view().len()),
                    ..*old(self)
                }),
                AppCommand::Backspace => {
                    &&& r == Effect::Continue
                    &&& final(self).filter@ == erased_filter(old(self).filter@)
                    &&& *final(self) == (App {
                        filter: final(self).filter,
                        selected: App::clamped(old(self).selected, final(self).filtered_view().len()),
                        ..*old(self)
                    })
                },
                AppCommand::Type(c) => {
                    &&& r == Effect::Continue
                    &&& final(self).filter@ == typed_filter(old(self).filter@, c)
                    &&& *final(self) == (App {
                        filter: final(self).filter,
                        selected: App::clamped(old(self).selected, final(self).filtered_view().len()),
                        ..*old(self)
                    })
                },
                AppCommand::MouseClick { x, y } => match first_hit(old(self).row_hits@, y) {
                    None => *final(self) == *old(self) && r == Effect::Continue,
                    Some(hit) => {
                        &&& *final(self) == old(self).with_selected(
                            match position_of(old(self).filtered_view(), hit.process_index) {
                                Some(p) => p as usize,
                                None => old(self).selected,
                            },
                        )
                        &&& r == click_effect(hit, x)
                    },
                },
            },
    {
        match cmd {
            AppCommand::Ignore => Effect::Continue,
            AppCommand::Quit => Effect::Quit,
            AppCommand::Refresh => Effect::Refresh,
            AppCommand::Enter => Effect::OpenBrowser,
            AppCommand::Restart => Effect::Restart,
            AppCommand::ToggleStartStop => Effect::ToggleStartStop,
            AppCommand::Logs => Effect::Logs,
            AppCommand::Up => {
                self.move_up();
                Effect::Continue
            },
            AppCommand::Down => {
                self.move_down();
                Effect::Continue
            },
            AppCommand::StartFilter => {
                self.input_mode = InputMode::Filtering;
                Effect::Continue
            },
            AppCommand::CancelFilter => {
                self.input_mode = InputMode::Normal;
                Effect::Continue
            },
            AppCommand::SubmitFilter => {
                self.input_mode = InputMode::Normal;
                self.clamp_selection();
                Effect::Continue
            },
            AppCommand::Backspace => {
                let mut v = chars_of_string(&self.filter);
                if v.len() > 0 {
                    v.pop();
                }
                self.filter = string_of(&v);
                self.clamp_selection();
                Effect::Continue
            },
            AppCommand::Type(c) => {
                let mut v = chars_of_string(&self.filter);
                v.push(c);
                self.filter = string_of(&v);
                self.clamp_selection();
                Effect::Continue
            },
            AppCommand::MouseClick { x, y } => self.click(x, y),
        }
    }

    /// Takes in freshly read data: processes, sites and conflicts replace the old
    /// ones, the selection is brought onto the shown rows, the refresh time is
    /// recorded, and the status line counts what was found.
    pub fn apply_refresh(&mut self, pm2: Vec<Pm2Process>, caddy: Vec<CaddySite>, conflicts: Vec<PortConflict>)
        ensures
            final(self).last_refresh is Some,
            final(self).status_message@ == refresh_text(pm2@.len(), caddy@.len(), conflicts@.len()),
            *final(self) == (App {
                pm2_processes: pm2,
                caddy_sites: caddy,
                conflicts: conflicts,
                selected: App::clamped(old(self).selected, final(self).filtered_view().len()),
                last_refresh: final(self).last_refresh,
                status_message: final(self).status_message,
                ..*old(self)
            }),
    {
        let n1 = pm2.len();
        let n2 = caddy.len();
        let n3 = conflicts.len();
        self.pm2_processes = pm2;
        self.caddy_sites = caddy;
        self.conflicts = conflicts;
        self.clamp_selection();
        self.touch_refresh();
        let mut v: Vec<char> = Vec::new();
        push_str(&mut v, "refreshed: ");
        push_decimal(&mut v, n1 as u64);
        push_str(&mut v, " pm2, ");
        push_decimal(&mut v, n2 as u64);
        push_str(&mut v, " caddy, ");
        push_decimal(&mut v, n3 as u64);
        push_str(&mut v, " conflicts");
        self.status_message = string_of(&v);
    }

    /// Records that the data has just been refreshed.
    pub fn touch_refresh(&mut self)
        ensures
            final(self).last_refresh is Some,
            *final(self) == (App { last_refresh: final(self).last_refresh, ..*old(self) }),
    {
        self.last_refresh = Some(instant_now());
    }
}

} // verus!
