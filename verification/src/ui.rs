//! The text of the dashboard's panels, and where its process rows lie on screen.
use vstd::prelude::*;
use crate::app::{App, Effect, InputMode, RowHit, click_effect, first_hit, lemma_first_hit_at, lemma_position_of, position_of};
use crate::data::{
    listen_port_spec, site_port_spec, CaddySite, CaddyView, ConflictView, Pm2Process, Pm2View, PortConflict, caddy_views, conflict_views,
    format_uptime, pm2_views, texts, uptime_text,
};
use crate::text::{
    chars_of_string, decimal, is_digit, lemma_decimal_digits, lemma_no_index_in_digits, push_all,
    push_decimal, push_str, string_of, unsigned_body,
};

verus! {

/// How a panel line is shown.
#[derive(Debug, Clone, Copy, PartialEq, Eq)]
pub enum LineStyle {
    Plain,
    Selected,
    RunningHeader,
    StoppedHeader,
    SitesHeader,
    ConflictsHeader,
}

/// A line of a panel.
#[derive(Debug)]
pub struct PanelLine {
    pub text: String,
    pub style: LineStyle,
}

/// The contents of a [`PanelLine`].
pub struct LineView {
    pub text: Seq<char>,
    pub style: LineStyle,
}

impl View for PanelLine {
    type V = LineView;

    open spec fn view(&self) -> LineView {
        LineView { text: self.text@, style: self.style }
    }
}

/// The views of some panel lines.
pub open spec fn line_views(s: Seq<PanelLine>) -> Seq<LineView> {
    s.map_values(|l: PanelLine| l@)
}

/// `n` spaces.
pub open spec fn spaces(n: nat) -> Seq<char> {
    Seq::new(n, |i: int| ' ')
}

/// `s` padded with spaces on the right to `w` characters.
pub open spec fn pad_right(s: Seq<char>, w: nat) -> Seq<char> {
    if s.len() >= w {
        s
    } else {
        s + spaces((w - s.len()) as nat)
    }
}

/// `s` padded with spaces on the left to `w` characters.
pub open spec fn pad_left(s: Seq<char>, w: nat) -> Seq<char> {
    if s.len() >= w {
        s
    } else {
        spaces((w - s.len()) as nat) + s
    }
}

fn push_spaces(v: &mut Vec<char>, n: usize)
    ensures
        final(v)@ == old(v)@ + spaces(n as nat),
{
    let mut i: usize = 0;
    while i < n
        invariant
            i <= n,
            v@ == old(v)@ + spaces(i as nat),
        decreases n - i,
    {
        v.push(' ');
        i += 1;
        assert(v@ =~= old(v)@ + spaces(i as nat));
    }
}

fn push_padded_right(v: &mut Vec<char>, s: &Vec<char>, w: usize)
    ensures
        final(v)@ == old(v)@ + pad_right(s@, w as nat),
{
    push_all(v, s);
    if s.len() < w {
        push_spaces(v, w - s.len());
    }
    assert(v@ =~= old(v)@ + pad_right(s@, w as nat));
}

fn push_padded_left(v: &mut Vec<char>, s: &Vec<char>, w: usize)
    ensures
        final(v)@ == old(v)@ + pad_left(s@, w as nat),
{
    if s.len() < w {
        push_spaces(v, w - s.len());
    }
    push_all(v, s);
    assert(v@ =~= old(v)@ + pad_left(s@, w as nat));
}

/// A port as the panels show it: `:` and its number, or `-` where there is none.
pub open spec fn port_text(port: Option<u16>) -> Seq<char> {
    match port {
        Some(p) => ":"@ + decimal(p as nat),
        None => "-"@,
    }
}

/// A port as the panels show it reads back as the same port, as a listen
/// address and as a site address.
pub proof fn lemma_port_text_reads_back(port: u16)
    ensures
        listen_port_spec(port_text(Some(port))) == Some(port),
        site_port_spec(port_text(Some(port))) == Some(port),
{
    let d = decimal(port as nat);
    lemma_decimal_digits(port as nat);
    lemma_no_index_in_digits(d, ':');
    assert(":"@ =~= seq![':']) by {
        reveal_strlit(":");
    }
    assert((seq![':'] + d).skip(1) =~= d);
    assert(is_digit(d[0]));
    assert(unsigned_body(d) == d);
}

fn port_chars(port: Option<u16>) -> (r: Vec<char>)
    ensures
        r@ == port_text(port),
{
    let mut v: Vec<char> = Vec::new();
    match port {
        Some(p) => {
            push_str(&mut v, ":");
            push_decimal(&mut v, p as u64);
        },
        None => push_str(&mut v, "-"),
    }
    v
}

/// Whether a process is running.
pub open spec fn is_online(p: Pm2View) -> bool {
    p.status == "online"@
}

/// The selection mark that starts a row.
pub open spec fn mark(selected: bool) -> Seq<char> {
    if selected {
        ">"@
    } else {
        " "@
    }
}

/// The part of a process row between its selection mark and its buttons: its
/// name, port, a running dot, its uptime while it runs, and its memory.
pub open spec fn row_head(p: Pm2View) -> Seq<char> {
    let online = is_online(p);
    " "@ + pad_right(p.name, 18) + " "@ + pad_right(port_text(p.port), 6) + " "@ + (if online {
        "●"@
    } else {
        "○"@
    }) + " "@ + pad_right(
        if online {
            uptime_text(p.uptime_secs)
        } else {
            "-"@
        },
        4,
    ) + " "@ + pad_left(decimal(p.memory_mb as nat), 4) + "MB "@
}

/// The label of the restart button.
pub open spec fn restart_label() -> Seq<char> {
    "[r:restart]"@
}

/// The label of the button that stops a running process, or starts a stopped one.
pub open spec fn stop_label(p: Pm2View) -> Seq<char> {
    if is_online(p) {
        "[s:stop]"@
    } else {
        "[s:start]"@
    }
}

/// The label of the logs button.
pub open spec fn logs_label() -> Seq<char> {
    "[l:logs]"@
}

/// The row of a process: a selection mark, the row's head, and its buttons.
pub open spec fn row_text(p: Pm2View, selected: bool) -> Seq<char> {
    mark(selected) + row_head(p) + restart_label() + stop_label(p) + logs_label()
}

/// Where in a row of `p` its restart button starts.
pub open spec fn restart_at(p: Pm2View) -> int {
    (mark(false).len() + row_head(p).len()) as int
}

/// Where in a row of `p` its stop or start button starts.
pub open spec fn stop_at(p: Pm2View) -> int {
    restart_at(p) + restart_label().len()
}

/// Where in a row of `p` its logs button starts.
pub open spec fn logs_at(p: Pm2View) -> int {
    stop_at(p) + stop_label(p).len()
}

proof fn lemma_label_lengths(p: Pm2View)
    ensures
        mark(true).len() == 1,
        mark(false).len() == 1,
        restart_label().len() == 11,
        stop_label(p).len() == if is_online(p) { 8int } else { 9int },
        logs_label().len() == 8,
{
    reveal_strlit(">");
    reveal_strlit(" ");
    reveal_strlit("[r:restart]");
    reveal_strlit("[s:stop]");
    reveal_strlit("[s:start]");
    reveal_strlit("[l:logs]");
}

fn row_head_chars(p: &Pm2Process) -> (r: Vec<char>)
    ensures
        r@ == row_head(p@),
{
    let online_text = "online".to_owned();
    let online = p.status == online_text;
    let mut v: Vec<char> = Vec::new();
    push_str(&mut v, " ");
    let name = chars_of_string(&p.name);
    push_padded_right(&mut v, &name, 18);
    push_str(&mut v, " ");
    let port = port_chars(p.port);
    push_padded_right(&mut v, &port, 6);
    push_str(&mut v, " ");
    if online {
        push_str(&mut v, "●");
    } else {
        push_str(&mut v, "○");
    }
    push_str(&mut v, " ");
    let uptime = if online {
        chars_of_string(&format_uptime(p.uptime_secs))
    } else {
        let mut d: Vec<char> = Vec::new();
        push_str(&mut d, "-");
        d
    };
    push_padded_right(&mut v, &uptime, 4);
    push_str(&mut v, " ");
    let mut mem: Vec<char> = Vec::new();
    push_decimal(&mut mem, p.memory_mb);
    push_padded_left(&mut v, &mem, 4);
    push_str(&mut v, "MB ");
    assert(v@ =~= row_head(p@));
    v
}

/// The text of a process row.
pub fn process_row(p: &Pm2Process, selected: bool) -> (r: String)
    ensures
        r@ == row_text(p@, selected),
{
    let online_text = "online".to_owned();
    let online = p.status == online_text;
    let mut v: Vec<char> = Vec::new();
    if selected {
        push_str(&mut v, ">");
    } else {
        push_str(&mut v, " ");
    }
    let head = row_head_chars(p);
    push_all(&mut v, &head);
    push_str(&mut v, "[r:restart]");
    if online {
        push_str(&mut v, "[s:stop]");
    } else {
        push_str(&mut v, "[s:start]");
    }
    push_str(&mut v, "[l:logs]");
    assert(v@ =~= row_text(p@, selected));
    string_of(&v)
}

/// The columns of a button whose label starts `at` characters into a line drawn
/// from column `left` of a panel `width` columns wide, and is `len` characters
/// long: those of its characters that the panel shows, one column each. Where the
/// panel shows none of them, the span is empty (it starts after it ends).
/// Columns are counted one to a character, as the terminal draws characters of
/// width one; a character of double width earlier in the line (in a process name)
/// would move the drawn label one column to the right.
pub open spec fn button_span(left: u16, width: u16, at: int, len: int) -> (u16, u16) {
    if at < width {
        (
            (left + at) as u16,
            (left + (if at + len <= width {
                at + len
            } else {
                width as int
            }) - 1) as u16,
        )
    } else {
        (1u16, 0u16)
    }
}

/// Whether column `x` shows one of the `len` characters that start `at`
/// characters into a line drawn from column `left` of a panel `width` columns wide.
pub open spec fn shows_label(x: u16, left: u16, width: u16, at: int, len: int) -> bool {
    left + at <= x < left + at + len && x < left + width
}

/// Where the row of process `p` (number `index` in the process list) lies when it
/// is drawn on screen line `y` from column `left` of a panel `width` columns wide:
/// each button covers the columns where its label is drawn.
pub open spec fn row_hit_spec(p: Pm2View, index: usize, y: u16, left: u16, width: u16) -> RowHit {
    RowHit {
        y: y,
        process_index: index,
        restart_x: button_span(left, width, restart_at(p), restart_label().len() as int),
        stop_x: button_span(left, width, stop_at(p), stop_label(p).len() as int),
        logs_x: button_span(left, width, logs_at(p), logs_label().len() as int),
    }
}

fn span_exec(left: u16, width: u16, at: usize, len: usize) -> (r: (u16, u16))
    requires
        left + width <= u16::MAX,
        1 <= len <= 16,
    ensures
        r == button_span(left, width, at as int, len as int),
{
    let w = width as usize;
    if at < w {
        let end: usize = if at + len <= w { at + len } else { w };
        let first: u16 = left + at as u16;
        let last: u16 = left + (end - 1) as u16;
        (first, last)
    } else {
        (1, 0)
    }
}

/// Where the row of process `p`, number `index` in the process list, lies when it
/// is drawn on screen line `y` from column `left` of a panel `width` columns wide.
pub fn row_hit(p: &Pm2Process, index: usize, y: u16, left: u16, width: u16) -> (r: RowHit)
    requires
        left + width <= u16::MAX,
    ensures
        r == row_hit_spec(p@, index, y, left, width),
{
    proof {
        lemma_label_lengths(p@);
    }
    let online_text = "online".to_owned();
    let online = p.status == online_text;
    let head = row_head_chars(p);
    let stop_len: usize = if online { 8 } else { 9 };
    if head.len() >= width as usize {
        RowHit { y, process_index: index, restart_x: (1, 0), stop_x: (1, 0), logs_x: (1, 0) }
    } else {
        let at: usize = head.len() + 1;
        RowHit {
            y,
            process_index: index,
            restart_x: span_exec(left, width, at, 11),
            stop_x: span_exec(left, width, at + 11, stop_len),
            logs_x: span_exec(left, width, at + 11 + stop_len, 8),
        }
    }
}

/// The rows of `order` whose process runs (`online`), or of those that do not.
pub open spec fn group(ps: Seq<Pm2View>, order: Seq<usize>, online: bool) -> Seq<usize>
    decreases order.len(),
{
    if order.len() == 0 {
        Seq::empty()
    } else {
        let r = group(ps, order.drop_last(), online);
        if is_online(ps[order.last() as int]) == online {
            r.push(order.last())
        } else {
            r
        }
    }
}

/// The lines of some process rows; the selected process is marked.
pub open spec fn row_lines(ps: Seq<Pm2View>, rows: Seq<usize>, sel: Option<usize>) -> Seq<LineView> {
    Seq::new(
        rows.len(),
        |k: int|
            LineView {
                text: row_text(ps[rows[k] as int], sel == Some(rows[k])),
                style: if sel == Some(rows[k]) {
                    LineStyle::Selected
                } else {
                    LineStyle::Plain
                },
            },
    )
}

/// A header line that counts the rows under it.
pub open spec fn header_text(title: Seq<char>, n: nat) -> Seq<char> {
    title + " ("@ + decimal(n) + ")"@
}

/// The lines of the process panel: the running processes under their header, a
/// blank line, then the stopped ones under theirs.
pub open spec fn process_panel(ps: Seq<Pm2View>, order: Seq<usize>, sel: Option<usize>) -> Seq<LineView> {
    let running = group(ps, order, true);
    let stopped = group(ps, order, false);
    seq![LineView { text: header_text("🔥 RUNNING"@, running.len()), style: LineStyle::RunningHeader }]
        + row_lines(ps, running, sel) + seq![LineView { text: Seq::empty(), style: LineStyle::Plain }]
        + seq![LineView { text: header_text("😴 STOPPED"@, stopped.len()), style: LineStyle::StoppedHeader }]
        + row_lines(ps, stopped, sel)
}

/// The process that each line of the process panel shows, where it shows one:
/// none on the headers and the blank line.
pub open spec fn panel_rows(ps: Seq<Pm2View>, order: Seq<usize>) -> Seq<Option<usize>> {
    let running = group(ps, order, true);
    let stopped = group(ps, order, false);
    seq![None] + running.map_values(|i: usize| Some(i)) + seq![None, None] + stopped.map_values(
        |i: usize| Some(i),
    )
}

/// How many of `n` rows, the first on line `first` of a panel `height` lines
/// high, the panel shows.
pub open spec fn shown(n: nat, first: int, height: u16) -> nat {
    if first + n <= height {
        n
    } else if first < height {
        (height - first) as nat
    } else {
        0
    }
}

/// Where those of some process rows that the panel shows lie, the first on line
/// `first` of a panel whose first inner cell is (`left`, `top`).
pub open spec fn row_hits_for(
    ps: Seq<Pm2View>,
    rows: Seq<usize>,
    first: int,
    left: u16,
    top: u16,
    width: u16,
    height: u16,
) -> Seq<RowHit> {
    Seq::new(
        shown(rows.len(), first, height),
        |k: int| row_hit_spec(ps[rows[k] as int], rows[k], (top + first + k) as u16, left, width),
    )
}

/// Where the rows of the process panel lie when it is drawn from its first inner
/// cell (`left`, `top`), `width` columns wide and `height` lines high, one line
/// of text to a screen line: each row that the panel shows lies on the screen
/// line where it is drawn, the running rows from the line after their header,
/// the stopped ones from the line after theirs.
pub open spec fn panel_hits(
    ps: Seq<Pm2View>,
    order: Seq<usize>,
    left: u16,
    top: u16,
    width: u16,
    height: u16,
) -> Seq<RowHit> {
    let running = group(ps, order, true);
    let stopped = group(ps, order, false);
    row_hits_for(ps, running, 1, left, top, width, height) + row_hits_for(
        ps,
        stopped,
        running.len() + 3int,
        left,
        top,
        width,
        height,
    )
}

proof fn lemma_group_bounds(ps: Seq<Pm2View>, order: Seq<usize>, online: bool)
    ensures
        group(ps, order, online).len() <= order.len(),
        forall|k: int| 0 <= k < group(ps, order, online).len() ==> order.contains(
            #[trigger] group(ps, order, online)[k],
        ),
    decreases order.len(),
{
    if order.len() > 0 {
        lemma_group_bounds(ps, order.drop_last(), online);
        let r = group(ps, order.drop_last(), online);
        assert forall|k: int| 0 <= k < group(ps, order, online).len() implies order.contains(
            #[trigger] group(ps, order, online)[k],
        ) by {
            if k < r.len() {
                assert(order.drop_last().contains(r[k]));
                let j = choose|j: int| 0 <= j < order.drop_last().len() && order.drop_last()[j] == r[k];
                assert(order[j] == r[k]);
            } else {
                assert(order[order.len() - 1] == order.last());
            }
        }
    }
}

proof fn lemma_group_partition(ps: Seq<Pm2View>, order: Seq<usize>)
    ensures
        group(ps, order, true).len() + group(ps, order, false).len() == order.len(),
    decreases order.len(),
{
    if order.len() > 0 {
        lemma_group_partition(ps, order.drop_last());
    }
}

/// A process of the shown list falls in the running group exactly when its
/// status is the text `online`, and in the stopped group exactly when it is any
/// other text (`stopped`, `errored`, `launching`, ...).
pub proof fn lemma_running_exactly_online(ps: Seq<Pm2View>, order: Seq<usize>, idx: usize)
    requires
        forall|k: int| 0 <= k < order.len() ==> (#[trigger] order[k]) < ps.len(),
    ensures
        group(ps, order, true).contains(idx) <==> (order.contains(idx) && ps[idx as int].status == "online"@),
        group(ps, order, false).contains(idx) <==> (order.contains(idx) && ps[idx as int].status != "online"@),
    decreases order.len(),
{
    if order.len() > 0 {
        let prev = order.drop_last();
        assert forall|k: int| 0 <= k < prev.len() implies (#[trigger] prev[k]) < ps.len() by {
            assert(prev[k] == order[k]);
        }
        lemma_running_exactly_online(ps, prev, idx);
        assert(order =~= prev.push(order.last()));
        assert(order.contains(idx) <==> (prev.contains(idx) || order.last() == idx)) by {
            if order.contains(idx) {
                let k = choose|k: int| 0 <= k < order.len() && order[k] == idx;
                if k < order.len() - 1 {
                    assert(prev[k] == idx);
                }
            }
            if prev.contains(idx) {
                let k = choose|k: int| 0 <= k < prev.len() && prev[k] == idx;
                assert(order[k] == idx);
            }
        }
        let r1 = group(ps, prev, true);
        let r0 = group(ps, prev, false);
        assert(r1.push(order.last()).contains(idx) <==> (r1.contains(idx) || order.last() == idx)) by {
            let q = r1.push(order.last());
            if q.contains(idx) {
                let k = choose|k: int| 0 <= k < q.len() && q[k] == idx;
                if k < r1.len() {
                    assert(r1[k] == idx);
                }
            }
            if r1.contains(idx) {
                let k = choose|k: int| 0 <= k < r1.len() && r1[k] == idx;
                assert(q[k] == idx);
            }
            assert(q[r1.len() as int] == order.last());
        }
        assert(r0.push(order.last()).contains(idx) <==> (r0.contains(idx) || order.last() == idx)) by {
            let q = r0.push(order.last());
            if q.contains(idx) {
                let k = choose|k: int| 0 <= k < q.len() && q[k] == idx;
                if k < r0.len() {
                    assert(r0[k] == idx);
                }
            }
            if r0.contains(idx) {
                let k = choose|k: int| 0 <= k < r0.len() && r0[k] == idx;
                assert(q[k] == idx);
            }
            assert(q[r0.len() as int] == order.last());
        }
    }
}

/// Where on a row of process `p` its running dot stands.
pub open spec fn dot_at(p: Pm2View) -> int {
    4int + pad_right(p.name, 18).len() + pad_right(port_text(p.port), 6).len()
}

/// A row shows a filled dot and the stop button exactly when the process's status
/// is the text `online`, and a hollow dot and the start button otherwise.
pub proof fn lemma_row_shows_status(p: Pm2View, selected: bool)
    ensures
        row_text(p, selected)[dot_at(p)] == if p.status == "online"@ {
            '●'
        } else {
            '○'
        },
        row_text(p, selected).subrange(stop_at(p), logs_at(p)) == if p.status == "online"@ {
            "[s:stop]"@
        } else {
            "[s:start]"@
        },
{
    lemma_row_labels(p, selected);
    reveal_strlit(">");
    reveal_strlit(" ");
    reveal_strlit("●");
    reveal_strlit("○");
    let text = row_text(p, selected);
    let pre = mark(selected) + " "@ + pad_right(p.name, 18) + " "@ + pad_right(port_text(p.port), 6) + " "@;
    assert(pre.len() == dot_at(p));
    let dot = if is_online(p) {
        "●"@
    } else {
        "○"@
    };
    assert(text =~= pre + dot + (text.skip(pre.len() + 1int)));
}

proof fn lemma_row_labels(p: Pm2View, selected: bool)
    ensures
        ({
            let text = row_text(p, selected);
            &&& text.subrange(restart_at(p), stop_at(p)) == restart_label()
            &&& text.subrange(stop_at(p), logs_at(p)) == stop_label(p)
            &&& text.subrange(logs_at(p), text.len() as int) == logs_label()
        }),
{
    lemma_label_lengths(p);
    let text = row_text(p, selected);
    assert(text.subrange(restart_at(p), stop_at(p)) =~= restart_label());
    assert(text.subrange(stop_at(p), logs_at(p)) =~= stop_label(p));
    assert(text.subrange(logs_at(p), text.len() as int) =~= logs_label());
}

proof fn lemma_button_click(p: Pm2View, idx: usize, y: u16, left: u16, width: u16, x: u16)
    requires
        left + width <= u16::MAX,
    ensures
        ({
            let h = row_hit_spec(p, idx, y, left, width);
            &&& (click_effect(h, x) == Effect::Restart <==> shows_label(
                x,
                left,
                width,
                restart_at(p),
                restart_label().len() as int,
            ))
            &&& (click_effect(h, x) == Effect::ToggleStartStop <==> shows_label(
                x,
                left,
                width,
                stop_at(p),
                stop_label(p).len() as int,
            ))
            &&& (click_effect(h, x) == Effect::Logs <==> shows_label(
                x,
                left,
                width,
                logs_at(p),
                logs_label().len() as int,
            ))
        }),
{
    lemma_label_lengths(p);
}

/// The line of the process panel that shows a process, and its hit.
proof fn lemma_drawn_row_hit(
    ps: Seq<Pm2View>,
    fv: Seq<usize>,
    sel: Option<usize>,
    left: u16,
    top: u16,
    width: u16,
    height: u16,
    i: int,
)
    requires
        top + height <= u16::MAX,
        0 <= i < height,
        0 <= i < panel_rows(ps, fv).len(),
        panel_rows(ps, fv)[i] is Some,
    ensures
        ({
            let idx = panel_rows(ps, fv)[i]->0;
            let hits = panel_hits(ps, fv, left, top, width, height);
            &&& fv.contains(idx)
            &&& process_panel(ps, fv, sel)[i].text == row_text(ps[idx as int], sel == Some(idx))
            &&& first_hit(hits, (top + i) as u16) == Some(
                row_hit_spec(ps[idx as int], idx, (top + i) as u16, left, width),
            )
        }),
{
    let running = group(ps, fv, true);
    let stopped = group(ps, fv, false);
    let rows = panel_rows(ps, fv);
    let lines = process_panel(ps, fv, sel);
    let hits = panel_hits(ps, fv, left, top, width, height);
    let rh = row_hits_for(ps, running, 1, left, top, width, height);
    let sh = row_hits_for(ps, stopped, running.len() + 3int, left, top, width, height);
    lemma_group_bounds(ps, fv, true);
    lemma_group_bounds(ps, fv, false);
    let r = running.len() as int;
    let idx = rows[i]->0;
    assert(hits == rh + sh);
    let pos: int = if i <= r {
        i - 1
    } else {
        r + (i - r - 3)
    };
    if i <= r {
        assert(rows[i] == Some(running[i - 1]));
        assert(lines[i] == row_lines(ps, running, sel)[i - 1]);
        assert(fv.contains(running[i - 1]));
        assert(hits[pos] == rh[pos]);
    } else {
        assert(i >= r + 3);
        assert(rows[i] == Some(stopped[i - r - 3]));
        assert(lines[i] == row_lines(ps, stopped, sel)[i - r - 3]);
        assert(fv.contains(stopped[i - r - 3]));
        assert(rh.len() == r);
        assert(hits[pos] == sh[pos - r]);
    }
    assert(hits[pos] == row_hit_spec(ps[idx as int], idx, (top + i) as u16, left, width));
    assert forall|j: int| 0 <= j < pos implies (#[trigger] hits[j]).y != hits[pos].y by {
        if j < rh.len() {
            assert(hits[j] == rh[j]);
        } else {
            assert(hits[j] == sh[j - rh.len()]);
        }
    }
    lemma_first_hit_at(hits, pos);
}

/// A click on a line of the drawn process panel that shows a process finds the
/// row of that process, selects it, and acts by the label drawn under the click:
/// restart, stop or start, or logs on their labels, nothing elsewhere on the row.
/// The labels stand in the line's text where the row's buttons say.
pub proof fn lemma_click_selects_drawn_row(
    app: App,
    left: u16,
    top: u16,
    width: u16,
    height: u16,
    i: int,
    x: u16,
)
    requires
        left + width <= u16::MAX,
        top + height <= u16::MAX,
        0 <= i < height,
        0 <= i < panel_rows(pm2_views(app.pm2_processes@), app.filtered_view()).len(),
        panel_rows(pm2_views(app.pm2_processes@), app.filtered_view())[i] is Some,
    ensures
        ({
            let ps = pm2_views(app.pm2_processes@);
            let fv = app.filtered_view();
            let idx = panel_rows(ps, fv)[i]->0;
            let p = ps[idx as int];
            let text = process_panel(ps, fv, app.selected_spec())[i].text;
            let hits = panel_hits(ps, fv, left, top, width, height);
            &&& 0 <= idx < ps.len()
            &&& text.subrange(restart_at(p), stop_at(p)) == restart_label()
            &&& text.subrange(stop_at(p), logs_at(p)) == stop_label(p)
            &&& text.subrange(logs_at(p), text.len() as int) == logs_label()
            &&& first_hit(hits, (top + i) as u16) matches Some(h) && {
                &&& h.process_index == idx
                &&& (click_effect(h, x) == Effect::Restart <==> shows_label(
                    x,
                    left,
                    width,
                    restart_at(p),
                    restart_label().len() as int,
                ))
                &&& (click_effect(h, x) == Effect::ToggleStartStop <==> shows_label(
                    x,
                    left,
                    width,
                    stop_at(p),
                    stop_label(p).len() as int,
                ))
                &&& (click_effect(h, x) == Effect::Logs <==> shows_label(
                    x,
                    left,
                    width,
                    logs_at(p),
                    logs_label().len() as int,
                ))
            }
            &&& position_of(fv, idx) matches Some(q) && app.with_selected(q as usize).selected_spec()
                == Some(idx)
        }),
{
    let ps = pm2_views(app.pm2_processes@);
    let fv = app.filtered_view();
    let sel = app.selected_spec();
    app.lemma_filtered_view();
    lemma_drawn_row_hit(ps, fv, sel, left, top, width, height, i);
    let idx = panel_rows(ps, fv)[i]->0;
    let p = ps[idx as int];
    lemma_row_labels(p, sel == Some(idx));
    lemma_button_click(p, idx, (top + i) as u16, left, width, x);
    lemma_position_of(fv, idx);
    let q = position_of(fv, idx)->0;
    assert(app.pm2_processes@.len() == app.pm2_processes.len());
    assert(app.with_selected(q as usize).filtered_view() == fv);
}

fn group_exec(ps: &Vec<Pm2Process>, order: &Vec<usize>, online: bool) -> (r: Vec<usize>)
    requires
        forall|k: int| 0 <= k < order@.len() ==> (#[trigger] order@[k]) < ps@.len(),
    ensures
        r@ == group(pm2_views(ps@), order@, online),
{
    let online_text = "online".to_owned();
    let mut r: Vec<usize> = Vec::new();
    let mut i: usize = 0;
    assert(order@.take(0) =~= Seq::<usize>::empty());
    while i < order.len()
        invariant
            i <= order.len(),
            online_text@ == "online"@,
            forall|k: int| 0 <= k < order@.len() ==> (#[trigger] order@[k]) < ps@.len(),
            r@ == group(pm2_views(ps@), order@.take(i as int), online),
        decreases order.len() - i,
    {
        assert(order@.take(i + 1).drop_last() =~= order@.take(i as int));
        assert(order@.take(i + 1).last() == order@[i as int]);
        let idx = order[i];
        assert(idx < ps@.len());
        assert(pm2_views(ps@)[idx as int] == ps@[idx as int]@);
        let is_on = ps[idx].status == online_text;
        if is_on == online {
            r.push(idx);
        }
        i += 1;
    }
    assert(order@.take(order.len() as int) =~= order@);
    r
}

impl App {
    /// Lays out the process panel: its lines, and, as the clickable rows, where
    /// those rows lie when the panel is drawn from its first inner cell (`left`,
    /// `top`), `width` columns wide and `height` lines high, one line of text to a
    /// screen line.
    pub fn process_lines(&mut self, left: u16, top: u16, width: u16, height: u16) -> (r: Vec<PanelLine>)
        requires
            left + width <= u16::MAX,
            top + height <= u16::MAX,
        ensures
            line_views(r@) == process_panel(
                pm2_views(old(self).pm2_processes@),
                old(self).filtered_view(),
                old(self).selected_spec(),
            ),
            final(self).row_hits@ == panel_hits(
                pm2_views(old(self).pm2_processes@),
                old(self).filtered_view(),
                left,
                top,
                width,
                height,
            ),
            *final(self) == (App { row_hits: final(self).row_hits, ..*old(self) }),
    {
        let filtered = self.filtered_indices();
        let sel = self.selected_process_index();
        proof {
            self.lemma_filtered_view();
        }
        let running = group_exec(&self.pm2_processes, &filtered, true);
        let stopped = group_exec(&self.pm2_processes, &filtered, false);
        let ghost pv = pm2_views(self.pm2_processes@);
        proof {
            lemma_group_bounds(pv, filtered@, true);
            lemma_group_bounds(pv, filtered@, false);
            lemma_group_partition(pv, filtered@);
        }
        let ghost order = filtered@;
        let ghost rl = row_lines(pv, running@, sel);
        let ghost sl = row_lines(pv, stopped@, sel);
        let ghost rhs = row_hits_for(pv, running@, 1, left, top, width, height);
        let mut lines: Vec<PanelLine> = Vec::new();
        let mut hits: Vec<RowHit> = Vec::new();
        let mut h: Vec<char> = Vec::new();
        push_str(&mut h, "🔥 RUNNING");
        push_str(&mut h, " (");
        push_decimal(&mut h, running.len() as u64);
        push_str(&mut h, ")");
        assert(h@ =~= header_text("🔥 RUNNING"@, running@.len()));
        lines.push(PanelLine { text: string_of(&h), style: LineStyle::RunningHeader });
        let mut k: usize = 0;
        while k < running.len()
            invariant
                k <= running@.len(),
                running@.len() + stopped@.len() == order.len() <= pv.len(),
                pv == pm2_views(self.pm2_processes@),
                forall|j: int| 0 <= j < running@.len() ==> order.contains(#[trigger] running@[j]),
                forall|j: int| 0 <= j < order.len() ==> (#[trigger] order[j]) < pv.len(),
                left + width <= u16::MAX,
                top + height <= u16::MAX,
                rl == row_lines(pv, running@, sel),
                rhs == row_hits_for(pv, running@, 1, left, top, width, height),
                line_views(lines@) == seq![LineView { text: header_text("🔥 RUNNING"@, running@.len()), style: LineStyle::RunningHeader }] + rl.take(k as int),
                hits@ == rhs.take(shown(k as nat, 1, height) as int),
            decreases running.len() - k,
        {
            let idx = running[k];
            assert(order.contains(idx));
            let is_sel = match sel {
                Some(sidx) => sidx == idx,
                None => false,
            };
            assert(pv[idx as int] == self.pm2_processes@[idx as int]@);
            let text = process_row(&self.pm2_processes[idx], is_sel);
            let style = if is_sel { LineStyle::Selected } else { LineStyle::Plain };
            let ghost before = line_views(lines@);
            lines.push(PanelLine { text, style });
            assert(line_views(lines@) =~= before.push(rl[k as int]));
            if k + 1 < height as usize {
                let y: u16 = top + (k + 1) as u16;
                hits.push(row_hit(&self.pm2_processes[idx], idx, y, left, width));
            }
            k += 1;
            assert(line_views(lines@) =~= seq![LineView { text: header_text("🔥 RUNNING"@, running@.len()), style: LineStyle::RunningHeader }] + rl.take(k as int));
            assert(hits@ =~= rhs.take(shown(k as nat, 1, height) as int));
        }
        assert(rl.take(running@.len() as int) =~= rl);
        assert(rhs.take(shown(running@.len(), 1, height) as int) =~= rhs);
        let ghost head = line_views(lines@);
        lines.push(PanelLine { text: String::new(), style: LineStyle::Plain });
        let mut h2: Vec<char> = Vec::new();
        push_str(&mut h2, "😴 STOPPED");
        push_str(&mut h2, " (");
        push_decimal(&mut h2, stopped.len() as u64);
        push_str(&mut h2, ")");
        assert(h2@ =~= header_text("😴 STOPPED"@, stopped@.len()));
        lines.push(PanelLine { text: string_of(&h2), style: LineStyle::StoppedHeader });
        let ghost mid = line_views(lines@);
        assert(mid =~= head + seq![LineView { text: Seq::empty(), style: LineStyle::Plain }]
            + seq![LineView { text: header_text("😴 STOPPED"@, stopped@.len()), style: LineStyle::StoppedHeader }]);
        let ghost run_hits = hits@;
        let ghost first: int = running@.len() + 3int;
        let ghost shs = row_hits_for(pv, stopped@, first, left, top, width, height);
        let h16 = height as usize;
        let room: usize = if running.len() < h16 { h16 - running.len() } else { 0 };
        let mut k: usize = 0;
        while k < stopped.len()
            invariant
                k <= stopped@.len(),
                running@.len() + stopped@.len() == order.len() <= pv.len(),
                pv == pm2_views(self.pm2_processes@),
                forall|j: int| 0 <= j < stopped@.len() ==> order.contains(#[trigger] stopped@[j]),
                forall|j: int| 0 <= j < order.len() ==> (#[trigger] order[j]) < pv.len(),
                left + width <= u16::MAX,
                top + height <= u16::MAX,
                first == running@.len() + 3,
                room == if running@.len() < height { height - running@.len() } else { 0 },
                sl == row_lines(pv, stopped@, sel),
                shs == row_hits_for(pv, stopped@, first, left, top, width, height),
                line_views(lines@) == mid + sl.take(k as int),
                hits@ == run_hits + shs.take(shown(k as nat, first, height) as int),
            decreases stopped.len() - k,
        {
            let idx = stopped[k];
            assert(order.contains(idx));
            let is_sel = match sel {
                Some(sidx) => sidx == idx,
                None => false,
            };
            assert(pv[idx as int] == self.pm2_processes@[idx as int]@);
            let text = process_row(&self.pm2_processes[idx], is_sel);
            let style = if is_sel { LineStyle::Selected } else { LineStyle::Plain };
            let ghost before = line_views(lines@);
            lines.push(PanelLine { text, style });
            assert(line_views(lines@) =~= before.push(sl[k as int]));
            if k < room && room - k > 3 {
                let y: u16 = top + (running.len() + 3 + k) as u16;
                hits.push(row_hit(&self.pm2_processes[idx], idx, y, left, width));
            }
            k += 1;
            assert(line_views(lines@) =~= mid + sl.take(k as int));
            assert(hits@ =~= run_hits + shs.take(shown(k as nat, first, height) as int));
        }
        assert(sl.take(stopped@.len() as int) =~= sl);
        assert(shs.take(shown(stopped@.len(), first, height) as int) =~= shs);
        assert(line_views(lines@) =~= process_panel(pv, order, sel));
        assert(hits@ =~= panel_hits(pv, order, left, top, width, height));
        self.row_hits = hits;
        lines
    }
}


/// The line of a Caddy site: its label, port and root.
pub open spec fn site_line(c: CaddyView) -> Seq<char> {
    "• "@ + c.label + " "@ + port_text(c.port) + " -> "@ + c.root
}

/// `parts` joined by `sep`.
pub open spec fn join(parts: Seq<Seq<char>>, sep: Seq<char>) -> Seq<char>
    decreases parts.len(),
{
    if parts.len() == 0 {
        Seq::empty()
    } else if parts.len() == 1 {
        parts[0]
    } else {
        join(parts.drop_last(), sep) + sep + parts.last()
    }
}

/// The line of a conflict: its port, its owners, and whether it was found open.
pub open spec fn conflict_line(c: ConflictView) -> Seq<char> {
    "• :"@ + decimal(c.port as nat) + " -> "@ + join(c.owners, " vs "@) + (if c.is_open {
        " [open]"@
    } else {
        " [closed]"@
    })
}

/// The first `n` elements of `s`, or all of them where there are fewer.
pub open spec fn first_n<A>(s: Seq<A>, n: nat) -> Seq<A> {
    if s.len() <= n {
        s
    } else {
        s.take(n as int)
    }
}

/// A plain line.
pub open spec fn plain(text: Seq<char>) -> LineView {
    LineView { text: text, style: LineStyle::Plain }
}

/// The lower panel: up to four sites under their header, a blank line, then up
/// to four conflicts under theirs, or `none`.
pub open spec fn lower_panel(sites: Seq<CaddyView>, conflicts: Seq<ConflictView>) -> Seq<LineView> {
    seq![LineView { text: "🌐 Caddy Static Roots"@, style: LineStyle::SitesHeader }]
        + first_n(sites, 4).map_values(|c: CaddyView| plain(site_line(c)))
        + seq![plain(Seq::empty())]
        + seq![LineView { text: "⚠️ PORT CONFLICTS"@, style: LineStyle::ConflictsHeader }]
        + if conflicts.len() == 0 {
            seq![plain("• none"@)]
        } else {
            first_n(conflicts, 4).map_values(|c: ConflictView| plain(conflict_line(c)))
        }
}

fn site_line_exec(c: &CaddySite) -> (r: String)
    ensures
        r@ == site_line(c@),
{
    let mut v: Vec<char> = Vec::new();
    push_str(&mut v, "• ");
    let l = chars_of_string(&c.label);
    push_all(&mut v, &l);
    push_str(&mut v, " ");
    let p = port_chars(c.port);
    push_all(&mut v, &p);
    push_str(&mut v, " -> ");
    let r = chars_of_string(&c.root);
    push_all(&mut v, &r);
    string_of(&v)
}

fn conflict_line_exec(c: &PortConflict) -> (r: String)
    ensures
        r@ == conflict_line(c@),
{
    let mut v: Vec<char> = Vec::new();
    push_str(&mut v, "• :");
    push_decimal(&mut v, c.port as u64);
    push_str(&mut v, " -> ");
    let ghost start = v@;
    let mut i: usize = 0;
    while i < c.owners.len()
        invariant
            i <= c.owners@.len(),
            v@ == start + join(texts(c.owners@).take(i as int), " vs "@),
        decreases c.owners.len() - i,
    {
        let ghost t = texts(c.owners@);
        assert(t.take(i + 1).drop_last() =~= t.take(i as int));
        assert(t.take(i + 1).last() == c.owners@[i as int]@);
        if i > 0 {
            push_str(&mut v, " vs ");
        } else {
            assert(t.take(0).len() == 0);
        }
        let o = chars_of_string(&c.owners[i]);
        push_all(&mut v, &o);
        i += 1;
        assert(v@ =~= start + join(t.take(i as int), " vs "@));
    }
    assert(texts(c.owners@).take(i as int) =~= texts(c.owners@));
    if c.is_open {
        push_str(&mut v, " [open]");
    } else {
        push_str(&mut v, " [closed]");
    }
    string_of(&v)
}

impl App {
    /// The lines of the lower panel: sites and conflicts.
    pub fn lower_lines(&self) -> (r: Vec<PanelLine>)
        ensures
            line_views(r@) == lower_panel(caddy_views(self.caddy_sites@), conflict_views(self.conflicts@)),
    {
        let ghost cv = caddy_views(self.caddy_sites@);
        let ghost fv = conflict_views(self.conflicts@);
        let mut lines: Vec<PanelLine> = Vec::new();
        lines.push(PanelLine { text: "🌐 Caddy Static Roots".to_owned(), style: LineStyle::SitesHeader });
        let ghost l0 = line_views(lines@);
        let ns: usize = if self.caddy_sites.len() < 4 { self.caddy_sites.len() } else { 4 };
        let ghost sl = first_n(cv, 4).map_values(|c: CaddyView| plain(site_line(c)));
        assert(sl.len() == ns);
        let mut i: usize = 0;
        while i < ns
            invariant
                i <= ns <= self.caddy_sites@.len(),
                ns == sl.len(),
                cv == caddy_views(self.caddy_sites@),
                sl == first_n(cv, 4).map_values(|c: CaddyView| plain(site_line(c))),
                line_views(lines@) == l0 + sl.take(i as int),
            decreases ns - i,
        {
            let text = site_line_exec(&self.caddy_sites[i]);
            let ghost before = line_views(lines@);
            lines.push(PanelLine { text, style: LineStyle::Plain });
            assert(sl[i as int] == plain(site_line(self.caddy_sites@[i as int]@)));
            assert(line_views(lines@) =~= before.push(sl[i as int]));
            i += 1;
            assert(line_views(lines@) =~= l0 + sl.take(i as int));
        }
        assert(sl.take(ns as int) =~= sl);
        lines.push(PanelLine { text: String::new(), style: LineStyle::Plain });
        lines.push(PanelLine { text: "⚠️ PORT CONFLICTS".to_owned(), style: LineStyle::ConflictsHeader });
        let ghost l1 = line_views(lines@);
        assert(l1 =~= l0 + sl + seq![plain(Seq::empty())] + seq![LineView { text: "⚠️ PORT CONFLICTS"@, style: LineStyle::ConflictsHeader }]);
        if self.conflicts.len() == 0 {
            lines.push(PanelLine { text: "• none".to_owned(), style: LineStyle::Plain });
            assert(fv.len() == 0);
            assert(line_views(lines@) =~= l1 + seq![plain("• none"@)]);
            assert(line_views(lines@) =~= lower_panel(cv, fv));
        } else {
            let nc: usize = if self.conflicts.len() < 4 { self.conflicts.len() } else { 4 };
            let ghost fl = first_n(fv, 4).map_values(|c: ConflictView| plain(conflict_line(c)));
            assert(fl.len() == nc);
            let mut j: usize = 0;
            while j < nc
                invariant
                    j <= nc <= self.conflicts@.len(),
                    nc == fl.len(),
                    fv == conflict_views(self.conflicts@),
                    fl == first_n(fv, 4).map_values(|c: ConflictView| plain(conflict_line(c))),
                    line_views(lines@) == l1 + fl.take(j as int),
                decreases nc - j,
            {
                let text = conflict_line_exec(&self.conflicts[j]);
                let ghost before = line_views(lines@);
                lines.push(PanelLine { text, style: LineStyle::Plain });
                assert(fl[j as int] == plain(conflict_line(self.conflicts@[j as int]@)));
                assert(line_views(lines@) =~= before.push(fl[j as int]));
                j += 1;
                assert(line_views(lines@) =~= l1 + fl.take(j as int));
            }
            assert(fl.take(nc as int) =~= fl);
            assert(line_views(lines@) =~= lower_panel(cv, fv));
        }
        lines
    }

    /// The title of the filter box: whether the filter is being typed.
    pub fn filter_title(&self) -> (r: String)
        ensures
            r@ == (match self.input_mode {
                InputMode::Filtering => "Filter (typing…)"@,
                InputMode::Normal => "Filter (/ or f)"@,
            }),
    {
        match self.input_mode {
            InputMode::Filtering => "Filter (typing…)".to_owned(),
            InputMode::Normal => "Filter (/ or f)".to_owned(),
        }
    }

    /// The help line: the key bindings, then the status line.
    pub fn help_text(&self) -> (r: String)
        ensures
            r@ == "j/k:nav ↑/↓ | enter:browser | r:restart | s:stop/start | l:logs | q:quit || "@
                + self.status_message@,
    {
        let mut v: Vec<char> = Vec::new();
        push_str(&mut v, "j/k:nav ↑/↓ | enter:browser | r:restart | s:stop/start | l:logs | q:quit || ");
        let st = chars_of_string(&self.status_message);
        push_all(&mut v, &st);
        string_of(&v)
    }
}

} // verus!
