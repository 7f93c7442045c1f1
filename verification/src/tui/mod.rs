//! The interactive screen: key bindings, and what actions and background
//! reports do to the state.

pub mod events;
pub mod ui;

use vstd::prelude::*;

use crate::model::{
    first_pos, first_with_id, fresh_strike, lemma_first_pos, lemma_targets_live_and_shown, next_mode, sized, struck, struck_unselected,
    wrap64, AppState, AppView, Candidate,
};
use crate::scanner::ScanMsg;
use crate::text::{concat, pop_char, push_char};
use events::{Action, Mode};

verus! {

broadcast use vstd::string::group_string_axioms;

/// One directory handed to the background deleter: the candidate's stable
/// id (view positions shift as rows are struck out), its path and its size.
pub struct DeleteJob {
    pub id: usize,
    pub path: String,
    pub size: u64,
}

/// What the event loop does after an action.
pub enum Step {
    /// Keep going.
    Continue,
    /// Leave the screen.
    Quit,
    /// Start deleting these directories in the background.
    Delete(Vec<DeleteJob>),
    /// A dry run: report these directories as deleted without removing
    /// anything.
    Simulate(Vec<DeleteJob>),
}

/// The job for candidate `c`; an unknown size counts as 0.
pub open spec fn job_of(c: Candidate) -> DeleteJob {
    DeleteJob {
        id: c.id,
        path: c.path,
        size: match c.size {
            Some(s) => s,
            None => 0,
        },
    }
}

/// The jobs for the candidates at positions `pending`, in the order given,
/// skipping those already deleted and positions listed earlier.
pub open spec fn job_list(cands: Seq<Candidate>, pending: Seq<usize>) -> Seq<DeleteJob>
    decreases pending.len(),
{
    if pending.len() == 0 {
        Seq::empty()
    } else {
        let prev = job_list(cands, pending.drop_last());
        let c = cands[pending.last() as int];
        if c.deleted || pending.drop_last().contains(pending.last()) {
            prev
        } else {
            prev.push(job_of(c))
        }
    }
}

/// Whether the position `pending[k]` occurs before `k` in `pending`.
fn listed_before(pending: &Vec<usize>, k: usize) -> (r: bool)
    requires
        k < pending@.len(),
    ensures
        r == pending@.take(k as int).contains(pending@[k as int]),
{
    let x = pending[k];
    for j in 0..k
        invariant
            k < pending@.len(),
            x == pending@[k as int],
            forall|q: int| 0 <= q < j ==> pending@[q] != x,
    {
        if pending[j] == x {
            assert(pending@.take(k as int)[j as int] == x);
            return true;
        }
    }
    assert forall|q: int| 0 <= q < pending@.take(k as int).len() implies pending@.take(k as int)[q] != x by {
        assert(pending@.take(k as int)[q] == pending@[q]);
    }
    false
}

/// The cursor after moving down one row from `cursor` in a view of `n` rows.
pub open spec fn cursor_down(cursor: usize, n: nat) -> usize {
    if n == 0 {
        0
    } else if cursor + 1 >= n {
        (n - 1) as usize
    } else {
        (cursor + 1) as usize
    }
}

/// The text shown when a delete request finds nothing to delete.
pub open spec fn nothing_to_delete() -> Seq<char> {
    "Nothing to delete."@
}

/// What a request to delete the focused row acts on: that row, unless no row
/// is focused or it is already deleted.
pub open spec fn focused_target(s: AppState) -> Seq<usize> {
    match s.focus() {
        Some(i) => if !s.candidates@[i as int].deleted {
            seq![i]
        } else {
            Seq::empty()
        },
        None => Seq::empty(),
    }
}

/// The state after `action` on state `a` (its mode `m`, pending targets `p`),
/// as far as `handle` changes it: `a1`, `m1`, `p1`.
pub open spec fn handled(
    action: Action,
    a: AppView,
    a_state: AppState,
    m: Mode,
    p: Seq<usize>,
    a1: AppView,
    m1: Mode,
    p1: Seq<usize>,
) -> bool {
    match action {
        Action::Quit | Action::Nothing => a1 == a && m1 == m && p1 == p,
        Action::Up => a1 == AppView { cursor: if a.cursor > 0 { (a.cursor - 1) as usize } else { 0 }, ..a }
            && m1 == m && p1 == p,
        Action::Down => a1 == AppView { cursor: cursor_down(a.cursor, a_state.view_seq().len()), ..a }
            && m1 == m && p1 == p,
        Action::Top => a1 == AppView { cursor: 0, ..a } && m1 == m && p1 == p,
        Action::Bottom => a1 == AppView {
            cursor: if a_state.view_seq().len() > 0 { (a_state.view_seq().len() - 1) as usize } else { 0 },
            ..a
        } && m1 == m && p1 == p,
        Action::ToggleSelect => m1 == m && p1 == p && match a_state.focus() {
            Some(i) => if !a.candidates[i as int].deleted {
                a1 == AppView {
                    candidates: a.candidates.update(
                        i as int,
                        Candidate { selected: !a.candidates[i as int].selected, ..a.candidates[i as int] },
                    ),
                    ..a
                }
            } else {
                a1 == a
            },
            None => a1 == a,
        },
        Action::SelectAll => m1 == m && p1 == p && a1 == AppView { candidates: a1.candidates, ..a }
            && a1.candidates.len() == a.candidates.len() && forall|k: int|
            0 <= k < a.candidates.len() ==> #[trigger] a1.candidates[k] == (if a_state.shows(k)
                && !a.candidates[k].deleted {
                Candidate { selected: true, ..a.candidates[k] }
            } else {
                a.candidates[k]
            }),
        Action::ClearSelection => m1 == m && p1 == p && a1 == AppView { candidates: a1.candidates, ..a }
            && a1.candidates.len() == a.candidates.len() && forall|k: int|
            0 <= k < a.candidates.len() ==> #[trigger] a1.candidates[k] == Candidate {
                selected: false,
                ..a.candidates[k]
            },
        Action::RequestDelete => a1 == a && if a.deleting || a_state.targets().len() == 0 {
            m1 == m && p1 == p
        } else {
            m1 == Mode::Confirm && p1 == a_state.targets()
        },
        Action::DeleteFocused => a1 == a && if a.deleting || focused_target(a_state).len() == 0 {
            m1 == m && p1 == p
        } else {
            m1 == Mode::Confirm && p1 == focused_target(a_state)
        },
        Action::ConfirmYes => a1 == AppView { deleting: true, ..a } && m1 == Mode::Normal && p1.len() == 0,
        Action::ConfirmNo => a1 == a && m1 == Mode::Normal && p1.len() == 0,
        Action::CycleSort => a1 == AppView { sort: next_mode(a.sort), ..a } && m1 == m && p1 == p,
        Action::StartFilter => a1 == a && m1 == Mode::Filter && p1 == p,
        Action::FilterInput(c) => a1 == AppView { filter: a.filter.push(c), cursor: 0, ..a } && m1 == m
            && p1 == p,
        Action::FilterBackspace => a1 == AppView {
            filter: if a.filter.len() > 0 { a.filter.drop_last() } else { a.filter },
            ..a
        } && m1 == m && p1 == p,
        Action::FilterDone => a1 == a && m1 == Mode::Normal && p1 == p,
        Action::FilterClear => a1 == AppView { filter: Seq::empty(), ..a } && m1 == Mode::Normal && p1 == p,
        Action::ToggleHelp => a1 == a && m1 == (if m == Mode::Help { Mode::Normal } else { Mode::Help })
            && p1 == p,
    }
}

/// Applies an action and returns what the event loop should do next.
///
/// A key press never removes anything by itself: rows become deleted, and
/// bytes reclaimed, only through the reports of a confirmed batch. Only a
/// confirmation asks for removals, and in a dry run it asks for none. No
/// action selects a row that is already deleted.
pub fn handle(
    action: Action,
    app: &mut AppState,
    mode: &mut Mode,
    status: &mut Option<String>,
    pending: &mut Vec<usize>,
) -> (r: Step)
    requires
        action is Down ==> old(app).cursor < usize::MAX,
        action is ConfirmYes ==> forall|k: int|
            0 <= k < old(pending)@.len() ==> #[trigger] old(pending)@[k] < old(app).candidates@.len(),
    ensures
        handled(action, old(app)@, *old(app), *old(mode), old(pending)@, final(app)@, *final(mode), final(pending)@),
        r is Quit <==> action is Quit,
        r is Delete <==> action is ConfirmYes && !old(app).dry_run,
        r is Simulate <==> action is ConfirmYes && old(app).dry_run,
        r matches Step::Delete(jobs) ==> jobs@ == job_list(old(app).candidates@, old(pending)@),
        r matches Step::Simulate(jobs) ==> jobs@ == job_list(old(app).candidates@, old(pending)@),
        *final(status) is Some <==> ((action is RequestDelete && !old(app).deleting && old(app).targets().len() == 0)
            || (action is DeleteFocused && !old(app).deleting && focused_target(*old(app)).len() == 0)),
        *final(status) matches Some(s) ==> s@ == nothing_to_delete(),
        final(app).candidates@.len() == old(app).candidates@.len(),
        forall|k: int|
            0 <= k < old(app).candidates@.len() ==> #[trigger] final(app).candidates@[k].deleted
                == old(app).candidates@[k].deleted,
        final(app).reclaimed == old(app).reclaimed,
        struck_unselected(old(app).candidates@) ==> struck_unselected(final(app).candidates@),
{
    let ghost before = *app;
    let ghost m0 = *mode;
    let ghost p0 = pending@;
    let r = act(action, app, mode, status, pending);
    proof {
        lemma_actions_never_delete(action, before@, before, m0, p0, app@, *mode, pending@);
    }
    r
}

/// Applies an action: what [`handle`] does, without the laws it keeps.
fn act(
    action: Action,
    app: &mut AppState,
    mode: &mut Mode,
    status: &mut Option<String>,
    pending: &mut Vec<usize>,
) -> (r: Step)
    requires
        action is Down ==> old(app).cursor < usize::MAX,
        action is ConfirmYes ==> forall|k: int|
            0 <= k < old(pending)@.len() ==> #[trigger] old(pending)@[k] < old(app).candidates@.len(),
    ensures
        handled(action, old(app)@, *old(app), *old(mode), old(pending)@, final(app)@, *final(mode), final(pending)@),
        r is Quit <==> action is Quit,
        r is Delete <==> action is ConfirmYes && !old(app).dry_run,
        r is Simulate <==> action is ConfirmYes && old(app).dry_run,
        r matches Step::Delete(jobs) ==> jobs@ == job_list(old(app).candidates@, old(pending)@),
        r matches Step::Simulate(jobs) ==> jobs@ == job_list(old(app).candidates@, old(pending)@),
        *final(status) is Some <==> ((action is RequestDelete && !old(app).deleting && old(app).targets().len() == 0)
            || (action is DeleteFocused && !old(app).deleting && focused_target(*old(app)).len() == 0)),
        *final(status) matches Some(s) ==> s@ == nothing_to_delete(),
{
    *status = None;
    match action {
        Action::Quit => {
            return Step::Quit;
        },
        Action::Up => {
            app.cursor = if app.cursor > 0 { app.cursor - 1 } else { 0 };
        },
        Action::Down => {
            app.cursor = app.cursor + 1;
            app.clamp_cursor();
        },
        Action::Top => {
            app.cursor = 0;
        },
        Action::Bottom => {
            let n = app.found_count();
            app.cursor = if n > 0 { n - 1 } else { 0 };
        },
        Action::ToggleSelect => {
            if let Some(i) = app.focused_index() {
                if !app.get(i).deleted {
                    let sel = app.get(i).selected;
                    app.candidate_mut(i).selected = !sel;
                }
            }
        },
        Action::SelectAll => {
            app.select_all_in_view();
        },
        Action::ClearSelection => {
            app.clear_selection();
        },
        Action::RequestDelete => {
            if !app.deleting {
                let targets = app.deletion_targets();
                if targets.len() == 0 {
                    *status = Some("Nothing to delete.".to_string());
                } else {
                    *pending = targets;
                    *mode = Mode::Confirm;
                }
            }
        },
        Action::DeleteFocused => {
            if !app.deleting {
                match app.focused_index() {
                    Some(i) => {
                        if app.get(i).deleted {
                            *status = Some("Nothing to delete.".to_string());
                        } else {
                            *pending = vec![i];
                            *mode = Mode::Confirm;
                            assert(pending@ =~= focused_target(*old(app)));
                        }
                    },
                    None => {
                        *status = Some("Nothing to delete.".to_string());
                    },
                }
            }
        },
        Action::ConfirmYes => {
            let jobs = begin_deletion(app, pending);
            *pending = Vec::new();
            *mode = Mode::Normal;
            if app.dry_run {
                return Step::Simulate(jobs);
            }
            return Step::Delete(jobs);
        },
        Action::ConfirmNo => {
            *pending = Vec::new();
            *mode = Mode::Normal;
        },
        Action::CycleSort => {
            app.sort = app.sort.next();
        },
        Action::StartFilter => {
            *mode = Mode::Filter;
        },
        Action::FilterInput(c) => {
            push_char(&mut app.filter, c);
            app.cursor = 0;
        },
        Action::FilterBackspace => {
            pop_char(&mut app.filter);
        },
        Action::FilterDone => {
            *mode = Mode::Normal;
        },
        Action::FilterClear => {
            app.filter = String::new();
            *mode = Mode::Normal;
        },
        Action::ToggleHelp => {
            *mode = if *mode == Mode::Help {
                Mode::Normal
            } else {
                Mode::Help
            };
        },
        Action::Nothing => {},
    }
    Step::Continue
}

/// Hands the pending candidates that are not yet deleted to the background
/// deleter: marks a batch as running and returns its jobs.
fn begin_deletion(app: &mut AppState, pending: &Vec<usize>) -> (jobs: Vec<DeleteJob>)
    requires
        forall|k: int| 0 <= k < pending@.len() ==> #[trigger] pending@[k] < old(app).candidates@.len(),
    ensures
        jobs@ == job_list(old(app).candidates@, pending@),
        final(app)@ == (AppView { deleting: true, ..old(app)@ }),
{
    let mut jobs: Vec<DeleteJob> = Vec::new();
    let n = pending.len();
    assert(pending@.take(0) =~= Seq::<usize>::empty());
    for k in 0..n
        invariant
            n == pending@.len(),
            app == old(app),
            forall|j: int| 0 <= j < pending@.len() ==> #[trigger] pending@[j] < app.candidates@.len(),
            jobs@ == job_list(app.candidates@, pending@.take(k as int)),
    {
        let idx = pending[k];
        proof {
            assert(pending@.take(k + 1).drop_last() =~= pending@.take(k as int));
            assert(pending@.take(k + 1).last() == idx);
        }
        let repeat = listed_before(pending, k);
        proof {
            assert(pending@.take(k + 1).drop_last() =~= pending@.take(k as int));
        }
        let c = app.get(idx);
        if !c.deleted && !repeat {
            let size = match c.size {
                Some(s) => s,
                None => 0,
            };
            jobs.push(DeleteJob { id: c.id, path: c.path.clone(), size });
        }
    }
    assert(pending@.take(n as int) =~= pending@);
    app.deleting = true;
    jobs
}

/// The state after a report `msg` from the background threads reached state
/// `a` with status `s`: `a1` and `s1`.
pub open spec fn applied(msg: ScanMsg, a: AppView, s: Option<String>, a1: AppView, s1: Option<String>) -> bool {
    match msg {
        ScanMsg::Found(c) => a1 == AppView { candidates: a.candidates.push(c), ..a } && s1 == s,
        ScanMsg::Sized { id, bytes, mtime } => a1 == AppView {
            candidates: sized(a.candidates, id, bytes, mtime),
            ..a
        } && s1 == s,
        ScanMsg::ScanDone => a1 == AppView { scanning: false, ..a } && s1 == s,
        ScanMsg::SizingDone => a1 == AppView { sizing: false, ..a } && s1 == s,
        ScanMsg::Deleted { id, bytes } => a1 == AppView {
            candidates: struck(a.candidates, id),
            reclaimed: if fresh_strike(a.candidates, id) {
                wrap64(a.reclaimed + bytes) as u64
            } else {
                a.reclaimed
            },
            ..a
        } && s1 == s,
        ScanMsg::DeleteFailed { id, error } => a1 == a && s1 == (if s is None {
            Some(error)
        } else {
            s
        }),
        ScanMsg::DeleteBatchDone => a1 == AppView { deleting: false, ..a } && s1 == s,
    }
}

/// Applies one report from the scan, sizing or deletion threads. A failed
/// deletion surfaces its error unless one is already shown, and leaves the
/// row so it can be retried. A deletion adds its bytes to the reclaimed
/// total only when it strikes out a row not deleted before; the total wraps
/// around past `u64::MAX` like the `u64` addition it models.
pub fn apply(app: &mut AppState, msg: ScanMsg, status: &mut Option<String>)
    ensures
        applied(msg, old(app)@, *old(status), final(app)@, *final(status)),
        struck_unselected(old(app).candidates@) && (msg matches ScanMsg::Found(c) ==> !(c.deleted && c.selected))
            ==> struck_unselected(final(app).candidates@),
{
    let ghost m0 = msg;
    let ghost a0 = app@;
    let ghost s0 = *status;
    match msg {
        ScanMsg::Found(c) => app.push(c),
        ScanMsg::Sized { id, bytes, mtime } => app.set_size(id, bytes, mtime),
        ScanMsg::ScanDone => app.scanning = false,
        ScanMsg::SizingDone => app.sizing = false,
        ScanMsg::Deleted { id, bytes } => {
            if app.strike(id) {
                app.reclaimed = app.reclaimed.wrapping_add(bytes);
            }
        },
        ScanMsg::DeleteFailed { id: _, error } => {
            if status.is_none() {
                *status = Some(error);
            }
        },
        ScanMsg::DeleteBatchDone => app.deleting = false,
    }
    proof {
        lemma_reports_keep_rows(m0, a0, s0, app@, *status);
    }
}

/// What the deleter reports once it is done with `job`: the job's candidate
/// is deleted, reclaiming the job's size, or removing it failed with the
/// error `removal` gave, shown after the job's path.
pub fn job_report(job: DeleteJob, removal: Result<(), String>) -> (m: ScanMsg)
    ensures
        match removal {
            Ok(()) => m == ScanMsg::Deleted { id: job.id, bytes: job.size },
            Err(e) => m matches ScanMsg::DeleteFailed { id, error } && id == job.id && error@ == job.path@
                + ": "@ + e@,
        },
{
    match removal {
        Ok(()) => ScanMsg::Deleted { id: job.id, bytes: job.size },
        Err(e) => ScanMsg::DeleteFailed { id: job.id, error: concat(concat(job.path, ": "), e.as_str()) },
    }
}

/// Every job handed to the deleter is for a pending candidate that is not
/// deleted yet, with that candidate's id, path and size.
pub proof fn lemma_jobs_are_live(cands: Seq<Candidate>, pending: Seq<usize>)
    ensures
        forall|j: int|
            0 <= j < job_list(cands, pending).len() ==> exists|q: int|
                0 <= q < pending.len() && !cands[pending[q] as int].deleted && #[trigger] job_list(cands, pending)[j]
                    == job_of(cands[pending[q] as int]),
    decreases pending.len(),
{
    if pending.len() > 0 {
        let init = pending.drop_last();
        lemma_jobs_are_live(cands, init);
        let jl = job_list(cands, pending);
        let j0 = job_list(cands, init);
        assert forall|j: int| 0 <= j < jl.len() implies exists|q: int|
            0 <= q < pending.len() && !cands[pending[q] as int].deleted && #[trigger] jl[j] == job_of(cands[pending[q] as int]) by {
            if j < j0.len() {
                assert(jl[j] == j0[j]);
                let q = choose|q: int| 0 <= q < init.len() && !cands[init[q] as int].deleted && #[trigger] j0[j] == job_of(cands[init[q] as int]);
                assert(pending[q] == init[q]);
            } else {
                assert(pending[pending.len() - 1] == pending.last());
            }
        }
    }
}

/// A batch never holds two jobs for one row: with candidate ids that are
/// all different, the jobs' ids are all different, so no row is removed or
/// reclaimed twice.
pub proof fn lemma_jobs_distinct(cands: Seq<Candidate>, pending: Seq<usize>)
    requires
        forall|i: int, j: int| 0 <= i < cands.len() && 0 <= j < cands.len() && i != j ==> #[trigger] cands[i].id
            != #[trigger] cands[j].id,
        forall|k: int| 0 <= k < pending.len() ==> #[trigger] pending[k] < cands.len(),
    ensures
        forall|a: int, b: int|
            0 <= a < job_list(cands, pending).len() && 0 <= b < job_list(cands, pending).len() && a != b
                ==> #[trigger] job_list(cands, pending)[a].id != #[trigger] job_list(cands, pending)[b].id,
    decreases pending.len(),
{
    if pending.len() > 0 {
        let init = pending.drop_last();
        let last = pending.last();
        assert(last == pending[pending.len() - 1]);
        lemma_jobs_distinct(cands, init);
        lemma_jobs_are_live(cands, init);
        let jl = job_list(cands, pending);
        let j0 = job_list(cands, init);
        if !(cands[last as int].deleted || init.contains(last)) {
            assert forall|a: int, b: int| 0 <= a < jl.len() && 0 <= b < jl.len() && a != b implies #[trigger] jl[a].id
                != #[trigger] jl[b].id by {
                if a < j0.len() && b < j0.len() {
                    assert(jl[a] == j0[a] && jl[b] == j0[b]);
                } else {
                    let old_ix = if a < j0.len() { a } else { b };
                    assert(jl[old_ix] == j0[old_ix]);
                    let q = choose|q: int| 0 <= q < init.len() && !cands[init[q] as int].deleted
                        && #[trigger] j0[old_ix] == job_of(cands[init[q] as int]);
                    assert(init[q] == pending[q]);
                    assert(init[q] != last);
                    assert(cands[init[q] as int].id != cands[last as int].id);
                }
            }
        }
    }
}

/// The candidates, and the bytes added to the reclaimed total, after the
/// deleter reports each job of `jobs` as done, in order (a report adds its
/// bytes only when it strikes out a row not deleted yet, as [`apply`] does).
pub open spec fn after_reports(cands: Seq<Candidate>, jobs: Seq<DeleteJob>) -> (Seq<Candidate>, int)
    decreases jobs.len(),
{
    if jobs.len() == 0 {
        (cands, 0)
    } else {
        let prev = after_reports(cands, jobs.drop_last());
        let j = jobs.last();
        (struck(prev.0, j.id), prev.1 + if fresh_strike(prev.0, j.id) {
            j.size as int
        } else {
            0
        })
    }
}

/// Total size of `jobs`.
pub open spec fn jobs_bytes(jobs: Seq<DeleteJob>) -> int
    decreases jobs.len(),
{
    if jobs.len() == 0 {
        0
    } else {
        jobs_bytes(jobs.drop_last()) + jobs.last().size
    }
}

/// Position `k` occurs in `pending`.
pub open spec fn listed(pending: Seq<usize>, k: int) -> bool {
    exists|q: int| 0 <= q < pending.len() && pending[q] as int == k
}

/// With the ids all different, the first position with the id of the
/// candidate at `k` is `k`, in `c` as in any sequence with the same ids.
proof fn lemma_first_pos_of_distinct(cands: Seq<Candidate>, c: Seq<Candidate>, k: int)
    requires
        forall|i: int, j: int| 0 <= i < cands.len() && 0 <= j < cands.len() && i != j ==> #[trigger] cands[i].id
            != #[trigger] cands[j].id,
        c.len() == cands.len(),
        forall|i: int| 0 <= i < c.len() ==> #[trigger] c[i].id == cands[i].id,
        0 <= k < cands.len(),
    ensures
        first_pos(c, cands[k].id) == k,
{
    let id = cands[k].id;
    lemma_first_pos(c, id);
    assert(c[k].id == id);
    assert(first_with_id(c, id, k)) by {
        assert forall|j: int| 0 <= j < k implies #[trigger] c[j].id != id by {
            assert(c[j].id == cands[j].id);
        }
    }
    let fp = first_pos(c, id);
    if fp >= 0 {
        if fp < k {
            assert(c[fp].id == id);
        } else if fp > k {
            assert(c[k].id != id);
        }
    }
}

/// Reporting every job of a confirmed batch as done deletes exactly the
/// listed rows that were not deleted yet, each deselected, leaves every
/// other row as it was, and adds to the reclaimed total the size of each
/// such row once (an unknown size as 0), however often it is listed.
pub proof fn lemma_batch_reclaims_each_row_once(cands: Seq<Candidate>, pending: Seq<usize>)
    requires
        forall|i: int, j: int| 0 <= i < cands.len() && 0 <= j < cands.len() && i != j ==> #[trigger] cands[i].id
            != #[trigger] cands[j].id,
        forall|k: int| 0 <= k < pending.len() ==> #[trigger] pending[k] < cands.len(),
    ensures
        after_reports(cands, job_list(cands, pending)).0.len() == cands.len(),
        forall|k: int| 0 <= k < cands.len() ==> #[trigger] after_reports(cands, job_list(cands, pending)).0[k] == (if listed(
            pending,
            k,
        ) && !cands[k].deleted {
            Candidate { deleted: true, selected: false, ..cands[k] }
        } else {
            cands[k]
        }),
        after_reports(cands, job_list(cands, pending)).1 == jobs_bytes(job_list(cands, pending)),
    decreases pending.len(),
{
    if pending.len() > 0 {
        let init = pending.drop_last();
        let last = pending.last();
        assert(last == pending[pending.len() - 1]);
        lemma_batch_reclaims_each_row_once(cands, init);
        let j0 = job_list(cands, init);
        let c0 = after_reports(cands, j0).0;
        assert forall|k: int| 0 <= k < cands.len() implies listed(pending, k) == (listed(init, k) || last as int == k) by {
            if listed(pending, k) {
                let q = choose|q: int| 0 <= q < pending.len() && pending[q] as int == k;
                if q < init.len() {
                    assert(init[q] == pending[q]);
                }
            }
            if listed(init, k) {
                let q = choose|q: int| 0 <= q < init.len() && init[q] as int == k;
                assert(pending[q] == init[q]);
            }
        }
        if cands[last as int].deleted || init.contains(last) {
            if init.contains(last) {
                let q = choose|q: int| 0 <= q < init.len() && init[q] == last;
                assert(listed(init, last as int));
            }
        } else {
            let job = job_of(cands[last as int]);
            let jl = job_list(cands, pending);
            assert(jl == j0.push(job));
            assert(jl.drop_last() =~= j0);
            assert(!listed(init, last as int)) by {
                if listed(init, last as int) {
                    let q = choose|q: int| 0 <= q < init.len() && init[q] as int == last as int;
                    assert(init[q] == last);
                }
            }
            assert(c0[last as int] == cands[last as int]);
            assert forall|i: int| 0 <= i < c0.len() implies #[trigger] c0[i].id == cands[i].id by {}
            lemma_first_pos_of_distinct(cands, c0, last as int);
            assert(fresh_strike(c0, job.id));
            let c1 = after_reports(cands, jl).0;
            assert(c1 == struck(c0, job.id));
            assert forall|k: int| 0 <= k < cands.len() implies #[trigger] c1[k] == (if listed(pending, k)
                && !cands[k].deleted {
                Candidate { deleted: true, selected: false, ..cands[k] }
            } else {
                cands[k]
            }) by {
                if k != last as int {
                    assert(c1[k] == c0[k]);
                }
            }
        }
    }
}

/// Nothing a key press does removes a directory or changes what was
/// reclaimed: rows only become deleted through a confirmed batch's reports.
/// And no action leaves a deleted row selected.
pub proof fn lemma_actions_never_delete(
    action: Action,
    a: AppView,
    a_state: AppState,
    m: Mode,
    p: Seq<usize>,
    a1: AppView,
    m1: Mode,
    p1: Seq<usize>,
)
    requires
        a == a_state@,
        handled(action, a, a_state, m, p, a1, m1, p1),
    ensures
        a1.candidates.len() == a.candidates.len(),
        forall|k: int| 0 <= k < a.candidates.len() ==> #[trigger] a1.candidates[k].deleted == a.candidates[k].deleted,
        a1.reclaimed == a.reclaimed,
        struck_unselected(a.candidates) ==> struck_unselected(a1.candidates),
{
    match action {
        Action::ToggleSelect => {
            crate::model::lemma_view(&a_state);
            if let Some(i) = a_state.focus() {
                assert(a_state.view_seq().contains(i));
                if !a.candidates[i as int].deleted {
                    assert forall|k: int| 0 <= k < a.candidates.len() implies #[trigger] a1.candidates[k].deleted == a.candidates[k].deleted by {
                        if k == i as int {
                        }
                    }
                    if struck_unselected(a.candidates) {
                        assert forall|k: int| 0 <= k < a1.candidates.len() implies !(#[trigger] a1.candidates[k].deleted
                            && a1.candidates[k].selected) by {
                            if k != i as int {
                                assert(a1.candidates[k] == a.candidates[k]);
                            }
                        }
                    }
                }
            }
        },
        _ => {},
    }
}

/// The cursor keys move the cursor and nothing else: Down goes exactly one
/// row down unless the cursor is on the last row or past it (then it goes to
/// the last row), Up exactly one row up unless on the first row, Top to the
/// first row and Bottom to the last; with no rows shown Down and Bottom put
/// the cursor at 0.
pub proof fn lemma_cursor_moves(
    action: Action,
    a: AppView,
    s: AppState,
    m: Mode,
    p: Seq<usize>,
    a1: AppView,
    m1: Mode,
    p1: Seq<usize>,
)
    requires
        a == s@,
        handled(action, a, s, m, p, a1, m1, p1),
        action is Up || action is Down || action is Top || action is Bottom,
    ensures
        a1 == (AppView { cursor: a1.cursor, ..a }),
        m1 == m,
        p1 == p,
        action is Down && a.cursor + 1 < s.view_seq().len() ==> a1.cursor == a.cursor + 1,
        action is Down && s.view_seq().len() > 0 && a.cursor + 1 >= s.view_seq().len() ==> a1.cursor
            == s.view_seq().len() - 1,
        action is Down && s.view_seq().len() == 0 ==> a1.cursor == 0,
        action is Up && a.cursor > 0 ==> a1.cursor == a.cursor - 1,
        action is Up && a.cursor == 0 ==> a1.cursor == 0,
        action is Top ==> a1.cursor == 0,
        action is Bottom && s.view_seq().len() > 0 ==> a1.cursor == s.view_seq().len() - 1,
        action is Bottom && s.view_seq().len() == 0 ==> a1.cursor == 0,
{
    crate::model::lemma_view_len_bound(&s);
}

/// Toggling the selection twice on the same state gives back the state it
/// started from: selecting does not move the cursor or change which row is
/// focused, and the second toggle undoes the first.
pub proof fn lemma_toggle_twice_restores(
    a: AppView,
    s: AppState,
    m: Mode,
    p: Seq<usize>,
    a1: AppView,
    s1: AppState,
    m1: Mode,
    p1: Seq<usize>,
    a2: AppView,
    m2: Mode,
    p2: Seq<usize>,
)
    requires
        a == s@,
        a1 == s1@,
        handled(Action::ToggleSelect, a, s, m, p, a1, m1, p1),
        handled(Action::ToggleSelect, a1, s1, m1, p1, a2, m2, p2),
    ensures
        a2 == a,
        m2 == m,
        p2 == p,
{
    crate::model::lemma_view(&s);
    assert(s.candidates@.len() == s1.candidates@.len());
    crate::model::lemma_view_ignores_flags(&s, &s1);
    assert(s1.focus() == s.focus());
    if let Some(i) = s.focus() {
        assert(s.view_seq().contains(i));
        if !a.candidates[i as int].deleted {
            assert(a2.candidates =~= a.candidates);
        }
    }
}

/// Opening and then closing the help overlay returns to browsing.
pub proof fn lemma_help_toggles_back(
    a: AppView,
    s: AppState,
    p: Seq<usize>,
    a1: AppView,
    m1: Mode,
    p1: Seq<usize>,
    a2: AppView,
    s1: AppState,
    m2: Mode,
    p2: Seq<usize>,
)
    requires
        handled(Action::ToggleHelp, a, s, Mode::Normal, p, a1, m1, p1),
        handled(Action::ToggleHelp, a1, s1, m1, p1, a2, m2, p2),
    ensures
        m1 == Mode::Help,
        m2 == Mode::Normal,
        a2 == a,
        p2 == p,
{
}

/// Reports never drop rows: the list only grows, by one for each directory
/// found, and deleted rows stay in it, struck out. No report leaves a
/// deleted row selected, unless a directory is reported found already
/// deleted and selected.
pub proof fn lemma_reports_keep_rows(msg: ScanMsg, a: AppView, s: Option<String>, a1: AppView, s1: Option<String>)
    requires
        applied(msg, a, s, a1, s1),
    ensures
        a1.candidates.len() == a.candidates.len() + (if msg is Found { 1int } else { 0 }),
        forall|k: int| 0 <= k < a.candidates.len() ==> (#[trigger] a1.candidates[k]).id == a.candidates[k].id
            && a1.candidates[k].path == a.candidates[k].path,
        struck_unselected(a.candidates) && (msg matches ScanMsg::Found(c) ==> !(c.deleted && c.selected))
            ==> struck_unselected(a1.candidates),
{
    lemma_first_pos(a.candidates, 0);
    match msg {
        ScanMsg::Sized { id, bytes, mtime } => {
            lemma_first_pos(a.candidates, id);
            if struck_unselected(a.candidates) {
                assert forall|k: int| 0 <= k < a1.candidates.len() implies !(#[trigger] a1.candidates[k].deleted
                    && a1.candidates[k].selected) by {
                    assert(a1.candidates[k].deleted == a.candidates[k].deleted);
                    assert(a1.candidates[k].selected == a.candidates[k].selected);
                }
            }
        },
        ScanMsg::Deleted { id, bytes } => {
            lemma_first_pos(a.candidates, id);
            if struck_unselected(a.candidates) {
                assert forall|k: int| 0 <= k < a1.candidates.len() implies !(#[trigger] a1.candidates[k].deleted
                    && a1.candidates[k].selected) by {
                    if k != first_pos(a.candidates, id) {
                        assert(a1.candidates[k] == a.candidates[k]);
                    }
                }
            }
        },
        ScanMsg::Found(c) => {
            assert forall|k: int| 0 <= k < a.candidates.len() implies (#[trigger] a1.candidates[k]).id == a.candidates[k].id
                && a1.candidates[k].path == a.candidates[k].path by {
                assert(a1.candidates[k] == a.candidates.push(c)[k]);
            }
            if struck_unselected(a.candidates) && !(c.deleted && c.selected) {
                assert forall|k: int| 0 <= k < a1.candidates.len() implies !(#[trigger] a1.candidates[k].deleted
                    && a1.candidates[k].selected) by {
                    if k < a.candidates.len() {
                        assert(a1.candidates[k] == a.candidates[k]);
                    }
                }
            }
        },
        _ => {},
    }
}

/// The reclaimed total grows by the bytes of the rows that become deleted:
/// a reported deletion adds its bytes (as long as the total stays within
/// `u64`) exactly when it strikes out a row that was not deleted yet, and
/// adds nothing for a row already struck out. The row is then struck out,
/// so that no later delete request acts on it again.
pub proof fn lemma_deleted_is_final(
    id: usize,
    bytes: u64,
    a: AppView,
    s: Option<String>,
    a1: AppView,
    s1: Option<String>,
    after: AppState,
)
    requires
        applied(ScanMsg::Deleted { id, bytes }, a, s, a1, s1),
        after@ == a1,
        a.reclaimed + bytes <= u64::MAX,
    ensures
        a1.reclaimed == a.reclaimed + (if fresh_strike(a.candidates, id) { bytes as int } else { 0 }),
        first_pos(a.candidates, id) >= 0 ==> (fresh_strike(a.candidates, id) <==> !a.candidates[first_pos(a.candidates, id)].deleted),
        first_pos(a.candidates, id) >= 0 ==> a1.candidates[first_pos(a.candidates, id)].deleted,
        first_pos(a.candidates, id) >= 0 ==> forall|k: int|
            0 <= k < after.targets().len() ==> #[trigger] after.targets()[k] != first_pos(a.candidates, id),
{
    lemma_first_pos(a.candidates, id);
    assert(0 <= a.reclaimed + bytes < 0x1_0000_0000_0000_0000);
    lemma_targets_live_and_shown(&after);
}

} // verus!
