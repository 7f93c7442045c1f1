//! The texts and choices the screen shows; the drawing itself is done by the
//! terminal front end.

use vstd::prelude::*;

use crate::model::{
    picked_bytes, picked_count, reclaimable_sum, wrap64, AppState, Candidate, SortMode,
};
use crate::text::{concat, decimal, decimal_text, str_eq};

verus! {

broadcast use vstd::string::group_string_axioms;

/// What `humansize::format_size` returns for `bytes` with the `BINARY`
/// options (powers of 1024, `KiB`-style units, up to two decimals).
pub uninterp spec fn binary_size_text(bytes: u64) -> Seq<char>;

/// Calls `humansize::format_size(bytes, humansize::BINARY)`. Its result is
/// claimed to be [`binary_size_text`] of `bytes`, a function of `bytes`
/// alone; what that text is, is not stated here.
#[verifier::external_body]
fn human_size(bytes: u64) -> (r: String)
    ensures
        r@ == binary_size_text(bytes),
{
    humansize::format_size(bytes, humansize::BINARY)
}

/// Seconds from `t` to `now` (nanoseconds since the epoch), rounded down;
/// 0 when `t` is later than `now`.
pub open spec fn age_secs(t: i128, now: i128) -> int {
    if now >= t {
        (now - t) / 1_000_000_000
    } else {
        0
    }
}

/// How the age of a directory last modified at `mtime` reads at `now`.
pub open spec fn age_spec(mtime: Option<i128>, now: i128) -> Seq<char> {
    match mtime {
        None => "\u{2014}"@,
        Some(t) => {
            let s = age_secs(t, now);
            if s < 60 {
                "now"@
            } else if s < 3600 {
                decimal((s / 60) as nat) + "m"@
            } else if s < 86_400 {
                decimal((s / 3600) as nat) + "h"@
            } else if s < 604_800 {
                decimal((s / 86_400) as nat) + "d"@
            } else if s < 31_536_000 {
                decimal((s / 604_800) as nat) + "w"@
            } else {
                decimal((s / 31_536_000) as nat) + "y"@
            }
        },
    }
}

/// The age column: `now` under a minute, then whole minutes, hours, days,
/// weeks or years; a dash when the modification time is unknown.
pub fn age_text(mtime: Option<i128>, now: i128) -> (r: String)
    requires
        mtime matches Some(t) ==> i128::MIN <= now - t <= i128::MAX,
    ensures
        r@ == age_spec(mtime, now),
{
    let t = match mtime {
        None => {
            return "\u{2014}".to_string();
        },
        Some(t) => t,
    };
    let secs: u128 = if now >= t {
        ((now - t) / 1_000_000_000) as u128
    } else {
        0
    };
    if secs < 60 {
        "now".to_string()
    } else if secs < 3600 {
        concat(decimal_text(secs / 60), "m")
    } else if secs < 86_400 {
        concat(decimal_text(secs / 3600), "h")
    } else if secs < 604_800 {
        concat(decimal_text(secs / 86_400), "d")
    } else if secs < 31_536_000 {
        concat(decimal_text(secs / 604_800), "w")
    } else {
        concat(decimal_text(secs / 31_536_000), "y")
    }
}

/// The colour an ecosystem's label is drawn in.
#[derive(Clone, Copy, Debug, PartialEq, Eq, Structural)]
pub enum EcoColor {
    Green,
    Red,
    Blue,
    Cyan,
    Yellow,
    Magenta,
    Gray,
}

/// The colour for the ecosystem `eco`.
pub open spec fn eco_color_spec(eco: Seq<char>) -> EcoColor {
    if eco == "Node"@ {
        EcoColor::Green
    } else if eco == "Rust"@ {
        EcoColor::Red
    } else if eco == "Python"@ {
        EcoColor::Blue
    } else if eco == "Go"@ {
        EcoColor::Cyan
    } else if eco == "Maven"@ || eco == "Gradle"@ {
        EcoColor::Yellow
    } else if eco == ".NET"@ {
        EcoColor::Magenta
    } else {
        EcoColor::Gray
    }
}

/// The colour an ecosystem's label is drawn in; unknown ecosystems are gray.
pub fn eco_color(eco: &str) -> (r: EcoColor)
    ensures
        r == eco_color_spec(eco@),
{
    if str_eq(eco, "Node") {
        EcoColor::Green
    } else if str_eq(eco, "Rust") {
        EcoColor::Red
    } else if str_eq(eco, "Python") {
        EcoColor::Blue
    } else if str_eq(eco, "Go") {
        EcoColor::Cyan
    } else if str_eq(eco, "Maven") || str_eq(eco, "Gradle") {
        EcoColor::Yellow
    } else if str_eq(eco, ".NET") {
        EcoColor::Magenta
    } else {
        EcoColor::Gray
    }
}

/// The size column: the human-readable size, or an ellipsis while unknown.
pub fn size_cell(size: Option<u64>) -> (r: String)
    ensures
        r@ == (match size {
            Some(b) => binary_size_text(b),
            None => "\u{2026}"@,
        }),
{
    match size {
        Some(b) => human_size(b),
        None => "\u{2026}".to_string(),
    }
}

/// The spinner frame for animation tick `tick`.
pub open spec fn spinner_spec(tick: usize) -> Seq<char> {
    if tick % 4 == 0 {
        "|"@
    } else if tick % 4 == 1 {
        "/"@
    } else if tick % 4 == 2 {
        "-"@
    } else {
        "\\"@
    }
}

/// The spinner frame for animation tick `tick`: `|`, `/`, `-`, `\` in turn.
pub fn spinner_frame(tick: usize) -> (r: &'static str)
    ensures
        r@ == spinner_spec(tick),
{
    let k = tick % 4;
    if k == 0 {
        "|"
    } else if k == 1 {
        "/"
    } else if k == 2 {
        "-"
    } else {
        "\\"
    }
}

/// The activity shown in the header: scanning, then sizing, then done.
pub fn activity_text(app: &AppState) -> (r: String)
    ensures
        r@ == (if app.scanning {
            " "@ + spinner_spec(app.spinner) + " scanning"@
        } else if app.sizing {
            " "@ + spinner_spec(app.spinner) + " sizing"@
        } else {
            " done"@
        }),
{
    if app.scanning {
        concat(concat(" ".to_string(), spinner_frame(app.spinner)), " scanning")
    } else if app.sizing {
        concat(concat(" ".to_string(), spinner_frame(app.spinner)), " sizing")
    } else {
        " done".to_string()
    }
}

/// The footer line shown while a batch of deletions runs.
pub fn deleting_hint(tick: usize) -> (r: String)
    ensures
        r@ == " "@ + spinner_spec(tick) + " deleting\u{2026} (UI stays responsive)"@,
{
    concat(concat(" ".to_string(), spinner_frame(tick)), " deleting\u{2026} (UI stays responsive)")
}

/// The message shown in place of an empty list.
pub fn empty_list_text(scanning: bool) -> (r: &'static str)
    ensures
        r@ == (if scanning {
            "Scanning for reclaimable directories\u{2026}"@
        } else {
            "Nothing to reclaim here."@
        }),
{
    if scanning {
        "Scanning for reclaimable directories\u{2026}"
    } else {
        "Nothing to reclaim here."
    }
}

/// The statistics in the footer.
pub struct FooterStats {
    pub found: String,
    pub reclaimable: String,
    pub reclaimed: String,
    pub sort: String,
    /// Shown only while something is selected.
    pub selected: Option<String>,
    /// Shown only in a dry run.
    pub dry_run: Option<String>,
}

/// The statistics in the footer: how many rows are shown, how much could be
/// and has been reclaimed, the sort key, what is selected, and a label in a
/// dry run.
pub fn footer_stats(app: &AppState) -> (r: FooterStats)
    ensures
        r.found@ == " "@ + decimal(app.view_seq().len()) + " found"@,
        r.reclaimable@ == binary_size_text(
            wrap64(reclaimable_sum(app.candidates@, app.min_size, app.candidates@.len())) as u64,
        ) + " reclaimable"@,
        r.reclaimed@ == binary_size_text(app.reclaimed) + " reclaimed"@,
        r.sort@ == "sort:"@ + (match app.sort {
            SortMode::Size => "size"@,
            SortMode::Age => "age"@,
            SortMode::Path => "path"@,
        }),
        picked_count(app.candidates@, app.candidates@.len()) == 0 ==> r.selected is None,
        picked_count(app.candidates@, app.candidates@.len()) > 0 ==> (r.selected matches Some(s) && s@
            == decimal(picked_count(app.candidates@, app.candidates@.len()) as nat) + " selected ("@
            + binary_size_text(wrap64(picked_bytes(app.candidates@, app.candidates@.len())) as u64)
            + ")"@),
        app.dry_run <==> r.dry_run is Some,
        r.dry_run matches Some(t) ==> t@ == "[dry-run]"@,
{
    let found = concat(concat(" ".to_string(), decimal_text(app.found_count() as u128).as_str()), " found");
    let reclaimable = concat(human_size(app.reclaimable()), " reclaimable");
    let reclaimed = concat(human_size(app.reclaimed), " reclaimed");
    let sort = concat("sort:".to_string(), app.sort.label());
    let (count, bytes) = app.selected_summary();
    let selected = if count > 0 {
        Some(concat(concat(concat(decimal_text(count as u128), " selected ("), human_size(bytes).as_str()), ")"))
    } else {
        None
    };
    let dry_run = if app.dry_run {
        Some("[dry-run]".to_string())
    } else {
        None
    };
    FooterStats { found, reclaimable, reclaimed, sort, selected, dry_run }
}

/// Total known size of the candidates at positions `pending`, among the
/// first `n` of them.
pub open spec fn pending_bytes(cands: Seq<Candidate>, pending: Seq<usize>, n: nat) -> int
    decreases n,
{
    if n == 0 {
        0
    } else {
        pending_bytes(cands, pending, (n - 1) as nat) + match cands[pending[n - 1] as int].size {
            Some(s) => s as int,
            None => 0,
        }
    }
}

/// The question asked before deleting `count` directories.
pub fn confirm_title(count: usize, dry_run: bool) -> (r: String)
    ensures
        r@ == (if dry_run {
            "Simulate deleting"@
        } else {
            "Delete"@
        }) + " "@ + decimal(count as nat) + (if count == 1 {
            " directory?"@
        } else {
            " directories?"@
        }),
{
    let verb = if dry_run {
        "Simulate deleting"
    } else {
        "Delete"
    };
    let lead = concat(concat(verb.to_string(), " "), decimal_text(count as u128).as_str());
    if count == 1 {
        concat(lead, " directory?")
    } else {
        concat(lead, " directories?")
    }
}

/// The total size line of the confirmation: the known sizes of the pending
/// candidates, summed like the `u64` sum it models (wrapping past
/// `u64::MAX`).
pub fn confirm_total(app: &AppState, pending: &[usize]) -> (r: String)
    requires
        forall|k: int| 0 <= k < pending@.len() ==> #[trigger] pending@[k] < app.candidates@.len(),
    ensures
        r@ == "Total size: "@ + binary_size_text(
            wrap64(pending_bytes(app.candidates@, pending@, pending@.len())) as u64,
        ),
{
    let n = pending.len();
    let mut total: u64 = 0;
    for k in 0..n
        invariant
            n == pending@.len(),
            forall|j: int| 0 <= j < pending@.len() ==> #[trigger] pending@[j] < app.candidates@.len(),
            total as int == wrap64(pending_bytes(app.candidates@, pending@, k as nat)),
    {
        if let Some(s) = app.get(pending[k]).size {
            proof {
                crate::model::lemma_wrap_add(pending_bytes(app.candidates@, pending@, k as nat), total as int, s as int);
            }
            total = total.wrapping_add(s);
        }
    }
    concat("Total size: ".to_string(), human_size(total).as_str())
}

/// The key hint of the confirmation.
pub fn confirm_hint(dry_run: bool) -> (r: &'static str)
    ensures
        r@ == (if dry_run {
            "y: confirm (no files removed)   n/esc: cancel"@
        } else {
            "y: permanently delete   n/esc: cancel"@
        }),
{
    if dry_run {
        "y: confirm (no files removed)   n/esc: cancel"
    } else {
        "y: permanently delete   n/esc: cancel"
    }
}

/// The largest known size among the first `n` positions of `view`, at
/// least 1.
pub open spec fn largest_spec(cands: Seq<Candidate>, view: Seq<usize>, n: nat) -> u64
    decreases n,
{
    if n == 0 {
        1
    } else {
        let prev = largest_spec(cands, view, (n - 1) as nat);
        match cands[view[n - 1] as int].size {
            Some(s) => if s > prev {
                s
            } else {
                prev
            },
            None => prev,
        }
    }
}

/// The size that fills a whole bar: the largest known size in `view`, at
/// least 1.
pub fn largest_size(app: &AppState, view: &Vec<usize>) -> (r: u64)
    requires
        forall|k: int| 0 <= k < view@.len() ==> #[trigger] view@[k] < app.candidates@.len(),
    ensures
        r == largest_spec(app.candidates@, view@, view@.len()),
{
    let n = view.len();
    let mut best: u64 = 1;
    for k in 0..n
        invariant
            n == view@.len(),
            forall|j: int| 0 <= j < view@.len() ==> #[trigger] view@[j] < app.candidates@.len(),
            best == largest_spec(app.candidates@, view@, k as nat),
    {
        if let Some(s) = app.get(view[k]).size {
            if s > best {
                best = s;
            }
        }
    }
    best
}

/// The closing message: how much was reclaimed (nothing when 0), noting a
/// dry run.
pub fn reclaimed_message(reclaimed: u64, dry_run: bool) -> (r: Option<String>)
    ensures
        reclaimed == 0 ==> r is None,
        reclaimed > 0 ==> (r matches Some(m) && m@ == "Reclaimed "@ + binary_size_text(reclaimed) + (if dry_run {
            " (dry-run \u{2014} nothing was deleted)"@
        } else {
            ""@
        })),
{
    if reclaimed == 0 {
        return None;
    }
    let suffix = if dry_run {
        " (dry-run \u{2014} nothing was deleted)"
    } else {
        ""
    };
    Some(concat(concat("Reclaimed ".to_string(), human_size(reclaimed).as_str()), suffix))
}

} // verus!
