use vstd::prelude::*;
use vstd::string::*;

use crate::diff::{detect_diff, Change, DiffResult};
use crate::snapshot::Snapshot;
use crate::text::push_decimal_digits;

verus! {

/// How long a status message stays on screen, in milliseconds.
pub const STATUS_LIFETIME_MS: u64 = 3000;

/// The screen that the interface shows.
#[derive(Debug, Clone, PartialEq)]
pub enum Screen {
    /// Waiting for the first snapshot.
    Initial,
    /// Capturing the first snapshot.
    LoadingFirst,
    /// Capturing the second snapshot.
    LoadingSecond,
    /// First snapshot taken; waiting for changes to be made.
    WaitingForChanges,
    /// Showing the difference.
    DiffView,
    /// Showing an error.
    Error(String),
}

/// The pane that has the focus in the diff view.
#[derive(Debug, Clone, Copy, PartialEq, Eq, Structural)]
pub enum Focus {
    Domain,
    Diff,
}

/// The kind of a status message.
#[derive(Debug, Clone, Copy, PartialEq, Eq, Structural)]
pub enum StatusKind {
    Info,
    Success,
    Warning,
}

/// A status message, stamped with the time it was made (milliseconds on a
/// monotonic clock of the caller's choosing).
#[derive(Debug, Clone)]
pub struct StatusMessage {
    pub text: String,
    pub kind: StatusKind,
    pub created_at_ms: u64,
}

/// Milliseconds from `from` to `to`; zero when `to` comes first.
pub open spec fn elapsed_ms(from: u64, to: u64) -> int {
    if to >= from {
        to - from
    } else {
        0
    }
}

impl StatusMessage {
    /// An informational message made at `now_ms`.
    pub fn info(text: String, now_ms: u64) -> (r: Self)
        ensures
            r.text == text,
            r.kind == StatusKind::Info,
            r.created_at_ms == now_ms,
    {
        StatusMessage { text, kind: StatusKind::Info, created_at_ms: now_ms }
    }

    /// A success message made at `now_ms`.
    pub fn success(text: String, now_ms: u64) -> (r: Self)
        ensures
            r.text == text,
            r.kind == StatusKind::Success,
            r.created_at_ms == now_ms,
    {
        StatusMessage { text, kind: StatusKind::Success, created_at_ms: now_ms }
    }

    /// A warning message made at `now_ms`.
    pub fn warning(text: String, now_ms: u64) -> (r: Self)
        ensures
            r.text == text,
            r.kind == StatusKind::Warning,
            r.created_at_ms == now_ms,
    {
        StatusMessage { text, kind: StatusKind::Warning, created_at_ms: now_ms }
    }

    /// Whether the message is still to be shown at `now_ms`: less than three
    /// seconds have passed since it was made.
    pub fn is_valid(&self, now_ms: u64) -> (r: bool)
        ensures
            r == (elapsed_ms(self.created_at_ms, now_ms) < STATUS_LIFETIME_MS),
    {
        let elapsed = if now_ms >= self.created_at_ms {
            now_ms - self.created_at_ms
        } else {
            0
        };
        elapsed < STATUS_LIFETIME_MS
    }
}

/// The state of the interface.
pub struct App {
    pub screen: Screen,
    pub focus: Focus,
    pub snapshot_before: Option<Snapshot>,
    pub snapshot_after: Option<Snapshot>,
    pub diff_result: Option<DiffResult>,
    pub selected_domain_index: usize,
    pub selected_diff_index: usize,
    pub should_quit: bool,
    pub status: Option<StatusMessage>,
}


/// The number of changes, for a status line: "1 change", "2 changes".
fn push_change_count(out: &mut String, n: usize)
    ensures
        final(out)@ == old(out)@ + crate::text::decimal_digits(n as nat) + (if n == 1 {
            " change"@
        } else {
            " changes"@
        }),
{
    push_decimal_digits(out, n as u64);
    if n == 1 {
        out.append(" change");
    } else {
        out.append(" changes");
    }
}

/// The state after moving the selection up.
pub open spec fn moved_up(o: App) -> App {
    if o.screen == Screen::DiffView && o.focus == Focus::Domain && o.selected_domain_index > 0 {
        App { selected_domain_index: (o.selected_domain_index - 1) as usize, selected_diff_index: 0, ..o }
    } else if o.screen == Screen::DiffView && o.focus == Focus::Diff && o.selected_diff_index > 0 {
        App { selected_diff_index: (o.selected_diff_index - 1) as usize, ..o }
    } else {
        o
    }
}

/// The state after moving the selection down.
pub open spec fn moved_down(o: App) -> App {
    let dds = o.diff_result->0.domain_diffs@;
    if o.screen == Screen::DiffView && o.diff_result is Some && o.focus == Focus::Domain
        && o.selected_domain_index + 1 < dds.len() {
        App { selected_domain_index: (o.selected_domain_index + 1) as usize, selected_diff_index: 0, ..o }
    } else if o.screen == Screen::DiffView && o.diff_result is Some && o.focus == Focus::Diff
        && o.selected_domain_index < dds.len() && o.selected_diff_index + 1
        < dds[o.selected_domain_index as int].changes@.len() {
        App { selected_diff_index: (o.selected_diff_index + 1) as usize, ..o }
    } else {
        o
    }
}

/// The state after switching the focus.
pub open spec fn toggled(o: App) -> App {
    if o.screen == Screen::DiffView {
        App { focus: if o.focus == Focus::Domain { Focus::Diff } else { Focus::Domain }, ..o }
    } else {
        o
    }
}

/// A key press, as the interface reads it.
#[derive(Debug, Clone, Copy, PartialEq, Eq, Structural)]
pub enum Key {
    /// `q`, or Ctrl-C.
    Quit,
    /// `r`.
    Reset,
    /// Enter.
    Enter,
    /// Up arrow, or `k`.
    Up,
    /// Down arrow, or `j`.
    Down,
    /// Tab.
    Tab,
    /// `y`.
    Copy,
    /// Any other key.
    Other,
}

impl App {
    /// The snapshots that it holds are well formed.
    pub open spec fn wf(&self) -> bool {
        &&& (self.snapshot_before is Some ==> self.snapshot_before->0.wf())
        &&& (self.snapshot_after is Some ==> self.snapshot_after->0.wf())
    }

    /// The initial state: no snapshot, nothing selected.
    pub fn new() -> (r: Self)
        ensures
            r.wf(),
            r.screen == Screen::Initial,
            r.focus == Focus::Domain,
            r.snapshot_before is None,
            r.snapshot_after is None,
            r.diff_result is None,
            r.selected_domain_index == 0,
            r.selected_diff_index == 0,
            !r.should_quit,
            r.status is None,
    {
        App {
            screen: Screen::Initial,
            focus: Focus::Domain,
            snapshot_before: None,
            snapshot_after: None,
            diff_result: None,
            selected_domain_index: 0,
            selected_diff_index: 0,
            should_quit: false,
            status: None,
        }
    }

    /// Sets the status message.
    pub fn set_status(&mut self, status: StatusMessage)
        ensures
            *final(self) == (App { status: Some(status), ..*old(self) }),
    {
        self.status = Some(status);
    }

    /// The status message, while it is still to be shown at `now_ms`.
    pub fn get_status(&self, now_ms: u64) -> (r: Option<&StatusMessage>)
        ensures
            r is Some <==> (self.status is Some && elapsed_ms(self.status->0.created_at_ms, now_ms)
                < STATUS_LIFETIME_MS),
            r is Some ==> *r->0 == self.status->0,
    {
        match &self.status {
            Some(st) => {
                if st.is_valid(now_ms) {
                    Some(st)
                } else {
                    None
                }
            },
            None => None,
        }
    }

    /// Back to the initial screen, forgetting both snapshots and the
    /// difference.
    pub fn reset(&mut self, now_ms: u64)
        ensures
            final(self).wf(),
            final(self).screen == Screen::Initial,
            final(self).focus == Focus::Domain,
            final(self).snapshot_before is None,
            final(self).snapshot_after is None,
            final(self).diff_result is None,
            final(self).selected_domain_index == 0,
            final(self).selected_diff_index == 0,
            final(self).should_quit == old(self).should_quit,
            final(self).status is Some,
            final(self).status->0.text@ == "Reset complete"@,
            final(self).status->0.kind == StatusKind::Info,
            final(self).status->0.created_at_ms == now_ms,
    {
        self.screen = Screen::Initial;
        self.focus = Focus::Domain;
        self.snapshot_before = None;
        self.snapshot_after = None;
        self.diff_result = None;
        self.selected_domain_index = 0;
        self.selected_diff_index = 0;
        self.status = Some(StatusMessage::info(String::from_str("Reset complete"), now_ms));
    }

    /// Moves to the screen that captures the first snapshot.
    pub fn start_first_snapshot(&mut self, now_ms: u64)
        ensures
            final(self).screen == Screen::LoadingFirst,
            final(self).status is Some,
            final(self).status->0.text@ == "Capturing defaults... This may take a few seconds"@,
            final(self).status->0.kind == StatusKind::Info,
            final(self).status->0.created_at_ms == now_ms,
            final(self).focus == old(self).focus,
            final(self).snapshot_before == old(self).snapshot_before,
            final(self).snapshot_after == old(self).snapshot_after,
            final(self).diff_result == old(self).diff_result,
            final(self).selected_domain_index == old(self).selected_domain_index,
            final(self).selected_diff_index == old(self).selected_diff_index,
            final(self).should_quit == old(self).should_quit,
    {
        self.screen = Screen::LoadingFirst;
        self.status = Some(
            StatusMessage::info(
                String::from_str("Capturing defaults... This may take a few seconds"),
                now_ms,
            ),
        );
    }

    /// Moves to the screen that captures the second snapshot.
    pub fn start_second_snapshot(&mut self, now_ms: u64)
        ensures
            final(self).screen == Screen::LoadingSecond,
            final(self).status is Some,
            final(self).status->0.text@ == "Capturing defaults and detecting changes..."@,
            final(self).status->0.kind == StatusKind::Info,
            final(self).status->0.created_at_ms == now_ms,
            final(self).focus == old(self).focus,
            final(self).snapshot_before == old(self).snapshot_before,
            final(self).snapshot_after == old(self).snapshot_after,
            final(self).diff_result == old(self).diff_result,
            final(self).selected_domain_index == old(self).selected_domain_index,
            final(self).selected_diff_index == old(self).selected_diff_index,
            final(self).should_quit == old(self).should_quit,
    {
        self.screen = Screen::LoadingSecond;
        self.status = Some(
            StatusMessage::info(
                String::from_str("Capturing defaults and detecting changes..."),
                now_ms,
            ),
        );
    }

    /// Takes in the outcome of capturing the first snapshot: the snapshot
    /// is kept and the screen waits for changes, or the error is shown.
    pub fn capture_first_snapshot(&mut self, captured: Result<Snapshot, String>, now_ms: u64)
        requires
            old(self).wf(),
            captured is Ok ==> captured->Ok_0.wf(),
        ensures
            final(self).wf(),
            final(self).snapshot_after == old(self).snapshot_after,
            final(self).diff_result == old(self).diff_result,
            captured is Ok ==> {
                &&& final(self).snapshot_before == Some(captured->Ok_0)
                &&& final(self).screen == Screen::WaitingForChanges
                &&& final(self).status is Some
                &&& final(self).status->0.kind == StatusKind::Success
                &&& final(self).status->0.text@ == "✓ Captured "@ + crate::text::decimal_digits(
                    captured->Ok_0@.dom().len(),
                ) + " domains successfully"@
            },
            captured is Err ==> {
                &&& final(self).snapshot_before == old(self).snapshot_before
                &&& final(self).screen is Error
                &&& final(self).screen->Error_0@ == "Failed to capture snapshot: "@
                    + captured->Err_0@
            },
    {
        match captured {
            Ok(snapshot) => {
                let count = snapshot.domain_count();
                let mut text = String::from_str("✓ Captured ");
                push_decimal_digits(&mut text, count as u64);
                text.append(" domains successfully");
                self.snapshot_before = Some(snapshot);
                self.screen = Screen::WaitingForChanges;
                self.status = Some(StatusMessage::success(text, now_ms));
            },
            Err(e) => {
                let mut text = String::from_str("Failed to capture snapshot: ");
                text.append(e.as_str());
                self.screen = Screen::Error(text);
            },
        }
    }

    /// Takes in the outcome of capturing the second snapshot: the snapshot
    /// is kept and compared with the first, or the error is shown.
    pub fn capture_second_snapshot(&mut self, captured: Result<Snapshot, String>, now_ms: u64)
        requires
            old(self).wf(),
            captured is Ok ==> captured->Ok_0.wf(),
        ensures
            final(self).wf(),
            final(self).snapshot_before == old(self).snapshot_before,
            captured is Ok ==> final(self).snapshot_after == Some(captured->Ok_0),
            captured is Ok && old(self).snapshot_before is Some && old(self).snapshot_before->0.key_count()
                + captured->Ok_0.key_count() <= usize::MAX ==> {
                &&& final(self).screen == Screen::DiffView
                &&& final(self).diff_result is Some
                &&& crate::diff::diff_exact(
                    final(self).diff_result->0.domain_diffs@,
                    old(self).snapshot_before->0@,
                    captured->Ok_0@,
                )
            },
            captured is Err ==> {
                &&& final(self).snapshot_after == old(self).snapshot_after
                &&& final(self).screen is Error
                &&& final(self).screen->Error_0@ == "Failed to capture snapshot: "@
                    + captured->Err_0@
            },
    {
        match captured {
            Ok(snapshot) => {
                self.snapshot_after = Some(snapshot);
                self.detect_changes(now_ms);
            },
            Err(e) => {
                let mut text = String::from_str("Failed to capture snapshot: ");
                text.append(e.as_str());
                self.screen = Screen::Error(text);
            },
        }
    }

    /// Compares the two snapshots, when both are there, and shows the
    /// difference with a status line that counts the changes. Snapshots
    /// whose keys together do not fit in a `usize` give the error screen.
    fn detect_changes(&mut self, now_ms: u64)
        requires
            old(self).wf(),
        ensures
            final(self).wf(),
            final(self).snapshot_before == old(self).snapshot_before,
            final(self).snapshot_after == old(self).snapshot_after,
            old(self).snapshot_before is Some && old(self).snapshot_after is Some
                && old(self).snapshot_before->0.key_count() + old(self).snapshot_after->0.key_count()
                <= usize::MAX ==> {
                &&& final(self).screen == Screen::DiffView
                &&& final(self).diff_result is Some
                &&& crate::diff::diff_exact(
                    final(self).diff_result->0.domain_diffs@,
                    old(self).snapshot_before->0@,
                    old(self).snapshot_after->0@,
                )
            },
    {
        let diff = match (&self.snapshot_before, &self.snapshot_after) {
            (Some(before), Some(after)) => {
                match (before.total_keys(), after.total_keys()) {
                    (Some(nb), Some(na)) => {
                        if nb <= usize::MAX - na {
                            Some(detect_diff(before, after))
                        } else {
                            None
                        }
                    },
                    _ => None,
                }
            },
            _ => {
                return ;
            },
        };
        match diff {
            Some(diff) => {
                let total = diff.total_changes;
                self.diff_result = Some(diff);
                self.screen = Screen::DiffView;
                if total == 0 {
                    self.status = Some(
                        StatusMessage::warning(String::from_str("No changes detected"), now_ms),
                    );
                } else {
                    let mut text = String::from_str("✓ Found ");
                    push_change_count(&mut text, total);
                    self.status = Some(StatusMessage::success(text, now_ms));
                }
            },
            None => {
                self.screen = Screen::Error(String::from_str("Snapshots too large to compare"));
            },
        }
    }

    /// The change under the selection, if the selection points at one.
    pub fn selected_change(&self) -> (r: Option<&Change>)
        ensures
            r is Some <==> (self.diff_result is Some && self.selected_domain_index
                < self.diff_result->0.domain_diffs@.len() && self.selected_diff_index
                < self.diff_result->0.domain_diffs@[self.selected_domain_index as int].changes@.len()),
            r is Some ==> *r->0 == self.diff_result->0.domain_diffs@[self.selected_domain_index as int].changes@[self.selected_diff_index as int],
    {
        match &self.diff_result {
            Some(diff) => {
                if self.selected_domain_index < diff.domain_diffs.len() {
                    let dd = &diff.domain_diffs[self.selected_domain_index];
                    if self.selected_diff_index < dd.changes.len() {
                        return Some(&dd.changes[self.selected_diff_index]);
                    }
                }
                None
            },
            None => None,
        }
    }

    /// Moves the selection up in the focused pane of the diff view; moving
    /// to another domain selects its first change.
    pub fn move_up(&mut self)
        ensures
            *final(self) == moved_up(*old(self)),
    {
        if matches!(self.screen, Screen::DiffView) {
            match self.focus {
                Focus::Domain => {
                    if self.selected_domain_index > 0 {
                        self.selected_domain_index = self.selected_domain_index - 1;
                        self.selected_diff_index = 0;
                    }
                },
                Focus::Diff => {
                    if self.selected_diff_index > 0 {
                        self.selected_diff_index = self.selected_diff_index - 1;
                    }
                },
            }
        }
    }

    /// Moves the selection down in the focused pane of the diff view, up
    /// to the last item; moving to another domain selects its first change.
    pub fn move_down(&mut self)
        ensures
            *final(self) == moved_down(*old(self)),
    {
        if matches!(self.screen, Screen::DiffView) {
            match &self.diff_result {
                Some(diff) => {
                    match self.focus {
                        Focus::Domain => {
                            let n = diff.domain_diffs.len();
                            if n > 0 && self.selected_domain_index < n - 1 {
                                self.selected_domain_index = self.selected_domain_index + 1;
                                self.selected_diff_index = 0;
                            }
                        },
                        Focus::Diff => {
                            if self.selected_domain_index < diff.domain_diffs.len() {
                                let n = diff.domain_diffs[self.selected_domain_index].changes.len();
                                if n > 0 && self.selected_diff_index < n - 1 {
                                    self.selected_diff_index = self.selected_diff_index + 1;
                                }
                            }
                        },
                    }
                },
                None => {},
            }
        }
    }

    /// Switches the focus between the two panes of the diff view.
    pub fn toggle_focus(&mut self)
        ensures
            *final(self) == toggled(*old(self)),
    {
        if matches!(self.screen, Screen::DiffView) {
            self.focus = match self.focus {
                Focus::Domain => Focus::Diff,
                Focus::Diff => Focus::Domain,
            };
        }
    }

    /// Whether a snapshot is being captured.
    pub fn is_loading(&self) -> (r: bool)
        ensures
            r == (self.screen == Screen::LoadingFirst || self.screen == Screen::LoadingSecond),
    {
        matches!(self.screen, Screen::LoadingFirst | Screen::LoadingSecond)
    }

    /// What Enter does: start the first capture on the initial screen, the
    /// second while waiting for changes, and start over from an error.
    pub fn handle_enter(&mut self, now_ms: u64)
        requires
            old(self).wf(),
        ensures
            final(self).wf(),
            old(self).screen == Screen::Initial ==> final(self).screen == Screen::LoadingFirst
                && final(self).status is Some && final(self).status->0.created_at_ms == now_ms,
            old(self).screen == Screen::WaitingForChanges ==> final(self).screen
                == Screen::LoadingSecond && final(self).status is Some
                && final(self).status->0.created_at_ms == now_ms,
            old(self).screen is Error ==> final(self).screen == Screen::Initial
                && final(self).snapshot_before is None && final(self).diff_result is None,
            !(old(self).screen == Screen::Initial || old(self).screen == Screen::WaitingForChanges
                || old(self).screen is Error) ==> *final(self) == *old(self),
    {
        match self.screen {
            Screen::Initial => self.start_first_snapshot(now_ms),
            Screen::WaitingForChanges => self.start_second_snapshot(now_ms),
            Screen::Error(_) => self.reset(now_ms),
            _ => {},
        }
    }

    /// Applies a key press. Returns whether the command of the selected
    /// change is to be copied: on `Copy`, in the diff view with the changes
    /// pane focused and a change selected.
    pub fn handle_key(&mut self, key: Key, now_ms: u64) -> (copy: bool)
        requires
            old(self).wf(),
        ensures
            final(self).wf(),
            copy == (key == Key::Copy && old(self).screen == Screen::DiffView && old(self).focus
                == Focus::Diff && old(self).diff_result is Some && old(self).selected_domain_index
                < old(self).diff_result->0.domain_diffs@.len() && old(self).selected_diff_index
                < old(self).diff_result->0.domain_diffs@[old(self).selected_domain_index as int].changes@.len()),
            key == Key::Quit ==> *final(self) == (App { should_quit: true, ..*old(self) }),
            key == Key::Reset ==> final(self).screen == Screen::Initial && final(self).diff_result is None
                && final(self).snapshot_before is None && final(self).snapshot_after is None,
            key == Key::Up ==> *final(self) == moved_up(*old(self)),
            key == Key::Down ==> *final(self) == moved_down(*old(self)),
            key == Key::Tab ==> *final(self) == toggled(*old(self)),
            (key == Key::Copy || key == Key::Other) ==> *final(self) == *old(self),
    {
        match key {
            Key::Quit => {
                self.should_quit = true;
                false
            },
            Key::Reset => {
                self.reset(now_ms);
                false
            },
            Key::Enter => {
                self.handle_enter(now_ms);
                false
            },
            Key::Up => {
                self.move_up();
                false
            },
            Key::Down => {
                self.move_down();
                false
            },
            Key::Tab => {
                self.toggle_focus();
                false
            },
            Key::Copy => matches!(self.screen, Screen::DiffView) && self.focus == Focus::Diff
                && self.selected_change().is_some(),
            Key::Other => false,
        }
    }
}

impl Default for App {
    fn default() -> (r: Self)
        ensures
            r.wf(),
            r.screen == Screen::Initial,
            r.snapshot_before is None,
            r.snapshot_after is None,
            r.diff_result is None,
            r.status is None,
    {
        App::new()
    }
}

} // verus!
