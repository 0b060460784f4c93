//! The Windows installer: its screens, the steps of an installation, and how far
//! it has come.

use vstd::prelude::*;

use crate::names::chars_of;
use crate::trusted::ascii_lower;

verus! {

/// The percentage at which the download is done.
pub const DOWNLOAD_PROGRESS_END: u8 = 59;

/// The percentage at which the files are extracted.
pub const EXTRACT_PROGRESS_END: u8 = 89;

/// The percentage at which everything is done.
pub const REGISTRY_PROGRESS_END: u8 = 100;

/// The file that holds what is installed.
pub const RELEASE_ASSET_NAME: &'static str = "pack.zip";

/// A screen of the installer.
#[derive(Debug, Clone, Copy, PartialEq, Eq, Structural)]
pub enum InstallerStep {
    License,
    Options,
    Installing,
    Complete,
}

/// What the installation tells the screen.
#[derive(Debug)]
pub enum InstallWorkerMessage {
    Progress(u8),
    Finished(Result<Option<String>, String>),
}

/// What follows on a press of the continue button.
#[derive(Debug, Clone, Copy, PartialEq, Eq, Structural)]
pub enum NextAction {
    Stay,
    StartInstall,
    Quit,
}

/// What the installer shows.
#[derive(Debug, Clone)]
pub struct InstallerApp {
    pub step: InstallerStep,
    pub license_accepted: bool,
    pub add_explorer_menu: bool,
    pub install_running: bool,
    pub install_progress: u8,
    pub install_note: Option<String>,
}

impl InstallerApp {
    /// An installation runs exactly while its screen is shown, and no screen
    /// behind the license is shown before it was accepted.
    pub open spec fn wf(self) -> bool {
        &&& self.install_running <==> self.step == InstallerStep::Installing
        &&& self.step != InstallerStep::License ==> self.license_accepted
    }

    /// Starts with the license, not accepted.
    pub fn new() -> (app: Self)
        ensures
            app.wf(),
            app == (InstallerApp {
                step: InstallerStep::License,
                license_accepted: false,
                add_explorer_menu: true,
                install_running: false,
                install_progress: 0,
                install_note: None,
            }),
    {
        InstallerApp {
            step: InstallerStep::License,
            license_accepted: false,
            add_explorer_menu: true,
            install_running: false,
            install_progress: 0,
            install_note: None,
        }
    }

    /// Whether the back button does anything.
    pub fn can_go_back(&self) -> (can: bool)
        ensures
            can == (self.step == InstallerStep::Options),
    {
        match self.step {
            InstallerStep::Options => true,
            _ => false,
        }
    }

    /// Whether the continue button does anything.
    pub open spec fn continues(self) -> bool {
        match self.step {
            InstallerStep::License => self.license_accepted,
            InstallerStep::Options => !self.install_running,
            InstallerStep::Installing => false,
            InstallerStep::Complete => true,
        }
    }

    /// Whether the continue button does anything.
    pub fn can_continue(&self) -> (can: bool)
        ensures
            can == self.continues(),
    {
        match self.step {
            InstallerStep::License => self.license_accepted,
            InstallerStep::Options => !self.install_running,
            InstallerStep::Installing => false,
            InstallerStep::Complete => true,
        }
    }

    /// The key of the text on the continue button.
    pub fn continue_label(&self) -> (key: &'static str)
        ensures
            key == match self.step {
                InstallerStep::Options => "buttons.install",
                InstallerStep::Complete => "buttons.finish",
                _ => "buttons.next",
            },
    {
        match self.step {
            InstallerStep::Options => "buttons.install",
            InstallerStep::Complete => "buttons.finish",
            InstallerStep::License => "buttons.next",
            InstallerStep::Installing => "buttons.next",
        }
    }

    /// The key of the text below the screen.
    pub fn footer_text(&self) -> (key: &'static str)
        ensures
            key == match self.step {
                InstallerStep::License => "footer.license",
                InstallerStep::Options => "footer.options",
                InstallerStep::Installing => "footer.installing",
                InstallerStep::Complete => "footer.complete",
            },
    {
        match self.step {
            InstallerStep::License => "footer.license",
            InstallerStep::Options => "footer.options",
            InstallerStep::Installing => "footer.installing",
            InstallerStep::Complete => "footer.complete",
        }
    }

    /// The key of the text that says how far the installation has come.
    pub fn install_status(&self) -> (key: &'static str)
        ensures
            key == if self.install_progress <= 9 {
                "install.status_preparing"
            } else if self.install_progress <= 59 {
                "install.status_downloading"
            } else if self.install_progress <= 89 {
                "install.status_extracting"
            } else if self.install_progress <= 99 {
                "install.status_registering"
            } else {
                "install.status_completed"
            },
    {
        if self.install_progress <= 9 {
            "install.status_preparing"
        } else if self.install_progress <= 59 {
            "install.status_downloading"
        } else if self.install_progress <= 89 {
            "install.status_extracting"
        } else if self.install_progress <= 99 {
            "install.status_registering"
        } else {
            "install.status_completed"
        }
    }

    /// The license is accepted, or no longer so. Its box stands on the first
    /// screen.
    pub fn toggle_license(&mut self)
        requires
            old(self).wf(),
            old(self).step == InstallerStep::License,
        ensures
            final(self).wf(),
            *final(self) == (InstallerApp {
                license_accepted: !old(self).license_accepted,
                ..*old(self)
            }),
    {
        self.license_accepted = !self.license_accepted;
    }

    /// The menu entry is wanted, or no longer so.
    pub fn toggle_explorer_menu(&mut self)
        requires
            old(self).wf(),
        ensures
            final(self).wf(),
            *final(self) == (InstallerApp {
                add_explorer_menu: !old(self).add_explorer_menu,
                ..*old(self)
            }),
    {
        self.add_explorer_menu = !self.add_explorer_menu;
    }

    /// The continue button was pressed.
    pub fn next(&mut self) -> (action: NextAction)
        requires
            old(self).wf(),
        ensures
            final(self).wf(),
            match old(self).step {
                InstallerStep::License => if old(self).license_accepted {
                    &&& action == NextAction::Stay
                    &&& *final(self) == (InstallerApp {
                        step: InstallerStep::Options,
                        ..*old(self)
                    })
                } else {
                    action == NextAction::Stay && *final(self) == *old(self)
                },
                InstallerStep::Options => {
                    &&& action == NextAction::StartInstall
                    &&& *final(self) == (InstallerApp {
                        step: InstallerStep::Installing,
                        install_running: true,
                        install_progress: 0,
                        install_note: None,
                        ..*old(self)
                    })
                },
                InstallerStep::Installing => action == NextAction::Stay && *final(self) == *old(
                    self,
                ),
                InstallerStep::Complete => action == NextAction::Quit && *final(self) == *old(
                    self,
                ),
            },
            action != NextAction::Stay ==> old(self).continues(),
    {
        match self.step {
            InstallerStep::License => {
                if self.license_accepted {
                    self.step = InstallerStep::Options;
                }
                NextAction::Stay
            },
            InstallerStep::Options => {
                if self.start_install() {
                    NextAction::StartInstall
                } else {
                    NextAction::Stay
                }
            },
            InstallerStep::Complete => NextAction::Quit,
            InstallerStep::Installing => NextAction::Stay,
        }
    }

    /// The back button was pressed.
    pub fn back(&mut self)
        requires
            old(self).wf(),
        ensures
            final(self).wf(),
            *final(self) == if old(self).step == InstallerStep::Options {
                InstallerApp { step: InstallerStep::License, ..*old(self) }
            } else {
                *old(self)
            },
    {
        match self.step {
            InstallerStep::Options => {
                self.step = InstallerStep::License;
            },
            _ => {},
        }
    }

    /// The installation begins, unless one runs.
    pub fn start_install(&mut self) -> (begun: bool)
        requires
            old(self).license_accepted,
        ensures
            begun == !old(self).install_running,
            *final(self) == if begun {
                InstallerApp {
                    step: InstallerStep::Installing,
                    install_running: true,
                    install_progress: 0,
                    install_note: None,
                    ..*old(self)
                }
            } else {
                *old(self)
            },
    {
        if self.install_running {
            return false;
        }
        self.step = InstallerStep::Installing;
        self.install_running = true;
        self.install_progress = 0;
        self.install_note = None;
        true
    }

    /// The installation said something. A failure is shown as a note.
    pub fn on_message(&mut self, message: InstallWorkerMessage)
        requires
            old(self).wf(),
            old(self).install_running,
        ensures
            final(self).wf(),
            *final(self) == match message {
                InstallWorkerMessage::Progress(progress) => InstallerApp {
                    install_progress: progress,
                    ..*old(self)
                },
                InstallWorkerMessage::Finished(result) => InstallerApp {
                    step: InstallerStep::Complete,
                    install_running: false,
                    install_progress: 100,
                    install_note: match result {
                        Ok(note) => note,
                        Err(error) => Some(error),
                    },
                    ..*old(self)
                },
            },
    {
        match message {
            InstallWorkerMessage::Progress(progress) => {
                self.install_progress = progress;
            },
            InstallWorkerMessage::Finished(result) => {
                self.install_progress = 100;
                self.install_running = false;
                self.step = InstallerStep::Complete;
                self.install_note = match result {
                    Ok(note) => note,
                    Err(error) => Some(error),
                };
            },
        }
    }
}

/// A part of the way from `start` to `end`, rounded down. A product beyond the
/// range of the numbers counts as their greatest.
pub open spec fn scaled(start: u8, end: u8, completed: u64, total: u64) -> int {
    if end <= start || total == 0 {
        end as int
    } else {
        let bounded = if completed < total {
            completed as int
        } else {
            total as int
        };
        let product = bounded * (end - start);
        let capped = if product <= u64::MAX {
            product
        } else {
            u64::MAX as int
        };
        start + capped / total as int
    }
}

proof fn lemma_scaled_in_range(start: u8, end: u8, completed: u64, total: u64)
    requires
        start <= end,
    ensures
        start <= scaled(start, end, completed, total) <= end,
{
    if end > start && total != 0 {
        let bounded = if completed < total {
            completed as int
        } else {
            total as int
        };
        let span = (end - start) as int;
        let product = bounded * span;
        let capped = if product <= u64::MAX {
            product
        } else {
            u64::MAX as int
        };
        assert(0 <= capped / total as int <= span) by (nonlinear_arith)
            requires
                0 <= capped <= product,
                product == bounded * span,
                0 <= bounded <= total,
                0 < total,
                0 <= span,
        ;
    }
}

/// Maps work that is done onto the percentages from `start` to `end`.
pub fn scale_progress(start: u8, end: u8, completed: u64, total: u64) -> (progress: u8)
    ensures
        progress == scaled(start, end, completed, total),
{
    if end <= start || total == 0 {
        return end;
    }
    let span: u64 = (end - start) as u64;
    let bounded: u64 = if completed < total {
        completed
    } else {
        total
    };
    let product: u64 = match bounded.checked_mul(span) {
        Some(product) => product,
        None => u64::MAX,
    };
    let quotient: u64 = product / total;
    proof {
        lemma_scaled_in_range(start, end, completed, total);
        assert(quotient == scaled(start, end, completed, total) - start);
    }
    start + quotient as u8
}

/// Progress stays between the percentages it is mapped onto.
pub proof fn law_scale_stays_in_range(start: u8, end: u8, completed: u64, total: u64)
    requires
        start <= end,
    ensures
        start <= scaled(start, end, completed, total) <= end,
{
    lemma_scaled_in_range(start, end, completed, total);
}

/// More work done never shows as less progress.
pub proof fn law_scale_grows(start: u8, end: u8, completed: u64, more: u64, total: u64)
    requires
        completed <= more,
    ensures
        scaled(start, end, completed, total) <= scaled(start, end, more, total),
{
    if end > start && total != 0 {
        let span = (end - start) as int;
        let a = if completed < total {
            completed as int
        } else {
            total as int
        };
        let b = if more < total {
            more as int
        } else {
            total as int
        };
        assert(a * span <= b * span) by (nonlinear_arith)
            requires
                0 <= a <= b,
                0 <= span,
        ;
        let ca = if a * span <= u64::MAX {
            a * span
        } else {
            u64::MAX as int
        };
        let cb = if b * span <= u64::MAX {
            b * span
        } else {
            u64::MAX as int
        };
        assert(ca / total as int <= cb / total as int) by (nonlinear_arith)
            requires
                0 <= ca <= cb,
                0 < total,
        ;
    }
}

/// All work done shows as the end, as long as the numbers hold the product.
pub proof fn law_scale_reaches_end(start: u8, end: u8, completed: u64, total: u64)
    requires
        start <= end,
        completed >= total,
        total * (end - start) <= u64::MAX,
    ensures
        scaled(start, end, completed, total) == end,
{
    if end > start && total != 0 {
        let span = (end - start) as int;
        assert((total * span) / total as int == span) by (nonlinear_arith)
            requires
                0 < total,
                0 <= span,
        ;
    }
}

/// Lets only progress through that goes forward.
pub struct ProgressGate {
    pub last: u8,
    pub reported: Ghost<Seq<u8>>,
}

impl ProgressGate {
    /// What was let through only goes up, and ends with the last.
    pub open spec fn wf(self) -> bool {
        &&& forall|i: int, j: int|
            0 <= i < j < self.reported@.len() ==> #[trigger] self.reported@[i]
                < #[trigger] self.reported@[j]
        &&& forall|i: int|
            0 <= i < self.reported@.len() ==> 0 < #[trigger] self.reported@[i] <= self.last
    }

    /// Nothing was let through.
    pub fn new() -> (gate: Self)
        ensures
            gate.wf(),
            gate.last == 0,
            gate.reported@.len() == 0,
    {
        ProgressGate { last: 0, reported: Ghost(Seq::empty()) }
    }

    /// Lets a percentage through where it is beyond the last.
    pub fn report(&mut self, progress: u8) -> (shown: Option<u8>)
        requires
            old(self).wf(),
        ensures
            final(self).wf(),
            if progress > old(self).last {
                &&& shown == Some(progress)
                &&& final(self).last == progress
                &&& final(self).reported@ == old(self).reported@.push(progress)
            } else {
                shown is None && *final(self) == *old(self)
            },
    {
        if progress > self.last {
            self.last = progress;
            self.reported = Ghost(self.reported@.push(progress));
            Some(progress)
        } else {
            None
        }
    }
}

/// How much of some work is done.
#[derive(Debug, Clone, Copy, PartialEq, Eq, Structural)]
pub struct WorkMeter {
    pub done: u64,
    pub total: u64,
}

/// The sizes of the entries of an archive, added up as far as the number goes. An
/// entry counts as one byte at least.
pub open spec fn entry_work(sizes: Seq<u64>) -> u64
    decreases sizes.len(),
{
    if sizes.len() == 0 {
        0
    } else {
        crate::progress::capped_sum(
            entry_work(sizes.drop_last()),
            if sizes.last() == 0 {
                1
            } else {
                sizes.last()
            },
        )
    }
}

impl WorkMeter {
    /// How much of the work is shown as done.
    pub open spec fn shown(self) -> u64 {
        if self.done < self.total {
            self.done
        } else {
            self.total
        }
    }

    /// A download: of the length that the server tells, else of the size that the
    /// release lists, and of one byte at least.
    pub fn for_download(content_length: Option<u64>, asset_size: u64) -> (meter: Self)
        ensures
            meter.done == 0,
            meter.total == ({
                let len = match content_length {
                    Some(len) => len,
                    None => asset_size,
                };
                if len == 0 {
                    1
                } else {
                    len
                }
            }),
    {
        let len: u64 = match content_length {
            Some(len) => len,
            None => asset_size,
        };
        WorkMeter {
            done: 0,
            total: if len == 0 {
                1
            } else {
                len
            },
        }
    }

    /// The extraction of entries of these sizes.
    pub fn for_entries(sizes: &[u64]) -> (meter: Self)
        ensures
            meter.done == 0,
            meter.total == if entry_work(sizes@) == 0 {
                1
            } else {
                entry_work(sizes@)
            },
    {
        let mut total: u64 = 0;
        let mut i: usize = 0;
        assert(sizes@.take(0) =~= Seq::<u64>::empty());
        while i < sizes.len()
            invariant
                i <= sizes@.len(),
                total == entry_work(sizes@.take(i as int)),
            decreases sizes@.len() - i,
        {
            assert(sizes@.take(i + 1).drop_last() =~= sizes@.take(i as int));
            let size: u64 = if sizes[i] == 0 {
                1
            } else {
                sizes[i]
            };
            total = total.saturating_add(size);
            i = i + 1;
        }
        assert(sizes@.take(i as int) =~= sizes@);
        WorkMeter {
            done: 0,
            total: if total == 0 {
                1
            } else {
                total
            },
        }
    }

    /// Counts work that was done. Returns how much of the whole is shown as done.
    pub fn advance(&mut self, amount: u64) -> (shown: u64)
        ensures
            final(self).total == old(self).total,
            final(self).done == crate::progress::capped_sum(old(self).done, amount),
            shown == final(self).shown(),
            shown <= final(self).total,
    {
        self.done = self.done.saturating_add(amount);
        if self.done < self.total {
            self.done
        } else {
            self.total
        }
    }

    /// Maps what is done of a download onto its percentages.
    pub fn download_progress(&self) -> (progress: u8)
        ensures
            progress == scaled(5, DOWNLOAD_PROGRESS_END, self.shown(), self.total),
    {
        let shown: u64 = if self.done < self.total {
            self.done
        } else {
            self.total
        };
        scale_progress(5, DOWNLOAD_PROGRESS_END, shown, self.total)
    }

    /// Maps what is done of an extraction onto its percentages.
    pub fn extract_progress(&self) -> (progress: u8)
        ensures
            progress == scaled(60, EXTRACT_PROGRESS_END, self.shown(), self.total),
    {
        let shown: u64 = if self.done < self.total {
            self.done
        } else {
            self.total
        };
        scale_progress(60, EXTRACT_PROGRESS_END, shown, self.total)
    }
}

/// Where the files to be installed come from.
#[derive(Debug, Clone, Copy, PartialEq, Eq, Structural)]
pub enum PackSource {
    /// The file beside the installer.
    BesideInstaller,
    /// The file in the working directory.
    WorkingDirectory,
    /// The latest release.
    Download,
}

/// Chooses where the files come from: a local file is taken where there is one,
/// first the one beside the installer.
pub fn find_local_pack_zip(beside_installer: bool, in_working_directory: bool) -> (source:
    PackSource)
    ensures
        source == if beside_installer {
            PackSource::BesideInstaller
        } else if in_working_directory {
            PackSource::WorkingDirectory
        } else {
            PackSource::Download
        },
{
    if beside_installer {
        PackSource::BesideInstaller
    } else if in_working_directory {
        PackSource::WorkingDirectory
    } else {
        PackSource::Download
    }
}

/// A step of an installation.
#[derive(Debug, Clone, Copy, PartialEq, Eq, Structural)]
pub enum InstallAction {
    /// Ask for the releases, and choose the file.
    FetchRelease,
    /// Download the file.
    Download,
    /// Extract the file.
    Extract,
    /// Remove the file that was downloaded.
    RemoveDownload,
    /// Put the shell extension in place.
    InstallShell,
    /// Register the file types.
    RegisterFileTypes,
    /// Register the uninstaller.
    RegisterUninstaller,
    /// Register the menu entries.
    RegisterMenu,
    /// Nothing: the installation is over.
    Finished,
}

/// An installation under way.
pub struct InstallRun {
    pub action: InstallAction,
    pub add_explorer_menu: bool,
    /// A downloaded file is there and must be removed.
    pub download_present: bool,
    pub note: Option<String>,
    pub failure: Option<String>,
}

/// The percentage at which an installation starts.
pub fn start_milestone(source: PackSource) -> (progress: u8)
    ensures
        progress == if source == PackSource::Download {
            1
        } else {
            DOWNLOAD_PROGRESS_END
        },
{
    match source {
        PackSource::Download => 1,
        _ => DOWNLOAD_PROGRESS_END,
    }
}

/// The percentage that is reached once a step is done, where it has one of its
/// own.
pub fn milestone_after(action: InstallAction) -> (progress: Option<u8>)
    ensures
        progress == match action {
            InstallAction::RegisterUninstaller => Some(94u8),
            InstallAction::Finished => Some(REGISTRY_PROGRESS_END),
            _ => None,
        },
{
    match action {
        InstallAction::RegisterUninstaller => Some(94),
        InstallAction::Finished => Some(REGISTRY_PROGRESS_END),
        _ => None,
    }
}

/// What an installation comes to.
pub open spec fn run_result(run: InstallRun) -> Result<Option<String>, String> {
    match run.failure {
        Some(error) => Err(error),
        None => Ok(run.note),
    }
}

impl InstallRun {
    /// A downloaded file is there only while it is made, used or removed, and a
    /// failure leads to the end with at most that removal between.
    pub open spec fn wf(self) -> bool {
        &&& self.download_present ==> self.action == InstallAction::Download || self.action
            == InstallAction::Extract || self.action == InstallAction::RemoveDownload
        &&& self.action == InstallAction::RemoveDownload ==> self.download_present
        &&& self.failure is Some ==> self.action == InstallAction::RemoveDownload || self.action
            == InstallAction::Finished
    }

    /// How many steps are left at most.
    pub open spec fn steps_left(self) -> nat {
        match self.action {
            InstallAction::FetchRelease => 8,
            InstallAction::Download => 7,
            InstallAction::Extract => 6,
            InstallAction::RemoveDownload => 5,
            InstallAction::InstallShell => 4,
            InstallAction::RegisterFileTypes => 3,
            InstallAction::RegisterUninstaller => 2,
            InstallAction::RegisterMenu => 1,
            InstallAction::Finished => 0,
        }
    }

    /// Starts with the file that is there, or by asking for one.
    pub fn start(source: PackSource, add_explorer_menu: bool) -> (run: Self)
        ensures
            run.wf(),
            run == (InstallRun {
                action: if source == PackSource::Download {
                    InstallAction::FetchRelease
                } else {
                    InstallAction::Extract
                },
                add_explorer_menu,
                download_present: false,
                note: None,
                failure: None,
            }),
    {
        let action = match source {
            PackSource::Download => InstallAction::FetchRelease,
            _ => InstallAction::Extract,
        };
        InstallRun { action, add_explorer_menu, download_present: false, note: None, failure: None }
    }

    /// The step that follows on one that went well.
    pub open spec fn next_action(self) -> InstallAction {
        match self.action {
            InstallAction::FetchRelease => InstallAction::Download,
            InstallAction::Download => InstallAction::Extract,
            InstallAction::Extract => if self.download_present {
                InstallAction::RemoveDownload
            } else {
                InstallAction::InstallShell
            },
            InstallAction::RemoveDownload => if self.failure is Some {
                InstallAction::Finished
            } else {
                InstallAction::InstallShell
            },
            InstallAction::InstallShell => InstallAction::RegisterFileTypes,
            InstallAction::RegisterFileTypes => InstallAction::RegisterUninstaller,
            InstallAction::RegisterUninstaller => if self.add_explorer_menu {
                InstallAction::RegisterMenu
            } else {
                InstallAction::Finished
            },
            InstallAction::RegisterMenu => InstallAction::Finished,
            InstallAction::Finished => InstallAction::Finished,
        }
    }

    /// Whether a downloaded file is there after the step: one that failed may have
    /// left a part of it.
    pub open spec fn leaves_download(self) -> bool {
        match self.action {
            InstallAction::Download => true,
            InstallAction::RemoveDownload => false,
            _ => self.download_present,
        }
    }

    /// Takes down what came of the step. Where it failed, the installation ends,
    /// once a downloaded file was removed. Whether the removal itself went well
    /// does not matter.
    pub fn done(self, outcome: Result<Option<String>, String>) -> (next: Self)
        requires
            self.wf(),
            self.action != InstallAction::Finished,
        ensures
            next.wf(),
            next.steps_left() < self.steps_left(),
            next.add_explorer_menu == self.add_explorer_menu,
            next.download_present == self.leaves_download(),
            match outcome {
                Err(error) => if self.action == InstallAction::RemoveDownload {
                    &&& next.action == self.next_action()
                    &&& next.failure == self.failure
                    &&& next.note == self.note
                } else {
                    &&& next.failure == Some(error)
                    &&& next.note == self.note
                    &&& next.action == if next.download_present {
                        InstallAction::RemoveDownload
                    } else {
                        InstallAction::Finished
                    }
                },
                Ok(note) => {
                    &&& next.action == self.next_action()
                    &&& next.failure == self.failure
                    &&& next.note == if self.action == InstallAction::InstallShell {
                        note
                    } else {
                        self.note
                    }
                },
            },
    {
        let removal = match self.action {
            InstallAction::RemoveDownload => true,
            _ => false,
        };
        let download_present: bool = match self.action {
            InstallAction::Download => true,
            InstallAction::RemoveDownload => false,
            _ => self.download_present,
        };
        let outcome: Result<Option<String>, String> = match outcome {
            Err(error) => if removal {
                Ok(None)
            } else {
                Err(error)
            },
            Ok(note) => Ok(note),
        };
        let note = match outcome {
            Err(error) => {
                let action = if download_present {
                    InstallAction::RemoveDownload
                } else {
                    InstallAction::Finished
                };
                return InstallRun {
                    action,
                    add_explorer_menu: self.add_explorer_menu,
                    download_present,
                    note: self.note,
                    failure: Some(error),
                };
            },
            Ok(note) => note,
        };
        let action = match self.action {
            InstallAction::FetchRelease => InstallAction::Download,
            InstallAction::Download => InstallAction::Extract,
            InstallAction::Extract => if self.download_present {
                InstallAction::RemoveDownload
            } else {
                InstallAction::InstallShell
            },
            InstallAction::RemoveDownload => if self.failure.is_some() {
                InstallAction::Finished
            } else {
                InstallAction::InstallShell
            },
            InstallAction::InstallShell => InstallAction::RegisterFileTypes,
            InstallAction::RegisterFileTypes => InstallAction::RegisterUninstaller,
            InstallAction::RegisterUninstaller => if self.add_explorer_menu {
                InstallAction::RegisterMenu
            } else {
                InstallAction::Finished
            },
            InstallAction::RegisterMenu => InstallAction::Finished,
            InstallAction::Finished => InstallAction::Finished,
        };
        let shell = match self.action {
            InstallAction::InstallShell => true,
            _ => false,
        };
        InstallRun {
            action,
            add_explorer_menu: self.add_explorer_menu,
            download_present,
            note: if shell {
                note
            } else {
                self.note
            },
            failure: self.failure,
        }
    }

    /// The result, once the installation is over.
    pub fn result(self) -> (r: Result<Option<String>, String>)
        requires
            self.action == InstallAction::Finished,
        ensures
            r == run_result(self),
    {
        match self.failure {
            Some(error) => Err(error),
            None => Ok(self.note),
        }
    }
}

/// An installation that is over leaves no downloaded file behind.
pub proof fn law_no_download_is_left(run: InstallRun)
    requires
        run.wf(),
        run.action == InstallAction::Finished,
    ensures
        !run.download_present,
{
}

/// An installation from its start on: the states it went through, and what came of
/// each of their steps.
pub open spec fn is_installation(
    source: PackSource,
    add_explorer_menu: bool,
    runs: Seq<InstallRun>,
    outcomes: Seq<Result<Option<String>, String>>,
) -> bool {
    &&& runs.len() == outcomes.len() + 1
    &&& call_ensures(InstallRun::start, (source, add_explorer_menu), runs[0])
    &&& forall|i: int|
        0 <= i < outcomes.len() ==> (#[trigger] runs[i]).action != InstallAction::Finished
    &&& forall|i: int|
        0 <= i < outcomes.len() ==> call_ensures(
            InstallRun::done,
            (#[trigger] runs[i], outcomes[i]),
            runs[i + 1],
        )
}

/// The steps that an installation did, in their order.
pub open spec fn steps_done(runs: Seq<InstallRun>) -> Seq<InstallAction> {
    Seq::new((runs.len() - 1) as nat, |i: int| runs[i].action)
}

/// The steps that get hold of the files: a local pack is there, a release has to be
/// fetched and cleared away again.
pub open spec fn steps_to_files(source: PackSource) -> Seq<InstallAction> {
    if source == PackSource::Download {
        seq![
            InstallAction::FetchRelease,
            InstallAction::Download,
            InstallAction::Extract,
            InstallAction::RemoveDownload,
        ]
    } else {
        seq![InstallAction::Extract]
    }
}

/// The steps that put the files to use.
pub open spec fn steps_to_use(add_explorer_menu: bool) -> Seq<InstallAction> {
    let always = seq![
        InstallAction::InstallShell,
        InstallAction::RegisterFileTypes,
        InstallAction::RegisterUninstaller,
    ];
    if add_explorer_menu {
        always.push(InstallAction::RegisterMenu)
    } else {
        always
    }
}

/// The steps of an installation of which none fails.
pub open spec fn steps_in_all(source: PackSource, add_explorer_menu: bool) -> Seq<InstallAction> {
    steps_to_files(source) + steps_to_use(add_explorer_menu)
}

/// As long as no step failed, the steps come in their order, and the end comes behind
/// the last of them.
proof fn lemma_steps_in_order(
    source: PackSource,
    add_explorer_menu: bool,
    runs: Seq<InstallRun>,
    outcomes: Seq<Result<Option<String>, String>>,
    n: int,
)
    requires
        is_installation(source, add_explorer_menu, runs, outcomes),
        0 <= n < runs.len(),
        forall|i: int|
            0 <= i < n ==> (#[trigger] outcomes[i] is Ok || runs[i].action
                == InstallAction::RemoveDownload),
    ensures
        n <= steps_in_all(source, add_explorer_menu).len(),
        runs[n].action == if n < steps_in_all(source, add_explorer_menu).len() {
            steps_in_all(source, add_explorer_menu)[n]
        } else {
            InstallAction::Finished
        },
        runs[n].failure is None,
        runs[n].add_explorer_menu == add_explorer_menu,
        runs[n].download_present == (source == PackSource::Download && 2 <= n <= 3),
    decreases n,
{
    if n > 0 {
        lemma_steps_in_order(source, add_explorer_menu, runs, outcomes, n - 1);
        assert(runs[n - 1].action != InstallAction::Finished);
        assert(call_ensures(InstallRun::done, (runs[n - 1], outcomes[n - 1]), runs[n - 1 + 1]));
        assert(outcomes[n - 1] is Ok || runs[n - 1].action == InstallAction::RemoveDownload);
    }
}

/// An installation that is over without a failure has done all its steps, each once
/// and in their order: it got hold of the files, extracted them, put the shell
/// extension in place, registered the file types and the uninstaller, and the menu
/// entries exactly where they are wanted, whatever the source of the files.
pub proof fn law_finished_installation_did_every_step(
    source: PackSource,
    add_explorer_menu: bool,
    runs: Seq<InstallRun>,
    outcomes: Seq<Result<Option<String>, String>>,
)
    requires
        is_installation(source, add_explorer_menu, runs, outcomes),
        runs.last().action == InstallAction::Finished,
        runs.last().failure is None,
    ensures
        steps_done(runs) == steps_in_all(source, add_explorer_menu),
{
    let n = outcomes.len() as int;
    assert forall|i: int| 0 <= i < n implies (#[trigger] outcomes[i] is Ok || runs[i].action
        == InstallAction::RemoveDownload) by {
        if outcomes[i] is Err && runs[i].action != InstallAction::RemoveDownload {
            lemma_failure_is_kept(source, add_explorer_menu, runs, outcomes, i, n);
        }
    }
    lemma_steps_in_order(source, add_explorer_menu, runs, outcomes, n);
    assert forall|i: int| 0 <= i < n implies runs[i].action == #[trigger] steps_in_all(
        source,
        add_explorer_menu,
    )[i] by {
        lemma_steps_in_order(source, add_explorer_menu, runs, outcomes, i);
    }
    assert(steps_done(runs) =~= steps_in_all(source, add_explorer_menu));
}

/// A failure stays to the end.
proof fn lemma_failure_is_kept(
    source: PackSource,
    add_explorer_menu: bool,
    runs: Seq<InstallRun>,
    outcomes: Seq<Result<Option<String>, String>>,
    at: int,
    n: int,
)
    requires
        is_installation(source, add_explorer_menu, runs, outcomes),
        0 <= at < n < runs.len(),
        outcomes[at] is Err,
        runs[at].action != InstallAction::RemoveDownload,
    ensures
        runs[n].failure is Some,
        runs[n].action == InstallAction::RemoveDownload || runs[n].action
            == InstallAction::Finished,
        runs[n].action == InstallAction::RemoveDownload ==> n == at + 1 && runs[at].action
            != InstallAction::FetchRelease,
    decreases n,
{
    assert(runs[n - 1].action != InstallAction::Finished);
    assert(call_ensures(InstallRun::done, (runs[n - 1], outcomes[n - 1]), runs[n - 1 + 1]));
    if n - 1 > at {
        lemma_failure_is_kept(source, add_explorer_menu, runs, outcomes, at, n - 1);
    }
}

/// A file of a release.
#[derive(Debug, Clone)]
pub struct GithubReleaseAsset {
    pub browser_download_url: String,
    pub size: u64,
}

/// A release.
#[derive(Debug, Clone)]
pub struct GithubRelease {
    pub draft: bool,
    pub prerelease: bool,
    pub assets: Vec<GithubReleaseAsset>,
}

/// What stands behind the last slash.
pub open spec fn last_segment(url: Seq<char>) -> Seq<char>
    decreases url.len(),
{
    if url.len() == 0 || url.last() == '/' {
        Seq::empty()
    } else {
        last_segment(url.drop_last()).push(url.last())
    }
}

/// The texts are equal but for the case of ASCII letters.
pub open spec fn same_ignoring_case(a: Seq<char>, b: Seq<char>) -> bool {
    &&& a.len() == b.len()
    &&& forall|i: int| 0 <= i < a.len() ==> ascii_lower(#[trigger] a[i]) == ascii_lower(b[i])
}

/// The asset is the file that holds what is installed.
pub open spec fn is_pack(asset: GithubReleaseAsset) -> bool {
    same_ignoring_case(last_segment(asset.browser_download_url@), RELEASE_ASSET_NAME@)
}

/// The release is one for everybody.
pub open spec fn is_stable(release: GithubRelease) -> bool {
    !release.prerelease && !release.draft
}

/// None of the first `n` assets is the file.
pub open spec fn no_pack(assets: Seq<GithubReleaseAsset>, n: int) -> bool {
    forall|j: int| 0 <= j < n ==> !is_pack(#[trigger] assets[j])
}

/// None of the first `n` releases that are for everybody has the file.
pub open spec fn none_has_pack(releases: Seq<GithubRelease>, n: int) -> bool {
    forall|i: int|
        0 <= i < n && is_stable(#[trigger] releases[i]) ==> no_pack(
            releases[i].assets@,
            releases[i].assets@.len() as int,
        )
}

/// Asset `j` of release `i` is the first that is the file.
pub open spec fn is_first_pack(releases: Seq<GithubRelease>, i: int, j: int) -> bool {
    &&& 0 <= i < releases.len()
    &&& is_stable(releases[i])
    &&& 0 <= j < releases[i].assets@.len()
    &&& is_pack(releases[i].assets@[j])
    &&& none_has_pack(releases, i)
    &&& no_pack(releases[i].assets@, j)
}

/// Whether the character is that letter, small or capital.
fn is_letter(ch: char, small: char, capital: char) -> (is: bool)
    requires
        'a' <= small <= 'z',
        capital as u32 + 32 == small as u32,
    ensures
        is == (ascii_lower(ch) == ascii_lower(small)),
{
    ch == small || ch == capital
}

/// Whether a text is the name of the file that holds what is installed.
fn is_pack_name(name: &[char]) -> (is: bool)
    ensures
        is == same_ignoring_case(name@, RELEASE_ASSET_NAME@),
{
    proof {
        reveal_strlit("pack.zip");
    }
    if name.len() != 8 {
        return false;
    }
    let is = is_letter(name[0], 'p', 'P') && is_letter(name[1], 'a', 'A') && is_letter(
        name[2],
        'c',
        'C',
    ) && is_letter(name[3], 'k', 'K') && name[4] == '.' && is_letter(name[5], 'z', 'Z')
        && is_letter(name[6], 'i', 'I') && is_letter(name[7], 'p', 'P');
    proof {
        let pack = RELEASE_ASSET_NAME@;
        if is {
            assert forall|i: int| 0 <= i < 8 implies ascii_lower(#[trigger] name@[i])
                == ascii_lower(pack[i]) by {}
        } else if same_ignoring_case(name@, pack) {
            assert(ascii_lower(name@[0]) == ascii_lower(pack[0]));
            assert(ascii_lower(name@[1]) == ascii_lower(pack[1]));
            assert(ascii_lower(name@[2]) == ascii_lower(pack[2]));
            assert(ascii_lower(name@[3]) == ascii_lower(pack[3]));
            assert(ascii_lower(name@[4]) == ascii_lower(pack[4]));
            assert(ascii_lower(name@[5]) == ascii_lower(pack[5]));
            assert(ascii_lower(name@[6]) == ascii_lower(pack[6]));
            assert(ascii_lower(name@[7]) == ascii_lower(pack[7]));
        }
    }
    is
}

/// Cuts off what stands before the last slash.
fn cut_last_segment(url: &str) -> (segment: Vec<char>)
    ensures
        segment@ == last_segment(url@),
{
    let chars = chars_of(url);
    let mut segment: Vec<char> = Vec::new();
    let mut i: usize = 0;
    while i < chars.len()
        invariant
            i <= chars@.len(),
            chars@ == url@,
            segment@ == last_segment(url@.take(i as int)),
        decreases chars@.len() - i,
    {
        assert(url@.take(i + 1).drop_last() =~= url@.take(i as int));
        if chars[i] == '/' {
            segment = Vec::new();
        } else {
            segment.push(chars[i]);
        }
        i = i + 1;
    }
    assert(url@.take(i as int) =~= url@);
    segment
}

/// Finds the file among the assets of a release.
fn find_pack(assets: &[GithubReleaseAsset]) -> (found: Option<usize>)
    ensures
        match found {
            Some(j) => j < assets@.len() && is_pack(assets@[j as int]) && no_pack(
                assets@,
                j as int,
            ),
            None => no_pack(assets@, assets@.len() as int),
        },
{
    let mut j: usize = 0;
    while j < assets.len()
        invariant
            j <= assets@.len(),
            no_pack(assets@, j as int),
        decreases assets@.len() - j,
    {
        let segment = cut_last_segment(assets[j].browser_download_url.as_str());
        if is_pack_name(segment.as_slice()) {
            return Some(j);
        }
        j = j + 1;
    }
    None
}

/// Chooses the file to download: the first of that name in the first release for
/// everybody that has one.
pub fn select_release_asset(releases: &[GithubRelease]) -> (r: Result<GithubReleaseAsset, String>)
    ensures
        match r {
            Ok(asset) => exists|i: int, j: int|
                {
                    &&& #[trigger] is_first_pack(releases@, i, j)
                    &&& asset.browser_download_url@
                        == releases@[i].assets@[j].browser_download_url@
                    &&& asset.size == releases@[i].assets@[j].size
                },
            Err(message) => {
                &&& none_has_pack(releases@, releases@.len() as int)
                &&& message@ == "latest stable release does not contain pack.zip"@
            },
        },
{
    let mut i: usize = 0;
    while i < releases.len()
        invariant
            i <= releases@.len(),
            none_has_pack(releases@, i as int),
        decreases releases@.len() - i,
    {
        if !releases[i].prerelease && !releases[i].draft {
            match find_pack(releases[i].assets.as_slice()) {
                Some(j) => {
                    let asset = &releases[i].assets[j];
                    assert(is_first_pack(releases@, i as int, j as int));
                    return Ok(
                        GithubReleaseAsset {
                            browser_download_url: asset.browser_download_url.clone(),
                            size: asset.size,
                        },
                    );
                },
                None => {},
            }
        }
        i = i + 1;
    }
    Err("latest stable release does not contain pack.zip".to_string())
}

/// Where a step fails, the installation ends: nothing is done behind it but to clear
/// away a download that was begun, and the failure is what it comes to. That the
/// clearing away fails does not matter.
pub proof fn law_failed_step_ends_the_installation(
    source: PackSource,
    add_explorer_menu: bool,
    runs: Seq<InstallRun>,
    outcomes: Seq<Result<Option<String>, String>>,
    at: int,
    error: String,
    r: Result<Option<String>, String>,
)
    requires
        is_installation(source, add_explorer_menu, runs, outcomes),
        runs.last().action == InstallAction::Finished,
        0 <= at < outcomes.len(),
        runs[at].action != InstallAction::RemoveDownload,
        outcomes[at] == Err::<Option<String>, String>(error),
        forall|i: int|
            0 <= i < at ==> (#[trigger] outcomes[i] is Ok || runs[i].action
                == InstallAction::RemoveDownload),
        call_ensures(InstallRun::result, (runs.last(),), r),
    ensures
        r == Err::<Option<String>, String>(error),
        steps_done(runs) == steps_in_all(source, add_explorer_menu).take(at + 1) + (
        if source == PackSource::Download && 1 <= at <= 2 {
            seq![InstallAction::RemoveDownload]
        } else {
            Seq::empty()
        }),
{
    let all = steps_in_all(source, add_explorer_menu);
    lemma_steps_in_order(source, add_explorer_menu, runs, outcomes, at);
    assert(runs[at].action != InstallAction::Finished);
    assert(call_ensures(InstallRun::done, (runs[at], outcomes[at]), runs[at + 1]));
    let cleared = source == PackSource::Download && 1 <= at <= 2;
    if cleared {
        assert(runs[at + 1].action == InstallAction::RemoveDownload);
        assert(at + 1 < outcomes.len());
        assert(call_ensures(InstallRun::done, (runs[at + 1], outcomes[at + 1]), runs[at + 1 + 1]));
        assert(runs[at + 2].action == InstallAction::Finished);
        if at + 2 < outcomes.len() {
            assert(runs[at + 2].action != InstallAction::Finished);
        }
    } else {
        assert(runs[at + 1].action == InstallAction::Finished);
        if at + 1 < outcomes.len() {
            assert(runs[at + 1].action != InstallAction::Finished);
        }
    }
    assert forall|i: int| 0 <= i <= at implies runs[i].action == #[trigger] all[i] by {
        lemma_steps_in_order(source, add_explorer_menu, runs, outcomes, i);
    }
    assert(steps_done(runs) =~= all.take(at + 1) + (if cleared {
        seq![InstallAction::RemoveDownload]
    } else {
        Seq::empty()
    }));
}

/// The note of an installation that is over without a failure is the one that came with
/// the shell extension.
pub proof fn law_note_comes_with_the_shell(
    source: PackSource,
    add_explorer_menu: bool,
    runs: Seq<InstallRun>,
    outcomes: Seq<Result<Option<String>, String>>,
    r: Result<Option<String>, String>,
)
    requires
        is_installation(source, add_explorer_menu, runs, outcomes),
        runs.last().action == InstallAction::Finished,
        runs.last().failure is None,
        call_ensures(InstallRun::result, (runs.last(),), r),
    ensures
        r == outcomes[if source == PackSource::Download {
            4int
        } else {
            1
        }],
{
    let n = outcomes.len() as int;
    let shell: int = if source == PackSource::Download {
        4
    } else {
        1
    };
    law_finished_installation_did_every_step(source, add_explorer_menu, runs, outcomes);
    assert forall|i: int| 0 <= i < n implies (#[trigger] outcomes[i] is Ok || runs[i].action
        == InstallAction::RemoveDownload) by {
        if outcomes[i] is Err && runs[i].action != InstallAction::RemoveDownload {
            lemma_failure_is_kept(source, add_explorer_menu, runs, outcomes, i, n);
        }
    }
    assert(steps_done(runs).len() == n);
    lemma_steps_in_order(source, add_explorer_menu, runs, outcomes, shell);
    assert(call_ensures(InstallRun::done, (runs[shell], outcomes[shell]), runs[shell + 1]));
    assert(outcomes[shell] is Ok);
    lemma_note_is_kept(source, add_explorer_menu, runs, outcomes, shell, n);
}

proof fn lemma_note_is_kept(
    source: PackSource,
    add_explorer_menu: bool,
    runs: Seq<InstallRun>,
    outcomes: Seq<Result<Option<String>, String>>,
    shell: int,
    n: int,
)
    requires
        is_installation(source, add_explorer_menu, runs, outcomes),
        0 <= shell < n < runs.len(),
        runs[shell].action == InstallAction::InstallShell,
        forall|i: int|
            0 <= i < n ==> (#[trigger] outcomes[i] is Ok || runs[i].action
                == InstallAction::RemoveDownload),
        shell == if source == PackSource::Download {
            4int
        } else {
            1
        },
    ensures
        Ok::<Option<String>, String>(runs[n].note) == outcomes[shell],
    decreases n,
{
    lemma_steps_in_order(source, add_explorer_menu, runs, outcomes, n - 1);
    assert(runs[n - 1].action != InstallAction::Finished);
    assert(call_ensures(InstallRun::done, (runs[n - 1], outcomes[n - 1]), runs[n - 1 + 1]));
    assert(outcomes[n - 1] is Ok || runs[n - 1].action == InstallAction::RemoveDownload);
    if n - 1 > shell {
        lemma_note_is_kept(source, add_explorer_menu, runs, outcomes, shell, n - 1);
    }
}

/// The percentages that are shown follow on one another: a download stays from 5 to 59
/// and an extraction from 60 to 89, each ends at the upper one, and the milestones lie
/// ahead of and behind them.
pub proof fn law_percentages_follow_on_one_another(
    download: &WorkMeter,
    extract: &WorkMeter,
    source: PackSource,
    action: InstallAction,
    at_start: u8,
    downloading: u8,
    extracting: u8,
    after: Option<u8>,
)
    requires
        call_ensures(start_milestone, (source,), at_start),
        call_ensures(WorkMeter::download_progress, (download,), downloading),
        call_ensures(WorkMeter::extract_progress, (extract,), extracting),
        call_ensures(milestone_after, (action,), after),
    ensures
        source == PackSource::Download ==> 0 < at_start < 5,
        source != PackSource::Download ==> at_start == 59,
        5 <= downloading <= 59,
        60 <= extracting <= 89,
        download.done == 0 && download.total > 0 ==> downloading == 5,
        extract.done == 0 && extract.total > 0 ==> extracting == 60,
        download.done >= download.total && download.total <= u64::MAX / 54 ==> downloading == 59,
        extract.done >= extract.total && extract.total <= u64::MAX / 54 ==> extracting == 89,
        after matches Some(progress) ==> progress == if action == InstallAction::Finished {
            100u8
        } else {
            94
        },
        after is Some <==> action == InstallAction::Finished || action
            == InstallAction::RegisterUninstaller,
{
    law_scale_stays_in_range(5, 59, download.shown(), download.total);
    law_scale_stays_in_range(60, 89, extract.shown(), extract.total);
    if download.done >= download.total && download.total <= u64::MAX / 54 {
        assert(download.total * 54 <= u64::MAX);
        law_scale_reaches_end(5, 59, download.shown(), download.total);
    }
    if extract.done >= extract.total && extract.total <= u64::MAX / 54 {
        assert(extract.total * 29 <= u64::MAX);
        law_scale_reaches_end(60, 89, extract.shown(), extract.total);
    }
    if download.done == 0 && download.total > 0 {
        assert(0int * 54 / download.total as int == 0) by (nonlinear_arith)
            requires
                download.total > 0,
        ;
    }
    if extract.done == 0 && extract.total > 0 {
        assert(0int * 29 / extract.total as int == 0) by (nonlinear_arith)
            requires
                extract.total > 0,
        ;
    }
}

/// Half of the work shows as half of the way, up to rounding down: the progress is the
/// largest number of percents that the work done is good for.
pub proof fn law_scale_is_proportional(
    start: u8,
    end: u8,
    completed: u64,
    total: u64,
    progress: u8,
)
    requires
        call_ensures(scale_progress, (start, end, completed, total), progress),
        start < end,
        completed <= total,
        0 < total,
        total <= u64::MAX / 255,
    ensures
        (progress - start) * total <= completed * (end - start),
        completed * (end - start) < (progress - start + 1) * total,
{
    let span = (end - start) as int;
    let product = completed * span;
    assert(product <= u64::MAX) by (nonlinear_arith)
        requires
            product == completed * span,
            0 <= completed <= u64::MAX / 255,
            0 <= span <= 255,
    ;
    let q = product / total as int;
    assert(q * total <= product && product < (q + 1) * total) by (nonlinear_arith)
        requires
            q == product / total as int,
            0 < total,
    ;
    assert(progress - start == q);
}

/// The pack is downloaded only where there is none on the machine, and the one beside
/// the installer goes before that in the working directory.
pub proof fn law_local_packs_go_first(beside: bool, working: bool, source: PackSource)
    requires
        call_ensures(find_local_pack_zip, (beside, working), source),
    ensures
        source == PackSource::Download <==> !beside && !working,
        source == PackSource::BesideInstaller <==> beside,
        source == PackSource::WorkingDirectory <==> working && !beside,
{
}

/// The address leads to the pack: what stands behind its last slash is `pack.zip`, in
/// letters of any case.
pub open spec fn leads_to_pack(url: Seq<char>, name_at: int) -> bool {
    &&& 0 <= name_at
    &&& url.len() == name_at + 8
    &&& name_at > 0 ==> url[name_at - 1] == '/'
    &&& url[name_at] == 'p' || url[name_at] == 'P'
    &&& url[name_at + 1] == 'a' || url[name_at + 1] == 'A'
    &&& url[name_at + 2] == 'c' || url[name_at + 2] == 'C'
    &&& url[name_at + 3] == 'k' || url[name_at + 3] == 'K'
    &&& url[name_at + 4] == '.'
    &&& url[name_at + 5] == 'z' || url[name_at + 5] == 'Z'
    &&& url[name_at + 6] == 'i' || url[name_at + 6] == 'I'
    &&& url[name_at + 7] == 'p' || url[name_at + 7] == 'P'
}

proof fn lemma_last_segment(url: Seq<char>)
    ensures
        last_segment(url).len() <= url.len(),
        last_segment(url) == url.skip(url.len() - last_segment(url).len()),
        last_segment(url).len() < url.len() ==> url[url.len() - last_segment(url).len() - 1] == '/',
        forall|i: int| 0 <= i < last_segment(url).len() ==> last_segment(url)[i] != '/',
    decreases url.len(),
{
    if url.len() == 0 || url.last() == '/' {
        assert(url.skip(url.len() as int) =~= Seq::<char>::empty());
    } else {
        let front = url.drop_last();
        lemma_last_segment(front);
        let seg = last_segment(front);
        assert(last_segment(url) =~= url.skip(url.len() - last_segment(url).len())) by {
            assert(front.skip(front.len() - seg.len()) =~= seg);
            assert forall|i: int| 0 <= i < seg.len() implies seg[i] == url[url.len() - 1
                - seg.len() + i] by {
                assert(front.skip(front.len() - seg.len())[i] == front[front.len() - seg.len()
                    + i]);
            }
        }
        assert forall|i: int| 0 <= i < last_segment(url).len() implies last_segment(url)[i]
            != '/' by {
            if i < seg.len() {
                assert(last_segment(url)[i] == seg[i]);
            }
        }
    }
}

proof fn lemma_leads_to_pack(asset: GithubReleaseAsset)
    ensures
        is_pack(asset) <==> leads_to_pack(
            asset.browser_download_url@,
            asset.browser_download_url@.len() - 8,
        ),
{
    let url = asset.browser_download_url@;
    let seg = last_segment(url);
    let at = url.len() - 8;
    reveal_strlit("pack.zip");
    lemma_last_segment(url);
    let pack = "pack.zip"@;
    if is_pack(asset) {
        assert(seg.len() == 8);
        assert forall|i: int| 0 <= i < 8 implies #[trigger] seg[i] == url[at + i] by {
            assert(url.skip(at)[i] == url[at + i]);
        }
        assert(ascii_lower(seg[0]) == ascii_lower(pack[0]));
        assert(ascii_lower(seg[1]) == ascii_lower(pack[1]));
        assert(ascii_lower(seg[2]) == ascii_lower(pack[2]));
        assert(ascii_lower(seg[3]) == ascii_lower(pack[3]));
        assert(ascii_lower(seg[4]) == ascii_lower(pack[4]));
        assert(ascii_lower(seg[5]) == ascii_lower(pack[5]));
        assert(ascii_lower(seg[6]) == ascii_lower(pack[6]));
        assert(ascii_lower(seg[7]) == ascii_lower(pack[7]));
    }
    if leads_to_pack(url, at) {
        let k = url.len() - seg.len();
        if seg.len() < 8 {
            assert(url[k - 1] == '/');
        } else if seg.len() > 8 {
            assert(seg[seg.len() - 9] == url[at - 1]) by {
                assert(url.skip(k)[seg.len() - 9] == url[at - 1]);
            }
        }
        assert(seg.len() == 8);
        assert forall|i: int| 0 <= i < 8 implies ascii_lower(#[trigger] seg[i]) == ascii_lower(
            pack[i],
        ) by {
            assert(url.skip(at)[i] == url[at + i]);
        }
    }
}

/// The file that is downloaded is a pack of a release for everybody, neither a draft
/// nor a preview, and no release ahead of that has one; where a release for everybody
/// has a pack, one is found.
pub proof fn law_released_pack_is_chosen(
    releases: &[GithubRelease],
    r: Result<GithubReleaseAsset, String>,
)
    requires
        call_ensures(select_release_asset, (releases,), r),
    ensures
        r matches Ok(asset) ==> exists|i: int, j: int|
            0 <= i < releases@.len() && 0 <= j < releases@[i].assets@.len()
                && !releases@[i].draft && !releases@[i].prerelease && leads_to_pack(
                asset.browser_download_url@,
                asset.browser_download_url@.len() - 8,
            ) && asset.browser_download_url@ == (
            #[trigger] releases@[i].assets@[j]).browser_download_url@ && asset.size
                == releases@[i].assets@[j].size && (forall|k: int, l: int|
                0 <= k < i && 0 <= l < releases@[k].assets@.len() && !releases@[k].draft
                    && !releases@[k].prerelease ==> !leads_to_pack(
                    (#[trigger] releases@[k].assets@[l]).browser_download_url@,
                    releases@[k].assets@[l].browser_download_url@.len() - 8,
                )),
        r is Err ==> forall|k: int, l: int|
            0 <= k < releases@.len() && 0 <= l < releases@[k].assets@.len() && !releases@[k].draft
                && !releases@[k].prerelease ==> !leads_to_pack(
                (#[trigger] releases@[k].assets@[l]).browser_download_url@,
                releases@[k].assets@[l].browser_download_url@.len() - 8,
            ),
{
    assert forall|n: int, k: int, l: int|
        #![trigger none_has_pack(releases@, n), releases@[k].assets@[l]]
        none_has_pack(releases@, n) && 0 <= k < n && 0 <= l < releases@[k].assets@.len()
            && !releases@[k].draft && !releases@[k].prerelease implies !leads_to_pack(
        releases@[k].assets@[l].browser_download_url@,
        releases@[k].assets@[l].browser_download_url@.len() - 8,
    ) by {
        assert(is_stable(releases@[k]));
        assert(!is_pack(releases@[k].assets@[l]));
        lemma_leads_to_pack(releases@[k].assets@[l]);
    }
    if let Ok(asset) = r {
        let (i, j) = choose|i: int, j: int|
            {
                &&& #[trigger] is_first_pack(releases@, i, j)
                &&& asset.browser_download_url@ == releases@[i].assets@[j].browser_download_url@
                &&& asset.size == releases@[i].assets@[j].size
            };
        lemma_leads_to_pack(releases@[i].assets@[j]);
        assert(none_has_pack(releases@, i));
        assert(releases@[i].assets@[j].browser_download_url@ == asset.browser_download_url@);
    } else {
        assert(none_has_pack(releases@, releases@.len() as int));
    }
}

/// So many backslashes.
pub open spec fn backslashes(n: nat) -> Seq<char> {
    Seq::new(n, |i: int| '\\')
}

/// The rest of a quoted argument, behind `run` backslashes: the backslashes in
/// front of a quotation mark are doubled, and it gets one more; those at the end
/// are doubled before the closing mark.
pub open spec fn quoted_rest(rest: Seq<char>, run: nat) -> Seq<char>
    decreases rest.len(),
{
    if rest.len() == 0 {
        backslashes(run).push('"')
    } else if rest[0] == '\\' {
        seq!['\\'] + quoted_rest(rest.drop_first(), run + 1)
    } else if rest[0] == '"' {
        backslashes(run + 1).push('"') + quoted_rest(rest.drop_first(), 0)
    } else {
        seq![rest[0]] + quoted_rest(rest.drop_first(), 0)
    }
}

/// The argument must be quoted.
pub open spec fn needs_quotes(arg: Seq<char>) -> bool {
    arg.contains(' ') || arg.contains('\t') || arg.contains('"')
}

/// The argument as it stands in a command line.
pub open spec fn quoted(arg: Seq<char>) -> Seq<char> {
    if needs_quotes(arg) {
        seq!['"'] + quoted_rest(arg, 0)
    } else {
        arg
    }
}

/// Whether an argument must be quoted.
fn must_quote(chars: &[char]) -> (must: bool)
    ensures
        must == needs_quotes(chars@),
{
    let mut i: usize = 0;
    while i < chars.len()
        invariant
            i <= chars@.len(),
            forall|j: int|
                0 <= j < i ==> chars@[j] != ' ' && chars@[j] != '\t' && chars@[j] != '"',
        decreases chars@.len() - i,
    {
        if chars[i] == ' ' || chars[i] == '\t' || chars[i] == '"' {
            assert(chars@.contains(chars@[i as int]));
            return true;
        }
        i = i + 1;
    }
    false
}

/// Appends backslashes.
fn push_backslashes(text: &mut String, n: usize)
    ensures
        final(text)@ == old(text)@ + backslashes(n as nat),
{
    let mut i: usize = 0;
    assert(text@ =~= old(text)@ + backslashes(0));
    while i < n
        invariant
            i <= n,
            text@ == old(text)@ + backslashes(i as nat),
        decreases n - i,
    {
        text.push('\\');
        i = i + 1;
        assert(text@ =~= old(text)@ + backslashes(i as nat));
    }
}

/// Quotes an argument for a Windows command line, where it must be.
pub fn quote_windows_arg(arg: &str) -> (text: String)
    ensures
        text@ == quoted(arg@),
{
    let chars = chars_of(arg);
    if !must_quote(chars.as_slice()) {
        return arg.to_string();
    }
    let mut text = String::new();
    text.push('"');
    let mut run: usize = 0;
    let mut i: usize = 0;
    assert(arg@.skip(0) =~= arg@);
    assert(text@ =~= seq!['"']);
    while i < chars.len()
        invariant
            i <= chars@.len(),
            chars@ == arg@,
            run <= i,
            text@ + quoted_rest(arg@.skip(i as int), run as nat) == seq!['"'] + quoted_rest(
                arg@,
                0,
            ),
        decreases chars@.len() - i,
    {
        let ghost before = text@;
        let ghost rest = arg@.skip(i as int);
        assert(rest.drop_first() =~= arg@.skip(i + 1));
        let ch = chars[i];
        if ch == '\\' {
            text.push(ch);
            run = run + 1;
            assert(text@ + quoted_rest(rest.drop_first(), run as nat) =~= before + quoted_rest(
                rest,
                (run - 1) as nat,
            ));
        } else if ch == '"' {
            push_backslashes(&mut text, run);
            text.push('\\');
            text.push('"');
            assert(backslashes(run as nat).push('\\') =~= backslashes((run + 1) as nat));
            assert(text@ + quoted_rest(rest.drop_first(), 0) =~= before + quoted_rest(
                rest,
                run as nat,
            ));
            run = 0;
        } else {
            text.push(ch);
            assert(text@ + quoted_rest(rest.drop_first(), 0) =~= before + quoted_rest(
                rest,
                run as nat,
            ));
            run = 0;
        }
        i = i + 1;
    }
    let ghost before = text@;
    assert(arg@.skip(i as int) =~= Seq::<char>::empty());
    push_backslashes(&mut text, run);
    text.push('"');
    assert(text@ =~= before + backslashes(run as nat).push('"'));
    text
}

/// What the Windows rule reads from the rest of a quoted argument, behind `run`
/// backslashes: in front of a quotation mark each two backslashes stand for one,
/// and an odd one makes the mark part of the argument; elsewhere they stand for
/// themselves.
pub open spec fn unquoted_rest(rest: Seq<char>, run: nat) -> Seq<char>
    decreases rest.len(),
{
    if rest.len() == 0 {
        backslashes(run)
    } else if rest[0] == '\\' {
        unquoted_rest(rest.drop_first(), run + 1)
    } else if rest[0] == '"' {
        if run % 2 == 0 {
            backslashes(run / 2)
        } else {
            backslashes(run / 2).push('"') + unquoted_rest(rest.drop_first(), 0)
        }
    } else {
        backslashes(run).push(rest[0]) + unquoted_rest(rest.drop_first(), 0)
    }
}

proof fn lemma_unquote_backslashes(n: nat, rest: Seq<char>, run: nat)
    ensures
        unquoted_rest(backslashes(n) + rest, run) == unquoted_rest(rest, run + n),
    decreases n,
{
    let text = backslashes(n) + rest;
    if n == 0 {
        assert(text =~= rest);
    } else {
        assert(text.drop_first() =~= backslashes((n - 1) as nat) + rest);
        lemma_unquote_backslashes((n - 1) as nat, rest, run + 1);
    }
}

proof fn lemma_quoted_rest_reads_back(rest: Seq<char>, run: nat)
    ensures
        unquoted_rest(quoted_rest(rest, run), run) == backslashes(run) + rest,
    decreases rest.len(),
{
    let text = quoted_rest(rest, run);
    let tail = rest.drop_first();
    if rest.len() == 0 {
        let mark = seq!['"'];
        assert(text =~= backslashes(run) + mark);
        lemma_unquote_backslashes(run, mark, run);
        assert(unquoted_rest(mark, run + run) == backslashes((run + run) / 2));
        assert((run + run) / 2 == run);
        assert(backslashes(run) + rest =~= backslashes(run));
    } else if rest[0] == '\\' {
        assert(text.drop_first() =~= quoted_rest(tail, run + 1));
        lemma_quoted_rest_reads_back(tail, run + 1);
        assert(backslashes(run + 1) + tail =~= backslashes(run) + rest);
    } else if rest[0] == '"' {
        let after = seq!['"'] + quoted_rest(tail, 0);
        assert(text =~= backslashes(run + 1) + after);
        lemma_unquote_backslashes(run + 1, after, run);
        assert(after.drop_first() =~= quoted_rest(tail, 0));
        lemma_quoted_rest_reads_back(tail, 0);
        assert(backslashes(0) + tail =~= tail);
        assert((run + run + 1) % 2 == 1);
        assert((run + run + 1) / 2 == run);
        assert(backslashes(run).push('"') + tail =~= backslashes(run) + rest);
    } else {
        assert(text.drop_first() =~= quoted_rest(tail, 0));
        lemma_quoted_rest_reads_back(tail, 0);
        assert(backslashes(0) + tail =~= tail);
        assert(backslashes(run).push(rest[0]) + tail =~= backslashes(run) + rest);
    }
}

/// A quoted argument is read back as it was, quotation marks and backslashes and
/// all.
pub proof fn law_quoted_arg_reads_back(arg: Seq<char>)
    requires
        needs_quotes(arg),
    ensures
        quoted(arg)[0] == '"',
        unquoted_rest(quoted(arg).drop_first(), 0) == arg,
{
    assert(quoted(arg).drop_first() =~= quoted_rest(arg, 0));
    lemma_quoted_rest_reads_back(arg, 0);
    assert(backslashes(0) + arg =~= arg);
}

/// The start of a registry path below the current user.
pub const CURRENT_USER_PREFIX: &'static str = "HKCU\\";

/// Cuts the name of the hive off a registry path below the current user.
pub fn strip_hkcu_prefix(key: &str) -> (r: Result<String, String>)
    ensures
        if CURRENT_USER_PREFIX@.is_prefix_of(key@) {
            r matches Ok(subkey) && subkey@ == key@.skip(5)
        } else {
            r matches Err(message) && message@ == "unsupported registry hive path: "@ + key@
        },
{
    proof {
        reveal_strlit("HKCU\\");
    }
    let chars = chars_of(key);
    if chars.len() >= 5 && chars[0] == 'H' && chars[1] == 'K' && chars[2] == 'C' && chars[3] == 'U'
        && chars[4] == '\\' {
        assert(CURRENT_USER_PREFIX@ =~= key@.take(5));
        let mut subkey = String::new();
        let mut i: usize = 5;
        assert(key@.subrange(5, 5) =~= Seq::<char>::empty());
        while i < chars.len()
            invariant
                5 <= i <= chars@.len(),
                chars@ == key@,
                subkey@ == key@.subrange(5, i as int),
            decreases chars@.len() - i,
        {
            subkey.push(chars[i]);
            assert(key@.subrange(5, i + 1) =~= key@.subrange(5, i as int).push(key@[i as int]));
            i = i + 1;
        }
        assert(key@.subrange(5, i as int) =~= key@.skip(5));
        return Ok(subkey);
    }
    proof {
        if CURRENT_USER_PREFIX@.is_prefix_of(key@) {
            assert(key@[0] == CURRENT_USER_PREFIX@[0]);
            assert(key@[1] == CURRENT_USER_PREFIX@[1]);
            assert(key@[2] == CURRENT_USER_PREFIX@[2]);
            assert(key@[3] == CURRENT_USER_PREFIX@[3]);
            assert(key@[4] == CURRENT_USER_PREFIX@[4]);
        }
    }
    let mut message = "unsupported registry hive path: ".to_string();
    message.append(key);
    Err(message)
}

/// Whether a registry key is gone after its removal ended with this code: it was
/// removed, or there was none.
pub fn registry_delete_succeeded(status: u32) -> (gone: bool)
    ensures
        gone == (status == 0 || status == 2 || status == 3),
{
    status == 0 || status == 2 || status == 3
}

/// An argument with a blank, a tab or a quotation mark stands in quotation marks, and
/// the Windows rule reads it back from them; any other stands as it is.
pub proof fn law_arguments_are_quoted_where_they_must_be(arg: &str, text: String)
    requires
        call_ensures(quote_windows_arg, (arg,), text),
    ensures
        ({
            let special = exists|i: int|
                0 <= i < arg@.len() && (#[trigger] arg@[i] == ' ' || arg@[i] == '\t' || arg@[i]
                    == '"');
            if special {
                &&& text@.len() >= arg@.len() + 2
                &&& text@[0] == '"'
                &&& text@.last() == '"'
                &&& unquoted_rest(text@.drop_first(), 0) == arg@
            } else {
                text@ == arg@
            }
        }),
{
    let special = exists|i: int|
        0 <= i < arg@.len() && (#[trigger] arg@[i] == ' ' || arg@[i] == '\t' || arg@[i] == '"');
    assert(special == needs_quotes(arg@)) by {
        if needs_quotes(arg@) {
            let ch = if arg@.contains(' ') {
                ' '
            } else if arg@.contains('\t') {
                '\t'
            } else {
                '"'
            };
            let i = choose|i: int| 0 <= i < arg@.len() && arg@[i] == ch;
            assert(arg@[i] == ch);
        }
    }
    if special {
        law_quoted_arg_reads_back(arg@);
        lemma_quoted_rest_len(arg@, 0);
        assert(text@ =~= seq!['"'] + quoted_rest(arg@, 0));
    }
}

proof fn lemma_quoted_rest_len(rest: Seq<char>, run: nat)
    ensures
        quoted_rest(rest, run).len() >= rest.len() + 1,
        quoted_rest(rest, run).last() == '"',
    decreases rest.len(),
{
    if rest.len() > 0 {
        lemma_quoted_rest_len(rest.drop_first(), run + 1);
        lemma_quoted_rest_len(rest.drop_first(), 0);
    }
}

/// A registry path below the current user is taken without the name of the hive, and no
/// other path is taken.
pub proof fn law_only_the_current_user_is_touched(key: &str, r: Result<String, String>)
    requires
        call_ensures(strip_hkcu_prefix, (key,), r),
    ensures
        r is Ok <==> key@.len() >= 5 && key@[0] == 'H' && key@[1] == 'K' && key@[2] == 'C' && key@[3]
            == 'U' && key@[4] == '\\',
        r matches Ok(rest) ==> rest@ == key@.skip(5),
{
    reveal_strlit("HKCU\\");
    let lead = "HKCU\\"@;
    if key@.len() >= 5 {
        let front = key@.subrange(0, 5);
        assert(front[0] == key@[0] && front[1] == key@[1] && front[2] == key@[2] && front[3]
            == key@[3] && front[4] == key@[4]);
        if key@[0] == 'H' && key@[1] == 'K' && key@[2] == 'C' && key@[3] == 'U' && key@[4] == '\\' {
            assert(front =~= lead);
        }
    }
}

/// A key counts as removed where the system removed it or did not find it or the path
/// to it, and not where it failed otherwise.
pub proof fn law_missing_keys_count_as_removed(status: u32, gone: bool)
    requires
        call_ensures(registry_delete_succeeded, (status,), gone),
    ensures
        gone <==> status <= 3 && status != 1,
{
}

/// The continue button is offered exactly where a press of it does something, and it
/// leads from screen to screen: past the license only once that is accepted, from the
/// options into a fresh installation, out of the installer at the end, and nowhere while
/// an installation runs.
pub proof fn law_continue_leads_from_screen_to_screen(
    app: &mut InstallerApp,
    can: bool,
    action: NextAction,
)
    requires
        old(app).wf(),
        call_ensures(InstallerApp::can_continue, (old(app),), can),
        call_ensures(InstallerApp::next, (app,), action),
    ensures
        can <==> action != NextAction::Stay || *final(app) != *old(app),
        action == NextAction::Quit <==> old(app).step == InstallerStep::Complete,
        action == NextAction::StartInstall <==> old(app).step == InstallerStep::Options,
        action == NextAction::StartInstall ==> final(app).step == InstallerStep::Installing
            && final(app).install_running && final(app).install_progress == 0 && final(app).install_note is None,
        action != NextAction::StartInstall ==> final(app).install_running == old(app).install_running && final(app).install_progress == old(app).install_progress,
        old(app).step == InstallerStep::License ==> (final(app).step == InstallerStep::Options
            <==> old(app).license_accepted),
        old(app).step == InstallerStep::License && !old(app).license_accepted ==> final(app).step
            == InstallerStep::License,
        final(app).license_accepted == old(app).license_accepted,
        final(app).add_explorer_menu == old(app).add_explorer_menu,
{
}

/// The back button is offered exactly where a press of it does something: it leads from
/// the options to the license, which stays accepted.
pub proof fn law_back_leads_to_the_license(app: &mut InstallerApp, can: bool)
    requires
        old(app).wf(),
        call_ensures(InstallerApp::can_go_back, (old(app),), can),
        call_ensures(InstallerApp::back, (app,), ()),
    ensures
        can <==> *final(app) != *old(app),
        can ==> old(app).step == InstallerStep::Options && final(app).step == InstallerStep::License,
        old(app).step == InstallerStep::Options ==> can,
        final(app).license_accepted == old(app).license_accepted,
        final(app).add_explorer_menu == old(app).add_explorer_menu,
{
}

/// Each box holds the opposite after a press, and two presses leave it as it was.
pub proof fn law_boxes_toggle(first: &mut InstallerApp, second: &mut InstallerApp)
    requires
        old(first).wf(),
        call_ensures(InstallerApp::toggle_explorer_menu, (first,), ()),
        *old(second) == *final(first),
        call_ensures(InstallerApp::toggle_explorer_menu, (second,), ()),
    ensures
        final(first).add_explorer_menu != old(first).add_explorer_menu,
        final(first).license_accepted == old(first).license_accepted,
        *final(second) == *old(first),
{
}

/// The license box holds the opposite after a press, and two presses leave it as it was.
pub proof fn law_license_toggles(first: &mut InstallerApp, second: &mut InstallerApp)
    requires
        old(first).wf(),
        old(first).step == InstallerStep::License,
        call_ensures(InstallerApp::toggle_license, (first,), ()),
        *old(second) == *final(first),
        call_ensures(InstallerApp::toggle_license, (second,), ()),
    ensures
        final(first).license_accepted != old(first).license_accepted,
        final(first).add_explorer_menu == old(first).add_explorer_menu,
        *final(second) == *old(first),
{
}

/// What an installation says is shown: its progress as it is, and at its end the last
/// screen with all of the progress, with the note that it left or with its failure.
pub proof fn law_messages_are_shown(
    app: &mut InstallerApp,
    message: InstallWorkerMessage,
)
    requires
        old(app).wf(),
        old(app).install_running,
        call_ensures(InstallerApp::on_message, (app, message), ()),
    ensures
        message matches InstallWorkerMessage::Progress(progress) ==> final(app).install_progress
            == progress && final(app).install_running && final(app).step
            == InstallerStep::Installing,
        message matches InstallWorkerMessage::Finished(result) ==> {
            &&& final(app).step == InstallerStep::Complete
            &&& !final(app).install_running
            &&& final(app).install_progress == 100
            &&& result matches Err(error) ==> final(app).install_note == Some(error)
            &&& result matches Ok(note) ==> final(app).install_note == note
        },
        final(app).license_accepted,
        final(app).add_explorer_menu == old(app).add_explorer_menu,
{
}

/// Only progress that goes forward is let through, and all of that is.
pub proof fn law_progress_goes_forward(gate: &mut ProgressGate, progress: u8, shown: Option<u8>)
    requires
        old(gate).wf(),
        call_ensures(ProgressGate::report, (gate, progress), shown),
    ensures
        shown is Some <==> progress > old(gate).last,
        shown matches Some(value) ==> value == progress,
        final(gate).last >= old(gate).last,
        final(gate).last >= progress,
        final(gate).last == progress || final(gate).last == old(gate).last,
{
}

/// Work that is done adds up, and what is shown of it stays within the whole.
pub proof fn law_work_adds_up(meter: &mut WorkMeter, amount: u64, shown: u64)
    requires
        call_ensures(WorkMeter::advance, (meter, amount), shown),
    ensures
        final(meter).total == old(meter).total,
        old(meter).done + amount <= old(meter).total ==> shown == old(meter).done + amount
            && final(meter).done == shown,
        old(meter).done + amount > old(meter).total ==> shown == old(meter).total && final(meter).done >= shown,
{
}

/// A download is measured by what the server tells, and by the size in the release only
/// where it tells nothing; nothing at all counts as one byte.
pub proof fn law_downloads_are_measured(content_length: Option<u64>, size: u64, meter: WorkMeter)
    requires
        call_ensures(WorkMeter::for_download, (content_length, size), meter),
    ensures
        meter.done == 0,
        meter.total > 0,
        content_length matches Some(len) ==> len > 0 ==> meter.total == len,
        content_length is None && size > 0 ==> meter.total == size,
        content_length == Some(0u64) ==> meter.total == 1,
        content_length is None && size == 0 ==> meter.total == 1,
{
}

/// Each entry of an archive counts for its size in the work of extracting it, and for
/// one byte where it is empty.
pub proof fn law_entries_add_up(
    some: &[u64],
    more: &[u64],
    size: u64,
    before: WorkMeter,
    after: WorkMeter,
)
    requires
        call_ensures(WorkMeter::for_entries, (some,), before),
        call_ensures(WorkMeter::for_entries, (more,), after),
        more@ == some@.push(size),
    ensures
        before.done == 0 && before.total > 0,
        some@.len() == 0 ==> after.total == if size > 0 {
            size as int
        } else {
            1
        },
        some@.len() > 0 ==> after.total == if before.total + size >= u64::MAX {
            u64::MAX as int
        } else if size > 0 {
            before.total + size
        } else {
            before.total + 1
        },
{
    assert(more@.drop_last() =~= some@);
    if some@.len() == 0 {
        assert(some@ =~= Seq::<u64>::empty());
    } else {
        assert(entry_work(some@) > 0);
    }
}

/// The button says what it does: it installs where pressing it starts the installation,
/// and finishes where pressing it quits.
pub proof fn law_button_says_what_it_does(
    app: &mut InstallerApp,
    label: &'static str,
    action: NextAction,
)
    requires
        old(app).wf(),
        call_ensures(InstallerApp::continue_label, (&*old(app),), label),
        call_ensures(InstallerApp::next, (app,), action),
    ensures
        label@ == if action == NextAction::StartInstall {
            "buttons.install"@
        } else if action == NextAction::Quit {
            "buttons.finish"@
        } else {
            "buttons.next"@
        },
{
}

/// Each screen has its own text below it.
pub proof fn law_screens_have_their_own_text(
    app: &InstallerApp,
    other: &InstallerApp,
    text: &'static str,
    other_text: &'static str,
)
    requires
        call_ensures(InstallerApp::footer_text, (app,), text),
        call_ensures(InstallerApp::footer_text, (other,), other_text),
    ensures
        app.step == other.step <==> text@ == other_text@,
        "footer."@.is_prefix_of(text@),
        app.step is License ==> text@.len() == 14 && "license"@.is_suffix_of(text@),
        app.step is Options ==> "options"@.is_suffix_of(text@),
        app.step is Installing ==> "installing"@.is_suffix_of(text@),
        app.step is Complete ==> "complete"@.is_suffix_of(text@),
{
    reveal_strlit("footer.");
    reveal_strlit("license");
    reveal_strlit("options");
    reveal_strlit("installing");
    reveal_strlit("complete");
    reveal_strlit("footer.license");
    reveal_strlit("footer.options");
    reveal_strlit("footer.installing");
    reveal_strlit("footer.complete");
    assert(text@.subrange(0, 7) =~= "footer."@);
    assert(text@[7] == (match app.step {
        InstallerStep::License => 'l',
        InstallerStep::Options => 'o',
        InstallerStep::Installing => 'i',
        InstallerStep::Complete => 'c',
    }));
    assert(other_text@[7] == (match other.step {
        InstallerStep::License => 'l',
        InstallerStep::Options => 'o',
        InstallerStep::Installing => 'i',
        InstallerStep::Complete => 'c',
    }));
    let end = text@.subrange(7, text@.len() as int);
    match app.step {
        InstallerStep::License => {
            assert(end =~= "license"@);
        },
        InstallerStep::Options => {
            assert(end =~= "options"@);
        },
        InstallerStep::Installing => {
            assert(end =~= "installing"@);
        },
        InstallerStep::Complete => {
            assert(end =~= "complete"@);
        },
    }
}

/// The text over the bar says what is going on: while a download counts up it says so
/// once the first percentages are past, while files are extracted it says that, and only
/// at the end that all is done.
pub proof fn law_status_says_what_goes_on(
    app: &InstallerApp,
    meter: &WorkMeter,
    download: u8,
    extract: u8,
    status: &'static str,
)
    requires
        call_ensures(WorkMeter::download_progress, (meter,), download),
        call_ensures(WorkMeter::extract_progress, (meter,), extract),
        call_ensures(InstallerApp::install_status, (app,), status),
    ensures
        app.install_progress < 10 ==> status@ == "install.status_preparing"@,
        app.install_progress == download && download >= 10 ==> status@
            == "install.status_downloading"@,
        app.install_progress == extract ==> status@ == "install.status_extracting"@,
        89 < app.install_progress < 100 ==> status@ == "install.status_registering"@,
        app.install_progress >= 100 ==> status@ == "install.status_completed"@,
{
    lemma_scaled_in_range(5, 59, meter.shown(), meter.total);
    lemma_scaled_in_range(60, 89, meter.shown(), meter.total);
}

/// An installation begins anew, from nothing and without a note, and a running one is
/// left alone.
pub proof fn law_installation_begins_once(
    app: &mut InstallerApp,
    begun: bool,
    again: &mut InstallerApp,
    begun_again: bool,
)
    requires
        call_ensures(InstallerApp::start_install, (app,), begun),
        *old(again) == *final(app),
        call_ensures(InstallerApp::start_install, (again,), begun_again),
    ensures
        final(app).install_running,
        !begun_again,
        *final(again) == *final(app),
        begun ==> final(app).step is Installing && final(app).install_progress == 0
            && final(app).install_note is None && final(app).add_explorer_menu
            == old(app).add_explorer_menu,
{
}

} // verus!
