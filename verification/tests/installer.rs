use cozip::installer::{
    find_local_pack_zip, milestone_after, quote_windows_arg, registry_delete_succeeded,
    scale_progress, select_release_asset, start_milestone, strip_hkcu_prefix, GithubRelease,
    GithubReleaseAsset, InstallAction, InstallRun, InstallWorkerMessage, InstallerApp,
    InstallerStep, NextAction, PackSource, ProgressGate, WorkMeter,
};

fn asset(url: &str) -> GithubReleaseAsset {
    GithubReleaseAsset {
        browser_download_url: url.to_string(),
        size: url.len() as u64,
    }
}

fn release(draft: bool, prerelease: bool, urls: &[&str]) -> GithubRelease {
    GithubRelease {
        draft,
        prerelease,
        assets: urls.iter().map(|url| asset(url)).collect(),
    }
}

#[test]
fn screens_follow_each_other() {
    let mut app = InstallerApp::new();
    assert_eq!(app.step, InstallerStep::License);
    assert!(!app.can_continue());
    assert_eq!(app.next(), NextAction::Stay);
    assert_eq!(app.step, InstallerStep::License);
    app.toggle_license();
    assert!(app.can_continue());
    assert_eq!(app.footer_text(), "footer.license");
    app.next();
    assert_eq!(app.step, InstallerStep::Options);
    assert!(app.can_go_back());
    app.back();
    assert_eq!(app.step, InstallerStep::License);
    app.next();
    app.toggle_explorer_menu();
    assert!(!app.add_explorer_menu);
    assert_eq!(app.continue_label(), "buttons.install");
    assert_eq!(app.next(), NextAction::StartInstall);
    assert_eq!(app.step, InstallerStep::Installing);
    assert!(!app.can_continue());
    assert_eq!(app.next(), NextAction::Stay);
    app.on_message(InstallWorkerMessage::Progress(60));
    assert_eq!(app.install_status(), "install.status_extracting");
    app.on_message(InstallWorkerMessage::Finished(Err("no space".to_string())));
    assert_eq!(app.step, InstallerStep::Complete);
    assert_eq!(app.install_note.as_deref(), Some("no space"));
    assert_eq!(app.install_status(), "install.status_completed");
    assert_eq!(app.continue_label(), "buttons.finish");
    assert_eq!(app.next(), NextAction::Quit);
}

#[test]
fn progress_is_scaled() {
    assert_eq!(scale_progress(5, 59, 0, 100), 5);
    assert_eq!(scale_progress(5, 59, 50, 100), 32);
    assert_eq!(scale_progress(5, 59, 100, 100), 59);
    assert_eq!(scale_progress(5, 59, 500, 100), 59);
    assert_eq!(scale_progress(5, 59, 1, 0), 59);
    assert_eq!(scale_progress(9, 3, 1, 2), 3);
    assert_eq!(scale_progress(60, 89, u64::MAX, u64::MAX), 61);
}

#[test]
fn progress_only_goes_forward() {
    let mut gate = ProgressGate::new();
    assert_eq!(gate.report(1), Some(1));
    assert_eq!(gate.report(1), None);
    assert_eq!(gate.report(40), Some(40));
    assert_eq!(gate.report(7), None);
    assert_eq!(gate.report(100), Some(100));
}

#[test]
fn work_is_measured() {
    let mut meter = WorkMeter::for_download(None, 200);
    assert_eq!(meter.total, 200);
    assert_eq!(meter.advance(50), 50);
    assert_eq!(meter.download_progress(), 18);
    assert_eq!(meter.advance(500), 200);
    assert_eq!(meter.download_progress(), 59);
    assert_eq!(WorkMeter::for_download(Some(0), 5).total, 1);
    let mut meter = WorkMeter::for_entries(&[0, 9, 10]);
    assert_eq!(meter.total, 20);
    assert_eq!(meter.extract_progress(), 60);
    assert_eq!(meter.advance(10), 10);
    assert_eq!(meter.extract_progress(), 74);
    assert_eq!(WorkMeter::for_entries(&[]).total, 1);
    assert_eq!(WorkMeter::for_entries(&[u64::MAX, 5]).total, u64::MAX);
}

#[test]
fn installation_removes_what_it_downloaded() {
    let run = InstallRun::start(PackSource::Download, true);
    assert_eq!(run.action, InstallAction::FetchRelease);
    let run = run.done(Ok(None));
    assert_eq!(run.action, InstallAction::Download);
    let run = run.done(Ok(None));
    assert_eq!(run.action, InstallAction::Extract);
    let run = run.done(Err("bad zip".to_string()));
    assert_eq!(run.action, InstallAction::RemoveDownload);
    let run = run.done(Err("busy".to_string()));
    assert_eq!(run.action, InstallAction::Finished);
    assert_eq!(run.result(), Err("bad zip".to_string()));
}

#[test]
fn installation_runs_through() {
    let mut run = InstallRun::start(PackSource::BesideInstaller, true);
    let mut seen = Vec::new();
    while run.action != InstallAction::Finished {
        seen.push(run.action);
        let note = match run.action {
            InstallAction::InstallShell => Some("restart".to_string()),
            _ => None,
        };
        run = run.done(Ok(note));
    }
    assert_eq!(
        seen,
        vec![
            InstallAction::Extract,
            InstallAction::InstallShell,
            InstallAction::RegisterFileTypes,
            InstallAction::RegisterUninstaller,
            InstallAction::RegisterMenu,
        ]
    );
    assert_eq!(run.result(), Ok(Some("restart".to_string())));
    let run = InstallRun::start(PackSource::Download, false).done(Err("offline".to_string()));
    assert_eq!(run.action, InstallAction::Finished);
    assert_eq!(run.result(), Err("offline".to_string()));
    assert_eq!(start_milestone(PackSource::Download), 1);
    assert_eq!(start_milestone(PackSource::WorkingDirectory), 59);
    assert_eq!(milestone_after(InstallAction::RegisterUninstaller), Some(94));
    assert_eq!(milestone_after(InstallAction::Finished), Some(100));
    assert_eq!(milestone_after(InstallAction::Extract), None);
}

#[test]
fn local_pack_is_preferred() {
    assert_eq!(find_local_pack_zip(true, true), PackSource::BesideInstaller);
    assert_eq!(find_local_pack_zip(false, true), PackSource::WorkingDirectory);
    assert_eq!(find_local_pack_zip(false, false), PackSource::Download);
}

#[test]
fn asset_of_a_stable_release_is_chosen() {
    let releases = vec![
        release(true, false, &["https://h/draft/pack.zip"]),
        release(false, true, &["https://h/beta/pack.zip"]),
        release(false, false, &["https://h/source.zip"]),
        release(false, false, &["https://h/pack.zip/x", "https://h/v1/Pack.ZIP"]),
    ];
    let chosen = select_release_asset(&releases).expect("asset");
    assert_eq!(chosen.browser_download_url, "https://h/v1/Pack.ZIP");
    assert_eq!(chosen.size, 21);
    assert_eq!(
        select_release_asset(&releases[..3]).unwrap_err(),
        "latest stable release does not contain pack.zip"
    );
}

#[test]
fn arguments_are_quoted() {
    assert_eq!(quote_windows_arg("plain\\path"), "plain\\path");
    assert_eq!(quote_windows_arg(""), "");
    assert_eq!(quote_windows_arg("a b"), "\"a b\"");
    assert_eq!(quote_windows_arg("say \"hi\""), "\"say \\\"hi\\\"\"");
    assert_eq!(quote_windows_arg("dir \\"), "\"dir \\\\\"");
    assert_eq!(quote_windows_arg("a\\\\\"b"), "\"a\\\\\\\\\\\"b\"");
    assert_eq!(quote_windows_arg("x\\y z"), "\"x\\y z\"");
}

#[test]
fn registry_paths_lose_their_hive() {
    assert_eq!(strip_hkcu_prefix("HKCU\\Software"), Ok("Software".to_string()));
    assert_eq!(
        strip_hkcu_prefix("HKLM\\Software"),
        Err("unsupported registry hive path: HKLM\\Software".to_string())
    );
    assert!(registry_delete_succeeded(0));
    assert!(registry_delete_succeeded(2));
    assert!(!registry_delete_succeeded(5));
}
