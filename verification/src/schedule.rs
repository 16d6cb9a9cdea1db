//! Recurrence through the OS scheduler: a per-user Task Scheduler task on
//! Windows (daily, only when idle), a systemd user timer on Linux, a launchd
//! agent on macOS. One fixed identity per platform; registering again
//! overwrites, and removal is the exact inverse. This module holds what is
//! registered and what is reported; running the system tools is the
//! caller's part.

use vstd::prelude::*;
use vstd::string::StringExecFns;
use crate::text::{chars_of, str_eq, string_of, trim, trim_chars};

verus! {

/// The scheduled task's name on Windows (the texts below take the name, so
/// that a disposable task can stand in for it).
pub const TASK_NAME: &'static str = "Targone";

/// Why a scheduled run must be a hard no-op: explicit opt-out
/// (`TARGONE_DISABLE` is `1`) or a CI environment (`CI` set).
pub fn disabled_reason(targone_disable: Option<&str>, ci_set: bool) -> (r: Option<&'static str>)
    ensures
        (targone_disable matches Some(v) && v@ == "1"@) ==> (r matches Some(m) && m@ == "TARGONE_DISABLE=1"@),
        !(targone_disable matches Some(v) && v@ == "1"@) && ci_set ==> (r matches Some(m) && m@
            == "CI environment"@),
        !(targone_disable matches Some(v) && v@ == "1"@) && !ci_set ==> r is None,
{
    let opted_out = match targone_disable {
        Some(v) => str_eq(v, "1"),
        None => false,
    };
    if opted_out {
        return Some("TARGONE_DISABLE=1");
    }
    if ci_set {
        return Some("CI environment");
    }
    None
}

// ---------------------------------------------------------------------------
// Windows: Task Scheduler through PowerShell
// ---------------------------------------------------------------------------

/// The PowerShell script that registers the task: daily at 03:00, only when
/// idle, on battery too, catching up missed runs.
pub open spec fn windows_install_script_text(exe: Seq<char>, task: Seq<char>) -> Seq<char> {
    "$a = New-ScheduledTaskAction -Execute '"@ + exe
        + "' -Argument 'targone schedule run'; $t = New-ScheduledTaskTrigger -Daily -At 3am; $s = New-ScheduledTaskSettingsSet -RunOnlyIfIdle -IdleDuration 00:10:00 -IdleWaitTimeout 02:00:00 -AllowStartIfOnBatteries -DontStopIfGoingOnBatteries -StartWhenAvailable; Register-ScheduledTask -TaskName '"@
        + task + "' -Action $a -Trigger $t -Settings $s -Force | Out-Null; (Get-ScheduledTask -TaskName '"@ + task
        + "').State"@
}

pub fn windows_install_script(exe: &str, task: &str) -> (s: String)
    ensures
        s@ == windows_install_script_text(exe@, task@),
{
    let mut s = String::from_str("$a = New-ScheduledTaskAction -Execute '");
    s.append(exe);
    s.append(
        "' -Argument 'targone schedule run'; $t = New-ScheduledTaskTrigger -Daily -At 3am; $s = New-ScheduledTaskSettingsSet -RunOnlyIfIdle -IdleDuration 00:10:00 -IdleWaitTimeout 02:00:00 -AllowStartIfOnBatteries -DontStopIfGoingOnBatteries -StartWhenAvailable; Register-ScheduledTask -TaskName '",
    );
    s.append(task);
    s.append("' -Action $a -Trigger $t -Settings $s -Force | Out-Null; (Get-ScheduledTask -TaskName '");
    s.append(task);
    s.append("').State");
    s
}

fn trimmed(s: &str) -> (r: String)
    ensures
        r@ == trim(s@),
{
    string_of(&trim_chars(&chars_of(s)))
}

/// What `install` reports on Windows, from the task state the script printed.
pub fn windows_install_message(task: &str, state: &str) -> (m: String)
    ensures
        m@ == "registered per-user task '"@ + task@ + "' (daily 03:00, only-if-idle, catch-up on missed runs): "@
            + trim(state@),
{
    let mut m = String::from_str("registered per-user task '");
    m.append(task);
    m.append("' (daily 03:00, only-if-idle, catch-up on missed runs): ");
    m.append(trimmed(state).as_str());
    m
}

/// The PowerShell script that removes the task and says whether it is gone.
pub fn windows_uninstall_script(task: &str) -> (s: String)
    ensures
        s@ == "Unregister-ScheduledTask -TaskName '"@ + task@
            + "' -Confirm:$false -ErrorAction SilentlyContinue; if (Get-ScheduledTask -TaskName '"@ + task@
            + "' -ErrorAction SilentlyContinue) { 'still present' } else { 'removed' }"@,
{
    let mut s = String::from_str("Unregister-ScheduledTask -TaskName '");
    s.append(task);
    s.append("' -Confirm:$false -ErrorAction SilentlyContinue; if (Get-ScheduledTask -TaskName '");
    s.append(task);
    s.append("' -ErrorAction SilentlyContinue) { 'still present' } else { 'removed' }");
    s
}

/// What `uninstall` reports on Windows, from what the script printed.
pub fn windows_uninstall_message(task: &str, out: &str) -> (m: String)
    ensures
        m@ == "task '"@ + task@ + "': "@ + trim(out@),
{
    let mut m = String::from_str("task '");
    m.append(task);
    m.append("': ");
    m.append(trimmed(out).as_str());
    m
}

/// The PowerShell script that reports the task's state, last and next run.
pub fn windows_status_script(task: &str) -> (s: String)
    ensures
        s@ == "$t = Get-ScheduledTask -TaskName '"@ + task@
            + "' -ErrorAction SilentlyContinue; if ($t) { $i = $t | Get-ScheduledTaskInfo; \"state={0} last-run={1} last-result={2} next-run={3}\" -f $t.State, $i.LastRunTime, $i.LastTaskResult, $i.NextRunTime } else { 'not installed' }"@,
{
    let mut s = String::from_str("$t = Get-ScheduledTask -TaskName '");
    s.append(task);
    s.append(
        "' -ErrorAction SilentlyContinue; if ($t) { $i = $t | Get-ScheduledTaskInfo; \"state={0} last-run={1} last-result={2} next-run={3}\" -f $t.State, $i.LastRunTime, $i.LastTaskResult, $i.NextRunTime } else { 'not installed' }",
    );
    s
}

// ---------------------------------------------------------------------------
// Linux: a systemd user timer
// ---------------------------------------------------------------------------

/// The service unit: one idle-priority sweep run.
pub fn systemd_service_unit(exe: &str) -> (s: String)
    ensures
        s@ == "[Unit]\nDescription=Targone sweep\n\n[Service]\nType=oneshot\nExecStart="@ + exe@
            + " targone schedule run\nNice=19\nIOSchedulingClass=idle\nCPUSchedulingPolicy=idle\n"@,
{
    let mut s = String::from_str("[Unit]\nDescription=Targone sweep\n\n[Service]\nType=oneshot\nExecStart=");
    s.append(exe);
    s.append(" targone schedule run\nNice=19\nIOSchedulingClass=idle\nCPUSchedulingPolicy=idle\n");
    s
}

/// The timer unit: daily, spread over an hour, catching up missed runs.
pub fn systemd_timer_unit() -> (s: &'static str)
    ensures
        s@ == "[Unit]\nDescription=Daily Targone sweep\n\n[Timer]\nOnCalendar=daily\nRandomizedDelaySec=1h\nPersistent=true\n\n[Install]\nWantedBy=timers.target\n"@,
{
    "[Unit]\nDescription=Daily Targone sweep\n\n[Timer]\nOnCalendar=daily\nRandomizedDelaySec=1h\nPersistent=true\n\n[Install]\nWantedBy=timers.target\n"
}

/// What `install` reports on Linux, given whether enabling the timer worked.
pub fn systemd_install_message(enabled: bool) -> (m: &'static str)
    ensures
        enabled ==> m@ == "systemd user timer 'targone-sweep.timer' enabled (daily, persistent)"@,
        !enabled ==> m@
            == "unit files written, but `systemctl --user` failed — no user systemd? Targone will still sweep opportunistically on manual runs"@,
{
    if enabled {
        "systemd user timer 'targone-sweep.timer' enabled (daily, persistent)"
    } else {
        "unit files written, but `systemctl --user` failed — no user systemd? Targone will still sweep opportunistically on manual runs"
    }
}

// ---------------------------------------------------------------------------
// macOS: a launchd agent
// ---------------------------------------------------------------------------

/// The agent's property list: daily at 03:00, background, low priority.
pub fn launchd_plist(exe: &str) -> (s: String)
    ensures
        s@ == "<?xml version=\"1.0\" encoding=\"UTF-8\"?>\n<!DOCTYPE plist PUBLIC \"-//Apple//DTD PLIST 1.0//EN\" \"http://www.apple.com/DTDs/PropertyList-1.0.dtd\">\n<plist version=\"1.0\"><dict>\n  <key>Label</key><string>dev.targone.sweep</string>\n  <key>ProgramArguments</key><array>\n    <string>"@
            + exe@
            + "</string><string>targone</string><string>schedule</string><string>run</string>\n  </array>\n  <key>StartCalendarInterval</key><dict><key>Hour</key><integer>3</integer><key>Minute</key><integer>0</integer></dict>\n  <key>ProcessType</key><string>Background</string>\n  <key>LowPriorityIO</key><true/>\n  <key>Nice</key><integer>19</integer>\n</dict></plist>\n"@,
{
    let mut s = String::from_str(
        "<?xml version=\"1.0\" encoding=\"UTF-8\"?>\n<!DOCTYPE plist PUBLIC \"-//Apple//DTD PLIST 1.0//EN\" \"http://www.apple.com/DTDs/PropertyList-1.0.dtd\">\n<plist version=\"1.0\"><dict>\n  <key>Label</key><string>dev.targone.sweep</string>\n  <key>ProgramArguments</key><array>\n    <string>",
    );
    s.append(exe);
    s.append(
        "</string><string>targone</string><string>schedule</string><string>run</string>\n  </array>\n  <key>StartCalendarInterval</key><dict><key>Hour</key><integer>3</integer><key>Minute</key><integer>0</integer></dict>\n  <key>ProcessType</key><string>Background</string>\n  <key>LowPriorityIO</key><true/>\n  <key>Nice</key><integer>19</integer>\n</dict></plist>\n",
    );
    s
}

/// What `install` reports on macOS, given whether loading the agent worked.
pub fn launchd_install_message(loaded: bool) -> (m: &'static str)
    ensures
        loaded ==> m@ == "launchd agent dev.targone.sweep loaded (daily 03:00)"@,
        !loaded ==> m@
            == "plist written, but launchctl bootstrap failed — Targone will still sweep opportunistically on manual runs"@,
{
    if loaded {
        "launchd agent dev.targone.sweep loaded (daily 03:00)"
    } else {
        "plist written, but launchctl bootstrap failed — Targone will still sweep opportunistically on manual runs"
    }
}

/// What `status` reports on macOS, given whether the property list exists.
pub fn launchd_status(installed: bool) -> (m: &'static str)
    ensures
        installed ==> m@ == "plist installed"@,
        !installed ==> m@ == "not installed"@,
{
    if installed {
        "plist installed"
    } else {
        "not installed"
    }
}

// ---------------------------------------------------------------------------
// Other platforms
// ---------------------------------------------------------------------------

/// Registering on a platform without scheduler integration fails.
pub fn install() -> (r: Result<String, String>)
    ensures
        r matches Err(m) && m@
            == "no scheduler integration for this platform — run `cargo targone gc --apply` manually or from cron"@,
{
    Err(String::from_str(
        "no scheduler integration for this platform — run `cargo targone gc --apply` manually or from cron",
    ))
}

/// Removing on a platform without scheduler integration has nothing to do.
pub fn uninstall() -> (r: Result<String, String>)
    ensures
        r matches Ok(m) && m@ == "nothing installed"@,
{
    Ok(String::from_str("nothing installed"))
}

/// The status on a platform without scheduler integration.
pub fn status() -> (r: Result<String, String>)
    ensures
        r matches Ok(m) && m@ == "not supported on this platform"@,
{
    Ok(String::from_str("not supported on this platform"))
}

} // verus!
