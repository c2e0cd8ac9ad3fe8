//! Periodic cache refresh: the task kinds, their errors, and the text of the
//! crontab lines and task-scheduler scripts they install. Running the
//! commands is left to the program.

use vstd::prelude::*;
use vstd::string::StringExecFns;

verus! {

/// What can go wrong while installing, removing or checking the refresh task.
#[derive(Debug, PartialEq, Eq)]
pub enum Error {
    Io(String),
    InstallSchedulerScriptRunFailed { source: String, message: String },
    UninstallSchedulerScriptRunFailed { source: String, message: String },
    CronTabWriteFailed { source: String, message: String },
    CronTabReadFailed { source: String, message: String },
}

pub trait SchedulerInstall {
    fn install(&self) -> Result<(), Error>;
}

pub trait SchedulerUninstall {
    fn uninstall(&self) -> Result<(), Error>;
}

pub trait SchedulerStatus {
    fn check_status(&self) -> Result<(), Error>;
}

/// One scheduler task.
pub enum TaskTypes<I: SchedulerInstall, U: SchedulerUninstall, C: SchedulerStatus> {
    Install(I),
    Uninstall(U),
    Check(C),
}

impl<I: SchedulerInstall, U: SchedulerUninstall, C: SchedulerStatus> TaskTypes<I, U, C> {
    /// Runs the task.
    pub fn run(&self) -> Result<(), Error> {
        match self {
            TaskTypes::Install(t) => t.install(),
            TaskTypes::Uninstall(t) => t.uninstall(),
            TaskTypes::Check(t) => t.check_status(),
        }
    }
}

/// Runs one task, consuming it.
pub fn run_task<I: SchedulerInstall, U: SchedulerUninstall, C: SchedulerStatus>(
    task: TaskTypes<I, U, C>,
) -> Result<(), Error> {
    match task {
        TaskTypes::Install(t) => t.install(),
        TaskTypes::Uninstall(t) => t.uninstall(),
        TaskTypes::Check(t) => {
            match t.check_status() {
                Ok(()) => Ok(()),
                Err(e) => Err(e),
            }
        },
    }
}

/// Name of the refresh task in the task scheduler.
pub const WIN_TASK_NAME: &'static str = "PTreeCacheRefresh";

/// `t` occurs in `s`.
pub open spec fn has_part(s: Seq<char>, t: Seq<char>) -> bool {
    exists|i: int| 0 <= i && i + t.len() <= s.len() && #[trigger] s.subrange(i, i + t.len()) == t
}

/// Relies on str::contains with a `&str` pattern: whether `t` occurs in `s`.
#[verifier::external_body]
fn contains_str(s: &str, t: &str) -> (r: bool)
    ensures
        r == has_part(s@, t@),
{
    s.contains(t)
}

/// The pieces of `s` between line feeds, in order: one more piece than there
/// are line feeds.
pub open spec fn lf_pieces(s: Seq<char>) -> Seq<Seq<char>>
    decreases s.len(),
{
    if s.len() == 0 {
        seq![Seq::<char>::empty()]
    } else if s.last() == '\n' {
        lf_pieces(s.drop_last()).push(Seq::empty())
    } else {
        let p = lf_pieces(s.drop_last());
        p.update(p.len() - 1, p.last().push(s.last()))
    }
}

/// `l` without one carriage return at its end.
pub open spec fn strip_cr(l: Seq<char>) -> Seq<char> {
    if l.len() > 0 && l.last() == '\r' {
        l.drop_last()
    } else {
        l
    }
}

/// The lines of a text: the pieces between line feeds, a carriage return
/// before a line feed dropped, and no empty line after a final line feed.
pub open spec fn lines_of(s: Seq<char>) -> Seq<Seq<char>> {
    let ps = lf_pieces(s);
    let ended = Seq::new((ps.len() - 1) as nat, |i: int| strip_cr(ps[i]));
    if ps.last().len() == 0 {
        ended
    } else {
        ended.push(ps.last())
    }
}

/// Relies on str::lines: the lines of the text, split at line feeds, with a
/// carriage return before a line feed removed and no empty line after a
/// final line feed.
#[verifier::external_body]
fn text_lines(s: &str) -> (r: Vec<String>)
    ensures
        r@.map_values(|l: String| l@) == lines_of(s@),
{
    s.lines().map(|l| l.to_string()).collect()
}

/// The crontab line that refreshes the cache every 30 minutes.
pub open spec fn cron_line(exe: Seq<char>) -> Seq<char> {
    "*/30 * * * * "@ + exe + " --force --quiet"@
}

/// The crontab line that refreshes the cache every 30 minutes.
pub fn cron_entry(exe: &str) -> (r: String)
    ensures
        r@ == cron_line(exe@),
{
    String::from_str("*/30 * * * * ").concat(exe).concat(" --force --quiet")
}

/// The crontab with the refresh line added at the end; `None` when the line,
/// with its line feed, is already there.
pub fn crontab_with_entry(current: &str, exe: &str) -> (r: Option<String>)
    ensures
        has_part(current@, cron_line(exe@) + "\n"@) ==> r is None,
        !has_part(current@, cron_line(exe@) + "\n"@) ==> r is Some && r->0@ == current@ + cron_line(
            exe@,
        ) + "\n"@,
{
    let line = cron_entry(exe).concat("\n");
    if contains_str(current, line.as_str()) {
        None
    } else {
        Some(String::from_str(current).concat(line.as_str()))
    }
}

/// A line that belongs to the refresh task.
pub open spec fn is_refresh_line(l: Seq<char>) -> bool {
    has_part(l, "ptree"@) && has_part(l, "--force"@)
}

/// The lines that do not belong to the refresh task, in order.
pub open spec fn other_lines(ls: Seq<Seq<char>>) -> Seq<Seq<char>>
    decreases ls.len(),
{
    if ls.len() == 0 {
        Seq::empty()
    } else if is_refresh_line(ls.last()) {
        other_lines(ls.drop_last())
    } else {
        other_lines(ls.drop_last()).push(ls.last())
    }
}

/// Lines joined with line feeds between them.
pub open spec fn join_lines(ls: Seq<Seq<char>>) -> Seq<char>
    decreases ls.len(),
{
    if ls.len() == 0 {
        Seq::empty()
    } else if ls.len() == 1 {
        ls[0]
    } else {
        join_lines(ls.drop_last()) + "\n"@ + ls.last()
    }
}

/// The crontab without the refresh task's lines.
pub fn crontab_without_entry(current: &str) -> (r: String)
    ensures
        r@ == join_lines(other_lines(lines_of(current@))),
{
    let lines = text_lines(current);
    let ghost ls = lines_of(current@);
    let mut out = String::new();
    let mut any = false;
    let mut i: usize = 0;
    while i < lines.len()
        invariant
            i <= lines@.len(),
            lines@.map_values(|l: String| l@) == ls,
            any == (other_lines(ls.take(i as int)).len() > 0),
            out@ == join_lines(other_lines(ls.take(i as int))),
        decreases lines@.len() - i,
    {
        let l = lines[i].as_str();
        let ghost prev = other_lines(ls.take(i as int));
        assert(ls.take(i + 1).drop_last() =~= ls.take(i as int));
        assert(ls[i as int] == l@);
        let refresh = contains_str(l, "ptree") && contains_str(l, "--force");
        if !refresh {
            if any {
                out.append("\n");
            }
            out.append(l);
            any = true;
            proof {
                let next = prev.push(l@);
                assert(next.drop_last() =~= prev);
                if prev.len() == 0 {
                    assert(join_lines(next) == next[0]);
                    assert(out@ =~= l@);
                }
            }
        }
        i += 1;
    }
    assert(ls.take(i as int) =~= ls);
    out
}

/// Relies on str::replace: every backslash doubled.
#[verifier::external_body]
fn double_backslashes(s: &str) -> (r: String)
    ensures
        r@ == escaped(s@),
{
    s.replace("\\", "\\\\")
}

/// `s` with every backslash doubled.
pub open spec fn escaped(s: Seq<char>) -> Seq<char>
    decreases s.len(),
{
    if s.len() == 0 {
        Seq::empty()
    } else if s.last() == '\\' {
        escaped(s.drop_last()) + seq!['\\', '\\']
    } else {
        escaped(s.drop_last()).push(s.last())
    }
}

/// The script that reports whether the refresh task is installed.
pub fn task_type_check(task: &str) -> (r: String)
    ensures
        r@ == "\n$task = Get-ScheduledTask -TaskName \""@ + task@
            + "\" -ErrorAction SilentlyContinue\nif ($task) {\n    Write-Host \"✓ Scheduler installed and active\"\n    Write-Host \"\"\n    Write-Host \"Task Details:\"\n    Write-Host \"  Name:        $($task.TaskName)\"\n    Write-Host \"  State:       $($task.State)\"\n    Write-Host \"  Path:        $($task.TaskPath)\"\n    Write-Host \"  Last Run:    $($task.LastRunTime)\"\n    Write-Host \"  Next Run:    $($task.NextRunTime)\"\n    Write-Host \"\"\n    Write-Host \"Run 'Get-ScheduledTask -TaskName \\\""@
            + task@
            + "\\\" | Format-List *' for more details\"\n} else {\n    Write-Host \"✗ Scheduler not installed\"\n    Write-Host \"\"\n    Write-Host \"Install with: ptree --scheduler\"\n}\n"@,
{
    String::from_str("\n$task = Get-ScheduledTask -TaskName \"").concat(task).concat(
        "\" -ErrorAction SilentlyContinue\nif ($task) {\n    Write-Host \"✓ Scheduler installed and active\"\n    Write-Host \"\"\n    Write-Host \"Task Details:\"\n    Write-Host \"  Name:        $($task.TaskName)\"\n    Write-Host \"  State:       $($task.State)\"\n    Write-Host \"  Path:        $($task.TaskPath)\"\n    Write-Host \"  Last Run:    $($task.LastRunTime)\"\n    Write-Host \"  Next Run:    $($task.NextRunTime)\"\n    Write-Host \"\"\n    Write-Host \"Run 'Get-ScheduledTask -TaskName \\\"",
    ).concat(task).concat(
        "\\\" | Format-List *' for more details\"\n} else {\n    Write-Host \"✗ Scheduler not installed\"\n    Write-Host \"\"\n    Write-Host \"Install with: ptree --scheduler\"\n}\n",
    )
}

/// The script that registers the refresh task for `exe`, every 30 minutes.
pub fn task_type_install(task: &str, exe: &str) -> (r: String)
    ensures
        r@ == "\n$action = New-ScheduledTaskAction -Execute \""@ + escaped(exe@)
            + "\" -Argument \"--force --quiet\"\n$trigger = New-ScheduledTaskTrigger -Once -At (Get-Date) -RepetitionInterval (New-TimeSpan -Minutes 30) -RepetitionDuration (New-TimeSpan -Days 36500)\n$principal = New-ScheduledTaskPrincipal -UserID \"$env:USERNAME\" -LogonType Interactive -RunLevel Highest\n$task = New-ScheduledTask -Action $action -Trigger $trigger -Principal $principal -Description \"Automatic ptree cache refresh every 30 minutes\"\nRegister-ScheduledTask -TaskName \""@
            + task@ + "\" -InputObject $task -Force\nWrite-Host \"✓ Scheduled task '"@ + task@
            + "' created successfully\"\n"@,
{
    let exe_escaped = double_backslashes(exe);
    String::from_str("\n$action = New-ScheduledTaskAction -Execute \"").concat(exe_escaped.as_str()).concat(
        "\" -Argument \"--force --quiet\"\n$trigger = New-ScheduledTaskTrigger -Once -At (Get-Date) -RepetitionInterval (New-TimeSpan -Minutes 30) -RepetitionDuration (New-TimeSpan -Days 36500)\n$principal = New-ScheduledTaskPrincipal -UserID \"$env:USERNAME\" -LogonType Interactive -RunLevel Highest\n$task = New-ScheduledTask -Action $action -Trigger $trigger -Principal $principal -Description \"Automatic ptree cache refresh every 30 minutes\"\nRegister-ScheduledTask -TaskName \"",
    ).concat(task).concat("\" -InputObject $task -Force\nWrite-Host \"✓ Scheduled task '").concat(task).concat(
        "' created successfully\"\n",
    )
}

/// The script that removes the refresh task.
pub fn task_type_uninstall(task: &str) -> (r: String)
    ensures
        r@ == "\n$task = Get-ScheduledTask -TaskName \""@ + task@
            + "\" -ErrorAction SilentlyContinue\nif ($task) {\n    Unregister-ScheduledTask -TaskName \""@
            + task@
            + "\" -Confirm:$false\n    Write-Host \"✓ Scheduled task removed\"\n} else {\n    Write-Host \"✗ Task not found\"\n}\n"@,
{
    String::from_str("\n$task = Get-ScheduledTask -TaskName \"").concat(task).concat(
        "\" -ErrorAction SilentlyContinue\nif ($task) {\n    Unregister-ScheduledTask -TaskName \"",
    ).concat(task).concat(
        "\" -Confirm:$false\n    Write-Host \"✓ Scheduled task removed\"\n} else {\n    Write-Host \"✗ Task not found\"\n}\n",
    )
}

} // verus!
