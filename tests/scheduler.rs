use ptree::scheduler::{run_task, Error, SchedulerInstall, SchedulerStatus, SchedulerUninstall, TaskTypes};

struct Ok1;
struct Fails;

impl SchedulerInstall for Ok1 {
    fn install(&self) -> Result<(), Error> {
        Ok(())
    }
}

impl SchedulerUninstall for Fails {
    fn uninstall(&self) -> Result<(), Error> {
        Err(Error::Io("denied".to_string()))
    }
}

impl SchedulerStatus for Ok1 {
    fn check_status(&self) -> Result<(), Error> {
        Ok(())
    }
}

#[test]
fn tasks_dispatch_to_their_kind() {
    let install: TaskTypes<Ok1, Fails, Ok1> = TaskTypes::Install(Ok1);
    assert_eq!(install.run(), Ok(()));
    let uninstall: TaskTypes<Ok1, Fails, Ok1> = TaskTypes::Uninstall(Fails);
    assert_eq!(uninstall.run(), Err(Error::Io("denied".to_string())));
    assert_eq!(run_task(uninstall), Err(Error::Io("denied".to_string())));
    let check: TaskTypes<Ok1, Fails, Ok1> = TaskTypes::Check(Ok1);
    assert_eq!(run_task(check), Ok(()));
}
