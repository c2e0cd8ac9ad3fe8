use ptree::scheduler::{
    cron_entry, crontab_with_entry, crontab_without_entry, task_type_check, task_type_install,
    task_type_uninstall, WIN_TASK_NAME,
};
use ptree::text::{format_number, join};

#[test]
fn numbers_get_thousands_separators() {
    assert_eq!(format_number(0), "0");
    assert_eq!(format_number(999), "999");
    assert_eq!(format_number(1000), "1,000");
    assert_eq!(format_number(1234567), "1,234,567");
    assert_eq!(format_number(100000), "100,000");
}

#[test]
fn paths_join_with_their_own_separator() {
    assert_eq!(join(&"C:\\".to_string(), &"Users".to_string()), "C:\\Users");
    assert_eq!(join(&"C:\\Users".to_string(), &"me".to_string()), "C:\\Users\\me");
    assert_eq!(join(&"/home".to_string(), &"me".to_string()), "/home/me");
    assert_eq!(join(&"/".to_string(), &"etc".to_string()), "/etc");
    assert_eq!(join(&"".to_string(), &"x".to_string()), "x");
}

#[test]
fn crontab_entry_is_added_once() {
    assert_eq!(cron_entry("/bin/ptree"), "*/30 * * * * /bin/ptree --force --quiet");
    let added = crontab_with_entry("0 * * * * other\n", "/bin/ptree").unwrap();
    assert_eq!(added, "0 * * * * other\n*/30 * * * * /bin/ptree --force --quiet\n");
    assert!(crontab_with_entry(&added, "/bin/ptree").is_none());
}

#[test]
fn crontab_entry_is_removed() {
    let tab = "0 * * * * other\r\n*/30 * * * * /bin/ptree --force --quiet\n5 * * * * ptree --quiet\n";
    assert_eq!(crontab_without_entry(tab), "0 * * * * other\n5 * * * * ptree --quiet");
}

#[test]
fn task_scripts_name_the_task() {
    let check = task_type_check(WIN_TASK_NAME);
    assert!(check.contains("Get-ScheduledTask -TaskName \"PTreeCacheRefresh\" -ErrorAction SilentlyContinue"));
    let install = task_type_install(WIN_TASK_NAME, "C:\\bin\\ptree.exe");
    assert!(install.contains("-Execute \"C:\\\\bin\\\\ptree.exe\""));
    assert!(install.contains("Register-ScheduledTask -TaskName \"PTreeCacheRefresh\""));
    let uninstall = task_type_uninstall(WIN_TASK_NAME);
    assert!(uninstall.contains("Unregister-ScheduledTask -TaskName \"PTreeCacheRefresh\" -Confirm:$false"));
}
