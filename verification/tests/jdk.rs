//! Which Java is which.
use textfold::jdk::{all, configure, look, newest, number_in, read, runtimes, value, var};
use textfold::jdk::{searched, which, Candidate, Javas, Jdk, System};
use textfold::json::show;

#[test]
fn a_version_is_the_number_a_person_says_out_loud() {
    assert_eq!(number_in("21.0.5"), Some(21));
    assert_eq!(number_in("1.8.0_392"), Some(8));
    assert_eq!(number_in("java-17-openjdk"), Some(17));
    assert_eq!(number_in("temurin-21.jdk"), Some(21));
    assert_eq!(number_in("jdk-11.0.22+7"), Some(11));
    assert_eq!(number_in("graalvm-community-openjdk-21.0.2"), Some(21));
    assert_eq!(number_in("no digits here"), None);
}

#[test]
fn a_number_too_great_to_be_a_version_is_passed_over() {
    assert_eq!(number_in("99999999999-17"), Some(17));
    assert_eq!(number_in("1"), None);
}

#[test]
fn eclipse_is_told_the_name_it_uses_for_a_version() {
    let at = |version| {
        Jdk { home: "/x".to_string(), version, compiles: true }.execution_environment()
    };
    assert_eq!(at(8), "JavaSE-1.8");
    assert_eq!(at(11), "JavaSE-11");
    assert_eq!(at(21), "JavaSE-21");
    assert_eq!(at(0), "JavaSE-1.1");
}

fn candidate(home: &str, runs: bool, compiles: bool, release: Option<&str>) -> Candidate {
    Candidate {
        home: home.to_string(),
        runs,
        compiles,
        release: release.map(str::to_string),
        windows: false,
    }
}

#[test]
fn a_directory_with_no_java_in_it_is_not_a_jdk() {
    assert_eq!(read(&candidate("/jdk-17", false, true, None)), None);
}

#[test]
fn a_jdk_is_read_out_of_its_release_file() {
    let said = "JAVA_VERSION=\"17.0.9\"\nOS_ARCH=\"x86_64\"\n";
    let jdk = read(&candidate("/j", true, true, Some(said))).expect("a JDK");
    assert_eq!(jdk.version, 17);
    assert!(jdk.compiles);
    assert!(!read(&candidate("/j", true, false, Some(said))).expect("still a JDK").compiles);
    assert_eq!(read(&candidate("/jdk-11", true, true, Some("x"))).expect("a JDK").version, 11);
    assert_eq!(read(&candidate("/j", true, true, None)), None);
}

#[test]
fn a_placeholder_nobody_here_knows_is_not_answered() {
    let none: Vec<Jdk> = vec![];
    assert_eq!(var(&none, &None, "venv", false), None);
    assert!(value(&none, "java_home").is_none());
}

#[test]
fn the_newest_that_is_new_enough_is_first() {
    let found = look(&vec![
        candidate("/jdk-8", true, true, None),
        candidate("/jre-21", true, false, None),
        candidate("/jdk-21", true, true, None),
        candidate("/jdk-8/", true, true, None),
        candidate("/jdk-17", true, true, None),
    ]);
    let homes: Vec<&str> = found.iter().map(|j| j.home.as_str()).collect();
    assert_eq!(homes, ["/jdk-21", "/jre-21", "/jdk-17", "/jdk-8"]);
    assert_eq!(newest(&found, &None, 17).map(|j| j.version), Some(21));
    assert_eq!(newest(&found, &None, 99).map(|j| j.version), Some(21));
    assert_eq!(var(&found, &None, "java_home", false).as_deref(), Some("/jdk-21"));
    assert_eq!(var(&found, &None, "java", false).as_deref(), Some("/jdk-21/bin/java"));
    assert_eq!(var(&found, &None, "java", true).as_deref(), Some("/jdk-21\\bin\\java.exe"));
    let said = show(&runtimes(&found).expect("some that compile"));
    assert!(said.starts_with("[{\"name\":\"JavaSE-21\",\"path\":\"/jdk-21\",\"default\":true}"));
    assert!(said.ends_with("{\"name\":\"JavaSE-1.8\",\"path\":\"/jdk-8\",\"default\":false}]"));
    assert!(runtimes(&vec![]).is_none());
}

#[test]
fn what_was_found_is_kept_until_the_setting_changes() {
    let mut javas = Javas { said: None, found: None };
    assert_eq!(all(&mut javas, &vec![candidate("/jdk-17", true, true, None)]).len(), 1);
    assert_eq!(all(&mut javas, &vec![]).len(), 1);
    configure(&mut javas, Some("  "), &None);
    assert!(javas.found.is_some(), "nothing was said");
    configure(&mut javas, Some(" ~/jdk "), &Some("/home/me".to_string()));
    assert_eq!(javas.said.as_deref(), Some("/home/me/jdk"));
    assert!(javas.found.is_none());
}

#[test]
fn what_the_settings_name_wins_over_what_was_found() {
    let found = look(&vec![
        candidate("/jdk-17", true, true, None),
        candidate("/jdk-21", true, true, None),
        candidate("/jdk-8", true, true, None),
    ]);
    let said = |home: &str| Some(home.to_string());
    assert_eq!(var(&found, &said("/jdk-17"), "java_home", false).as_deref(), Some("/jdk-17"));
    assert_eq!(
        var(&found, &said("/jdk-17/"), "java", false).as_deref(),
        Some("/jdk-17/bin/java")
    );
    assert_eq!(newest(&found, &said("/jdk-8"), 8).map(|j| j.version), Some(8));
    // A place where none was found decides nothing.
    assert_eq!(newest(&found, &said("/nowhere"), 17).map(|j| j.version), Some(21));
}

#[test]
fn no_home_comes_twice() {
    let found = look(&vec![
        candidate("/a/jdk-17", true, true, None),
        candidate("/a//jdk-17/", true, false, None),
        candidate("/a/./jdk-17", true, true, None),
    ]);
    assert_eq!(found.len(), 1);
    assert!(found[0].compiles, "the first one found is the one that is kept");
}

#[test]
fn what_the_settings_name_is_passed_over_where_it_is_too_old() {
    let said = Some("/jdk-8".to_string());
    let found = look(&vec![
        candidate("/jdk-8", true, true, None),
        candidate("/jdk-21", true, true, None),
    ]);
    assert_eq!(newest(&found, &said, 17).map(|j| j.version), Some(21));
    assert_eq!(var(&found, &said, "java_home", false).as_deref(), Some("/jdk-21"));
    // Nothing is new enough, and the newest there is says so.
    let found = look(&vec![
        candidate("/jdk-8", true, true, None),
        candidate("/jdk-11", true, true, None),
    ]);
    assert_eq!(newest(&found, &said, 17).map(|j| j.version), Some(11));
}

#[test]
fn a_windows_machine_is_looked_at_its_way() {
    let home = Some("C:\\Users\\me".to_string());
    let dirs = searched(System::Windows, &home);
    assert_eq!(dirs[0], "C:\\Program Files\\Java");
    assert!(dirs.contains(&"C:\\Users\\me\\.jdks".to_string()));
    let places = vec!["C:\\bin\\".to_string(), "C:\\jdk\\bin".to_string()];
    assert_eq!(
        which("java", &places, true, &vec![false, true]).as_deref(),
        Some("C:\\jdk\\bin\\java.exe")
    );
    assert_eq!(
        which("java", &places, true, &vec![true, true]).as_deref(),
        Some("C:\\bin\\java.exe")
    );
    let on = |home: &str| Candidate { windows: true, ..candidate(home, true, true, None) };
    let version = |home: &str| read(&on(home)).map(|jdk| jdk.version);
    assert_eq!(version("C:\\Program Files 86\\jdk-17"), Some(17));
    assert_eq!(version("C:/Program Files 86/jdk-21\\"), Some(21));
    assert_eq!(version("\\\\server1\\share2"), None);
    assert_eq!(version("C:\\"), None);
    let unix = searched(System::Unix, &Some("/home/me".to_string()));
    assert!(unix.contains(&"/home/me/.jdks".to_string()));
}
