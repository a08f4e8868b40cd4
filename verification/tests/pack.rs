//! Packages: what there is, what would be done, and doing it.
use textfold::course::{Act, Event, Fetched, Note};
use textfold::offers::{
    asked_for, available, find, id_at, installed_version, manifest_in, not_there, removable,
    removable_plugins, updates, Found, Known, Named,
};
use textfold::pack::{
    bin_dir, fill, install_env, is_newer, on_path, package_dirs, plugins_dir, put_tools_on_path,
    runnable, tools_dir, Entry, Lookup, Origin, Package, Remote, Repository,
};
use textfold::plan::{
    checked, from_manifest, holding_place, install, install_to, is_copied, receipt_for, root_of_unpacked, steps_here,
    uninstall, Files, Instructions, Plan, Step,
};

fn step(run: &[&str], unless: Option<&str>) -> Step {
    Step {
        about: run.join(" "),
        run: run.iter().map(|s| s.to_string()).collect(),
        unless: unless.map(str::to_string),
        when: None,
        os: vec![],
        arch: vec![],
        system: false,
    }
}

fn plan(steps: Vec<Step>, needs: &[&str]) -> Plan {
    Plan {
        id: "p".to_string(),
        name: "P".to_string(),
        removing: false,
        files: Files::Leave,
        steps,
        steps_from: None,
        needs: needs.iter().map(|s| s.to_string()).collect(),
        see: None,
    }
}

/// The programs of a small machine.
fn here(what: &str) -> bool {
    ["sh", "true", "false"].contains(&what)
}

/// Carry a plan out on that machine: `true` works and `false` does not.
fn notes(plan: Plan) -> (bool, Vec<String>) {
    let mut run = plan.run(Some("/home/me/.local/share/textfold/tools".to_string()));
    loop {
        match run.next() {
            Act::Files => run.on(Event::Filed(Ok(()))),
            Act::ReadManifest(_) => {
                run.on(Event::Read(Ok(Fetched { steps: vec![], needs: vec![], see: None })))
            }
            Act::Judge { unless, when, program } => run.on(Event::Facts {
                needless: unless.is_some_and(|u| here(&u)),
                waited: when.map_or(true, |w| here(&w)),
                program: here(&program),
            }),
            Act::Work { program, .. } => {
                run.on(Event::Worked { ok: program == "true", output: String::new() })
            }
            Act::Look(needs) => {
                run.on(Event::Looked(needs.into_iter().filter(|n| !here(n)).collect()))
            }
            Act::Nothing(ok) => {
                let said = run
                    .said
                    .iter()
                    .map(|note| match note {
                        Note::Doing { about, .. } => format!("doing {about}"),
                        Note::Did { ok, .. } => format!("did {ok}"),
                        Note::Skipped { why, .. } => format!("skipped: {why}"),
                        Note::Done { ok, why } => format!("done {ok}: {why}"),
                    })
                    .collect();
                return (ok, said);
            }
        }
    }
}

fn home() -> Option<String> {
    tools_dir(&None, &Some("/home/me".to_string()), &None, false)
}

#[test]
fn what_an_install_runs_with_points_every_package_manager_at_our_own_corner() {
    // Every one of these is that package manager's own documented variable.
    let env = install_env(&home(), false);
    let tools = home().expect("a home");
    let bin = format!("{tools}/bin");
    let get = |name: &str| {
        env.iter()
            .find(|(k, _)| k == name)
            .map(|(_, v)| v.clone())
            .unwrap_or_else(|| panic!("{name} was not set"))
    };
    assert_eq!(get("npm_config_prefix"), tools);
    assert_eq!(get("PYTHONUSERBASE"), tools);
    assert_eq!(get("CARGO_INSTALL_ROOT"), tools);
    assert_eq!(get("PIPX_BIN_DIR"), bin);
    assert_eq!(get("UV_TOOL_BIN_DIR"), bin);
    assert_eq!(get("GOBIN"), bin);
    // And nothing points anywhere near the places a system install goes.
    for (name, value) in &env {
        assert!(
            value.starts_with(&tools),
            "{name} is set to {value}, which is outside textfold's own directory"
        );
    }
    assert!(install_env(&None, false).is_empty());
}

#[test]
fn our_own_programs_go_on_the_path_last() {
    // What you installed yourself goes on winning.
    let bin = bin_dir(&home(), false);
    let had = vec!["/usr/bin".to_string(), "/bin".to_string()];
    let dirs = put_tools_on_path(&had, &bin).expect("it was not there");
    assert_eq!(dirs.last(), bin.as_ref());
    assert_eq!(
        dirs.iter().filter(|d| Some(*d) == bin.as_ref()).count(),
        1,
        "twice on the PATH is once too many"
    );
    // And saying it again changes nothing.
    assert_eq!(put_tools_on_path(&dirs, &bin), None);
    assert_eq!(dirs.len(), 3);
}

#[test]
fn a_step_for_another_machine_is_not_part_of_the_plan_at_all() {
    // Dropped when the plan is made rather than skipped at the last moment.
    let mine = Step { os: vec!["linux".to_string()], ..step(&["true"], None) };
    let theirs = Step { os: vec!["plan9".to_string()], ..step(&["true"], None) };
    assert!(mine.here("linux", "x86_64"));
    assert!(!theirs.here("linux", "x86_64"));
    let wrong_chip = Step { arch: vec!["s390x".to_string()], ..step(&["true"], None) };
    assert!(!wrong_chip.here("linux", "x86_64"), "the processor has to match too");
    assert_eq!(steps_here(&vec![mine, theirs, wrong_chip], "linux", "x86_64").len(), 1);
}

#[test]
fn a_downloaded_program_is_not_finished_until_it_can_be_run() {
    // A file with no executable bit is not a program.
    assert!(!runnable(true, Some(0o644)), "it has no executable bit yet");
    assert!(runnable(true, Some(0o755)));
    assert!(!runnable(false, Some(0)), "it is not there");
    assert!(!runnable(false, Some(0o755)), "a directory is not a program");
}

#[test]
fn a_step_can_run_a_program_an_earlier_step_put_there() {
    // The `pip` inside a virtual environment a previous step made.
    let mut run =
        plan(vec![step(&["${bin}/prog", "${tools}/x"], None)], &[]).run(Some("/t".to_string()));
    assert!(matches!(run.next(), Act::Judge { program, .. } if program == "/t/bin/prog"));
    run.on(Event::Facts { needless: false, waited: true, program: true });
    match run.next() {
        Act::Work { program, args } => {
            assert_eq!(program, "/t/bin/prog");
            assert_eq!(args, vec!["/t/x".to_string()]);
        }
        other => panic!("{other:?}"),
    }
}

#[test]
fn a_step_waits_for_what_an_earlier_step_was_meant_to_make() {
    // If the first cannot run, the others have nothing to work on and must
    // stand aside rather than fail.
    let missing = "/work/not-made-yet".to_string();
    let (ok, said) = notes(plan(
        vec![
            Step { when: Some(missing.clone()), ..step(&["true"], None) },
            step(&["true"], None),
        ],
        &[],
    ));
    assert!(ok, "{said:?}");
    assert_eq!(said[0], format!("skipped: there is no {missing}"));
    assert_eq!(said[1], "doing true", "and the one after it still ran");
}

#[test]
fn a_step_can_name_the_directory_it_is_installing_into() {
    let tools = home().expect("a home");
    let filled = fill("curl -o ${bin}/marksman && ls ${tools}", &home());
    assert!(filled.contains(&format!("{tools}/bin")));
    assert!(filled.contains(&tools));
    assert!(!filled.contains("${"), "{filled}");
}

#[test]
fn a_program_is_found_the_way_a_shell_would_find_it() {
    let dirs = vec!["/usr/bin".to_string(), "/bin".to_string()];
    match on_path("sh", &dirs) {
        Lookup::Runnable(places) => {
            assert_eq!(places[0], "/usr/bin/sh");
            assert!(places.contains(&"/bin/sh".to_string()));
        }
        other => panic!("{other:?}"),
    }
    assert!(
        matches!(on_path("/bin/sh", &dirs), Lookup::File(f) if f == "/bin/sh"),
        "a path is checked as a path"
    );
    assert!(matches!(on_path("", &dirs), Lookup::Nowhere));
}

#[test]
fn a_path_asks_whether_the_file_is_there_and_a_bare_name_whether_it_can_be_run() {
    let dirs = vec!["/bin".to_string()];
    assert!(
        matches!(on_path("/work/data.js", &dirs), Lookup::File(f) if f == "/work/data.js"),
        "a file named by its path is there, whatever its mode"
    );
    assert!(!runnable(true, Some(0o644)), "and it is still not a program");
    assert!(matches!(on_path("./absent.js", &dirs), Lookup::File(_)));
    assert!(matches!(on_path("ruff", &dirs), Lookup::Runnable(_)));
}

#[test]
fn a_step_whose_work_is_already_done_is_not_done_again() {
    let (ok, said) = notes(plan(vec![step(&["false"], Some("sh"))], &[]));
    assert!(ok, "{said:?}");
    assert_eq!(said[0], "skipped: sh is already here");
}

#[test]
fn a_step_you_cannot_run_is_not_a_step_that_failed() {
    // No `uv` on this machine means try the next one, not give up.
    let (ok, said) = notes(plan(
        vec![
            step(&["a-package-manager-nobody-has", "install", "x"], None),
            step(&["true"], None),
        ],
        &[],
    ));
    assert!(ok, "{said:?}");
    assert_eq!(said[0], "skipped: no a-package-manager-nobody-has");
    assert_eq!(said[1], "doing true");
}

#[test]
fn a_step_that_runs_and_fails_stops_the_rest() {
    let (ok, said) = notes(plan(vec![step(&["false"], None), step(&["true"], None)], &[]));
    assert!(!ok);
    assert!(said.iter().any(|s| s == "did false"), "{said:?}");
    assert!(
        !said.iter().any(|s| s == "doing true"),
        "the step after a failure ran: {said:?}"
    );
}

#[test]
fn an_install_that_did_not_install_anything_has_not_worked() {
    // Every step was cheerful and the program is still not there.
    let (ok, said) = notes(plan(vec![step(&["true"], None)], &["still-not-here"]));
    assert!(!ok);
    assert_eq!(said.last().unwrap(), "done false: still no still-not-here");
}

#[test]
fn what_it_needs_being_there_already_is_a_finished_install() {
    let (ok, _) = notes(plan(vec![], &["sh"]));
    assert!(ok);
}

#[test]
fn a_package_is_copied_in_and_leaves_a_receipt() {
    let from = "/pkg/mine".to_string();
    let to = "/home/me/.config/textfold/plugins/mine".to_string();
    let files = Files::Copy { from: from.clone(), to: to.clone() };
    let receipt = receipt_for(&files, &Some("1.0.0".to_string())).expect("so that it can go again");
    assert_eq!(receipt.from, from);
    assert_eq!(receipt.version.as_deref(), Some("1.0.0"));
    let mut copying = plan(vec![], &[]);
    copying.files = files;
    assert!(notes(copying).0);

    // And removing it is a plan of its own.
    let mut away = plan(vec![], &[]);
    away.removing = true;
    away.files = Files::Remove(to.clone());
    assert!(receipt_for(&away.files, &None).is_none());
    assert!(!away.is_empty());
    assert!(notes(away).0);
}

fn entry(version: &str, needs: &[&str]) -> Entry {
    Entry {
        id: "zls".to_string(),
        name: None,
        about: None,
        version: version.to_string(),
        url: "dist/zls-1.0.0.tar.gz".to_string(),
        sha256: None,
        size: None,
        needs: needs.iter().map(|s| s.to_string()).collect(),
        see: None,
    }
}

fn remote(version: &str) -> Remote {
    Remote {
        repository: Repository {
            name: "r".to_string(),
            url: "https://example.invalid/p".to_string(),
        },
        entry: entry(version, &["zls"]),
    }
}

#[test]
fn what_a_package_names_inside_itself_is_not_reported_as_missing() {
    let needs = entry(
        "1.0.0",
        &["python3", "${plugin}/node_modules/x/language-server.js", "a-program-nobody-wrote"],
    )
    .needs;
    let lacking = vec![
        "${plugin}/node_modules/x/language-server.js".to_string(),
        "a-program-nobody-wrote".to_string(),
    ];
    assert_eq!(not_there(&needs, &lacking), ["a-program-nobody-wrote"]);
}

fn package(installed: Option<&str>, offered: Option<&str>) -> Package {
    Package {
        id: "zls".to_string(),
        name: "zls".to_string(),
        about: "Zig".to_string(),
        origin: Origin::Yours,
        missing: vec![],
        here: true,
        installed: installed.map(str::to_string),
        offered: offered.map(str::to_string),
    }
}

#[test]
fn an_update_is_offered_only_where_both_sides_say_what_version_they_are() {
    assert!(package(Some("1.0.0"), Some("1.1.0")).has_update());
    assert!(!package(Some("1.1.0"), Some("1.1.0")).has_update());
    assert!(!package(Some("1.2.0"), Some("1.1.0")).has_update());
    // A plugin that declines to number itself is one nothing is ever an update
    // to.
    assert!(!package(None, Some("1.1.0")).has_update());
    assert!(!package(Some("1.0.0"), None).has_update());

    // And what the row says, which is where anybody actually reads this.
    assert_eq!(package(Some("1.0.0"), Some("1.1.0")).tag(), "update");
    assert!(package(Some("1.0.0"), Some("1.1.0")).detail().contains("1.0.0 → 1.1.0"));
    assert_eq!(package(Some("1.1.0"), Some("1.1.0")).tag(), "ready");
}

#[test]
fn a_fetch_says_that_more_will_follow_once_it_knows_what() {
    // A package still in a repository has no steps to show: they are in its
    // manifest, and its manifest is inside the tarball.
    let to = "/home/me/.config/textfold/plugins/zls".to_string();
    let plan = Plan {
        id: "zls".to_string(),
        name: "zls".to_string(),
        removing: false,
        files: Files::Fetch { remote: remote("1.0.0"), to: to.clone() },
        steps: vec![],
        steps_from: Some(to),
        needs: vec!["zls".to_string()],
        see: None,
    };
    assert!(!plan.is_empty(), "a fetch is something to do");
    let lines = plan.lines(&None);
    assert_eq!(
        lines[0],
        "fetch zls 1.0.0 from r into /home/me/.config/textfold/plugins/zls"
    );
    assert!(lines[1].contains("once it is here"), "{lines:?}");
}

fn found(path: &str, has_manifest: bool, id: Option<&str>) -> Found {
    Found {
        path: path.to_string(),
        is_dir: true,
        has_manifest,
        named: Some(Named {
            id: id.map(str::to_string),
            name: None,
            about: None,
            version: None,
        }),
    }
}

#[test]
fn a_package_says_what_it_is_called_and_falls_back_to_its_directory() {
    assert_eq!(id_at(&found("/pkg/whatever", true, Some("Cargo"))).as_deref(), Some("cargo"));
    assert_eq!(id_at(&found("/pkg/Silent", true, None)).as_deref(), Some("silent"));
    // And a directory with nothing in it is not a package.
    assert_eq!(id_at(&found("/pkg/empty", false, None)), None);
}

#[test]
fn what_a_plan_will_do_can_be_read_before_it_does_it() {
    let plan = Plan {
        id: "zls".to_string(),
        name: "zls".to_string(),
        removing: false,
        files: Files::Copy {
            from: "/pkg/zls".to_string(),
            to: "/home/me/.config/textfold/plugins/zls".to_string(),
        },
        steps: vec![step(&["brew", "install", "zls"], Some("zls"))],
        steps_from: None,
        needs: vec!["zls".to_string()],
        see: None,
    };
    assert_eq!(
        plan.lines(&None),
        ["copy /pkg/zls to /home/me/.config/textfold/plugins/zls", "brew install zls"]
    );
    assert!(!plan.is_empty());
    assert!(!plan.touches_system());
}

fn known(id: &str, installed: Option<&str>) -> Known {
    Known {
        id: id.to_string(),
        name: id.to_string(),
        about: "about it".to_string(),
        built_in: false,
        removable: Some(format!("/home/me/.config/textfold/plugins/{id}")),
        installed: installed.map(str::to_string),
        missing: vec![],
        can_install: true,
        can_uninstall: false,
    }
}

#[test]
fn a_package_is_listed_once_and_updated_when_there_is_something_newer() {
    let listed = available(
        &vec![known("zls", Some("1.0.0"))],
        &vec![vec![found("/pkg/zls", true, Some("zls")), found("/pkg/two", true, Some("two"))]],
        &vec![remote("1.1.0")],
        &vec![],
    );
    assert_eq!(listed.iter().filter(|p| p.id == "zls").count(), 1);
    assert!(listed.iter().any(|p| p.id == "two"));
    let newer = updates(listed);
    assert_eq!(newer.len(), 1);
    assert_eq!(newer[0].offered.as_deref(), Some("1.1.0"));
    assert_eq!(asked_for(newer, "something-else").len(), 0);
    assert!(is_newer("1.10.0", "1.9.0"));
    assert!(!is_newer("1.9.0", "1.10.0"));
}

#[test]
fn a_package_nobody_has_heard_of_is_said_to_be_that() {
    let nothing = found("/nowhere", false, None);
    let r = find("nope", &nothing, false, vec![], &vec![]);
    assert!(r.is_err_and(|why| why.contains("nope")));
    let r = find("zls", &nothing, false, vec![package(Some("1.0.0"), None)], &vec![]);
    assert_eq!(r.map(|p| p.id).ok().as_deref(), Some("zls"));
}

#[test]
fn installing_and_taking_away() {
    let to = install_to("two", &Some("/plugins".to_string()), false, false);
    assert_eq!(to.as_deref(), Ok("/plugins/two"));
    assert!(install_to("two", &None, false, false).is_err(), "nowhere to put it");
    let mut p = package(None, None);
    p.here = false;
    p.origin = Origin::Path("/pkg/zls".to_string());
    let said = Some(Instructions {
        name: "Zig".to_string(),
        install: vec![step(&["true"], None)],
        uninstall: vec![],
        needs: vec![],
        see: None,
    });
    let made = install(&p, &said, &Ok("/plugins/zls".to_string()), "linux", "x86_64").expect("a plan");
    assert!(matches!(&made.files, Files::Copy { from, to } if from == "/pkg/zls" && to == "/plugins/zls"));
    assert_eq!(made.steps.len(), 1);
    let gone = uninstall("zls", &Some(known("zls", None)), &vec![], "linux", "x86_64").expect("a plan");
    assert!(gone.removing);
    assert!(matches!(&gone.files, Files::Remove(dir) if dir.ends_with("/zls")));
    assert!(uninstall("zls", &None, &vec![], "linux", "x86_64").is_err());
}

#[test]
fn what_may_be_taken_away_and_what_version_it_was() {
    assert_eq!(removable("/plugins/zls", false, true).as_deref(), Some("/plugins/zls"));
    assert_eq!(removable("/plugins/zls", false, false), None, "nobody here put it there");
    assert_eq!(
        installed_version(&Some("2.0".to_string()), &Some("1.0".to_string())).as_deref(),
        Some("2.0")
    );
    assert_eq!(installed_version(&None, &Some("1.0".to_string())).as_deref(), Some("1.0"));
    assert_eq!(manifest_in("/pkg/zls", true, true, false).as_deref(), Some("/pkg/zls/plugin.json"));
    assert_eq!(manifest_in("/pkg/zls", true, false, false), None);
    assert_eq!(
        root_of_unpacked("/tmp/u", false, &vec![("/tmp/u/zls-1".to_string(), true)]).as_deref(),
        Some("/tmp/u/zls-1")
    );
    assert_eq!(root_of_unpacked("/tmp/u", false, &vec![]), None);
}

#[test]
fn what_is_shown_of_a_run() {
    let doing = Note::Doing { at: 1, of: 3, about: "fetching it".to_string() };
    let (out, err) = doing.print();
    assert!(out.contains("fetching it"), "{out:?} {err:?}");
    let done = Note::Done { ok: false, why: "still no zls".to_string() };
    let (out, err) = done.print();
    assert!(out.contains("still no zls") || err.contains("still no zls"), "{out:?} {err:?}");
}

#[test]
fn where_packages_and_plugins_are() {
    let config = Some("/home/me/.config/textfold".to_string());
    assert_eq!(plugins_dir(&config).as_deref(), Some("/home/me/.config/textfold/plugins"));
    assert_eq!(plugins_dir(&None), None);
    let home = Some("/home/me".to_string());
    let dirs = package_dirs(&config, &vec!["~/pkgs".to_string(), "/pkgs".to_string()], &home);
    assert!(dirs.contains(&"/home/me/pkgs".to_string()), "{dirs:?}");
    assert_eq!(dirs.last().map(String::as_str), Some("/pkgs"));
    assert_eq!(removable_plugins(&vec![known("zls", None)]).len(), 1);
    let mut shipped = known("rust", None);
    shipped.built_in = true;
    shipped.removable = None;
    assert_eq!(removable_plugins(&vec![shipped]).len(), 0);
}

#[test]
fn a_manifest_with_something_wrong_in_it_says_nothing() {
    let read = || Instructions {
        name: "Zig".to_string(),
        install: vec![],
        uninstall: vec![],
        needs: vec![],
        see: None,
    };
    assert!(from_manifest(read(), &vec![]).is_ok());
    let r = from_manifest(read(), &vec!["no id".to_string(), "no name".to_string()]);
    assert_eq!(r.err().as_deref(), Some("no id"));
    assert!(is_copied("run.py"));
    assert!(!is_copied(".git"));
    assert!(!is_copied("__pycache__"));
}

#[test]
fn a_download_that_is_not_what_was_listed_is_refused() {
    let mut listed = entry("1.0.0", &[]);
    assert_eq!(checked(&listed, 5, "abc"), Ok(()), "nothing is said of it");
    listed.size = Some(5);
    listed.sha256 = Some("abc".to_string());
    assert_eq!(checked(&listed, 5, "abc"), Ok(()));
    assert_eq!(
        checked(&listed, 4, "abc"),
        Err("zls is not the size that its repository gives for it".to_string())
    );
    assert_eq!(
        checked(&listed, 5, "abd"),
        Err("zls does not match the digest that its repository gives for it".to_string())
    );
}

#[test]
fn a_machine_without_such_bits_lets_anybody_run_a_file() {
    assert!(runnable(true, None));
    assert!(!runnable(false, None));
}

#[test]
fn what_is_being_fetched_is_held_beside_where_it_goes() {
    assert_eq!(holding_place("/p/zls"), "/p/zls.fetching");
    assert_eq!(holding_place("/p/my.plugin"), "/p/my.fetching");
}

#[test]
fn the_corner_of_a_windows_machine_is_written_its_way() {
    let data = Some("C:\\Users\\me\\AppData\\Roaming".to_string());
    let tools = tools_dir(&None, &Some("C:\\Users\\me".to_string()), &data, true);
    let want = "C:\\Users\\me\\AppData\\Roaming\\textfold\\tools";
    assert_eq!(tools.as_deref(), Some(want));
    assert_eq!(bin_dir(&tools, true), Some(format!("{want}\\bin")));
    let env = install_env(&tools, true);
    assert!(env.contains(&("GOBIN".to_string(), format!("{want}\\bin"))));
    assert_eq!(
        tools_dir(&Some("D:".to_string()), &None, &None, true).as_deref(),
        Some("D:textfold\\tools")
    );
}
