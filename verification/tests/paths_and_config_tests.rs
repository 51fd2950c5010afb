use littera_desktop::config::base_name;
use littera_desktop::config::config_dir;
use littera_desktop::config::config_dir_from;
use littera_desktop::config::config_path;
use littera_desktop::config::display_name;
use littera_desktop::config::record_recent;
use littera_desktop::config::DesktopConfig;
use littera_desktop::config::RecentWork;
use littera_desktop::launcher::find_python;
use littera_desktop::launcher::init_plan;
use littera_desktop::launcher::is_littera_work;
use littera_desktop::launcher::launch_plan;
use littera_desktop::launcher::parent_of;
use littera_desktop::launcher::resolve_python;
use littera_desktop::launcher::root_step;
use littera_desktop::launcher::RootStep;
use littera_desktop::workspace::scan_workspace;
use littera_desktop::workspace::str_lex_le;
use littera_desktop::workspace::work_entries;

#[test]
fn parent_of_walks_one_level() {
    assert_eq!(parent_of("a/b/c"), Some("a/b".to_string()));
    assert_eq!(parent_of("/home/user"), Some("/home".to_string()));
    assert_eq!(parent_of("/a"), Some("/".to_string()));
    assert_eq!(parent_of("abc"), None);
    assert_eq!(parent_of(""), None);
}

#[test]
fn base_and_display_names() {
    assert_eq!(base_name("a/b/c"), "c");
    assert_eq!(base_name("abc"), "abc");
    assert_eq!(base_name("a/"), "");
    assert_eq!(display_name("/home/user/novel"), "novel");
    assert_eq!(display_name("a/"), "a/");
    assert_eq!(display_name(""), "");
}

#[test]
fn launch_plan_has_fixed_invocation() {
    let lp = launch_plan("/nonexistent_littera_zz", None, "/work/dir");
    assert_eq!(lp.args.len(), 4);
    assert_eq!(lp.args[0], "-m");
    assert_eq!(lp.args[1], "littera.desktop.server");
    assert_eq!(lp.args[2], "--work-dir");
    assert_eq!(lp.args[3], "/work/dir");
    assert_eq!(lp.program, "python3");
}

#[test]
fn init_plan_has_fixed_invocation() {
    let lp = init_plan("/nonexistent_littera_zz", None, "/new/work");
    assert_eq!(lp.args, vec!["-m", "littera", "init", "/new/work"]);
}

#[test]
fn missing_virtual_env_falls_back_to_system_interpreter() {
    let py = find_python("/nonexistent_littera_zz", Some("/nonexistent_venv_zz"));
    assert_eq!(py, "python3");
}

#[test]
fn interpreter_resolution_prefers_the_project_venv() {
    let venv = "/r/.venv/bin/python".to_string();
    let env = Some("/v/bin/python".to_string());
    assert_eq!(resolve_python(venv.clone(), true, env.clone(), true), "/r/.venv/bin/python");
    assert_eq!(resolve_python(venv.clone(), false, env.clone(), true), "/v/bin/python");
    assert_eq!(resolve_python(venv.clone(), false, env.clone(), false), "python3");
    assert_eq!(resolve_python(venv, false, None, false), "python3");
}

#[test]
fn root_search_steps_follow_the_marker_probe() {
    match root_step("/a/b", true) {
        RootStep::Found(p) => assert_eq!(p, "/a/b"),
        _ => panic!("a directory with the marker is the root"),
    }
    match root_step("/a/b", false) {
        RootStep::Climb(p) => assert_eq!(p, "/a"),
        _ => panic!("without the marker the walk climbs"),
    }
    match root_step("noslash", false) {
        RootStep::NoParent => {}
        _ => panic!("without a parent the walk ends"),
    }
}

#[test]
fn nonexistent_path_is_not_a_work() {
    assert!(!is_littera_work("/nonexistent_littera_zz"));
}

#[test]
fn config_locations_are_under_the_dot_directory() {
    assert!(config_dir().ends_with("/.littera"));
    assert!(config_path().ends_with("/.littera/desktop.json"));
}

#[test]
fn config_dir_is_resolved_against_the_home() {
    assert_eq!(config_dir_from(Some("/home/user")), "/home/user/.littera");
    assert_eq!(config_dir_from(None), "./.littera");
}

fn entry(path: &str, name: &str, when: u64) -> RecentWork {
    RecentWork { path: path.to_string(), name: name.to_string(), last_opened: when }
}

#[test]
fn record_recent_puts_newest_in_front_and_dedups() {
    let mut config = DesktopConfig::default();
    config.recent.push(entry("/w/a", "a", 1));
    config.recent.push(entry("/w/b", "b", 2));
    config.workspace = Some("/w".to_string());

    record_recent(&mut config, "/w/b");
    assert_eq!(config.recent.len(), 2);
    assert_eq!(config.recent[0].path, "/w/b");
    assert_eq!(config.recent[0].name, "b");
    assert_eq!(config.recent[1].path, "/w/a");
    assert_eq!(config.workspace, Some("/w".to_string()));

    record_recent(&mut config, "/w/c");
    assert_eq!(config.recent.len(), 3);
    assert_eq!(config.recent[0].path, "/w/c");
    assert_eq!(config.recent[0].name, "c");
    assert_eq!(config.recent[1].path, "/w/b");
    assert_eq!(config.recent[2].path, "/w/a");
}

#[test]
fn record_recent_caps_the_list_at_ten() {
    let mut config = DesktopConfig::default();
    for i in 0..12 {
        let path = format!("/w/{}", i);
        record_recent(&mut config, &path);
    }
    assert_eq!(config.recent.len(), 10);
    assert_eq!(config.recent[0].path, "/w/11");
    assert_eq!(config.recent[9].path, "/w/2");
}

#[test]
fn string_order_is_by_code_point() {
    assert!(str_lex_le("abc", "abd"));
    assert!(str_lex_le("ab", "abc"));
    assert!(!str_lex_le("abd", "abc"));
    assert!(str_lex_le("", "a"));
    assert!(str_lex_le("same", "same"));
    assert!(str_lex_le("Zoo", "apple"));
}

#[test]
fn work_entries_keeps_marked_candidates_sorted_by_name() {
    let paths = vec![
        "/ws/cherry".to_string(),
        "/ws/apple".to_string(),
        "/ws/banana".to_string(),
    ];
    let keep = vec![true, false, true];
    let out = work_entries(&paths, &keep);
    assert_eq!(out.len(), 2);
    assert_eq!(out[0].name, "banana");
    assert_eq!(out[0].path, "/ws/banana");
    assert_eq!(out[1].name, "cherry");
    assert_eq!(out[1].path, "/ws/cherry");
}

#[test]
fn work_entries_lists_each_kept_candidate_exactly_once() {
    let paths = vec!["/one/x".to_string(), "/two/x".to_string()];
    let keep = vec![true, true];
    let out = work_entries(&paths, &keep);
    assert_eq!(out.len(), 2);
    assert_eq!(out[0].name, "x");
    assert_eq!(out[1].name, "x");
    let mut got = vec![out[0].path.as_str(), out[1].path.as_str()];
    got.sort();
    assert_eq!(got, vec!["/one/x", "/two/x"]);
}

#[test]
fn scanning_nonexistent_children_finds_nothing() {
    let children = vec![
        "/nonexistent_littera_zz/a".to_string(),
        "/nonexistent_littera_zz/b".to_string(),
    ];
    let out = scan_workspace(&children);
    assert_eq!(out.len(), 0);
}
