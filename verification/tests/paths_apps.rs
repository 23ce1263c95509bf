use astrill_split_proxy::apps::{
    add_app_entry, app_executable, app_executable_candidate, find_app_entry, launch_args,
    launch_env, plutil_args, remove_app_entry, sort_by_name, AppProxyEntry,
};
use astrill_split_proxy::paths::{app_name_from_path, join, path_file_name, shell_paths_in};

fn entry(id: &str, name: &str) -> AppProxyEntry {
    AppProxyEntry { id: id.to_string(), name: name.to_string(), path: id.to_string() }
}

#[test]
fn joins_like_pathbuf() {
    for (b, r) in [("/home/u", "x"), ("/home/u/", "x"), ("", "x"), ("/a", "/abs"), ("a", "")] {
        let want = std::path::Path::new(b).join(r).to_str().unwrap().to_string();
        assert_eq!(join(b, r), want, "{:?} {:?}", b, r);
    }
}

#[test]
fn file_names_like_path() {
    for p in ["/usr/bin/", "tmp/foo.txt", "foo.txt/.", "foo.txt/.//", "foo.txt/..", "/", "", ".", "./a", "/.", "a//b", "..", "a/./."] {
        let want = std::path::Path::new(p).file_name().map(|n| n.to_str().unwrap().to_string());
        assert_eq!(path_file_name(p), want, "path {:?}", p);
    }
}

#[test]
fn app_names() {
    assert_eq!(app_name_from_path("/Applications/Safari.app"), "Safari");
    assert_eq!(app_name_from_path("/Applications/Foo.app.app/"), "Foo");
    assert_eq!(app_name_from_path("/Applications/.app"), "/Applications/.app");
    assert_eq!(app_name_from_path("/"), "/");
    assert_eq!(app_name_from_path("/x/Tool"), "Tool");
}

#[test]
fn shell_files_under_home() {
    let v = shell_paths_in("/Users/a");
    assert_eq!(v.len(), 5);
    assert_eq!(v[0], ("zsh".to_string(), "/Users/a/.zprofile".to_string()));
    assert_eq!(v[4], ("fish".to_string(), "/Users/a/.config/fish/config.fish".to_string()));
}

#[test]
fn adding_sorts_by_name_and_skips_duplicates() {
    let list = vec![entry("/A/Zed.app", "Zed"), entry("/A/Mail.app", "Mail")];
    let (list, changed) = add_app_entry(list, "/A/Chrome.app\n");
    assert!(changed);
    let names: Vec<&str> = list.iter().map(|e| e.name.as_str()).collect();
    assert_eq!(names, ["Chrome", "Mail", "Zed"]);
    assert_eq!(list[0].id, "/A/Chrome.app");
    assert_eq!(list[0].path, "/A/Chrome.app");
    let (again, changed) = add_app_entry(list, "/A/Chrome.app");
    assert!(!changed);
    assert_eq!(again.len(), 3);
    let (same, changed) = add_app_entry(again, "  \n");
    assert!(!changed);
    assert_eq!(same.len(), 3);
}

#[test]
fn removing_and_finding_by_id() {
    let list = vec![entry("/a", "A"), entry("/b", "B"), entry("/a", "A2")];
    let left = remove_app_entry(&list, "/a");
    assert_eq!(left.len(), 1);
    assert_eq!(left[0].id, "/b");
    assert_eq!(find_app_entry(&list, "/a").unwrap().name, "A");
    assert_eq!(find_app_entry(&list, "/c").err().unwrap(), "应用不存在");
}

#[test]
fn sorting_keeps_equal_names_in_order() {
    let list = vec![entry("/2", "b"), entry("/1", "a"), entry("/3", "b"), entry("/0", "B")];
    let sorted = sort_by_name(&list);
    let ids: Vec<&str> = sorted.iter().map(|e| e.id.as_str()).collect();
    assert_eq!(ids, ["/0", "/1", "/2", "/3"]);
}

#[test]
fn launch_environment_and_arguments() {
    let env = launch_env(18080, 18081);
    assert_eq!(env.len(), 8);
    assert_eq!(env[0], ("http_proxy".to_string(), "http://127.0.0.1:18080".to_string()));
    assert_eq!(env[5], ("ALL_PROXY".to_string(), "socks5h://127.0.0.1:18081".to_string()));
    assert_eq!(env[7], ("NO_PROXY".to_string(), "localhost,127.0.0.1,::1".to_string()));
    assert_eq!(
        launch_args(8080),
        vec!["--proxy-server=http://127.0.0.1:8080".to_string(), "--proxy-bypass-list=<-loopback>".to_string()]
    );
}

#[test]
fn executable_path_from_plutil() {
    assert_eq!(plutil_args("/A/X.app")[5], "/A/X.app/Contents/Info.plist");
    assert_eq!(
        app_executable_candidate("/A/X.app", &Ok("RealName\n".to_string())),
        "/A/X.app/Contents/MacOS/RealName"
    );
    assert_eq!(
        app_executable_candidate("/A/X.app", &Err("boom".to_string())),
        "/A/X.app/Contents/MacOS/X"
    );
    assert_eq!(
        app_executable_candidate("/A/X.app", &Ok("  ".to_string())),
        "/A/X.app/Contents/MacOS/X"
    );
    assert_eq!(
        app_executable("/A/X.app", &Ok("Y".to_string()), false).err().unwrap(),
        "没有找到应用可执行文件"
    );
    assert_eq!(app_executable("/A/X.app", &Ok("Y".to_string()), true).unwrap(), "/A/X.app/Contents/MacOS/Y");
}

#[test]
fn adding_then_removing_restores_entries() {
    let list = vec![entry("/A/Zed.app", "Zed"), entry("/A/Mail.app", "Mail")];
    let (grown, changed) = add_app_entry(list, "/A/New.app");
    assert!(changed);
    let back = remove_app_entry(&grown, "/A/New.app");
    let mut ids: Vec<&str> = back.iter().map(|e| e.id.as_str()).collect();
    ids.sort();
    assert_eq!(ids, ["/A/Mail.app", "/A/Zed.app"]);
}

#[test]
fn data_files_under_home() {
    let home = dirs::home_dir().unwrap().to_str().unwrap().to_string();
    let base = std::path::Path::new(&home).join("Library/Application Support/AstrillSplitProxy");
    assert_eq!(
        astrill_split_proxy::paths::config_path().unwrap(),
        base.join("config.json").to_str().unwrap()
    );
    assert_eq!(
        astrill_split_proxy::paths::traffic_log_path().unwrap(),
        base.join("traffic.jsonl").to_str().unwrap()
    );
    assert_eq!(
        astrill_split_proxy::paths::app_proxy_list_path().unwrap(),
        base.join("app_proxy_apps.json").to_str().unwrap()
    );
    assert_eq!(
        astrill_split_proxy::paths::launch_agent_path().unwrap(),
        std::path::Path::new(&home)
            .join("Library/LaunchAgents/local.astrill-split-proxy.plist")
            .to_str()
            .unwrap()
    );
}

#[test]
fn chromium_proxy_argument_uses_http_port() {
    assert_eq!(launch_args(18080)[0], "--proxy-server=http://127.0.0.1:18080");
}

#[test]
fn app_names_are_stable() {
    for p in ["/Applications/Safari.app", "/A/..app", "/", "", "x.app.app", "/a/b/"] {
        let n = app_name_from_path(p);
        assert_eq!(n.is_empty(), p.is_empty());
        assert_eq!(app_name_from_path(&n), n, "path {:?}", p);
    }
}
