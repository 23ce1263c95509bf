use astrill_split_proxy::detect::{
    astrill_pids, detect_astrill_port_sync, proxy_port_from_command, DetectAction,
};
use astrill_split_proxy::login::{
    chrono_like_now, launchctl_bootout_args, login_item_plist, user_id, xml_escape,
};
use astrill_split_proxy::logs::LogBuffer;
use astrill_split_proxy::status::{
    apply_system_proxy, country_lookup_args, country_result, port_or, shell_configured,
    start_proxy, system_proxy_summary, ProxyPorts, StartPlan,
};
use astrill_split_proxy::traffic::{
    read_traffic_stats, skip_partial_line, tail_offset, traffic_event,
};

#[test]
fn traffic_summary() {
    let log = [
        "{\"route\":\"proxy\",\"host\":\"a.com\"}\n",
        "not json\n",
        "   \n",
        "{\"route\":\"direct\",\"host\":\"b.cn\"}\n",
        "{\"route\":\"proxy\",\"host\":\"b.com\"}\n",
        "{\"route\":\"proxy\",\"host\":\"a.com\"}\r\n",
        "{\"route\":\"proxy\"}\n",
        "{\"other\":1}\n",
    ]
    .join("");
    let log = log.as_str();
    let st = read_traffic_stats(log, false);
    assert_eq!(st.total, 6);
    assert_eq!(st.proxy, 4);
    assert_eq!(st.direct, 1);
    assert_eq!(st.recent.len(), 6);
    assert_eq!(st.recent[0], "{\"other\":1}");
    assert_eq!(st.recent[2], "{\"route\":\"proxy\",\"host\":\"a.com\"}");
    assert_eq!(st.proxy_hosts.len(), 2);
    assert_eq!((st.proxy_hosts[0].host.as_str(), st.proxy_hosts[0].count), ("a.com", 2));
    assert_eq!((st.proxy_hosts[1].host.as_str(), st.proxy_hosts[1].count), ("b.com", 1));
}

#[test]
fn traffic_limits() {
    let mut log = String::new();
    for i in 0..300 {
        log.push_str(&format!("{{\"route\":\"proxy\",\"host\":\"h{}\"}}\n", i % 30));
    }
    let st = read_traffic_stats(&log, false);
    assert_eq!(st.total, 300);
    assert_eq!(st.recent.len(), 240);
    assert_eq!(st.recent[0], "{\"route\":\"proxy\",\"host\":\"h29\"}");
    assert_eq!(st.proxy_hosts.len(), 24);
    assert!(st.proxy_hosts.iter().all(|h| h.count == 10));
}

#[test]
fn partial_first_line_is_dropped() {
    assert_eq!(skip_partial_line("oute\":\"x\"}\n{\"a\":1}\n", true), "{\"a\":1}\n");
    assert_eq!(skip_partial_line("no newline", true), "no newline");
    assert_eq!(skip_partial_line("ab\ncd", false), "ab\ncd");
    let st = read_traffic_stats("\"proxy\",\"host\":\"x\"}\n{\"route\":\"direct\"}\n", true);
    assert_eq!((st.total, st.direct), (1, 1));
    assert_eq!(tail_offset(2 * 1048576), Some(1048576));
    assert_eq!(tail_offset(1048576), None);
}

#[test]
fn event_parsing() {
    let e = traffic_event("{\"route\":\"proxy\",\"host\":\"x.org\",\"n\":1}").unwrap();
    assert_eq!((e.route.as_str(), e.host.as_str()), ("proxy", "x.org"));
    let e = traffic_event("{\"route\":5}").unwrap();
    assert_eq!(e.route, "");
    assert!(traffic_event("{\"route\":").is_none());
}

#[test]
fn openweb_port_detection() {
    let pids = astrill_pids(Ok(" 12 \n\n34\n".to_string()));
    assert_eq!(pids, vec!["12".to_string(), "34".to_string()]);
    assert!(astrill_pids(Err("x".to_string())).is_empty());
    assert_eq!(proxy_port_from_command("/x/openweb --proxy-port 32768 --y"), Some(32768));
    assert_eq!(proxy_port_from_command("openweb --proxy-port abc --proxy-port 9"), Some(9));
    assert_eq!(proxy_port_from_command("openweb --proxy-port"), None);
    let mut answers: Vec<Result<String, String>> = Vec::new();
    match detect_astrill_port_sync(&pids, &answers) {
        DetectAction::QueryProcess(p) => assert_eq!(p, "12"),
        DetectAction::Finished(_) => panic!("must query"),
    }
    answers.push(Ok("openweb".to_string()));
    match detect_astrill_port_sync(&pids, &answers) {
        DetectAction::QueryProcess(p) => assert_eq!(p, "34"),
        DetectAction::Finished(_) => panic!("must query"),
    }
    answers.push(Ok("openweb --proxy-port 4000".to_string()));
    assert!(matches!(detect_astrill_port_sync(&pids, &answers), DetectAction::Finished(Ok(Some(4000)))));
    let failed = vec![Err("ps failed".to_string())];
    assert!(matches!(detect_astrill_port_sync(&pids, &failed), DetectAction::Finished(Err(_))));
    assert!(matches!(detect_astrill_port_sync(&Vec::new(), &Vec::new()), DetectAction::Finished(Ok(None))));
}

#[test]
fn xml_and_plist() {
    assert_eq!(xml_escape("a<b>&\"c'"), "a&lt;b&gt;&amp;&quot;c&apos;");
    let plist = login_item_plist("/Apps/A&B.app/Contents/MacOS/a");
    assert!(plist.starts_with("<?xml version=\"1.0\" encoding=\"UTF-8\"?>\n<!DOCTYPE plist"));
    assert!(plist.contains("<string>local.astrill-split-proxy</string>"));
    assert!(plist.contains("<string>/Apps/A&amp;B.app/Contents/MacOS/a</string>\n    <string>--background</string>"));
    assert!(plist.ends_with("</dict>\n</plist>\n"));
}

#[test]
fn command_outputs() {
    assert_eq!(user_id(Ok("501\n".to_string())), "501");
    assert_eq!(user_id(Err("no".to_string())), "");
    assert_eq!(chrono_like_now(Ok(" 12:00:01\n".to_string())), "12:00:01");
    assert_eq!(
        launchctl_bootout_args("501", "/p.plist"),
        Some(vec!["bootout".to_string(), "gui/501".to_string(), "/p.plist".to_string()])
    );
    assert_eq!(launchctl_bootout_args("", "/p.plist"), None);
    assert_eq!(country_result(Ok(" US\n".to_string())), "US");
    assert_eq!(country_result(Err("curl: timeout ".to_string())), "curl: timeout");
    assert_eq!(country_lookup_args(Some(18080))[4], "http://127.0.0.1:18080");
    assert_eq!(country_lookup_args(None).len(), 4);
}

#[test]
fn system_proxy_state() {
    let yes = "Enabled: Yes\nServer: 127.0.0.1".to_string();
    let no = "Enabled: No\n".to_string();
    assert_eq!(system_proxy_summary(&vec![yes.clone(), yes.clone(), yes.clone()]), "已开启");
    assert_eq!(system_proxy_summary(&vec![no.clone(), no.clone(), no.clone()]), "已关闭");
    assert_eq!(system_proxy_summary(&vec![yes.clone(), no.clone(), String::new()]), "部分开启");
    let on = apply_system_proxy("Wi-Fi", 18080, 18081, true);
    assert_eq!(on.len(), 6);
    assert_eq!(on[2], vec!["-setsocksfirewallproxy", "Wi-Fi", "127.0.0.1", "18081"]);
    let off = apply_system_proxy("Wi-Fi", 1, 2, false);
    assert_eq!(off[0], vec!["-setwebproxystate", "Wi-Fi", "off"]);
}

#[test]
fn shell_state_and_ports() {
    let block = astrill_split_proxy::shell::shell_block("zsh", 1, 2);
    assert_eq!(shell_configured(None), "未知");
    assert_eq!(shell_configured(Some(vec![Some(block.clone()), Some(block.clone())])), "已配置");
    assert_eq!(shell_configured(Some(vec![Some(block.clone()), None])), "部分配置");
    assert_eq!(shell_configured(Some(vec![None, Some("x".to_string())])), "未配置");
    assert_eq!(port_or(Some(70000), 1), 70000u64 as u16);
    assert_eq!(port_or(None, 18080), 18080);
    let ports = ProxyPorts { http_port: 1, socks_port: 2, upstream_port: 3, auto_system_proxy: true };
    assert!(matches!(start_proxy(true, &ports), StartPlan::AlreadyRunning));
    match start_proxy(false, &ports) {
        StartPlan::Launch(cmds) => assert_eq!(cmds.len(), 6),
        StartPlan::AlreadyRunning => panic!("not running"),
    }
}

#[test]
fn log_keeps_latest_lines() {
    let mut log = LogBuffer::new();
    for i in 0..501 {
        log.push_log(format!("line {}", i));
    }
    assert_eq!(log.len(), 401);
    assert_eq!(log.lines()[0], "line 100");
    assert_eq!(log.lines()[400], "line 500");
}

#[test]
fn config_ports_and_defaults() {
    let cfg = "{\"listen\":{\"http_port\":8080},\"upstream\":{\"port\":70000},\"auto_system_proxy\":true}";
    assert!(astrill_split_proxy::status::parse_config(cfg).is_ok());
    let ports = astrill_split_proxy::status::proxy_ports(cfg);
    assert_eq!(ports.http_port, 8080);
    assert_eq!(ports.socks_port, 18081);
    assert_eq!(ports.upstream_port, 70000u64 as u16);
    assert!(ports.auto_system_proxy);
    assert!(astrill_split_proxy::status::parse_config("{").is_err());
    let defaults = astrill_split_proxy::status::proxy_ports("{}");
    assert_eq!((defaults.http_port, defaults.socks_port, defaults.upstream_port), (18080, 18081, 32768));
    assert!(!defaults.auto_system_proxy);
    let odd = astrill_split_proxy::status::proxy_ports("{\"listen\":{\"http_port\":\"80\"},\"auto_system_proxy\":1}");
    assert_eq!((odd.http_port, odd.auto_system_proxy), (18080, false));
}

#[test]
fn config_parse_error_text() {
    let text = "{\"listen\": ";
    let expected = serde_json::from_str::<serde_json::Value>(text).unwrap_err().to_string();
    match astrill_split_proxy::status::parse_config(text) {
        Err(message) => {
            assert_eq!(message, expected);
            assert!(message.contains("line 1"));
        }
        Ok(_) => panic!("the text is not a JSON document"),
    }
}

#[test]
fn different_executables_give_different_plists() {
    let a = login_item_plist("/tmp/a</string><string>x&");
    assert!(a.contains("/tmp/a&lt;/string&gt;&lt;string&gt;x&amp;"));
    assert_eq!(a.matches("<string>").count(), 3);
    assert_eq!(a.matches("</plist>").count(), 1);
    assert_ne!(a, login_item_plist("/tmp/a&lt;"));
    assert_ne!(xml_escape("<"), xml_escape("&lt;"));
}

#[test]
fn shell_summary_after_switching() {
    let on = match astrill_split_proxy::shell::plan_shell_file("x", "zsh", 1, 2, true) {
        astrill_split_proxy::shell::ShellFileAction::Write(t) => t,
        astrill_split_proxy::shell::ShellFileAction::Remove => panic!("enable must write"),
    };
    assert_eq!(shell_configured(Some(vec![Some(on.clone()), Some(on)])), "已配置");
    let off = astrill_split_proxy::shell::remove_managed_block(
        "x\n# >>> AstrillSplitProxy\ny\n# <<< AstrillSplitProxy\n",
    );
    assert_eq!(shell_configured(Some(vec![Some(off), None])), "未配置");
}

#[test]
fn saved_settings_document() {
    let doc = astrill_split_proxy::status::config_document(
        1080,
        1081,
        32768,
        "direct".to_string(),
        true,
        vec!["google.com".to_string()],
        vec![".cn".to_string()],
    );
    assert_eq!(doc.listen.http_host, "127.0.0.1");
    assert_eq!((doc.listen.http_port, doc.listen.socks_port), (1080, 1081));
    assert_eq!(doc.listen.socks_host, "127.0.0.1");
    assert_eq!((doc.upstream.host.as_str(), doc.upstream.port), ("127.0.0.1", 32768));
    assert_eq!(doc.default_route, "direct");
    assert!(doc.auto_system_proxy);
    assert_eq!(doc.rules.proxy, vec!["google.com".to_string()]);
    assert_eq!(doc.rules.direct, vec![".cn".to_string()]);
    assert_eq!(doc.log_level, "info");
}
