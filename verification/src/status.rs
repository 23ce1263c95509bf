//! The proxy's ports and switches, and the state of the system and shell
//! proxy settings as the status view reports them.

use vstd::prelude::*;

use crate::json::{
    json_accepts, json_bool_at, json_bool_member, json_from_str, json_parse_error, json_u64_at,
    json_u64_member,
};
use crate::shell::{
    block_text, has_block, has_managed_block, law_enabled_file_has_block, law_single_block_removed,
    planned_file, remove_block, single_block, start_marker,
};
use crate::text::{
    chars_of, contains, contains_chars, decimal, push_decimal, string_of, string_views, trim, trim_chars,
};

verus! {

/// Default local HTTP proxy port.
pub const DEFAULT_HTTP_PORT: u16 = 18080;

/// Default local SOCKS5 proxy port.
pub const DEFAULT_SOCKS_PORT: u16 = 18081;

/// Default Astrill upstream port.
pub const DEFAULT_UPSTREAM_PORT: u16 = 32768;

/// A configured port: the number cut to its low 16 bits, as `as u16` does,
/// or the fallback when the setting is absent.
pub open spec fn port_value(field: Option<u64>, fallback: u16) -> u16 {
    match field {
        Some(v) => v as u16,
        None => fallback,
    }
}

/// A configured port, or the fallback.
pub fn port_or(field: Option<u64>, fallback: u16) -> (r: u16)
    ensures
        r == port_value(field, fallback),
{
    match field {
        Some(v) => v as u16,
        None => fallback,
    }
}

/// The port at `settings[group][key]` of the settings text, or the
/// fallback.
pub fn port_from_config(settings: &str, group: &str, key: &str, fallback: u16) -> (r: u16)
    ensures
        r == port_value(json_u64_at(settings@, group@, key@), fallback),
{
    port_or(json_u64_member(settings, group, key), fallback)
}

/// A configured switch, or the fallback.
pub open spec fn bool_value(field: Option<bool>, fallback: bool) -> bool {
    match field {
        Some(b) => b,
        None => fallback,
    }
}

/// A configured switch, or the fallback.
pub fn bool_or(field: Option<bool>, fallback: bool) -> (r: bool)
    ensures
        r == bool_value(field, fallback),
{
    match field {
        Some(b) => b,
        None => fallback,
    }
}

/// The switch at `settings[key]` of the settings text, or the fallback.
pub fn bool_from_config(settings: &str, key: &str, fallback: bool) -> (r: bool)
    ensures
        r == bool_value(json_bool_at(settings@, key@), fallback),
{
    bool_or(json_bool_member(settings, key), fallback)
}

/// The ports and switch the proxy commands read from the settings.
pub struct ProxyPorts {
    pub http_port: u16,
    pub socks_port: u16,
    pub upstream_port: u16,
    pub auto_system_proxy: bool,
}

/// The settings' ports, each falling back to its default, and whether the
/// system proxy is switched on automatically (off by default).
pub fn proxy_ports(settings: &str) -> (r: ProxyPorts)
    ensures
        r.http_port == port_value(json_u64_at(settings@, "listen"@, "http_port"@), DEFAULT_HTTP_PORT),
        r.socks_port == port_value(
            json_u64_at(settings@, "listen"@, "socks_port"@),
            DEFAULT_SOCKS_PORT,
        ),
        r.upstream_port == port_value(
            json_u64_at(settings@, "upstream"@, "port"@),
            DEFAULT_UPSTREAM_PORT,
        ),
        r.auto_system_proxy == bool_value(json_bool_at(settings@, "auto_system_proxy"@), false),
{
    ProxyPorts {
        http_port: port_from_config(settings, "listen", "http_port", DEFAULT_HTTP_PORT),
        socks_port: port_from_config(settings, "listen", "socks_port", DEFAULT_SOCKS_PORT),
        upstream_port: port_from_config(settings, "upstream", "port", DEFAULT_UPSTREAM_PORT),
        auto_system_proxy: bool_from_config(settings, "auto_system_proxy", false),
    }
}

/// The decimal text of a port.
pub fn port_text(port: u16) -> (r: String)
    ensures
        r@ == decimal(port as nat),
{
    let mut s = String::new();
    push_decimal(&mut s, port as u32);
    s
}

/// `http://127.0.0.1:<port>`.
pub open spec fn http_proxy_url(port: u16) -> Seq<char> {
    "http://127.0.0.1:"@ + decimal(port as nat)
}

/// `socks5h://127.0.0.1:<port>`.
pub open spec fn socks_proxy_url(port: u16) -> Seq<char> {
    "socks5h://127.0.0.1:"@ + decimal(port as nat)
}

/// The URL of the local HTTP proxy.
pub fn http_proxy_address(port: u16) -> (r: String)
    ensures
        r@ == http_proxy_url(port),
{
    let mut s = String::from_str("http://127.0.0.1:");
    push_decimal(&mut s, port as u32);
    s
}

/// The URL of the local SOCKS5 proxy, resolving names through the proxy.
pub fn socks_proxy_address(port: u16) -> (r: String)
    ensures
        r@ == socks_proxy_url(port),
{
    let mut s = String::from_str("socks5h://127.0.0.1:");
    push_decimal(&mut s, port as u32);
    s
}

pub open spec fn command_views(v: Seq<Vec<String>>) -> Seq<Seq<Seq<char>>> {
    v.map_values(|c: Vec<String>| string_views(c@))
}

fn strings2(a: &str, b: &str) -> (r: Vec<String>)
    ensures
        string_views(r@) == seq![a@, b@],
{
    let mut v: Vec<String> = Vec::new();
    v.push(String::from_str(a));
    v.push(String::from_str(b));
    assert(string_views(v@) =~= seq![a@, b@]);
    v
}

fn strings3(a: &str, b: &str, c: &str) -> (r: Vec<String>)
    ensures
        string_views(r@) == seq![a@, b@, c@],
{
    let mut v: Vec<String> = Vec::new();
    v.push(String::from_str(a));
    v.push(String::from_str(b));
    v.push(String::from_str(c));
    assert(string_views(v@) =~= seq![a@, b@, c@]);
    v
}

fn strings4(a: &str, b: &str, c: &str, d: &str) -> (r: Vec<String>)
    ensures
        string_views(r@) == seq![a@, b@, c@, d@],
{
    let mut v: Vec<String> = Vec::new();
    v.push(String::from_str(a));
    v.push(String::from_str(b));
    v.push(String::from_str(c));
    v.push(String::from_str(d));
    assert(string_views(v@) =~= seq![a@, b@, c@, d@]);
    v
}

/// The `networksetup` argument lists that point a network service's web,
/// secure web and SOCKS proxies at the local proxy and switch them on, or
/// that switch them off.
pub open spec fn system_proxy_args(service: Seq<char>, http_port: u16, socks_port: u16, enabled: bool) -> Seq<
    Seq<Seq<char>>,
> {
    let h = decimal(http_port as nat);
    let s = decimal(socks_port as nat);
    if enabled {
        seq![
            seq!["-setwebproxy"@, service, "127.0.0.1"@, h],
            seq!["-setsecurewebproxy"@, service, "127.0.0.1"@, h],
            seq!["-setsocksfirewallproxy"@, service, "127.0.0.1"@, s],
            seq!["-setwebproxystate"@, service, "on"@],
            seq!["-setsecurewebproxystate"@, service, "on"@],
            seq!["-setsocksfirewallproxystate"@, service, "on"@],
        ]
    } else {
        seq![
            seq!["-setwebproxystate"@, service, "off"@],
            seq!["-setsecurewebproxystate"@, service, "off"@],
            seq!["-setsocksfirewallproxystate"@, service, "off"@],
        ]
    }
}

/// The `networksetup` invocations that switch the system proxy on or off.
pub fn apply_system_proxy(service: &str, http_port: u16, socks_port: u16, enabled: bool) -> (r: Vec<
    Vec<String>,
>)
    ensures
        command_views(r@) == system_proxy_args(service@, http_port, socks_port, enabled),
{
    let mut cmds: Vec<Vec<String>> = Vec::new();
    if enabled {
        let h = port_text(http_port);
        let s = port_text(socks_port);
        cmds.push(strings4("-setwebproxy", service, "127.0.0.1", h.as_str()));
        cmds.push(strings4("-setsecurewebproxy", service, "127.0.0.1", h.as_str()));
        cmds.push(strings4("-setsocksfirewallproxy", service, "127.0.0.1", s.as_str()));
        cmds.push(strings3("-setwebproxystate", service, "on"));
        cmds.push(strings3("-setsecurewebproxystate", service, "on"));
        cmds.push(strings3("-setsocksfirewallproxystate", service, "on"));
    } else {
        cmds.push(strings3("-setwebproxystate", service, "off"));
        cmds.push(strings3("-setsecurewebproxystate", service, "off"));
        cmds.push(strings3("-setsocksfirewallproxystate", service, "off"));
    }
    assert(command_views(cmds@) =~= system_proxy_args(service@, http_port, socks_port, enabled));
    cmds
}

/// The `networksetup` queries for a service's web, secure web and SOCKS
/// proxy settings.
pub open spec fn system_proxy_query_args(service: Seq<char>) -> Seq<Seq<Seq<char>>> {
    seq![
        seq!["-getwebproxy"@, service],
        seq!["-getsecurewebproxy"@, service],
        seq!["-getsocksfirewallproxy"@, service],
    ]
}

/// The three `networksetup` queries whose answers the summary reads.
pub fn system_proxy_queries(service: &str) -> (r: Vec<Vec<String>>)
    ensures
        command_views(r@) == system_proxy_query_args(service@),
{
    let mut cmds: Vec<Vec<String>> = Vec::new();
    cmds.push(strings2("-getwebproxy", service));
    cmds.push(strings2("-getsecurewebproxy", service));
    cmds.push(strings2("-getsocksfirewallproxy", service));
    assert(command_views(cmds@) =~= system_proxy_query_args(service@));
    cmds
}

/// How many of the texts contain the pattern.
pub open spec fn count_containing(ts: Seq<Seq<char>>, pat: Seq<char>) -> nat
    decreases ts.len(),
{
    if ts.len() == 0 {
        0
    } else {
        count_containing(ts.drop_last(), pat) + if contains(ts.last(), pat) {
            1nat
        } else {
            0nat
        }
    }
}

/// The summary of the three proxy settings: all on, all off, or mixed.
pub open spec fn proxy_summary(outputs: Seq<Seq<char>>) -> Seq<char> {
    if count_containing(outputs, "Enabled: Yes"@) == 3 {
        "已开启"@
    } else if count_containing(outputs, "Enabled: No"@) == 3 {
        "已关闭"@
    } else {
        "部分开启"@
    }
}

fn count_with(outputs: &Vec<String>, pat: &str) -> (r: usize)
    ensures
        r == count_containing(string_views(outputs@), pat@),
{
    let p = chars_of(pat);
    let mut n: usize = 0;
    let mut i: usize = 0;
    while i < outputs.len()
        invariant
            i <= outputs@.len(),
            p@ == pat@,
            n == count_containing(string_views(outputs@).take(i as int), pat@),
            n <= i,
        decreases outputs@.len() - i,
    {
        proof {
            assert(string_views(outputs@).take(i + 1).drop_last() =~= string_views(outputs@).take(
                i as int,
            ));
            assert(string_views(outputs@).take(i + 1).last() == outputs@[i as int]@);
        }
        let t = chars_of(outputs[i].as_str());
        if contains_chars(&t, &p) {
            n = n + 1;
        }
        i = i + 1;
    }
    assert(string_views(outputs@).take(i as int) =~= string_views(outputs@));
    n
}

/// Summarizes the answers of the three `networksetup` queries (empty text
/// for a query that failed).
pub fn system_proxy_summary(outputs: &Vec<String>) -> (r: String)
    ensures
        r@ == proxy_summary(string_views(outputs@)),
{
    let enabled = count_with(outputs, "Enabled: Yes");
    let disabled = count_with(outputs, "Enabled: No");
    if enabled == 3 {
        String::from_str("已开启")
    } else if disabled == 3 {
        String::from_str("已关闭")
    } else {
        String::from_str("部分开启")
    }
}

/// The texts of the shell start-up files (`None` for one that could not be
/// read) that hold the managed block.
pub open spec fn count_configured(ts: Seq<Option<String>>) -> nat
    decreases ts.len(),
{
    if ts.len() == 0 {
        0
    } else {
        count_configured(ts.drop_last()) + match ts.last() {
            Some(t) => if has_block(t@) {
                1nat
            } else {
                0nat
            },
            None => 0nat,
        }
    }
}

/// The summary of the shell proxy: unknown without a home directory, then
/// configured in all, none or some of the start-up files.
pub open spec fn shell_summary(files: Option<Seq<Option<String>>>) -> Seq<char> {
    match files {
        None => "未知"@,
        Some(ts) => if count_configured(ts) == ts.len() {
            "已配置"@
        } else if count_configured(ts) == 0 {
            "未配置"@
        } else {
            "部分配置"@
        },
    }
}

/// Summarizes the shell proxy from the texts of the start-up files.
pub fn shell_configured(files: Option<Vec<Option<String>>>) -> (r: String)
    ensures
        r@ == shell_summary(match files {
            Some(v) => Some(v@),
            None => None,
        }),
{
    match files {
        None => String::from_str("未知"),
        Some(ts) => {
            let mut n: usize = 0;
            let mut i: usize = 0;
            while i < ts.len()
                invariant
                    i <= ts@.len(),
                    n == count_configured(ts@.take(i as int)),
                    n <= i,
                decreases ts@.len() - i,
            {
                proof {
                    assert(ts@.take(i + 1).drop_last() =~= ts@.take(i as int));
                    assert(ts@.take(i + 1).last() == ts@[i as int]);
                }
                match &ts[i] {
                    Some(t) => {
                        if has_managed_block(t.as_str()) {
                            n = n + 1;
                        }
                    },
                    None => {},
                }
                i = i + 1;
            }
            assert(ts@.take(i as int) =~= ts@);
            if n == ts.len() {
                String::from_str("已配置")
            } else if n == 0 {
                String::from_str("未配置")
            } else {
                String::from_str("部分配置")
            }
        },
    }
}

/// The country lookup URL.
pub open spec fn country_url() -> Seq<char> {
    "https://ipinfo.io/country"@
}

/// The `curl` arguments of the country lookup, directly or through the
/// local HTTP proxy, with a 12-second limit.
pub open spec fn country_args(proxy_port: Option<u16>) -> Seq<Seq<char>> {
    match proxy_port {
        None => seq!["-m"@, "12"@, "-sS"@, country_url()],
        Some(p) => seq!["-m"@, "12"@, "-sS"@, "-x"@, http_proxy_url(p), country_url()],
    }
}

/// The `curl` invocation of the country lookup.
pub fn country_lookup_args(proxy_port: Option<u16>) -> (r: Vec<String>)
    ensures
        string_views(r@) == country_args(proxy_port),
{
    let mut v: Vec<String> = Vec::new();
    v.push(String::from_str("-m"));
    v.push(String::from_str("12"));
    v.push(String::from_str("-sS"));
    match proxy_port {
        Some(p) => {
            v.push(String::from_str("-x"));
            v.push(http_proxy_address(p));
        },
        None => {},
    }
    v.push(String::from_str("https://ipinfo.io/country"));
    assert(string_views(v@) =~= country_args(proxy_port));
    v
}

/// The text a country lookup reports: its output, or its error, trimmed.
pub open spec fn country_text(result: Result<String, String>) -> Seq<char> {
    match result {
        Ok(s) => trim(s@),
        Err(e) => trim(e@),
    }
}

/// What the country lookup shows: the output or the error, trimmed.
pub fn country_result(result: Result<String, String>) -> (r: String)
    ensures
        r@ == country_text(result),
{
    let s = match result {
        Ok(s) => s,
        Err(e) => e,
    };
    let chars = chars_of(s.as_str());
    string_of(&trim_chars(&chars))
}


/// What starting the proxy does.
pub enum StartPlan {
    /// The worker is running already: nothing to do.
    AlreadyRunning,
    /// Launch the worker, then run these `networksetup` invocations (none
    /// unless the system proxy is switched on automatically).
    Launch(Vec<Vec<String>>),
}

/// Decides what starting the proxy does, given whether the worker is still
/// running and the settings' ports and switch.
pub fn start_proxy(already_running: bool, ports: &ProxyPorts) -> (r: StartPlan)
    ensures
        match r {
            StartPlan::AlreadyRunning => already_running,
            StartPlan::Launch(cmds) => !already_running && command_views(cmds@) == if ports.auto_system_proxy {
                system_proxy_args("Wi-Fi"@, ports.http_port, ports.socks_port, true)
            } else {
                Seq::<Seq<Seq<char>>>::empty()
            },
        },
{
    if already_running {
        return StartPlan::AlreadyRunning;
    }
    if ports.auto_system_proxy {
        StartPlan::Launch(apply_system_proxy("Wi-Fi", ports.http_port, ports.socks_port, true))
    } else {
        let v: Vec<Vec<String>> = Vec::new();
        assert(command_views(v@) =~= Seq::<Seq<Seq<char>>>::empty());
        StartPlan::Launch(v)
    }
}


/// Parses the settings file's text; the error is `serde_json`'s message.
pub fn parse_config(text: &str) -> (r: Result<serde_json::Value, String>)
    ensures
        r is Ok == json_accepts(text@),
        r matches Err(m) ==> json_parse_error(text@) == Some(m@),
{
    json_from_str(text)
}

/// What a click on a tray menu item does.
pub enum TrayAction {
    ShowWindow,
    StartProxy,
    StopProxy,
    Quit,
    Nothing,
}

/// The action of the tray menu item with this id.
pub open spec fn tray_action_of(id: Seq<char>) -> TrayAction {
    if id == "show"@ {
        TrayAction::ShowWindow
    } else if id == "start"@ {
        TrayAction::StartProxy
    } else if id == "stop"@ {
        TrayAction::StopProxy
    } else if id == "quit"@ {
        TrayAction::Quit
    } else {
        TrayAction::Nothing
    }
}

/// The action of a tray menu item.
pub fn tray_action(id: &str) -> (r: TrayAction)
    ensures
        r == tray_action_of(id@),
{
    if crate::text::str_eq(id, "show") {
        TrayAction::ShowWindow
    } else if crate::text::str_eq(id, "start") {
        TrayAction::StartProxy
    } else if crate::text::str_eq(id, "stop") {
        TrayAction::StopProxy
    } else if crate::text::str_eq(id, "quit") {
        TrayAction::Quit
    } else {
        TrayAction::Nothing
    }
}


/// Start-up files that all hold the managed block read as configured.
pub proof fn law_summary_after_enable(ts: Seq<Option<String>>)
    requires
        forall|i: int|
            0 <= i < ts.len() ==> match #[trigger] ts[i] {
                Some(t) => has_block(t@),
                None => false,
            },
    ensures
        shell_summary(Some(ts)) == "已配置"@,
{
    lemma_all_configured(ts);
}

proof fn lemma_all_configured(ts: Seq<Option<String>>)
    requires
        forall|i: int|
            0 <= i < ts.len() ==> match #[trigger] ts[i] {
                Some(t) => has_block(t@),
                None => false,
            },
    ensures
        count_configured(ts) == ts.len(),
    decreases ts.len(),
{
    if ts.len() > 0 {
        let u = ts.drop_last();
        assert forall|i: int| 0 <= i < u.len() implies match #[trigger] u[i] {
            Some(t) => has_block(t@),
            None => false,
        } by {
            assert(u[i] == ts[i]);
        }
        lemma_all_configured(u);
        assert(ts.last() == ts[ts.len() - 1]);
    }
}

proof fn lemma_none_configured(ts: Seq<Option<String>>)
    requires
        forall|i: int|
            0 <= i < ts.len() ==> match #[trigger] ts[i] {
                Some(t) => !contains(t@, start_marker()),
                None => true,
            },
    ensures
        count_configured(ts) == 0,
    decreases ts.len(),
{
    if ts.len() > 0 {
        let u = ts.drop_last();
        assert forall|i: int| 0 <= i < u.len() implies match #[trigger] u[i] {
            Some(t) => !contains(t@, start_marker()),
            None => true,
        } by {
            assert(u[i] == ts[i]);
        }
        lemma_none_configured(u);
        assert(ts.last() == ts[ts.len() - 1]);
    }
}

/// Start-up files that are missing or hold no start marker read as not
/// configured (when there is at least one such file).
pub proof fn law_summary_after_disable(ts: Seq<Option<String>>)
    requires
        ts.len() > 0,
        forall|i: int|
            0 <= i < ts.len() ==> match #[trigger] ts[i] {
                Some(t) => !contains(t@, start_marker()),
                None => true,
            },
    ensures
        shell_summary(Some(ts)) == "未配置"@,
{
    lemma_none_configured(ts);
    reveal_strlit("已配置");
    reveal_strlit("未配置");
}


/// Where the local proxies listen.
pub struct ListenSettings {
    pub http_host: String,
    pub http_port: u16,
    pub socks_host: String,
    pub socks_port: u16,
}

/// The Astrill tunnel the proxy forwards to.
pub struct UpstreamSettings {
    pub host: String,
    pub port: u16,
}

/// Domain rules: hosts sent through the proxy, and hosts sent directly.
pub struct RuleSettings {
    pub proxy: Vec<String>,
    pub direct: Vec<String>,
}

/// The settings file's document.
pub struct ConfigDocument {
    pub listen: ListenSettings,
    pub upstream: UpstreamSettings,
    pub default_route: String,
    pub auto_system_proxy: bool,
    pub rules: RuleSettings,
    pub log_level: String,
}

/// The settings document saved from the interface's choices: both proxies
/// and the upstream on `127.0.0.1`, logging at `info`.
pub fn config_document(
    http_port: u16,
    socks_port: u16,
    upstream_port: u16,
    default_route: String,
    auto_system_proxy: bool,
    proxy_rules: Vec<String>,
    direct_rules: Vec<String>,
) -> (r: ConfigDocument)
    ensures
        r.listen.http_host@ == "127.0.0.1"@,
        r.listen.http_port == http_port,
        r.listen.socks_host@ == "127.0.0.1"@,
        r.listen.socks_port == socks_port,
        r.upstream.host@ == "127.0.0.1"@,
        r.upstream.port == upstream_port,
        r.default_route@ == default_route@,
        r.auto_system_proxy == auto_system_proxy,
        r.rules.proxy@ == proxy_rules@,
        r.rules.direct@ == direct_rules@,
        r.log_level@ == "info"@,
{
    ConfigDocument {
        listen: ListenSettings {
            http_host: String::from_str("127.0.0.1"),
            http_port,
            socks_host: String::from_str("127.0.0.1"),
            socks_port,
        },
        upstream: UpstreamSettings { host: String::from_str("127.0.0.1"), port: upstream_port },
        default_route,
        auto_system_proxy,
        rules: RuleSettings { proxy: proxy_rules, direct: direct_rules },
        log_level: String::from_str("info"),
    }
}


/// A start-up file's text, or `None` when it is absent.
pub open spec fn file_text(f: Option<String>) -> Option<Seq<char>> {
    match f {
        Some(t) => Some(t@),
        None => None,
    }
}

/// After the shell proxy is switched on, the start-up files read as
/// configured; after it is switched off, as not configured, when each file
/// held at most one start marker before, followed by an end marker.
pub proof fn law_summary_after_switch(
    olds: Seq<Seq<char>>,
    shells: Seq<Seq<char>>,
    http_port: u16,
    socks_port: u16,
    enabled: bool,
    after: Seq<Option<String>>,
)
    requires
        olds.len() == shells.len(),
        after.len() == olds.len(),
        after.len() > 0,
        forall|i: int|
            0 <= i < after.len() ==> file_text(#[trigger] after[i]) == planned_file(
                olds[i],
                block_text(shells[i], http_port, socks_port),
                enabled,
            ),
        !enabled ==> forall|i: int| 0 <= i < olds.len() ==> single_block(#[trigger] olds[i]),
    ensures
        shell_summary(Some(after)) == if enabled {
            "已配置"@
        } else {
            "未配置"@
        },
{
    if enabled {
        assert forall|i: int| 0 <= i < after.len() implies match #[trigger] after[i] {
            Some(t) => has_block(t@),
            None => false,
        } by {
            law_enabled_file_has_block(olds[i], shells[i], http_port, socks_port);
            assert(file_text(after[i]) is Some);
        }
        law_summary_after_enable(after);
    } else {
        assert forall|i: int| 0 <= i < after.len() implies match #[trigger] after[i] {
            Some(t) => !contains(t@, start_marker()),
            None => true,
        } by {
            law_single_block_removed(olds[i]);
        }
        law_summary_after_disable(after);
    }
}

/// Switching the system proxy on points the web and the secure web proxy at
/// the local HTTP port and only the SOCKS proxy at the SOCKS port, each on
/// 127.0.0.1 for the given service, then turns the three on; switching it
/// off turns the same three off.
pub proof fn law_system_proxy_targets(service: Seq<char>, http_port: u16, socks_port: u16)
    ensures
        ({
            let on = system_proxy_args(service, http_port, socks_port, true);
            let off = system_proxy_args(service, http_port, socks_port, false);
            let h = decimal(http_port as nat);
            let s = decimal(socks_port as nat);
            &&& on.len() == 6
            &&& off.len() == 3
            &&& on[0][0] == "-setwebproxy"@
            &&& on[1][0] == "-setsecurewebproxy"@
            &&& on[2][0] == "-setsocksfirewallproxy"@
            &&& forall|i: int|
                0 <= i < 3 ==> (#[trigger] on[i]).len() == 4 && on[i][1] == service && on[i][2]
                    == "127.0.0.1"@
            &&& on[0][3] == h
            &&& on[1][3] == h
            &&& on[2][3] == s
            &&& forall|i: int|
                0 <= i < 3 ==> (#[trigger] on[i + 3]) == seq![on[i][0] + "state"@, service, "on"@]
            &&& forall|i: int|
                0 <= i < 3 ==> (#[trigger] off[i]) == seq![on[i][0] + "state"@, service, "off"@]
        }),
{
    reveal_strlit("-setwebproxy");
    reveal_strlit("-setsecurewebproxy");
    reveal_strlit("-setsocksfirewallproxy");
    reveal_strlit("-setwebproxystate");
    reveal_strlit("-setsecurewebproxystate");
    reveal_strlit("-setsocksfirewallproxystate");
    reveal_strlit("state");
    assert("-setwebproxy"@ + "state"@ =~= "-setwebproxystate"@);
    assert("-setsecurewebproxy"@ + "state"@ =~= "-setsecurewebproxystate"@);
    assert("-setsocksfirewallproxy"@ + "state"@ =~= "-setsocksfirewallproxystate"@);
    let on = system_proxy_args(service, http_port, socks_port, true);
    let off = system_proxy_args(service, http_port, socks_port, false);
    assert forall|i: int| 0 <= i < 3 implies (#[trigger] on[i + 3]) == seq![
        on[i][0] + "state"@,
        service,
        "on"@,
    ] by {
        if i == 0 {
            assert(on[3] =~= seq![on[0][0] + "state"@, service, "on"@]);
        } else if i == 1 {
            assert(on[4] =~= seq![on[1][0] + "state"@, service, "on"@]);
        } else {
            assert(on[5] =~= seq![on[2][0] + "state"@, service, "on"@]);
        }
    }
    assert forall|i: int| 0 <= i < 3 implies (#[trigger] off[i]) == seq![
        on[i][0] + "state"@,
        service,
        "off"@,
    ] by {
        if i == 0 {
            assert(off[0] =~= seq![on[0][0] + "state"@, service, "off"@]);
        } else if i == 1 {
            assert(off[1] =~= seq![on[1][0] + "state"@, service, "off"@]);
        } else {
            assert(off[2] =~= seq![on[2][0] + "state"@, service, "off"@]);
        }
    }
}

/// Of three texts, how many contain the pattern is three exactly when each
/// of them does.
proof fn lemma_count_three(ts: Seq<Seq<char>>, pat: Seq<char>)
    requires
        ts.len() == 3,
    ensures
        count_containing(ts, pat) == 3 <==> (forall|i: int| 0 <= i < 3 ==> contains(#[trigger] ts[i], pat)),
{
    reveal_with_fuel(count_containing, 4);
    let t2 = ts.drop_last();
    let t1 = t2.drop_last();
    let t0 = t1.drop_last();
    assert(t0.len() == 0);
    assert(t2.last() == ts[1]);
    assert(t1.last() == ts[0]);
    if count_containing(ts, pat) == 3 {
        assert forall|i: int| 0 <= i < 3 implies contains(#[trigger] ts[i], pat) by {}
    }
}

/// The system proxy reads as on only when all three queries answer
/// "Enabled: Yes", as off when all three answer "Enabled: No" (and not all
/// "Enabled: Yes"), and as partly on otherwise.
pub proof fn law_summary_on_means_all_on(outputs: Seq<Seq<char>>)
    requires
        outputs.len() == 3,
    ensures
        (proxy_summary(outputs) == "已开启"@) <==> (forall|i: int|
            0 <= i < 3 ==> contains(#[trigger] outputs[i], "Enabled: Yes"@)),
        (proxy_summary(outputs) == "已关闭"@) <==> (!(forall|i: int|
            0 <= i < 3 ==> contains(#[trigger] outputs[i], "Enabled: Yes"@)) && forall|i: int|
            0 <= i < 3 ==> contains(#[trigger] outputs[i], "Enabled: No"@)),
        (proxy_summary(outputs) == "部分开启"@) <==> (!(forall|i: int|
            0 <= i < 3 ==> contains(#[trigger] outputs[i], "Enabled: Yes"@)) && !(forall|i: int|
            0 <= i < 3 ==> contains(#[trigger] outputs[i], "Enabled: No"@))),
{
    lemma_count_three(outputs, "Enabled: Yes"@);
    lemma_count_three(outputs, "Enabled: No"@);
    reveal_strlit("已开启");
    reveal_strlit("已关闭");
    reveal_strlit("部分开启");
    assert("已开启"@[1] != "已关闭"@[1]);
    assert("已开启"@.len() != "部分开启"@.len());
    assert("已关闭"@.len() != "部分开启"@.len());
}

} // verus!
