use rust_bot::config::{
    default_connect_timeout_s, default_discovery_lookahead, default_discovery_refresh_secs,
    default_event_logger_enabled, default_gamma_url, default_max_slippage,
    default_max_trades_per_session, read_rule, B3Fallback, CellFault, CellLayer, CellRule, Config,
    ConfigError,
    ConnectionsConfig, DashboardConfig, ExitRule, ExitsConfig, FiltersConfig, GatesConfig,
    LoggingConfig, MarketsConfig, ModeConfig, Num, PathsConfig, RuleError, RulesConfig,
    StakesConfig, V2Config,
};
use rust_bot::decimal::Dec;
use rust_bot::numeral::read_value;

fn minimal_toml(disabled_cells_line: &str) -> String {
    minimal_toml_with_exits(disabled_cells_line, "")
}

fn minimal_toml_with_exits(disabled_cells_line: &str, exits_block: &str) -> String {
    format!(
        r#"
[mode]
default = "paper"
live_confirmation_required = true

[markets]
intervals = ["5m", "15m"]
assets = ["BTC", "ETH"]
polymarket_token_ids = []
discovery_lookahead = 2
discovery_refresh_secs = 60
{disabled_cells_line}

[stakes]
base_usdc = 1.05
max_position_usdc = 5.0
max_open_positions = 3
paper_initial_usdc = 100.0

[filters]
h2_enabled = true
h2_lower = 0.10
h2_upper = 0.90

[gates]
book_freshness_ms = 500
balance_min_usdc = 2.0
phase_c_threshold_c = 0.10

[rules]
regla_c_enabled = false
dca_enabled = false

[connections]
binance_ws_url = "ws://x"
polymarket_ws_url = "ws://x"
polymarket_rest_url = "https://x"
reconnect_max_attempts_per_60s = 5

[logging]
level = "info"
trace_path = "logs"
rotation = "daily"

[paths]
state_file = "s"
timestamps_file = "t"
bot_log_file = "b"
alert_dir = "a"

{exits_block}
"#
    )
}

fn num(f: f64) -> Num {
    let chars: Vec<char> = format!("{f}").chars().collect();
    read_value(&chars).unwrap()
}

fn text(t: &toml::Table, section: &str, key: &str) -> String {
    t[section][key].as_str().unwrap().to_string()
}

fn float(t: &toml::Table, section: &str, key: &str) -> Num {
    num(t[section][key].as_float().unwrap())
}

fn whole(t: &toml::Table, section: &str, key: &str) -> i64 {
    t[section][key].as_integer().unwrap()
}

fn flag(t: &toml::Table, section: &str, key: &str) -> bool {
    t[section][key].as_bool().unwrap()
}

fn texts(v: Option<&toml::Value>) -> Vec<String> {
    match v {
        Some(v) => v.as_array().unwrap().iter().map(|s| s.as_str().unwrap().to_string()).collect(),
        None => Vec::new(),
    }
}

fn v2() -> V2Config {
    let curve = || vec![num(0.5), num(1.0)];
    V2Config::with_curves(curve(), curve(), curve(), curve())
}

/// Reads a configuration; the rules of its cells may be refused.
fn parse(raw: &str) -> Result<Config, RuleError> {
    let t: toml::Table = toml::from_str(raw).expect("toml");
    let mut exits = ExitsConfig::new();
    if let Some(cells) = t.get("exits").and_then(|e| e.get("cells")) {
        for (cell, r) in cells.as_table().unwrap() {
            let rule = read_rule(
                r["kind"].as_str().unwrap(),
                r.get("x_pct").map(|x| num(x.as_float().unwrap())),
                r.get("y_sec").map(|y| y.as_integer().unwrap()),
                r.get("delta").map(|x| num(x.as_float().unwrap())),
                r.get("fallback").map(|f| f.as_str().unwrap()),
            )?;
            exits.cells.push(CellRule { cell: cell.clone(), rule });
        }
    }
    Ok(Config {
        mode: ModeConfig {
            default: text(&t, "mode", "default"),
            live_confirmation_required: flag(&t, "mode", "live_confirmation_required"),
        },
        markets: MarketsConfig {
            intervals: texts(t["markets"].get("intervals")),
            assets: texts(t["markets"].get("assets")),
            polymarket_token_ids: texts(t["markets"].get("polymarket_token_ids")),
            discovery_lookahead: whole(&t, "markets", "discovery_lookahead"),
            discovery_refresh_secs: whole(&t, "markets", "discovery_refresh_secs") as u64,
            disabled_cells: texts(t["markets"].get("disabled_cells")),
        },
        stakes: StakesConfig {
            base_usdc: float(&t, "stakes", "base_usdc"),
            max_position_usdc: float(&t, "stakes", "max_position_usdc"),
            max_open_positions: whole(&t, "stakes", "max_open_positions") as u32,
            paper_initial_usdc: float(&t, "stakes", "paper_initial_usdc"),
            max_trades_per_session: default_max_trades_per_session(),
        },
        filters: FiltersConfig {
            h2_enabled: flag(&t, "filters", "h2_enabled"),
            h2_lower: float(&t, "filters", "h2_lower"),
            h2_upper: float(&t, "filters", "h2_upper"),
        },
        gates: GatesConfig {
            book_freshness_ms: whole(&t, "gates", "book_freshness_ms") as u64,
            balance_min_usdc: float(&t, "gates", "balance_min_usdc"),
            phase_c_threshold_c: float(&t, "gates", "phase_c_threshold_c"),
        },
        rules: RulesConfig {
            regla_c_enabled: flag(&t, "rules", "regla_c_enabled"),
            dca_enabled: flag(&t, "rules", "dca_enabled"),
            max_slippage: default_max_slippage(),
        },
        connections: ConnectionsConfig {
            binance_ws_url: text(&t, "connections", "binance_ws_url"),
            polymarket_ws_url: text(&t, "connections", "polymarket_ws_url"),
            polymarket_rest_url: text(&t, "connections", "polymarket_rest_url"),
            reconnect_max_attempts_per_60s: whole(&t, "connections", "reconnect_max_attempts_per_60s")
                as u32,
            connect_timeout_s: default_connect_timeout_s(),
            polymarket_gamma_url: default_gamma_url(),
        },
        logging: LoggingConfig {
            level: text(&t, "logging", "level"),
            trace_path: text(&t, "logging", "trace_path"),
            rotation: text(&t, "logging", "rotation"),
            event_logger_enabled: match t["logging"].get("event_logger_enabled") {
                Some(b) => b.as_bool().unwrap(),
                None => default_event_logger_enabled(),
            },
        },
        paths: PathsConfig {
            state_file: text(&t, "paths", "state_file"),
            timestamps_file: text(&t, "paths", "timestamps_file"),
            bot_log_file: text(&t, "paths", "bot_log_file"),
            alert_dir: text(&t, "paths", "alert_dir"),
        },
        exits,
        v2: v2(),
        dashboard: DashboardConfig::default(),
    })
}

fn refusal(raw: &str) -> String {
    let cfg = parse(raw).expect("parse");
    let e = cfg.validate().unwrap_err();
    e.message(&cfg.markets)
}

#[test]
fn markets_disabled_cells_default_is_empty_when_omitted() {
    let cfg = parse(&minimal_toml("")).expect("toml without disabled_cells must parse");
    cfg.validate().expect("default empty disabled_cells must validate");
    assert!(cfg.markets.disabled_cells.is_empty());
}

#[test]
fn markets_disabled_cells_eth_15m_parses_and_validates() {
    let cfg = parse(&minimal_toml(r#"disabled_cells = ["ETH:15m"]"#)).expect("parse");
    cfg.validate().expect("validate the operative cell");
    assert_eq!(cfg.markets.disabled_cells, vec!["ETH:15m".to_string()]);
}

#[test]
fn markets_disabled_cells_bad_format_rejected() {
    let msg = refusal(&minimal_toml(r#"disabled_cells = ["ETH-15m"]"#));
    assert!(
        msg.contains("'<ASSET>:<INTERVAL>'") && msg.contains("ETH-15m"),
        "bad-separator error must mention the format + the bad cell; got: {msg}"
    );
    let msg = refusal(&minimal_toml(r#"disabled_cells = ["ETH"]"#));
    assert!(msg.contains("'<ASSET>:<INTERVAL>'"));
    let msg = refusal(&minimal_toml(r#"disabled_cells = ["ETH:15m:extra"]"#));
    assert!(msg.contains("'<ASSET>:<INTERVAL>'"));
    let msg = refusal(&minimal_toml(r#"disabled_cells = [":15m"]"#));
    assert!(msg.contains("empty asset or interval half"));
    let msg = refusal(&minimal_toml(r#"disabled_cells = ["ETH:"]"#));
    assert!(msg.contains("empty asset or interval half"));
}

#[test]
fn markets_disabled_cells_unknown_asset_rejected() {
    let msg = refusal(&minimal_toml(r#"disabled_cells = ["DOGE:15m"]"#));
    assert!(
        msg.contains("unknown asset 'DOGE'") && msg.contains("markets.assets"),
        "unknown-asset error must name the bad asset + reference the assets list; got: {msg}"
    );
}

#[test]
fn markets_disabled_cells_unknown_interval_rejected() {
    let msg = refusal(&minimal_toml(r#"disabled_cells = ["ETH:1h"]"#));
    assert!(
        msg.contains("unknown interval '1h'") && msg.contains("markets.intervals"),
        "unknown-interval error must name the bad interval + reference the list; got: {msg}"
    );
}

#[test]
fn logging_event_logger_enabled_default_is_true_when_omitted() {
    let cfg = parse(&minimal_toml("")).expect("parse without event_logger_enabled");
    assert!(cfg.logging.event_logger_enabled);
}

#[test]
fn exits_default_is_empty() {
    let cfg = parse(&minimal_toml("")).expect("toml without [exits] must parse");
    cfg.validate().expect("empty exits must validate");
    assert!(cfg.exits.cells.is_empty());
}

#[test]
fn exits_baseline_explicit() {
    let raw = minimal_toml_with_exits(
        "",
        r#"[exits.cells]
"BTC:5m" = { kind = "baseline" }"#,
    );
    let cfg = parse(&raw).expect("parse");
    cfg.validate().expect("baseline must validate");
    assert_eq!(cfg.exits.get("BTC:5m"), Some(ExitRule::Baseline));
}

#[test]
fn exits_f6_only_valid() {
    let raw = minimal_toml_with_exits(
        "",
        r#"[exits.cells]
"BTC:15m" = { kind = "f6_only", y_sec = 120 }"#,
    );
    let cfg = parse(&raw).expect("parse");
    cfg.validate().expect("f6_only y=120 must validate");
    assert_eq!(cfg.exits.get("BTC:15m"), Some(ExitRule::F6Only { y_sec: 120 }));
}

#[test]
fn exits_smart_valid() {
    let raw = minimal_toml_with_exits(
        "",
        r#"[exits.cells]
"ETH:5m" = { kind = "smart", x_pct = 70.0, y_sec = 30 }"#,
    );
    let cfg = parse(&raw).expect("parse");
    cfg.validate().expect("smart x=70 y=30 must validate");
    assert_eq!(
        cfg.exits.get("ETH:5m"),
        Some(ExitRule::Smart { x_pct: num(70.0), y_sec: 30 })
    );
}

#[test]
fn exits_b3_maker_valid() {
    let raw = minimal_toml_with_exits(
        "",
        r#"[exits.cells]
"ETH:5m" = { kind = "b3_maker", delta = 0.10, fallback = "f2_market" }"#,
    );
    let cfg = parse(&raw).expect("parse");
    cfg.validate().expect("b3_maker delta=0.10 f2_market must validate");
    assert_eq!(
        cfg.exits.get("ETH:5m"),
        Some(ExitRule::B3Maker { delta: num(0.10), fallback: B3Fallback::F2Market })
    );
}

#[test]
fn exits_b3_maker_delta_zero_rejected() {
    let msg = refusal(&minimal_toml_with_exits(
        "",
        r#"[exits.cells]
"ETH:5m" = { kind = "b3_maker", delta = 0.0, fallback = "f2_market" }"#,
    ));
    assert!(
        msg.contains("b3_maker.delta") && msg.contains("(0.0, 1.0)"),
        "delta=0 error must name the field + range; got: {msg}"
    );
}

#[test]
fn exits_b3_maker_delta_one_rejected() {
    let msg = refusal(&minimal_toml_with_exits(
        "",
        r#"[exits.cells]
"ETH:5m" = { kind = "b3_maker", delta = 1.0, fallback = "f2_market" }"#,
    ));
    assert!(
        msg.contains("b3_maker.delta") && msg.contains("(0.0, 1.0)"),
        "delta=1.0 error must name the field + range; got: {msg}"
    );
}

#[test]
fn exits_b3_maker_delta_negative_rejected() {
    let msg = refusal(&minimal_toml_with_exits(
        "",
        r#"[exits.cells]
"ETH:5m" = { kind = "b3_maker", delta = -0.05, fallback = "f2_market" }"#,
    ));
    assert!(
        msg.contains("b3_maker.delta") && msg.contains("(0.0, 1.0)"),
        "negative delta error must name the field + range; got: {msg}"
    );
}

#[test]
fn exits_b3_maker_fallback_unknown_rejected() {
    let raw = minimal_toml_with_exits(
        "",
        r#"[exits.cells]
"ETH:5m" = { kind = "b3_maker", delta = 0.10, fallback = "f5_teleport" }"#,
    );
    let err = parse(&raw).err().expect("unknown fallback must fail at parse");
    let msg = format!("{err:?}");
    assert!(msg.contains("f5_teleport"), "must reference the bad value; got: {msg}");
}

#[test]
fn exits_b3_maker_fallback_omitted_rejected() {
    let raw = minimal_toml_with_exits(
        "",
        r#"[exits.cells]
"ETH:5m" = { kind = "b3_maker", delta = 0.10 }"#,
    );
    let err = parse(&raw).err().expect("missing fallback must fail at parse");
    let msg = format!("{err:?}");
    assert!(msg.contains("fallback"), "must reference the field; got: {msg}");
}

#[test]
fn exits_unknown_kind_rejected() {
    let raw = minimal_toml_with_exits(
        "",
        r#"[exits.cells]
"BTC:5m" = { kind = "frobnicate", y_sec = 10 }"#,
    );
    let err = parse(&raw).err().expect("unknown kind must fail at parse");
    let msg = format!("{err:?}");
    assert!(msg.contains("frobnicate"), "must reference the bad value; got: {msg}");
}

#[test]
fn exits_f6_zero_y_rejected() {
    let msg = refusal(&minimal_toml_with_exits(
        "",
        r#"[exits.cells]
"BTC:15m" = { kind = "f6_only", y_sec = 0 }"#,
    ));
    assert!(
        msg.contains("f6_only.y_sec") && msg.contains("> 0"),
        "zero-y_sec error must name the field and the constraint; got: {msg}"
    );
}

#[test]
fn exits_smart_negative_x_rejected() {
    let msg = refusal(&minimal_toml_with_exits(
        "",
        r#"[exits.cells]
"ETH:5m" = { kind = "smart", x_pct = -1.0, y_sec = 30 }"#,
    ));
    assert!(
        msg.contains("smart.x_pct") && msg.contains("(0.0, 100.0]"),
        "negative-x_pct error must name the field + the range; got: {msg}"
    );
}

#[test]
fn exits_smart_x_above_100_rejected() {
    let msg = refusal(&minimal_toml_with_exits(
        "",
        r#"[exits.cells]
"ETH:5m" = { kind = "smart", x_pct = 110.0, y_sec = 30 }"#,
    ));
    assert!(
        msg.contains("smart.x_pct") && msg.contains("(0.0, 100.0]"),
        "x_pct>100 error must name the field + the range; got: {msg}"
    );
}

#[test]
fn exits_unknown_asset_rejected() {
    let msg = refusal(&minimal_toml_with_exits(
        "",
        r#"[exits.cells]
"DOGE:5m" = { kind = "f6_only", y_sec = 60 }"#,
    ));
    assert!(
        msg.contains("unknown asset 'DOGE'") && msg.contains("exits.cells"),
        "unknown-asset error must name the bad asset + reference exits.cells; got: {msg}"
    );
}

#[test]
fn exits_unknown_interval_rejected() {
    let msg = refusal(&minimal_toml_with_exits(
        "",
        r#"[exits.cells]
"BTC:4h" = { kind = "smart", x_pct = 70.0, y_sec = 30 }"#,
    ));
    assert!(
        msg.contains("unknown interval '4h'") && msg.contains("exits.cells"),
        "unknown-interval error must name the bad interval + reference exits.cells; got: {msg}"
    );
}

#[test]
fn exits_cell_in_both_disabled_and_exits_rejected() {
    let msg = refusal(&minimal_toml_with_exits(
        r#"disabled_cells = ["ETH:15m"]"#,
        r#"[exits.cells]
"ETH:15m" = { kind = "f6_only", y_sec = 60 }"#,
    ));
    assert!(
        msg.contains("ETH:15m") && msg.contains("disabled_cells") && msg.contains("exits.cells"),
        "dual-presence error must name the cell + both layers; got: {msg}"
    );
}

#[test]
fn exits_disjoint_layers_pass() {
    let raw = minimal_toml_with_exits(
        r#"disabled_cells = ["ETH:15m"]"#,
        r#"[exits.cells]
"ETH:5m"  = { kind = "b3_maker", delta = 0.10, fallback = "f2_market" }
"BTC:15m" = { kind = "b3_maker", delta = 0.10, fallback = "f2_market" }"#,
    );
    let cfg = parse(&raw).expect("parse");
    cfg.validate().expect("disjoint layers must validate");
    assert!(cfg.markets.disabled_cells.contains(&"ETH:15m".to_string()));
    assert!(cfg.exits.get("ETH:5m").is_some());
    assert!(cfg.exits.get("BTC:15m").is_some());
    assert!(cfg.exits.get("ETH:15m").is_none());
}

fn base() -> Config {
    parse(&minimal_toml("")).unwrap()
}

/// The refusal of a configuration with one change.
fn refused(change: fn(&mut Config)) -> ConfigError {
    let mut c = base();
    change(&mut c);
    c.validate().unwrap_err()
}

#[test]
fn every_rule_refuses_what_breaks_it() {
    assert!(base().validate().is_ok());
    assert!(matches!(refused(|c| c.mode.default = "x".into()), ConfigError::Mode { .. }));
    assert!(matches!(refused(|c| c.stakes.base_usdc = num(0.0)), ConfigError::BaseUsdc));
    assert!(matches!(
        refused(|c| c.stakes.max_position_usdc = num(1.0)),
        ConfigError::MaxPosition { .. }
    ));
    assert!(matches!(
        refused(|c| c.stakes.max_open_positions = 0),
        ConfigError::MaxOpenPositions
    ));
    assert!(matches!(
        refused(|c| c.stakes.paper_initial_usdc = num(0.0)),
        ConfigError::PaperInitial
    ));
    assert!(matches!(refused(|c| c.filters.h2_lower = num(-0.1)), ConfigError::H2LowerRange));
    assert!(matches!(refused(|c| c.filters.h2_upper = num(1.5)), ConfigError::H2UpperRange));
    assert!(matches!(
        refused(|c| c.filters.h2_lower = num(0.95)),
        ConfigError::H2Order { .. }
    ));
    assert!(matches!(refused(|c| c.markets.intervals.clear()), ConfigError::NoIntervals));
    assert!(matches!(refused(|c| c.markets.assets.clear()), ConfigError::NoAssets));
    assert!(matches!(refused(|c| c.gates.book_freshness_ms = 0), ConfigError::BookFreshness));
    assert!(matches!(
        refused(|c| c.gates.balance_min_usdc = num(-1.0)),
        ConfigError::BalanceMin
    ));
    assert!(matches!(
        refused(|c| c.connections.reconnect_max_attempts_per_60s = 0),
        ConfigError::ReconnectAttempts
    ));
    assert!(matches!(
        refused(|c| c.connections.connect_timeout_s = 0),
        ConfigError::ConnectTimeout
    ));
    assert!(matches!(
        refused(|c| c.connections.polymarket_gamma_url.clear()),
        ConfigError::GammaUrl
    ));
    assert!(matches!(
        refused(|c| c.markets.discovery_lookahead = -1),
        ConfigError::DiscoveryLookahead
    ));
    assert!(matches!(
        refused(|c| c.markets.discovery_refresh_secs = 0),
        ConfigError::DiscoveryRefresh
    ));
}

#[test]
fn not_a_number_is_never_accepted_as_a_stake() {
    assert!(matches!(
        refused(|c| c.stakes.base_usdc = num(f64::NAN)),
        ConfigError::BaseUsdc | ConfigError::MaxPosition { .. }
    ));
}

#[test]
fn defaults_of_fields_that_may_be_left_out() {
    assert_eq!(default_discovery_lookahead(), 2);
    assert_eq!(default_discovery_refresh_secs(), 60);
    assert_eq!(default_max_trades_per_session(), usize::MAX);
    assert_eq!(default_connect_timeout_s(), 10);
    assert_eq!(default_gamma_url(), "https://gamma-api.polymarket.com");
    assert_eq!(default_max_slippage(), Num::Finite(Dec::new(2, 2)));
    let d = DashboardConfig::default();
    assert!(!d.enabled);
    assert_eq!(d.bind, "127.0.0.1");
    assert_eq!(d.port, 8787);
    let v = v2();
    assert!(!v.enabled);
    assert_eq!(v.edge_min, num(0.04));
    assert_eq!(v.i15m.z_min, num(0.70));
}

fn with_rule(c: &mut Config, cell: &str, rule: ExitRule) {
    c.exits.cells.push(CellRule { cell: cell.to_string(), rule });
}

#[test]
fn every_rule_about_cells_refuses_what_breaks_it() {
    let fault = |e: ConfigError| match e {
        ConfigError::Cell { layer, fault, .. } => (layer, fault),
        o => panic!("expected a fault of a cell, got {o:?}"),
    };
    let (layer, f) = fault(refused(|c| with_rule(c, "BTC", ExitRule::Baseline)));
    assert_eq!(layer, CellLayer::ExitsCells);
    assert!(matches!(f, CellFault::Parts { n: 1 }));
    let (_, f) = fault(refused(|c| with_rule(c, ":5m", ExitRule::Baseline)));
    assert!(matches!(f, CellFault::EmptyHalf));
    let (_, f) = fault(refused(|c| with_rule(c, "SOL:5m", ExitRule::Baseline)));
    assert!(matches!(f, CellFault::UnknownAsset { .. }));
    let (_, f) = fault(refused(|c| with_rule(c, "BTC:1h", ExitRule::Baseline)));
    assert!(matches!(f, CellFault::UnknownInterval { .. }));
    let (layer, f) = fault(refused(|c| c.markets.disabled_cells.push("BTC:5m:x".into())));
    assert_eq!(layer, CellLayer::DisabledCells);
    assert!(matches!(f, CellFault::Parts { n: 3 }));
    assert!(matches!(
        refused(|c| with_rule(c, "BTC:5m", ExitRule::F6Only { y_sec: 0 })),
        ConfigError::F6YSec { y_sec: 0, .. }
    ));
    assert!(matches!(
        refused(|c| with_rule(c, "BTC:5m", ExitRule::Smart { x_pct: num(0.0), y_sec: 1 })),
        ConfigError::SmartXPct { .. }
    ));
    assert!(matches!(
        refused(|c| with_rule(c, "BTC:5m", ExitRule::Smart { x_pct: num(50.0), y_sec: 0 })),
        ConfigError::SmartYSec { .. }
    ));
    assert!(matches!(
        refused(|c| with_rule(
            c,
            "BTC:5m",
            ExitRule::B3Maker { delta: num(1.0), fallback: B3Fallback::F2Market }
        )),
        ConfigError::B3Delta { .. }
    ));
    assert!(matches!(
        refused(|c| {
            with_rule(c, "BTC:5m", ExitRule::Baseline);
            c.markets.disabled_cells.push("BTC:5m".into());
        }),
        ConfigError::RetiredWithRule { .. }
    ));
}

#[test]
fn the_second_strategy_is_held_to_its_rules_when_it_is_on() {
    let mut off = base();
    off.v2.edge_min = num(2.0);
    assert!(off.validate().is_ok());
    assert!(matches!(
        refused(|c| {
            c.v2.enabled = true;
            c.v2.edge_min = num(1.0);
        }),
        ConfigError::EdgeMin { .. }
    ));
    assert!(matches!(
        refused(|c| {
            c.v2.enabled = true;
            c.v2.vol_cap = num(0.0);
        }),
        ConfigError::VolCap
    ));
    assert!(matches!(
        refused(|c| {
            c.v2.enabled = true;
            c.v2.dvr_floor = num(-0.1);
        }),
        ConfigError::DvrFloor
    ));
    assert!(matches!(
        refused(|c| {
            c.v2.enabled = true;
            c.v2.edge_ref = num(0.0);
        }),
        ConfigError::EdgeRef
    ));
    assert!(matches!(
        refused(|c| {
            c.v2.enabled = true;
            c.v2.min_ttl_s = 0;
        }),
        ConfigError::MinTtl
    ));
    assert!(matches!(
        refused(|c| {
            c.v2.enabled = true;
            c.v2.recal_capacity = 0;
        }),
        ConfigError::RecalCapacity
    ));
}

#[test]
fn an_exit_rule_is_read_from_its_parts() {
    assert!(matches!(read_rule("baseline", None, None, None, None), Ok(ExitRule::Baseline)));
    assert!(matches!(
        read_rule("f6_only", None, Some(30), None, None),
        Ok(ExitRule::F6Only { y_sec: 30 })
    ));
    assert!(matches!(
        read_rule("trailing", None, None, None, None),
        Err(RuleError::UnknownKind { .. })
    ));
    assert!(matches!(
        read_rule("b3_maker", None, None, Some(num(0.1)), Some("f3_market")),
        Err(RuleError::UnknownFallback { .. })
    ));
    assert!(matches!(
        read_rule("smart", None, Some(30), None, None),
        Err(RuleError::MissingField { field: "x_pct" })
    ));
}

#[test]
fn long_numerals_are_rounded() {
    let read = |s: &str| {
        let chars: Vec<char> = s.chars().collect();
        match read_value(&chars) {
            Some(Num::Finite(d)) => Some((d.mantissa(), d.scale())),
            _ => None,
        }
    };
    assert_eq!(read("0.25"), Some((25, 2)));
    assert_eq!(read("-.5e1"), Some((-5, 0)));
    assert_eq!(
        read("0.12345678901234567890123456789"),
        Some((1234567890123456789012345679, 28))
    );
    assert_eq!(
        read("-0.00000000000000000000000000005"),
        Some((-1, 28)),
        "a half goes away from zero"
    );
    assert_eq!(read("0.00000000000000000000000000004"), Some((0, 28)));
    assert_eq!(
        read("123.45678901234567890123456789012345"),
        Some((12345678901234567890123456789, 26))
    );
    assert_eq!(read("1e-40"), Some((0, 28)));
    assert_eq!(read("1e-5000"), Some((0, 28)));
    assert_eq!(read("0e99999"), Some((0, 0)));
    assert_eq!(read("79228162514264337593543950335"), Some((79228162514264337593543950335, 0)));
    assert_eq!(
        read("79228162514264337593543950335.4"),
        Some((79228162514264337593543950335, 0))
    );
    assert_eq!(read("."), None);
    assert_eq!(read("1e"), None);
}

#[test]
fn numbers_that_no_decimal_holds() {
    let read = |s: &str| {
        let chars: Vec<char> = s.chars().collect();
        read_value(&chars)
    };
    let inf = |negative: bool| Some(Num::Infinite { negative });
    assert_eq!(read("79228162514264337593543950335.5"), inf(false));
    assert_eq!(read("79228162514264337593543950336"), inf(false));
    assert_eq!(read("1e30"), inf(false));
    assert_eq!(read("-1e30"), inf(true));
    assert_eq!(read("1e99999999999999999999999999"), inf(false));
    assert_eq!(read("1e-99999999999999999999999999"), Some(Num::Finite(Dec::zero())));
    assert_eq!(read("0e99999999999999999999999999"), Some(Num::Finite(Dec::zero())));
    for s in ["inf", "+INF", "Infinity", "+infinity"] {
        assert_eq!(read(s), inf(false), "{s}");
        assert_eq!(s.parse::<f64>(), Ok(f64::INFINITY));
    }
    for s in ["-inf", "-InFinity"] {
        assert_eq!(read(s), inf(true), "{s}");
        assert_eq!(s.parse::<f64>(), Ok(f64::NEG_INFINITY));
    }
    for s in ["nan", "NaN", "-nan", "+NAN"] {
        assert_eq!(read(s), Some(Num::NotANumber), "{s}");
        assert!(s.parse::<f64>().unwrap().is_nan());
    }
    for s in ["", "+", "infin", "nano", "--1", "1e+", "1e1.5", "0x1", " 1"] {
        assert_eq!(read(s), None, "{s}");
        assert!(s.parse::<f64>().is_err());
    }
}
