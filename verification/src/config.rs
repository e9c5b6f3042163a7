//! The bot's configuration and the rules it must meet before anything starts.
//!
//! Reading the file is left to the caller; the values arrive here as plain data
//! and [`Config::validate`] refuses the first rule that is broken.

use crate::decimal::{self, Dec, DecV};
use crate::text::{self, chars_of, push_str, same_chars, same_text, split_at_char, text_of};
use vstd::prelude::*;

verus! {

/// A number from the configuration file or a recorded line, which may also be an
/// infinity or a value that is not a number. One that is too large for a decimal
/// counts as infinite.
#[derive(Clone, Copy, Debug, PartialEq)]
pub enum Num {
    Finite(Dec),
    Infinite { negative: bool },
    NotANumber,
}

/// The value of a number.
pub enum NumV {
    Finite(DecV),
    Infinite { negative: bool },
    NotANumber,
}

impl View for Num {
    type V = NumV;

    open spec fn view(&self) -> NumV {
        match *self {
            Num::Finite(d) => NumV::Finite(d@),
            Num::Infinite { negative } => NumV::Infinite { negative },
            Num::NotANumber => NumV::NotANumber,
        }
    }
}

/// `a >= b`: false where one of them is not a number.
pub open spec fn value_reaches(a: NumV, b: NumV) -> bool {
    match (a, b) {
        (NumV::NotANumber, _) => false,
        (_, NumV::NotANumber) => false,
        (NumV::Finite(x), NumV::Finite(y)) => decimal::le(y, x),
        (NumV::Infinite { negative }, NumV::Infinite { negative: other }) => !negative || other,
        (NumV::Infinite { negative }, NumV::Finite(_)) => !negative,
        (NumV::Finite(_), NumV::Infinite { negative }) => negative,
    }
}

/// The value of an optional number.
pub open spec fn opt_num(n: Option<Num>) -> Option<NumV> {
    match n {
        Some(n) => Some(n@),
        None => None,
    }
}

impl Num {
    /// `self > limit`: false for a value that is not a number.
    pub open spec fn above(self, limit: DecV) -> bool {
        match self {
            Num::Finite(d) => decimal::lt(limit, d@),
            Num::Infinite { negative } => !negative,
            Num::NotANumber => false,
        }
    }

    /// `self >= limit`.
    pub open spec fn at_least(self, limit: DecV) -> bool {
        match self {
            Num::Finite(d) => decimal::le(limit, d@),
            Num::Infinite { negative } => !negative,
            Num::NotANumber => false,
        }
    }

    /// `self < limit`.
    pub open spec fn below(self, limit: DecV) -> bool {
        match self {
            Num::Finite(d) => decimal::lt(d@, limit),
            Num::Infinite { negative } => negative,
            Num::NotANumber => false,
        }
    }

    /// `self <= limit`.
    pub open spec fn at_most(self, limit: DecV) -> bool {
        match self {
            Num::Finite(d) => decimal::le(d@, limit),
            Num::Infinite { negative } => negative,
            Num::NotANumber => false,
        }
    }

    /// `self >= other` for two such numbers.
    pub open spec fn reaches(self, other: Num) -> bool {
        match (self, other) {
            (Num::NotANumber, _) => false,
            (_, Num::NotANumber) => false,
            (Num::Finite(a), Num::Finite(b)) => decimal::le(b@, a@),
            (Num::Infinite { negative }, Num::Infinite { negative: other }) => !negative || other,
            (Num::Infinite { negative }, Num::Finite(_)) => !negative,
            (Num::Finite(_), Num::Infinite { negative }) => negative,
        }
    }

    /// `self < other` for two such numbers.
    pub open spec fn precedes(self, other: Num) -> bool {
        match (self, other) {
            (Num::NotANumber, _) => false,
            (_, Num::NotANumber) => false,
            _ => !self.reaches(other),
        }
    }

    pub fn is_above(self, limit: Dec) -> (r: bool)
        ensures
            r == self.above(limit@),
    {
        match self {
            Num::Finite(d) => limit.less_than(d),
            Num::Infinite { negative } => !negative,
            Num::NotANumber => false,
        }
    }

    pub fn is_at_least(self, limit: Dec) -> (r: bool)
        ensures
            r == self.at_least(limit@),
    {
        match self {
            Num::Finite(d) => {
                proof {
                    decimal::lemma_lt_le(d@, limit@);
                }
                !d.less_than(limit)
            },
            Num::Infinite { negative } => !negative,
            Num::NotANumber => false,
        }
    }

    pub fn is_below(self, limit: Dec) -> (r: bool)
        ensures
            r == self.below(limit@),
    {
        match self {
            Num::Finite(d) => d.less_than(limit),
            Num::Infinite { negative } => negative,
            Num::NotANumber => false,
        }
    }

    pub fn is_at_most(self, limit: Dec) -> (r: bool)
        ensures
            r == self.at_most(limit@),
    {
        match self {
            Num::Finite(d) => {
                proof {
                    decimal::lemma_lt_le(limit@, d@);
                }
                !limit.less_than(d)
            },
            Num::Infinite { negative } => negative,
            Num::NotANumber => false,
        }
    }

    pub fn is_reaching(self, other: Num) -> (r: bool)
        ensures
            r == self.reaches(other),
            r == value_reaches(self@, other@),
    {
        match (self, other) {
            (Num::NotANumber, _) => false,
            (_, Num::NotANumber) => false,
            (Num::Finite(a), Num::Finite(b)) => {
                proof {
                    decimal::lemma_lt_le(a@, b@);
                }
                !a.less_than(b)
            },
            (Num::Infinite { negative }, Num::Infinite { negative: other }) => !negative || other,
            (Num::Infinite { negative }, Num::Finite(_)) => !negative,
            (Num::Finite(_), Num::Infinite { negative }) => negative,
        }
    }

    pub fn is_preceding(self, other: Num) -> (r: bool)
        ensures
            r == self.precedes(other),
    {
        match (self, other) {
            (Num::NotANumber, _) => false,
            (_, Num::NotANumber) => false,
            _ => !self.is_reaching(other),
        }
    }

    fn is_finite(self) -> (r: bool)
        ensures
            r == (self is Finite),
    {
        match self {
            Num::Finite(_) => true,
            _ => false,
        }
    }

    /// How the number is written.
    pub open spec fn text(self) -> Seq<char> {
        match self {
            Num::Finite(d) => decimal::text(d@),
            Num::Infinite { negative } => if negative {
                "-inf"@
            } else {
                "inf"@
            },
            Num::NotANumber => "NaN"@,
        }
    }

    fn push_to(self, out: &mut String)
        ensures
            final(out)@ == old(out)@ + self.text(),
    {
        match self {
            Num::Finite(d) => {
                let t = d.to_text();
                push_str(out, t.as_str());
            },
            Num::Infinite { negative } => {
                if negative {
                    push_str(out, "-inf");
                } else {
                    push_str(out, "inf");
                }
            },
            Num::NotANumber => {
                push_str(out, "NaN");
            },
        }
    }
}

#[derive(Debug, Clone)]
pub struct Config {
    pub mode: ModeConfig,
    pub markets: MarketsConfig,
    pub stakes: StakesConfig,
    pub filters: FiltersConfig,
    pub gates: GatesConfig,
    pub rules: RulesConfig,
    pub connections: ConnectionsConfig,
    pub logging: LoggingConfig,
    pub paths: PathsConfig,
    pub exits: ExitsConfig,
    pub v2: V2Config,
    pub dashboard: DashboardConfig,
}

#[derive(Debug, Clone)]
pub struct ModeConfig {
    /// `paper` or `live`.
    pub default: String,
    pub live_confirmation_required: bool,
}

#[derive(Debug, Clone)]
pub struct MarketsConfig {
    pub intervals: Vec<String>,
    pub assets: Vec<String>,
    pub polymarket_token_ids: Vec<String>,
    pub discovery_lookahead: i64,
    pub discovery_refresh_secs: u64,
    /// Cells `ASSET:INTERVAL` that never open a position.
    pub disabled_cells: Vec<String>,
}

#[derive(Debug, Clone)]
pub struct StakesConfig {
    pub base_usdc: Num,
    pub max_position_usdc: Num,
    pub max_open_positions: u32,
    pub paper_initial_usdc: Num,
    pub max_trades_per_session: usize,
}

#[derive(Debug, Clone)]
pub struct FiltersConfig {
    pub h2_enabled: bool,
    pub h2_lower: Num,
    pub h2_upper: Num,
}

#[derive(Debug, Clone)]
pub struct GatesConfig {
    pub book_freshness_ms: u64,
    pub balance_min_usdc: Num,
    pub phase_c_threshold_c: Num,
}

#[derive(Debug, Clone)]
pub struct RulesConfig {
    pub regla_c_enabled: bool,
    pub dca_enabled: bool,
    pub max_slippage: Num,
}

#[derive(Debug, Clone)]
pub struct ConnectionsConfig {
    pub binance_ws_url: String,
    pub polymarket_ws_url: String,
    pub polymarket_rest_url: String,
    pub reconnect_max_attempts_per_60s: u32,
    pub connect_timeout_s: u64,
    pub polymarket_gamma_url: String,
}

#[derive(Debug, Clone)]
pub struct LoggingConfig {
    pub level: String,
    pub trace_path: String,
    pub rotation: String,
    pub event_logger_enabled: bool,
}

#[derive(Debug, Clone)]
pub struct PathsConfig {
    pub state_file: String,
    pub timestamps_file: String,
    pub bot_log_file: String,
    pub alert_dir: String,
}

#[derive(Debug, Clone)]
pub struct DashboardConfig {
    pub enabled: bool,
    pub bind: String,
    pub port: u16,
}

/// How the positions of a cell are closed.
#[derive(Debug, Clone, Copy, PartialEq)]
pub enum ExitRule {
    /// When the time is over.
    Baseline,
    /// When the highest bid is `y_sec` seconds old.
    F6Only { y_sec: i64 },
    /// The same, but not before `x_pct` percent of the time.
    Smart { x_pct: Num, y_sec: i64 },
    /// A maker order at `delta` above the entry.
    B3Maker { delta: Num, fallback: B3Fallback },
}

/// What follows when the maker order was not filled.
#[derive(Debug, Clone, Copy, PartialEq, Eq, Structural)]
pub enum B3Fallback {
    /// Sell as a taker.
    F2Market,
}

/// The exit rule of one cell.
#[derive(Debug, Clone)]
pub struct CellRule {
    /// `ASSET:INTERVAL`.
    pub cell: String,
    pub rule: ExitRule,
}

/// The exit rules, one per cell; a cell without a rule has the baseline.
#[derive(Debug, Clone)]
pub struct ExitsConfig {
    pub cells: Vec<CellRule>,
}

/// The rule listed for a cell.
pub open spec fn rule_of(cells: Seq<CellRule>, cell: Seq<char>) -> Option<ExitRule>
    decreases cells.len(),
{
    if cells.len() == 0 {
        None
    } else if cells[0].cell@ == cell {
        Some(cells[0].rule)
    } else {
        rule_of(cells.drop_first(), cell)
    }
}

impl ExitsConfig {
    /// No two entries for one cell.
    pub open spec fn wf(self) -> bool {
        forall|i: int, j: int|
            0 <= i < j < self.cells@.len() ==> (#[trigger] self.cells@[i]).cell@ != (
            #[trigger] self.cells@[j]).cell@
    }

    pub fn new() -> (r: ExitsConfig)
        ensures
            r.cells@.len() == 0,
            r.wf(),
    {
        ExitsConfig { cells: Vec::new() }
    }

    /// The rule listed for a cell.
    pub fn get(&self, cell: &str) -> (r: Option<ExitRule>)
        ensures
            r == rule_of(self.cells@, cell@),
    {
        let mut i: usize = 0;
        assert(self.cells@.skip(0) =~= self.cells@);
        while i < self.cells.len()
            invariant
                i <= self.cells.len(),
                rule_of(self.cells@, cell@) == rule_of(self.cells@.skip(i as int), cell@),
            decreases self.cells.len() - i,
        {
            if same_text(self.cells[i].cell.as_str(), cell) {
                return Some(self.cells[i].rule);
            }
            assert(self.cells@.skip(i as int).drop_first() =~= self.cells@.skip(i + 1));
            i += 1;
        }
        None
    }
}

/// Why an exit rule cannot be read.
#[derive(Debug, Clone)]
pub enum RuleError {
    UnknownKind { kind: String },
    UnknownFallback { fallback: String },
    MissingField { field: &'static str },
}

/// A rule that cannot be read, as mathematical values.
pub enum RuleFaultV {
    UnknownKind { kind: Seq<char> },
    UnknownFallback { fallback: Seq<char> },
    MissingField { field: Seq<char> },
}

impl View for RuleError {
    type V = RuleFaultV;

    open spec fn view(&self) -> RuleFaultV {
        match self {
            RuleError::UnknownKind { kind } => RuleFaultV::UnknownKind { kind: kind@ },
            RuleError::UnknownFallback { fallback } => RuleFaultV::UnknownFallback {
                fallback: fallback@,
            },
            RuleError::MissingField { field } => RuleFaultV::MissingField { field: field@ },
        }
    }
}

pub open spec fn opt_word(s: Option<&str>) -> Option<Seq<char>> {
    match s {
        Some(s) => Some(s@),
        None => None,
    }
}

/// The rule of a kind with its parameters: each kind needs its own, and those of
/// other kinds make no difference.
pub open spec fn rule_in(
    kind: Seq<char>,
    x_pct: Option<Num>,
    y_sec: Option<i64>,
    delta: Option<Num>,
    fallback: Option<Seq<char>>,
) -> Result<ExitRule, RuleFaultV> {
    if kind == "baseline"@ {
        Ok(ExitRule::Baseline)
    } else if kind == "f6_only"@ {
        match y_sec {
            Some(y_sec) => Ok(ExitRule::F6Only { y_sec }),
            None => Err(RuleFaultV::MissingField { field: "y_sec"@ }),
        }
    } else if kind == "smart"@ {
        match (x_pct, y_sec) {
            (Some(x_pct), Some(y_sec)) => Ok(ExitRule::Smart { x_pct, y_sec }),
            (None, _) => Err(RuleFaultV::MissingField { field: "x_pct"@ }),
            (_, None) => Err(RuleFaultV::MissingField { field: "y_sec"@ }),
        }
    } else if kind == "b3_maker"@ {
        match (delta, fallback) {
            (_, Some(f)) if f != "f2_market"@ => Err(RuleFaultV::UnknownFallback { fallback: f }),
            (Some(delta), Some(_)) => Ok(
                ExitRule::B3Maker { delta, fallback: B3Fallback::F2Market },
            ),
            (None, _) => Err(RuleFaultV::MissingField { field: "delta"@ }),
            (_, None) => Err(RuleFaultV::MissingField { field: "fallback"@ }),
        }
    } else {
        Err(RuleFaultV::UnknownKind { kind })
    }
}

/// Reads an exit rule. A kind or a fallback that is not known is refused: a typo
/// never falls back to the baseline.
pub fn read_rule(
    kind: &str,
    x_pct: Option<Num>,
    y_sec: Option<i64>,
    delta: Option<Num>,
    fallback: Option<&str>,
) -> (r: Result<ExitRule, RuleError>)
    ensures
        match rule_in(kind@, x_pct, y_sec, delta, opt_word(fallback)) {
            Ok(rule) => r == Ok::<ExitRule, RuleError>(rule),
            Err(f) => r matches Err(e) && e@ == f,
        },
{
    if same_text(kind, "baseline") {
        Ok(ExitRule::Baseline)
    } else if same_text(kind, "f6_only") {
        match y_sec {
            Some(y_sec) => Ok(ExitRule::F6Only { y_sec }),
            None => Err(RuleError::MissingField { field: "y_sec" }),
        }
    } else if same_text(kind, "smart") {
        match (x_pct, y_sec) {
            (Some(x_pct), Some(y_sec)) => Ok(ExitRule::Smart { x_pct, y_sec }),
            (None, _) => Err(RuleError::MissingField { field: "x_pct" }),
            (_, None) => Err(RuleError::MissingField { field: "y_sec" }),
        }
    } else if same_text(kind, "b3_maker") {
        match fallback {
            Some(f) => {
                if !same_text(f, "f2_market") {
                    return Err(RuleError::UnknownFallback { fallback: copy_text(f) });
                }
            },
            None => {},
        }
        match (delta, fallback) {
            (Some(delta), Some(_)) => Ok(
                ExitRule::B3Maker { delta, fallback: B3Fallback::F2Market },
            ),
            (None, _) => Err(RuleError::MissingField { field: "delta" }),
            (_, None) => Err(RuleError::MissingField { field: "fallback" }),
        }
    } else {
        Err(RuleError::UnknownKind { kind: copy_text(kind) })
    }
}

/// How many epochs ahead markets are looked for, where nothing is said.
pub fn default_discovery_lookahead() -> (r: i64)
    ensures
        r == 2,
{
    2
}

/// How often markets are looked for, where nothing is said.
pub fn default_discovery_refresh_secs() -> (r: u64)
    ensures
        r == 60,
{
    60
}

/// There is no limit on the trades of a session, where nothing is said.
pub fn default_max_trades_per_session() -> (r: usize)
    ensures
        r == usize::MAX,
{
    usize::MAX
}

/// The slippage that is taken, where nothing is said.
pub fn default_max_slippage() -> (r: Num)
    ensures
        is_num(r, 2, 2),
{
    num(2, 2)
}

/// How long a connection may take, where nothing is said.
pub fn default_connect_timeout_s() -> (r: u64)
    ensures
        r == 10,
{
    10
}

/// Where markets are looked for, where nothing is said.
pub fn default_gamma_url() -> (r: String)
    ensures
        r@ == "https://gamma-api.polymarket.com"@,
{
    copy_text("https://gamma-api.polymarket.com")
}

/// Events are logged, where nothing is said.
pub fn default_event_logger_enabled() -> (r: bool)
    ensures
        r,
{
    true
}

/// The list that names a cell.
#[derive(Debug, Clone, Copy, PartialEq, Eq, Structural)]
pub enum CellLayer {
    ExitsCells,
    DisabledCells,
}

/// What is wrong with the name of a cell.
#[derive(Debug, Clone)]
pub enum CellFault {
    /// Not two parts with one colon between them.
    Parts { n: usize },
    EmptyHalf,
    UnknownAsset { asset: String },
    UnknownInterval { interval: String },
}

pub enum CellFaultV {
    Parts { n: nat },
    EmptyHalf,
    UnknownAsset { asset: Seq<char> },
    UnknownInterval { interval: Seq<char> },
}

impl View for CellFault {
    type V = CellFaultV;

    open spec fn view(&self) -> CellFaultV {
        match self {
            CellFault::Parts { n } => CellFaultV::Parts { n: *n as nat },
            CellFault::EmptyHalf => CellFaultV::EmptyHalf,
            CellFault::UnknownAsset { asset } => CellFaultV::UnknownAsset { asset: asset@ },
            CellFault::UnknownInterval { interval } => CellFaultV::UnknownInterval {
                interval: interval@,
            },
        }
    }
}

/// The first rule that a configuration breaks.
#[derive(Debug, Clone)]
pub enum ConfigError {
    Mode { mode: String },
    BaseUsdc,
    MaxPosition { max: Num, base: Num },
    MaxOpenPositions,
    PaperInitial,
    H2LowerRange,
    H2UpperRange,
    H2Order { lower: Num, upper: Num },
    NoIntervals,
    NoAssets,
    BookFreshness,
    BalanceMin,
    ReconnectAttempts,
    ConnectTimeout,
    GammaUrl,
    DiscoveryLookahead,
    DiscoveryRefresh,
    Cell { layer: CellLayer, cell: String, fault: CellFault },
    F6YSec { cell: String, y_sec: i64 },
    SmartXPct { cell: String, x_pct: Num },
    SmartYSec { cell: String, y_sec: i64 },
    B3Delta { cell: String, delta: Num },
    RetiredWithRule { cell: String },
    EdgeMin { edge_min: Num },
    VolCap,
    DvrFloor,
    EdgeRef,
    MinTtl,
    RecalCapacity,
}

/// A broken rule as mathematical values.
pub enum FaultV {
    Mode { mode: Seq<char> },
    BaseUsdc,
    MaxPosition { max: Num, base: Num },
    MaxOpenPositions,
    PaperInitial,
    H2LowerRange,
    H2UpperRange,
    H2Order { lower: Num, upper: Num },
    NoIntervals,
    NoAssets,
    BookFreshness,
    BalanceMin,
    ReconnectAttempts,
    ConnectTimeout,
    GammaUrl,
    DiscoveryLookahead,
    DiscoveryRefresh,
    Cell { layer: CellLayer, cell: Seq<char>, fault: CellFaultV },
    F6YSec { cell: Seq<char>, y_sec: i64 },
    SmartXPct { cell: Seq<char>, x_pct: Num },
    SmartYSec { cell: Seq<char>, y_sec: i64 },
    B3Delta { cell: Seq<char>, delta: Num },
    RetiredWithRule { cell: Seq<char> },
    EdgeMin { edge_min: Num },
    VolCap,
    DvrFloor,
    EdgeRef,
    MinTtl,
    RecalCapacity,
}

impl View for ConfigError {
    type V = FaultV;

    open spec fn view(&self) -> FaultV {
        match self {
            ConfigError::Mode { mode } => FaultV::Mode { mode: mode@ },
            ConfigError::BaseUsdc => FaultV::BaseUsdc,
            ConfigError::MaxPosition { max, base } => FaultV::MaxPosition { max: *max, base: *base },
            ConfigError::MaxOpenPositions => FaultV::MaxOpenPositions,
            ConfigError::PaperInitial => FaultV::PaperInitial,
            ConfigError::H2LowerRange => FaultV::H2LowerRange,
            ConfigError::H2UpperRange => FaultV::H2UpperRange,
            ConfigError::H2Order { lower, upper } => FaultV::H2Order {
                lower: *lower,
                upper: *upper,
            },
            ConfigError::NoIntervals => FaultV::NoIntervals,
            ConfigError::NoAssets => FaultV::NoAssets,
            ConfigError::BookFreshness => FaultV::BookFreshness,
            ConfigError::BalanceMin => FaultV::BalanceMin,
            ConfigError::ReconnectAttempts => FaultV::ReconnectAttempts,
            ConfigError::ConnectTimeout => FaultV::ConnectTimeout,
            ConfigError::GammaUrl => FaultV::GammaUrl,
            ConfigError::DiscoveryLookahead => FaultV::DiscoveryLookahead,
            ConfigError::DiscoveryRefresh => FaultV::DiscoveryRefresh,
            ConfigError::Cell { layer, cell, fault } => FaultV::Cell {
                layer: *layer,
                cell: cell@,
                fault: fault@,
            },
            ConfigError::F6YSec { cell, y_sec } => FaultV::F6YSec { cell: cell@, y_sec: *y_sec },
            ConfigError::SmartXPct { cell, x_pct } => FaultV::SmartXPct {
                cell: cell@,
                x_pct: *x_pct,
            },
            ConfigError::SmartYSec { cell, y_sec } => FaultV::SmartYSec {
                cell: cell@,
                y_sec: *y_sec,
            },
            ConfigError::B3Delta { cell, delta } => FaultV::B3Delta { cell: cell@, delta: *delta },
            ConfigError::RetiredWithRule { cell } => FaultV::RetiredWithRule { cell: cell@ },
            ConfigError::EdgeMin { edge_min } => FaultV::EdgeMin { edge_min: *edge_min },
            ConfigError::VolCap => FaultV::VolCap,
            ConfigError::DvrFloor => FaultV::DvrFloor,
            ConfigError::EdgeRef => FaultV::EdgeRef,
            ConfigError::MinTtl => FaultV::MinTtl,
            ConfigError::RecalCapacity => FaultV::RecalCapacity,
        }
    }
}

/// Whether a list of names holds a name.
pub open spec fn listed(names: Seq<String>, name: Seq<char>) -> bool {
    exists|i: int| 0 <= i < names.len() && (#[trigger] names[i])@ == name
}

fn is_listed(names: &Vec<String>, name: &[char]) -> (r: bool)
    ensures
        r == listed(names@, name@),
{
    let mut i: usize = 0;
    while i < names.len()
        invariant
            i <= names.len(),
            forall|k: int| 0 <= k < i ==> (#[trigger] names@[k])@ != name@,
        decreases names.len() - i,
    {
        let c = chars_of(names[i].as_str());
        if same_chars(c.as_slice(), name) {
            assert(names@[i as int]@ == name@);
            return true;
        }
        i += 1;
    }
    false
}

/// What is wrong with the name of a cell: it must be `ASSET:INTERVAL`, both of
/// them configured.
pub open spec fn name_fault(
    cell: Seq<char>,
    assets: Seq<String>,
    intervals: Seq<String>,
) -> Option<CellFaultV> {
    let parts = text::split(cell, ':');
    if parts.len() != 2 {
        Some(CellFaultV::Parts { n: parts.len() })
    } else if parts[0].len() == 0 || parts[1].len() == 0 {
        Some(CellFaultV::EmptyHalf)
    } else if !listed(assets, parts[0]) {
        Some(CellFaultV::UnknownAsset { asset: parts[0] })
    } else if !listed(intervals, parts[1]) {
        Some(CellFaultV::UnknownInterval { interval: parts[1] })
    } else {
        None
    }
}

fn check_name(cell: &str, assets: &Vec<String>, intervals: &Vec<String>) -> (r: Option<CellFault>)
    ensures
        r is Some <==> name_fault(cell@, assets@, intervals@) is Some,
        r matches Some(f) ==> name_fault(cell@, assets@, intervals@) == Some(f@),
{
    let chars = chars_of(cell);
    let parts = split_at_char(chars.as_slice(), ':');
    let ghost spec_parts = text::split(cell@, ':');
    assert(text::pieces(parts@) == spec_parts);
    assert(parts@.len() == spec_parts.len());
    if parts.len() != 2 {
        return Some(CellFault::Parts { n: parts.len() });
    }
    assert(parts@[0]@ == spec_parts[0] && parts@[1]@ == spec_parts[1]);
    if parts[0].len() == 0 || parts[1].len() == 0 {
        return Some(CellFault::EmptyHalf);
    }
    if !is_listed(assets, parts[0].as_slice()) {
        return Some(CellFault::UnknownAsset { asset: text_of(parts[0].as_slice()) });
    }
    if !is_listed(intervals, parts[1].as_slice()) {
        return Some(CellFault::UnknownInterval { interval: text_of(parts[1].as_slice()) });
    }
    None
}

/// What is wrong with the parameters of a rule.
pub open spec fn rule_fault(cell: Seq<char>, rule: ExitRule) -> Option<FaultV> {
    match rule {
        ExitRule::Baseline => None,
        ExitRule::F6Only { y_sec } => if y_sec > 0 {
            None
        } else {
            Some(FaultV::F6YSec { cell, y_sec })
        },
        ExitRule::Smart { x_pct, y_sec } => if !(x_pct is Finite && x_pct.above(decimal::zero())
            && x_pct.at_most(decimal::dec(100, 0))) {
            Some(FaultV::SmartXPct { cell, x_pct })
        } else if y_sec <= 0 {
            Some(FaultV::SmartYSec { cell, y_sec })
        } else {
            None
        },
        ExitRule::B3Maker { delta, fallback } => if !(delta is Finite && delta.above(
            decimal::zero(),
        ) && delta.below(decimal::one())) {
            Some(FaultV::B3Delta { cell, delta })
        } else {
            None
        },
    }
}

fn check_rule(cell: &str, rule: ExitRule) -> (r: Option<ConfigError>)
    ensures
        r is Some <==> rule_fault(cell@, rule) is Some,
        r matches Some(e) ==> rule_fault(cell@, rule) == Some(e@),
{
    match rule {
        ExitRule::Baseline => None,
        ExitRule::F6Only { y_sec } => {
            if y_sec > 0 {
                None
            } else {
                Some(ConfigError::F6YSec { cell: copy_text(cell), y_sec })
            }
        },
        ExitRule::Smart { x_pct, y_sec } => {
            if !(x_pct.is_finite() && x_pct.is_above(Dec::zero()) && x_pct.is_at_most(
                Dec::new(100, 0),
            )) {
                Some(ConfigError::SmartXPct { cell: copy_text(cell), x_pct })
            } else if y_sec <= 0 {
                Some(ConfigError::SmartYSec { cell: copy_text(cell), y_sec })
            } else {
                None
            }
        },
        ExitRule::B3Maker { delta, fallback: _ } => {
            if !(delta.is_finite() && delta.is_above(Dec::zero()) && delta.is_below(Dec::one())) {
                Some(ConfigError::B3Delta { cell: copy_text(cell), delta })
            } else {
                None
            }
        },
    }
}

/// A copy of a text.
fn copy_text(s: &str) -> (r: String)
    ensures
        r@ == s@,
{
    let chars = chars_of(s);
    text_of(chars.as_slice())
}

/// The first fault among the exit rules from the `i`-th on.
pub open spec fn exits_fault(
    cells: Seq<CellRule>,
    assets: Seq<String>,
    intervals: Seq<String>,
    i: int,
) -> Option<FaultV>
    decreases cells.len() - i,
{
    if i < 0 || i >= cells.len() {
        None
    } else {
        match name_fault(cells[i].cell@, assets, intervals) {
            Some(fault) => Some(
                FaultV::Cell { layer: CellLayer::ExitsCells, cell: cells[i].cell@, fault },
            ),
            None => match rule_fault(cells[i].cell@, cells[i].rule) {
                Some(f) => Some(f),
                None => exits_fault(cells, assets, intervals, i + 1),
            },
        }
    }
}

/// The first fault among the retired cells from the `i`-th on.
pub open spec fn disabled_fault(
    disabled: Seq<String>,
    assets: Seq<String>,
    intervals: Seq<String>,
    i: int,
) -> Option<FaultV>
    decreases disabled.len() - i,
{
    if i < 0 || i >= disabled.len() {
        None
    } else {
        match name_fault(disabled[i]@, assets, intervals) {
            Some(fault) => Some(
                FaultV::Cell { layer: CellLayer::DisabledCells, cell: disabled[i]@, fault },
            ),
            None => disabled_fault(disabled, assets, intervals, i + 1),
        }
    }
}

/// The first retired cell, from the `i`-th on, that also has an exit rule.
pub open spec fn overlap_fault(disabled: Seq<String>, cells: Seq<CellRule>, i: int) -> Option<FaultV>
    decreases disabled.len() - i,
{
    if i < 0 || i >= disabled.len() {
        None
    } else if rule_of(cells, disabled[i]@) is Some {
        Some(FaultV::RetiredWithRule { cell: disabled[i]@ })
    } else {
        overlap_fault(disabled, cells, i + 1)
    }
}

/// What is wrong with the second strategy's parameters, where it is switched on.
pub open spec fn v2_fault(v2: V2Config) -> Option<FaultV> {
    if !v2.enabled {
        None
    } else if !(v2.edge_min is Finite && v2.edge_min.above(decimal::zero()) && v2.edge_min.below(
        decimal::one(),
    )) {
        Some(FaultV::EdgeMin { edge_min: v2.edge_min })
    } else if !v2.vol_cap.above(decimal::zero()) {
        Some(FaultV::VolCap)
    } else if !v2.dvr_floor.at_least(decimal::zero()) {
        Some(FaultV::DvrFloor)
    } else if !v2.edge_ref.above(decimal::zero()) {
        Some(FaultV::EdgeRef)
    } else if v2.min_ttl_s <= 0 {
        Some(FaultV::MinTtl)
    } else if v2.recal_capacity < 1 {
        Some(FaultV::RecalCapacity)
    } else {
        None
    }
}

/// What is wrong with the sections other than the cells and the second strategy.
pub open spec fn base_fault(c: Config) -> Option<FaultV> {
    if c.mode.default@ != "paper"@ && c.mode.default@ != "live"@ {
        Some(FaultV::Mode { mode: c.mode.default@ })
    } else if !c.stakes.base_usdc.above(decimal::zero()) {
        Some(FaultV::BaseUsdc)
    } else if !c.stakes.max_position_usdc.reaches(c.stakes.base_usdc) {
        Some(FaultV::MaxPosition { max: c.stakes.max_position_usdc, base: c.stakes.base_usdc })
    } else if c.stakes.max_open_positions < 1 {
        Some(FaultV::MaxOpenPositions)
    } else if !c.stakes.paper_initial_usdc.above(decimal::zero()) {
        Some(FaultV::PaperInitial)
    } else if !(c.filters.h2_lower.at_least(decimal::zero()) && c.filters.h2_lower.at_most(
        decimal::one(),
    )) {
        Some(FaultV::H2LowerRange)
    } else if !(c.filters.h2_upper.at_least(decimal::zero()) && c.filters.h2_upper.at_most(
        decimal::one(),
    )) {
        Some(FaultV::H2UpperRange)
    } else if !c.filters.h2_lower.precedes(c.filters.h2_upper) {
        Some(FaultV::H2Order { lower: c.filters.h2_lower, upper: c.filters.h2_upper })
    } else if c.markets.intervals@.len() == 0 {
        Some(FaultV::NoIntervals)
    } else if c.markets.assets@.len() == 0 {
        Some(FaultV::NoAssets)
    } else if c.gates.book_freshness_ms == 0 {
        Some(FaultV::BookFreshness)
    } else if !c.gates.balance_min_usdc.at_least(decimal::zero()) {
        Some(FaultV::BalanceMin)
    } else if c.connections.reconnect_max_attempts_per_60s < 1 {
        Some(FaultV::ReconnectAttempts)
    } else if c.connections.connect_timeout_s < 1 {
        Some(FaultV::ConnectTimeout)
    } else if c.connections.polymarket_gamma_url@.len() == 0 {
        Some(FaultV::GammaUrl)
    } else if c.markets.discovery_lookahead < 0 {
        Some(FaultV::DiscoveryLookahead)
    } else if c.markets.discovery_refresh_secs < 1 {
        Some(FaultV::DiscoveryRefresh)
    } else {
        None
    }
}

/// The first of two faults.
pub open spec fn or_fault(a: Option<FaultV>, b: Option<FaultV>) -> Option<FaultV> {
    match a {
        Some(f) => Some(f),
        None => b,
    }
}

/// The first rule that a configuration breaks.
pub open spec fn fault_of(c: Config) -> Option<FaultV> {
    or_fault(
        base_fault(c),
        or_fault(
            exits_fault(c.exits.cells@, c.markets.assets@, c.markets.intervals@, 0),
            or_fault(
                disabled_fault(
                    c.markets.disabled_cells@,
                    c.markets.assets@,
                    c.markets.intervals@,
                    0,
                ),
                or_fault(
                    overlap_fault(c.markets.disabled_cells@, c.exits.cells@, 0),
                    v2_fault(c.v2),
                ),
            ),
        ),
    )
}

impl Config {
    fn check_base(&self) -> (r: Option<ConfigError>)
        ensures
            r is Some <==> base_fault(*self) is Some,
            r matches Some(e) ==> base_fault(*self) == Some(e@),
    {
        let mode = self.mode.default.as_str();
        if !same_text(mode, "paper") && !same_text(mode, "live") {
            return Some(ConfigError::Mode { mode: copy_text(mode) });
        }
        if !self.stakes.base_usdc.is_above(Dec::zero()) {
            return Some(ConfigError::BaseUsdc);
        }
        if !self.stakes.max_position_usdc.is_reaching(self.stakes.base_usdc) {
            return Some(
                ConfigError::MaxPosition {
                    max: self.stakes.max_position_usdc,
                    base: self.stakes.base_usdc,
                },
            );
        }
        if self.stakes.max_open_positions < 1 {
            return Some(ConfigError::MaxOpenPositions);
        }
        if !self.stakes.paper_initial_usdc.is_above(Dec::zero()) {
            return Some(ConfigError::PaperInitial);
        }
        let lower = self.filters.h2_lower;
        let upper = self.filters.h2_upper;
        if !(lower.is_at_least(Dec::zero()) && lower.is_at_most(Dec::one())) {
            return Some(ConfigError::H2LowerRange);
        }
        if !(upper.is_at_least(Dec::zero()) && upper.is_at_most(Dec::one())) {
            return Some(ConfigError::H2UpperRange);
        }
        if !lower.is_preceding(upper) {
            return Some(ConfigError::H2Order { lower, upper });
        }
        if self.markets.intervals.len() == 0 {
            return Some(ConfigError::NoIntervals);
        }
        if self.markets.assets.len() == 0 {
            return Some(ConfigError::NoAssets);
        }
        if self.gates.book_freshness_ms == 0 {
            return Some(ConfigError::BookFreshness);
        }
        if !self.gates.balance_min_usdc.is_at_least(Dec::zero()) {
            return Some(ConfigError::BalanceMin);
        }
        if self.connections.reconnect_max_attempts_per_60s < 1 {
            return Some(ConfigError::ReconnectAttempts);
        }
        if self.connections.connect_timeout_s < 1 {
            return Some(ConfigError::ConnectTimeout);
        }
        if self.connections.polymarket_gamma_url.as_str().is_empty() {
            return Some(ConfigError::GammaUrl);
        }
        if self.markets.discovery_lookahead < 0 {
            return Some(ConfigError::DiscoveryLookahead);
        }
        if self.markets.discovery_refresh_secs < 1 {
            return Some(ConfigError::DiscoveryRefresh);
        }
        None
    }

    fn check_exits(&self) -> (r: Option<ConfigError>)
        ensures
            r is Some <==> exits_fault(
                self.exits.cells@,
                self.markets.assets@,
                self.markets.intervals@,
                0,
            ) is Some,
            r matches Some(e) ==> exits_fault(
                self.exits.cells@,
                self.markets.assets@,
                self.markets.intervals@,
                0,
            ) == Some(e@),
    {
        let mut i: usize = 0;
        while i < self.exits.cells.len()
            invariant
                i <= self.exits.cells.len(),
                exits_fault(self.exits.cells@, self.markets.assets@, self.markets.intervals@, 0)
                    == exits_fault(
                    self.exits.cells@,
                    self.markets.assets@,
                    self.markets.intervals@,
                    i as int,
                ),
            decreases self.exits.cells.len() - i,
        {
            let entry = &self.exits.cells[i];
            let cell = entry.cell.as_str();
            match check_name(cell, &self.markets.assets, &self.markets.intervals) {
                Some(fault) => {
                    return Some(
                        ConfigError::Cell {
                            layer: CellLayer::ExitsCells,
                            cell: copy_text(cell),
                            fault,
                        },
                    );
                },
                None => {},
            }
            match check_rule(cell, entry.rule) {
                Some(e) => {
                    return Some(e);
                },
                None => {},
            }
            i += 1;
        }
        None
    }

    fn check_disabled(&self) -> (r: Option<ConfigError>)
        ensures
            r is Some <==> disabled_fault(
                self.markets.disabled_cells@,
                self.markets.assets@,
                self.markets.intervals@,
                0,
            ) is Some,
            r matches Some(e) ==> disabled_fault(
                self.markets.disabled_cells@,
                self.markets.assets@,
                self.markets.intervals@,
                0,
            ) == Some(e@),
    {
        let mut i: usize = 0;
        while i < self.markets.disabled_cells.len()
            invariant
                i <= self.markets.disabled_cells.len(),
                disabled_fault(
                    self.markets.disabled_cells@,
                    self.markets.assets@,
                    self.markets.intervals@,
                    0,
                ) == disabled_fault(
                    self.markets.disabled_cells@,
                    self.markets.assets@,
                    self.markets.intervals@,
                    i as int,
                ),
            decreases self.markets.disabled_cells.len() - i,
        {
            let cell = self.markets.disabled_cells[i].as_str();
            match check_name(cell, &self.markets.assets, &self.markets.intervals) {
                Some(fault) => {
                    return Some(
                        ConfigError::Cell {
                            layer: CellLayer::DisabledCells,
                            cell: copy_text(cell),
                            fault,
                        },
                    );
                },
                None => {},
            }
            i += 1;
        }
        None
    }

    fn check_overlap(&self) -> (r: Option<ConfigError>)
        ensures
            r is Some <==> overlap_fault(self.markets.disabled_cells@, self.exits.cells@, 0) is Some,
            r matches Some(e) ==> overlap_fault(
                self.markets.disabled_cells@,
                self.exits.cells@,
                0,
            ) == Some(e@),
    {
        let mut i: usize = 0;
        while i < self.markets.disabled_cells.len()
            invariant
                i <= self.markets.disabled_cells.len(),
                overlap_fault(self.markets.disabled_cells@, self.exits.cells@, 0) == overlap_fault(
                    self.markets.disabled_cells@,
                    self.exits.cells@,
                    i as int,
                ),
            decreases self.markets.disabled_cells.len() - i,
        {
            let cell = self.markets.disabled_cells[i].as_str();
            let rule = self.exits.get(cell);
            if rule.is_some() {
                return Some(ConfigError::RetiredWithRule { cell: copy_text(cell) });
            }
            i += 1;
        }
        None
    }

    fn check_v2(&self) -> (r: Option<ConfigError>)
        ensures
            r is Some <==> v2_fault(self.v2) is Some,
            r matches Some(e) ==> v2_fault(self.v2) == Some(e@),
    {
        if !self.v2.enabled {
            return None;
        }
        let edge_min = self.v2.edge_min;
        if !(edge_min.is_finite() && edge_min.is_above(Dec::zero()) && edge_min.is_below(
            Dec::one(),
        )) {
            return Some(ConfigError::EdgeMin { edge_min });
        }
        if !self.v2.vol_cap.is_above(Dec::zero()) {
            return Some(ConfigError::VolCap);
        }
        if !self.v2.dvr_floor.is_at_least(Dec::zero()) {
            return Some(ConfigError::DvrFloor);
        }
        if !self.v2.edge_ref.is_above(Dec::zero()) {
            return Some(ConfigError::EdgeRef);
        }
        if self.v2.min_ttl_s <= 0 {
            return Some(ConfigError::MinTtl);
        }
        if self.v2.recal_capacity < 1 {
            return Some(ConfigError::RecalCapacity);
        }
        None
    }

    /// Checks the configuration and refuses the first rule that is broken: first
    /// the sections one by one, then the exit rules, then the retired cells, then
    /// that no cell is both retired and given an exit rule, then the second
    /// strategy.
    pub fn validate(&self) -> (r: Result<(), ConfigError>)
        ensures
            r is Ok <==> fault_of(*self) is None,
            r matches Err(e) ==> fault_of(*self) == Some(e@),
    {
        if let Some(e) = self.check_base() {
            return Err(e);
        }
        if let Some(e) = self.check_exits() {
            return Err(e);
        }
        if let Some(e) = self.check_disabled() {
            return Err(e);
        }
        if let Some(e) = self.check_overlap() {
            return Err(e);
        }
        if let Some(e) = self.check_v2() {
            return Err(e);
        }
        Ok(())
    }
}

/// A cell named in a configuration that was accepted is `ASSET:INTERVAL` with a
/// configured asset and a configured interval, in both lists.
pub proof fn law_accepted_cells_exist(c: Config)
    requires
        fault_of(c) is None,
    ensures
        forall|i: int|
            0 <= i < c.exits.cells@.len() ==> name_fault(
                (#[trigger] c.exits.cells@[i]).cell@,
                c.markets.assets@,
                c.markets.intervals@,
            ) is None && rule_fault(c.exits.cells@[i].cell@, c.exits.cells@[i].rule) is None,
        forall|i: int|
            0 <= i < c.markets.disabled_cells@.len() ==> name_fault(
                (#[trigger] c.markets.disabled_cells@[i])@,
                c.markets.assets@,
                c.markets.intervals@,
            ) is None,
{
    lemma_exits_from(c, 0);
    lemma_disabled_from(c, 0);
}

proof fn lemma_exits_from(c: Config, from: int)
    requires
        0 <= from,
        exits_fault(c.exits.cells@, c.markets.assets@, c.markets.intervals@, from) is None,
    ensures
        forall|i: int|
            from <= i < c.exits.cells@.len() ==> name_fault(
                (#[trigger] c.exits.cells@[i]).cell@,
                c.markets.assets@,
                c.markets.intervals@,
            ) is None && rule_fault(c.exits.cells@[i].cell@, c.exits.cells@[i].rule) is None,
    decreases c.exits.cells@.len() - from,
{
    if from < c.exits.cells@.len() {
        lemma_exits_from(c, from + 1);
    }
}

proof fn lemma_disabled_from(c: Config, from: int)
    requires
        0 <= from,
        disabled_fault(
            c.markets.disabled_cells@,
            c.markets.assets@,
            c.markets.intervals@,
            from,
        ) is None,
    ensures
        forall|i: int|
            from <= i < c.markets.disabled_cells@.len() ==> name_fault(
                (#[trigger] c.markets.disabled_cells@[i])@,
                c.markets.assets@,
                c.markets.intervals@,
            ) is None,
    decreases c.markets.disabled_cells@.len() - from,
{
    if from < c.markets.disabled_cells@.len() {
        lemma_disabled_from(c, from + 1);
    }
}

/// In a configuration that was accepted no retired cell has an exit rule.
pub proof fn law_retired_cells_have_no_rule(c: Config)
    requires
        fault_of(c) is None,
    ensures
        forall|i: int|
            0 <= i < c.markets.disabled_cells@.len() ==> rule_of(
                c.exits.cells@,
                (#[trigger] c.markets.disabled_cells@[i])@,
            ) is None,
{
    lemma_overlap_from(c, 0);
}

proof fn lemma_overlap_from(c: Config, from: int)
    requires
        0 <= from,
        overlap_fault(c.markets.disabled_cells@, c.exits.cells@, from) is None,
    ensures
        forall|i: int|
            from <= i < c.markets.disabled_cells@.len() ==> rule_of(
                c.exits.cells@,
                (#[trigger] c.markets.disabled_cells@[i])@,
            ) is None,
    decreases c.markets.disabled_cells@.len() - from,
{
    if from < c.markets.disabled_cells@.len() {
        lemma_overlap_from(c, from + 1);
    }
}

/// `["A", "B"]`.
pub open spec fn list_text(names: Seq<String>) -> Seq<char> {
    "["@ + list_items(names) + "]"@
}

pub open spec fn list_items(names: Seq<String>) -> Seq<char>
    decreases names.len(),
{
    if names.len() == 0 {
        Seq::empty()
    } else if names.len() == 1 {
        "\""@ + names[0]@ + "\""@
    } else {
        list_items(names.drop_last()) + ", \""@ + names.last()@ + "\""@
    }
}

fn push_list(out: &mut String, names: &Vec<String>)
    ensures
        final(out)@ == old(out)@ + list_text(names@),
{
    let ghost start = out@;
    push_str(out, "[");
    let mut i: usize = 0;
    assert(names@.take(0) =~= Seq::empty());
    assert(out@ =~= start + "["@ + list_items(names@.take(0)));
    while i < names.len()
        invariant
            i <= names.len(),
            out@ == start + "["@ + list_items(names@.take(i as int)),
        decreases names.len() - i,
    {
        assert(names@.take(i + 1).drop_last() =~= names@.take(i as int));
        if i > 0 {
            push_str(out, ", \"");
        } else {
            push_str(out, "\"");
        }
        push_str(out, names[i].as_str());
        push_str(out, "\"");
        assert(out@ =~= start + "["@ + list_items(names@.take(i + 1)));
        i += 1;
    }
    assert(names@.take(names@.len() as int) =~= names@);
    push_str(out, "]");
    assert(out@ =~= start + list_text(names@));
}

impl CellLayer {
    pub open spec fn name(self) -> Seq<char> {
        match self {
            CellLayer::ExitsCells => "exits.cells"@,
            CellLayer::DisabledCells => "markets.disabled_cells"@,
        }
    }

    fn as_str(self) -> (r: &'static str)
        ensures
            r@ == self.name(),
    {
        match self {
            CellLayer::ExitsCells => "exits.cells",
            CellLayer::DisabledCells => "markets.disabled_cells",
        }
    }
}

/// What is said of a badly named cell.
pub open spec fn cell_message(
    layer: CellLayer,
    cell: Seq<char>,
    fault: CellFaultV,
    markets: MarketsConfig,
) -> Seq<char> {
    match fault {
        CellFaultV::Parts { n } => layer.name() + ": '"@ + cell
            + "' must be '<ASSET>:<INTERVAL>' (one colon, exactly two parts); got "@
            + decimal::digits(n) + " parts"@,
        CellFaultV::EmptyHalf => layer.name() + ": '"@ + cell
            + "' has an empty asset or interval half"@,
        CellFaultV::UnknownAsset { asset } => layer.name() + ": unknown asset '"@ + asset + "' in '"@
            + cell + "' (not in markets.assets = "@ + list_text(markets.assets@) + ")"@,
        CellFaultV::UnknownInterval { interval } => layer.name() + ": unknown interval '"@ + interval
            + "' in '"@ + cell + "' (not in markets.intervals = "@ + list_text(markets.intervals@)
            + ")"@,
    }
}

/// What is said of the parameter of a cell's rule.
pub open spec fn rule_message(cell: Seq<char>, rule: Seq<char>, value: Seq<char>) -> Seq<char> {
    "exits.cells['"@ + cell + "']: "@ + rule + value
}

/// What is said of a broken rule.
pub open spec fn fault_message(f: FaultV, markets: MarketsConfig) -> Seq<char> {
    match f {
        FaultV::Mode { mode } => "mode.default must be 'paper' or 'live', got '"@ + mode + "'"@,
        FaultV::BaseUsdc => "stakes.base_usdc must be > 0"@,
        FaultV::MaxPosition { max, base } => "stakes.max_position_usdc ("@ + max.text()
            + ") must be >= base_usdc ("@ + base.text() + ")"@,
        FaultV::MaxOpenPositions => "stakes.max_open_positions must be >= 1"@,
        FaultV::PaperInitial => "stakes.paper_initial_usdc must be > 0"@,
        FaultV::H2LowerRange => "filters.h2_lower must be in [0, 1]"@,
        FaultV::H2UpperRange => "filters.h2_upper must be in [0, 1]"@,
        FaultV::H2Order { lower, upper } => "filters.h2_lower ("@ + lower.text()
            + ") must be < h2_upper ("@ + upper.text() + ")"@,
        FaultV::NoIntervals => "markets.intervals must not be empty"@,
        FaultV::NoAssets => "markets.assets must not be empty"@,
        FaultV::BookFreshness => "gates.book_freshness_ms must be > 0"@,
        FaultV::BalanceMin => "gates.balance_min_usdc must be >= 0"@,
        FaultV::ReconnectAttempts => "connections.reconnect_max_attempts_per_60s must be >= 1"@,
        FaultV::ConnectTimeout => "connections.connect_timeout_s must be >= 1"@,
        FaultV::GammaUrl => "connections.polymarket_gamma_url must not be empty"@,
        FaultV::DiscoveryLookahead => "markets.discovery_lookahead must be >= 0"@,
        FaultV::DiscoveryRefresh => "markets.discovery_refresh_secs must be >= 1"@,
        FaultV::Cell { layer, cell, fault } => cell_message(layer, cell, fault, markets),
        FaultV::F6YSec { cell, y_sec } => rule_message(
            cell,
            "f6_only.y_sec must be > 0, got "@,
            text::signed_digits(y_sec as int),
        ),
        FaultV::SmartXPct { cell, x_pct } => rule_message(
            cell,
            "smart.x_pct must be in (0.0, 100.0], got "@,
            x_pct.text(),
        ),
        FaultV::SmartYSec { cell, y_sec } => rule_message(
            cell,
            "smart.y_sec must be > 0, got "@,
            text::signed_digits(y_sec as int),
        ),
        FaultV::B3Delta { cell, delta } => rule_message(
            cell,
            "b3_maker.delta must be in (0.0, 1.0), got "@,
            delta.text(),
        ),
        FaultV::RetiredWithRule { cell } => "cell '"@ + cell
            + "' is in markets.disabled_cells AND exits.cells -- a cell cannot be both retired (never opens) and have an exit rule (how to close). Remove it from one: retire it (keep in disabled_cells, drop from exits.cells) OR operate it (drop from disabled_cells, keep the exit rule)."@,
        FaultV::EdgeMin { edge_min } => "v2.edge_min must be in (0.0, 1.0), got "@ + edge_min.text(),
        FaultV::VolCap => "v2.vol_cap must be > 0"@,
        FaultV::DvrFloor => "v2.dvr_floor must be >= 0"@,
        FaultV::EdgeRef => "v2.edge_ref must be > 0"@,
        FaultV::MinTtl => "v2.min_ttl_s must be > 0"@,
        FaultV::RecalCapacity => "v2.recal_capacity must be >= 1"@,
    }
}

fn push_cell_message(
    out: &mut String,
    layer: CellLayer,
    cell: &str,
    fault: &CellFault,
    markets: &MarketsConfig,
)
    ensures
        final(out)@ == old(out)@ + cell_message(layer, cell@, fault@, *markets),
{
    let ghost start = out@;
    push_str(out, layer.as_str());
    match fault {
        CellFault::Parts { n } => {
            push_str(out, ": '");
            push_str(out, cell);
            push_str(
                out,
                "' must be '<ASSET>:<INTERVAL>' (one colon, exactly two parts); got ",
            );
            text::push_number(out, *n as u64);
            push_str(out, " parts");
        },
        CellFault::EmptyHalf => {
            push_str(out, ": '");
            push_str(out, cell);
            push_str(out, "' has an empty asset or interval half");
        },
        CellFault::UnknownAsset { asset } => {
            push_str(out, ": unknown asset '");
            push_str(out, asset.as_str());
            push_str(out, "' in '");
            push_str(out, cell);
            push_str(out, "' (not in markets.assets = ");
            push_list(out, &markets.assets);
            push_str(out, ")");
        },
        CellFault::UnknownInterval { interval } => {
            push_str(out, ": unknown interval '");
            push_str(out, interval.as_str());
            push_str(out, "' in '");
            push_str(out, cell);
            push_str(out, "' (not in markets.intervals = ");
            push_list(out, &markets.intervals);
            push_str(out, ")");
        },
    }
    assert(out@ =~= start + cell_message(layer, cell@, fault@, *markets));
}

fn push_rule_start(out: &mut String, cell: &str, rule: &str)
    ensures
        final(out)@ == old(out)@ + rule_message(cell@, rule@, Seq::empty()),
{
    let ghost start = out@;
    push_str(out, "exits.cells['");
    push_str(out, cell);
    push_str(out, "']: ");
    push_str(out, rule);
    assert(out@ =~= start + rule_message(cell@, rule@, Seq::empty()));
}

impl ConfigError {
    /// What is wrong, in words. `markets` is the section that the cells were held
    /// against.
    #[must_use]
    pub fn message(&self, markets: &MarketsConfig) -> (r: String)
        ensures
            r@ == fault_message(self@, *markets),
    {
        let mut out = String::new();
        match self {
            ConfigError::Mode { mode } => {
                push_str(&mut out, "mode.default must be 'paper' or 'live', got '");
                push_str(&mut out, mode.as_str());
                push_str(&mut out, "'");
            },
            ConfigError::BaseUsdc => push_str(&mut out, "stakes.base_usdc must be > 0"),
            ConfigError::MaxPosition { max, base } => {
                push_str(&mut out, "stakes.max_position_usdc (");
                max.push_to(&mut out);
                push_str(&mut out, ") must be >= base_usdc (");
                base.push_to(&mut out);
                push_str(&mut out, ")");
            },
            ConfigError::MaxOpenPositions => push_str(
                &mut out,
                "stakes.max_open_positions must be >= 1",
            ),
            ConfigError::PaperInitial => push_str(
                &mut out,
                "stakes.paper_initial_usdc must be > 0",
            ),
            ConfigError::H2LowerRange => push_str(&mut out, "filters.h2_lower must be in [0, 1]"),
            ConfigError::H2UpperRange => push_str(&mut out, "filters.h2_upper must be in [0, 1]"),
            ConfigError::H2Order { lower, upper } => {
                push_str(&mut out, "filters.h2_lower (");
                lower.push_to(&mut out);
                push_str(&mut out, ") must be < h2_upper (");
                upper.push_to(&mut out);
                push_str(&mut out, ")");
            },
            ConfigError::NoIntervals => push_str(&mut out, "markets.intervals must not be empty"),
            ConfigError::NoAssets => push_str(&mut out, "markets.assets must not be empty"),
            ConfigError::BookFreshness => push_str(
                &mut out,
                "gates.book_freshness_ms must be > 0",
            ),
            ConfigError::BalanceMin => push_str(&mut out, "gates.balance_min_usdc must be >= 0"),
            ConfigError::ReconnectAttempts => push_str(
                &mut out,
                "connections.reconnect_max_attempts_per_60s must be >= 1",
            ),
            ConfigError::ConnectTimeout => push_str(
                &mut out,
                "connections.connect_timeout_s must be >= 1",
            ),
            ConfigError::GammaUrl => push_str(
                &mut out,
                "connections.polymarket_gamma_url must not be empty",
            ),
            ConfigError::DiscoveryLookahead => push_str(
                &mut out,
                "markets.discovery_lookahead must be >= 0",
            ),
            ConfigError::DiscoveryRefresh => push_str(
                &mut out,
                "markets.discovery_refresh_secs must be >= 1",
            ),
            ConfigError::Cell { layer, cell, fault } => push_cell_message(
                &mut out,
                *layer,
                cell.as_str(),
                fault,
                markets,
            ),
            ConfigError::F6YSec { cell, y_sec } => {
                push_rule_start(&mut out, cell.as_str(), "f6_only.y_sec must be > 0, got ");
                text::push_signed(&mut out, *y_sec);
            },
            ConfigError::SmartXPct { cell, x_pct } => {
                push_rule_start(
                    &mut out,
                    cell.as_str(),
                    "smart.x_pct must be in (0.0, 100.0], got ",
                );
                x_pct.push_to(&mut out);
            },
            ConfigError::SmartYSec { cell, y_sec } => {
                push_rule_start(&mut out, cell.as_str(), "smart.y_sec must be > 0, got ");
                text::push_signed(&mut out, *y_sec);
            },
            ConfigError::B3Delta { cell, delta } => {
                push_rule_start(
                    &mut out,
                    cell.as_str(),
                    "b3_maker.delta must be in (0.0, 1.0), got ",
                );
                delta.push_to(&mut out);
            },
            ConfigError::RetiredWithRule { cell } => {
                push_str(&mut out, "cell '");
                push_str(&mut out, cell.as_str());
                push_str(
                    &mut out,
                    "' is in markets.disabled_cells AND exits.cells -- a cell cannot be both retired (never opens) and have an exit rule (how to close). Remove it from one: retire it (keep in disabled_cells, drop from exits.cells) OR operate it (drop from disabled_cells, keep the exit rule).",
                );
            },
            ConfigError::EdgeMin { edge_min } => {
                push_str(&mut out, "v2.edge_min must be in (0.0, 1.0), got ");
                edge_min.push_to(&mut out);
            },
            ConfigError::VolCap => push_str(&mut out, "v2.vol_cap must be > 0"),
            ConfigError::DvrFloor => push_str(&mut out, "v2.dvr_floor must be >= 0"),
            ConfigError::EdgeRef => push_str(&mut out, "v2.edge_ref must be > 0"),
            ConfigError::MinTtl => push_str(&mut out, "v2.min_ttl_s must be > 0"),
            ConfigError::RecalCapacity => push_str(&mut out, "v2.recal_capacity must be >= 1"),
        }
        assert(out@ =~= fault_message(self@, *markets));
        out
    }
}

/// The second strategy, for intervals of five minutes.
#[derive(Debug, Clone)]
pub struct V2Config {
    pub enabled: bool,
    pub edge_min: Num,
    pub vol_cap: Num,
    pub dvr_floor: Num,
    pub edge_ref: Num,
    pub z_min: Num,
    pub min_ttl_s: i64,
    pub max_ttl_s: i64,
    pub vol_lookback_s: i64,
    pub frozen_tape_secs: i64,
    pub book_unmoved_gate: bool,
    pub reentry_enabled: bool,
    pub reentry_same_enabled: bool,
    pub reentry_opposite_enabled: bool,
    pub burst_lo_bps: Num,
    pub burst_hi_bps: Num,
    pub burst_mult_lo: Num,
    pub burst_mult_hi: Num,
    pub tickage_mult: Num,
    pub stake_mult_cap: Num,
    pub cal_z: Vec<Num>,
    pub cal_w: Vec<Num>,
    pub canary_enabled: bool,
    pub book_gate_strict: bool,
    pub disp_floor_bps: Num,
    pub vol60_floor: Num,
    pub min_ask: Num,
    pub recal_capacity: usize,
    pub recal_warmup: usize,
    pub recal_path: String,
    pub tick_driven: bool,
    pub tick_throttle_ms: i64,
    pub inval_stop_enabled: bool,
    pub inval_stop_dry_run: bool,
    pub stop_bid_hi: Num,
    pub stop_bid_lo: Num,
    pub i15m: Interval15mCfg,
}

/// The second strategy, for intervals of fifteen minutes.
#[derive(Debug, Clone)]
pub struct Interval15mCfg {
    pub enabled: bool,
    pub z_min: Num,
    pub edge_min: Num,
    pub max_ask: Num,
    pub min_ask: Num,
    pub late_entry_max_ttl_s: i64,
    pub recal_path: String,
    pub recal_capacity: usize,
    pub recal_warmup: usize,
    pub vol_cap: Num,
    pub dvr_floor: Num,
    pub edge_ref: Num,
    pub min_ttl_s: i64,
    pub vol_lookback_s: i64,
    pub book_unmoved_gate: bool,
    pub cal_z: Vec<Num>,
    pub cal_w: Vec<Num>,
    pub disp_floor_bps: Num,
    pub vol60_floor: Num,
}

/// The parameters by which the second strategy decides on one interval.
#[derive(Debug, Clone)]
pub struct IntervalStrat {
    pub enabled: bool,
    pub z_min: Num,
    pub edge_min: Num,
    pub vol_cap: Num,
    pub dvr_floor: Num,
    pub edge_ref: Num,
    pub min_ttl_s: i64,
    pub late_entry_max_ttl_s: i64,
    pub max_ask: Num,
    pub min_ask: Num,
    pub cal_z: Vec<Num>,
    pub cal_w: Vec<Num>,
    pub recal_bias: Num,
    pub base_usd: Num,
    pub max_pos_usd: Num,
    pub vol_lookback_s: i64,
    pub frozen_tape_secs: i64,
    pub disp_floor_bps: Num,
    pub vol60_floor: Num,
}

fn copy_nums(v: &Vec<Num>) -> (r: Vec<Num>)
    ensures
        r@ == v@,
{
    let mut out: Vec<Num> = Vec::new();
    let mut i: usize = 0;
    while i < v.len()
        invariant
            i <= v.len(),
            out@ == v@.take(i as int),
        decreases v.len() - i,
    {
        assert(v@.take(i + 1) =~= v@.take(i as int).push(v@[i as int]));
        out.push(v[i]);
        i += 1;
    }
    assert(v@.take(v@.len() as int) =~= v@);
    out
}

/// The number is the given decimal.
pub open spec fn is_num(n: Num, m: int, s: nat) -> bool {
    n matches Num::Finite(d) && d@ == decimal::dec(m, s)
}

fn num(m: i64, s: u32) -> (r: Num)
    requires
        s <= decimal::MAX_SCALE,
    ensures
        is_num(r, m as int, s as nat),
{
    Num::Finite(Dec::new(m, s))
}

impl V2Config {
    /// The parameters of the five-minute interval: no cap on the ask, and the
    /// amounts still to be set.
    #[must_use]
    pub fn strat_5m(&self, recal_bias: Num) -> (r: IntervalStrat)
        ensures
            r.enabled == self.enabled,
            r.z_min == self.z_min && r.edge_min == self.edge_min && r.vol_cap == self.vol_cap,
            r.dvr_floor == self.dvr_floor && r.edge_ref == self.edge_ref,
            r.min_ttl_s == self.min_ttl_s && r.late_entry_max_ttl_s == self.max_ttl_s,
            is_num(r.max_ask, 0, 0) && r.min_ask == self.min_ask,
            r.cal_z@ == self.cal_z@ && r.cal_w@ == self.cal_w@ && r.recal_bias == recal_bias,
            is_num(r.base_usd, 0, 0) && is_num(r.max_pos_usd, 0, 0),
            r.vol_lookback_s == self.vol_lookback_s && r.frozen_tape_secs == self.frozen_tape_secs,
            r.disp_floor_bps == self.disp_floor_bps && r.vol60_floor == self.vol60_floor,
    {
        IntervalStrat {
            enabled: self.enabled,
            z_min: self.z_min,
            edge_min: self.edge_min,
            vol_cap: self.vol_cap,
            dvr_floor: self.dvr_floor,
            edge_ref: self.edge_ref,
            min_ttl_s: self.min_ttl_s,
            late_entry_max_ttl_s: self.max_ttl_s,
            max_ask: num(0, 0),
            min_ask: self.min_ask,
            cal_z: copy_nums(&self.cal_z),
            cal_w: copy_nums(&self.cal_w),
            recal_bias,
            base_usd: num(0, 0),
            max_pos_usd: num(0, 0),
            vol_lookback_s: self.vol_lookback_s,
            frozen_tape_secs: self.frozen_tape_secs,
            disp_floor_bps: self.disp_floor_bps,
            vol60_floor: self.vol60_floor,
        }
    }

    /// The defaults, with the calibration curves of the two intervals.
    pub fn with_curves(
        cal_z: Vec<Num>,
        cal_w: Vec<Num>,
        cal_z_15m: Vec<Num>,
        cal_w_15m: Vec<Num>,
    ) -> (r: V2Config)
        ensures
            !r.enabled && r.book_unmoved_gate && r.reentry_enabled && r.reentry_same_enabled
                && r.reentry_opposite_enabled && r.canary_enabled && r.inval_stop_dry_run,
            !r.tick_driven && !r.inval_stop_enabled && !r.book_gate_strict,
            is_num(r.edge_min, 4, 2) && is_num(r.vol_cap, 1, 0) && is_num(r.dvr_floor, 2, 1),
            is_num(r.edge_ref, 8, 2) && is_num(r.z_min, 45, 2) && is_num(r.min_ask, 30, 2),
            r.min_ttl_s == 30 && r.max_ttl_s == 0 && r.vol_lookback_s == 60 && r.frozen_tape_secs
                == 0,
            is_num(r.burst_lo_bps, 3, 0) && is_num(r.burst_hi_bps, 8, 0),
            is_num(r.burst_mult_lo, 2, 0) && is_num(r.burst_mult_hi, 3, 0),
            is_num(r.tickage_mult, 125, 2) && is_num(r.stake_mult_cap, 3, 0),
            r.cal_z@ == cal_z@ && r.cal_w@ == cal_w@,
            is_num(r.disp_floor_bps, 0, 0) && is_num(r.vol60_floor, 0, 0),
            r.recal_capacity == 300 && r.recal_warmup == 50 && r.recal_path@
                == "data/v2/recal.json"@,
            r.tick_throttle_ms == 200,
            is_num(r.stop_bid_hi, 50, 2) && is_num(r.stop_bid_lo, 30, 2),
            r.i15m.is_default(cal_z_15m@, cal_w_15m@),
    {
        V2Config {
            enabled: false,
            edge_min: num(4, 2),
            vol_cap: num(1, 0),
            dvr_floor: num(2, 1),
            edge_ref: num(8, 2),
            z_min: num(45, 2),
            min_ttl_s: 30,
            max_ttl_s: 0,
            vol_lookback_s: 60,
            frozen_tape_secs: 0,
            book_unmoved_gate: true,
            reentry_enabled: true,
            reentry_same_enabled: true,
            reentry_opposite_enabled: true,
            burst_lo_bps: num(3, 0),
            burst_hi_bps: num(8, 0),
            burst_mult_lo: num(2, 0),
            burst_mult_hi: num(3, 0),
            tickage_mult: num(125, 2),
            stake_mult_cap: num(3, 0),
            cal_z,
            cal_w,
            canary_enabled: true,
            book_gate_strict: false,
            disp_floor_bps: num(0, 0),
            vol60_floor: num(0, 0),
            min_ask: num(30, 2),
            recal_capacity: 300,
            recal_warmup: 50,
            recal_path: copy_text("data/v2/recal.json"),
            tick_driven: false,
            tick_throttle_ms: 200,
            inval_stop_enabled: false,
            inval_stop_dry_run: true,
            stop_bid_hi: num(50, 2),
            stop_bid_lo: num(30, 2),
            i15m: Interval15mCfg::with_curves(cal_z_15m, cal_w_15m),
        }
    }
}

impl Interval15mCfg {
    /// The parameters of the fifteen-minute interval: on only where the whole
    /// strategy is on, and never with the frozen-tape gate.
    #[must_use]
    pub fn strat(&self, master_enabled: bool, recal_bias: Num) -> (r: IntervalStrat)
        ensures
            r.enabled == (master_enabled && self.enabled),
            r.z_min == self.z_min && r.edge_min == self.edge_min && r.vol_cap == self.vol_cap,
            r.dvr_floor == self.dvr_floor && r.edge_ref == self.edge_ref,
            r.min_ttl_s == self.min_ttl_s && r.late_entry_max_ttl_s == self.late_entry_max_ttl_s,
            r.max_ask == self.max_ask && r.min_ask == self.min_ask,
            r.cal_z@ == self.cal_z@ && r.cal_w@ == self.cal_w@ && r.recal_bias == recal_bias,
            is_num(r.base_usd, 0, 0) && is_num(r.max_pos_usd, 0, 0),
            r.vol_lookback_s == self.vol_lookback_s && r.frozen_tape_secs == 0,
            r.disp_floor_bps == self.disp_floor_bps && r.vol60_floor == self.vol60_floor,
    {
        IntervalStrat {
            enabled: master_enabled && self.enabled,
            z_min: self.z_min,
            edge_min: self.edge_min,
            vol_cap: self.vol_cap,
            dvr_floor: self.dvr_floor,
            edge_ref: self.edge_ref,
            min_ttl_s: self.min_ttl_s,
            late_entry_max_ttl_s: self.late_entry_max_ttl_s,
            max_ask: self.max_ask,
            min_ask: self.min_ask,
            cal_z: copy_nums(&self.cal_z),
            cal_w: copy_nums(&self.cal_w),
            recal_bias,
            base_usd: num(0, 0),
            max_pos_usd: num(0, 0),
            vol_lookback_s: self.vol_lookback_s,
            frozen_tape_secs: 0,
            disp_floor_bps: self.disp_floor_bps,
            vol60_floor: self.vol60_floor,
        }
    }

    /// These are the defaults, with a calibration curve.
    pub open spec fn is_default(self, cal_z: Seq<Num>, cal_w: Seq<Num>) -> bool {
        &&& !self.enabled && self.book_unmoved_gate
        &&& is_num(self.z_min, 70, 2) && is_num(self.edge_min, 6, 2) && is_num(self.max_ask, 70, 2)
        &&& is_num(self.min_ask, 30, 2) && self.late_entry_max_ttl_s == 540
        &&& self.recal_path@ == "data/v2/recal_15m.json"@
        &&& self.recal_capacity == 300 && self.recal_warmup == 50
        &&& is_num(self.vol_cap, 1, 0) && is_num(self.dvr_floor, 2, 1) && is_num(self.edge_ref, 8, 2)
        &&& self.min_ttl_s == 30 && self.vol_lookback_s == 120
        &&& self.cal_z@ == cal_z && self.cal_w@ == cal_w
        &&& is_num(self.disp_floor_bps, 0, 0) && is_num(self.vol60_floor, 0, 0)
    }

    /// The defaults, with a calibration curve.
    pub fn with_curves(cal_z: Vec<Num>, cal_w: Vec<Num>) -> (r: Interval15mCfg)
        ensures
            r.is_default(cal_z@, cal_w@),
    {
        Interval15mCfg {
            enabled: false,
            z_min: num(70, 2),
            edge_min: num(6, 2),
            max_ask: num(70, 2),
            min_ask: num(30, 2),
            late_entry_max_ttl_s: 540,
            recal_path: copy_text("data/v2/recal_15m.json"),
            recal_capacity: 300,
            recal_warmup: 50,
            vol_cap: num(1, 0),
            dvr_floor: num(2, 1),
            edge_ref: num(8, 2),
            min_ttl_s: 30,
            vol_lookback_s: 120,
            book_unmoved_gate: true,
            cal_z,
            cal_w,
            disp_floor_bps: num(0, 0),
            vol60_floor: num(0, 0),
        }
    }
}

impl Default for DashboardConfig {
    fn default() -> (r: DashboardConfig)
        ensures
            !r.enabled && r.bind@ == "127.0.0.1"@ && r.port == 8787,
    {
        DashboardConfig { enabled: false, bind: copy_text("127.0.0.1"), port: 8787 }
    }
}

} // verus!
