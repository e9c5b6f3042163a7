//! The tokens that the strategy trades, and the recorded events that touch them.

use crate::backtest::record::{self, read_word, TokenSet};
use crate::json::{self, has_at, item_place, len_at, place_below, read_json, text_at};
use crate::text::same_text;
use serde_json::Value;
use vstd::prelude::*;

verus! {

/// The markets that the strategy trades.
pub open spec fn is_strategy_market(asset: Seq<char>, interval: Seq<char>) -> bool {
    (asset == "BTC"@ || asset == "ETH"@) && (interval == "5m"@ || interval == "15m"@)
}

/// Whether the strategy trades a market.
pub fn trades_market(asset: &str, interval: &str) -> (r: bool)
    ensures
        r == is_strategy_market(asset@, interval@),
{
    (same_text(asset, "BTC") || same_text(asset, "ETH")) && (same_text(interval, "5m") || same_text(
        interval,
        "15m",
    ))
}

/// The token is one of a strategy market in the line.
pub open spec fn is_strategy_token(m: Map<Seq<char>, json::Leaf>, token: Seq<char>) -> bool {
    &&& is_strategy_market(
        record::word_at(m, "/market/asset"@),
        record::word_at(m, "/market/interval"@),
    )
    &&& token.len() > 0
    &&& json::text_leaf(m, "/market/up_token_id"@) == Some(token) || json::text_leaf(
        m,
        "/market/down_token_id"@,
    ) == Some(token)
}

/// The token is one of a strategy market in the line, as it was recorded.
pub open spec fn is_token_in_line(line: Seq<char>, token: Seq<char>) -> bool {
    match json::leaves_in_text(line) {
        Some(m) => is_strategy_token(m, token),
        None => false,
    }
}

fn add_token(v: &Value, at: &str, tokens: &mut TokenSet)
    requires
        old(tokens).wf(),
    ensures
        final(tokens).wf(),
        forall|t: Seq<char>| #[trigger]
            final(tokens).has(t) == (old(tokens).has(t) || (t.len() > 0 && json::text_leaf(
                json::leaves(*v),
                at@,
            ) == Some(t))),
{
    match text_at(v, at) {
        Some(t) => {
            if t.as_str().is_empty() {
                proof {
                    assert(t@.len() == 0);
                }
            } else {
                tokens.insert(t);
            }
        },
        None => {},
    }
}

/// Adds the tokens of a line of the markets log.
pub fn add_strategy_tokens(line: &str, tokens: &mut TokenSet)
    requires
        old(tokens).wf(),
    ensures
        final(tokens).wf(),
        forall|t: Seq<char>| #[trigger]
            final(tokens).has(t) == (old(tokens).has(t) || is_token_in_line(line@, t)),
{
    match read_json(line) {
        Some(v) => {
            let asset = read_word(&v, "/market/asset");
            let interval = read_word(&v, "/market/interval");
            if trades_market(&asset, &interval) {
                add_token(&v, "/market/up_token_id", tokens);
                add_token(&v, "/market/down_token_id", tokens);
            }
        },
        None => {},
    }
}

/// The token is one of the first `n` lines.
pub open spec fn is_token_in(lines: Seq<String>, n: int, token: Seq<char>) -> bool {
    exists|i: int| 0 <= i < n && is_token_in_line((#[trigger] lines[i])@, token)
}

/// The tokens of the strategy markets that a markets log lists.
pub fn load_strategy_tokens(lines: &[String]) -> (r: TokenSet)
    ensures
        r.wf(),
        forall|t: Seq<char>| #[trigger] r.has(t) == is_token_in(lines@, lines@.len() as int, t),
{
    let mut tokens = TokenSet::new();
    let mut i: usize = 0;
    while i < lines.len()
        invariant
            i <= lines@.len(),
            tokens.wf(),
            forall|t: Seq<char>| #[trigger] tokens.has(t) == is_token_in(lines@, i as int, t),
        decreases lines@.len() - i,
    {
        let ghost before = tokens;
        add_strategy_tokens(&lines[i], &mut tokens);
        proof {
            assert forall|t: Seq<char>| #[trigger] tokens.has(t) == is_token_in(
                lines@,
                i + 1,
                t,
            ) by {
                assert(tokens.has(t) == (before.has(t) || is_token_in_line(lines@[i as int]@, t)));
                if is_token_in(lines@, i as int, t) {
                    let k = choose|k: int|
                        0 <= k < i && is_token_in_line((#[trigger] lines@[k])@, t);
                    assert(is_token_in_line(lines@[k]@, t));
                }
            }
        }
        i += 1;
    }
    tokens
}

/// The place of the changes in an event.
pub open spec fn changes_place(m: Map<Seq<char>, json::Leaf>) -> Seq<char> {
    if m.contains_key("/payload/price_changes"@) {
        "/payload/price_changes"@
    } else {
        "/payload/changes"@
    }
}

/// The tokens of the first `n` changes: only changes with both best prices count.
pub open spec fn changed(m: Map<Seq<char>, json::Leaf>, at: Seq<char>, tokens: TokenSet, n: nat) -> Seq<
    Seq<char>,
>
    decreases n,
{
    if n == 0 {
        Seq::empty()
    } else {
        let before = changed(m, at, tokens, (n - 1) as nat);
        let place = json::item(at, (n - 1) as nat);
        match json::text_leaf(m, json::below(place, "asset_id"@)) {
            Some(t) if m.contains_key(json::below(place, "best_ask"@)) && m.contains_key(
                json::below(place, "best_bid"@),
            ) && tokens.has(t) => before.push(t),
            _ => before,
        }
    }
}

/// The strategy tokens that an event of a kind touches.
pub open spec fn touched(m: Map<Seq<char>, json::Leaf>, etype: Seq<char>, tokens: TokenSet) -> Seq<
    Seq<char>,
> {
    if etype == "price_change"@ {
        let at = changes_place(m);
        changed(m, at, tokens, record::len_of(m, at))
    } else {
        match json::text_leaf(m, "/payload/asset_id"@) {
            Some(t) if tokens.has(t) => seq![t],
            _ => Seq::empty(),
        }
    }
}

pub open spec fn texts(v: Seq<String>) -> Seq<Seq<char>> {
    v.map_values(|s: String| s@)
}

/// The strategy tokens that the event in a recorded line touches.
pub fn event_touches(line: &str, etype: &str, tokens: &TokenSet) -> (r: Vec<String>)
    requires
        tokens.wf(),
    ensures
        match json::leaves_in_text(line@) {
            Some(m) => texts(r@) == touched(m, etype@, *tokens),
            None => r@.len() == 0,
        },
{
    let mut out: Vec<String> = Vec::new();
    assert(texts(out@) =~= Seq::empty());
    let v = match read_json(line) {
        Some(v) => v,
        None => {
            return out;
        },
    };
    let ghost m = json::leaves(v);
    if same_text(etype, "price_change") {
        let at = if has_at(&v, "/payload/price_changes") {
            "/payload/price_changes"
        } else {
            "/payload/changes"
        };
        let n: usize = match len_at(&v, at) {
            Some(n) => n,
            None => 0,
        };
        let mut i: usize = 0;
        while i < n
            invariant
                i <= n,
                tokens.wf(),
                m == json::leaves(v),
                texts(out@) == changed(m, at@, *tokens, i as nat),
            decreases n - i,
        {
            let place = item_place(at, i);
            let both = has_at(&v, &place_below(&place, "best_ask")) && has_at(
                &v,
                &place_below(&place, "best_bid"),
            );
            match text_at(&v, &place_below(&place, "asset_id")) {
                Some(t) => {
                    if both && tokens.contains(&t) {
                        let ghost had = out@;
                        out.push(t);
                        assert(texts(out@) =~= texts(had).push(t@));
                    }
                },
                None => {},
            }
            i += 1;
        }
    } else {
        match text_at(&v, "/payload/asset_id") {
            Some(t) => {
                if tokens.contains(&t) {
                    out.push(t);
                    assert(texts(out@) =~= seq![t@]);
                }
            },
            None => {},
        }
    }
    out
}

/// An event touches only strategy tokens.
pub proof fn law_only_strategy_tokens_are_touched(
    m: Map<Seq<char>, json::Leaf>,
    etype: Seq<char>,
    tokens: TokenSet,
    i: int,
)
    requires
        0 <= i < touched(m, etype, tokens).len(),
    ensures
        tokens.has(touched(m, etype, tokens)[i]),
{
    if etype == "price_change"@ {
        let at = changes_place(m);
        lemma_changed_tokens(m, at, tokens, record::len_of(m, at), i);
    }
}

proof fn lemma_changed_tokens(
    m: Map<Seq<char>, json::Leaf>,
    at: Seq<char>,
    tokens: TokenSet,
    n: nat,
    i: int,
)
    requires
        0 <= i < changed(m, at, tokens, n).len(),
    ensures
        tokens.has(changed(m, at, tokens, n)[i]),
    decreases n,
{
    let before = changed(m, at, tokens, (n - 1) as nat);
    if i < before.len() {
        lemma_changed_tokens(m, at, tokens, (n - 1) as nat, i);
    }
}

} // verus!
