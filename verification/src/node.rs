//! What is known of a node, which implementation it runs and where it stands on BIP-110, and
//! the figures that a report draws from many of them.
use vstd::prelude::*;

use crate::number::{digit_value, read_number, NumberForm};
use crate::order::{before, lemma_order_keeps_values, sort_order};
use crate::rpc::ChainTip;
use crate::strmap::{law_tally_counts, occurrences, tally, StrMap};
use crate::text::{
    chars_of, contains_text, find_char, find_text, first_of, has_text, is_space, joined,
    lemma_first_of, lemma_first_of_is, lemma_place_of, part, place_of, same_text, stands_at,
    string_of, trim, trimmed,
};
use vstd::utf8::is_ascii_chars;

verus! {

// ---- records ------------------------------------------------------------------------------

/// Where a node stands on BIP-110, judged by the software that it runs.
#[derive(Debug, Clone, Copy, PartialEq, Eq, Structural)]
pub enum Bip110Stance {
    /// Runs software that enforces the limits.
    Enforcing,
    /// Runs software that does not enforce them.
    NotEnforcing,
    /// Not known.
    Unknown,
}

/// A node of the network.
#[derive(Debug)]
pub struct NodeInfo {
    /// `ip:port`, by which the node goes throughout.
    pub addr: String,
    /// How many steps from the own node it was reached.
    pub depth: u32,
    /// The protocol version that it reported.
    pub protocol_version: i32,
    /// Its user agent as it was sent.
    pub user_agent: String,
    /// The service bits that it advertises.
    pub services: u64,
    /// The block height that it reported at the handshake.
    pub start_height: i32,
    /// Its block hash at the reference height; empty where it is not known.
    pub chain_hash: String,
    /// Whether a handshake was completed.
    pub handshaked: bool,
    /// The implementation family.
    pub implementation: String,
    /// The version, as far as it could be made out.
    pub version: String,
    /// Where it stands on BIP-110.
    pub bip110: Bip110Stance,
    /// When it was first seen.
    pub first_seen: String,
    /// When it was last reachable.
    pub last_seen: String,
    /// In how many crawls it was reachable.
    pub times_seen: u32,
    /// Whether it was reachable in the latest crawl.
    pub online: bool,
    /// Milliseconds from opening the connection to the end of the handshake, where measured.
    pub latency_ms: Option<u32>,
}

/// A node, with its texts as sequences of characters.
#[verifier::ext_equal]
pub struct NodeView {
    pub addr: Seq<char>,
    pub depth: u32,
    pub protocol_version: i32,
    pub user_agent: Seq<char>,
    pub services: u64,
    pub start_height: i32,
    pub chain_hash: Seq<char>,
    pub handshaked: bool,
    pub implementation: Seq<char>,
    pub version: Seq<char>,
    pub bip110: Bip110Stance,
    pub first_seen: Seq<char>,
    pub last_seen: Seq<char>,
    pub times_seen: u32,
    pub online: bool,
    pub latency_ms: Option<u32>,
}

impl View for NodeInfo {
    type V = NodeView;

    open spec fn view(&self) -> NodeView {
        NodeView {
            addr: self.addr@,
            depth: self.depth,
            protocol_version: self.protocol_version,
            user_agent: self.user_agent@,
            services: self.services,
            start_height: self.start_height,
            chain_hash: self.chain_hash@,
            handshaked: self.handshaked,
            implementation: self.implementation@,
            version: self.version@,
            bip110: self.bip110,
            first_seen: self.first_seen@,
            last_seen: self.last_seen@,
            times_seen: self.times_seen,
            online: self.online,
            latency_ms: self.latency_ms,
        }
    }
}

impl Clone for NodeInfo {
    fn clone(&self) -> (r: Self)
        ensures
            r == *self,
    {
        NodeInfo {
            addr: self.addr.clone(),
            depth: self.depth,
            protocol_version: self.protocol_version,
            user_agent: self.user_agent.clone(),
            services: self.services,
            start_height: self.start_height,
            chain_hash: self.chain_hash.clone(),
            handshaked: self.handshaked,
            implementation: self.implementation.clone(),
            version: self.version.clone(),
            bip110: self.bip110,
            first_seen: self.first_seen.clone(),
            last_seen: self.last_seen.clone(),
            times_seen: self.times_seen,
            online: self.online,
            latency_ms: self.latency_ms,
        }
    }
}

/// What `online` is where a stored record does not say.
pub fn default_true() -> (r: bool)
    ensures
        r,
{
    true
}

/// A directed edge: `from` told of `to`.
#[derive(Debug)]
pub struct Edge {
    pub from: String,
    pub to: String,
}

impl View for Edge {
    type V = (Seq<char>, Seq<char>);

    open spec fn view(&self) -> (Seq<char>, Seq<char>) {
        (self.from@, self.to@)
    }
}

impl Clone for Edge {
    fn clone(&self) -> (r: Self)
        ensures
            r == *self,
    {
        Edge { from: self.from.clone(), to: self.to.clone() }
    }
}

/// A rule of the user's: nodes whose user agent contains this text, in either case, have this
/// stance.
#[derive(Debug)]
pub struct Bip110Rule {
    pub user_agent_contains: String,
    pub stance: Bip110Stance,
}

// ---- classification -----------------------------------------------------------------------

/// The text that `str::to_lowercase` makes of `s`.
pub uninterp spec fn lowercase(s: Seq<char>) -> Seq<char>;

/// An ASCII letter in lower case; any other character as it is.
pub open spec fn ascii_lower(c: char) -> char {
    if 'A' <= c <= 'Z' {
        (c as u32 + 32) as char
    } else {
        c
    }
}

/// Calls `str::to_lowercase`. In ASCII text the letters `A` to `Z` become `a` to `z` and nothing
/// else changes; what becomes of other characters is left to the name.
#[verifier::external_body]
fn to_lowercase(s: &str) -> (r: String)
    ensures
        r@ == lowercase(s@),
        is_ascii_chars(s@) ==> r@ == s@.map_values(|c: char| ascii_lower(c)),
{
    s.to_lowercase()
}

/// `s` in lower case: its ASCII letters where it is ASCII text, else what `str::to_lowercase` makes
/// of it.
pub open spec fn lower_text(s: Seq<char>) -> Seq<char> {
    if is_ascii_chars(s) {
        s.map_values(|c: char| ascii_lower(c))
    } else {
        lowercase(s)
    }
}

/// `x.y.z` in `/Satoshi:x.y.z(...)/`: what stands between the first colon and the next slash or
/// bracket.
pub open spec fn satoshi_version(ua: Seq<char>) -> Seq<char> {
    let i = first_of(ua, ':');
    if i == ua.len() {
        Seq::empty()
    } else {
        let rest = ua.skip(i + 1);
        let slash = first_of(rest, '/');
        let bracket = first_of(rest, '(');
        trim(
            rest.take(
                if slash < bracket {
                    slash
                } else {
                    bracket
                },
            ),
        )
    }
}

/// What stands between the first colon and the next slash.
pub open spec fn generic_version(ua: Seq<char>) -> Seq<char> {
    let i = first_of(ua, ':');
    if i == ua.len() {
        Seq::empty()
    } else {
        let rest = ua.skip(i + 1);
        trim(rest.take(first_of(rest, '/')))
    }
}

/// The version in a user agent like `/Satoshi:27.1.0(...)/`.
pub fn extract_satoshi_version(ua: &str) -> (r: String)
    ensures
        r@ == satoshi_version(ua@),
{
    let x = chars_of(ua);
    let i = find_char(&x, ':');
    if i == x.len() {
        return String::new();
    }
    let rest = part(&x, i + 1, x.len());
    assert(rest@ == ua@.skip(i + 1));
    let slash = find_char(&rest, '/');
    let bracket = find_char(&rest, '(');
    let end: usize = if slash < bracket {
        slash
    } else {
        bracket
    };
    let v = part(&rest, 0, end);
    assert(v@ == rest@.take(end as int));
    let t = trimmed(&v);
    string_of(&t)
}

/// The version in a user agent like `/btcd:0.24.0/`.
pub fn extract_generic_version(ua: &str) -> (r: String)
    ensures
        r@ == generic_version(ua@),
{
    let x = chars_of(ua);
    let i = find_char(&x, ':');
    if i == x.len() {
        return String::new();
    }
    let rest = part(&x, i + 1, x.len());
    assert(rest@ == ua@.skip(i + 1));
    let end = find_char(&rest, '/');
    let v = part(&rest, 0, end);
    assert(v@ == rest@.take(end as int));
    let t = trimmed(&v);
    string_of(&t)
}

/// The implementation that a user agent in lower case betrays. The first mark that it contains
/// decides.
pub open spec fn implementation_of(lower: Seq<char>) -> Seq<char> {
    if has_text(lower, "knots"@) {
        "Bitcoin Knots"@
    } else if has_text(lower, "satoshi"@) {
        "Bitcoin Core"@
    } else if has_text(lower, "btcd"@) {
        "btcd"@
    } else if has_text(lower, "bcoin"@) {
        "bcoin"@
    } else if has_text(lower, "bitcoin abc"@) {
        "Bitcoin ABC"@
    } else if has_text(lower, "bu"@) {
        "Bitcoin Unlimited"@
    } else if has_text(lower, "libbitcoin"@) {
        "libbitcoin"@
    } else if has_text(lower, "gocoin"@) {
        "gocoin"@
    } else if has_text(lower, "bitcoinj"@) {
        "bitcoinj"@
    } else if has_text(lower, "floresta"@) {
        "Floresta"@
    } else {
        "Other"@
    }
}

/// Implementation and version of the user agent `ua`, which in lower case is `lower`. Knots and
/// Core write their version in one way, the others in another; where no mark is found, an empty
/// user agent is `Unknown` and any other is `Other`.
pub open spec fn classify(ua: Seq<char>, lower: Seq<char>) -> (Seq<char>, Seq<char>) {
    let name = implementation_of(lower);
    if has_text(lower, "knots"@) || has_text(lower, "satoshi"@) {
        (name, satoshi_version(ua))
    } else if name == "Other"@ && ua.len() == 0 {
        ("Unknown"@, Seq::empty())
    } else {
        (name, generic_version(ua))
    }
}

/// Whether any mark of an implementation other than Knots and Core stands in `lower`, and which
/// implementation the first of them is.
fn find_other(lower: &str) -> (r: Option<&'static str>)
    requires
        !has_text(lower@, "knots"@),
        !has_text(lower@, "satoshi"@),
    ensures
        match r {
            Some(n) => n@ == implementation_of(lower@) && n@ != "Other"@,
            None => implementation_of(lower@) == "Other"@,
        },
{
    proof {
        reveal_strlit("Other");
        reveal_strlit("btcd");
        reveal_strlit("bcoin");
        reveal_strlit("Bitcoin ABC");
        reveal_strlit("Bitcoin Unlimited");
        reveal_strlit("libbitcoin");
        reveal_strlit("gocoin");
        reveal_strlit("bitcoinj");
        reveal_strlit("Floresta");
        assert("Other"@.len() == 5 && "Other"@[0] == 'O' && "bcoin"@[0] == 'b' && "btcd"@.len() == 4
            && "Bitcoin ABC"@.len() == 11 && "Bitcoin Unlimited"@.len() == 17 && "libbitcoin"@.len()
            == 10 && "gocoin"@.len() == 6 && "bitcoinj"@.len() == 8 && "Floresta"@.len() == 8);
    }
    if contains_text(lower, "btcd") {
        return Some("btcd");
    }
    if contains_text(lower, "bcoin") {
        return Some("bcoin");
    }
    if contains_text(lower, "bitcoin abc") {
        return Some("Bitcoin ABC");
    }
    if contains_text(lower, "bu") {
        return Some("Bitcoin Unlimited");
    }
    if contains_text(lower, "libbitcoin") {
        return Some("libbitcoin");
    }
    if contains_text(lower, "gocoin") {
        return Some("gocoin");
    }
    if contains_text(lower, "bitcoinj") {
        return Some("bitcoinj");
    }
    if contains_text(lower, "floresta") {
        return Some("Floresta");
    }
    None
}

/// Implementation and version of the user agent `ua`, whose lower-case form is `lower`.
pub fn classify_lowered(ua: &str, lower: &str) -> (r: (String, String))
    ensures
        (r.0@, r.1@) == classify(ua@, lower@),
{
    if contains_text(lower, "knots") {
        return ("Bitcoin Knots".to_owned(), extract_satoshi_version(ua));
    }
    if contains_text(lower, "satoshi") {
        return ("Bitcoin Core".to_owned(), extract_satoshi_version(ua));
    }
    match find_other(lower) {
        Some(name) => (name.to_owned(), extract_generic_version(ua)),
        None => {
            let x = chars_of(ua);
            if x.len() == 0 {
                let v = String::new();
                assert(v@ == Seq::<char>::empty());
                ("Unknown".to_owned(), v)
            } else {
                ("Other".to_owned(), extract_generic_version(ua))
            }
        },
    }
}

/// Implementation and version of a user agent.
pub fn classify_user_agent(ua: &str) -> (r: (String, String))
    ensures
        (r.0@, r.1@) == classify(ua@, lower_text(ua@)),
{
    let lower = to_lowercase(ua);
    classify_lowered(ua, lower.as_str())
}

/// The earliest build of Knots, as `YYYYMMDD`, that has BIP-110 without saying so.
pub const BIP110_KNOTS_DATE: u32 = 20260508;

/// The first position of a decimal digit at or after `pos`, or the end of `s`.
pub open spec fn first_digit(s: Seq<char>, pos: int) -> int
    decreases s.len() - pos,
{
    if 0 <= pos < s.len() && digit_value(s[pos], 10).is_none() {
        first_digit(s, pos + 1)
    } else {
        pos
    }
}

/// The build date that follows the first `knots`: the first eight digits of the first run of
/// digits behind it, where the run has as many.
pub open spec fn build_date(lower: Seq<char>) -> Option<u32> {
    let at = place_of(lower, "knots"@, 0);
    let a = first_digit(lower, at + 5);
    if at < 0 || crate::number::run_end(lower, a, 10) - a < 8 {
        None
    } else {
        Some(crate::number::base_value(lower.subrange(a, a + 8), 10) as u32)
    }
}

/// The build date in a user agent in lower case.
pub fn knots_build_date(lower_ua: &str) -> (r: Option<u32>)
    ensures
        r == build_date(lower_ua@),
{
    let x = chars_of(lower_ua);
    let mark = chars_of("knots");
    proof {
        reveal_strlit("knots");
        assert(mark@.len() == 5);
    }
    let at: usize = match find_text(&x, &mark) {
        Some(i) => i,
        None => {
            return None;
        },
    };
    let mut a: usize = at + 5;
    while a < x.len() && crate::number::digit_of(x[a], 10).is_none()
        invariant
            at + 5 <= a <= x@.len(),
            first_digit(x@, at + 5) == first_digit(x@, a as int),
        decreases x@.len() - a,
    {
        a = a + 1;
    }
    assert(a == first_digit(x@, at + 5));
    let mut e: usize = a;
    proof {
        crate::number::lemma_run_end(x@, a as int, 10);
    }
    while e < x.len() && crate::number::digit_of(x[e], 10).is_some()
        invariant
            a <= e <= x@.len(),
            crate::number::run_end(x@, a as int, 10) == crate::number::run_end(x@, e as int, 10),
        decreases x@.len() - e,
    {
        e = e + 1;
    }
    if e - a < 8 {
        return None;
    }
    let d = part(&x, a, a + 8);
    proof {
        assert forall|i: int| 0 <= i < 8 implies digit_value(#[trigger] d@[i], 10).is_some() by {
            assert(d@[i] == x@[a + i]);
        }
        crate::number::lemma_run_end_is(d@, 0, 10, 8);
        assert(d@.subrange(0, 8) == d@);
        crate::number::lemma_digits_bound(d@);
    }
    match read_number(
        &d,
        0,
        NumberForm { base: 10, max_digits: 0, zero_prefix: true, limit: 99999999 },
    ) {
        Some((n, _)) => Some(n as u32),
        None => None,
    }
}

/// Rules whose texts are in lower case, as pairs.
pub open spec fn rule_pairs(rules: Seq<Bip110Rule>) -> Seq<(Seq<char>, Bip110Stance)> {
    rules.map_values(|r: Bip110Rule| (r.user_agent_contains@, r.stance))
}

/// The rules with their texts in lower case.
pub open spec fn lowered_rules(rules: Seq<Bip110Rule>) -> Seq<(Seq<char>, Bip110Stance)> {
    rules.map_values(|r: Bip110Rule| (lower_text(r.user_agent_contains@), r.stance))
}

/// The stance of the first rule that matches.
pub open spec fn ruled(lower_ua: Seq<char>, rules: Seq<(Seq<char>, Bip110Stance)>) -> Option<
    Bip110Stance,
>
    decreases rules.len(),
{
    if rules.len() == 0 {
        None
    } else if has_text(lower_ua, rules[0].0) {
        Some(rules[0].1)
    } else {
        ruled(lower_ua, rules.skip(1))
    }
}

/// The stance of a node with this user agent in lower case: the first rule that matches
/// decides; otherwise it enforces where it says `bip110` or is a build of Knots late enough.
pub open spec fn assess(lower_ua: Seq<char>, rules: Seq<(Seq<char>, Bip110Stance)>) -> Bip110Stance {
    match ruled(lower_ua, rules) {
        Some(s) => s,
        None => if has_text(lower_ua, "bip110"@) || (build_date(lower_ua) matches Some(d) && d
            >= BIP110_KNOTS_DATE) {
            Bip110Stance::Enforcing
        } else {
            Bip110Stance::NotEnforcing
        },
    }
}

/// The stance of a node, by user agent and rules that are in lower case.
pub fn assess_lowered(lower_ua: &str, rules: &[Bip110Rule]) -> (r: Bip110Stance)
    ensures
        r == assess(lower_ua@, rule_pairs(rules@)),
{
    let ghost pairs = rule_pairs(rules@);
    let mut i: usize = 0;
    assert(pairs.skip(0) == pairs);
    while i < rules.len()
        invariant
            i <= rules@.len(),
            pairs == rule_pairs(rules@),
            ruled(lower_ua@, pairs) == ruled(lower_ua@, pairs.skip(i as int)),
        decreases rules@.len() - i,
    {
        if contains_text(lower_ua, rules[i].user_agent_contains.as_str()) {
            return rules[i].stance;
        }
        assert(pairs.skip(i as int).skip(1) == pairs.skip(i + 1));
        i = i + 1;
    }
    if contains_text(lower_ua, "bip110") {
        return Bip110Stance::Enforcing;
    }
    if let Some(date) = knots_build_date(lower_ua) {
        if date >= BIP110_KNOTS_DATE {
            return Bip110Stance::Enforcing;
        }
    }
    Bip110Stance::NotEnforcing
}

/// The stance of a node with this user agent.
pub fn assess_bip110(_implementation: &str, user_agent: &str, rules: &[Bip110Rule]) -> (r:
    Bip110Stance)
    ensures
        r == assess(lower_text(user_agent@), lowered_rules(rules@)),
{
    let lower = to_lowercase(user_agent);
    let mut low: Vec<Bip110Rule> = Vec::new();
    let mut i: usize = 0;
    while i < rules.len()
        invariant
            i <= rules@.len(),
            low@.len() == i,
            forall|j: int|
                0 <= j < i ==> (#[trigger] low@[j]).user_agent_contains@ == lower_text(
                    rules@[j].user_agent_contains@,
                ) && low@[j].stance == rules@[j].stance,
        decreases rules@.len() - i,
    {
        low.push(
            Bip110Rule {
                user_agent_contains: to_lowercase(rules[i].user_agent_contains.as_str()),
                stance: rules[i].stance,
            },
        );
        i = i + 1;
    }
    assert(rule_pairs(low@) =~= lowered_rules(rules@));
    assess_lowered(lower.as_str(), &low)
}

/// A user agent is judged without regard to the case of its letters.
pub proof fn law_stance_ignores_case(
    a: Seq<char>,
    b: Seq<char>,
    rules: Seq<(Seq<char>, Bip110Stance)>,
)
    requires
        is_ascii_chars(a),
        is_ascii_chars(b),
        a.map_values(|c: char| ascii_lower(c)) == b.map_values(|c: char| ascii_lower(c)),
    ensures
        assess(lower_text(a), rules) == assess(lower_text(b), rules),
        implementation_of(lower_text(a)) == implementation_of(lower_text(b)),
{
}

/// The first digit stands behind what holds none.
proof fn lemma_first_digit(s: Seq<char>, pos: int, e: int)
    requires
        0 <= pos <= e < s.len(),
        forall|i: int| pos <= i < e ==> !('0' <= #[trigger] s[i] <= '9'),
        '0' <= s[e] <= '9',
    ensures
        first_digit(s, pos) == e,
    decreases e - pos,
{
    if pos < e {
        assert(!('0' <= s[pos] <= '9'));
        lemma_first_digit(s, pos + 1, e);
    }
}

/// No rule matches that has a text which does not stand in the user agent.
proof fn lemma_not_ruled(lower: Seq<char>, rules: Seq<(Seq<char>, Bip110Stance)>)
    requires
        forall|i: int| 0 <= i < rules.len() ==> !has_text(lower, (#[trigger] rules[i]).0),
    ensures
        ruled(lower, rules).is_none(),
    decreases rules.len(),
{
    if rules.len() > 0 {
        let r = rules.skip(1);
        assert(!has_text(lower, rules[0].0));
        assert forall|i: int| 0 <= i < r.len() implies !has_text(lower, (#[trigger] r[i]).0) by {
            assert(r[i] == rules[i + 1]);
        }
        lemma_not_ruled(lower, r);
    }
}

/// Where no rule matches, a build of Knots enforces from 2026-05-08 on, by the eight digits behind
/// its name, whatever stands between and behind; an earlier one does not, unless it says so. A
/// later build never has a weaker stance than an earlier one.
pub proof fn law_late_knots_enforce(
    before: Seq<char>,
    between: Seq<char>,
    date: Seq<char>,
    behind: Seq<char>,
    rules: Seq<(Seq<char>, Bip110Stance)>,
)
    requires
        date.len() == 8,
        forall|i: int| 0 <= i < 8 ==> '0' <= #[trigger] date[i] <= '9',
        forall|i: int| 0 <= i < between.len() ==> !('0' <= #[trigger] between[i] <= '9'),
        forall|i: int|
            0 <= i < before.len() ==> #[trigger] (before + "knots"@ + between + date
                + behind).subrange(i, i + 5) != "knots"@,
        forall|i: int|
            0 <= i < rules.len() ==> !has_text(
                before + "knots"@ + between + date + behind,
                (#[trigger] rules[i]).0,
            ),
    ensures
        ({
            let lower = before + "knots"@ + between + date + behind;
            let d = 10000000 * (date[0] as int - 48) + 1000000 * (date[1] as int - 48) + 100000 * (
            date[2] as int - 48) + 10000 * (date[3] as int - 48) + 1000 * (date[4] as int - 48)
                + 100 * (date[5] as int - 48) + 10 * (date[6] as int - 48) + (date[7] as int - 48);
            &&& build_date(lower) == Some(d as u32)
            &&& d >= 20260508 ==> assess(lower, rules) == Bip110Stance::Enforcing
            &&& d < 20260508 && !has_text(lower, "bip110"@) ==> assess(lower, rules)
                == Bip110Stance::NotEnforcing
        }),
{
    reveal_strlit("knots");
    let lower = before + "knots"@ + between + date + behind;
    let at = before.len() as int;
    let a = at + 5 + between.len();
    assert(lower.subrange(at, at + 5) =~= "knots"@);
    lemma_place_of(lower, "knots"@, 0);
    let f = place_of(lower, "knots"@, 0);
    assert(stands_at(lower, "knots"@, at));
    if f != at {
        assert(lower.subrange(f, f + 5) == "knots"@);
    }
    assert forall|i: int| at + 5 <= i < a implies !('0' <= #[trigger] lower[i] <= '9') by {
        assert(lower[i] == between[i - at - 5]);
    }
    assert(lower[a] == date[0]);
    lemma_first_digit(lower, at + 5, a);
    crate::number::lemma_run_end(lower, a, 10);
    let e = crate::number::run_end(lower, a, 10);
    if e < a + 8 {
        assert(lower[e] == date[e - a]);
    }
    assert(lower.subrange(a, a + 8) =~= date);
    lemma_eight_digits(date);
    lemma_not_ruled(lower, rules);
}

proof fn lemma_eight_digits(date: Seq<char>)
    requires
        date.len() == 8,
        forall|i: int| 0 <= i < 8 ==> '0' <= #[trigger] date[i] <= '9',
    ensures
        crate::number::base_value(date, 10) == 10000000 * (date[0] as int - 48) + 1000000 * (
        date[1] as int - 48) + 100000 * (date[2] as int - 48) + 10000 * (date[3] as int - 48) + 1000
            * (date[4] as int - 48) + 100 * (date[5] as int - 48) + 10 * (date[6] as int - 48) + (
        date[7] as int - 48),
{
    reveal_with_fuel(crate::number::base_value, 9);
    assert(date[0] >= '0' && date[1] >= '0' && date[2] >= '0' && date[3] >= '0' && date[4] >= '0'
        && date[5] >= '0' && date[6] >= '0' && date[7] >= '0');
    assert(date[0] <= '9' && date[1] <= '9' && date[2] <= '9' && date[3] <= '9' && date[4] <= '9'
        && date[5] <= '9' && date[6] <= '9' && date[7] <= '9');
}

/// The first rule whose text stands in the user agent decides, whatever else the agent says.
/// Where none does, an agent that says `bip110` enforces, and one that says neither that nor `knots`
/// does not.
pub proof fn law_rules_come_first(
    lower: Seq<char>,
    rules: Seq<(Seq<char>, Bip110Stance)>,
    i: int,
)
    requires
        0 <= i <= rules.len(),
        forall|j: int| 0 <= j < i ==> !has_text(lower, (#[trigger] rules[j]).0),
        i < rules.len() ==> has_text(lower, rules[i].0),
    ensures
        i < rules.len() ==> assess(lower, rules) == rules[i].1,
        i == rules.len() && has_text(lower, "bip110"@) ==> assess(lower, rules)
            == Bip110Stance::Enforcing,
        i == rules.len() && !has_text(lower, "bip110"@) && !has_text(lower, "knots"@) ==> assess(
            lower,
            rules,
        ) == Bip110Stance::NotEnforcing,
    decreases i,
{
    if i > 0 {
        let r = rules.skip(1);
        assert(!has_text(lower, rules[0].0));
        assert forall|j: int| 0 <= j < i - 1 implies !has_text(lower, (#[trigger] r[j]).0) by {
            assert(r[j] == rules[j + 1]);
        }
        law_rules_come_first(lower, r, i - 1);
    }
    lemma_place_of(lower, "knots"@, 0);
    if place_of(lower, "knots"@, 0) >= 0 {
        assert(stands_at(lower, "knots"@, place_of(lower, "knots"@, 0)));
        assert(has_text(lower, "knots"@));
    }
}

/// The first of these marks in a user agent names its implementation; an agent that shows none and
/// is not empty is another.
pub proof fn law_first_mark_names(ua: Seq<char>, lower: Seq<char>)
    ensures
        ({
            let marks = seq![
                ("knots"@, "Bitcoin Knots"@),
                ("satoshi"@, "Bitcoin Core"@),
                ("btcd"@, "btcd"@),
                ("bcoin"@, "bcoin"@),
                ("bitcoin abc"@, "Bitcoin ABC"@),
                ("bu"@, "Bitcoin Unlimited"@),
                ("libbitcoin"@, "libbitcoin"@),
                ("gocoin"@, "gocoin"@),
                ("bitcoinj"@, "bitcoinj"@),
                ("floresta"@, "Floresta"@),
            ];
            &&& forall|i: int|
                0 <= i < 10 && has_text(lower, (#[trigger] marks[i]).0) && (forall|j: int|
                    0 <= j < i ==> !has_text(lower, (#[trigger] marks[j]).0)) ==> classify(
                    ua,
                    lower,
                ).0 == marks[i].1
            &&& (forall|j: int| 0 <= j < 10 ==> !has_text(lower, (#[trigger] marks[j]).0))
                ==> classify(ua, lower).0 == (if ua.len() == 0 {
                "Unknown"@
            } else {
                "Other"@
            })
        }),
{
    reveal_strlit("Other");
    reveal_strlit("btcd");
    reveal_strlit("bcoin");
    reveal_strlit("Bitcoin ABC");
    reveal_strlit("Bitcoin Unlimited");
    reveal_strlit("libbitcoin");
    reveal_strlit("gocoin");
    reveal_strlit("bitcoinj");
    reveal_strlit("Floresta");
    assert("Other"@[0] == 'O' && "bcoin"@[0] == 'b');
    let marks = seq![
        ("knots"@, "Bitcoin Knots"@),
        ("satoshi"@, "Bitcoin Core"@),
        ("btcd"@, "btcd"@),
        ("bcoin"@, "bcoin"@),
        ("bitcoin abc"@, "Bitcoin ABC"@),
        ("bu"@, "Bitcoin Unlimited"@),
        ("libbitcoin"@, "libbitcoin"@),
        ("gocoin"@, "gocoin"@),
        ("bitcoinj"@, "bitcoinj"@),
        ("floresta"@, "Floresta"@),
    ];
    assert(marks[0].0 == "knots"@ && marks[1].0 == "satoshi"@ && marks[2].0 == "btcd"@ && marks[3].0
        == "bcoin"@ && marks[4].0 == "bitcoin abc"@ && marks[5].0 == "bu"@ && marks[6].0
        == "libbitcoin"@ && marks[7].0 == "gocoin"@ && marks[8].0 == "bitcoinj"@ && marks[9].0
        == "floresta"@);
}

/// The version in a user agent is what stands between its first colon and the next slash; for Knots
/// and Core a bracket ends it too. An agent without a colon has none.
pub proof fn law_version_is_cut_out(before: Seq<char>, version: Seq<char>, behind: Seq<char>)
    requires
        !before.contains(':'),
        !version.contains('/'),
        version.len() > 0 ==> !is_space(version[0]) && !is_space(version.last()),
        behind.len() > 0 ==> behind[0] == '/' || behind[0] == '(',
    ensures
        !version.contains('(') ==> satoshi_version(before + seq![':'] + version + behind) == version,
        behind.len() == 0 || behind[0] == '/' ==> generic_version(
            before + seq![':'] + version + behind,
        ) == version,
        satoshi_version(before).len() == 0 && generic_version(before).len() == 0,
{
    let ua = before + seq![':'] + version + behind;
    let none = Seq::<char>::empty();
    let n = before.len() as int;
    assert forall|j: int| 0 <= j < n implies ua[j] != ':' by {
        assert(ua[j] == before[j]);
        assert(before.contains(before[j]));
    }
    assert(ua[n] == ':');
    lemma_first_of_is(ua, ':', n);
    let rest = ua.skip(n + 1);
    assert(rest =~= version + behind);
    let v = version.len() as int;
    assert forall|j: int| 0 <= j < v implies rest[j] != '/' by {
        assert(rest[j] == version[j]);
        assert(version.contains(version[j]));
    }
    assert(rest.take(v) =~= version);
    crate::text::law_trim(none, version, none);
    assert(none + version + none =~= version);
    lemma_first_of(rest, '/');
    lemma_first_of(rest, '(');
    if behind.len() > 0 {
        assert(rest[v] == behind[0]);
    }
    if first_of(rest, '/') < v {
        assert(rest[first_of(rest, '/')] == '/');
    }
    if behind.len() == 0 || behind[0] == '/' {
        lemma_first_of_is(rest, '/', v);
    }
    if !version.contains('(') {
        assert forall|j: int| 0 <= j < v implies rest[j] != '(' by {
            assert(rest[j] == version[j]);
            assert(version.contains(version[j]));
        }
        if behind.len() > 0 && behind[0] == '(' {
            lemma_first_of_is(rest, '(', v);
        }
        if first_of(rest, '(') < v {
            assert(rest[first_of(rest, '(')] == '(');
        }
    }
    assert forall|j: int| 0 <= j < n implies before[j] != ':' by {
        assert(before.contains(before[j]));
    }
    lemma_first_of_is(before, ':', n);
}

// ---- counting -----------------------------------------------------------------------------

/// How many entries of `s` meet `f`.
pub open spec fn count<T>(s: Seq<T>, f: spec_fn(T) -> bool) -> nat
    decreases s.len(),
{
    if s.len() == 0 {
        0
    } else {
        count(s.drop_last(), f) + (if f(s.last()) {
            1nat
        } else {
            0nat
        })
    }
}

/// No more entries meet `f` than there are.
pub proof fn lemma_count_bound<T>(s: Seq<T>, f: spec_fn(T) -> bool)
    ensures
        count(s, f) <= s.len(),
    decreases s.len(),
{
    if s.len() > 0 {
        lemma_count_bound(s.drop_last(), f);
    }
}

/// One more entry counts where it meets `f`.
pub proof fn lemma_count_take<T>(s: Seq<T>, f: spec_fn(T) -> bool, i: int)
    requires
        0 <= i < s.len(),
    ensures
        count(s.take(i + 1), f) == count(s.take(i), f) + (if f(s[i]) {
            1nat
        } else {
            0nat
        }),
{
    assert(s.take(i + 1).drop_last() == s.take(i));
    assert(s.take(i + 1).last() == s[i]);
}

/// Counting goes on where an entry is taken out.
proof fn lemma_count_remove<T>(s: Seq<T>, f: spec_fn(T) -> bool, i: int)
    requires
        0 <= i < s.len(),
    ensures
        count(s, f) == count(s.remove(i), f) + (if f(s[i]) {
            1nat
        } else {
            0nat
        }),
    decreases s.len(),
{
    if i == s.len() - 1 {
        assert(s.remove(i) =~= s.drop_last());
    } else {
        let d = s.drop_last();
        lemma_count_remove(d, f, i);
        assert(s.remove(i).drop_last() =~= d.remove(i));
        assert(s.remove(i).last() == s.last());
    }
}

/// How many entries meet `f` does not depend on their order.
pub proof fn law_count_ignores_order<T>(a: Seq<T>, b: Seq<T>, f: spec_fn(T) -> bool)
    requires
        a.to_multiset() == b.to_multiset(),
    ensures
        a.len() == b.len(),
        count(a, f) == count(b, f),
    decreases a.len(),
{
    broadcast use vstd::seq_lib::group_to_multiset_ensures;
    broadcast use vstd::multiset::group_multiset_axioms;

    vstd::seq_lib::to_multiset_len(a);
    vstd::seq_lib::to_multiset_len(b);
    if a.len() > 0 {
        let x = a.last();
        let d = a.drop_last();
        assert(a =~= d.push(x));
        assert(a.to_multiset().count(x) > 0);
        assert(b.contains(x));
        let j = choose|j: int| 0 <= j < b.len() && b[j] == x;
        assert(d.to_multiset() =~= b.remove(j).to_multiset()) by {
            assert(a.to_multiset() =~= d.to_multiset().insert(x));
            assert(b.remove(j).to_multiset() =~= b.to_multiset().remove(x));
        }
        law_count_ignores_order(d, b.remove(j), f);
        lemma_count_remove(b, f, j);
    }
}

/// A value is in a sequence as often as it is counted.
pub proof fn lemma_count_value<T>(s: Seq<T>, x: T)
    ensures
        s.to_multiset().count(x) == count(s, |y: T| y == x),
    decreases s.len(),
{
    broadcast use vstd::seq_lib::group_to_multiset_ensures;
    broadcast use vstd::multiset::group_multiset_axioms;

    if s.len() > 0 {
        lemma_count_value(s.drop_last(), x);
        assert(s =~= s.drop_last().push(s.last()));
    }
}

// ---- latency ------------------------------------------------------------------------------

/// One band of the latency histogram: from `min_ms` up to, but not at, `max_ms`; the last band
/// has no end.
#[derive(Debug, Clone, Copy, PartialEq, Eq)]
pub struct LatencyBucket {
    pub min_ms: u32,
    pub max_ms: Option<u32>,
    pub count: usize,
}

/// Where band `i` begins.
pub open spec fn band_min(i: int) -> u32 {
    if i <= 0 {
        0
    } else if i == 1 {
        50
    } else if i == 2 {
        100
    } else if i == 3 {
        200
    } else if i == 4 {
        400
    } else if i == 5 {
        800
    } else if i == 6 {
        1500
    } else {
        3000
    }
}

/// Where band `i` ends.
pub open spec fn band_max(i: int) -> Option<u32> {
    if i < 7 {
        Some(band_min(i + 1))
    } else {
        None
    }
}

/// Whether a latency lies in band `i`.
pub open spec fn in_band(i: int) -> spec_fn(u32) -> bool {
    |ms: u32| band_min(i) <= ms && (band_max(i) matches Some(m) ==> ms < m)
}

/// The bands from `i` on that are not empty, in ascending order.
pub open spec fn bands_from(s: Seq<u32>, i: int) -> Seq<LatencyBucket>
    decreases 8 - i,
{
    if i >= 8 {
        Seq::empty()
    } else {
        let n = count(s, in_band(i));
        if n > 0 {
            seq![
                LatencyBucket { min_ms: band_min(i), max_ms: band_max(i), count: n as usize },
            ] + bands_from(s, i + 1)
        } else {
            bands_from(s, i + 1)
        }
    }
}

/// The smaller number first.
pub open spec fn rising() -> spec_fn(u32, u32) -> bool {
    |a: u32, b: u32| a <= b
}

/// The middle one of the latencies in ascending order; of an even number of them the upper of
/// the two in the middle.
pub open spec fn median(s: Seq<u32>) -> Option<u32> {
    if s.len() == 0 {
        None
    } else {
        Some(s.sort_by(rising())[(s.len() / 2) as int])
    }
}

/// What is in ascending order and holds the same numbers is what sorting gives.
proof fn lemma_sorted(s: Seq<u32>, sorted: Seq<u32>)
    requires
        sorted.to_multiset() == s.to_multiset(),
        forall|i: int, j: int| 0 <= i < j < sorted.len() ==> sorted[i] <= sorted[j],
    ensures
        s.sort_by(rising()) == sorted,
        sorted.len() == s.len(),
{
    let leq = rising();
    assert(vstd::relations::total_ordering(leq));
    s.lemma_sort_by_ensures(leq);
    assert(vstd::relations::sorted_by(sorted, leq));
    vstd::seq_lib::lemma_sorted_unique(s.sort_by(leq), sorted, leq);
    vstd::seq_lib::to_multiset_len(s);
    vstd::seq_lib::to_multiset_len(sorted);
}

fn band_begin(i: usize) -> (r: u32)
    ensures
        r == band_min(i as int),
{
    if i == 0 {
        0
    } else if i == 1 {
        50
    } else if i == 2 {
        100
    } else if i == 3 {
        200
    } else if i == 4 {
        400
    } else if i == 5 {
        800
    } else if i == 6 {
        1500
    } else {
        3000
    }
}

fn count_band(latencies: &Vec<u32>, i: usize) -> (r: usize)
    requires
        i < 8,
    ensures
        r == count(latencies@, in_band(i as int)),
{
    let lo = band_begin(i);
    let hi: Option<u32> = if i < 7 {
        Some(band_begin(i + 1))
    } else {
        None
    };
    let ghost f = in_band(i as int);
    let mut n: usize = 0;
    let mut j: usize = 0;
    assert(latencies@.take(0).len() == 0);
    while j < latencies.len()
        invariant
            j <= latencies@.len(),
            i < 8,
            lo == band_min(i as int),
            hi == band_max(i as int),
            f == in_band(i as int),
            n == count(latencies@.take(j as int), f),
            n <= j,
        decreases latencies@.len() - j,
    {
        let ms: u32 = latencies[j];
        let below: bool = match hi {
            Some(m) => ms < m,
            None => true,
        };
        proof {
            lemma_count_take(latencies@, f, j as int);
        }
        if lo <= ms && below {
            n = n + 1;
        }
        j = j + 1;
    }
    assert(latencies@.take(latencies@.len() as int) == latencies@);
    n
}

/// The latency histogram and the median.
pub fn latency_histogram(latencies: Vec<u32>) -> (r: (Vec<LatencyBucket>, Option<u32>))
    ensures
        r.0@ == bands_from(latencies@, 0),
        r.1 == median(latencies@),
{
    let mut buckets: Vec<LatencyBucket> = Vec::new();
    let mut i: usize = 0;
    assert(buckets@ + bands_from(latencies@, 0) == bands_from(latencies@, 0));
    while i < 8
        invariant
            i <= 8,
            bands_from(latencies@, 0) == buckets@ + bands_from(latencies@, i as int),
        decreases 8 - i,
    {
        let n = count_band(&latencies, i);
        let hi: Option<u32> = if i < 7 {
            Some(band_begin(i + 1))
        } else {
            None
        };
        let b = LatencyBucket { min_ms: band_begin(i), max_ms: hi, count: n };
        let ghost rest = bands_from(latencies@, i + 1);
        assert(buckets@ + (seq![b] + rest) == buckets@.push(b) + rest);
        if n > 0 {
            buckets.push(b);
        }
        i = i + 1;
    }
    assert(buckets@ + Seq::<LatencyBucket>::empty() == buckets@);
    if latencies.len() == 0 {
        return (buckets, None);
    }
    let mut keys: Vec<i128> = Vec::new();
    let mut j: usize = 0;
    while j < latencies.len()
        invariant
            j <= latencies@.len(),
            keys@.len() == j,
            forall|k: int| 0 <= k < j ==> #[trigger] keys@[k] == latencies@[k] as i128,
        decreases latencies@.len() - j,
    {
        keys.push(latencies[j] as i128);
        j = j + 1;
    }
    let p = sort_order(&keys);
    let mid: usize = latencies.len() / 2;
    assert(p@[mid as int] < keys@.len());
    proof {
        let s = latencies@;
        let sorted = Seq::new(s.len(), |i: int| s[p@[i] as int]);
        lemma_order_keeps_values(keys@, p@, sorted, s);
        assert forall|i: int, j: int| 0 <= i < j < sorted.len() implies sorted[i] <= sorted[j] by {
            assert(before(keys@, p@[i] as int, p@[j] as int));
            assert(p@[i] < keys@.len() && p@[j] < keys@.len());
        }
        lemma_sorted(s, sorted);
        assert(sorted[mid as int] == s[p@[mid as int] as int]);
    }
    (buckets, Some(latencies[p[mid]]))
}

/// The bands from `i` on do not depend on the order of the latencies.
proof fn lemma_bands_ignore_order(a: Seq<u32>, b: Seq<u32>, i: int)
    requires
        a.to_multiset() == b.to_multiset(),
    ensures
        bands_from(a, i) == bands_from(b, i),
    decreases 8 - i,
{
    if i < 8 {
        law_count_ignores_order(a, b, in_band(i));
        lemma_bands_ignore_order(a, b, i + 1);
    }
}

/// Histogram and median do not depend on the order of the latencies.
pub proof fn law_histogram_ignores_order(a: Seq<u32>, b: Seq<u32>)
    requires
        a.to_multiset() == b.to_multiset(),
    ensures
        bands_from(a, 0) == bands_from(b, 0),
        median(a) == median(b),
{
    lemma_bands_ignore_order(a, b, 0);
    let leq = rising();
    assert(vstd::relations::total_ordering(leq));
    law_count_ignores_order(a, b, |x: u32| true);
    b.lemma_sort_by_ensures(leq);
    let sorted = b.sort_by(leq);
    assert forall|i: int, j: int| 0 <= i < j < sorted.len() implies sorted[i] <= sorted[j] by {
        assert(leq(sorted[i], sorted[j]));
    }
    lemma_sorted(a, sorted);
}

/// The median is the one in the middle of the latencies in ascending order.
pub proof fn law_median_is_in_the_middle(s: Seq<u32>, sorted: Seq<u32>)
    requires
        s.len() > 0,
        sorted.to_multiset() == s.to_multiset(),
        forall|i: int, j: int| 0 <= i < j < sorted.len() ==> sorted[i] <= sorted[j],
    ensures
        median(s) == Some(sorted[(s.len() / 2) as int]),
{
    lemma_sorted(s, sorted);
}

/// Without latencies there are no bands.
pub proof fn law_no_latencies_no_bands()
    ensures
        bands_from(Seq::empty(), 0) == Seq::<LatencyBucket>::empty(),
        median(Seq::empty()).is_none(),
{
    reveal_with_fuel(bands_from, 9);
}

/// Every latency lies in one band: those of all bands add up to all of them.
pub proof fn law_bands_cover(s: Seq<u32>)
    ensures
        count(s, in_band(0)) + count(s, in_band(1)) + count(s, in_band(2)) + count(s, in_band(3))
            + count(s, in_band(4)) + count(s, in_band(5)) + count(s, in_band(6)) + count(
            s,
            in_band(7),
        ) == s.len(),
    decreases s.len(),
{
    if s.len() > 0 {
        law_bands_cover(s.drop_last());
    }
}

/// How many latencies bands hold together.
pub open spec fn band_total(b: Seq<LatencyBucket>) -> int
    decreases b.len(),
{
    if b.len() == 0 {
        0
    } else {
        b[0].count + band_total(b.skip(1))
    }
}

/// How many latencies lie in the bands from `i` on.
spec fn counted_from(s: Seq<u32>, i: int) -> int
    decreases 8 - i,
{
    if i >= 8 {
        0
    } else {
        count(s, in_band(i)) + counted_from(s, i + 1)
    }
}

proof fn lemma_band_total(s: Seq<u32>, i: int)
    requires
        s.len() <= usize::MAX,
    ensures
        band_total(bands_from(s, i)) == counted_from(s, i),
    decreases 8 - i,
{
    if i < 8 {
        lemma_band_total(s, i + 1);
        lemma_count_bound(s, in_band(i));
        let rest = bands_from(s, i + 1);
        let n = count(s, in_band(i));
        if n > 0 {
            let b = LatencyBucket { min_ms: band_min(i), max_ms: band_max(i), count: n as usize };
            assert((seq![b] + rest).skip(1) =~= rest);
        }
    }
}

/// The bands of a histogram hold all the latencies.
pub proof fn law_histogram_holds_all(s: Seq<u32>)
    requires
        s.len() <= usize::MAX,
    ensures
        band_total(bands_from(s, 0)) == s.len(),
{
    lemma_band_total(s, 0);
    law_bands_cover(s);
    reveal_with_fuel(counted_from, 9);
}

// ---- aggregates ---------------------------------------------------------------------------

/// The counts that the report's charts show.
pub struct Aggregates {
    /// Nodes by implementation.
    pub by_implementation: StrMap<usize>,
    /// Nodes by implementation and version.
    pub by_version: StrMap<usize>,
    /// Nodes by stance.
    pub by_bip110: StrMap<usize>,
    pub total_nodes: usize,
    pub handshaked_nodes: usize,
    pub online_nodes: usize,
    pub onion_nodes: usize,
    /// Latencies of the online nodes.
    pub latency_buckets: Vec<LatencyBucket>,
    pub median_latency_ms: Option<u32>,
}

/// Implementation and version in one text; the implementation alone where there is no version.
pub open spec fn version_key(implementation: Seq<char>, version: Seq<char>) -> Seq<char> {
    if version.len() == 0 {
        implementation
    } else {
        implementation + " "@ + version
    }
}

/// Implementation and version in one text.
pub fn version_label(implementation: &str, version: &str) -> (r: String)
    ensures
        r@ == version_key(implementation@, version@),
{
    if chars_of(version).len() == 0 {
        return implementation.to_owned();
    }
    let a = joined(implementation, " ");
    joined(a.as_str(), version)
}

/// How a stance is called in the charts.
pub open spec fn stance_name(s: Bip110Stance) -> Seq<char> {
    match s {
        Bip110Stance::Enforcing => "BIP-110 ready"@,
        Bip110Stance::NotEnforcing => "Not ready"@,
        Bip110Stance::Unknown => "Unknown"@,
    }
}

/// How a stance is called in the charts.
pub fn stance_label(s: Bip110Stance) -> (r: &'static str)
    ensures
        r@ == stance_name(s),
{
    match s {
        Bip110Stance::Enforcing => "BIP-110 ready",
        Bip110Stance::NotEnforcing => "Not ready",
        Bip110Stance::Unknown => "Unknown",
    }
}

/// The latencies of the nodes that are online and have one.
pub open spec fn live_latencies(nodes: Seq<NodeInfo>) -> Seq<u32>
    decreases nodes.len(),
{
    if nodes.len() == 0 {
        Seq::empty()
    } else {
        let rest = live_latencies(nodes.drop_last());
        let n = nodes.last();
        if n.online && n.latency_ms.is_some() {
            rest.push(n.latency_ms.unwrap())
        } else {
            rest
        }
    }
}

/// The implementations of nodes.
pub open spec fn implementations(nodes: Seq<NodeInfo>) -> Seq<Seq<char>> {
    nodes.map_values(|n: NodeInfo| n.implementation@)
}

/// The implementations and versions of nodes.
pub open spec fn versions(nodes: Seq<NodeInfo>) -> Seq<Seq<char>> {
    nodes.map_values(|n: NodeInfo| version_key(n.implementation@, n.version@))
}

/// The stances of nodes.
pub open spec fn stances(nodes: Seq<NodeInfo>) -> Seq<Seq<char>> {
    nodes.map_values(|n: NodeInfo| stance_name(n.bip110))
}

/// `a` holds the counts over `nodes`.
pub open spec fn aggregated(a: Aggregates, nodes: Seq<NodeInfo>) -> bool {
    &&& a.total_nodes == nodes.len()
    &&& a.handshaked_nodes == count(nodes, |n: NodeInfo| n.handshaked)
    &&& a.online_nodes == count(nodes, |n: NodeInfo| n.online)
    &&& a.onion_nodes == count(nodes, |n: NodeInfo| has_text(n.addr@, ".onion"@))
    &&& a.by_implementation@ == tally(implementations(nodes))
    &&& a.by_version@ == tally(versions(nodes))
    &&& a.by_bip110@ == tally(stances(nodes))
}

/// What one more key does to a tally.
proof fn lemma_tally_take(keys: Seq<Seq<char>>, i: int)
    requires
        0 <= i < keys.len(),
        keys.len() <= usize::MAX,
    ensures
        tally(keys.take(i + 1)) == tally(keys.take(i)).insert(
            keys[i],
            if tally(keys.take(i)).contains_key(keys[i]) {
                (tally(keys.take(i))[keys[i]] + 1) as usize
            } else {
                1usize
            },
        ),
        tally(keys.take(i)).contains_key(keys[i]) ==> tally(keys.take(i))[keys[i]] < usize::MAX,
{
    assert(keys.take(i + 1).drop_last() == keys.take(i));
    assert(keys.take(i + 1).last() == keys[i]);
    law_tally_counts(keys.take(i));
}

impl Aggregates {
    /// No nodes, no counts.
    pub fn empty() -> (r: Aggregates)
        ensures
            aggregated(r, Seq::empty()),
            r.latency_buckets@.len() == 0,
            r.median_latency_ms.is_none(),
    {
        let r = Aggregates {
            by_implementation: StrMap::new(),
            by_version: StrMap::new(),
            by_bip110: StrMap::new(),
            total_nodes: 0,
            handshaked_nodes: 0,
            online_nodes: 0,
            onion_nodes: 0,
            latency_buckets: Vec::new(),
            median_latency_ms: None,
        };
        r
    }

    /// The counts over `nodes`.
    #[verifier::rlimit(50)]
    pub fn from_nodes(nodes: &[NodeInfo]) -> (r: Aggregates)
        ensures
            aggregated(r, nodes@),
            r.latency_buckets@ == bands_from(live_latencies(nodes@), 0),
            r.median_latency_ms == median(live_latencies(nodes@)),
    {
        let ghost hs = |n: NodeInfo| n.handshaked;
        let ghost on = |n: NodeInfo| n.online;
        let ghost tor = |n: NodeInfo| has_text(n.addr@, ".onion"@);
        let ghost all = nodes@;
        let mut agg = Aggregates::empty();
        let mut latencies: Vec<u32> = Vec::new();
        let mut i: usize = 0;
        assert(all.take(0) == Seq::<NodeInfo>::empty());
        while i < nodes.len()
            invariant
                i <= nodes@.len(),
                all == nodes@,
                hs == (|n: NodeInfo| n.handshaked),
                on == (|n: NodeInfo| n.online),
                tor == (|n: NodeInfo| has_text(n.addr@, ".onion"@)),
                aggregated(agg, all.take(i as int)),
                latencies@ == live_latencies(all.take(i as int)),
            decreases nodes@.len() - i,
        {
            let n = &nodes[i];
            let ghost t = all.take(i as int);
            let ghost u = all.take(i + 1);
            proof {
                lemma_count_take(all, hs, i as int);
                lemma_count_take(all, on, i as int);
                lemma_count_take(all, tor, i as int);
                lemma_count_bound(t, hs);
                lemma_count_bound(t, on);
                lemma_count_bound(t, tor);
                lemma_tally_take(implementations(all), i as int);
                lemma_tally_take(versions(all), i as int);
                lemma_tally_take(stances(all), i as int);
                assert(implementations(t) == implementations(all).take(i as int));
                assert(versions(t) == versions(all).take(i as int));
                assert(stances(t) == stances(all).take(i as int));
                assert(implementations(u) == implementations(all).take(i + 1));
                assert(versions(u) == versions(all).take(i + 1));
                assert(stances(u) == stances(all).take(i + 1));
                assert(u.drop_last() == t);
                assert(u.last() == all[i as int]);
            }
            agg.total_nodes = agg.total_nodes + 1;
            if n.handshaked {
                agg.handshaked_nodes = agg.handshaked_nodes + 1;
            }
            if n.online {
                agg.online_nodes = agg.online_nodes + 1;
            }
            if contains_text(n.addr.as_str(), ".onion") {
                agg.onion_nodes = agg.onion_nodes + 1;
            }
            if n.online {
                if let Some(ms) = n.latency_ms {
                    latencies.push(ms);
                }
            }
            agg.by_implementation.bump(n.implementation.clone());
            agg.by_version.bump(version_label(n.implementation.as_str(), n.version.as_str()));
            agg.by_bip110.bump(stance_label(n.bip110).to_owned());
            i = i + 1;
        }
        assert(all.take(all.len() as int) == all);
        let (buckets, mid) = latency_histogram(latencies);
        agg.latency_buckets = buckets;
        agg.median_latency_ms = mid;
        agg
    }
}

/// What nodes that are offline were measured at does not count.
pub proof fn law_offline_latency_is_ignored(nodes: Seq<NodeInfo>, n: NodeInfo)
    requires
        !n.online,
    ensures
        live_latencies(nodes.push(n)) == live_latencies(nodes),
{
    assert(nodes.push(n).drop_last() == nodes);
}

// ---- signalling ---------------------------------------------------------------------------

/// How many blocks of the current period signal. (The share in percent is computed where it is
/// shown.)
#[derive(Debug, Clone, Copy, PartialEq, Eq)]
pub struct SignalStats {
    pub window: u32,
    pub blocks_scanned: u32,
    pub blocks_signalling: u32,
    pub bit: u8,
    pub tip_height: i64,
}

// ---- chain split --------------------------------------------------------------------------

/// A branch other than the active one.
#[derive(Debug)]
pub struct ForkTip {
    pub height: i64,
    pub branchlen: i64,
    pub status: String,
}

/// A branch, with its status as a sequence of characters.
#[verifier::ext_equal]
pub struct ForkView {
    pub height: i64,
    pub branchlen: i64,
    pub status: Seq<char>,
}

impl View for ForkTip {
    type V = ForkView;

    open spec fn view(&self) -> ForkView {
        ForkView { height: self.height, branchlen: self.branchlen, status: self.status@ }
    }
}

/// Whether the chain looks split, and on what grounds.
#[derive(Debug)]
pub struct ChainSplit {
    /// The verdict.
    pub split: bool,
    /// The height of the own node's active tip.
    pub active_height: i64,
    /// The branches that are not the active chain.
    pub forks: Vec<ForkTip>,
    /// The length of the longest of them; no ground for the verdict.
    pub longest_fork: i64,
    /// How many branches near the tip the own node rejects.
    pub rejected_branches: u32,
    /// How many peers reported a block hash at the reference height.
    pub responded: u32,
    /// How many different hashes they reported.
    pub distinct_chains: u32,
    /// How many peers are on the largest chain.
    pub largest_chain: u32,
    /// How many peers are on the next largest.
    pub second_chain: u32,
}

/// A branch that the own node rejects counts from this length on.
pub const MIN_REJECTED_FORK_LEN: i64 = 1;

/// A rejected branch counts where its tip is within so many blocks of the active one.
pub const REJECT_RECENCY: i64 = 2016;

/// A competing chain counts with so many peers on it.
pub const MIN_SPLIT_CLUSTER: u32 = 10;

/// The height of the first tip that is active, or 0.
pub open spec fn active_height(tips: Seq<ChainTip>) -> i64
    decreases tips.len(),
{
    if tips.len() == 0 {
        0
    } else if tips[0].status@ == "active"@ {
        tips[0].height
    } else {
        active_height(tips.skip(1))
    }
}

/// The branches among the tips, in their order.
pub open spec fn forks_of(tips: Seq<ChainTip>) -> Seq<ForkView>
    decreases tips.len(),
{
    if tips.len() == 0 {
        Seq::empty()
    } else {
        let rest = forks_of(tips.drop_last());
        let t = tips.last();
        if t.branchlen > 0 {
            rest.push(ForkView { height: t.height, branchlen: t.branchlen, status: t.status@ })
        } else {
            rest
        }
    }
}

/// The greatest length of a branch, or 0.
pub open spec fn longest_of(forks: Seq<ForkView>) -> i64
    decreases forks.len(),
{
    if forks.len() == 0 {
        0
    } else {
        let rest = longest_of(forks.drop_last());
        if forks.last().branchlen > rest {
            forks.last().branchlen
        } else {
            rest
        }
    }
}

/// The distance of two heights.
pub open spec fn distance(a: int, b: int) -> int {
    if a < b {
        b - a
    } else {
        a - b
    }
}

/// A branch that the own node rejects, near its active tip. Where the active height is not
/// known, every rejected branch counts.
pub open spec fn rejected(active: i64) -> spec_fn(ForkView) -> bool {
    |f: ForkView|
        f.status == "invalid"@ && f.branchlen >= MIN_REJECTED_FORK_LEN && (active == 0 || distance(
            active as int,
            f.height as int,
        ) <= REJECT_RECENCY)
}

/// The block hashes that the peers with a completed handshake reported.
pub open spec fn reported(peers: Seq<&NodeInfo>) -> Seq<Seq<char>>
    decreases peers.len(),
{
    if peers.len() == 0 {
        Seq::empty()
    } else {
        let rest = reported(peers.drop_last());
        let n = peers.last();
        if n.handshaked && n.chain_hash@.len() > 0 {
            rest.push(n.chain_hash@)
        } else {
            rest
        }
    }
}

/// `a` is the greatest of the counts in `m` and `b` the next: that of another key, and no other
/// has more. With fewer than two keys `b` is 0, with none `a` is too.
pub open spec fn two_largest(m: Map<Seq<char>, usize>, a: int, b: int) -> bool {
    &&& m.dom().len() == 0 ==> a == 0 && b == 0
    &&& m.dom().len() == 1 ==> b == 0
    &&& m.dom().len() >= 1 ==> exists|k: Seq<char>|
        #![trigger m.contains_key(k)]
        m.contains_key(k) && m[k] == a && (forall|q: Seq<char>|
            m.contains_key(q) && q != k ==> #[trigger] m[q] <= b) && (m.dom().len() >= 2 ==> exists|
            p: Seq<char>,
        |
            p != k && #[trigger] m.contains_key(p) && m[p] == b)
    &&& b <= a
}

fn active_tip(tips: &[ChainTip]) -> (r: i64)
    ensures
        r == active_height(tips@),
{
    let mut i: usize = 0;
    assert(tips@.skip(0) == tips@);
    while i < tips.len()
        invariant
            i <= tips@.len(),
            active_height(tips@) == active_height(tips@.skip(i as int)),
        decreases tips@.len() - i,
    {
        if same_text(tips[i].status.as_str(), "active") {
            return tips[i].height;
        }
        assert(tips@.skip(i as int).skip(1) == tips@.skip(i + 1));
        i = i + 1;
    }
    0
}

/// The views of branches.
pub open spec fn fork_views(v: Seq<ForkTip>) -> Seq<ForkView> {
    v.map_values(|f: ForkTip| f@)
}

fn collect_forks(tips: &[ChainTip]) -> (r: Vec<ForkTip>)
    ensures
        fork_views(r@) == forks_of(tips@),
{
    let mut out: Vec<ForkTip> = Vec::new();
    let mut i: usize = 0;
    assert(tips@.take(0).len() == 0);
    assert(fork_views(out@) =~= Seq::<ForkView>::empty());
    while i < tips.len()
        invariant
            i <= tips@.len(),
            fork_views(out@) == forks_of(tips@.take(i as int)),
        decreases tips@.len() - i,
    {
        let t = &tips[i];
        proof {
            assert(tips@.take(i + 1).drop_last() == tips@.take(i as int));
            assert(tips@.take(i + 1).last() == tips@[i as int]);
        }
        if t.branchlen > 0 {
            let f = ForkTip {
                height: t.height,
                branchlen: t.branchlen,
                status: t.status.clone(),
            };
            assert(fork_views(out@.push(f)) =~= fork_views(out@).push(f@));
            out.push(f);
        }
        i = i + 1;
    }
    assert(tips@.take(tips@.len() as int) == tips@);
    out
}

fn count_rejected(forks: &Vec<ForkTip>, active: i64) -> (r: usize)
    ensures
        r == count(fork_views(forks@), rejected(active)),
{
    let ghost f = rejected(active);
    let ghost v = fork_views(forks@);
    let mut n: usize = 0;
    let mut i: usize = 0;
    assert(v.take(0).len() == 0);
    while i < forks.len()
        invariant
            i <= forks@.len(),
            f == rejected(active),
            v == fork_views(forks@),
            n == count(v.take(i as int), f),
            n <= i,
        decreases forks@.len() - i,
    {
        let t = &forks[i];
        proof {
            lemma_count_take(v, f, i as int);
            assert(v[i as int] == t@);
        }
        let d: i128 = active as i128 - t.height as i128;
        let near: bool = active == 0 || (-(REJECT_RECENCY as i128) <= d && d
            <= REJECT_RECENCY as i128);
        if same_text(t.status.as_str(), "invalid") && t.branchlen >= MIN_REJECTED_FORK_LEN && near {
            n = n + 1;
        }
        i = i + 1;
    }
    assert(v.take(v.len() as int) == v);
    n
}

fn longest_branch(forks: &Vec<ForkTip>) -> (r: i64)
    ensures
        r == longest_of(fork_views(forks@)),
{
    let ghost v = fork_views(forks@);
    let mut m: i64 = 0;
    let mut i: usize = 0;
    assert(v.take(0).len() == 0);
    while i < forks.len()
        invariant
            i <= forks@.len(),
            v == fork_views(forks@),
            m == longest_of(v.take(i as int)),
        decreases forks@.len() - i,
    {
        proof {
            assert(v.take(i + 1).drop_last() == v.take(i as int));
            assert(v.take(i + 1).last() == forks@[i as int]@);
        }
        if forks[i].branchlen > m {
            m = forks[i].branchlen;
        }
        i = i + 1;
    }
    assert(v.take(v.len() as int) == v);
    m
}

/// How many peers are on each chain, and how many there are in all.
pub fn cluster(peers: &[&NodeInfo]) -> (r: (StrMap<usize>, usize))
    ensures
        r.0@ == tally(reported(peers@)),
        r.1 == reported(peers@).len(),
        r.1 <= peers@.len(),
{
    let mut m: StrMap<usize> = StrMap::new();
    let mut n: usize = 0;
    let mut i: usize = 0;
    assert(peers@.take(0).len() == 0);
    while i < peers.len()
        invariant
            i <= peers@.len(),
            m@ == tally(reported(peers@.take(i as int))),
            n == reported(peers@.take(i as int)).len(),
            n <= i,
        decreases peers@.len() - i,
    {
        let p: &NodeInfo = peers[i];
        let ghost t = peers@.take(i as int);
        let ghost u = peers@.take(i + 1);
        proof {
            assert(u.drop_last() == t);
            assert(u.last() == peers@[i as int]);
            law_tally_counts(reported(t));
        }
        if p.handshaked && chars_of(p.chain_hash.as_str()).len() > 0 {
            assert(reported(u) == reported(t).push(p.chain_hash@));
            assert(reported(u).drop_last() == reported(t));
            m.bump(p.chain_hash.clone());
            n = n + 1;
        }
        i = i + 1;
    }
    assert(peers@.take(peers@.len() as int) == peers@);
    (m, n)
}

/// The two greatest counts.
fn top_two(m: &StrMap<usize>) -> (r: (usize, usize))
    ensures
        two_largest(m@, r.0 as int, r.1 as int),
        r.0 == 0 || exists|k: Seq<char>| m@.contains_key(k) && m@[k] == r.0,
{
    let n = m.len();
    let ghost keys = m.keys();
    let mut first: usize = 0;
    let mut second: usize = 0;
    let mut at: usize = 0;
    let mut next: usize = 0;
    let mut i: usize = 0;
    while i < n
        invariant
            i <= n,
            n == keys.len(),
            keys == m.keys(),
            second <= first,
            i == 0 ==> first == 0 && second == 0,
            i == 1 ==> second == 0,
            i >= 1 ==> at < i && first == m@[keys[at as int]],
            i >= 2 ==> next < i && next != at && second == m@[keys[next as int]],
            forall|j: int|
                0 <= j < i && j != at ==> m@[#[trigger] keys[j]] <= second,
        decreases n - i,
    {
        let c: usize = *m.value_at(i);
        if i == 0 {
            first = c;
            at = 0;
        } else if c > first {
            second = first;
            next = at;
            first = c;
            at = i;
        } else if c > second || i == 1 {
            second = c;
            next = i;
        }
        i = i + 1;
    }
    proof {
        if n >= 1 {
            let k = keys[at as int];
            assert(keys.contains(k));
            assert(m@.contains_key(k));
            assert forall|q: Seq<char>| m@.contains_key(q) && q != k implies #[trigger] m@[q]
                <= second by {
                assert(keys.contains(q));
                let j = choose|j: int| 0 <= j < keys.len() && keys[j] == q;
                assert(j != at);
            }
            if n >= 2 {
                let p = keys[next as int];
                assert(keys.contains(p));
                assert(m@.contains_key(p));
                if next < at {
                    assert(crate::text::lex_less(keys[next as int], keys[at as int]));
                } else {
                    assert(crate::text::lex_less(keys[at as int], keys[next as int]));
                }
                crate::text::lemma_lex_irreflexive(k);
                assert(p != k);
            }
        }
    }
    (first, second)
}

/// `r` is the assessment from these tips and peers.
pub open spec fn assessed(r: ChainSplit, tips: Seq<ChainTip>, peers: Seq<&NodeInfo>) -> bool {
    &&& r.active_height == active_height(tips)
    &&& fork_views(r.forks@) == forks_of(tips)
    &&& r.longest_fork == longest_of(forks_of(tips))
    &&& r.rejected_branches == (count(
        forks_of(tips),
        rejected(active_height(tips)),
    ) as usize) as u32
    &&& r.responded == reported(peers).len()
    &&& r.distinct_chains == tally(reported(peers)).dom().len()
    &&& two_largest(tally(reported(peers)), r.largest_chain as int, r.second_chain as int)
    &&& r.split == (r.rejected_branches > 0 || r.second_chain >= MIN_SPLIT_CLUSTER)
}

/// The assessment from the own node's chain tips and the peers that were crawled. Two things are
/// grounds for a split: a recent branch that the own node rejects, and a second chain with
/// enough peers on it.
pub fn assess_chain_split(tips: &[ChainTip], peers: &[&NodeInfo]) -> (r: ChainSplit)
    requires
        peers@.len() <= u32::MAX,
    ensures
        assessed(r, tips@, peers@),
{
    let active = active_tip(tips);
    let forks = collect_forks(tips);
    let longest_fork = longest_branch(&forks);
    let rejected_branches: u32 = count_rejected(&forks, active) as u32;
    let (counts, responded) = cluster(peers);
    let (first, second) = top_two(&counts);
    let distinct = counts.len();
    proof {
        law_tally_counts(reported(peers@));
        crate::strmap::lemma_tally_size(reported(peers@));
    }
    let split = rejected_branches > 0 || second as u32 >= MIN_SPLIT_CLUSTER;
    ChainSplit {
        split,
        active_height: active,
        forks,
        longest_fork,
        rejected_branches,
        responded: responded as u32,
        distinct_chains: distinct as u32,
        largest_chain: first as u32,
        second_chain: second as u32,
    }
}

/// A peer that reported a block hash.
pub open spec fn has_reported<'a>() -> spec_fn(&'a NodeInfo) -> bool {
    |n: &'a NodeInfo| n.handshaked && n.chain_hash@.len() > 0
}

/// A peer that reported this block hash.
spec fn reported_hash<'a>(h: Seq<char>) -> spec_fn(&'a NodeInfo) -> bool {
    |n: &'a NodeInfo| n.handshaked && n.chain_hash@.len() > 0 && n.chain_hash@ == h
}

/// A hash is reported as often as there are peers that reported it.
proof fn lemma_reported(peers: Seq<&NodeInfo>, h: Seq<char>)
    ensures
        occurrences(reported(peers), h) == count(peers, reported_hash(h)),
        reported(peers).len() == count(peers, has_reported()),
    decreases peers.len(),
{
    if peers.len() > 0 {
        let d = peers.drop_last();
        lemma_reported(d, h);
        let n = peers.last();
        if n.handshaked && n.chain_hash@.len() > 0 {
            assert(reported(d).push(n.chain_hash@).drop_last() =~= reported(d));
        }
    }
}

/// Hashes that occur equally often have the same tally.
proof fn lemma_same_tally(a: Seq<Seq<char>>, b: Seq<Seq<char>>)
    requires
        a.len() <= usize::MAX,
        b.len() <= usize::MAX,
        forall|h: Seq<char>| #[trigger] occurrences(a, h) == occurrences(b, h),
    ensures
        tally(a) == tally(b),
{
    law_tally_counts(a);
    law_tally_counts(b);
    assert forall|h: Seq<char>| #[trigger] tally(a).contains_key(h) <==> tally(b).contains_key(
        h,
    ) by {
        assert(occurrences(a, h) == occurrences(b, h));
    }
    assert forall|h: Seq<char>| #[trigger] tally(a).contains_key(h) implies tally(a)[h] == tally(
        b,
    )[h] by {
        assert(occurrences(a, h) == occurrences(b, h));
        assert(tally(b).contains_key(h));
    }
    assert(tally(a) =~= tally(b));
}

/// The two greatest counts are determined.
proof fn lemma_two_largest_unique(m: Map<Seq<char>, usize>, a: int, b: int, c: int, d: int)
    requires
        two_largest(m, a, b),
        two_largest(m, c, d),
    ensures
        a == c,
        b == d,
{
    if m.dom().len() >= 1 {
        let k = choose|k: Seq<char>|
            #![trigger m.contains_key(k)]
            m.contains_key(k) && m[k] == a && (forall|q: Seq<char>|
                m.contains_key(q) && q != k ==> #[trigger] m[q] <= b) && (m.dom().len() >= 2
                ==> exists|p: Seq<char>| p != k && #[trigger] m.contains_key(p) && m[p] == b);
        let l = choose|k: Seq<char>|
            #![trigger m.contains_key(k)]
            m.contains_key(k) && m[k] == c && (forall|q: Seq<char>|
                m.contains_key(q) && q != k ==> #[trigger] m[q] <= d) && (m.dom().len() >= 2
                ==> exists|p: Seq<char>| p != k && #[trigger] m.contains_key(p) && m[p] == d);
        assert(m[k] == a && m[l] == c);
        if m.dom().len() >= 2 {
            let p = choose|p: Seq<char>| p != k && #[trigger] m.contains_key(p) && m[p] == b;
            let q = choose|p: Seq<char>| p != l && #[trigger] m.contains_key(p) && m[p] == d;
            assert(m[p] == b && m[q] == d);
        }
    }
}

/// The assessment does not depend on the order of the peers.
pub proof fn law_split_ignores_order(
    r: ChainSplit,
    q: ChainSplit,
    tips: Seq<ChainTip>,
    peers: Seq<&NodeInfo>,
    others: Seq<&NodeInfo>,
)
    requires
        peers.len() <= u32::MAX,
        peers.to_multiset() == others.to_multiset(),
        assessed(r, tips, peers),
        assessed(q, tips, others),
    ensures
        r.split == q.split,
        r.active_height == q.active_height,
        fork_views(r.forks@) == fork_views(q.forks@),
        r.longest_fork == q.longest_fork,
        r.rejected_branches == q.rejected_branches,
        r.responded == q.responded,
        r.distinct_chains == q.distinct_chains,
        r.largest_chain == q.largest_chain,
        r.second_chain == q.second_chain,
{
    let a = reported(peers);
    let b = reported(others);
    law_count_ignores_order(peers, others, has_reported());
    lemma_count_bound(peers, has_reported());
    lemma_reported(peers, Seq::empty());
    lemma_reported(others, Seq::empty());
    assert forall|h: Seq<char>| #[trigger] occurrences(a, h) == occurrences(b, h) by {
        lemma_reported(peers, h);
        lemma_reported(others, h);
        law_count_ignores_order(peers, others, reported_hash(h));
    }
    lemma_same_tally(a, b);
    lemma_two_largest_unique(
        tally(a),
        r.largest_chain as int,
        r.second_chain as int,
        q.largest_chain as int,
        q.second_chain as int,
    );
}

/// Two different hashes together are reported no more often than there are reports.
proof fn lemma_two_hashes(hashes: Seq<Seq<char>>, h: Seq<char>, k: Seq<char>)
    requires
        h != k,
    ensures
        occurrences(hashes, h) + occurrences(hashes, k) <= hashes.len(),
    decreases hashes.len(),
{
    if hashes.len() > 0 {
        lemma_two_hashes(hashes.drop_last(), h, k);
    }
}

/// How the numbers of an assessment hang together: those that responded are the peers that
/// reported a hash, the chains are their different hashes, and the two largest chains together
/// have no more peers than responded. There is a second chain exactly where there are two hashes,
/// and a first exactly where somebody responded.
pub proof fn law_chain_sizes(r: ChainSplit, tips: Seq<ChainTip>, peers: Seq<&NodeInfo>)
    requires
        peers.len() <= u32::MAX,
        assessed(r, tips, peers),
    ensures
        r.responded == count(peers, has_reported()),
        r.distinct_chains == reported(peers).to_set().len(),
        r.second_chain <= r.largest_chain,
        r.largest_chain + r.second_chain <= r.responded,
        r.second_chain > 0 <==> r.distinct_chains >= 2,
        r.responded == 0 <==> r.largest_chain == 0,
{
    let hashes = reported(peers);
    let m = tally(hashes);
    lemma_reported(peers, Seq::empty());
    lemma_count_bound(peers, has_reported());
    law_tally_counts(hashes);
    crate::strmap::lemma_tally_size(hashes);
    assert(m.dom() =~= hashes.to_set());
    let (a, b) = (r.largest_chain as int, r.second_chain as int);
    if m.dom().len() >= 1 {
        let k = choose|k: Seq<char>|
            #![trigger m.contains_key(k)]
            m.contains_key(k) && m[k] == a && (forall|q: Seq<char>|
                m.contains_key(q) && q != k ==> #[trigger] m[q] <= b) && (m.dom().len() >= 2
                ==> exists|p: Seq<char>| p != k && #[trigger] m.contains_key(p) && m[p] == b);
        assert(m[k] == occurrences(hashes, k));
        if m.dom().len() >= 2 {
            let p = choose|p: Seq<char>| p != k && #[trigger] m.contains_key(p) && m[p] == b;
            assert(m[p] == occurrences(hashes, p));
            lemma_two_hashes(hashes, k, p);
        }
    } else if hashes.len() > 0 {
        assert(hashes.contains(hashes[0]));
        assert(m.contains_key(hashes[0]));
        assert(m.dom().contains(hashes[0]));
    }
}

/// Where all peers that answered are on one chain, no second chain is large enough for a split.
pub proof fn law_one_chain_is_no_split(hashes: Seq<Seq<char>>, largest: int, second: int)
    requires
        hashes.len() <= usize::MAX,
        forall|i: int, j: int| 0 <= i < hashes.len() && 0 <= j < hashes.len() ==> hashes[i] == hashes[j],
        two_largest(tally(hashes), largest, second),
    ensures
        second < MIN_SPLIT_CLUSTER,
{
    law_tally_counts(hashes);
    let m = tally(hashes);
    if m.dom().len() >= 2 {
        let k = choose|k: Seq<char>|
            #![trigger m.contains_key(k)]
            m.contains_key(k) && m[k] == largest && (exists|p: Seq<char>|
                p != k && #[trigger] m.contains_key(p) && m[p] == second);
        let p = choose|p: Seq<char>| p != k && #[trigger] m.contains_key(p) && m[p] == second;
        assert(hashes.contains(k) && hashes.contains(p));
    }
}

/// Branches that are not rejected, however long, and rejected ones far from the active tip are no
/// ground for a split.
pub proof fn law_routine_branches_are_no_split(tips: Seq<ChainTip>, active: i64)
    requires
        forall|i: int|
            0 <= i < tips.len() ==> (#[trigger] tips[i]).status@ != "invalid"@ || (active != 0
                && distance(active as int, tips[i].height as int) > REJECT_RECENCY),
    ensures
        count(forks_of(tips), rejected(active)) == 0,
    decreases tips.len(),
{
    if tips.len() > 0 {
        let d = tips.drop_last();
        assert forall|i: int| 0 <= i < d.len() implies (#[trigger] d[i]).status@ != "invalid"@ || (
        active != 0 && distance(active as int, d[i].height as int) > REJECT_RECENCY) by {
            assert(tips[i] == d[i]);
        }
        law_routine_branches_are_no_split(d, active);
        let rest = forks_of(d);
        let t = tips.last();
        assert(tips[tips.len() - 1] == t);
        if t.branchlen > 0 {
            let f = ForkView { height: t.height, branchlen: t.branchlen, status: t.status@ };
            assert(rest.push(f).drop_last() =~= rest);
        }
    }
}

/// The active height is that of the first tip that is active, and 0 where none is.
proof fn lemma_active_height(tips: Seq<ChainTip>, a: int)
    requires
        0 <= a <= tips.len(),
        forall|j: int| 0 <= j < a ==> (#[trigger] tips[j]).status@ != "active"@,
        a < tips.len() ==> tips[a].status@ == "active"@,
    ensures
        active_height(tips) == (if a < tips.len() {
            tips[a].height
        } else {
            0
        }),
    decreases a,
{
    if a > 0 {
        let r = tips.skip(1);
        assert(tips[0].status@ != "active"@);
        assert forall|j: int| 0 <= j < a - 1 implies (#[trigger] r[j]).status@ != "active"@ by {
            assert(r[j] == tips[j + 1]);
        }
        lemma_active_height(r, a - 1);
    }
}

/// How many branches are rejected is how many tips are invalid, on a branch, and near the tip.
proof fn lemma_rejected_tips(tips: Seq<ChainTip>, active: i64)
    ensures
        count(forks_of(tips), rejected(active)) == count(
            tips,
            |t: ChainTip|
                t.status@ == "invalid"@ && t.branchlen >= 1 && (active == 0 || -2016 <= t.height
                    - active <= 2016),
        ),
        forks_of(tips).len() == count(tips, |t: ChainTip| t.branchlen >= 1),
    decreases tips.len(),
{
    if tips.len() > 0 {
        lemma_rejected_tips(tips.drop_last(), active);
        let t = tips.last();
        let rest = forks_of(tips.drop_last());
        if t.branchlen > 0 {
            let f = ForkView { height: t.height, branchlen: t.branchlen, status: t.status@ };
            assert(rest.push(f).drop_last() =~= rest);
        }
    }
}

/// What one entry meets is counted.
proof fn lemma_counted_one<T>(s: Seq<T>, f: spec_fn(T) -> bool, i: int)
    requires
        0 <= i < s.len(),
        f(s[i]),
    ensures
        count(s, f) >= 1,
    decreases s.len(),
{
    if i < s.len() - 1 {
        assert(s.drop_last()[i] == s[i]);
        lemma_counted_one(s.drop_last(), f, i);
    }
}

/// What is counted is met by some entry.
proof fn lemma_counted_some<T>(s: Seq<T>, f: spec_fn(T) -> bool) -> (i: int)
    requires
        count(s, f) >= 1,
    ensures
        0 <= i < s.len(),
        f(s[i]),
    decreases s.len(),
{
    if f(s.last()) {
        s.len() - 1
    } else {
        let i = lemma_counted_some(s.drop_last(), f);
        assert(s.drop_last()[i] == s[i]);
        i
    }
}

/// As many branches are rejected as there are tips that are invalid, stand on a branch, and lie
/// within 2016 blocks of the first active tip on either side, or anywhere where none is active.
/// One such tip is a split.
pub proof fn law_recent_rejected_branch_is_a_split(
    r: ChainSplit,
    tips: Seq<ChainTip>,
    peers: Seq<&NodeInfo>,
    a: int,
)
    requires
        assessed(r, tips, peers),
        tips.len() <= u32::MAX,
        0 <= a <= tips.len(),
        forall|j: int| 0 <= j < a ==> (#[trigger] tips[j]).status@ != "active"@,
        a < tips.len() ==> tips[a].status@ == "active"@,
    ensures
        r.active_height == (if a < tips.len() {
            tips[a].height
        } else {
            0
        }),
        r.rejected_branches == count(
            tips,
            |t: ChainTip|
                t.status@ == "invalid"@ && t.branchlen >= 1 && (r.active_height == 0 || -2016
                    <= t.height - r.active_height <= 2016),
        ),
        forall|i: int|
            0 <= i < tips.len() && (#[trigger] tips[i]).status@ == "invalid"@ && tips[i].branchlen
                >= 1 && (r.active_height == 0 || -2016 <= tips[i].height - r.active_height <= 2016)
                ==> r.rejected_branches >= 1 && r.split,
        r.forks@.len() == count(tips, |t: ChainTip| t.branchlen >= 1),
{
    lemma_active_height(tips, a);
    lemma_rejected_tips(tips, r.active_height);
    let f = |t: ChainTip|
        t.status@ == "invalid"@ && t.branchlen >= 1 && (r.active_height == 0 || -2016 <= t.height
            - r.active_height <= 2016);
    lemma_count_bound(tips, f);
    assert(fork_views(r.forks@).len() == r.forks@.len());
    assert forall|i: int|
        0 <= i < tips.len() && (#[trigger] tips[i]).status@ == "invalid"@ && tips[i].branchlen >= 1
            && (r.active_height == 0 || -2016 <= tips[i].height - r.active_height
            <= 2016) implies r.rejected_branches >= 1 && r.split by {
        assert(f(tips[i]));
        lemma_counted_one(tips, f, i);
    }
}

/// Every branch is listed with its height, length and status, and the longest branch is one of
/// them, or 0 where there is none.
pub proof fn law_branches_are_listed(r: ChainSplit, tips: Seq<ChainTip>, peers: Seq<&NodeInfo>)
    requires
        assessed(r, tips, peers),
    ensures
        forall|i: int|
            0 <= i < tips.len() && (#[trigger] tips[i]).branchlen > 0 ==> exists|j: int|
                0 <= j < r.forks@.len() && (#[trigger] r.forks@[j]).height == tips[i].height
                    && r.forks@[j].branchlen == tips[i].branchlen && r.forks@[j].status@
                    == tips[i].status@,
        forall|j: int|
            0 <= j < r.forks@.len() ==> (#[trigger] r.forks@[j]).branchlen > 0
                && r.forks@[j].branchlen <= r.longest_fork,
        r.forks@.len() == 0 ==> r.longest_fork == 0,
        r.forks@.len() > 0 ==> exists|j: int|
            0 <= j < r.forks@.len() && (#[trigger] r.forks@[j]).branchlen == r.longest_fork,
{
    let v = forks_of(tips);
    let w = fork_views(r.forks@);
    assert(w.len() == r.forks@.len());
    lemma_forks(tips);
    lemma_longest(v);
    assert forall|i: int| 0 <= i < tips.len() && (#[trigger] tips[i]).branchlen > 0 implies exists|
        j: int,
    |
        0 <= j < r.forks@.len() && (#[trigger] r.forks@[j]).height == tips[i].height
            && r.forks@[j].branchlen == tips[i].branchlen && r.forks@[j].status@
            == tips[i].status@ by {
        let t = tips[i];
        let f = ForkView { height: t.height, branchlen: t.branchlen, status: t.status@ };
        assert(v.contains(f));
        let j = choose|j: int| 0 <= j < v.len() && v[j] == f;
        assert(r.forks@[j]@ == f);
    }
    assert forall|j: int| 0 <= j < r.forks@.len() implies (#[trigger] r.forks@[j]).branchlen > 0
        && r.forks@[j].branchlen <= r.longest_fork by {
        assert(w[j] == r.forks@[j]@);
    }
    if v.len() > 0 {
        let j = choose|j: int| 0 <= j < v.len() && (#[trigger] v[j]).branchlen == longest_of(v);
        assert(r.forks@[j]@ == v[j]);
    }
}

proof fn lemma_forks(tips: Seq<ChainTip>)
    ensures
        forall|i: int|
            0 <= i < tips.len() && (#[trigger] tips[i]).branchlen > 0 ==> forks_of(tips).contains(
                (ForkView {
                    height: tips[i].height,
                    branchlen: tips[i].branchlen,
                    status: tips[i].status@,
                }),
            ),
        forall|j: int| 0 <= j < forks_of(tips).len() ==> (#[trigger] forks_of(tips)[j]).branchlen > 0,
    decreases tips.len(),
{
    if tips.len() > 0 {
        let d = tips.drop_last();
        let rest = forks_of(d);
        let all = forks_of(tips);
        lemma_forks(d);
        assert forall|i: int| 0 <= i < tips.len() && (#[trigger] tips[i]).branchlen > 0 implies all.contains(
        (ForkView {
            height: tips[i].height,
            branchlen: tips[i].branchlen,
            status: tips[i].status@,
        })) by {
            let t = tips[i];
            let f = ForkView { height: t.height, branchlen: t.branchlen, status: t.status@ };
            if i < d.len() {
                assert(d[i] == t);
                let j = choose|j: int| 0 <= j < rest.len() && rest[j] == f;
                assert(all[j] == f);
            } else {
                assert(all[rest.len() as int] == f);
            }
        }
    }
}

proof fn lemma_longest(v: Seq<ForkView>)
    requires
        forall|j: int| 0 <= j < v.len() ==> (#[trigger] v[j]).branchlen > 0,
    ensures
        forall|j: int| 0 <= j < v.len() ==> (#[trigger] v[j]).branchlen <= longest_of(v),
        v.len() > 0 ==> exists|j: int| 0 <= j < v.len() && (#[trigger] v[j]).branchlen == longest_of(v),
        v.len() == 0 ==> longest_of(v) == 0,
    decreases v.len(),
{
    if v.len() > 0 {
        let d = v.drop_last();
        assert forall|j: int| 0 <= j < d.len() implies (#[trigger] d[j]).branchlen > 0 by {
            assert(v[j] == d[j]);
        }
        lemma_longest(d);
        assert forall|j: int| 0 <= j < v.len() implies (#[trigger] v[j]).branchlen <= longest_of(v) by {
            if j < d.len() {
                assert(d[j] == v[j]);
            }
        }
        if longest_of(v) == v.last().branchlen {
            assert(v[v.len() - 1].branchlen == longest_of(v));
        } else {
            let j = choose|j: int| 0 <= j < d.len() && (#[trigger] d[j]).branchlen == longest_of(d);
            assert(v[j] == d[j]);
        }
    }
}

/// Two different block hashes that ten peers each reported are a split.
pub proof fn law_two_supported_chains_are_a_split(
    r: ChainSplit,
    tips: Seq<ChainTip>,
    peers: Seq<&NodeInfo>,
    h: Seq<char>,
    k: Seq<char>,
)
    requires
        assessed(r, tips, peers),
        peers.len() <= u32::MAX,
        h != k,
        h.len() > 0,
        k.len() > 0,
        count(peers, |n: &NodeInfo| n.handshaked && n.chain_hash@ == h) >= 10,
        count(peers, |n: &NodeInfo| n.handshaked && n.chain_hash@ == k) >= 10,
    ensures
        r.split,
        r.second_chain >= 10,
        r.largest_chain >= 10,
        r.distinct_chains >= 2,
{
    let hashes = reported(peers);
    let m = tally(hashes);
    lemma_chain_peers(peers, h);
    lemma_chain_peers(peers, k);
    lemma_reported(peers, h);
    lemma_reported(peers, k);
    lemma_count_bound(peers, has_reported());
    law_tally_counts(hashes);
    crate::strmap::lemma_tally_size(hashes);
    assert(m.contains_key(h) && m.contains_key(k));
    assert(m.dom().contains(h) && m.dom().contains(k));
    assert(m[h] >= 10 && m[k] >= 10);
    if m.dom().len() < 2 {
        vstd::set_lib::lemma_len_subset(set![h, k], m.dom());
        assert(set![h].insert(k).len() == 2);
        assert(set![h, k] =~= set![h].insert(k));
    }
    let (a, b) = (r.largest_chain as int, r.second_chain as int);
    let x = choose|x: Seq<char>|
        #![trigger m.contains_key(x)]
        m.contains_key(x) && m[x] == a && (forall|q: Seq<char>|
            m.contains_key(q) && q != x ==> #[trigger] m[q] <= b) && (m.dom().len() >= 2 ==> exists|
            p: Seq<char>,
        | p != x && #[trigger] m.contains_key(p) && m[p] == b);
    if x != h {
        assert(m[h] <= b);
    }
    if x != k {
        assert(m[k] <= b);
    }
}

/// A peer with a completed handshake and this block hash.
pub open spec fn on_chain<'a>(h: Seq<char>) -> spec_fn(&'a NodeInfo) -> bool {
    |n: &'a NodeInfo| n.handshaked && n.chain_hash@ == h
}

/// A split has a ground: a recent branch that the own node rejects, or two different block hashes
/// that ten peers each reported.
pub proof fn law_split_has_a_ground(r: ChainSplit, tips: Seq<ChainTip>, peers: Seq<&NodeInfo>)
    requires
        assessed(r, tips, peers),
        peers.len() <= u32::MAX,
        tips.len() <= u32::MAX,
        r.split,
    ensures
        (exists|i: int|
            0 <= i < tips.len() && (#[trigger] tips[i]).status@ == "invalid"@ && tips[i].branchlen
                >= 1 && (r.active_height == 0 || -2016 <= tips[i].height - r.active_height
                <= 2016)) || (exists|h: Seq<char>, k: Seq<char>|
            h != k && count(peers, #[trigger] on_chain(h)) >= 10 && count(
                peers,
                #[trigger] on_chain(k),
            ) >= 10),
{
    let f = |t: ChainTip|
        t.status@ == "invalid"@ && t.branchlen >= 1 && (r.active_height == 0 || -2016 <= t.height
            - r.active_height <= 2016);
    lemma_rejected_tips(tips, r.active_height);
    lemma_count_bound(tips, f);
    if r.rejected_branches > 0 {
        let i = lemma_counted_some(tips, f);
        assert(f(tips[i]));
    } else {
        let hashes = reported(peers);
        let m = tally(hashes);
        lemma_reported(peers, Seq::empty());
        lemma_count_bound(peers, has_reported());
        law_tally_counts(hashes);
        let (a, b) = (r.largest_chain as int, r.second_chain as int);
        let x = choose|x: Seq<char>|
            #![trigger m.contains_key(x)]
            m.contains_key(x) && m[x] == a && (forall|q: Seq<char>|
                m.contains_key(q) && q != x ==> #[trigger] m[q] <= b) && (m.dom().len() >= 2
                ==> exists|p: Seq<char>| p != x && #[trigger] m.contains_key(p) && m[p] == b);
        let y = choose|p: Seq<char>| p != x && #[trigger] m.contains_key(p) && m[p] == b;
        lemma_reported(peers, x);
        lemma_reported(peers, y);
        lemma_chain_hash_filled(peers, x);
        lemma_chain_hash_filled(peers, y);
        lemma_chain_peers(peers, x);
        lemma_chain_peers(peers, y);
        assert(count(peers, on_chain(x)) >= 10);
        assert(count(peers, on_chain(y)) >= 10);
    }
}

/// A hash that is reported is not empty.
proof fn lemma_chain_hash_filled(peers: Seq<&NodeInfo>, h: Seq<char>)
    ensures
        occurrences(reported(peers), h) > 0 ==> h.len() > 0,
    decreases peers.len(),
{
    if peers.len() > 0 {
        let d = peers.drop_last();
        lemma_chain_hash_filled(d, h);
        let n = peers.last();
        if n.handshaked && n.chain_hash@.len() > 0 {
            assert(reported(d).push(n.chain_hash@).drop_last() =~= reported(d));
        }
    }
}

/// The peers that reported a hash are those with it and a completed handshake.
proof fn lemma_chain_peers(peers: Seq<&NodeInfo>, h: Seq<char>)
    requires
        h.len() > 0,
    ensures
        count(peers, reported_hash(h)) == count(
            peers,
            |n: &NodeInfo| n.handshaked && n.chain_hash@ == h,
        ),
        count(peers, reported_hash(h)) == count(peers, on_chain(h)),
    decreases peers.len(),
{
    if peers.len() > 0 {
        lemma_chain_peers(peers.drop_last(), h);
    }
}

// ---- figures over all nodes ---------------------------------------------------------------

/// A count over two lists is the two counts, and over one entry whether it meets the condition.
pub proof fn law_count<T>(a: Seq<T>, b: Seq<T>, x: T, f: spec_fn(T) -> bool)
    ensures
        count(Seq::<T>::empty(), f) == 0,
        f(x) ==> count(seq![x], f) == 1,
        !f(x) ==> count(seq![x], f) == 0,
        count(a + b, f) == count(a, f) + count(b, f),
    decreases b.len(),
{
    reveal_with_fuel(count, 2);
    assert(seq![x].drop_last() =~= Seq::<T>::empty());
    if b.len() == 0 {
        assert(a + b =~= a);
    } else {
        law_count(a, b.drop_last(), x, f);
        assert((a + b).drop_last() =~= a + b.drop_last());
    }
}

/// A text occurs among those of entries as often as entries have it.
proof fn lemma_texts_counted<T>(
    s: Seq<T>,
    key: spec_fn(T) -> Seq<char>,
    f: spec_fn(T) -> bool,
    k: Seq<char>,
)
    requires
        forall|x: T| #[trigger] f(x) == (key(x) == k),
    ensures
        occurrences(s.map_values(key), k) == count(s, f),
    decreases s.len(),
{
    if s.len() > 0 {
        lemma_texts_counted(s.drop_last(), key, f, k);
        assert(s.map_values(key).drop_last() =~= s.drop_last().map_values(key));
        assert(f(s.last()) == (key(s.last()) == k));
    }
}

/// How often a text was counted; 0 where it does not occur.
pub open spec fn counted_as(m: Map<Seq<char>, usize>, k: Seq<char>) -> int {
    if m.contains_key(k) {
        m[k] as int
    } else {
        0
    }
}

proof fn lemma_tally_of(hashes: Seq<Seq<char>>, k: Seq<char>)
    requires
        hashes.len() <= usize::MAX,
    ensures
        counted_as(tally(hashes), k) == occurrences(hashes, k),
{
    law_tally_counts(hashes);
}

/// The figures over nodes: as many are counted under a name as nodes have it, under a version with
/// its name in front, a space between, or the name alone where there is no version, and under a
/// stance by its label. Nodes with `.onion` in their address are onion nodes.
pub proof fn law_nodes_are_counted(
    a: Aggregates,
    nodes: Seq<NodeInfo>,
    name: Seq<char>,
    version: Seq<char>,
)
    requires
        aggregated(a, nodes),
        nodes.len() <= usize::MAX,
    ensures
        a.total_nodes == nodes.len(),
        a.handshaked_nodes == count(nodes, |n: NodeInfo| n.handshaked),
        a.online_nodes == count(nodes, |n: NodeInfo| n.online),
        a.onion_nodes == count(nodes, |n: NodeInfo| has_text(n.addr@, ".onion"@)),
        counted_as(a.by_implementation@, name) == count(
            nodes,
            |n: NodeInfo| n.implementation@ == name,
        ),
        counted_as(a.by_version@, name) == count(
            nodes,
            |n: NodeInfo|
                (n.version@.len() == 0 && n.implementation@ == name) || (n.version@.len() > 0
                    && n.implementation@ + " "@ + n.version@ == name),
        ),
        counted_as(a.by_bip110@, "BIP-110 ready"@) == count(
            nodes,
            |n: NodeInfo| n.bip110 is Enforcing,
        ),
        counted_as(a.by_bip110@, "Not ready"@) == count(
            nodes,
            |n: NodeInfo| n.bip110 is NotEnforcing,
        ),
        counted_as(a.by_bip110@, "Unknown"@) == count(nodes, |n: NodeInfo| n.bip110 is Unknown),
{
    lemma_tally_of(implementations(nodes), name);
    lemma_tally_of(versions(nodes), name);
    lemma_tally_of(stances(nodes), "BIP-110 ready"@);
    lemma_tally_of(stances(nodes), "Not ready"@);
    lemma_tally_of(stances(nodes), "Unknown"@);
    lemma_texts_counted(
        nodes,
        |n: NodeInfo| n.implementation@,
        |n: NodeInfo| n.implementation@ == name,
        name,
    );
    lemma_texts_counted(
        nodes,
        |n: NodeInfo| version_key(n.implementation@, n.version@),
        |n: NodeInfo|
            (n.version@.len() == 0 && n.implementation@ == name) || (n.version@.len() > 0
                && n.implementation@ + " "@ + n.version@ == name),
        name,
    );
    reveal_strlit("BIP-110 ready");
    reveal_strlit("Not ready");
    reveal_strlit("Unknown");
    assert("BIP-110 ready"@.len() == 13 && "Not ready"@.len() == 9 && "Unknown"@.len() == 7);
    let key = |n: NodeInfo| stance_name(n.bip110);
    lemma_texts_counted(nodes, key, |n: NodeInfo| n.bip110 is Enforcing, "BIP-110 ready"@);
    lemma_texts_counted(nodes, key, |n: NodeInfo| n.bip110 is NotEnforcing, "Not ready"@);
    lemma_texts_counted(nodes, key, |n: NodeInfo| n.bip110 is Unknown, "Unknown"@);
}

/// The latencies that count are those of online nodes that have one, in their order.
pub proof fn law_live_latencies(nodes: Seq<NodeInfo>, n: NodeInfo)
    ensures
        live_latencies(Seq::empty()).len() == 0,
        n.online && n.latency_ms.is_some() ==> live_latencies(nodes.push(n)) == live_latencies(
            nodes,
        ).push(n.latency_ms.unwrap()),
        !n.online || n.latency_ms.is_none() ==> live_latencies(nodes.push(n)) == live_latencies(
            nodes,
        ),
{
    assert(nodes.push(n).drop_last() =~= nodes);
}

/// The limits of the bands in milliseconds.
pub open spec fn is_band(min_ms: u32, max_ms: Option<u32>) -> bool {
    ||| min_ms == 0 && max_ms == Some(50u32)
    ||| min_ms == 50 && max_ms == Some(100u32)
    ||| min_ms == 100 && max_ms == Some(200u32)
    ||| min_ms == 200 && max_ms == Some(400u32)
    ||| min_ms == 400 && max_ms == Some(800u32)
    ||| min_ms == 800 && max_ms == Some(1500u32)
    ||| min_ms == 1500 && max_ms == Some(3000u32)
    ||| min_ms == 3000 && max_ms.is_none()
}

/// Each band of a histogram has its limits, and as many latencies as lie from the one to below the
/// other; bands stand in ascending order, none is empty, and every latency lies in one.
pub proof fn law_bands_hold_their_latencies(s: Seq<u32>, ms: u32)
    requires
        s.len() <= usize::MAX,
    ensures
        ({
            let b = bands_from(s, 0);
            &&& forall|i: int|
                0 <= i < b.len() ==> is_band((#[trigger] b[i]).min_ms, b[i].max_ms) && b[i].count
                    > 0 && b[i].count == count(
                    s,
                    |x: u32| b[i].min_ms <= x && (b[i].max_ms.is_some() ==> x < b[i].max_ms.unwrap()),
                )
            &&& forall|i: int, j: int|
                0 <= i < j < b.len() ==> (#[trigger] b[i]).min_ms < (#[trigger] b[j]).min_ms
            &&& s.contains(ms) ==> exists|i: int|
                0 <= i < b.len() && (#[trigger] b[i]).min_ms <= ms && (b[i].max_ms.is_some() ==> ms
                    < b[i].max_ms.unwrap())
        }),
{
    lemma_bands_from(s, 0, ms);
}

proof fn lemma_bands_from(s: Seq<u32>, k: int, ms: u32)
    requires
        s.len() <= usize::MAX,
        0 <= k <= 8,
    ensures
        ({
            let b = bands_from(s, k);
            &&& forall|i: int|
                0 <= i < b.len() ==> is_band((#[trigger] b[i]).min_ms, b[i].max_ms) && b[i].count
                    > 0 && (k < 8 && b[i].min_ms >= band_min(k)) && b[i].count == count(
                    s,
                    |x: u32| b[i].min_ms <= x && (b[i].max_ms.is_some() ==> x < b[i].max_ms.unwrap()),
                )
            &&& forall|i: int, j: int|
                0 <= i < j < b.len() ==> (#[trigger] b[i]).min_ms < (#[trigger] b[j]).min_ms
            &&& s.contains(ms) && k < 8 && ms >= band_min(k) ==> exists|i: int|
                0 <= i < b.len() && (#[trigger] b[i]).min_ms <= ms && (b[i].max_ms.is_some() ==> ms
                    < b[i].max_ms.unwrap())
        }),
    decreases 8 - k,
{
    if k < 8 {
        let b = bands_from(s, k);
        let r = bands_from(s, k + 1);
        lemma_bands_from(s, k + 1, ms);
        lemma_count_bound(s, in_band(k));
        let n = count(s, in_band(k));
        let (lo, hi) = (band_min(k), band_max(k));
        let g = |x: u32| lo <= x && (hi.is_some() ==> x < hi.unwrap());
        lemma_same_count(s, in_band(k), g);
        assert(is_band(lo, hi));
        if n > 0 {
            assert forall|i: int| 0 <= i < b.len() implies is_band(
                (#[trigger] b[i]).min_ms,
                b[i].max_ms,
            ) && b[i].count > 0 && b[i].min_ms >= lo && b[i].count == count(
                s,
                |x: u32| b[i].min_ms <= x && (b[i].max_ms.is_some() ==> x < b[i].max_ms.unwrap()),
            ) by {
                if i > 0 {
                    assert(b[i] == r[i - 1]);
                } else {
                    lemma_same_count(
                        s,
                        g,
                        |x: u32|
                            b[i].min_ms <= x && (b[i].max_ms.is_some() ==> x
                                < b[i].max_ms.unwrap()),
                    );
                }
            }
            assert forall|i: int, j: int| 0 <= i < j < b.len() implies (#[trigger] b[i]).min_ms < (
            #[trigger] b[j]).min_ms by {
                assert(b[j] == r[j - 1]);
                if i > 0 {
                    assert(b[i] == r[i - 1]);
                }
            }
        }
        if s.contains(ms) && ms >= lo {
            if g(ms) {
                let i = choose|i: int| 0 <= i < s.len() && s[i] == ms;
                lemma_counted_one(s, in_band(k), i);
                assert(b[0].min_ms == lo);
            } else {
                let i = choose|i: int|
                    0 <= i < r.len() && (#[trigger] r[i]).min_ms <= ms && (r[i].max_ms.is_some()
                        ==> ms < r[i].max_ms.unwrap());
                if n > 0 {
                    assert(b[i + 1] == r[i]);
                } else {
                    assert(b[i] == r[i]);
                }
            }
        }
    }
}

/// Conditions that agree count alike.
proof fn lemma_same_count<T>(s: Seq<T>, f: spec_fn(T) -> bool, g: spec_fn(T) -> bool)
    requires
        forall|x: T| #[trigger] f(x) == g(x),
    ensures
        count(s, f) == count(s, g),
    decreases s.len(),
{
    if s.len() > 0 {
        lemma_same_count(s.drop_last(), f, g);
        assert(f(s.last()) == g(s.last()));
    }
}

/// The letters A to Z are raised by what lies between them and the small ones; nothing else changes.
pub proof fn law_ascii_lower(c: char)
    ensures
        65 <= (c as u32) <= 90 ==> ascii_lower(c) as u32 == (c as u32) + 32,
        (c as u32) < 65 || (c as u32) > 90 ==> ascii_lower(c) == c,
        ascii_lower('A') == 'a' && ascii_lower('Z') == 'z',
{
}

} // verus!
