//! What the crawler asks of its own node over JSON-RPC: what is read out of the replies, and how
//! a block is judged by BIP-110. Sending and receiving is the application's.
use vstd::prelude::*;

use crate::json::{any, lemma_take, lemma_total_grows, total, Json};
use crate::node::SignalStats;
use crate::number::{digit_of, digit_value, fits64, narrow, parse_unsigned, unsigned_of};
use crate::p2p::{bit_of, peer_of, Peer, PeerView};
use crate::text::{
    chars_of, contains_text, ends_in, ends_with_text, has_text, joined, part, pieces, split_on,
    stands_at, starts_with_text, string_of, trim, trimmed,
};
use vstd::utf8::encode_utf8;

verus! {

// ---- records ------------------------------------------------------------------------------

/// The data that the transactions of a block carry. Weights are those of whole transactions,
/// bytes those of the data itself. A transaction counts once in each category that it falls
/// under; the coinbase counts nowhere.
#[derive(Debug, Clone, Copy, PartialEq, Eq, Default)]
pub struct BlockPayload {
    /// Transactions but the coinbase.
    pub tx_total: u32,
    /// Inscriptions.
    pub insc_count: u32,
    pub insc_weight: i64,
    pub insc_bytes: i64,
    /// Runestones.
    pub rune_count: u32,
    pub rune_weight: i64,
    pub rune_bytes: i64,
    /// Other data in `OP_RETURN` outputs.
    pub data_count: u32,
    pub data_weight: i64,
    pub data_bytes: i64,
    /// Transactions with any of these.
    pub payload_tx_count: u32,
    pub payload_weight: i64,
    /// Transactions that BIP-110 rejects.
    pub bip110_reject_count: u32,
    pub bip110_reject_weight: i64,
}

/// Fees and other figures of a block, from `getblockstats`.
#[derive(Debug)]
pub struct BlockStats {
    pub total_fee: i64,
    pub subsidy: i64,
    pub avg_feerate: i64,
    pub median_feerate: i64,
    pub min_feerate: i64,
    pub max_feerate: i64,
    pub feerate_percentiles: Vec<i64>,
    pub total_out: i64,
    pub avg_tx_size: i64,
    pub ins: i64,
    pub outs: i64,
}

/// One chain tip reported by `getchaintips`.
#[derive(Debug)]
pub struct ChainTip {
    pub height: i64,
    pub hash: String,
    /// 0 for the active chain; otherwise how many blocks back the branch diverges.
    pub branchlen: i64,
    /// `active`, `valid-fork`, `valid-headers`, `headers-only` or `invalid`.
    pub status: String,
}

/// A block as the explorer shows it.
#[derive(Debug)]
pub struct BlockInfo {
    pub height: i64,
    pub hash: String,
    pub time: i64,
    pub version: i64,
    /// Whether the header signals.
    pub signals: bool,
    pub tx_count: u32,
    pub size: i64,
    pub weight: i64,
    /// Who mined it, where the coinbase says so.
    pub miner: String,
}

impl Clone for BlockInfo {
    fn clone(&self) -> (r: Self)
        ensures
            r == *self,
    {
        BlockInfo {
            height: self.height,
            hash: self.hash.clone(),
            time: self.time,
            version: self.version,
            signals: self.signals,
            tx_count: self.tx_count,
            size: self.size,
            weight: self.weight,
            miner: self.miner.clone(),
        }
    }
}

// ---- replies ------------------------------------------------------------------------------

/// What a reply says.
#[derive(Debug)]
pub enum RpcReply<'a> {
    /// The result.
    Result(&'a Json),
    /// The error that the node reports.
    Reported(&'a Json),
    /// Neither.
    NoResult,
}

/// Reads a reply: an error that is not `null` counts first, then the result.
pub fn rpc_result<'a>(reply: &'a Json) -> (r: RpcReply<'a>)
    ensures
        match r {
            RpcReply::Reported(e) => reply.field("error"@) == Some(*e) && !(*e is Null),
            RpcReply::Result(v) => reply.field("result"@) == Some(*v) && (reply.field(
                "error"@,
            ) matches Some(e) ==> e is Null),
            RpcReply::NoResult => reply.field("result"@).is_none() && (reply.field(
                "error"@,
            ) matches Some(e) ==> e is Null),
        },
{
    if let Some(e) = reply.get("error") {
        if !e.is_null() {
            return RpcReply::Reported(e);
        }
    }
    match reply.get("result") {
        Some(v) => RpcReply::Result(v),
        None => RpcReply::NoResult,
    }
}

/// What the own node says of itself.
pub struct NetworkInfo {
    pub version: i64,
    pub subversion: String,
    pub services: u64,
    /// Its public address, where it knows one.
    pub local_addr: Option<String>,
}

/// The score and the text of a local address that is not an onion address.
pub open spec fn scored(a: Json) -> Option<(i64, Seq<char>)> {
    match a.field("address"@) {
        Some(v) => match v.text() {
            Some(t) => if ends_in(t, ".onion"@) {
                None
            } else {
                Some((a.number_or_0("score"@), t))
            },
            None => None,
        },
        None => None,
    }
}

/// The address with the highest score; of several the last.
pub open spec fn best_address(s: Seq<Json>) -> Option<(i64, Seq<char>)>
    decreases s.len(),
{
    if s.len() == 0 {
        None
    } else {
        let best = best_address(s.drop_last());
        match scored(s.last()) {
            Some((n, t)) => if best matches Some((m, u)) && m > n {
                best
            } else {
                Some((n, t))
            },
            None => best,
        }
    }
}

/// The service bits in hexadecimal, or 0.
pub open spec fn services_of(r: Json) -> u64 {
    match unsigned_of(r.text_or_empty("localservices"@), 16, u64::MAX) {
        Some(n) => n as u64,
        None => 0,
    }
}

/// Reads the result of `getnetworkinfo`.
pub fn network_info(r: &Json) -> (out: NetworkInfo)
    ensures
        out.version == r.number_or_0("version"@),
        out.subversion@ == r.text_or_empty("subversion"@),
        out.services == services_of(*r),
        match out.local_addr {
            Some(a) => best_address(r.items_or_none("localaddresses"@)) matches Some((n, t)) && a@
                == t,
            None => best_address(r.items_or_none("localaddresses"@)).is_none(),
        },
{
    let version = r.get_i64("version");
    let subversion = r.get_text("subversion");
    let hex = r.get_text("localservices");
    let hex_chars = chars_of(hex.as_str());
    let services: u64 = match parse_unsigned(&hex_chars, 16, u64::MAX) {
        Some(n) => n,
        None => 0,
    };
    let mut best: Option<(i64, String)> = None;
    if let Some(v) = r.get_items("localaddresses") {
        let mut i: usize = 0;
        assert(v@.take(0) =~= Seq::<Json>::empty());
        while i < v.len()
            invariant
                i <= v@.len(),
                match best {
                    Some((n, t)) => best_address(v@.take(i as int)) == Some((n, t@)),
                    None => best_address(v@.take(i as int)).is_none(),
                },
            decreases v@.len() - i,
        {
            proof {
                lemma_take(v@, i as int);
            }
            if let Some((n, t)) = read_scored(&v[i]) {
                let keep: bool = match &best {
                    Some((m, _)) => *m > n,
                    None => false,
                };
                if !keep {
                    best = Some((n, t));
                }
            }
            i = i + 1;
        }
        assert(v@.take(v@.len() as int) == v@);
    }
    let local_addr: Option<String> = match best {
        Some((_, t)) => Some(t),
        None => None,
    };
    NetworkInfo { version, subversion, services, local_addr }
}

fn read_scored(a: &Json) -> (r: Option<(i64, String)>)
    ensures
        match r {
            Some((n, t)) => scored(*a) == Some((n, t@)),
            None => scored(*a).is_none(),
        },
{
    match a.get("address") {
        Some(v) => match v.as_str() {
            Some(t) => {
                if ends_with_text(t, ".onion") {
                    None
                } else {
                    Some((a.get_i64("score"), t.to_owned()))
                }
            },
            None => None,
        },
        None => None,
    }
}

/// A peer that the own node is connected to.
pub struct DirectPeer {
    pub peer: Peer,
    pub subver: String,
    pub version: i32,
    pub height: i32,
}

/// The peer, its user agent, protocol version and height.
pub open spec fn direct_view(p: DirectPeer) -> (PeerView, Seq<char>, i32, i32) {
    (p.peer@, p.subver@, p.version, p.height)
}

/// The peers among the entries of `getpeerinfo` whose address can be read.
pub open spec fn direct_peers(s: Seq<Json>) -> Seq<(PeerView, Seq<char>, i32, i32)>
    decreases s.len(),
{
    if s.len() == 0 {
        Seq::empty()
    } else {
        let r = direct_peers(s.drop_last());
        let p = s.last();
        match peer_of(p.text_or_empty("addr"@), 8333) {
            Some(peer) => r.push(
                (
                    peer,
                    p.text_or_empty("subver"@),
                    p.number_or_0("version"@) as i32,
                    p.number_or_0("startingheight"@) as i32,
                ),
            ),
            None => r,
        }
    }
}

/// The items of an array, or none.
pub open spec fn items_of(v: Json) -> Seq<Json> {
    v.items().unwrap_or(Seq::empty())
}

/// Reads the result of `getpeerinfo`.
pub fn peer_info(r: &Json) -> (out: Vec<DirectPeer>)
    ensures
        out@.map_values(|p: DirectPeer| direct_view(p)) == direct_peers(items_of(*r)),
{
    let ghost f = |p: DirectPeer| direct_view(p);
    let mut out: Vec<DirectPeer> = Vec::new();
    assert(out@.map_values(f) =~= Seq::<(PeerView, Seq<char>, i32, i32)>::empty());
    if let Some(v) = r.as_array() {
        let mut i: usize = 0;
        assert(v@.take(0) =~= Seq::<Json>::empty());
        while i < v.len()
            invariant
                i <= v@.len(),
                f == (|p: DirectPeer| direct_view(p)),
                out@.map_values(f) == direct_peers(v@.take(i as int)),
            decreases v@.len() - i,
        {
            let p = &v[i];
            proof {
                lemma_take(v@, i as int);
            }
            let addr = p.get_text("addr");
            if let Some(peer) = Peer::parse(addr.as_str(), 8333) {
                let one = DirectPeer {
                    peer,
                    subver: p.get_text("subver"),
                    version: p.get_i64("version") as i32,
                    height: p.get_i64("startingheight") as i32,
                };
                assert(out@.push(one).map_values(f) =~= out@.map_values(f).push(direct_view(one)));
                out.push(one);
            }
            i = i + 1;
        }
        assert(v@.take(v@.len() as int) == v@);
    }
    out
}

/// A chain tip by its fields.
pub open spec fn tip_view(t: ChainTip) -> (i64, Seq<char>, i64, Seq<char>) {
    (t.height, t.hash@, t.branchlen, t.status@)
}

/// Reads the result of `getchaintips`: one tip for each entry; what is missing is 0 or empty.
pub fn chain_tips(r: &Json) -> (out: Vec<ChainTip>)
    ensures
        out@.len() == items_of(*r).len(),
        forall|i: int|
            0 <= i < out@.len() ==> tip_view(#[trigger] out@[i]) == (
                items_of(*r)[i].number_or_0("height"@),
                items_of(*r)[i].text_or_empty("hash"@),
                items_of(*r)[i].number_or_0("branchlen"@),
                items_of(*r)[i].text_or_empty("status"@),
            ),
{
    let mut out: Vec<ChainTip> = Vec::new();
    if let Some(v) = r.as_array() {
        let mut i: usize = 0;
        while i < v.len()
            invariant
                i <= v@.len(),
                out@.len() == i,
                forall|j: int|
                    0 <= j < i ==> tip_view(#[trigger] out@[j]) == (
                        v@[j].number_or_0("height"@),
                        v@[j].text_or_empty("hash"@),
                        v@[j].number_or_0("branchlen"@),
                        v@[j].text_or_empty("status"@),
                    ),
            decreases v@.len() - i,
        {
            let t = &v[i];
            out.push(
                ChainTip {
                    height: t.get_i64("height"),
                    hash: t.get_text("hash"),
                    branchlen: t.get_i64("branchlen"),
                    status: t.get_text("status"),
                },
            );
            i = i + 1;
        }
    }
    out
}

/// The height in the result of `getblockcount`.
pub fn block_count(r: &Json) -> (out: Option<i64>)
    ensures
        out == r.number(),
{
    r.as_i64()
}

/// The height of the tip in the result of `getblockchaininfo`.
pub fn tip_height(r: &Json) -> (out: Option<i64>)
    ensures
        out == (match r.field("blocks"@) {
            Some(v) => v.number(),
            None => None,
        }),
{
    match r.get("blocks") {
        Some(v) => v.as_i64(),
        None => None,
    }
}

/// The whole numbers among the items.
pub open spec fn whole_numbers(s: Seq<Json>) -> Seq<i64>
    decreases s.len(),
{
    if s.len() == 0 {
        Seq::empty()
    } else {
        let r = whole_numbers(s.drop_last());
        match s.last().number() {
            Some(n) => r.push(n),
            None => r,
        }
    }
}

/// Reads the result of `getblockstats`.
pub fn block_stats(v: &Json) -> (r: BlockStats)
    ensures
        r.total_fee == v.number_or_0("totalfee"@),
        r.subsidy == v.number_or_0("subsidy"@),
        r.avg_feerate == v.number_or_0("avgfeerate"@),
        r.median_feerate == v.number_or_0("medianfeerate"@),
        r.min_feerate == v.number_or_0("minfeerate"@),
        r.max_feerate == v.number_or_0("maxfeerate"@),
        r.feerate_percentiles@ == whole_numbers(v.items_or_none("feerate_percentiles"@)),
        r.total_out == v.number_or_0("total_out"@),
        r.avg_tx_size == v.number_or_0("avgtxsize"@),
        r.ins == v.number_or_0("ins"@),
        r.outs == v.number_or_0("outs"@),
{
    let mut feerate_percentiles: Vec<i64> = Vec::new();
    if let Some(a) = v.get_items("feerate_percentiles") {
        let mut i: usize = 0;
        assert(a@.take(0) =~= Seq::<Json>::empty());
        while i < a.len()
            invariant
                i <= a@.len(),
                feerate_percentiles@ == whole_numbers(a@.take(i as int)),
            decreases a@.len() - i,
        {
            proof {
                lemma_take(a@, i as int);
            }
            if let Some(n) = a[i].as_i64() {
                feerate_percentiles.push(n);
            }
            i = i + 1;
        }
        assert(a@.take(a@.len() as int) == a@);
    }
    BlockStats {
        total_fee: v.get_i64("totalfee"),
        subsidy: v.get_i64("subsidy"),
        avg_feerate: v.get_i64("avgfeerate"),
        median_feerate: v.get_i64("medianfeerate"),
        min_feerate: v.get_i64("minfeerate"),
        max_feerate: v.get_i64("maxfeerate"),
        feerate_percentiles,
        total_out: v.get_i64("total_out"),
        avg_tx_size: v.get_i64("avgtxsize"),
        ins: v.get_i64("ins"),
        outs: v.get_i64("outs"),
    }
}

// ---- block hashes -------------------------------------------------------------------------

/// Why a block hash could not be read.
#[derive(Clone, Copy, Debug, PartialEq, Eq, Structural)]
pub enum HashError {
    /// The result is not a text.
    NotText,
    /// The text does not have 64 bytes.
    BadLength(usize),
    /// It is not hexadecimal.
    BadHex,
}

/// What a byte counts as a hexadecimal digit.
pub open spec fn hex_digit(b: u8) -> Option<nat> {
    digit_value(b as char, 16)
}

/// The byte that two hexadecimal digits write; a plus sign may stand for the first.
pub open spec fn hex_pair(hi: u8, lo: u8) -> Option<u8> {
    match (hex_digit(hi), hex_digit(lo)) {
        (Some(h), Some(l)) => Some((16 * h + l) as u8),
        (None, Some(l)) => if hi == 0x2b {
            Some(l as u8)
        } else {
            None
        },
        _ => None,
    }
}

/// Reads two hexadecimal digits.
pub fn read_hex_pair(hi: u8, lo: u8) -> (r: Option<u8>)
    ensures
        r == hex_pair(hi, lo),
{
    match (digit_of(hi as char, 16), digit_of(lo as char, 16)) {
        (Some(h), Some(l)) => Some((16 * h + l) as u8),
        (None, Some(l)) => if hi == 0x2b {
            Some(l as u8)
        } else {
            None
        },
        _ => None,
    }
}

/// Reads the result of `getblockhash` into internal byte order, which is the reverse of the one
/// that is shown.
pub fn block_hash_bytes(v: &Json) -> (r: Result<[u8; 32], HashError>)
    ensures
        match v.text() {
            None => r == Err::<[u8; 32], HashError>(HashError::NotText),
            Some(t) => {
                let b = encode_utf8(t);
                if b.len() != 64 {
                    r == Err::<[u8; 32], HashError>(HashError::BadLength(b.len() as usize))
                } else {
                    match r {
                        Ok(h) => forall|i: int|
                            0 <= i < 32 ==> hex_pair(
                                #[trigger] b[2 * i],
                                b[2 * i + 1],
                            ) == Some(h@[31 - i]),
                        Err(e) => e == HashError::BadHex && exists|i: int|
                            0 <= i < 32 && hex_pair(#[trigger] b[2 * i], b[2 * i + 1]).is_none(),
                    }
                }
            },
        },
{
    let s: &str = match v.as_str() {
        Some(s) => s,
        None => {
            return Err(HashError::NotText);
        },
    };
    let b = s.as_bytes();
    if b.len() != 64 {
        return Err(HashError::BadLength(b.len()));
    }
    let mut out: [u8; 32] = [0u8;32];
    let mut i: usize = 0;
    while i < 32
        invariant
            i <= 32,
            b@.len() == 64,
            v.text() == Some(s@),
            b@ == encode_utf8(s@),
            forall|j: int|
                0 <= j < i ==> hex_pair(#[trigger] b@[2 * j], b@[2 * j + 1]) == Some(out@[31 - j]),
        decreases 32 - i,
    {
        match read_hex_pair(b[2 * i], b[2 * i + 1]) {
            Some(x) => {
                out[31 - i] = x;
            },
            None => {
                assert(hex_pair(b@[2 * (i as int)], b@[2 * (i as int) + 1]).is_none());
                return Err(HashError::BadHex);
            },
        }
        i = i + 1;
    }
    Ok(out)
}

// ---- signalling ---------------------------------------------------------------------------

/// Whether a block version has bit `bit` set.
pub open spec fn version_signals(version: i64, bit: u8) -> bool {
    version & (1i64 << (bit as i64)) != 0
}

/// Whether a block version signals.
pub fn signals_bit(version: i64, bit: u8) -> (r: bool)
    requires
        bit < 64,
    ensures
        r == version_signals(version, bit),
{
    version & (1i64 << (bit as i64)) != 0
}

/// The length of a period: the window, but at least one block.
pub open spec fn period_of(window: u32) -> int {
    if window == 0 {
        1
    } else {
        window as int
    }
}

/// The first height of the period that `tip` lies in: the last multiple of the period up to it.
pub open spec fn period_start(tip: i64, period: int) -> int {
    if tip >= 0 {
        (tip as int / period) * period
    } else {
        -((-(tip as int) / period) * period)
    }
}

/// The first height of the period that `tip` lies in.
pub fn first_of_period(tip: i64, period: i64) -> (r: i64)
    requires
        period >= 1,
    ensures
        r == period_start(tip, period as int),
        tip >= 0 ==> 0 <= r <= tip < r + period,
        tip < 0 ==> tip <= r <= 0,
{
    let p: i128 = period as i128;
    if tip >= 0 {
        let t: i128 = tip as i128;
        proof {
            lemma_multiple(t as int, p as int);
        }
        ((t / p) * p) as i64
    } else {
        let t: i128 = -(tip as i128);
        proof {
            lemma_multiple(t as int, p as int);
        }
        (-((t / p) * p)) as i64
    }
}

/// The last multiple of `p` up to `t` is less than `p` away.
proof fn lemma_multiple(t: int, p: int)
    requires
        t >= 0,
        p >= 1,
    ensures
        0 <= (t / p) * p <= t < (t / p) * p + p,
{
    assert(t == p * (t / p) + t % p && 0 <= t % p < p) by (nonlinear_arith)
        requires
            p >= 1,
    ;
    assert(t / p >= 0) by (nonlinear_arith)
        requires
            t >= 0,
            p >= 1,
    ;
    assert((t / p) * p >= 0) by (nonlinear_arith)
        requires
            t / p >= 0,
            p >= 1,
    ;
    assert(p * (t / p) == (t / p) * p) by (nonlinear_arith);
}

/// The period of `tip` begins at a multiple of its length.
pub proof fn law_period_is_aligned(tip: i64, window: u32)
    requires
        tip >= 0,
    ensures
        period_start(tip, period_of(window)) % period_of(window) == 0,
        period_start(tip, period_of(window)) <= tip < period_start(tip, period_of(window))
            + period_of(window),
{
    let p = period_of(window);
    lemma_multiple(tip as int, p);
    assert(((tip as int / p) * p) % p == 0) by {
        vstd::arithmetic::div_mod::lemma_mod_multiples_basic(tip as int / p, p);
    }
}

/// A scan of the headers of the current period, from its first block up to the tip.
pub struct SignalScan {
    pub window: u32,
    pub bit: u8,
    pub tip: i64,
    /// The first height of the period.
    pub start: i64,
    /// The versions of the blocks read so far, from `start` on.
    pub versions: Vec<i64>,
    /// The heights of those that signal.
    pub heights: Vec<i64>,
}

/// The heights of the versions that signal, from `start` on.
pub open spec fn signalling_heights(versions: Seq<i64>, start: i64, bit: u8) -> Seq<i64>
    decreases versions.len(),
{
    if versions.len() == 0 {
        Seq::empty()
    } else {
        let r = signalling_heights(versions.drop_last(), start, bit);
        if version_signals(versions.last(), bit) {
            r.push((start + versions.len() - 1) as i64)
        } else {
            r
        }
    }
}

impl SignalScan {
    /// The scan has read the first blocks of the period, and knows which of them signal.
    pub open spec fn wf(self) -> bool {
        &&& self.bit < 64
        &&& self.start == period_start(self.tip, period_of(self.window))
        &&& self.start + self.versions@.len() <= (if self.tip >= self.start {
            self.tip + 1
        } else {
            self.start as int
        })
        &&& self.tip - self.start < u32::MAX
        &&& self.heights@ == signalling_heights(self.versions@, self.start, self.bit)
        &&& self.heights@.len() <= self.versions@.len()
    }

    /// The beginning of the scan of the period that `tip` lies in.
    pub fn new(window: u32, bit: u8, tip: i64) -> (r: SignalScan)
        requires
            bit < 64,
        ensures
            r.wf(),
            r.window == window,
            r.bit == bit,
            r.tip == tip,
            r.versions@.len() == 0,
    {
        let period: i64 = if window == 0 {
            1
        } else {
            window as i64
        };
        let start = first_of_period(tip, period);
        SignalScan { window, bit, tip, start, versions: Vec::new(), heights: Vec::new() }
    }

    /// The height of the next header to read; `None` at the end.
    pub fn next_height(&self) -> (r: Option<i64>)
        requires
            self.wf(),
        ensures
            match r {
                Some(h) => h == self.start + self.versions@.len() && h <= self.tip,
                None => self.start + self.versions@.len() > self.tip,
            },
    {
        let n: i128 = self.start as i128 + self.versions.len() as i128;
        if n <= self.tip as i128 {
            Some(n as i64)
        } else {
            None
        }
    }

    /// Takes the result of `getblockheader` for the next height.
    pub fn on_header(&mut self, header: &Json)
        requires
            old(self).wf(),
            old(self).start + old(self).versions@.len() <= old(self).tip,
        ensures
            final(self).wf(),
            final(self).window == old(self).window,
            final(self).bit == old(self).bit,
            final(self).tip == old(self).tip,
            final(self).versions@ == old(self).versions@.push(header.number_or_0("version"@)),
    {
        let v = header.get_i64("version");
        let h: i64 = (self.start as i128 + self.versions.len() as i128) as i64;
        let ghost was = self.versions@;
        self.versions.push(v);
        assert(self.versions@.drop_last() == was);
        if signals_bit(v, self.bit) {
            self.heights.push(h);
        }
    }

    /// The tally of a finished scan, and the heights of the blocks that signal.
    pub fn finish(self) -> (r: (SignalStats, Vec<i64>))
        requires
            self.wf(),
        ensures
            r.0.window == self.window,
            r.0.bit == self.bit,
            r.0.tip_height == self.tip,
            r.0.blocks_scanned == self.versions@.len(),
            r.0.blocks_signalling == r.1@.len(),
            r.1@ == signalling_heights(
                self.versions@,
                period_start(self.tip, period_of(self.window)) as i64,
                self.bit,
            ),
    {
        let stats = SignalStats {
            window: self.window,
            blocks_scanned: self.versions.len() as u32,
            blocks_signalling: self.heights.len() as u32,
            bit: self.bit,
            tip_height: self.tip,
        };
        (stats, self.heights)
    }
}

/// How many of the newest blocks there are, up to `count`.
pub open spec fn recent_len(tip: i64, count: u32) -> int {
    if tip < 0 {
        0
    } else if tip + 1 < count {
        tip + 1
    } else {
        count as int
    }
}

/// The heights of the newest `count` blocks, newest first.
pub fn recent_heights(tip: i64, count: u32) -> (r: Vec<i64>)
    ensures
        r@.len() == recent_len(tip, count),
        forall|i: int| 0 <= i < r@.len() ==> #[trigger] r@[i] == tip - i,
{
    let mut out: Vec<i64> = Vec::new();
    let mut i: u32 = 0;
    while i < count && i as i64 <= tip
        invariant
            i <= count,
            i <= recent_len(tip, count),
            out@.len() == i,
            forall|j: int| 0 <= j < i ==> #[trigger] out@[j] == tip - j,
        decreases count - i,
    {
        out.push(tip - i as i64);
        i = i + 1;
    }
    out
}

// ---- blocks -------------------------------------------------------------------------------

/// The texts among the items.
pub open spec fn texts_of(s: Seq<Json>) -> Seq<Seq<char>>
    decreases s.len(),
{
    if s.len() == 0 {
        Seq::empty()
    } else {
        let r = texts_of(s.drop_last());
        match s.last().text() {
            Some(t) => r.push(t),
            None => r,
        }
    }
}

/// How many transactions a block has, and the id of the first.
pub fn block_txids(b: &Json) -> (r: (usize, Option<String>))
    ensures
        r.0 == texts_of(b.items_or_none("tx"@)).len(),
        match r.1 {
            Some(t) => r.0 > 0 && t@ == texts_of(b.items_or_none("tx"@))[0],
            None => r.0 == 0,
        },
{
    let mut n: usize = 0;
    let mut first: Option<String> = None;
    if let Some(v) = b.get_items("tx") {
        let mut i: usize = 0;
        assert(v@.take(0) =~= Seq::<Json>::empty());
        while i < v.len()
            invariant
                i <= v@.len(),
                n <= i,
                n == texts_of(v@.take(i as int)).len(),
                match first {
                    Some(t) => n > 0 && t@ == texts_of(v@.take(i as int))[0],
                    None => n == 0,
                },
            decreases v@.len() - i,
        {
            proof {
                lemma_take(v@, i as int);
            }
            if let Some(t) = v[i].as_str() {
                if n == 0 {
                    first = Some(t.to_owned());
                }
                n = n + 1;
            }
            i = i + 1;
        }
        assert(v@.take(v@.len() as int) == v@);
    }
    (n, first)
}

/// Puts together what the explorer shows of a block, from the result of `getblock` and the name
/// of the miner.
pub fn block_info(height: i64, hash: &str, b: &Json, miner: String, bit: u8) -> (r: BlockInfo)
    requires
        bit < 64,
    ensures
        r.height == height,
        r.hash@ == hash@,
        r.time == b.number_or_0("time"@),
        r.version == b.number_or_0("version"@),
        r.signals == version_signals(b.number_or_0("version"@), bit),
        r.tx_count == (texts_of(b.items_or_none("tx"@)).len() as usize) as u32,
        r.size == b.number_or_0("size"@),
        r.weight == b.number_or_0("weight"@),
        r.miner == miner,
{
    let (n, _first) = block_txids(b);
    let version = b.get_i64("version");
    BlockInfo {
        height,
        hash: hash.to_owned(),
        time: b.get_i64("time"),
        version,
        signals: signals_bit(version, bit),
        tx_count: n as u32,
        size: b.get_i64("size"),
        weight: b.get_i64("weight"),
        miner,
    }
}

/// The signature script of the coinbase in a transaction, in hexadecimal; empty where there is
/// none.
pub open spec fn coinbase_of(tx: Json) -> Seq<char> {
    let v = tx.items_or_none("vin"@);
    if v.len() == 0 {
        Seq::empty()
    } else {
        v[0].text_or_empty("coinbase"@)
    }
}

/// The signature script of the coinbase in the result of `getrawtransaction`.
pub fn coinbase_sig(tx: &Json) -> (r: String)
    ensures
        r@ == coinbase_of(*tx),
{
    if let Some(v) = tx.get_items("vin") {
        if v.len() > 0 {
            return v[0].get_text("coinbase");
        }
    }
    let e = String::new();
    assert(e@ == Seq::<char>::empty());
    e
}

/// The bytes that pairs of hexadecimal digits write; pairs that are none are left out, and so is
/// an odd digit at the end.
pub open spec fn hex_bytes(b: Seq<u8>) -> Seq<u8>
    decreases b.len(),
{
    if b.len() < 2 {
        Seq::empty()
    } else {
        let rest = hex_bytes(b.skip(2));
        match hex_pair(b[0], b[1]) {
            Some(x) => seq![x] + rest,
            None => rest,
        }
    }
}

/// A printable ASCII character as such, anything else as a zero.
pub open spec fn printable(b: u8) -> char {
    if 0x20 <= b < 0x7f {
        b as char
    } else {
        '\0'
    }
}

/// The longest piece; of several the first.
pub open spec fn longest(s: Seq<Seq<char>>) -> Seq<char>
    decreases s.len(),
{
    if s.len() == 0 {
        Seq::empty()
    } else {
        let best = longest(s.drop_last());
        if s.last().len() > best.len() {
            s.last()
        } else {
            best
        }
    }
}

/// The first piece that is not blank, without white space at its ends.
pub open spec fn first_filled(s: Seq<Seq<char>>) -> Option<Seq<char>>
    decreases s.len(),
{
    if s.len() == 0 {
        None
    } else if trim(s[0]).len() > 0 {
        Some(trim(s[0]))
    } else {
        first_filled(s.skip(1))
    }
}

/// The name in a coinbase: of its longest printable run the first part between slashes that is
/// not blank, or else the run itself; at most 32 characters.
pub open spec fn miner_name(sig: Seq<u8>) -> Seq<char> {
    let run = longest(pieces(hex_bytes(sig).map_values(|b: u8| printable(b)), '\0'));
    let name = match first_filled(pieces(run, '/')) {
        Some(p) => p,
        None => trim(run),
    };
    if name.len() > 32 {
        name.take(32)
    } else {
        name
    }
}

/// The miner's name in the signature script of a coinbase, given in hexadecimal.
pub fn parse_coinbase_tag(sig_hex: &str) -> (r: String)
    ensures
        r@ == miner_name(encode_utf8(sig_hex@)),
{
    let b = sig_hex.as_bytes();
    let mut text: Vec<char> = Vec::new();
    let mut i: usize = 0;
    let ghost f = |x: u8| printable(x);
    proof {
        assert(b@.skip(0) == b@);
        assert(text@ + hex_bytes(b@).map_values(f) =~= hex_bytes(b@).map_values(f));
    }
    while b.len() - i >= 2
        invariant
            i <= b@.len(),
            f == (|x: u8| printable(x)),
            hex_bytes(b@).map_values(f) == text@ + hex_bytes(b@.skip(i as int)).map_values(f),
        decreases b@.len() - i,
    {
        proof {
            assert(b@.skip(i as int)[0] == b@[i as int]);
            assert(b@.skip(i as int)[1] == b@[i + 1]);
            assert(b@.skip(i as int).skip(2) == b@.skip(i + 2));
        }
        if let Some(x) = read_hex_pair(b[i], b[i + 1]) {
            let c: char = if 0x20 <= x && x < 0x7f {
                x as char
            } else {
                '\0'
            };
            proof {
                let rest = hex_bytes(b@.skip(i + 2));
                assert(text@ + (seq![x] + rest).map_values(f) =~= text@.push(c)
                    + rest.map_values(f));
            }
            text.push(c);
        }
        i = i + 2;
    }
    assert(hex_bytes(b@.skip(i as int)).map_values(f) =~= Seq::<char>::empty());
    assert(text@ + Seq::<char>::empty() =~= text@);
    let runs = split_on(&text, '\0');
    let run = longest_piece(&runs, Ghost(pieces(text@, '\0')));
    let parts = split_on(&run, '/');
    let name = match filled_piece(&parts, Ghost(pieces(run@, '/'))) {
        Some(p) => p,
        None => trimmed(&run),
    };
    if name.len() > 32 {
        let short = part(&name, 0, 32);
        assert(short@ == name@.take(32));
        string_of(&short)
    } else {
        string_of(&name)
    }
}

fn longest_piece(v: &Vec<Vec<char>>, Ghost(s): Ghost<Seq<Seq<char>>>) -> (r: Vec<char>)
    requires
        v@.len() == s.len(),
        forall|i: int| 0 <= i < v@.len() ==> (#[trigger] v@[i])@ == s[i],
    ensures
        r@ == longest(s),
{
    let mut best: Vec<char> = Vec::new();
    let mut i: usize = 0;
    assert(s.take(0) =~= Seq::<Seq<char>>::empty());
    while i < v.len()
        invariant
            i <= v@.len(),
            v@.len() == s.len(),
            forall|j: int| 0 <= j < v@.len() ==> (#[trigger] v@[j])@ == s[j],
            best@ == longest(s.take(i as int)),
        decreases v@.len() - i,
    {
        proof {
            assert(s.take(i + 1).drop_last() == s.take(i as int));
            assert(s.take(i + 1).last() == v@[i as int]@);
        }
        if v[i].len() > best.len() {
            best = part(&v[i], 0, v[i].len());
            assert(best@ == v@[i as int]@);
        }
        i = i + 1;
    }
    assert(s.take(s.len() as int) == s);
    best
}

fn filled_piece(v: &Vec<Vec<char>>, Ghost(s): Ghost<Seq<Seq<char>>>) -> (r: Option<Vec<char>>)
    requires
        v@.len() == s.len(),
        forall|i: int| 0 <= i < v@.len() ==> (#[trigger] v@[i])@ == s[i],
    ensures
        match r {
            Some(p) => first_filled(s) == Some(p@),
            None => first_filled(s).is_none(),
        },
{
    let mut i: usize = 0;
    assert(s.skip(0) == s);
    while i < v.len()
        invariant
            i <= v@.len(),
            v@.len() == s.len(),
            forall|j: int| 0 <= j < v@.len() ==> (#[trigger] v@[j])@ == s[j],
            first_filled(s) == first_filled(s.skip(i as int)),
        decreases v@.len() - i,
    {
        let t = trimmed(&v[i]);
        assert(s.skip(i as int)[0] == v@[i as int]@);
        if t.len() > 0 {
            return Some(t);
        }
        assert(s.skip(i as int).skip(1) == s.skip(i + 1));
        i = i + 1;
    }
    None
}

// ---- authorization ------------------------------------------------------------------------

/// The base64 character for six bits.
pub open spec fn base64_char(v: int) -> char {
    if v < 26 {
        (65 + v) as char
    } else if v < 52 {
        (71 + v) as char
    } else if v < 62 {
        (v - 4) as char
    } else if v == 62 {
        '+'
    } else {
        '/'
    }
}

/// Base64 with padding: one character for every six bits, then `=` up to a multiple of four.
pub open spec fn base64(data: Seq<u8>) -> Seq<char> {
    let n = (data.len() * 8 + 5) / 6;
    Seq::new(
        (4 * ((data.len() + 2) / 3)) as nat,
        |k: int|
            if k < n {
                base64_char(
                    32 * bit_of(data, 6 * k) + 16 * bit_of(data, 6 * k + 1) + 8 * bit_of(
                        data,
                        6 * k + 2,
                    ) + 4 * bit_of(data, 6 * k + 3) + 2 * bit_of(data, 6 * k + 4) + bit_of(
                        data,
                        6 * k + 5,
                    ),
                )
            } else {
                '='
            },
    )
}

/// Base64 with padding.
pub fn base64_encode(input: &[u8]) -> (r: String)
    ensures
        r@ == base64(input@),
{
    let chars: u128 = (input.len() as u128 * 8 + 5) / 6;
    let n: u128 = 4 * ((input.len() as u128 + 2) / 3);
    let mut out: Vec<char> = Vec::new();
    let mut k: u128 = 0;
    while k < n
        invariant
            k <= n,
            chars == (input@.len() * 8 + 5) / 6,
            n == 4 * ((input@.len() + 2) / 3),
            n <= 0x2_0000_0000_0000_0000,
            out@.len() == k,
            forall|j: int| 0 <= j < k ==> out@[j] == #[trigger] base64(input@)[j],
        decreases n - k,
    {
        let c: char = if k < chars {
            let v: u8 = 32 * crate::p2p::bit_at(input, 6 * k) + 16 * crate::p2p::bit_at(
                input,
                6 * k + 1,
            ) + 8 * crate::p2p::bit_at(input, 6 * k + 2) + 4 * crate::p2p::bit_at(input, 6 * k + 3)
                + 2 * crate::p2p::bit_at(input, 6 * k + 4) + crate::p2p::bit_at(input, 6 * k + 5);
            if v < 26 {
                (65 + v) as char
            } else if v < 52 {
                (71 + v) as char
            } else if v < 62 {
                (v - 4) as char
            } else if v == 62 {
                '+'
            } else {
                '/'
            }
        } else {
            '='
        };
        assert(c == base64(input@)[k as int]);
        out.push(c);
        k = k + 1;
    }
    assert(out@ == base64(input@));
    string_of(&out)
}

/// The value of the `Authorization` header.
pub fn basic_auth_header(user: &str, pass: &str) -> (r: String)
    ensures
        r@ == "Basic "@ + base64(encode_utf8(user@ + ":"@ + pass@)),
{
    let a = joined(user, ":");
    let raw = joined(a.as_str(), pass);
    let code = base64_encode(raw.as_str().as_bytes());
    joined("Basic ", code.as_str())
}

// ---- data in blocks -----------------------------------------------------------------------

/// The longest item that BIP-110 allows in a witness, in bytes.
pub const MAX_WITNESS_ITEM: usize = 256;

/// The longest `OP_RETURN` output that it allows.
pub const MAX_OP_RETURN_SPK: usize = 83;

/// The longest output of any other kind that it allows.
pub const MAX_OUTPUT_SPK: usize = 34;

/// How many bytes a hexadecimal text writes.
pub open spec fn hex_len(t: Seq<char>) -> int {
    encode_utf8(t).len() as int / 2
}

/// A witness item that holds an inscription: `OP_FALSE OP_IF`, then a push of `ord`.
pub open spec fn is_envelope(item: Json) -> bool {
    item.text() matches Some(t) && has_text(t, "0063036f7264"@)
}

/// The bytes of an item with an inscription, or 0.
pub open spec fn envelope_bytes(item: Json) -> int {
    if is_envelope(item) {
        hex_len(item.text().unwrap())
    } else {
        0
    }
}

/// A witness item that is too long.
pub open spec fn is_long_item(item: Json) -> bool {
    item.text() matches Some(t) && hex_len(t) > MAX_WITNESS_ITEM
}

/// The items of the witness of an input.
pub open spec fn witness(input: Json) -> Seq<Json> {
    input.items_or_none("txinwitness"@)
}

/// The text of an item, or the empty text.
pub open spec fn item_text(item: Json) -> Seq<char> {
    item.text().unwrap_or(Seq::empty())
}

/// A witness that ends in an annex behind a control block: two items or more, the last begins
/// with `50`, the one before it with `c0` or `c1`.
pub open spec fn has_annex(input: Json) -> bool {
    let w = witness(input);
    w.len() >= 2 && stands_at(item_text(w[w.len() - 1]), "50"@, 0) && (stands_at(
        item_text(w[w.len() - 2]),
        "c0"@,
        0,
    ) || stands_at(item_text(w[w.len() - 2]), "c1"@, 0))
}

/// The script of an output, in hexadecimal.
pub open spec fn script(out: Json) -> Seq<char> {
    match out.field("scriptPubKey"@) {
        Some(s) => s.text_or_empty("hex"@),
        None => Seq::empty(),
    }
}

/// An output that carries data: its script begins with `OP_RETURN`.
pub open spec fn is_op_return(out: Json) -> bool {
    stands_at(script(out), "6a"@, 0)
}

/// A runestone: `OP_RETURN OP_13`.
pub open spec fn is_rune(out: Json) -> bool {
    is_op_return(out) && stands_at(script(out), "6a5d"@, 0)
}

/// Data that is no runestone.
pub open spec fn is_data(out: Json) -> bool {
    is_op_return(out) && !stands_at(script(out), "6a5d"@, 0)
}

/// The bytes of a runestone, or 0.
pub open spec fn rune_bytes(out: Json) -> int {
    if is_rune(out) {
        hex_len(script(out))
    } else {
        0
    }
}

/// The bytes of other data, or 0.
pub open spec fn data_bytes(out: Json) -> int {
    if is_data(out) {
        hex_len(script(out))
    } else {
        0
    }
}

/// An output that is too long for its kind.
pub open spec fn is_long_output(out: Json) -> bool {
    hex_len(script(out)) > (if is_op_return(out) {
        MAX_OP_RETURN_SPK
    } else {
        MAX_OUTPUT_SPK
    })
}

/// The inputs of a transaction.
pub open spec fn inputs(tx: Json) -> Seq<Json> {
    tx.items_or_none("vin"@)
}

/// The outputs of a transaction.
pub open spec fn outputs(tx: Json) -> Seq<Json> {
    tx.items_or_none("vout"@)
}

/// The transaction that pays the miner.
pub open spec fn is_coinbase(tx: Json) -> bool {
    inputs(tx).len() > 0 && inputs(tx)[0].field("coinbase"@).is_some()
}

/// Whether some witness item of an input holds an inscription.
pub open spec fn input_inscribed(input: Json) -> bool {
    any(witness(input), |x: Json| is_envelope(x))
}

/// The bytes of the inscriptions in an input.
pub open spec fn input_bytes(input: Json) -> int {
    total(witness(input), |x: Json| envelope_bytes(x))
}

/// Whether some witness item of an input is too long.
pub open spec fn input_oversized(input: Json) -> bool {
    any(witness(input), |x: Json| is_long_item(x))
}

/// A transaction with an inscription.
pub open spec fn tx_inscribed(tx: Json) -> bool {
    any(inputs(tx), |i: Json| input_inscribed(i))
}

/// A transaction with a runestone.
pub open spec fn tx_rune(tx: Json) -> bool {
    any(outputs(tx), |o: Json| is_rune(o))
}

/// A transaction with other data.
pub open spec fn tx_data(tx: Json) -> bool {
    any(outputs(tx), |o: Json| is_data(o))
}

/// A transaction with data of any of these kinds.
pub open spec fn tx_payload(tx: Json) -> bool {
    tx_inscribed(tx) || tx_rune(tx) || tx_data(tx)
}

/// A transaction that BIP-110 rejects: one with an inscription, a witness item or an output that
/// is too long, or an annex.
pub open spec fn tx_rejected(tx: Json) -> bool {
    tx_inscribed(tx) || any(inputs(tx), |i: Json| input_oversized(i)) || any(
        outputs(tx),
        |o: Json| is_long_output(o),
    ) || any(inputs(tx), |i: Json| has_annex(i))
}

/// 1 where a transaction counts and meets `f`, else 0.
pub open spec fn counted(f: spec_fn(Json) -> bool) -> spec_fn(Json) -> int {
    |tx: Json|
        if !is_coinbase(tx) && f(tx) {
            1
        } else {
            0
        }
}

/// The weight of a transaction where it counts and meets `f`, else 0.
pub open spec fn weighed(f: spec_fn(Json) -> bool) -> spec_fn(Json) -> int {
    |tx: Json|
        if !is_coinbase(tx) && f(tx) {
            tx.number_or_0("weight"@) as int
        } else {
            0
        }
}

/// `g` of a transaction where it counts, else 0.
pub open spec fn measured(g: spec_fn(Json) -> int) -> spec_fn(Json) -> int {
    |tx: Json|
        if !is_coinbase(tx) {
            g(tx)
        } else {
            0
        }
}

/// The bytes of the inscriptions in a transaction.
pub open spec fn tx_insc_bytes() -> spec_fn(Json) -> int {
    |tx: Json| total(inputs(tx), |i: Json| input_bytes(i))
}

/// The bytes of the runestones in a transaction.
pub open spec fn tx_rune_bytes() -> spec_fn(Json) -> int {
    |tx: Json| total(outputs(tx), |o: Json| rune_bytes(o))
}

/// The bytes of other data in a transaction.
pub open spec fn tx_data_bytes() -> spec_fn(Json) -> int {
    |tx: Json| total(outputs(tx), |o: Json| data_bytes(o))
}

/// The figures of a block with these transactions, as they are before they are put in fields.
pub struct PayloadTotals {
    pub tx_total: int,
    pub insc_count: int,
    pub insc_weight: int,
    pub insc_bytes: int,
    pub rune_count: int,
    pub rune_weight: int,
    pub rune_bytes: int,
    pub data_count: int,
    pub data_weight: int,
    pub data_bytes: int,
    pub payload_tx_count: int,
    pub payload_weight: int,
    pub bip110_reject_count: int,
    pub bip110_reject_weight: int,
}

/// The figures over the transactions `txs`: in each category the number, weight and bytes of the
/// transactions that fall under it.
pub open spec fn payload_totals(txs: Seq<Json>) -> PayloadTotals {
    PayloadTotals {
        tx_total: total(txs, counted(|tx: Json| true)),
        insc_count: total(txs, counted(|tx: Json| tx_inscribed(tx))),
        insc_weight: total(txs, weighed(|tx: Json| tx_inscribed(tx))),
        insc_bytes: total(txs, measured(tx_insc_bytes())),
        rune_count: total(txs, counted(|tx: Json| tx_rune(tx))),
        rune_weight: total(txs, weighed(|tx: Json| tx_rune(tx))),
        rune_bytes: total(txs, measured(tx_rune_bytes())),
        data_count: total(txs, counted(|tx: Json| tx_data(tx))),
        data_weight: total(txs, weighed(|tx: Json| tx_data(tx))),
        data_bytes: total(txs, measured(tx_data_bytes())),
        payload_tx_count: total(txs, counted(|tx: Json| tx_payload(tx))),
        payload_weight: total(txs, weighed(|tx: Json| tx_payload(tx))),
        bip110_reject_count: total(txs, counted(|tx: Json| tx_rejected(tx))),
        bip110_reject_weight: total(txs, weighed(|tx: Json| tx_rejected(tx))),
    }
}

/// Every figure fits in its field.
pub open spec fn totals_fit(t: PayloadTotals) -> bool {
    &&& t.tx_total <= u32::MAX
    &&& fits64(t.insc_weight)
    &&& fits64(t.insc_bytes)
    &&& fits64(t.rune_weight)
    &&& fits64(t.rune_bytes)
    &&& fits64(t.data_weight)
    &&& fits64(t.data_bytes)
    &&& fits64(t.payload_weight)
    &&& fits64(t.bip110_reject_weight)
}

/// `p` holds the figures `t`.
pub open spec fn holds_totals(p: BlockPayload, t: PayloadTotals) -> bool {
    &&& p.tx_total == t.tx_total
    &&& p.insc_count == t.insc_count
    &&& p.insc_weight == t.insc_weight
    &&& p.insc_bytes == t.insc_bytes
    &&& p.rune_count == t.rune_count
    &&& p.rune_weight == t.rune_weight
    &&& p.rune_bytes == t.rune_bytes
    &&& p.data_count == t.data_count
    &&& p.data_weight == t.data_weight
    &&& p.data_bytes == t.data_bytes
    &&& p.payload_tx_count == t.payload_tx_count
    &&& p.payload_weight == t.payload_weight
    &&& p.bip110_reject_count == t.bip110_reject_count
    &&& p.bip110_reject_weight == t.bip110_reject_weight
}

/// A sum of lengths that is given up once it leaves 64 bits with sign.
fn add_len(sum: Option<i64>, n: u64) -> (r: Option<i64>)
    requires
        sum matches Some(s) ==> s >= 0,
    ensures
        match sum {
            Some(s) => if s + n <= i64::MAX {
                r == Some((s + n) as i64)
            } else {
                r.is_none()
            },
            None => r.is_none(),
        },
{
    match sum {
        Some(s) => {
            let t: i128 = s as i128 + n as i128;
            if t <= i64::MAX as i128 {
                Some(t as i64)
            } else {
                None
            }
        },
        None => None,
    }
}

/// `sum` is `n`, or `n` is too large and `sum` was given up.
pub open spec fn sums_to(sum: Option<i64>, n: int) -> bool {
    match sum {
        Some(s) => s == n && n >= 0,
        None => n > i64::MAX,
    }
}

/// What the witness of an input shows.
struct InputFacts {
    inscribed: bool,
    bytes: Option<i64>,
    oversized: bool,
    annex: bool,
}

fn read_input(input: &Json) -> (r: InputFacts)
    ensures
        r.inscribed == input_inscribed(*input),
        sums_to(r.bytes, input_bytes(*input)),
        r.oversized == input_oversized(*input),
        r.annex == has_annex(*input),
{
    let ghost e = |x: Json| is_envelope(x);
    let ghost n = |x: Json| envelope_bytes(x);
    let ghost l = |x: Json| is_long_item(x);
    let mut f = InputFacts { inscribed: false, bytes: Some(0), oversized: false, annex: false };
    if let Some(w) = input.get_items("txinwitness") {
        let mut i: usize = 0;
        assert(w@.take(0) =~= Seq::<Json>::empty());
        while i < w.len()
            invariant
                i <= w@.len(),
                e == (|x: Json| is_envelope(x)),
                n == (|x: Json| envelope_bytes(x)),
                l == (|x: Json| is_long_item(x)),
                f.inscribed == any(w@.take(i as int), e),
                sums_to(f.bytes, total(w@.take(i as int), n)),
                f.oversized == any(w@.take(i as int), l),
                !f.annex,
            decreases w@.len() - i,
        {
            proof {
                lemma_take(w@, i as int);
            }
            if let Some(t) = w[i].as_str() {
                let len: usize = t.as_bytes().len() / 2;
                assert(len == hex_len(t@));
                if len > MAX_WITNESS_ITEM {
                    f.oversized = true;
                }
                if contains_text(t, "0063036f7264") {
                    f.inscribed = true;
                    f.bytes = add_len(f.bytes, len as u64);
                }
            }
            i = i + 1;
        }
        assert(w@.take(w@.len() as int) == w@);
        if w.len() >= 2 {
            let last: &str = match w[w.len() - 1].as_str() {
                Some(t) => t,
                None => "",
            };
            let prev: &str = match w[w.len() - 2].as_str() {
                Some(t) => t,
                None => "",
            };
            proof {
                reveal_strlit("");
                assert(""@ =~= Seq::<char>::empty());
            }
            if starts_with_text(last, "50") && (starts_with_text(prev, "c0") || starts_with_text(
                prev,
                "c1",
            )) {
                f.annex = true;
            }
        }
    }
    f
}

/// What the inputs of a transaction show.
fn read_inputs(v: &Vec<Json>) -> (r: InputFacts)
    ensures
        r.inscribed == any(v@, |i: Json| input_inscribed(i)),
        sums_to(r.bytes, total(v@, |i: Json| input_bytes(i))),
        r.oversized == any(v@, |i: Json| input_oversized(i)),
        r.annex == any(v@, |i: Json| has_annex(i)),
{
    let ghost a = |i: Json| input_inscribed(i);
    let ghost b = |i: Json| input_bytes(i);
    let ghost c = |i: Json| input_oversized(i);
    let ghost d = |i: Json| has_annex(i);
    let mut f = InputFacts { inscribed: false, bytes: Some(0), oversized: false, annex: false };
    let mut i: usize = 0;
    assert(v@.take(0) =~= Seq::<Json>::empty());
    while i < v.len()
        invariant
            i <= v@.len(),
            a == (|i: Json| input_inscribed(i)),
            b == (|i: Json| input_bytes(i)),
            c == (|i: Json| input_oversized(i)),
            d == (|i: Json| has_annex(i)),
            f.inscribed == any(v@.take(i as int), a),
            sums_to(f.bytes, total(v@.take(i as int), b)),
            f.oversized == any(v@.take(i as int), c),
            f.annex == any(v@.take(i as int), d),
        decreases v@.len() - i,
    {
        proof {
            lemma_take(v@, i as int);
            lemma_input_bytes(v@[i as int]);
        }
        let one = read_input(&v[i]);
        f.inscribed = f.inscribed || one.inscribed;
        f.oversized = f.oversized || one.oversized;
        f.annex = f.annex || one.annex;
        f.bytes = match one.bytes {
            Some(n) => add_len(f.bytes, n as u64),
            None => None,
        };
        i = i + 1;
    }
    assert(v@.take(v@.len() as int) == v@);
    f
}

proof fn lemma_input_bytes(input: Json)
    ensures
        input_bytes(input) >= 0,
{
    let f = |x: Json| envelope_bytes(x);
    assert forall|x: Json| #[trigger] f(x) >= 0 by {}
    lemma_total_grows(witness(input), f, 0);
}

/// What the outputs of a transaction show.
struct OutputFacts {
    rune: bool,
    rune_bytes: Option<i64>,
    data: bool,
    data_bytes: Option<i64>,
    oversized: bool,
}

fn read_script(out: &Json) -> (r: String)
    ensures
        r@ == script(*out),
{
    match out.get("scriptPubKey") {
        Some(s) => s.get_text("hex"),
        None => {
            let e = String::new();
            assert(e@ == Seq::<char>::empty());
            e
        },
    }
}

fn read_outputs(v: &Vec<Json>) -> (r: OutputFacts)
    ensures
        r.rune == any(v@, |o: Json| is_rune(o)),
        sums_to(r.rune_bytes, total(v@, |o: Json| rune_bytes(o))),
        r.data == any(v@, |o: Json| is_data(o)),
        sums_to(r.data_bytes, total(v@, |o: Json| data_bytes(o))),
        r.oversized == any(v@, |o: Json| is_long_output(o)),
{
    let ghost a = |o: Json| is_rune(o);
    let ghost b = |o: Json| rune_bytes(o);
    let ghost c = |o: Json| is_data(o);
    let ghost d = |o: Json| data_bytes(o);
    let ghost e = |o: Json| is_long_output(o);
    let mut f = OutputFacts {
        rune: false,
        rune_bytes: Some(0),
        data: false,
        data_bytes: Some(0),
        oversized: false,
    };
    let mut i: usize = 0;
    assert(v@.take(0) =~= Seq::<Json>::empty());
    while i < v.len()
        invariant
            i <= v@.len(),
            a == (|o: Json| is_rune(o)),
            b == (|o: Json| rune_bytes(o)),
            c == (|o: Json| is_data(o)),
            d == (|o: Json| data_bytes(o)),
            e == (|o: Json| is_long_output(o)),
            f.rune == any(v@.take(i as int), a),
            sums_to(f.rune_bytes, total(v@.take(i as int), b)),
            f.data == any(v@.take(i as int), c),
            sums_to(f.data_bytes, total(v@.take(i as int), d)),
            f.oversized == any(v@.take(i as int), e),
        decreases v@.len() - i,
    {
        proof {
            lemma_take(v@, i as int);
        }
        let spk = read_script(&v[i]);
        let len: usize = spk.as_str().as_bytes().len() / 2;
        assert(len == hex_len(spk@));
        if starts_with_text(spk.as_str(), "6a") {
            if len > MAX_OP_RETURN_SPK {
                f.oversized = true;
            }
            if starts_with_text(spk.as_str(), "6a5d") {
                f.rune = true;
                f.rune_bytes = add_len(f.rune_bytes, len as u64);
            } else {
                f.data = true;
                f.data_bytes = add_len(f.data_bytes, len as u64);
            }
        } else if len > MAX_OUTPUT_SPK {
            f.oversized = true;
        }
        i = i + 1;
    }
    assert(v@.take(v@.len() as int) == v@);
    f
}

/// What a transaction that counts shows.
struct TxFacts {
    weight: i64,
    inscribed: bool,
    insc_bytes: Option<i64>,
    rune: bool,
    rune_bytes: Option<i64>,
    data: bool,
    data_bytes: Option<i64>,
    rejected: bool,
}

/// The facts of a transaction; `None` for the coinbase.
fn read_tx(tx: &Json) -> (r: Option<TxFacts>)
    ensures
        match r {
            Some(f) => {
                &&& !is_coinbase(*tx)
                &&& f.weight == tx.number_or_0("weight"@)
                &&& f.inscribed == tx_inscribed(*tx)
                &&& sums_to(f.insc_bytes, tx_insc_bytes()(*tx))
                &&& f.rune == tx_rune(*tx)
                &&& sums_to(f.rune_bytes, tx_rune_bytes()(*tx))
                &&& f.data == tx_data(*tx)
                &&& sums_to(f.data_bytes, tx_data_bytes()(*tx))
                &&& f.rejected == tx_rejected(*tx)
            },
            None => is_coinbase(*tx),
        },
{
    let none: Vec<Json> = Vec::new();
    let vin: &Vec<Json> = match tx.get_items("vin") {
        Some(v) => v,
        None => &none,
    };
    assert(vin@ =~= inputs(*tx));
    if vin.len() > 0 && vin[0].get("coinbase").is_some() {
        return None;
    }
    let vout: &Vec<Json> = match tx.get_items("vout") {
        Some(v) => v,
        None => &none,
    };
    assert(vout@ =~= outputs(*tx));
    let i = read_inputs(vin);
    let o = read_outputs(vout);
    Some(
        TxFacts {
            weight: tx.get_i64("weight"),
            inscribed: i.inscribed,
            insc_bytes: i.bytes,
            rune: o.rune,
            rune_bytes: o.rune_bytes,
            data: o.data,
            data_bytes: o.data_bytes,
            rejected: i.inscribed || i.oversized || o.oversized || i.annex,
        },
    )
}

/// A running count and a running weight.
struct Tally {
    count: usize,
    weight: i128,
}

/// `t` holds the count and weight of the first transactions that meet `f`.
spec fn tallied(t: Tally, txs: Seq<Json>, f: spec_fn(Json) -> bool) -> bool {
    &&& t.count == total(txs, counted(f))
    &&& t.weight == total(txs, weighed(f))
    &&& t.count <= txs.len()
    &&& -(0x8000_0000_0000_0000 * txs.len()) <= t.weight <= 0x8000_0000_0000_0000 * txs.len()
}

fn tally_one(t: Tally, hit: bool, weight: i64, Ghost(txs): Ghost<Seq<Json>>, Ghost(i): Ghost<int>,
    Ghost(f): Ghost<spec_fn(Json) -> bool>) -> (r: Tally)
    requires
        0 <= i < txs.len() <= usize::MAX,
        tallied(t, txs.take(i), f),
        hit == (!is_coinbase(txs[i]) && f(txs[i])),
        hit ==> weight == txs[i].number_or_0("weight"@),
    ensures
        tallied(r, txs.take(i + 1), f),
{
    proof {
        lemma_take(txs, i);
        assert(0x8000_0000_0000_0000 * i <= 0x7fff_ffff_ffff_ffff_8000_0000_0000_0000) by (
            nonlinear_arith)
            requires
                0 <= i < 0xffff_ffff_ffff_ffff,
        ;
    }
    if hit {
        Tally { count: t.count + 1, weight: t.weight + weight as i128 }
    } else {
        t
    }
}

fn no_tally(Ghost(f): Ghost<spec_fn(Json) -> bool>) -> (r: Tally)
    ensures
        tallied(r, Seq::empty(), f),
{
    Tally { count: 0, weight: 0 }
}

/// Adds the bytes of one more transaction.
fn add_bytes(sum: Option<i64>, one: Option<i64>, Ghost(txs): Ghost<Seq<Json>>, Ghost(i): Ghost<int>,
    Ghost(g): Ghost<spec_fn(Json) -> int>) -> (r: Option<i64>)
    requires
        0 <= i < txs.len(),
        sums_to(sum, total(txs.take(i), measured(g))),
        is_coinbase(txs[i]) ==> one == Some(0i64),
        !is_coinbase(txs[i]) ==> sums_to(one, g(txs[i])),
        total(txs.take(i), measured(g)) >= 0,
    ensures
        sums_to(r, total(txs.take(i + 1), measured(g))),
        total(txs.take(i + 1), measured(g)) >= 0,
{
    proof {
        lemma_take(txs, i);
    }
    match one {
        Some(n) => add_len(sum, n as u64),
        None => None,
    }
}

proof fn lemma_counts(txs: Seq<Json>, f: spec_fn(Json) -> bool)
    ensures
        0 <= total(txs, counted(f)) <= total(txs, counted(|tx: Json| true)),
    decreases txs.len(),
{
    if txs.len() > 0 {
        lemma_counts(txs.drop_last(), f);
    }
}

/// The data that the transactions of a block carry, from the result of `getblock` with all
/// transactions; `None` where a figure does not fit in its field.
#[verifier::rlimit(60)]
pub fn analyze_block(block: &Json) -> (r: Option<BlockPayload>)
    ensures
        match r {
            Some(p) => totals_fit(payload_totals(block.items_or_none("tx"@))) && holds_totals(
                p,
                payload_totals(block.items_or_none("tx"@)),
            ),
            None => !totals_fit(payload_totals(block.items_or_none("tx"@))),
        },
{
    let none: Vec<Json> = Vec::new();
    let txs: &Vec<Json> = match block.get_items("tx") {
        Some(v) => v,
        None => &none,
    };
    assert(txs@ =~= block.items_or_none("tx"@));
    let ghost all = |tx: Json| true;
    let ghost fi = |tx: Json| tx_inscribed(tx);
    let ghost fr = |tx: Json| tx_rune(tx);
    let ghost fd = |tx: Json| tx_data(tx);
    let ghost fp = |tx: Json| tx_payload(tx);
    let ghost fj = |tx: Json| tx_rejected(tx);
    let mut every = no_tally(Ghost(all));
    let mut insc = no_tally(Ghost(fi));
    let mut rune = no_tally(Ghost(fr));
    let mut data = no_tally(Ghost(fd));
    let mut payload = no_tally(Ghost(fp));
    let mut reject = no_tally(Ghost(fj));
    let mut insc_bytes: Option<i64> = Some(0);
    let mut rune_bytes: Option<i64> = Some(0);
    let mut data_bytes: Option<i64> = Some(0);
    let mut i: usize = 0;
    assert(txs@.take(0) =~= Seq::<Json>::empty());
    while i < txs.len()
        invariant
            i <= txs@.len(),
            all == (|tx: Json| true),
            fi == (|tx: Json| tx_inscribed(tx)),
            fr == (|tx: Json| tx_rune(tx)),
            fd == (|tx: Json| tx_data(tx)),
            fp == (|tx: Json| tx_payload(tx)),
            fj == (|tx: Json| tx_rejected(tx)),
            tallied(every, txs@.take(i as int), all),
            tallied(insc, txs@.take(i as int), fi),
            tallied(rune, txs@.take(i as int), fr),
            tallied(data, txs@.take(i as int), fd),
            tallied(payload, txs@.take(i as int), fp),
            tallied(reject, txs@.take(i as int), fj),
            sums_to(insc_bytes, total(txs@.take(i as int), measured(tx_insc_bytes()))),
            sums_to(rune_bytes, total(txs@.take(i as int), measured(tx_rune_bytes()))),
            sums_to(data_bytes, total(txs@.take(i as int), measured(tx_data_bytes()))),
            total(txs@.take(i as int), measured(tx_insc_bytes())) >= 0,
            total(txs@.take(i as int), measured(tx_rune_bytes())) >= 0,
            total(txs@.take(i as int), measured(tx_data_bytes())) >= 0,
        decreases txs@.len() - i,
    {
        let ghost t = txs@;
        let ghost k = i as int;
        match read_tx(&txs[i]) {
            Some(f) => {
                let w: i64 = f.weight;
                let carries: bool = f.inscribed || f.rune || f.data;
                every = tally_one(every, true, w, Ghost(t), Ghost(k), Ghost(all));
                insc = tally_one(insc, f.inscribed, w, Ghost(t), Ghost(k), Ghost(fi));
                rune = tally_one(rune, f.rune, w, Ghost(t), Ghost(k), Ghost(fr));
                data = tally_one(data, f.data, w, Ghost(t), Ghost(k), Ghost(fd));
                payload = tally_one(payload, carries, w, Ghost(t), Ghost(k), Ghost(fp));
                reject = tally_one(reject, f.rejected, w, Ghost(t), Ghost(k), Ghost(fj));
                insc_bytes = add_bytes(
                    insc_bytes,
                    f.insc_bytes,
                    Ghost(t),
                    Ghost(k),
                    Ghost(tx_insc_bytes()),
                );
                rune_bytes = add_bytes(
                    rune_bytes,
                    f.rune_bytes,
                    Ghost(t),
                    Ghost(k),
                    Ghost(tx_rune_bytes()),
                );
                data_bytes = add_bytes(
                    data_bytes,
                    f.data_bytes,
                    Ghost(t),
                    Ghost(k),
                    Ghost(tx_data_bytes()),
                );
            },
            None => {
                every = tally_one(every, false, 0, Ghost(t), Ghost(k), Ghost(all));
                insc = tally_one(insc, false, 0, Ghost(t), Ghost(k), Ghost(fi));
                rune = tally_one(rune, false, 0, Ghost(t), Ghost(k), Ghost(fr));
                data = tally_one(data, false, 0, Ghost(t), Ghost(k), Ghost(fd));
                payload = tally_one(payload, false, 0, Ghost(t), Ghost(k), Ghost(fp));
                reject = tally_one(reject, false, 0, Ghost(t), Ghost(k), Ghost(fj));
                insc_bytes = add_bytes(
                    insc_bytes,
                    Some(0),
                    Ghost(t),
                    Ghost(k),
                    Ghost(tx_insc_bytes()),
                );
                rune_bytes = add_bytes(
                    rune_bytes,
                    Some(0),
                    Ghost(t),
                    Ghost(k),
                    Ghost(tx_rune_bytes()),
                );
                data_bytes = add_bytes(
                    data_bytes,
                    Some(0),
                    Ghost(t),
                    Ghost(k),
                    Ghost(tx_data_bytes()),
                );
            },
        }
        i = i + 1;
    }
    proof {
        assert(txs@.take(txs@.len() as int) == txs@);
        lemma_counts(txs@, fi);
        lemma_counts(txs@, fr);
        lemma_counts(txs@, fd);
        lemma_counts(txs@, fp);
        lemma_counts(txs@, fj);
    }
    if every.count > u32::MAX as usize {
        return None;
    }
    let insc_weight = narrow(insc.weight);
    let rune_weight = narrow(rune.weight);
    let data_weight = narrow(data.weight);
    let payload_weight = narrow(payload.weight);
    let reject_weight = narrow(reject.weight);
    if insc_weight.is_none() || rune_weight.is_none() || data_weight.is_none()
        || payload_weight.is_none() || reject_weight.is_none() || insc_bytes.is_none()
        || rune_bytes.is_none() || data_bytes.is_none() {
        return None;
    }
    Some(
        BlockPayload {
            tx_total: every.count as u32,
            insc_count: insc.count as u32,
            insc_weight: insc_weight.unwrap(),
            insc_bytes: insc_bytes.unwrap(),
            rune_count: rune.count as u32,
            rune_weight: rune_weight.unwrap(),
            rune_bytes: rune_bytes.unwrap(),
            data_count: data.count as u32,
            data_weight: data_weight.unwrap(),
            data_bytes: data_bytes.unwrap(),
            payload_tx_count: payload.count as u32,
            payload_weight: payload_weight.unwrap(),
            bip110_reject_count: reject.count as u32,
            bip110_reject_weight: reject_weight.unwrap(),
        },
    )
}

/// The coinbase counts nowhere: figures do not change where it is left out.
pub proof fn law_coinbase_counts_nowhere(txs: Seq<Json>, tx: Json)
    requires
        is_coinbase(tx),
    ensures
        payload_totals(txs.push(tx)) == payload_totals(txs),
{
    assert(txs.push(tx).drop_last() == txs);
}

/// A transaction whose only data is an `OP_RETURN` output of at most 83 bytes, runestone or not,
/// is not rejected: its inputs have no witness, and its other outputs are short.
pub proof fn law_small_op_return_is_valid(tx: Json)
    requires
        forall|i: int| 0 <= i < inputs(tx).len() ==> witness(#[trigger] inputs(tx)[i]).len() == 0,
        forall|i: int|
            0 <= i < outputs(tx).len() ==> hex_len(script(#[trigger] outputs(tx)[i])) <= (
            if is_op_return(outputs(tx)[i]) {
                MAX_OP_RETURN_SPK
            } else {
                MAX_OUTPUT_SPK
            }),
    ensures
        !tx_rejected(tx),
{
    crate::json::law_any(inputs(tx), |i: Json| input_inscribed(i));
    crate::json::law_any(inputs(tx), |i: Json| input_oversized(i));
    crate::json::law_any(inputs(tx), |i: Json| has_annex(i));
    crate::json::law_any(outputs(tx), |o: Json| is_long_output(o));
}

/// The heights in the list are those of the blocks that signal, and of no others.
pub proof fn law_signalling_heights(versions: Seq<i64>, start: i64, bit: u8, i: int)
    requires
        0 <= i < versions.len(),
        start + versions.len() <= i64::MAX,
    ensures
        signalling_heights(versions, start, bit).contains((start + i) as i64) <==> version_signals(
            versions[i],
            bit,
        ),
    decreases versions.len(),
{
    let d = versions.drop_last();
    let r = signalling_heights(d, start, bit);
    let h = (start + i) as i64;
    let last = (start + versions.len() - 1) as i64;
    lemma_heights_below(d, start, bit);
    if i < d.len() {
        law_signalling_heights(d, start, bit, i);
    }
    if version_signals(versions.last(), bit) {
        let u = r.push(last);
        assert(u.contains(h) <==> r.contains(h) || h == last) by {
            if r.contains(h) {
                let j = choose|j: int| 0 <= j < r.len() && r[j] == h;
                assert(u[j] == h);
            }
            if u.contains(h) && h != last {
                let j = choose|j: int| 0 <= j < u.len() && u[j] == h;
                assert(r[j] == h);
            }
            assert(u[r.len() as int] == last);
        }
    }
}

/// The heights lie among those of the blocks.
proof fn lemma_heights_below(versions: Seq<i64>, start: i64, bit: u8)
    requires
        start + versions.len() <= i64::MAX,
    ensures
        forall|j: int|
            0 <= j < signalling_heights(versions, start, bit).len() ==> start
                <= #[trigger] signalling_heights(versions, start, bit)[j] < start + versions.len(),
    decreases versions.len(),
{
    if versions.len() > 0 {
        let d = versions.drop_last();
        let r = signalling_heights(d, start, bit);
        let all = signalling_heights(versions, start, bit);
        lemma_heights_below(d, start, bit);
        assert forall|j: int| 0 <= j < all.len() implies start <= #[trigger] all[j] < start
            + versions.len() by {
            if j < r.len() {
                assert(all[j] == r[j]);
            }
        }
    }
}

// ---- what a transaction adds to the figures -----------------------------------------------

/// The text of an item of the witness of an input of a transaction; none where the item is no
/// text.
pub open spec fn witness_text(tx: Json, i: int, j: int) -> Option<Seq<char>> {
    match tx.items_or_none("vin"@)[i].items_or_none("txinwitness"@)[j] {
        Json::Text(s) => Some(s@),
        _ => None,
    }
}

/// A witness item of a transaction that says `OP_FALSE OP_IF` and pushes `ord`, whatever its
/// length, makes the transaction one with an inscription, with data and one that is rejected: it
/// adds 1 to the number of each, its weight to their weights, and half the length of the item, at
/// least, to the bytes of inscriptions.
pub proof fn law_inscription_is_counted(txs: Seq<Json>, tx: Json, i: int, j: int, s: String)
    requires
        tx.items_or_none("vin"@)[0].field("coinbase"@).is_none(),
        0 <= i < tx.items_or_none("vin"@).len(),
        0 <= j < tx.items_or_none("vin"@)[i].items_or_none("txinwitness"@).len(),
        tx.items_or_none("vin"@)[i].items_or_none("txinwitness"@)[j] == Json::Text(s),
        exists|a: Seq<char>, b: Seq<char>| s@ == #[trigger] (a + "0063036f7264"@ + b),
    ensures
        ({
            let p = payload_totals(txs);
            let q = payload_totals(txs.push(tx));
            let w = tx.number_or_0("weight"@);
            &&& q.tx_total == p.tx_total + 1
            &&& q.insc_count == p.insc_count + 1
            &&& q.insc_weight == p.insc_weight + w
            &&& q.insc_bytes >= p.insc_bytes + encode_utf8(s@).len() / 2
            &&& q.payload_tx_count == p.payload_tx_count + 1
            &&& q.payload_weight == p.payload_weight + w
            &&& q.bip110_reject_count == p.bip110_reject_count + 1
            &&& q.bip110_reject_weight == p.bip110_reject_weight + w
        }),
{
    let vin = tx.items_or_none("vin"@);
    let w = vin[i].items_or_none("txinwitness"@);
    crate::text::law_has_text(s@, "0063036f7264"@);
    assert(txs.push(tx).drop_last() =~= txs);
    let e = |x: Json| is_envelope(x);
    let n = |x: Json| envelope_bytes(x);
    let f = |x: Json| input_inscribed(x);
    let g = |x: Json| input_bytes(x);
    assert(e(w[j]));
    crate::json::law_any(w, e);
    assert(f(vin[i]));
    crate::json::law_any(vin, f);
    assert forall|x: Json| #[trigger] n(x) >= 0 by {}
    crate::json::lemma_one_of_total(w, n, j);
    assert forall|x: Json| #[trigger] g(x) >= 0 by {
        lemma_input_bytes(x);
    }
    crate::json::lemma_one_of_total(vin, g, i);
}

/// What a transaction other than the coinbase adds to the figures of a block, read off its raw
/// fields. It has an inscription where the text of a witness item says so, a runestone where the
/// script of an output begins with `6a5d`, other data where one begins with `6a` and goes on
/// otherwise. It is rejected where it has an inscription, a witness item of more than 256 bytes, an
/// output of more than 83 bytes that begins with `6a` or of more than 34 that does not, or a
/// witness of two items or more whose last begins with `50` behind one with `c0` or `c1`.
pub proof fn law_what_a_transaction_adds(txs: Seq<Json>, tx: Json)
    requires
        tx.items_or_none("vin"@).len() > 0 ==> tx.items_or_none("vin"@)[0].field(
            "coinbase"@,
        ).is_none(),
    ensures
        ({
            let p = payload_totals(txs);
            let q = payload_totals(txs.push(tx));
            let w = tx.number_or_0("weight"@);
            let vin = tx.items_or_none("vin"@);
            let vout = tx.items_or_none("vout"@);
            let insc = exists|i: int, j: int|
                0 <= i < vin.len() && 0 <= j < vin[i].items_or_none("txinwitness"@).len() && ((
                #[trigger] witness_text(tx, i, j)) matches Some(t) && has_text(t, "0063036f7264"@));
            let long = exists|i: int, j: int|
                0 <= i < vin.len() && 0 <= j < vin[i].items_or_none("txinwitness"@).len() && ((
                #[trigger] witness_text(tx, i, j)) matches Some(t) && encode_utf8(t).len() / 2
                    > 256);
            let rune = exists|o: int|
                0 <= o < vout.len() && begins(script(#[trigger] vout[o]), seq!['6', 'a', '5', 'd']);
            let data = exists|o: int|
                0 <= o < vout.len() && begins(script(#[trigger] vout[o]), seq!['6', 'a'])
                    && !begins(script(vout[o]), seq!['6', 'a', '5', 'd']);
            let big = exists|o: int|
                0 <= o < vout.len() && encode_utf8(script(#[trigger] vout[o])).len() / 2 > (
                if begins(script(vout[o]), seq!['6', 'a']) {
                    83int
                } else {
                    34int
                });
            let annex = exists|i: int|
                0 <= i < vin.len() && ends_in_annex(
                    (#[trigger] vin[i]).items_or_none("txinwitness"@),
                );
            &&& q.tx_total == p.tx_total + 1
            &&& q.insc_count == p.insc_count + one_if(insc)
            &&& q.insc_weight == p.insc_weight + w * one_if(insc)
            &&& q.rune_count == p.rune_count + one_if(rune)
            &&& q.rune_weight == p.rune_weight + w * one_if(rune)
            &&& q.data_count == p.data_count + one_if(data)
            &&& q.data_weight == p.data_weight + w * one_if(data)
            &&& q.payload_tx_count == p.payload_tx_count + one_if(insc || rune || data)
            &&& q.payload_weight == p.payload_weight + w * one_if(insc || rune || data)
            &&& q.bip110_reject_count == p.bip110_reject_count + one_if(
                insc || long || big || annex,
            )
            &&& q.bip110_reject_weight == p.bip110_reject_weight + w * one_if(
                insc || long || big || annex,
            )
        }),
{
    let vin = tx.items_or_none("vin"@);
    let vout = tx.items_or_none("vout"@);
    assert(txs.push(tx).drop_last() =~= txs);
    reveal_strlit("6a");
    reveal_strlit("6a5d");
    assert("6a"@ =~= seq!['6', 'a']);
    assert("6a5d"@ =~= seq!['6', 'a', '5', 'd']);
    assert forall|t: Seq<char>|
        #[trigger] stands_at(t, "6a5d"@, 0) implies stands_at(t, "6a"@, 0) by {
        lemma_begins_shorter(t);
    }
    lemma_some_item(tx, |x: Json| is_envelope(x));
    lemma_some_item(tx, |x: Json| is_long_item(x));
    lemma_any_of(vin, |i: Json| input_inscribed(i), |i: Json| any(
        i.items_or_none("txinwitness"@),
        |x: Json| is_envelope(x),
    ));
    lemma_any_of(vin, |i: Json| input_oversized(i), |i: Json| any(
        i.items_or_none("txinwitness"@),
        |x: Json| is_long_item(x),
    ));
    crate::json::law_any(vout, |o: Json| is_rune(o));
    crate::json::law_any(vout, |o: Json| is_data(o));
    crate::json::law_any(vout, |o: Json| is_long_output(o));
    crate::json::law_any(vin, |i: Json| has_annex(i));
    assert forall|i: int| 0 <= i < vin.len() implies has_annex(#[trigger] vin[i]) == ends_in_annex(
        vin[i].items_or_none("txinwitness"@),
    ) by {
        lemma_annex(vin[i]);
    }
    assert forall|o: int| 0 <= o < vout.len() implies is_rune(#[trigger] vout[o]) == begins(
        script(vout[o]),
        seq!['6', 'a', '5', 'd'],
    ) && is_op_return(vout[o]) == begins(script(vout[o]), seq!['6', 'a']) by {
        lemma_begins_shorter(script(vout[o]));
    }
    let insc = exists|i: int, j: int|
        0 <= i < vin.len() && 0 <= j < vin[i].items_or_none("txinwitness"@).len() && ((
        #[trigger] witness_text(tx, i, j)) matches Some(t) && has_text(t, "0063036f7264"@));
    let long = exists|i: int, j: int|
        0 <= i < vin.len() && 0 <= j < vin[i].items_or_none("txinwitness"@).len() && ((
        #[trigger] witness_text(tx, i, j)) matches Some(t) && encode_utf8(t).len() / 2 > 256);
    assert(insc == tx_inscribed(tx)) by {
        if tx_inscribed(tx) {
            let (i, j) = choose|i: int, j: int|
                0 <= i < vin.len() && 0 <= j < vin[i].items_or_none("txinwitness"@).len()
                    && is_envelope(#[trigger] vin[i].items_or_none("txinwitness"@)[j]);
            assert(witness_text(tx, i, j).is_some());
        }
        if insc {
            let (i, j) = choose|i: int, j: int|
                0 <= i < vin.len() && 0 <= j < vin[i].items_or_none("txinwitness"@).len() && ((
                #[trigger] witness_text(tx, i, j)) matches Some(t) && has_text(
                    t,
                    "0063036f7264"@,
                ));
            assert(is_envelope(vin[i].items_or_none("txinwitness"@)[j]));
        }
    }
    let oversized = any(vin, |i: Json| input_oversized(i));
    assert(long == oversized) by {
        if oversized {
            let (i, j) = choose|i: int, j: int|
                0 <= i < vin.len() && 0 <= j < vin[i].items_or_none("txinwitness"@).len()
                    && is_long_item(#[trigger] vin[i].items_or_none("txinwitness"@)[j]);
            assert(witness_text(tx, i, j).is_some());
        }
        if long {
            let (i, j) = choose|i: int, j: int|
                0 <= i < vin.len() && 0 <= j < vin[i].items_or_none("txinwitness"@).len() && ((
                #[trigger] witness_text(tx, i, j)) matches Some(t) && encode_utf8(t).len() / 2
                    > 256);
            assert(is_long_item(vin[i].items_or_none("txinwitness"@)[j]));
        }
    }
    assert(!is_coinbase(tx));
    let x = tx.number_or_0("weight"@);
    assert(x * 1 == x && x * 0 == 0);
}

/// 1 where `b` holds, else 0.
pub open spec fn one_if(b: bool) -> int {
    if b {
        1
    } else {
        0
    }
}

/// Whether `s` begins with `p`, character by character.
pub open spec fn begins(s: Seq<char>, p: Seq<char>) -> bool {
    p.len() <= s.len() && s.take(p.len() as int) == p
}

/// Whether a witness has two items or more, the last of which begins with `50`, and the one before
/// it with `c0` or `c1`.
pub open spec fn ends_in_annex(w: Seq<Json>) -> bool {
    w.len() >= 2 && (w[w.len() - 1] matches Json::Text(a) && begins(a@, seq!['5', '0'])) && (w[w.len()
        - 2] matches Json::Text(b) && (begins(b@, seq!['c', '0']) || begins(b@, seq!['c', '1'])))
}

proof fn lemma_begins_shorter(t: Seq<char>)
    ensures
        stands_at(t, "6a"@, 0) == begins(t, seq!['6', 'a']),
        stands_at(t, "6a5d"@, 0) == begins(t, seq!['6', 'a', '5', 'd']),
        stands_at(t, "6a5d"@, 0) ==> stands_at(t, "6a"@, 0),
{
    reveal_strlit("6a");
    reveal_strlit("6a5d");
    assert("6a"@ =~= seq!['6', 'a']);
    assert("6a5d"@ =~= seq!['6', 'a', '5', 'd']);
    if stands_at(t, "6a5d"@, 0) {
        let u = t.subrange(0, 4);
        assert(u[0] == t[0] && u[1] == t[1]);
        assert(t.subrange(0, 2) =~= seq!['6', 'a']);
    }
    if t.len() >= 2 {
        assert(t.subrange(0, 2) =~= t.take(2));
    }
    if t.len() >= 4 {
        assert(t.subrange(0, 4) =~= t.take(4));
    }
}

proof fn lemma_annex(input: Json)
    ensures
        has_annex(input) == ends_in_annex(input.items_or_none("txinwitness"@)),
{
    let w = input.items_or_none("txinwitness"@);
    reveal_strlit("50");
    reveal_strlit("c0");
    reveal_strlit("c1");
    assert("50"@ =~= seq!['5', '0']);
    assert("c0"@ =~= seq!['c', '0']);
    assert("c1"@ =~= seq!['c', '1']);
    assert forall|t: Seq<char>| t.len() >= 2 implies #[trigger] t.subrange(0, 2) == t.take(2) by {
        assert(t.subrange(0, 2) =~= t.take(2));
    }
}

/// Whether an item of the witness of some input meets `f`.
proof fn lemma_some_item(tx: Json, f: spec_fn(Json) -> bool)
    ensures
        any(
            tx.items_or_none("vin"@),
            |i: Json| any(i.items_or_none("txinwitness"@), f),
        ) <==> exists|i: int, j: int|
            0 <= i < tx.items_or_none("vin"@).len() && 0 <= j < tx.items_or_none(
                "vin"@,
            )[i].items_or_none("txinwitness"@).len() && f(
                #[trigger] tx.items_or_none("vin"@)[i].items_or_none("txinwitness"@)[j],
            ),
{
    let vin = tx.items_or_none("vin"@);
    let g = |i: Json| any(i.items_or_none("txinwitness"@), f);
    crate::json::law_any(vin, g);
    assert forall|i: int| 0 <= i < vin.len() implies g(#[trigger] vin[i]) == exists|j: int|
        0 <= j < vin[i].items_or_none("txinwitness"@).len() && f(
            #[trigger] vin[i].items_or_none("txinwitness"@)[j],
        ) by {
        crate::json::law_any(vin[i].items_or_none("txinwitness"@), f);
    }
}

/// Two ways to say the same of every item.
proof fn lemma_any_of(s: Seq<Json>, f: spec_fn(Json) -> bool, g: spec_fn(Json) -> bool)
    requires
        forall|x: Json| #[trigger] f(x) == g(x),
    ensures
        any(s, f) == any(s, g),
    decreases s.len(),
{
    if s.len() > 0 {
        lemma_any_of(s.drop_last(), f, g);
        assert(f(s.last()) == g(s.last()));
    }
}

/// Half the length of a text, where it is one and `f` holds of it; else 0.
pub open spec fn half_length(t: Seq<char>, f: bool) -> int {
    if f {
        encode_utf8(t).len() as int / 2
    } else {
        0
    }
}

/// The bytes that a transaction other than the coinbase adds: half the length of every witness item
/// with an inscription, of every script that begins with `6a5d`, and of every other script that
/// begins with `6a`.
pub proof fn law_what_bytes_a_transaction_adds(txs: Seq<Json>, tx: Json)
    requires
        tx.items_or_none("vin"@).len() > 0 ==> tx.items_or_none("vin"@)[0].field(
            "coinbase"@,
        ).is_none(),
    ensures
        ({
            let p = payload_totals(txs);
            let q = payload_totals(txs.push(tx));
            let rune = seq!['6', 'a', '5', 'd'];
            let data = seq!['6', 'a'];
            &&& q.insc_bytes - p.insc_bytes == total(
                tx.items_or_none("vin"@),
                |i: Json|
                    total(
                        i.items_or_none("txinwitness"@),
                        |x: Json|
                            match x {
                                Json::Text(s) => half_length(s@, has_text(s@, "0063036f7264"@)),
                                _ => 0,
                            },
                    ),
            )
            &&& q.rune_bytes - p.rune_bytes == total(
                tx.items_or_none("vout"@),
                |o: Json| half_length(script(o), begins(script(o), rune)),
            )
            &&& q.data_bytes - p.data_bytes == total(
                tx.items_or_none("vout"@),
                |o: Json|
                    half_length(script(o), begins(script(o), data) && !begins(script(o), rune)),
            )
        }),
{
    let vin = tx.items_or_none("vin"@);
    let vout = tx.items_or_none("vout"@);
    let rune = seq!['6', 'a', '5', 'd'];
    let data = seq!['6', 'a'];
    assert(txs.push(tx).drop_last() =~= txs);
    let item = |x: Json|
        match x {
            Json::Text(s) => half_length(s@, has_text(s@, "0063036f7264"@)),
            _ => 0,
        };
    let one = |i: Json| total(i.items_or_none("txinwitness"@), item);
    assert forall|i: Json| #[trigger] one(i) == input_bytes(i) by {
        crate::json::lemma_same_total(
            i.items_or_none("txinwitness"@),
            item,
            |x: Json| envelope_bytes(x),
        );
    }
    crate::json::lemma_same_total(vin, one, |i: Json| input_bytes(i));
    assert forall|o: Json| #[trigger] script(o) == script(o) implies is_rune(o) == begins(
        script(o),
        rune,
    ) && is_data(o) == (begins(script(o), data) && !begins(script(o), rune)) by {
        lemma_begins_shorter(script(o));
    }
    crate::json::lemma_same_total(
        vout,
        |o: Json| half_length(script(o), begins(script(o), rune)),
        |o: Json| rune_bytes(o),
    );
    crate::json::lemma_same_total(
        vout,
        |o: Json| half_length(script(o), begins(script(o), data) && !begins(script(o), rune)),
        |o: Json| data_bytes(o),
    );
}

/// Figures of no transactions are all 0, and the script of an output is the text in its field for
/// it.
pub proof fn law_figures_begin_at_nothing(out: Json)
    ensures
        ({
            let p = payload_totals(Seq::empty());
            &&& p.tx_total == 0 && p.insc_count == 0 && p.insc_weight == 0 && p.insc_bytes == 0
            &&& p.rune_count == 0 && p.rune_weight == 0 && p.rune_bytes == 0
            &&& p.data_count == 0 && p.data_weight == 0 && p.data_bytes == 0
            &&& p.payload_tx_count == 0 && p.payload_weight == 0
            &&& p.bip110_reject_count == 0 && p.bip110_reject_weight == 0
        }),
        match out.field("scriptPubKey"@) {
            Some(s) => script(out) == s.text_or_empty("hex"@),
            None => script(out).len() == 0,
        },
{
}

/// A transaction is the coinbase where its first input has such a field, and nowhere else; and
/// then it adds nothing.
pub proof fn law_first_input_makes_the_coinbase(txs: Seq<Json>, tx: Json)
    requires
        tx.items_or_none("vin"@).len() > 0,
        tx.items_or_none("vin"@)[0].field("coinbase"@).is_some(),
    ensures
        payload_totals(txs.push(tx)) == payload_totals(txs),
{
    law_coinbase_counts_nowhere(txs, tx);
}

// ---- other replies ------------------------------------------------------------------------

/// A block signals where the bit of that number is set in its version, whatever the other bits are.
pub proof fn law_signal_is_one_bit(version: i64, bit: u8, other: u8)
    requires
        bit < 63,
        other < 63,
        other != bit,
    ensures
        version_signals(version, bit) == ((version >> (bit as i64)) & 1 == 1),
        version_signals(version | (1i64 << (bit as i64)), bit),
        version_signals(version | (1i64 << (other as i64)), bit) == version_signals(version, bit),
        !version_signals(0, bit),
{
    let (b, o) = (bit as u64, other as u64);
    assert((version & (1i64 << b) != 0) == ((version >> b) & 1 == 1)) by (bit_vector)
        requires
            0 <= b < 63,
    ;
    assert((version | (1i64 << b)) & (1i64 << b) != 0) by (bit_vector)
        requires
            0 <= b < 63,
    ;
    assert(((version | (1i64 << o)) & (1i64 << b) != 0) == (version & (1i64 << b) != 0)) by (
        bit_vector)
        requires
            0 <= b < 63,
            0 <= o < 63,
            o != b,
    ;
    assert(0i64 & (1i64 << b) == 0) by (bit_vector);
}

/// The heights of the blocks that signal are in ascending order, one for each such block.
pub proof fn law_signalling_heights_ascend(versions: Seq<i64>, start: i64, bit: u8)
    requires
        start + versions.len() <= i64::MAX,
    ensures
        signalling_heights(versions, start, bit).len() == crate::node::count(
            versions,
            |v: i64| version_signals(v, bit),
        ),
        forall|i: int, j: int|
            0 <= i < j < signalling_heights(versions, start, bit).len()
                ==> #[trigger] signalling_heights(versions, start, bit)[i]
                < #[trigger] signalling_heights(versions, start, bit)[j],
    decreases versions.len(),
{
    if versions.len() > 0 {
        let d = versions.drop_last();
        law_signalling_heights_ascend(d, start, bit);
        lemma_heights_below(d, start, bit);
        let r = signalling_heights(d, start, bit);
        let all = signalling_heights(versions, start, bit);
        assert forall|i: int, j: int| 0 <= i < j < all.len() implies #[trigger] all[i]
            < #[trigger] all[j] by {
            assert(all[i] == r[i]);
            if j < r.len() {
                assert(all[j] == r[j]);
            }
        }
    }
}

/// The own address that is shown is one that is no onion address and has the highest score, the last
/// of those where several have it; there is none only where every address is an onion address.
pub proof fn law_best_own_address(s: Seq<Json>)
    ensures
        match best_address(s) {
            Some((n, t)) => exists|i: int|
                0 <= i < s.len() && is_own_address(#[trigger] s[i], t) && s[i].number_or_0(
                    "score"@,
                ) == n && (forall|j: int, u: Seq<char>|
                    0 <= j < s.len() && #[trigger] is_own_address(s[j], u) ==> s[j].number_or_0(
                        "score"@,
                    ) <= n && (j > i ==> s[j].number_or_0("score"@) < n)),
            None => forall|j: int, u: Seq<char>|
                0 <= j < s.len() ==> !#[trigger] is_own_address(s[j], u),
        },
    decreases s.len(),
{
    if s.len() > 0 {
        let d = s.drop_last();
        law_best_own_address(d);
        let k = s.len() - 1;
        assert forall|j: int| 0 <= j < d.len() implies #[trigger] s[j] == d[j] by {}
        if let Some((n, t)) = best_address(s) {
            if best_address(s) == best_address(d) && scored(s.last()) != Some((n, t)) {
                let i = choose|i: int|
                    0 <= i < d.len() && is_own_address(#[trigger] d[i], t) && d[i].number_or_0(
                        "score"@,
                    ) == n && (forall|j: int, u: Seq<char>|
                        0 <= j < d.len() && #[trigger] is_own_address(d[j], u) ==> d[j].number_or_0(
                            "score"@,
                        ) <= n && (j > i ==> d[j].number_or_0("score"@) < n));
                assert(is_own_address(s[i], t));
                assert forall|j: int, u: Seq<char>|
                    0 <= j < s.len() && #[trigger] is_own_address(s[j], u) implies s[j].number_or_0(
                    "score"@,
                ) <= n && (j > i ==> s[j].number_or_0("score"@) < n) by {
                    if j < d.len() {
                        assert(is_own_address(d[j], u));
                    }
                }
            } else {
                assert(is_own_address(s[k], t));
                assert forall|j: int, u: Seq<char>|
                    0 <= j < s.len() && #[trigger] is_own_address(s[j], u) implies s[j].number_or_0(
                    "score"@,
                ) <= n && (j > k ==> s[j].number_or_0("score"@) < n) by {
                    if j < d.len() {
                        assert(is_own_address(d[j], u));
                    }
                }
            }
        } else {
            assert forall|j: int, u: Seq<char>| 0 <= j < s.len() implies !#[trigger] is_own_address(
                s[j],
                u,
            ) by {
                if j < d.len() {
                    assert(!is_own_address(d[j], u));
                }
            }
        }
    }
}

/// Whether an entry names the address `t`, and that is no onion address.
pub open spec fn is_own_address(a: Json, t: Seq<char>) -> bool {
    (a.field("address"@) matches Some(Json::Text(s)) && s@ == t) && !ends_in(t, ".onion"@)
}

/// A peer of the own node is listed where its address can be read, behind those listed before, with
/// its user agent, version and height; one whose address cannot be read is left out.
pub proof fn law_direct_peer_is_listed(s: Seq<Json>, p: Json)
    ensures
        direct_peers(Seq::empty()).len() == 0,
        match peer_of(p.text_or_empty("addr"@), 8333) {
            Some(peer) => direct_peers(s.push(p)) == direct_peers(s).push(
                (
                    peer,
                    p.text_or_empty("subver"@),
                    p.number_or_0("version"@) as i32,
                    p.number_or_0("startingheight"@) as i32,
                ),
            ),
            None => direct_peers(s.push(p)) == direct_peers(s),
        },
{
    assert(s.push(p).drop_last() =~= s);
}

/// Of a list the numbers, or the texts, are kept in their order and anything else is left out.
pub proof fn law_kept_of_a_list(s: Seq<Json>, x: Json)
    ensures
        whole_numbers(Seq::empty()).len() == 0,
        texts_of(Seq::empty()).len() == 0,
        match x {
            Json::Number(Some(n)) => whole_numbers(s.push(x)) == whole_numbers(s).push(n),
            _ => whole_numbers(s.push(x)) == whole_numbers(s),
        },
        match x {
            Json::Text(t) => texts_of(s.push(x)) == texts_of(s).push(t@),
            _ => texts_of(s.push(x)) == texts_of(s),
        },
{
    assert(s.push(x).drop_last() =~= s);
}

/// As many recent blocks are asked for as are wanted, or as there are up to the tip.
pub proof fn law_recent_blocks(tip: i64, count: u32)
    ensures
        0 <= recent_len(tip, count) <= count,
        tip >= 0 ==> recent_len(tip, count) <= tip + 1,
        tip >= 0 ==> recent_len(tip, count) == count || recent_len(tip, count) == tip + 1,
        tip < 0 ==> recent_len(tip, count) == 0,
{
}

/// The services of the own node are the number that its hexadecimal text writes, and 0 where that
/// is no number.
pub proof fn law_own_services(r: Json, n: u64)
    ensures
        r.text_or_empty("localservices"@) == crate::number::hexadecimal(n as nat) ==> services_of(r)
            == n,
        r.text_or_empty("localservices"@).len() == 0 ==> services_of(r) == 0,
{
    crate::number::law_hexadecimal_read_back(n, u64::MAX);
    let s = r.text_or_empty("localservices"@);
    if s.len() == 0 {
        crate::number::lemma_run_end(s, 0, 16);
    }
}

// ---- hexadecimal, base 64 and the miner's name --------------------------------------------

/// The byte of a small hexadecimal digit.
pub open spec fn digit_byte(d: u8) -> u8 {
    if d < 10 {
        (48 + d) as u8
    } else {
        (87 + d) as u8
    }
}

/// Bytes in small hexadecimal digits, two each, the high one first.
pub open spec fn hex_of(data: Seq<u8>) -> Seq<u8>
    decreases data.len(),
{
    if data.len() == 0 {
        Seq::empty()
    } else {
        seq![digit_byte(data[0] / 16), digit_byte(data[0] % 16)] + hex_of(data.skip(1))
    }
}

/// Bytes that were written in hexadecimal digits are read back.
pub proof fn law_hex_reads_back(data: Seq<u8>)
    ensures
        hex_bytes(hex_of(data)) == data,
        forall|x: u8|
            hex_pair(#[trigger] digit_byte(x / 16), digit_byte(x % 16)) == Some(x),
    decreases data.len(),
{
    if data.len() > 0 {
        let rest = data.skip(1);
        law_hex_reads_back(rest);
        let h = hex_of(data);
        assert(h.skip(2) =~= hex_of(rest));
        assert(h[0] == digit_byte(data[0] / 16) && h[1] == digit_byte(data[0] % 16));
        assert(hex_pair(h[0], h[1]) == Some(data[0]));
        assert(seq![data[0]] + rest =~= data);
    } else {
        assert(data =~= Seq::<u8>::empty());
    }
}

/// The longest of texts is one of them, and the first of those that no other exceeds.
pub proof fn law_longest(s: Seq<Seq<char>>, i: int)
    requires
        0 <= i < s.len(),
        s[i].len() > 0,
        forall|j: int| 0 <= j < i ==> (#[trigger] s[j]).len() < s[i].len(),
        forall|j: int| i < j < s.len() ==> (#[trigger] s[j]).len() <= s[i].len(),
    ensures
        longest(s) == s[i],
    decreases s.len(),
{
    let d = s.drop_last();
    if i < d.len() {
        assert(d[i] == s[i]);
        assert forall|j: int| 0 <= j < i implies (#[trigger] d[j]).len() < d[i].len() by {
            assert(d[j] == s[j]);
        }
        assert forall|j: int| i < j < d.len() implies (#[trigger] d[j]).len() <= d[i].len() by {
            assert(d[j] == s[j]);
        }
        law_longest(d, i);
        assert(s[s.len() - 1] == s.last());
    } else {
        assert forall|j: int| 0 <= j < d.len() implies (#[trigger] d[j]).len() < s[i].len() by {
            assert(d[j] == s[j]);
        }
        lemma_longest_short(d, s[i].len());
    }
}

proof fn lemma_longest_short(s: Seq<Seq<char>>, n: nat)
    requires
        n > 0,
        forall|j: int| 0 <= j < s.len() ==> (#[trigger] s[j]).len() < n,
    ensures
        longest(s).len() < n,
    decreases s.len(),
{
    if s.len() > 0 {
        let d = s.drop_last();
        assert forall|j: int| 0 <= j < d.len() implies (#[trigger] d[j]).len() < n by {
            assert(d[j] == s[j]);
        }
        lemma_longest_short(d, n);
        assert(s[s.len() - 1] == s.last());
    }
}

/// The pieces around a text that stands among marks: as many empty ones as marks, and the text.
proof fn lemma_pieces_among(n: nat, run: Seq<char>, m: nat)
    requires
        !run.contains('\0'),
    ensures
        ({
            let p = pieces(marks(n) + (run + marks(m)), '\0');
            &&& p.len() == n + m + 1
            &&& p[n as int] == run
            &&& forall|j: int| 0 <= j < p.len() && j != n ==> (#[trigger] p[j]).len() == 0
        }),
    decreases n, m,
{
    let none = Seq::<char>::empty();
    let s = marks(n) + (run + marks(m));
    if n > 0 {
        let k = (n - 1) as nat;
        lemma_pieces_among(k, run, m);
        let rest = marks(k) + (run + marks(m));
        assert(s =~= none + (seq!['\0'] + rest));
        crate::text::law_pieces(none, '\0', rest);
        let p = pieces(s, '\0');
        let q = pieces(rest, '\0');
        assert forall|j: int| 0 <= j < p.len() && j != n implies (#[trigger] p[j]).len() == 0 by {
            if j > 0 {
                assert(p[j] == q[j - 1]);
            }
        }
    } else if m > 0 {
        let k = (m - 1) as nat;
        lemma_pieces_among(0, none, k);
        let rest = marks(0) + (none + marks(k));
        assert(rest =~= marks(k));
        assert(s =~= run + (seq!['\0'] + marks(k)));
        crate::text::law_pieces(run, '\0', marks(k));
        let p = pieces(s, '\0');
        let q = pieces(marks(k), '\0');
        assert forall|j: int| 0 <= j < p.len() && j != 0 implies (#[trigger] p[j]).len() == 0 by {
            assert(p[j] == q[j - 1]);
        }
    } else {
        assert(s =~= run);
        crate::text::law_pieces(run, '\0', none);
    }
}

/// Marks for bytes that cannot be shown.
spec fn marks(n: nat) -> Seq<char> {
    Seq::new(n, |i: int| '\0')
}

/// A miner that writes its name between slashes, among bytes that cannot be shown, is found by that
/// name.
pub proof fn law_miner_is_found(before: Seq<u8>, name: Seq<u8>, behind: Seq<u8>)
    requires
        forall|i: int| 0 <= i < before.len() ==> #[trigger] before[i] < 0x20,
        forall|i: int| 0 <= i < behind.len() ==> #[trigger] behind[i] < 0x20,
        0 < name.len() <= 32,
        forall|i: int| 0 <= i < name.len() ==> 0x20 < #[trigger] name[i] < 0x7f && name[i] != 0x2f,
    ensures
        miner_name(hex_of(before + (seq![0x2fu8] + name + seq![0x2fu8]) + behind))
            == name.map_values(|b: u8| b as char),
{
    let data = before + (seq![0x2fu8] + name + seq![0x2fu8]) + behind;
    let none = Seq::<char>::empty();
    law_hex_reads_back(data);
    let t = name.map_values(|b: u8| b as char);
    let run = seq!['/'] + t + seq!['/'];
    let shown = data.map_values(|b: u8| printable(b));
    let (n, m) = (before.len(), behind.len());
    assert(0x2fu8 as char == '/');
    assert forall|i: int| 0 <= i < name.len() implies #[trigger] t[i] != '\0' && t[i] != '/'
        && !crate::text::is_space(t[i]) by {
        assert(0x20 < name[i] < 0x7f && name[i] != 0x2f);
        assert(t[i] as u8 == name[i]);
    }
    assert(shown =~= marks(n) + (run + marks(m))) by {
        assert forall|i: int| 0 <= i < shown.len() implies shown[i] == (marks(n) + (run + marks(
            m,
        )))[i] by {
            if i < n {
                assert(data[i] == before[i]);
            } else if i < n + run.len() {
                if n < i < n + run.len() - 1 {
                    assert(data[i] == name[i - n - 1]);
                }
            } else {
                assert(data[i] == behind[i - n - run.len()]);
            }
        }
    }
    assert(!run.contains('\0')) by {
        if run.contains('\0') {
            let i = choose|i: int| 0 <= i < run.len() && run[i] == '\0';
            if 0 < i < run.len() - 1 {
                assert(run[i] == t[i - 1]);
            }
        }
    }
    lemma_pieces_among(n, run, m);
    law_longest(pieces(shown, '\0'), n as int);
    assert(!t.contains('/')) by {
        if t.contains('/') {
            let i = choose|i: int| 0 <= i < t.len() && t[i] == '/';
            assert(t[i] != '/');
        }
    }
    crate::text::law_pieces(none, '/', t + seq!['/']);
    assert(run =~= none + (seq!['/'] + (t + seq!['/'])));
    crate::text::law_pieces(t, '/', none);
    assert(t + seq!['/'] =~= t + (seq!['/'] + none));
    crate::text::law_pieces(none, '/', none);
    let q = pieces(run, '/');
    assert(q[0] == none && q[1] == t);
    assert(!crate::text::is_space(t[0]));
    assert(t.last() == t[t.len() - 1]);
    crate::text::law_trim(none, t, none);
    assert(none + t + none =~= t);
    crate::text::law_trim(none, none, none);
    assert(none + none + none =~= none);
    reveal_with_fuel(first_filled, 3);
    assert(q.skip(1)[0] == t);
}

/// No name is longer than 32 characters.
pub proof fn law_miner_name_is_short(sig: Seq<u8>)
    ensures
        miner_name(sig).len() <= 32,
{
}

/// The number of a character of base 64.
pub open spec fn base64_value(c: char) -> int {
    if 'A' <= c <= 'Z' {
        c as int - 65
    } else if 'a' <= c <= 'z' {
        c as int - 71
    } else if '0' <= c <= '9' {
        c as int + 4
    } else if c == '+' {
        62
    } else {
        63
    }
}

/// The number that six bits make, from bit `i` on.
spec fn six_bits(data: Seq<u8>, i: int) -> int {
    32 * bit_of(data, i) + 16 * bit_of(data, i + 1) + 8 * bit_of(data, i + 2) + 4 * bit_of(
        data,
        i + 3,
    ) + 2 * bit_of(data, i + 4) + bit_of(data, i + 5)
}

/// The bits of a byte.
proof fn lemma_bits_at(data: Seq<u8>, k: int, p: int)
    requires
        0 <= k,
        p == 8 * k,
    ensures
        byte_or_0(data, k) == 128 * bit_of(data, p) + 64 * bit_of(data, p + 1) + 32 * bit_of(
            data,
            p + 2,
        ) + 16 * bit_of(data, p + 3) + 8 * bit_of(data, p + 4) + 4 * bit_of(data, p + 5) + 2
            * bit_of(data, p + 6) + bit_of(data, p + 7),
        forall|j: int| p <= j < p + 8 ==> 0 <= #[trigger] bit_of(data, j) <= 1,
{
    if k < data.len() {
        let b = data[k];
        crate::p2p::lemma_byte_bits(b);
        assert forall|j: int| p <= j < p + 8 implies #[trigger] bit_of(data, j)
            == crate::p2p::byte_bit(b, j - p) by {
            assert(j / 8 == k && j % 8 == j - p);
        }
    } else {
        assert forall|j: int| p <= j < p + 8 implies #[trigger] bit_of(data, j) == 0 by {
            assert(j / 8 == k);
        }
    }
}

/// A byte, or 0 behind the last.
spec fn byte_or_0(data: Seq<u8>, k: int) -> int {
    if 0 <= k < data.len() {
        data[k] as int
    } else {
        0
    }
}

/// Where a number of six bits is cut in two.
proof fn lemma_six(a: int, b: int, c: int, d: int, e: int, f: int)
    requires
        0 <= a <= 1,
        0 <= b <= 1,
        0 <= c <= 1,
        0 <= d <= 1,
        0 <= e <= 1,
        0 <= f <= 1,
    ensures
        ({
            let v = 32 * a + 16 * b + 8 * c + 4 * d + 2 * e + f;
            &&& 0 <= v < 64
            &&& v / 16 == 2 * a + b && v % 16 == 8 * c + 4 * d + 2 * e + f
            &&& v / 4 == 8 * a + 4 * b + 2 * c + d && v % 4 == 2 * e + f
        }),
{
}

/// Three bytes, or what is left of them, are four numbers of six bits, missing bits 0.
proof fn lemma_three_bytes(data: Seq<u8>, g: int, q: int)
    requires
        0 <= g,
        q == 24 * g,
    ensures
        0 <= six_bits(data, q) < 64,
        0 <= six_bits(data, q + 6) < 64,
        0 <= six_bits(data, q + 12) < 64,
        0 <= six_bits(data, q + 18) < 64,
        byte_or_0(data, 3 * g) == 4 * six_bits(data, q) + six_bits(data, q + 6) / 16,
        byte_or_0(data, 3 * g + 1) == 16 * (six_bits(data, q + 6) % 16) + six_bits(data, q + 12)
            / 4,
        byte_or_0(data, 3 * g + 2) == 64 * (six_bits(data, q + 12) % 4) + six_bits(data, q + 18),
{
    lemma_bits_at(data, 3 * g, q);
    lemma_bits_at(data, 3 * g + 1, q + 8);
    lemma_bits_at(data, 3 * g + 2, q + 16);
    lemma_six(
        bit_of(data, q),
        bit_of(data, q + 1),
        bit_of(data, q + 2),
        bit_of(data, q + 3),
        bit_of(data, q + 4),
        bit_of(data, q + 5),
    );
    lemma_six(
        bit_of(data, q + 6),
        bit_of(data, q + 7),
        bit_of(data, q + 8),
        bit_of(data, q + 9),
        bit_of(data, q + 10),
        bit_of(data, q + 11),
    );
    lemma_six(
        bit_of(data, q + 12),
        bit_of(data, q + 13),
        bit_of(data, q + 14),
        bit_of(data, q + 15),
        bit_of(data, q + 16),
        bit_of(data, q + 17),
    );
    lemma_six(
        bit_of(data, q + 18),
        bit_of(data, q + 19),
        bit_of(data, q + 20),
        bit_of(data, q + 21),
        bit_of(data, q + 22),
        bit_of(data, q + 23),
    );
}

/// Three bytes are four characters of base 64, six bits each from the highest on. Where one or two
/// bytes are left, two or three characters hold them, and equals signs fill the four.
pub proof fn law_base64_group(data: Seq<u8>, g: int)
    requires
        0 <= g,
        3 * g < data.len(),
    ensures
        base64(data).len() == 4 * ((data.len() + 2) / 3),
        ({
            let c = |k: int| base64(data)[4 * g + k];
            let v = |k: int| base64_value(base64(data)[4 * g + k]);
            let left = data.len() - 3 * g;
            &&& 0 <= v(0) < 64 && 0 <= v(1) < 64
            &&& data[3 * g] == 4 * v(0) + v(1) / 16
            &&& left >= 2 ==> data[3 * g + 1] == 16 * (v(1) % 16) + v(2) / 4
            &&& left >= 3 ==> data[3 * g + 2] == 64 * (v(2) % 4) + v(3)
            &&& left == 1 ==> v(1) % 16 == 0 && c(2) == '=' && c(3) == '='
            &&& left == 2 ==> v(2) % 4 == 0 && c(3) == '='
            &&& left >= 3 ==> c(3) != '='
            &&& left >= 2 ==> c(2) != '='
        }),
{
    let q = 24 * g;
    lemma_three_bytes(data, g, q);
    let left = data.len() - 3 * g;
    let s = base64(data);
    let n = (data.len() * 8 + 5) / 6;
    assert forall|x: int| 0 <= x < 64 implies base64_value(#[trigger] base64_char(x)) == x
        && base64_char(x) != '=' by {}
    assert(6 * (4 * g) == q && 6 * (4 * g + 1) == q + 6 && 6 * (4 * g + 2) == q + 12 && 6 * (4 * g
        + 3) == q + 18);
    assert(s[4 * g + 0] == base64_char(six_bits(data, q)));
    assert(s[4 * g + 1] == base64_char(six_bits(data, q + 6)));
    if left >= 2 {
        assert(s[4 * g + 2] == base64_char(six_bits(data, q + 12)));
    }
    if left >= 3 {
        assert(s[4 * g + 3] == base64_char(six_bits(data, q + 18)));
    }
}

/// The text of the coinbase is that of the first input alone: two transactions whose lists of inputs
/// begin with the same one have the same, and it is what the input says.
pub proof fn law_coinbase_is_of_the_first_input(a: Json, b: Json, text: Seq<char>)
    requires
        a.items_or_none("vin"@).len() > 0,
        b.items_or_none("vin"@).len() > 0,
        a.items_or_none("vin"@)[0] == b.items_or_none("vin"@)[0],
    ensures
        coinbase_of(a) == coinbase_of(b),
        (a.items_or_none("vin"@)[0].field("coinbase"@) matches Some(v) && v.text() == Some(text))
            ==> coinbase_of(a) == text,
        a.items_or_none("vin"@)[0].field("coinbase"@).is_none() ==> coinbase_of(a).len() == 0,
{
}

} // verus!
