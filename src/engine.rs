//! The per-order swap state machine.
//!
//! Venue notifications come in as calls; what must be done outside (send a
//! quote, build or sign a transaction) goes out as a returned value. All
//! ledger and order-table changes happen here, on one logical thread.
use vstd::prelude::*;
use crate::ledger::{
    available_total, coins_sum, unique_keys, released, reserved, selection, CoinView, Ledger,
    UnspentItem,
};

verus! {

/// Reference data of a tradable asset.
pub struct Asset {
    pub asset_id: String,
    pub ticker: String,
    pub precision: u8,
}

/// A counterparty's request for quote. The counterparty sends
/// `send_amount` of `send_asset` and receives `recv_asset`, which the dealer
/// delivers.
pub struct Rfq {
    pub order_id: String,
    pub send_asset: String,
    pub recv_asset: String,
    pub send_amount: u64,
}

/// Which legs of an RFQ are the native asset.
pub struct RfqLegs {
    /// The dealer delivers the native asset (and receives the other one).
    pub dealer_sends_native: bool,
    /// Position, in the asset list, of the leg that is not native.
    pub other_asset: usize,
}

/// Why an RFQ is not answered.
#[derive(Debug, PartialEq, Eq, Structural, Clone, Copy)]
pub enum RfqSkip {
    /// An asset of the pair is not in the asset list.
    UnknownAsset,
    /// Not exactly one leg of the pair is the native asset.
    NoNativeLeg,
    /// The native amount traded is above the configured maximum.
    TooLarge,
    /// An order with this identifier is already open.
    DuplicateOrder,
    /// The unreserved coins of the delivered asset do not cover the proposal.
    InsufficientFunds,
}

/// The dealer's committed answer to an RFQ.
pub struct Quote {
    pub order_id: String,
    pub send_amount: u64,
    pub utxo_count: usize,
    pub with_change: bool,
}

/// Swap terms as the venue echoes them. `send_*` is what the dealer sends.
pub struct SwapTerms {
    pub send_asset: String,
    pub send_amount: u64,
    pub recv_asset: String,
    pub recv_amount: u64,
}

/// Venue-reported state of a swap.
pub enum SwapState {
    ReviewOffer { accept_required: bool, terms: SwapTerms },
    WaitPsbt,
    WaitSign { psbt: String },
    Failed { reason: String },
    Done { txid: String },
}

/// A settlement transaction to build: the reserved inputs, one output paying
/// the dealer what it receives (to a fresh address of its wallet), and one
/// paying back its change when any is owed.
pub struct Construction {
    pub inputs: Vec<(String, u32)>,
    pub recv_amount: u64,
    pub recv_asset: String,
    pub change: Option<(u64, String)>,
}

/// What the caller must do after a swap notification.
pub enum SwapStep {
    /// Terms checked and recorded; nothing to send.
    Reviewed,
    /// Build this transaction and submit it unsigned.
    Build(Construction),
    /// Sign this payload and submit it.
    Sign { psbt: String },
    /// The swap failed; its reservations were released and the order dropped.
    Failed,
    /// The swap settled in this transaction; the order was dropped.
    Settled { txid: String },
}

/// Swap notifications the engine cannot reconcile with its state: each is
/// fatal for the process.
#[derive(Debug, PartialEq, Eq, Structural, Clone, Copy)]
pub enum SwapError {
    UnknownOrder,
    AcceptRequired,
    TermsMismatch,
    TermsMissing,
}

/// An open order: the committed quote and, once echoed, the swap terms.
pub struct Order {
    pub order_id: String,
    pub proposal: u64,
    pub change_amount: u64,
    pub sell_asset: String,
    pub terms: Option<SwapTerms>,
}

pub ghost struct TermsView {
    pub send_asset: Seq<char>,
    pub send_amount: u64,
    pub recv_asset: Seq<char>,
    pub recv_amount: u64,
}

pub ghost struct OrderView {
    pub order_id: Seq<char>,
    pub proposal: u64,
    pub change_amount: u64,
    pub sell_asset: Seq<char>,
    pub terms: Option<TermsView>,
}

impl View for SwapTerms {
    type V = TermsView;

    open spec fn view(&self) -> TermsView {
        TermsView {
            send_asset: self.send_asset@,
            send_amount: self.send_amount,
            recv_asset: self.recv_asset@,
            recv_amount: self.recv_amount,
        }
    }
}

pub open spec fn terms_view(t: Option<SwapTerms>) -> Option<TermsView> {
    match t {
        Some(x) => Some(x@),
        None => None,
    }
}

impl View for Order {
    type V = OrderView;

    open spec fn view(&self) -> OrderView {
        OrderView {
            order_id: self.order_id@,
            proposal: self.proposal,
            change_amount: self.change_amount,
            sell_asset: self.sell_asset@,
            terms: terms_view(self.terms),
        }
    }
}

pub open spec fn orders_view(v: Seq<Order>) -> Seq<OrderView> {
    v.map_values(|o: Order| o@)
}

/// The order with identifier `id`, if open.
pub open spec fn find_order(s: Seq<OrderView>, id: Seq<char>) -> Option<OrderView>
    decreases s.len(),
{
    if s.len() == 0 {
        None
    } else {
        match find_order(s.drop_last(), id) {
            Some(o) => Some(o),
            None => if s.last().order_id == id {
                Some(s.last())
            } else {
                None
            },
        }
    }
}

/// The order table without the order `id`.
pub open spec fn without_order(s: Seq<OrderView>, id: Seq<char>) -> Seq<OrderView>
    decreases s.len(),
{
    if s.len() == 0 {
        s
    } else {
        let r = without_order(s.drop_last(), id);
        if s.last().order_id == id {
            r
        } else {
            r.push(s.last())
        }
    }
}

/// No two open orders share an identifier.
pub open spec fn unique_orders(s: Seq<OrderView>) -> bool {
    forall|i: int, j: int| 0 <= i < j < s.len() ==> s[i].order_id != s[j].order_id
}

pub open spec fn ch_amount(c: Option<(u64, String)>) -> u64 {
    match c {
        Some(x) => x.0,
        None => 0,
    }
}

pub open spec fn ch_asset(c: Option<(u64, String)>) -> Seq<char> {
    match c {
        Some(x) => x.1@,
        None => Seq::empty(),
    }
}

/// An order with its swap terms recorded.
pub open spec fn with_terms(o: OrderView, t: TermsView) -> OrderView {
    OrderView {
        order_id: o.order_id,
        proposal: o.proposal,
        change_amount: o.change_amount,
        sell_asset: o.sell_asset,
        terms: Some(t),
    }
}

/// The order table with the order of the same identifier as `n` replaced by `n`.
pub open spec fn updated(s: Seq<OrderView>, n: OrderView) -> Seq<OrderView> {
    Seq::new(s.len(), |i: int| if s[i].order_id == n.order_id { n } else { s[i] })
}

/// The position of the first asset with identifier `id`.
pub open spec fn asset_pos(s: Seq<Asset>, id: Seq<char>) -> Option<int>
    decreases s.len(),
{
    if s.len() == 0 {
        None
    } else {
        match asset_pos(s.drop_last(), id) {
            Some(p) => Some(p),
            None => if s.last().asset_id@ == id {
                Some(s.len() - 1)
            } else {
                None
            },
        }
    }
}

proof fn lemma_asset_pos(s: Seq<Asset>, id: Seq<char>, j: int)
    requires
        0 <= j <= s.len(),
        forall|i: int| 0 <= i < j ==> (#[trigger] s[i]).asset_id@ != id,
    ensures
        j == s.len() ==> asset_pos(s, id) is None,
        j < s.len() && s[j].asset_id@ == id ==> asset_pos(s, id) == Some(j),
        asset_pos(s, id) matches Some(p) ==> 0 <= p < s.len() && s[p].asset_id@ == id,
    decreases s.len(),
{
    if s.len() > 0 {
        let d = s.drop_last();
        if j == s.len() {
            lemma_asset_pos(d, id, j - 1);
        } else {
            lemma_asset_pos(d, id, if j < d.len() { j } else { d.len() as int });
        }
    }
}

fn asset_index(assets: &Vec<Asset>, id: &String) -> (r: Option<usize>)
    ensures
        r is None ==> asset_pos(assets@, id@) is None,
        r matches Some(p) ==> asset_pos(assets@, id@) == Some(p as int),
{
    let mut i: usize = 0;
    while i < assets.len()
        invariant
            i <= assets@.len(),
            forall|k: int| 0 <= k < i ==> (#[trigger] assets@[k]).asset_id@ != id@,
        decreases assets.len() - i,
    {
        if assets[i].asset_id == *id {
            proof {
                lemma_asset_pos(assets@, id@, i as int);
            }
            return Some(i);
        }
        i = i + 1;
    }
    proof {
        lemma_asset_pos(assets@, id@, i as int);
    }
    None
}

/// How an RFQ's pair splits into a native leg and another one.
pub open spec fn legs_of(assets: Seq<Asset>, native: Seq<char>, rfq_send: Seq<char>, rfq_recv: Seq<char>) -> Result<(bool, int), RfqSkip> {
    match (asset_pos(assets, rfq_recv), asset_pos(assets, rfq_send)) {
        (Some(r), Some(s)) => {
            let recv_native = assets[r].ticker@ == native;
            let send_native = assets[s].ticker@ == native;
            if recv_native == send_native {
                Err(RfqSkip::NoNativeLeg)
            } else if recv_native {
                Ok((true, s))
            } else {
                Ok((false, r))
            }
        },
        _ => Err(RfqSkip::UnknownAsset),
    }
}

/// The native-asset amount an RFQ trades, given the dealer's proposal.
pub open spec fn native_amount(send_amount: u64, dealer_sends_native: bool, proposal: u64) -> u64 {
    if dealer_sends_native {
        proposal
    } else {
        send_amount
    }
}

/// The dealer engine: coin ledger, open orders, and the settled orders whose
/// spent outputs are still in the ledger.
pub struct Engine {
    ledger: Ledger,
    orders: Vec<Order>,
    native_ticker: String,
    max_trade: u64,
    settled: Vec<String>,
}

/// A reservation tag is accounted for: it names an open order, or a settled
/// one whose spent outputs the next resynchronization will remove.
pub open spec fn tag_owned(orders: Seq<OrderView>, settled: Seq<Seq<char>>, t: Option<Seq<char>>) -> bool {
    match t {
        None => true,
        Some(id) => find_order(orders, id) is Some || settled.contains(id),
    }
}

/// Every reservation tag of the ledger is accounted for.
pub open spec fn tags_owned(coins: Seq<CoinView>, orders: Seq<OrderView>, settled: Seq<Seq<char>>) -> bool {
    forall|i: int| 0 <= i < coins.len() ==> tag_owned(orders, settled, #[trigger] coins[i].reserve)
}

pub open spec fn strings_view(v: Seq<String>) -> Seq<Seq<char>> {
    v.map_values(|s: String| s@)
}

proof fn lemma_find_order_none(s: Seq<OrderView>, id: Seq<char>)
    ensures
        find_order(s, id) is None <==> forall|i: int| 0 <= i < s.len() ==> (#[trigger] s[i]).order_id != id,
    decreases s.len(),
{
    if s.len() > 0 {
        let d = s.drop_last();
        lemma_find_order_none(d, id);
        assert forall|i: int| 0 <= i < d.len() implies #[trigger] d[i] == s[i] by {}
        if find_order(s, id) is None {
            assert forall|i: int| 0 <= i < s.len() implies (#[trigger] s[i]).order_id != id by {
                if i < d.len() {
                    assert(d[i] == s[i]);
                }
            }
        } else if forall|i: int| 0 <= i < s.len() ==> (#[trigger] s[i]).order_id != id {
            assert forall|i: int| 0 <= i < d.len() implies (#[trigger] d[i]).order_id != id by {
                assert(d[i] == s[i]);
            }
            assert(s[s.len() - 1].order_id != id);
        }
    }
}

proof fn lemma_find_order_at(s: Seq<OrderView>, id: Seq<char>, j: int)
    requires
        0 <= j < s.len(),
        s[j].order_id == id,
        forall|i: int| 0 <= i < j ==> (#[trigger] s[i]).order_id != id,
    ensures
        find_order(s, id) == Some(s[j]),
    decreases s.len(),
{
    let d = s.drop_last();
    assert forall|i: int| 0 <= i < d.len() implies #[trigger] d[i] == s[i] by {}
    if j == s.len() - 1 {
        assert forall|i: int| 0 <= i < d.len() implies (#[trigger] d[i]).order_id != id by {
            assert(d[i] == s[i]);
        }
        lemma_find_order_none(d, id);
    } else {
        assert forall|i: int| 0 <= i < j implies (#[trigger] d[i]).order_id != id by {
            assert(d[i] == s[i]);
        }
        lemma_find_order_at(d, id, j);
    }
}

proof fn lemma_without_order_ids(s: Seq<OrderView>, id: Seq<char>, x: Seq<char>)
    requires
        forall|j: int| 0 <= j < s.len() ==> (#[trigger] s[j]).order_id != x,
    ensures
        forall|a: int| 0 <= a < without_order(s, id).len() ==> (#[trigger] without_order(s, id)[a]).order_id != x,
    decreases s.len(),
{
    if s.len() > 0 {
        let d = s.drop_last();
        assert forall|j: int| 0 <= j < d.len() implies (#[trigger] d[j]).order_id != x by {
            assert(d[j] == s[j]);
        }
        lemma_without_order_ids(d, id, x);
        let r = without_order(d, id);
        if s.last().order_id != id {
            assert forall|a: int| 0 <= a < r.len() implies #[trigger] r.push(s.last())[a] == r[a] by {}
        }
    }
}

proof fn lemma_without_order(s: Seq<OrderView>, id: Seq<char>)
    requires
        unique_orders(s),
    ensures
        unique_orders(without_order(s, id)),
    decreases s.len(),
{
    if s.len() > 0 {
        let d = s.drop_last();
        lemma_without_order(d, id);
        let r = without_order(d, id);
        if s.last().order_id != id {
            let w = r.push(s.last());
            let x = s.last().order_id;
            assert forall|j: int| 0 <= j < d.len() implies (#[trigger] d[j]).order_id != x by {
                assert(d[j] == s[j]);
            }
            lemma_without_order_ids(d, id, x);
            assert forall|a: int, b: int| 0 <= a < b < w.len() implies w[a].order_id != w[b].order_id by {
                if b == w.len() - 1 {
                    assert(w[a] == r[a]);
                } else {
                    assert(w[a] == r[a] && w[b] == r[b]);
                }
            }
        }
    }
}


proof fn lemma_find_order_push(s: Seq<OrderView>, x: OrderView, t: Seq<char>)
    ensures
        find_order(s, t) is Some ==> find_order(s.push(x), t) == find_order(s, t),
        find_order(s.push(x), x.order_id) is Some,
{
    assert(s.push(x).drop_last() =~= s);
}

proof fn lemma_without_keeps(s: Seq<OrderView>, id: Seq<char>, t: Seq<char>)
    requires
        t != id,
        find_order(s, t) is Some,
    ensures
        find_order(without_order(s, id), t) is Some,
    decreases s.len(),
{
    let d = s.drop_last();
    let r = without_order(d, id);
    if find_order(d, t) is Some {
        lemma_without_keeps(d, id, t);
        lemma_find_order_push(r, s.last(), t);
    } else {
        lemma_find_order_push(r, s.last(), t);
    }
}

/// Some output of the ledger is reserved for `t`.
pub open spec fn tagged(coins: Seq<CoinView>, t: Seq<char>) -> bool {
    exists|i: int| 0 <= i < coins.len() && coins[i].reserve == Some(t)
}

/// Identifiers of the outputs reserved for order `id`, in ledger order.
pub open spec fn reserved_keys(s: Seq<CoinView>, id: Seq<char>) -> Seq<(Seq<char>, u32)>
    decreases s.len(),
{
    if s.len() == 0 {
        Seq::empty()
    } else {
        let r = reserved_keys(s.drop_last(), id);
        if s.last().reserve == Some(id) {
            r.push((s.last().txid, s.last().vout))
        } else {
            r
        }
    }
}

pub open spec fn inputs_view(v: Seq<(String, u32)>) -> Seq<(Seq<char>, u32)> {
    v.map_values(|p: (String, u32)| (p.0@, p.1))
}

fn copy_terms(t: &SwapTerms) -> (r: SwapTerms)
    ensures
        r@ == t@,
{
    SwapTerms {
        send_asset: t.send_asset.clone(),
        send_amount: t.send_amount,
        recv_asset: t.recv_asset.clone(),
        recv_amount: t.recv_amount,
    }
}

fn copy_order(o: &Order) -> (r: Order)
    ensures
        r@ == o@,
{
    let terms = match &o.terms {
        Some(t) => Some(copy_terms(t)),
        None => None,
    };
    Order {
        order_id: o.order_id.clone(),
        proposal: o.proposal,
        change_amount: o.change_amount,
        sell_asset: o.sell_asset.clone(),
        terms,
    }
}

impl Engine {
    /// The coin ledger's content.
    pub closed spec fn coins(&self) -> Seq<CoinView> {
        self.ledger@
    }

    /// The open orders.
    pub closed spec fn orders(&self) -> Seq<OrderView> {
        orders_view(self.orders@)
    }

    /// Ticker of the network's native asset.
    pub closed spec fn native(&self) -> Seq<char> {
        self.native_ticker@
    }

    /// Largest native amount a single trade may move.
    pub closed spec fn max_trade(&self) -> u64 {
        self.max_trade
    }

    /// Settled orders whose spent outputs are still in the ledger.
    pub closed spec fn settled(&self) -> Seq<Seq<char>> {
        strings_view(self.settled@)
    }

    pub open spec fn wf(&self) -> bool {
        &&& unique_keys(self.coins())
        &&& unique_orders(self.orders())
        &&& tags_owned(self.coins(), self.orders(), self.settled())
    }

    pub fn new(native_ticker: String, max_trade: u64) -> (r: Engine)
        ensures
            r.wf(),
            r.coins() == Seq::<CoinView>::empty(),
            r.orders() == Seq::<OrderView>::empty(),
            r.native() == native_ticker@,
            r.max_trade() == max_trade,
    {
        let r = Engine {
            ledger: Ledger::new(),
            orders: Vec::new(),
            native_ticker,
            max_trade,
            settled: Vec::new(),
        };
        proof {
            assert(orders_view(r.orders@) =~= Seq::<OrderView>::empty());
        }
        r
    }

    /// The ledger.
    pub fn ledger(&self) -> (r: &Ledger)
        ensures
            r@ == self.coins(),
    {
        &self.ledger
    }

    /// The number of open orders.
    pub fn order_count(&self) -> (r: usize)
        ensures
            r == self.orders().len(),
    {
        self.orders.len()
    }

    /// The number of settled orders whose spent outputs are still tracked.
    pub fn settled_count(&self) -> (r: usize)
        ensures
            r == self.settled().len(),
    {
        self.settled.len()
    }

    fn order_index(&self, id: &String) -> (r: Option<usize>)
        ensures
            r is None ==> find_order(self.orders(), id@) is None,
            r matches Some(j) ==> j < self.orders().len() && find_order(self.orders(), id@) == Some(
                self.orders()[j as int],
            ),
    {
        let ghost v = self.orders();
        let mut i: usize = 0;
        while i < self.orders.len()
            invariant
                i <= v.len(),
                v == orders_view(self.orders@),
                forall|j: int| 0 <= j < i ==> (#[trigger] v[j]).order_id != id@,
            decreases self.orders.len() - i,
        {
            if self.orders[i].order_id == *id {
                proof {
                    lemma_find_order_at(v, id@, i as int);
                }
                return Some(i);
            }
            i = i + 1;
        }
        proof {
            lemma_find_order_none(v, id@);
        }
        None
    }

    /// The open order `id`, if any.
    pub fn order(&self, id: &String) -> (r: Option<&Order>)
        ensures
            r is None ==> find_order(self.orders(), id@) is None,
            r matches Some(o) ==> find_order(self.orders(), id@) == Some(o@),
    {
        match self.order_index(id) {
            Some(i) => Some(&self.orders[i]),
            None => None,
        }
    }

    fn drop_order(&mut self, id: &String)
        requires
            old(self).wf(),
            old(self).settled().contains(id@) || !tagged(old(self).coins(), id@),
        ensures
            final(self).wf(),
            final(self).orders() == without_order(old(self).orders(), id@),
            final(self).coins() == old(self).coins(),
            final(self).settled() == old(self).settled(),
            final(self).native() == old(self).native(),
            final(self).max_trade() == old(self).max_trade(),
    {
        let ghost v = self.orders();
        let mut out: Vec<Order> = Vec::new();
        let mut i: usize = 0;
        proof {
            assert(orders_view(out@) =~= without_order(v.take(0), id@));
        }
        while i < self.orders.len()
            invariant
                i <= v.len(),
                v == orders_view(self.orders@),
                orders_view(out@) == without_order(v.take(i as int), id@),
            decreases self.orders.len() - i,
        {
            proof {
                assert(v.take(i + 1).drop_last() =~= v.take(i as int));
            }
            if self.orders[i].order_id != *id {
                let c = copy_order(&self.orders[i]);
                let ghost before = out@;
                out.push(c);
                proof {
                    assert(orders_view(out@) =~= orders_view(before).push(c@));
                }
            }
            i = i + 1;
        }
        proof {
            assert(v.take(v.len() as int) =~= v);
            lemma_without_order(v, id@);
        }
        self.orders = out;
        proof {
            let c = self.coins();
            assert forall|i: int| 0 <= i < c.len() implies tag_owned(
                self.orders(),
                self.settled(),
                #[trigger] c[i].reserve,
            ) by {
                if let Some(t) = c[i].reserve {
                    assert(tag_owned(v, self.settled(), c[i].reserve));
                    if t != id@ && find_order(v, t) is Some {
                        lemma_without_keeps(v, id@, t);
                    }
                }
            }
        }
    }

    /// Splits an RFQ's pair into its native leg and the other one. Both
    /// assets must be known, and exactly one of them must be native.
    pub fn rfq_legs(&self, assets: &Vec<Asset>, rfq: &Rfq) -> (r: Result<RfqLegs, RfqSkip>)
        ensures
            r is Err ==> legs_of(assets@, self.native(), rfq.send_asset@, rfq.recv_asset@)
                == Err::<(bool, int), RfqSkip>(r->Err_0),
            r matches Ok(l) ==> legs_of(assets@, self.native(), rfq.send_asset@, rfq.recv_asset@)
                == Ok::<(bool, int), RfqSkip>((l.dealer_sends_native, l.other_asset as int)),
    {
        let ri = asset_index(assets, &rfq.recv_asset);
        let si = asset_index(assets, &rfq.send_asset);
        match (ri, si) {
            (Some(r), Some(s)) => {
                proof {
                    lemma_asset_pos(assets@, rfq.recv_asset@, 0);
                    lemma_asset_pos(assets@, rfq.send_asset@, 0);
                }
                let recv_native = assets[r].ticker == self.native_ticker;
                let send_native = assets[s].ticker == self.native_ticker;
                if recv_native == send_native {
                    Err(RfqSkip::NoNativeLeg)
                } else if recv_native {
                    Ok(RfqLegs { dealer_sends_native: true, other_asset: s })
                } else {
                    Ok(RfqLegs { dealer_sends_native: false, other_asset: r })
                }
            },
            _ => Err(RfqSkip::UnknownAsset),
        }
    }

    /// Commits a quote for an RFQ whose dealer proposal is `proposal` (the
    /// amount of `rfq.recv_asset` the dealer delivers): picks the coins,
    /// reserves them under the order and opens the order. Skipped, changing
    /// nothing, when the native amount traded is above the maximum, the
    /// order is already open, or the unreserved coins fall short.
    pub fn quote(&mut self, rfq: &Rfq, dealer_sends_native: bool, proposal: u64) -> (r: Result<Quote, RfqSkip>)
        requires
            old(self).wf(),
        ensures
            final(self).wf(),
            final(self).native() == old(self).native(),
            final(self).max_trade() == old(self).max_trade(),
            native_amount(rfq.send_amount, dealer_sends_native, proposal) > old(self).max_trade()
                ==> r == Err::<Quote, RfqSkip>(RfqSkip::TooLarge),
            native_amount(rfq.send_amount, dealer_sends_native, proposal) <= old(self).max_trade()
                && find_order(old(self).orders(), rfq.order_id@) is Some ==> r == Err::<
                Quote,
                RfqSkip,
            >(RfqSkip::DuplicateOrder),
            native_amount(rfq.send_amount, dealer_sends_native, proposal) <= old(self).max_trade()
                && find_order(old(self).orders(), rfq.order_id@) is None && available_total(
                old(self).coins(),
                rfq.recv_asset@,
            ) < proposal ==> r == Err::<Quote, RfqSkip>(RfqSkip::InsufficientFunds),
            r is Err ==> final(self).coins() == old(self).coins() && final(self).orders() == old(
                self,
            ).orders(),
            native_amount(rfq.send_amount, dealer_sends_native, proposal) <= old(self).max_trade()
                && find_order(old(self).orders(), rfq.order_id@) is None && available_total(
                old(self).coins(),
                rfq.recv_asset@,
            ) >= proposal ==> r is Ok,
            r matches Ok(q) ==> ({
                let sel = selection(old(self).coins(), rfq.recv_asset@, proposal as int)->0;
                let change = coins_sum(old(self).coins(), sel) - proposal;
                &&& final(self).coins() == reserved(old(self).coins(), sel, rfq.order_id@)
                &&& final(self).orders() == old(self).orders().push(
                    OrderView {
                        order_id: rfq.order_id@,
                        proposal,
                        change_amount: change as u64,
                        sell_asset: rfq.recv_asset@,
                        terms: None,
                    },
                )
                &&& q.order_id@ == rfq.order_id@
                &&& q.send_amount == proposal
                &&& q.utxo_count == sel.len()
                &&& q.with_change == (change > 0)
            }),
    {
        let native_amount = if dealer_sends_native {
            proposal
        } else {
            rfq.send_amount
        };
        if native_amount > self.max_trade {
            return Err(RfqSkip::TooLarge);
        }
        if self.order_index(&rfq.order_id).is_some() {
            return Err(RfqSkip::DuplicateOrder);
        }
        let sel = match self.ledger.select(&rfq.recv_asset, proposal) {
            Ok(sel) => sel,
            Err(_) => {
                return Err(RfqSkip::InsufficientFunds);
            },
        };
        let ghost before = self.orders();
        let reserved = self.ledger.reserve(&rfq.order_id, &sel.positions);
        assert(reserved is Ok);
        let utxo_count = sel.positions.len();
        let order = Order {
            order_id: rfq.order_id.clone(),
            proposal,
            change_amount: sel.change,
            sell_asset: rfq.recv_asset.clone(),
            terms: None,
        };
        self.orders.push(order);
        proof {
            assert(self.orders() =~= before.push(order@));
            lemma_find_order_none(before, rfq.order_id@);
            let c = self.coins();
            assert forall|i: int| 0 <= i < c.len() implies tag_owned(
                self.orders(),
                self.settled(),
                #[trigger] c[i].reserve,
            ) by {
                lemma_find_order_push(before, order@, rfq.order_id@);
                if let Some(t) = c[i].reserve {
                    if t != rfq.order_id@ {
                        assert(tag_owned(before, self.settled(), old(self).coins()[i].reserve));
                        lemma_find_order_push(before, order@, t);
                    }
                }
            }
            assert forall|a: int, b: int| 0 <= a < b < self.orders().len() implies self.orders()[a].order_id
                != self.orders()[b].order_id by {
                if b < before.len() {
                    assert(self.orders()[a] == before[a] && self.orders()[b] == before[b]);
                } else {
                    assert(self.orders()[a] == before[a]);
                }
            }
        }
        Ok(Quote {
            order_id: rfq.order_id.clone(),
            send_amount: proposal,
            utxo_count,
            with_change: sel.change > 0,
        })
    }

    /// The venue refused the quote of order `id`: its reservations are
    /// released and the order dropped.
    pub fn quote_rejected(&mut self, id: &String)
        requires
            old(self).wf(),
        ensures
            final(self).wf(),
            final(self).orders() == without_order(old(self).orders(), id@),
            final(self).coins() == released(old(self).coins(), id@),
            final(self).native() == old(self).native(),
            final(self).max_trade() == old(self).max_trade(),
    {
        self.close_order(id);
    }

    /// The RFQ of order `id` was withdrawn. Unless the venue had accepted
    /// it, its reservations are released and the order dropped; once
    /// accepted, the swap notifications own its cleanup.
    pub fn rfq_removed(&mut self, id: &String, accepted: bool)
        requires
            old(self).wf(),
        ensures
            final(self).wf(),
            final(self).native() == old(self).native(),
            final(self).max_trade() == old(self).max_trade(),
            accepted ==> final(self).orders() == old(self).orders() && final(self).coins() == old(
                self,
            ).coins(),
            !accepted ==> final(self).orders() == without_order(old(self).orders(), id@)
                && final(self).coins() == released(old(self).coins(), id@),
    {
        if !accepted {
            self.close_order(id);
        }
    }

    /// A new block: resynchronizes the ledger with the wallet's listing,
    /// then forgets the settled orders none of whose outputs remain.
    pub fn new_block(&mut self, unspent: &Vec<UnspentItem>)
        requires
            old(self).wf(),
        ensures
            final(self).wf(),
            final(self).orders() == old(self).orders(),
            final(self).native() == old(self).native(),
            final(self).max_trade() == old(self).max_trade(),
            forall|k: crate::ledger::OutKey|
                #[trigger] crate::ledger::lookup(final(self).coins(), k) == crate::ledger::resynced(
                    old(self).coins(),
                    crate::ledger::items_view(unspent@),
                    k,
                ),
            forall|t: Seq<char>|
                #[trigger] final(self).settled().contains(t) <==> old(self).settled().contains(t)
                    && tagged(final(self).coins(), t),
    {
        let ghost c0 = self.coins();
        self.ledger.reconcile(unspent);
        let ghost c = self.coins();
        let ghost st = self.settled();
        let mut kept: Vec<String> = Vec::new();
        let mut j: usize = 0;
        while j < self.settled.len()
            invariant
                j <= st.len(),
                st == strings_view(self.settled@),
                c == self.ledger@,
                forall|t: Seq<char>|
                    #[trigger] strings_view(kept@).contains(t) <==> st.take(j as int).contains(t)
                        && tagged(c, t),
            decreases st.len() - j,
        {
            let ghost before = strings_view(kept@);
            let ghost a = st.take(j as int);
            let ghost b = st.take(j + 1);
            proof {
                assert(b =~= a.push(st[j as int]));
                assert forall|t: Seq<char>| b.contains(t) == (a.contains(t) || t == st[j as int]) by {
                    if a.contains(t) {
                        let w = choose|w: int| 0 <= w < a.len() && a[w] == t;
                        assert(b[w] == t);
                    }
                    if t == st[j as int] {
                        assert(b[j as int] == t);
                    }
                    if b.contains(t) {
                        let w = choose|w: int| 0 <= w < b.len() && b[w] == t;
                        if w < j {
                            assert(a[w] == t);
                        }
                    }
                }
            }
            if self.has_reservation(&self.settled[j]) {
                kept.push(self.settled[j].clone());
                proof {
                    let now = strings_view(kept@);
                    assert(now =~= before.push(st[j as int]));
                    assert forall|t: Seq<char>| now.contains(t) == (before.contains(t) || t == st[j as int]) by {
                        if before.contains(t) {
                            let w = choose|w: int| 0 <= w < before.len() && before[w] == t;
                            assert(now[w] == t);
                        }
                        if t == st[j as int] {
                            assert(now[before.len() as int] == t);
                        }
                        if now.contains(t) {
                            let w = choose|w: int| 0 <= w < now.len() && now[w] == t;
                            if w < before.len() {
                                assert(before[w] == t);
                            }
                        }
                    }
                }
            }
            j = j + 1;
        }
        proof {
            assert(st.take(st.len() as int) =~= st);
        }
        self.settled = kept;
        proof {
            let u = crate::ledger::items_view(unspent@);
            assert forall|i: int| 0 <= i < c.len() implies tag_owned(
                self.orders(),
                self.settled(),
                #[trigger] c[i].reserve,
            ) by {
                if let Some(t) = c[i].reserve {
                    let k = crate::ledger::coin_key(c[i]);
                    crate::ledger::lemma_lookup_first(c, k, i);
                    assert(crate::ledger::lookup(c, k) == crate::ledger::resynced(c0, u, k));
                    crate::ledger::lemma_lookup_mem(c0, k);
                    let w = choose|w: int| 0 <= w < c0.len() && c0[w] == c[i];
                    assert(tag_owned(self.orders(), st, c0[w].reserve));
                    assert(tagged(c, t));
                }
            }
        }
    }

    /// Whether some output is reserved for `id`.
    fn has_reservation(&self, id: &String) -> (r: bool)
        ensures
            r == tagged(self.coins(), id@),
    {
        let mut i: usize = 0;
        while i < self.ledger.len()
            invariant
                i <= self.coins().len(),
                forall|k: int| 0 <= k < i ==> (#[trigger] self.coins()[k]).reserve != Some(id@),
            decreases self.coins().len() - i,
        {
            let c = self.ledger.get(i);
            let hit = match &c.reserve {
                Some(t) => *t == *id,
                None => false,
            };
            if hit {
                return true;
            }
            i = i + 1;
        }
        false
    }

    /// The venue reports a new state for the swap of order `id`.
    ///
    /// Offer review checks the echoed terms against the committed quote and
    /// records them; construction returns the transaction to build from the
    /// order's reserved inputs; signing hands the payload back; failure
    /// releases the reservations and drops the order; completion drops the
    /// order and leaves its spent outputs reserved until the next
    /// resynchronization removes them. A state the engine cannot match with
    /// its order table is an error, and then nothing changes.
    pub fn swap_update(&mut self, id: &String, state: SwapState) -> (r: Result<SwapStep, SwapError>)
        requires
            old(self).wf(),
        ensures
            final(self).wf(),
            final(self).native() == old(self).native(),
            final(self).max_trade() == old(self).max_trade(),
            find_order(old(self).orders(), id@) is None ==> r == Err::<SwapStep, SwapError>(
                SwapError::UnknownOrder,
            ),
            r is Err ==> final(self).coins() == old(self).coins() && final(self).orders() == old(
                self,
            ).orders(),
            find_order(old(self).orders(), id@) matches Some(o) ==> match state {
                SwapState::ReviewOffer { accept_required, terms } => if accept_required {
                    r == Err::<SwapStep, SwapError>(SwapError::AcceptRequired)
                } else if terms.send_asset@ != o.sell_asset || terms.send_amount != o.proposal {
                    r == Err::<SwapStep, SwapError>(SwapError::TermsMismatch)
                } else {
                    &&& (r matches Ok(SwapStep::Reviewed))
                    &&& final(self).coins() == old(self).coins()
                    &&& final(self).orders() == updated(old(self).orders(), with_terms(o, terms@))
                },
                SwapState::WaitPsbt => match o.terms {
                    None => r == Err::<SwapStep, SwapError>(SwapError::TermsMissing),
                    Some(t) => {
                        &&& final(self).coins() == old(self).coins()
                        &&& final(self).orders() == old(self).orders()
                        &&& (r matches Ok(SwapStep::Build(c)))
                        &&& inputs_view(r->Ok_0->Build_0.inputs@) == reserved_keys(old(self).coins(), id@)
                        &&& r->Ok_0->Build_0.recv_amount == t.recv_amount
                        &&& r->Ok_0->Build_0.recv_asset@ == t.recv_asset
                        &&& o.change_amount > 0 ==> (r->Ok_0->Build_0.change matches Some(ch))
                            && ch_amount(r->Ok_0->Build_0.change) == o.change_amount
                            && ch_asset(r->Ok_0->Build_0.change) == o.sell_asset
                        &&& o.change_amount == 0 ==> r->Ok_0->Build_0.change is None
                    },
                },
                SwapState::WaitSign { psbt } => {
                    &&& final(self).coins() == old(self).coins()
                    &&& final(self).orders() == old(self).orders()
                    &&& (r matches Ok(SwapStep::Sign { psbt: p }))
                    &&& r->Ok_0->Sign_psbt == psbt
                },
                SwapState::Failed { reason: _ } => {
                    &&& (r matches Ok(SwapStep::Failed))
                    &&& final(self).coins() == released(old(self).coins(), id@)
                    &&& final(self).orders() == without_order(old(self).orders(), id@)
                },
                SwapState::Done { txid } => {
                    &&& final(self).coins() == old(self).coins()
                    &&& final(self).orders() == without_order(old(self).orders(), id@)
                    &&& (r matches Ok(SwapStep::Settled { txid: t }))
                    &&& r->Ok_0->Settled_txid == txid
                },
            },
    {
        let i = match self.order_index(id) {
            Some(i) => i,
            None => {
                return Err(SwapError::UnknownOrder);
            },
        };
        let ghost o = self.orders()[i as int];
        proof {
            assert(self.orders()[i as int] == self.orders@[i as int]@);
        }
        match state {
            SwapState::ReviewOffer { accept_required, terms } => {
                if accept_required {
                    return Err(SwapError::AcceptRequired);
                }
                if terms.send_asset != self.orders[i].sell_asset || terms.send_amount
                    != self.orders[i].proposal {
                    return Err(SwapError::TermsMismatch);
                }
                let ghost before = self.orders();
                let ghost tv = terms@;
                self.orders[i].terms = Some(terms);
                proof {
                    assert forall|j: int| 0 <= j < before.len() implies #[trigger] self.orders()[j]
                        == updated(before, with_terms(o, tv))[j] by {
                        if j != i {
                            assert(self.orders()[j] == before[j]);
                            assert(before[j].order_id != o.order_id);
                        }
                    }
                    assert(self.orders() =~= updated(before, with_terms(o, tv)));
                    assert forall|a: int, b: int| 0 <= a < b < self.orders().len() implies self.orders()[a].order_id
                        != self.orders()[b].order_id by {
                        assert(self.orders()[a].order_id == before[a].order_id);
                        assert(self.orders()[b].order_id == before[b].order_id);
                    }
                    let c = self.coins();
                    assert forall|k: int| 0 <= k < c.len() implies tag_owned(
                        self.orders(),
                        self.settled(),
                        #[trigger] c[k].reserve,
                    ) by {
                        assert(tag_owned(before, self.settled(), c[k].reserve));
                        if let Some(t) = c[k].reserve {
                            if find_order(before, t) is Some {
                                lemma_find_order_none(before, t);
                                lemma_find_order_none(self.orders(), t);
                                let w = choose|w: int| 0 <= w < before.len() && (#[trigger] before[w]).order_id == t;
                                assert(self.orders()[w].order_id == t);
                            }
                        }
                    }
                }
                Ok(SwapStep::Reviewed)
            },
            SwapState::WaitPsbt => {
                let (recv_amount, recv_asset) = match &self.orders[i].terms {
                    Some(t) => (t.recv_amount, t.recv_asset.clone()),
                    None => {
                        return Err(SwapError::TermsMissing);
                    },
                };
                let inputs = self.reserved_inputs(id);
                let change = if self.orders[i].change_amount > 0 {
                    Some((self.orders[i].change_amount, self.orders[i].sell_asset.clone()))
                } else {
                    None
                };
                Ok(SwapStep::Build(Construction { inputs, recv_amount, recv_asset, change }))
            },
            SwapState::WaitSign { psbt } => Ok(SwapStep::Sign { psbt }),
            SwapState::Failed { reason: _ } => {
                self.close_order(id);
                Ok(SwapStep::Failed)
            },
            SwapState::Done { txid } => {
                let ghost s0 = self.settled();
                self.settled.push(id.clone());
                proof {
                    assert(self.settled() =~= s0.push(id@));
                    assert(self.settled()[s0.len() as int] == id@);
                    let c = self.coins();
                    assert forall|k: int| 0 <= k < c.len() implies tag_owned(
                        self.orders(),
                        self.settled(),
                        #[trigger] c[k].reserve,
                    ) by {
                        assert(tag_owned(self.orders(), s0, c[k].reserve));
                        if let Some(t) = c[k].reserve {
                            if s0.contains(t) {
                                let w = choose|w: int| 0 <= w < s0.len() && s0[w] == t;
                                assert(self.settled()[w] == t);
                            }
                        }
                    }
                }
                self.drop_order(id);
                Ok(SwapStep::Settled { txid })
            },
        }
    }

    /// Identifiers of the outputs reserved for order `id`, in ledger order.
    fn reserved_inputs(&self, id: &String) -> (r: Vec<(String, u32)>)
        ensures
            inputs_view(r@) == reserved_keys(self.coins(), id@),
    {
        let ghost s = self.coins();
        let mut out: Vec<(String, u32)> = Vec::new();
        let mut i: usize = 0;
        proof {
            assert(inputs_view(out@) =~= reserved_keys(s.take(0), id@));
        }
        while i < self.ledger.len()
            invariant
                s == self.coins(),
                s == self.ledger@,
                i <= s.len(),
                inputs_view(out@) == reserved_keys(s.take(i as int), id@),
            decreases s.len() - i,
        {
            proof {
                assert(s.take(i + 1).drop_last() =~= s.take(i as int));
            }
            let c = self.ledger.get(i);
            let hit = match &c.reserve {
                Some(t) => *t == *id,
                None => false,
            };
            if hit {
                let ghost before = out@;
                out.push((c.txid.clone(), c.vout));
                proof {
                    assert(inputs_view(out@) =~= inputs_view(before).push((c.txid@, c.vout)));
                }
            }
            i = i + 1;
        }
        proof {
            assert(s.take(s.len() as int) =~= s);
        }
        out
    }

    /// Clears the reservations of order `id` and drops the order.
    fn close_order(&mut self, id: &String)
        requires
            old(self).wf(),
        ensures
            final(self).wf(),
            final(self).orders() == without_order(old(self).orders(), id@),
            final(self).coins() == released(old(self).coins(), id@),
            final(self).native() == old(self).native(),
            final(self).max_trade() == old(self).max_trade(),
            final(self).settled() == old(self).settled(),
    {
        let ghost c0 = self.coins();
        self.ledger.release(id);
        proof {
            let c = self.coins();
            assert forall|i: int| 0 <= i < c.len() implies tag_owned(
                self.orders(),
                self.settled(),
                #[trigger] c[i].reserve,
            ) by {
                assert(tag_owned(self.orders(), self.settled(), c0[i].reserve));
            }
            assert(!tagged(c, id@));
        }
        self.drop_order(id);
    }
}

} // verus!
