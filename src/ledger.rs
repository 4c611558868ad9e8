//! The coin ledger: spendable outputs, each with an optional soft
//! reservation naming the order it is committed to.
use vstd::prelude::*;
use crate::select::{ascending_within, best_cover, lemma_best_cover_sound, picks_sum, select_cover, suffix_sum};

verus! {

/// Outputs with fewer confirmations than this are not tracked.
pub const MIN_CONFIRMATIONS: i32 = 1;

/// One entry of the wallet's unspent-output listing.
pub struct UnspentItem {
    pub txid: String,
    pub vout: u32,
    pub asset: String,
    pub amount: u64,
    pub confirmations: i32,
}

/// A tracked spendable output and its reservation tag.
pub struct Utxo {
    pub txid: String,
    pub vout: u32,
    pub asset: String,
    pub amount: u64,
    pub reserve: Option<String>,
}

/// Mathematical form of an unspent-listing entry.
pub ghost struct ItemView {
    pub txid: Seq<char>,
    pub vout: u32,
    pub asset: Seq<char>,
    pub amount: u64,
    pub confirmations: i32,
}

/// Mathematical form of a tracked output.
pub ghost struct CoinView {
    pub txid: Seq<char>,
    pub vout: u32,
    pub asset: Seq<char>,
    pub amount: u64,
    pub reserve: Option<Seq<char>>,
}

impl View for UnspentItem {
    type V = ItemView;

    open spec fn view(&self) -> ItemView {
        ItemView {
            txid: self.txid@,
            vout: self.vout,
            asset: self.asset@,
            amount: self.amount,
            confirmations: self.confirmations,
        }
    }
}

pub open spec fn tag_view(t: Option<String>) -> Option<Seq<char>> {
    match t {
        Some(s) => Some(s@),
        None => None,
    }
}

impl View for Utxo {
    type V = CoinView;

    open spec fn view(&self) -> CoinView {
        CoinView {
            txid: self.txid@,
            vout: self.vout,
            asset: self.asset@,
            amount: self.amount,
            reserve: tag_view(self.reserve),
        }
    }
}

pub open spec fn coins_view(v: Seq<Utxo>) -> Seq<CoinView> {
    v.map_values(|c: Utxo| c@)
}

pub open spec fn items_view(v: Seq<UnspentItem>) -> Seq<ItemView> {
    v.map_values(|it: UnspentItem| it@)
}

/// An output is identified by its transaction id and output index.
pub type OutKey = (Seq<char>, u32);

pub open spec fn coin_key(c: CoinView) -> OutKey {
    (c.txid, c.vout)
}

pub open spec fn item_key(it: ItemView) -> OutKey {
    (it.txid, it.vout)
}

/// No two tracked outputs share an identifier.
pub open spec fn unique_keys(s: Seq<CoinView>) -> bool {
    forall|i: int, j: int| 0 <= i < j < s.len() ==> coin_key(s[i]) != coin_key(s[j])
}

/// The first tracked output with identifier `k`.
pub open spec fn lookup(s: Seq<CoinView>, k: OutKey) -> Option<CoinView>
    decreases s.len(),
{
    if s.len() == 0 {
        None
    } else {
        match lookup(s.drop_last(), k) {
            Some(c) => Some(c),
            None => if coin_key(s.last()) == k {
                Some(s.last())
            } else {
                None
            },
        }
    }
}

/// The first entry of a listing with identifier `k` and enough confirmations.
pub open spec fn first_confirmed(u: Seq<ItemView>, k: OutKey) -> Option<ItemView>
    decreases u.len(),
{
    if u.len() == 0 {
        None
    } else {
        match first_confirmed(u.drop_last(), k) {
            Some(it) => Some(it),
            None => if item_key(u.last()) == k && u.last().confirmations >= MIN_CONFIRMATIONS {
                Some(u.last())
            } else {
                None
            },
        }
    }
}

/// A newly seen output: tracked with no reservation.
pub open spec fn fresh(it: ItemView) -> CoinView {
    CoinView {
        txid: it.txid,
        vout: it.vout,
        asset: it.asset,
        amount: it.amount,
        reserve: None,
    }
}

/// What the ledger holds for `k` after a resync with listing `u`: nothing
/// if `u` has no confirmed entry for it, the old record (reservation
/// included) if there was one, else a fresh record.
pub open spec fn resynced(old: Seq<CoinView>, u: Seq<ItemView>, k: OutKey) -> Option<CoinView> {
    match first_confirmed(u, k) {
        None => None,
        Some(it) => match lookup(old, k) {
            Some(c) => Some(c),
            None => Some(fresh(it)),
        },
    }
}

/// The ledger's content as a map from output identifier to record.
pub open spec fn coin_map(s: Seq<CoinView>) -> Map<OutKey, CoinView> {
    Map::new(|k: OutKey| lookup(s, k) is Some, |k: OutKey| lookup(s, k)->0)
}

pub proof fn lemma_lookup_none(s: Seq<CoinView>, k: OutKey)
    ensures
        lookup(s, k) is None <==> forall|i: int| 0 <= i < s.len() ==> coin_key(#[trigger] s[i]) != k,
    decreases s.len(),
{
    if s.len() > 0 {
        lemma_lookup_none(s.drop_last(), k);
        if lookup(s, k) is None {
            assert forall|i: int| 0 <= i < s.len() implies coin_key(#[trigger] s[i]) != k by {
                if i < s.len() - 1 {
                    assert(s[i] == s.drop_last()[i]);
                }
            }
        } else {
            if forall|i: int| 0 <= i < s.len() ==> coin_key(#[trigger] s[i]) != k {
                assert forall|i: int| 0 <= i < s.drop_last().len() implies coin_key(
                    #[trigger] s.drop_last()[i],
                ) != k by {
                    assert(s[i] == s.drop_last()[i]);
                }
                assert(coin_key(s[s.len() - 1]) != k);
            }
        }
    }
}

pub proof fn lemma_lookup_key(s: Seq<CoinView>, k: OutKey)
    ensures
        lookup(s, k) is Some ==> coin_key(lookup(s, k)->0) == k,
    decreases s.len(),
{
    if s.len() > 0 {
        lemma_lookup_key(s.drop_last(), k);
    }
}

/// What a lookup finds is an element of the ledger.
pub proof fn lemma_lookup_mem(s: Seq<CoinView>, k: OutKey)
    ensures
        lookup(s, k) matches Some(c) ==> exists|j: int| 0 <= j < s.len() && s[j] == c,
    decreases s.len(),
{
    if s.len() > 0 {
        let d = s.drop_last();
        lemma_lookup_mem(d, k);
        if let Some(c) = lookup(d, k) {
            let j = choose|j: int| 0 <= j < d.len() && d[j] == c;
            assert(s[j] == c);
        } else if let Some(c) = lookup(s, k) {
            assert(s[s.len() - 1] == c);
        }
    }
}

pub proof fn lemma_lookup_first(s: Seq<CoinView>, k: OutKey, j: int)
    requires
        0 <= j < s.len(),
        coin_key(s[j]) == k,
        forall|i: int| 0 <= i < j ==> coin_key(#[trigger] s[i]) != k,
    ensures
        lookup(s, k) == Some(s[j]),
    decreases s.len(),
{
    let d = s.drop_last();
    if j == s.len() - 1 {
        assert forall|i: int| 0 <= i < d.len() implies coin_key(#[trigger] d[i]) != k by {
            assert(d[i] == s[i]);
        }
        lemma_lookup_none(d, k);
    } else {
        assert forall|i: int| 0 <= i < j implies coin_key(#[trigger] d[i]) != k by {
            assert(d[i] == s[i]);
        }
        lemma_lookup_first(d, k, j);
    }
}

/// A copy of a record with the same view.
fn copy_utxo(c: &Utxo) -> (r: Utxo)
    ensures
        r@ == c@,
{
    let reserve = match &c.reserve {
        Some(t) => Some(t.clone()),
        None => None,
    };
    Utxo {
        txid: c.txid.clone(),
        vout: c.vout,
        asset: c.asset.clone(),
        amount: c.amount,
        reserve,
    }
}

/// Position of the first record with the given identifier.
fn find_key(s: &Vec<Utxo>, txid: &String, vout: u32) -> (r: Option<usize>)
    ensures
        r is None ==> lookup(coins_view(s@), (txid@, vout)) is None,
        r matches Some(j) ==> j < s@.len() && lookup(coins_view(s@), (txid@, vout))
            == Some(s@[j as int]@),
{
    let ghost v = coins_view(s@);
    let mut i: usize = 0;
    while i < s.len()
        invariant
            i <= s@.len(),
            v == coins_view(s@),
            forall|j: int| 0 <= j < i ==> coin_key(#[trigger] v[j]) != (txid@, vout),
        decreases s.len() - i,
    {
        if s[i].vout == vout && s[i].txid == *txid {
            proof {
                lemma_lookup_first(v, (txid@, vout), i as int);
            }
            return Some(i);
        }
        i = i + 1;
    }
    proof {
        lemma_lookup_none(v, (txid@, vout));
    }
    None
}

/// Positions of the unreserved outputs of `asset`, in ledger order.
pub open spec fn available(s: Seq<CoinView>, asset: Seq<char>) -> Seq<int>
    decreases s.len(),
{
    if s.len() == 0 {
        Seq::empty()
    } else {
        let r = available(s.drop_last(), asset);
        if s.last().asset == asset && s.last().reserve is None {
            r.push(s.len() - 1)
        } else {
            r
        }
    }
}

/// Amounts of the unreserved outputs of `asset`, in ledger order.
pub open spec fn available_amounts(s: Seq<CoinView>, asset: Seq<char>) -> Seq<u64> {
    available(s, asset).map_values(|p: int| s[p].amount)
}

/// Total of the unreserved outputs of `asset`.
pub open spec fn available_total(s: Seq<CoinView>, asset: Seq<char>) -> int {
    suffix_sum(available_amounts(s, asset), 0)
}

/// The outputs `select` picks: the least-total selection among the
/// unreserved outputs of `asset` that reaches `need`, as ledger positions.
pub open spec fn selection(s: Seq<CoinView>, asset: Seq<char>, need: int) -> Option<Seq<int>> {
    match best_cover(available_amounts(s, asset), 0, need) {
        None => None,
        Some(p) => Some(p.map_values(|x: int| available(s, asset)[x])),
    }
}

/// Sum of the amounts of the outputs at positions `q`.
pub open spec fn coins_sum(s: Seq<CoinView>, q: Seq<int>) -> int
    decreases q.len(),
{
    if q.len() == 0 {
        0
    } else {
        s[q[0]].amount as int + coins_sum(s, q.drop_first())
    }
}

proof fn lemma_available_props(s: Seq<CoinView>, asset: Seq<char>)
    ensures
        ascending_within(available(s, asset), 0, s.len() as int),
        forall|j: int|
            0 <= j < available(s, asset).len() ==> s[#[trigger] available(s, asset)[j]].asset
                == asset && s[available(s, asset)[j]].reserve is None,
    decreases s.len(),
{
    if s.len() > 0 {
        let d = s.drop_last();
        lemma_available_props(d, asset);
        let r = available(d, asset);
        assert forall|j: int| 0 <= j < r.len() implies #[trigger] s[r[j]] == d[r[j]] by {}
    }
}

proof fn lemma_coins_sum_mapped(s: Seq<CoinView>, asset: Seq<char>, p: Seq<int>)
    requires
        forall|j: int| 0 <= j < p.len() ==> 0 <= #[trigger] p[j] < available(s, asset).len(),
    ensures
        coins_sum(s, p.map_values(|x: int| available(s, asset)[x])) == picks_sum(
            available_amounts(s, asset),
            p,
        ),
    decreases p.len(),
{
    if p.len() > 0 {
        let q = p.map_values(|x: int| available(s, asset)[x]);
        assert(p.drop_first().map_values(|x: int| available(s, asset)[x]) =~= q.drop_first());
        assert(0 <= p[0]);
        lemma_coins_sum_mapped(s, asset, p.drop_first());
    }
}

/// The spendable outputs, kept with unique identifiers.
pub struct Ledger {
    coins: Vec<Utxo>,
}

/// Why a reservation was refused.
#[derive(Debug, PartialEq, Eq, Structural, Clone, Copy)]
pub enum ReserveError {
    /// A position is past the end of the ledger.
    UnknownCoin { position: usize },
    /// An output is already reserved.
    AlreadyReserved { position: usize },
}

/// The unreserved outputs of the asset do not reach the amount asked for.
#[derive(Debug, PartialEq, Eq, Structural, Clone, Copy)]
pub struct InsufficientFunds {
    pub available: u64,
    pub needed: u64,
}

/// Outputs picked to pay an amount, and the change they leave.
pub struct Selection {
    pub positions: Vec<usize>,
    pub change: u64,
}

impl Selection {
    pub open spec fn picks(&self) -> Seq<int> {
        self.positions@.map_values(|x: usize| x as int)
    }
}

/// Every position of `q` names an unreserved output.
pub open spec fn can_reserve(s: Seq<CoinView>, q: Seq<int>) -> bool {
    forall|j: int| 0 <= j < q.len() ==> 0 <= #[trigger] q[j] < s.len() && s[q[j]].reserve is None
}

pub open spec fn with_tag(c: CoinView, t: Option<Seq<char>>) -> CoinView {
    CoinView { txid: c.txid, vout: c.vout, asset: c.asset, amount: c.amount, reserve: t }
}

/// The ledger after tagging the outputs at positions `q` with order `o`.
pub open spec fn reserved(s: Seq<CoinView>, q: Seq<int>, o: Seq<char>) -> Seq<CoinView> {
    Seq::new(s.len(), |i: int| if q.contains(i) { with_tag(s[i], Some(o)) } else { s[i] })
}

/// The ledger after clearing every tag of order `o`.
pub open spec fn released(s: Seq<CoinView>, o: Seq<char>) -> Seq<CoinView> {
    Seq::new(s.len(), |i: int| if s[i].reserve == Some(o) { with_tag(s[i], None) } else { s[i] })
}

impl View for Ledger {
    type V = Seq<CoinView>;

    closed spec fn view(&self) -> Seq<CoinView> {
        coins_view(self.coins@)
    }
}

impl Ledger {
    pub open spec fn wf(&self) -> bool {
        unique_keys(self@)
    }

    pub fn new() -> (r: Ledger)
        ensures
            r.wf(),
            r@ == Seq::<CoinView>::empty(),
    {
        let r = Ledger { coins: Vec::new() };
        proof {
            assert(r@ =~= Seq::<CoinView>::empty());
        }
        r
    }

    pub fn len(&self) -> (r: usize)
        ensures
            r == self@.len(),
    {
        self.coins.len()
    }

    /// Resynchronizes with the wallet's unspent listing: keeps only the
    /// outputs the listing holds with enough confirmations, carries over the
    /// records (and reservations) of those already tracked, and adds the new
    /// ones unreserved. Outputs absent from the listing are dropped together
    /// with their reservation.
    pub fn reconcile(&mut self, unspent: &Vec<UnspentItem>)
        requires
            old(self).wf(),
        ensures
            final(self).wf(),
            forall|k: OutKey|
                #[trigger] lookup(final(self)@, k) == resynced(
                    old(self)@,
                    items_view(unspent@),
                    k,
                ),
    {
        let ghost u = items_view(unspent@);
        let ghost before = self@;
        let mut out: Vec<Utxo> = Vec::new();
        let mut i: usize = 0;
        proof {
            assert(coins_view(out@) =~= Seq::<CoinView>::empty());
        }
        while i < unspent.len()
            invariant
                i <= unspent@.len(),
                u == items_view(unspent@),
                before == self@,
                unique_keys(coins_view(out@)),
                forall|k: OutKey|
                    #[trigger] lookup(coins_view(out@), k) == resynced(
                        before,
                        u.take(i as int),
                        k,
                    ),
            decreases unspent.len() - i,
        {
            let ghost o1 = coins_view(out@);
            let it = &unspent[i];
            let ghost ik = item_key(it@);
            proof {
                assert(u.take(i + 1).drop_last() =~= u.take(i as int));
                assert(u.take(i + 1).last() == it@);
            }
            if it.confirmations >= MIN_CONFIRMATIONS {
                let present = find_key(&out, &it.txid, it.vout);
                if present.is_none() {
                    let found = find_key(&self.coins, &it.txid, it.vout);
                    let rec = match found {
                        Some(j) => copy_utxo(&self.coins[j]),
                        None => Utxo {
                            txid: it.txid.clone(),
                            vout: it.vout,
                            asset: it.asset.clone(),
                            amount: it.amount,
                            reserve: None,
                        },
                    };
                    out.push(rec);
                    proof {
                        let o2 = coins_view(out@);
                        assert(o2.drop_last() =~= o1);
                        assert(o2.last() == rec@);
                        lemma_lookup_none(o1, ik);
                        lemma_lookup_key(before, ik);
                        assert(resynced(before, u.take(i as int), ik) == lookup(o1, ik));
                        assert(first_confirmed(u.take(i as int), ik) is None);
                        assert(first_confirmed(u.take(i + 1), ik) == Some(it@));
                        assert(resynced(before, u.take(i + 1), ik) == Some(rec@));
                        assert(coin_key(rec@) == ik);
                        assert forall|a: int, b: int| 0 <= a < b < o2.len() implies coin_key(o2[a])
                            != coin_key(o2[b]) by {
                            if b == o2.len() - 1 {
                                assert(o2[a] == o1[a]);
                            } else {
                                assert(o2[a] == o1[a] && o2[b] == o1[b]);
                            }
                        }
                        assert forall|k: OutKey| #[trigger]
                            lookup(o2, k) == resynced(before, u.take(i + 1), k) by {
                            assert(resynced(before, u.take(i as int), k) == lookup(o1, k));
                        }
                    }
                } else {
                    proof {
                        assert forall|k: OutKey| #[trigger]
                            lookup(o1, k) == resynced(before, u.take(i + 1), k) by {
                            assert(resynced(before, u.take(i as int), k) == lookup(o1, k));
                        }
                    }
                }
            } else {
                proof {
                    assert forall|k: OutKey| #[trigger]
                        lookup(o1, k) == resynced(before, u.take(i + 1), k) by {
                        assert(resynced(before, u.take(i as int), k) == lookup(o1, k));
                    }
                }
            }
            i = i + 1;
        }
        proof {
            assert(u.take(unspent@.len() as int) =~= u);
        }
        self.coins = out;
    }

    /// Picks the outputs that pay `need` of `asset`: among the unreserved
    /// outputs of that asset, the selection of least total at or above
    /// `need`. Fails, reserving nothing, when they do not reach `need`.
    pub fn select(&self, asset: &String, need: u64) -> (r: Result<Selection, InsufficientFunds>)
        ensures
            r is Err <==> available_total(self@, asset@) < need,
            r matches Err(e) ==> e.needed == need && e.available == available_total(self@, asset@),
            r matches Ok(sel) ==> selection(self@, asset@, need as int) == Some(sel.picks()),
            r matches Ok(sel) ==> sel.change == coins_sum(self@, sel.picks()) - need,
            r matches Ok(sel) ==> can_reserve(self@, sel.picks()),
            r matches Ok(sel) ==> ({ let v = sel.positions; coins_sum(self@, v@.map_values(|x: usize| x as int)) >= need
                && ascending_within(v@.map_values(|x: usize| x as int), 0, self@.len() as int)
                && forall|j: int|
                0 <= j < v@.len() ==> self@[#[trigger] v@[j] as int].asset == asset@ && self@[v@[j] as int].reserve is None }),
    {
        let ghost s = self@;
        let mut idx: Vec<usize> = Vec::new();
        let mut amts: Vec<u64> = Vec::new();
        let mut i: usize = 0;
        proof {
            assert(s.take(0) =~= Seq::<CoinView>::empty());
            assert(idx@.map_values(|x: usize| x as int) =~= Seq::<int>::empty());
        }
        while i < self.coins.len()
            invariant
                s == self@,
                i <= s.len(),
                idx@.map_values(|x: usize| x as int) == available(s.take(i as int), asset@),
                amts@.len() == idx@.len(),
                forall|j: int| 0 <= j < amts@.len() ==> #[trigger] amts@[j] == s[idx@[j] as int].amount,
            decreases self.coins.len() - i,
        {
            proof {
                assert(s.take(i + 1).drop_last() =~= s.take(i as int));
                assert(s[i as int] == self.coins@[i as int]@);
            }
            if self.coins[i].reserve.is_none() && self.coins[i].asset == *asset {
                let ghost before = idx@;
                idx.push(i);
                amts.push(self.coins[i].amount);
                proof {
                    assert(idx@.map_values(|x: usize| x as int) =~= before.map_values(
                        |x: usize| x as int,
                    ).push(i as int));
                }
            }
            i = i + 1;
        }
        proof {
            assert(s.take(s.len() as int) =~= s);
            assert(amts@ =~= available_amounts(s, asset@));
        }
        // Total of the candidates, capped at `need`, summed from the back.
        let mut acc: u64 = 0;
        let mut k: usize = amts.len();
        while k > 0 && acc < need
            invariant
                k <= amts@.len(),
                acc <= need,
                acc < need ==> acc == suffix_sum(amts@, k as int),
                acc == need ==> suffix_sum(amts@, k as int) >= need,
            decreases k,
        {
            k = k - 1;
            proof {
                crate::select::lemma_suffix_sum_nonneg(amts@, k as int + 1);
            }
            if amts[k] >= need - acc {
                acc = need;
            } else {
                acc = acc + amts[k];
            }
        }
        proof {
            crate::select::lemma_suffix_sum_nonneg(amts@, k as int);
            crate::select::lemma_suffix_sum_mono(amts@, k as int);
        }
        if acc < need {
            return Err(InsufficientFunds { available: acc, needed: need });
        }
        let picks = select_cover(&amts, need);
        match picks {
            None => Err(InsufficientFunds { available: acc, needed: need }),
            Some((v, change)) => {
                let ghost p = v@.map_values(|x: usize| x as int);
                proof {
                    lemma_best_cover_sound(amts@, 0, need as int);
                    lemma_available_props(s, asset@);
                }
                let mut out: Vec<usize> = Vec::new();
                let mut j: usize = 0;
                while j < v.len()
                    invariant
                        j <= v@.len(),
                        p == v@.map_values(|x: usize| x as int),
                        ascending_within(p, 0, idx@.len() as int),
                        idx@.map_values(|x: usize| x as int) == available(s, asset@),
                        out@.len() == j,
                        forall|t: int| 0 <= t < j ==> #[trigger] out@[t] == idx@[v@[t] as int],
                    decreases v.len() - j,
                {
                    assert(0 <= p[j as int] < idx@.len());
                    out.push(idx[v[j]]);
                    j = j + 1;
                }
                let ghost q = out@.map_values(|x: usize| x as int);
                proof {
                    let av = available(s, asset@);
                    assert(q =~= p.map_values(|x: int| av[x]));
                    lemma_coins_sum_mapped(s, asset@, p);
                    assert forall|a: int| 0 <= a < q.len() implies 0 <= #[trigger] q[a] < s.len() by {
                        assert(0 <= p[a] < av.len());
                        assert(q[a] == av[p[a]]);
                    }
                    assert forall|a: int, b: int| 0 <= a < b < q.len() implies q[a] < q[b] by {
                        assert(p[a] < p[b]);
                        assert(0 <= p[a] < av.len());
                        assert(0 <= p[b] < av.len());
                    }
                    assert forall|a: int| 0 <= a < out@.len() implies s[#[trigger] out@[a] as int].asset
                        == asset@ && s[out@[a] as int].reserve is None by {
                        assert(q[a] == av[p[a]]);
                        assert(0 <= p[a] < av.len());
                    }
                }
                proof {
                    assert forall|a: int| 0 <= a < q.len() implies 0 <= #[trigger] q[a] < s.len()
                        && s[q[a]].reserve is None by {
                        assert(q[a] == out@[a] as int);
                    }
                }
                Ok(Selection { positions: out, change })
            },
        }
    }

    /// Tags the outputs at positions `q` with order `order`, all or nothing:
    /// refused, changing nothing, if a position is out of range or already
    /// reserved.
    pub fn reserve(&mut self, order: &String, q: &Vec<usize>) -> (r: Result<(), ReserveError>)
        requires
            old(self).wf(),
        ensures
            final(self).wf(),
            r is Ok <==> can_reserve(old(self)@, q@.map_values(|x: usize| x as int)),
            r is Ok ==> final(self)@ == reserved(old(self)@, q@.map_values(|x: usize| x as int), order@),
            r is Err ==> final(self)@ == old(self)@,
    {
        let ghost qi = q@.map_values(|x: usize| x as int);
        let mut j: usize = 0;
        while j < q.len()
            invariant
                j <= q@.len(),
                qi == q@.map_values(|x: usize| x as int),
                *self == *old(self),
                self.wf(),
                forall|t: int| 0 <= t < j ==> 0 <= #[trigger] qi[t] < self@.len() && self@[qi[t]].reserve is None,
            decreases q.len() - j,
        {
            let p = q[j];
            assert(qi[j as int] == p as int);
            if p >= self.coins.len() {
                return Err(ReserveError::UnknownCoin { position: p });
            }
            proof {
                assert(self@[p as int] == self.coins@[p as int]@);
            }
            if self.coins[p].reserve.is_some() {
                return Err(ReserveError::AlreadyReserved { position: p });
            }
            j = j + 1;
        }
        let ghost s = self@;
        let mut j: usize = 0;
        while j < q.len()
            invariant
                j <= q@.len(),
                qi == q@.map_values(|x: usize| x as int),
                can_reserve(s, qi),
                self@.len() == s.len(),
                forall|i: int| 0 <= i < s.len() ==> #[trigger] self@[i] == (if qi.take(j as int).contains(i) {
                    with_tag(s[i], Some(order@))
                } else {
                    s[i]
                }),
            decreases q.len() - j,
        {
            let p = q[j];
            assert(qi[j as int] == p as int);
            assert(0 <= qi[j as int] < s.len());
            let ghost prev = self.coins@;
            let ghost prev_view = self@;
            self.coins[p].reserve = Some(order.clone());
            proof {
                assert forall|i: int| 0 <= i < s.len() implies #[trigger] self@[i] == (if qi.take(j + 1).contains(i) {
                    with_tag(s[i], Some(order@))
                } else {
                    s[i]
                }) by {
                    assert(qi.take(j + 1) =~= qi.take(j as int).push(p as int));
                    let a = qi.take(j as int);
                    let b = qi.take(j + 1);
                    if a.contains(i) {
                        let w = choose|w: int| 0 <= w < a.len() && a[w] == i;
                        assert(b[w] == i);
                    }
                    if i == p {
                        assert(b[j as int] == i);
                    }
                    if b.contains(i) {
                        let w = choose|w: int| 0 <= w < b.len() && b[w] == i;
                        if w < j {
                            assert(a[w] == i);
                        }
                    }
                    assert(b.contains(i) == (a.contains(i) || i == p));
                    assert(self@[i] == self.coins@[i]@);
                    assert(prev_view[i] == prev[i]@);
                    if i != p {
                        assert(self.coins@[i] == prev[i]);
                    }
                }
            }
            j = j + 1;
        }
        proof {
            assert(qi.take(q@.len() as int) =~= qi);
            assert(self@ =~= reserved(s, qi, order@));
            assert forall|a: int, b: int| 0 <= a < b < self@.len() implies coin_key(self@[a]) != coin_key(self@[b]) by {
                assert(coin_key(self@[a]) == coin_key(s[a]));
                assert(coin_key(self@[b]) == coin_key(s[b]));
            }
        }
        Ok(())
    }

    /// Clears every reservation of `order`, whatever their number; doing so
    /// when it holds none changes nothing.
    pub fn release(&mut self, order: &String)
        requires
            old(self).wf(),
        ensures
            final(self).wf(),
            final(self)@ == released(old(self)@, order@),
    {
        let ghost s = self@;
        let mut i: usize = 0;
        while i < self.coins.len()
            invariant
                i <= s.len(),
                self@.len() == s.len(),
                forall|t: int| 0 <= t < s.len() ==> #[trigger] self@[t] == (if t < i && s[t].reserve == Some(order@) {
                    with_tag(s[t], None)
                } else {
                    s[t]
                }),
            decreases s.len() - i,
        {
            proof {
                assert(self@[i as int] == self.coins@[i as int]@);
            }
            let hit = match &self.coins[i].reserve {
                Some(t) => *t == *order,
                None => false,
            };
            if hit {
                let ghost prev = self@;
                self.coins[i].reserve = None;
                proof {
                    assert forall|t: int| 0 <= t < s.len() && t != i implies #[trigger] self@[t] == prev[t] by {}
                }
            }
            i = i + 1;
        }
        proof {
            assert(self@ =~= released(s, order@));
            assert forall|a: int, b: int| 0 <= a < b < self@.len() implies coin_key(self@[a]) != coin_key(self@[b]) by {
                assert(coin_key(self@[a]) == coin_key(s[a]));
                assert(coin_key(self@[b]) == coin_key(s[b]));
            }
        }
    }

    /// The record at position `i`.
    pub fn get(&self, i: usize) -> (r: &Utxo)
        requires
            i < self@.len(),
        ensures
            r@ == self@[i as int],
    {
        &self.coins[i]
    }
}

} // verus!

verus! {

/// A reservation step, as the ledger sees it.
pub ghost enum ReservationOp {
    Reserve { order: Seq<char>, positions: Seq<int> },
    Release { order: Seq<char> },
}

/// The ledger after one step; a reservation that is refused changes nothing.
pub open spec fn apply_op(s: Seq<CoinView>, op: ReservationOp) -> Seq<CoinView> {
    match op {
        ReservationOp::Reserve { order, positions } => if can_reserve(s, positions) {
            reserved(s, positions, order)
        } else {
            s
        },
        ReservationOp::Release { order } => released(s, order),
    }
}

/// The ledger after a sequence of steps.
pub open spec fn replay(s: Seq<CoinView>, ops: Seq<ReservationOp>) -> Seq<CoinView>
    decreases ops.len(),
{
    if ops.len() == 0 {
        s
    } else {
        apply_op(replay(s, ops.drop_last()), ops.last())
    }
}

/// The positions an order holds after a sequence of steps: those it held at
/// the start, plus those of each reservation of it that took effect, emptied
/// by each release of it.
pub open spec fn claimed(s: Seq<CoinView>, ops: Seq<ReservationOp>, o: Seq<char>) -> Set<int>
    decreases ops.len(),
{
    if ops.len() == 0 {
        Set::new(|i: int| 0 <= i < s.len() && s[i].reserve == Some(o))
    } else {
        let prev = claimed(s, ops.drop_last(), o);
        match ops.last() {
            ReservationOp::Reserve { order, positions } => if order == o && can_reserve(
                replay(s, ops.drop_last()),
                positions,
            ) {
                prev.union(positions.to_set())
            } else {
                prev
            },
            ReservationOp::Release { order } => if order == o {
                Set::empty()
            } else {
                prev
            },
        }
    }
}

/// Reservation conservation: after any sequence of reserve and release
/// steps, an output is tagged with an order exactly when that order holds
/// it, and no output is held by two orders at once.
pub proof fn lemma_reservation_conservation(s: Seq<CoinView>, ops: Seq<ReservationOp>)
    ensures
        replay(s, ops).len() == s.len(),
        forall|i: int, o: Seq<char>|
            0 <= i < s.len() ==> (replay(s, ops)[i].reserve == Some(o) <==> #[trigger] claimed(
                s,
                ops,
                o,
            ).contains(i)),
        forall|o: Seq<char>, i: int| #[trigger] claimed(s, ops, o).contains(i) ==> 0 <= i < s.len(),
        forall|i: int, o1: Seq<char>, o2: Seq<char>|
            #[trigger] claimed(s, ops, o1).contains(i) && #[trigger] claimed(s, ops, o2).contains(i)
                ==> o1 == o2,
    decreases ops.len(),
{
    if ops.len() > 0 {
        let d = ops.drop_last();
        lemma_reservation_conservation(s, d);
        let prev = replay(s, d);
        match ops.last() {
            ReservationOp::Reserve { order, positions } => {
                if can_reserve(prev, positions) {
                    assert(replay(s, ops) == reserved(prev, positions, order));
                    assert forall|o: Seq<char>| #[trigger] claimed(s, ops, o) == (if order == o {
                        claimed(s, d, o).union(positions.to_set())
                    } else {
                        claimed(s, d, o)
                    }) by {}
                    assert forall|i: int, o: Seq<char>| 0 <= i < s.len() implies (replay(
                        s,
                        ops,
                    )[i].reserve == Some(o) <==> #[trigger] claimed(s, ops, o).contains(i)) by {
                        assert(positions.to_set().contains(i) == positions.contains(i));
                        assert(claimed(s, ops, o) == (if order == o {
                            claimed(s, d, o).union(positions.to_set())
                        } else {
                            claimed(s, d, o)
                        }));
                        if positions.contains(i) {
                            let w = choose|w: int| 0 <= w < positions.len() && positions[w] == i;
                            assert(prev[positions[w]].reserve is None);
                            assert(!claimed(s, d, o).contains(i));
                        }
                    }
                    assert forall|o: Seq<char>, i: int| #[trigger]
                        claimed(s, ops, o).contains(i) implies 0 <= i < s.len() by {
                        assert(claimed(s, ops, o) == (if order == o {
                            claimed(s, d, o).union(positions.to_set())
                        } else {
                            claimed(s, d, o)
                        }));
                        assert(positions.to_set().contains(i) == positions.contains(i));
                        if positions.contains(i) {
                            let w = choose|w: int| 0 <= w < positions.len() && positions[w] == i;
                            assert(0 <= positions[w] < prev.len());
                        }
                    }
                } else {
                    assert(replay(s, ops) == prev);
                    assert forall|o: Seq<char>| #[trigger] claimed(s, ops, o) == claimed(s, d, o) by {}
                }
            },
            ReservationOp::Release { order } => {
                assert(replay(s, ops) == released(prev, order));
                assert forall|o: Seq<char>| #[trigger] claimed(s, ops, o) == (if order == o {
                    Set::<int>::empty()
                } else {
                    claimed(s, d, o)
                }) by {}
            },
        }
    }
}

/// Reconciliation is idempotent: resynchronizing a second time with the
/// same listing leaves the ledger's content as the first time left it, and
/// an output absent from the listing is gone along with its reservation.
pub proof fn lemma_reconcile_idempotent(
    l0: Seq<CoinView>,
    u: Seq<ItemView>,
    l1: Seq<CoinView>,
    l2: Seq<CoinView>,
)
    requires
        forall|k: OutKey| #[trigger] lookup(l1, k) == resynced(l0, u, k),
        forall|k: OutKey| #[trigger] lookup(l2, k) == resynced(l1, u, k),
    ensures
        coin_map(l2) == coin_map(l1),
        forall|k: OutKey| first_confirmed(u, k) is None ==> !(#[trigger] coin_map(l1).contains_key(k)),
{
    assert forall|k: OutKey| #[trigger] lookup(l2, k) == lookup(l1, k) by {
        assert(lookup(l1, k) == resynced(l0, u, k));
    }
    assert(coin_map(l2) =~= coin_map(l1));
}

} // verus!
