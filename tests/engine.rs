use sideswap_dealer::engine::{
    Asset, Engine, Rfq, RfqSkip, SwapError, SwapState, SwapStep, SwapTerms,
};
use sideswap_dealer::ledger::UnspentItem;

const BTC: &str = "6f02";
const USDT: &str = "ce09";

fn assets() -> Vec<Asset> {
    vec![
        Asset { asset_id: BTC.to_string(), ticker: "L-BTC".to_string(), precision: 8 },
        Asset { asset_id: USDT.to_string(), ticker: "USDt".to_string(), precision: 8 },
    ]
}

fn coin(txid: &str, amount: u64) -> UnspentItem {
    UnspentItem {
        txid: txid.to_string(),
        vout: 0,
        asset: BTC.to_string(),
        amount,
        confirmations: 1,
    }
}

fn engine_with(amounts: &[u64]) -> Engine {
    let mut e = Engine::new("L-BTC".to_string(), 1000);
    let listing: Vec<UnspentItem> = amounts
        .iter()
        .enumerate()
        .map(|(i, a)| coin(&format!("tx{}", i), *a))
        .collect();
    e.new_block(&listing);
    e
}

/// Counterparty sends 100 USDt and receives L-BTC.
fn rfq(order_id: &str) -> Rfq {
    Rfq {
        order_id: order_id.to_string(),
        send_asset: USDT.to_string(),
        recv_asset: BTC.to_string(),
        send_amount: 100,
    }
}

fn tags(e: &Engine) -> Vec<Option<String>> {
    let l = e.ledger();
    (0..l.len()).map(|i| l.get(i).reserve.clone()).collect()
}

fn terms(send_amount: u64) -> SwapTerms {
    SwapTerms {
        send_asset: BTC.to_string(),
        send_amount,
        recv_asset: USDT.to_string(),
        recv_amount: 100,
    }
}

fn o(s: &str) -> Option<String> {
    Some(s.to_string())
}

#[test]
fn simple_swap() {
    let mut e = engine_with(&[40, 50, 70]);
    let r = rfq("ord1");
    let legs = e.rfq_legs(&assets(), &r).unwrap();
    assert!(legs.dealer_sends_native);
    assert_eq!(legs.other_asset, 1);

    let q = e.quote(&r, legs.dealer_sends_native, 90).unwrap();
    assert_eq!(q.order_id, "ord1");
    assert_eq!(q.send_amount, 90);
    assert_eq!(q.utxo_count, 2);
    assert!(!q.with_change);
    assert_eq!(tags(&e), vec![o("ord1"), o("ord1"), None]);

    let id = "ord1".to_string();
    let step = e
        .swap_update(&id, SwapState::ReviewOffer { accept_required: false, terms: terms(90) })
        .unwrap();
    assert!(matches!(step, SwapStep::Reviewed));

    match e.swap_update(&id, SwapState::WaitPsbt).unwrap() {
        SwapStep::Build(c) => {
            assert_eq!(c.inputs, vec![("tx0".to_string(), 0), ("tx1".to_string(), 0)]);
            assert_eq!(c.recv_amount, 100);
            assert_eq!(c.recv_asset, USDT);
            assert!(c.change.is_none());
        }
        _ => panic!("expected a construction"),
    }

    match e.swap_update(&id, SwapState::WaitSign { psbt: "cHNidP8B".to_string() }).unwrap() {
        SwapStep::Sign { psbt } => assert_eq!(psbt, "cHNidP8B"),
        _ => panic!("expected a signing step"),
    }

    match e.swap_update(&id, SwapState::Done { txid: "beef".to_string() }).unwrap() {
        SwapStep::Settled { txid } => assert_eq!(txid, "beef"),
        _ => panic!("expected settlement"),
    }
    assert_eq!(e.order_count(), 0);
    // The spent outputs stay reserved until the next block removes them.
    assert_eq!(tags(&e), vec![o("ord1"), o("ord1"), None]);
    assert_eq!(e.settled_count(), 1);
    // A block that still lists them changes nothing.
    e.new_block(&vec![coin("tx0", 40), coin("tx1", 50), coin("tx2", 70)]);
    assert_eq!(tags(&e), vec![o("ord1"), o("ord1"), None]);
    assert_eq!(e.settled_count(), 1);
    e.new_block(&vec![coin("tx2", 70)]);
    assert_eq!(e.settled_count(), 0);
    assert_eq!(e.ledger().len(), 1);
    assert_eq!(tags(&e), vec![None]);
}

#[test]
fn insufficient_funds() {
    let mut e = engine_with(&[30, 50]);
    assert_eq!(e.quote(&rfq("ord1"), true, 90).err(), Some(RfqSkip::InsufficientFunds));
    assert_eq!(e.order_count(), 0);
    assert_eq!(tags(&e), vec![None, None]);
}

#[test]
fn quote_rejected() {
    let mut e = engine_with(&[40, 50, 70]);
    e.quote(&rfq("ord1"), true, 90).unwrap();
    assert_eq!(tags(&e), vec![o("ord1"), o("ord1"), None]);
    // While ord1 holds them, the same outputs cannot back another quote.
    assert_eq!(e.quote(&rfq("ord2"), true, 90).err(), Some(RfqSkip::InsufficientFunds));
    e.quote_rejected(&"ord1".to_string());
    assert_eq!(tags(&e), vec![None, None, None]);
    assert_eq!(e.order_count(), 0);
    let q = e.quote(&rfq("ord2"), true, 90).unwrap();
    assert_eq!(q.utxo_count, 2);
    assert_eq!(tags(&e), vec![o("ord2"), o("ord2"), None]);
}

#[test]
fn mid_flight_failure() {
    let mut e = engine_with(&[40, 50, 70]);
    let id = "ord1".to_string();
    e.quote(&rfq("ord1"), true, 90).unwrap();
    e.swap_update(&id, SwapState::ReviewOffer { accept_required: false, terms: terms(90) })
        .unwrap();
    e.swap_update(&id, SwapState::WaitPsbt).unwrap();
    let step = e.swap_update(&id, SwapState::WaitSign { psbt: "p".to_string() }).unwrap();
    assert!(matches!(step, SwapStep::Sign { .. }));
    // Signing fails: the process ends. After the restart the ledger is
    // rebuilt from the wallet's listing, with no reservation left.
    drop(e);
    let mut e = Engine::new("L-BTC".to_string(), 1000);
    e.new_block(&vec![coin("tx0", 40), coin("tx1", 50), coin("tx2", 70)]);
    assert_eq!(tags(&e), vec![None, None, None]);
    assert_eq!(e.quote(&rfq("ord2"), true, 90).unwrap().utxo_count, 2);
}

#[test]
fn failed_swap_releases_reservations() {
    let mut e = engine_with(&[40, 50, 70]);
    e.quote(&rfq("ord1"), true, 90).unwrap();
    let step = e
        .swap_update(&"ord1".to_string(), SwapState::Failed { reason: "timeout".to_string() })
        .unwrap();
    assert!(matches!(step, SwapStep::Failed));
    assert_eq!(tags(&e), vec![None, None, None]);
    assert_eq!(e.order_count(), 0);
}

#[test]
fn change_is_owed_when_selection_overshoots() {
    let mut e = engine_with(&[40, 70]);
    let q = e.quote(&rfq("ord1"), true, 60).unwrap();
    assert_eq!(q.utxo_count, 1);
    assert!(q.with_change);
    let id = "ord1".to_string();
    e.swap_update(&id, SwapState::ReviewOffer { accept_required: false, terms: terms(60) })
        .unwrap();
    match e.swap_update(&id, SwapState::WaitPsbt).unwrap() {
        SwapStep::Build(c) => {
            assert_eq!(c.inputs, vec![("tx1".to_string(), 0)]);
            assert_eq!(c.change, Some((10, BTC.to_string())));
        }
        _ => panic!("expected a construction"),
    }
}

#[test]
fn withdrawn_rfq() {
    let mut e = engine_with(&[40, 50, 70]);
    e.quote(&rfq("ord1"), true, 90).unwrap();
    e.rfq_removed(&"ord1".to_string(), true);
    assert_eq!(e.order_count(), 1);
    assert_eq!(tags(&e), vec![o("ord1"), o("ord1"), None]);
    e.rfq_removed(&"ord1".to_string(), false);
    assert_eq!(e.order_count(), 0);
    assert_eq!(tags(&e), vec![None, None, None]);
}

#[test]
fn rfq_leg_errors() {
    let e = engine_with(&[]);
    let mut r = rfq("x");
    r.send_asset = "ffff".to_string();
    assert_eq!(e.rfq_legs(&assets(), &r).err(), Some(RfqSkip::UnknownAsset));
    let mut r = rfq("x");
    r.send_asset = BTC.to_string();
    assert_eq!(e.rfq_legs(&assets(), &r).err(), Some(RfqSkip::NoNativeLeg));
    let mut r = rfq("x");
    r.recv_asset = USDT.to_string();
    assert_eq!(e.rfq_legs(&assets(), &r).err(), Some(RfqSkip::NoNativeLeg));
    // Dealer buys the native asset and delivers USDt.
    let r = Rfq {
        order_id: "x".to_string(),
        send_asset: BTC.to_string(),
        recv_asset: USDT.to_string(),
        send_amount: 5,
    };
    let legs = e.rfq_legs(&assets(), &r).unwrap();
    assert!(!legs.dealer_sends_native);
    assert_eq!(legs.other_asset, 1);
}

#[test]
fn quote_skips() {
    let mut e = engine_with(&[40, 50, 70]);
    assert_eq!(e.quote(&rfq("a"), true, 1001).err(), Some(RfqSkip::TooLarge));
    let mut big = rfq("a");
    big.send_amount = 1001;
    assert_eq!(e.quote(&big, false, 10).err(), Some(RfqSkip::TooLarge));
    assert!(e.quote(&big, true, 10).is_ok());
    assert_eq!(e.quote(&rfq("a"), true, 10).err(), Some(RfqSkip::DuplicateOrder));
    assert_eq!(e.order_count(), 1);
}

#[test]
fn swap_errors() {
    let mut e = engine_with(&[40, 50, 70]);
    let id = "ord1".to_string();
    assert_eq!(
        e.swap_update(&id, SwapState::WaitPsbt).err(),
        Some(SwapError::UnknownOrder)
    );
    e.quote(&rfq("ord1"), true, 90).unwrap();
    assert_eq!(
        e.swap_update(&id, SwapState::WaitPsbt).err(),
        Some(SwapError::TermsMissing)
    );
    assert_eq!(
        e.swap_update(&id, SwapState::ReviewOffer { accept_required: true, terms: terms(90) })
            .err(),
        Some(SwapError::AcceptRequired)
    );
    assert_eq!(
        e.swap_update(&id, SwapState::ReviewOffer { accept_required: false, terms: terms(91) })
            .err(),
        Some(SwapError::TermsMismatch)
    );
    let mut t = terms(90);
    t.send_asset = USDT.to_string();
    assert_eq!(
        e.swap_update(&id, SwapState::ReviewOffer { accept_required: false, terms: t }).err(),
        Some(SwapError::TermsMismatch)
    );
    assert_eq!(e.order_count(), 1);
}
