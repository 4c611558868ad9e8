use sideswap_dealer::ledger::{InsufficientFunds, Ledger, ReserveError, UnspentItem};
use sideswap_dealer::select::select_cover;

fn item(txid: &str, vout: u32, asset: &str, amount: u64, conf: i32) -> UnspentItem {
    UnspentItem {
        txid: txid.to_string(),
        vout,
        asset: asset.to_string(),
        amount,
        confirmations: conf,
    }
}

fn ledger_of(items: Vec<UnspentItem>) -> Ledger {
    let mut l = Ledger::new();
    l.reconcile(&items);
    l
}

fn tags(l: &Ledger) -> Vec<Option<String>> {
    (0..l.len()).map(|i| l.get(i).reserve.clone()).collect()
}

#[test]
fn cover_picks_least_total() {
    assert_eq!(select_cover(&vec![40, 50, 70], 90), Some((vec![0, 1], 0)));
    assert_eq!(select_cover(&vec![40, 50, 70], 60), Some((vec![2], 10)));
    assert_eq!(select_cover(&vec![40, 50, 70], 161), None);
    assert_eq!(select_cover(&vec![], 0), Some((vec![], 0)));
}

#[test]
fn cover_tie_leaves_out_earlier_coin() {
    // {0} and {1} both total 50: the earlier coin is left out.
    assert_eq!(select_cover(&vec![50, 50], 30), Some((vec![1], 20)));
    assert_eq!(select_cover(&vec![20, 30, 50], 50), Some((vec![2], 0)));
}

#[test]
fn cover_handles_largest_amounts() {
    assert_eq!(
        select_cover(&vec![u64::MAX, u64::MAX], u64::MAX),
        Some((vec![1], 0))
    );
}

#[test]
fn reconcile_keeps_confirmed_only() {
    let l = ledger_of(vec![
        item("a", 0, "btc", 10, 1),
        item("b", 0, "btc", 20, 0),
        item("c", 1, "btc", 30, 6),
    ]);
    assert_eq!(l.len(), 2);
    assert_eq!(l.get(0).txid, "a");
    assert_eq!(l.get(1).txid, "c");
    assert_eq!(l.get(1).amount, 30);
}

#[test]
fn reconcile_twice_is_reconcile_once() {
    let items = vec![item("a", 0, "btc", 10, 1), item("b", 2, "btc", 20, 3)];
    let mut l = ledger_of(vec![item("b", 2, "btc", 20, 3), item("z", 0, "btc", 5, 1)]);
    l.reserve(&"o1".to_string(), &vec![0]).unwrap();
    l.reconcile(&items);
    assert_eq!(l.len(), 2);
    let once: Vec<_> = (0..l.len()).map(|i| (l.get(i).txid.clone(), l.get(i).reserve.clone())).collect();
    l.reconcile(&items);
    let twice: Vec<_> = (0..l.len()).map(|i| (l.get(i).txid.clone(), l.get(i).reserve.clone())).collect();
    assert_eq!(once, twice);
    assert_eq!(twice[1], ("b".to_string(), Some("o1".to_string())));
}

#[test]
fn reconcile_drops_vanished_output_with_its_reservation() {
    let mut l = ledger_of(vec![item("a", 0, "btc", 10, 1), item("b", 0, "btc", 20, 1)]);
    l.reserve(&"o1".to_string(), &vec![0]).unwrap();
    l.reconcile(&vec![item("b", 0, "btc", 20, 1)]);
    assert_eq!(l.len(), 1);
    assert_eq!(l.get(0).txid, "b");
    assert_eq!(l.get(0).reserve, None);
    // The output reappearing is tracked afresh, unreserved.
    l.reconcile(&vec![item("b", 0, "btc", 20, 1), item("a", 0, "btc", 10, 1)]);
    assert_eq!(tags(&l), vec![None, None]);
}

#[test]
fn reconcile_keeps_first_entry_of_duplicate() {
    let l = ledger_of(vec![item("a", 0, "btc", 10, 1), item("a", 0, "btc", 99, 1)]);
    assert_eq!(l.len(), 1);
    assert_eq!(l.get(0).amount, 10);
}

#[test]
fn select_filters_asset_and_reserved() {
    let mut l = ledger_of(vec![
        item("a", 0, "btc", 40, 1),
        item("b", 0, "usd", 500, 1),
        item("c", 0, "btc", 50, 1),
        item("d", 0, "btc", 70, 1),
    ]);
    let s = l.select(&"btc".to_string(), 90).unwrap();
    assert_eq!(s.positions, vec![0, 2]);
    assert_eq!(s.change, 0);
    l.reserve(&"o1".to_string(), &vec![0]).unwrap();
    let s = l.select(&"btc".to_string(), 90).unwrap();
    assert_eq!(s.positions, vec![2, 3]);
    assert_eq!(s.change, 30);
}

#[test]
fn select_insufficient_reports_total() {
    let l = ledger_of(vec![item("a", 0, "btc", 30, 1), item("b", 0, "btc", 50, 1)]);
    assert_eq!(
        l.select(&"btc".to_string(), 90).err(),
        Some(InsufficientFunds { available: 80, needed: 90 })
    );
    assert_eq!(tags(&l), vec![None, None]);
}

#[test]
fn reserve_is_all_or_nothing() {
    let mut l = ledger_of(vec![item("a", 0, "btc", 30, 1), item("b", 0, "btc", 50, 1)]);
    l.reserve(&"o1".to_string(), &vec![1]).unwrap();
    assert_eq!(
        l.reserve(&"o2".to_string(), &vec![0, 1]),
        Err(ReserveError::AlreadyReserved { position: 1 })
    );
    assert_eq!(tags(&l), vec![None, Some("o1".to_string())]);
    assert_eq!(
        l.reserve(&"o2".to_string(), &vec![0, 5]),
        Err(ReserveError::UnknownCoin { position: 5 })
    );
    assert_eq!(tags(&l), vec![None, Some("o1".to_string())]);
}

#[test]
fn release_clears_only_that_order_and_is_idempotent() {
    let mut l = ledger_of(vec![
        item("a", 0, "btc", 1, 1),
        item("b", 0, "btc", 2, 1),
        item("c", 0, "btc", 3, 1),
    ]);
    l.reserve(&"o1".to_string(), &vec![0, 2]).unwrap();
    l.reserve(&"o2".to_string(), &vec![1]).unwrap();
    l.release(&"o1".to_string());
    assert_eq!(tags(&l), vec![None, Some("o2".to_string()), None]);
    l.release(&"o1".to_string());
    assert_eq!(tags(&l), vec![None, Some("o2".to_string()), None]);
}

#[test]
fn cover_over_many_coins() {
    let amounts: Vec<u64> = (0..40u64).map(|i| 1000 + (i * 37) % 101).collect();
    let (picks, excess) = select_cover(&amounts, 5000).unwrap();
    let total: u64 = picks.iter().map(|&i| amounts[i]).sum();
    assert_eq!(total, 5000 + excess);
    assert_eq!(excess, 28);
    assert_eq!(picks.len(), 5);
    assert!(picks.windows(2).all(|w| w[0] < w[1]));
}
