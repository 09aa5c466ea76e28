use poloniex::error::{Field, PoloError};
use poloniex::messages::{BookUpdate, RecordUpdate};
use std::str::FromStr;

fn units(x: f64) -> u64 {
    (x * 1e8).round() as u64
}

#[test]
fn json_deserialize_order_update() {
    let order = r#"[189,4811424,[["o",1,"0.12906425","0.02691207"],["t","714116",0,"0.12906425","0.05946471",1504163848]]]"#;
    if let Err(error) = BookUpdate::from_str(order) {
        panic!("failed to process json {:?}", error);
    }
}

#[test]
fn json_deserialize_order_update_err1() {
    let order = r#"[189,4811424,[["o",1,"0.02691207","bad"],["t","714116",0,"0.12906425","0.05946471",1504163848]]]"#;
    if let Ok(val) = BookUpdate::from_str(order) {
        panic!("processed wrong json {:?}", val.record_id);
    }
}

#[test]
fn json_deserialize_order_update_err2() {
    let order = r#"[189,4811424]"#;
    if let Ok(val) = BookUpdate::from_str(order) {
        panic!("processed wrong json {:?}", val.record_id);
    }
}

#[test]
fn json_deserialize_order_update_err3() {
    let order = r#"[189,4811424,[["f",1,"0.120000","0.02691207"],["t","714116",0,"0.12906425","0.05946471",1504163848]]]"#;
    if let Ok(val) = BookUpdate::from_str(order) {
        panic!("processed wrong json {:?}", val.record_id);
    }
}

#[test]
fn json_deserialize_order_update_err4() {
    let order = r#"[189,4811424,[["o",3,"0.120000","0.02691207"],["t","714116",0,"0.12906425","0.05946471",1504163848]]]"#;
    if let Ok(val) = BookUpdate::from_str(order) {
        panic!("processed wrong json {:?}", val.record_id);
    }
}

#[test]
fn json_deserialize_order_update_initial() {
    let order = r#"[189, 5130995, [["i", {"currencyPair": "BTC_BCH", "orderBook": [{"0.13161901": 0.23709568, "0.13164313": "0.17328089"}, {"0.13169621": 0.2331}]}]]]"#;
    if let Err(error) = BookUpdate::from_str(order) {
        panic!("failed to process json {:?}", error);
    }
}

#[test]
fn deserialize_order_update() {
    let order = r#"[189,4811424,[["o",1,"0.12906425","0.02691207"],["t","714116",0,"0.12906425","0.05946471",1504163848]]]"#;
    match BookUpdate::from_str(order) {
        Err(error) => panic!("failed to process json {:?}", error),
        _ => (),
    }
}

#[test]
fn trade_order_update_round_trip() {
    let order = r#"[189,4811424,[["o",1,"0.12906425","0.02691207"],["t","714116",0,"0.12906425","0.05946471",1504163848]]]"#;
    let update = BookUpdate::from_str(order).unwrap();
    assert_eq!(update.book_id, 189);
    assert_eq!(update.record_id, 4811424);
    assert_eq!(update.records.len(), 2);
    match &update.records[0] {
        RecordUpdate::BuyTotal(r) => {
            assert_eq!(r.rate, "0.12906425");
            assert_eq!(r.amount as f64 / 1e8, 0.02691207);
            assert_eq!(r.amount, units(0.02691207));
        }
        _ => panic!("expected a buy total"),
    }
    match &update.records[1] {
        RecordUpdate::Sell(t) => {
            assert_eq!(t.id, 1504163848);
            assert_eq!(t.tid, "714116");
            assert_eq!(t.rate, "0.12906425");
            assert_eq!(t.amount as f64 / 1e8, 0.05946471);
        }
        _ => panic!("expected a sell"),
    }
}

#[test]
fn bad_amount_is_a_number_error() {
    let order = r#"[189,4811424,[["o",1,"0.02691207","bad"]]]"#;
    match BookUpdate::from_str(order) {
        Err(PoloError::Number(Field::Amount)) => (),
        Err(e) => panic!("wrong error {:?}", e),
        Ok(_) => panic!("accepted a bad amount"),
    }
}

#[test]
fn frame_errors_by_kind() {
    assert!(matches!(BookUpdate::from_str("[189,"), Err(PoloError::Json(_))));
    assert!(matches!(BookUpdate::from_str("[1010]"), Err(PoloError::Shape(Field::Frame))));
    assert!(matches!(BookUpdate::from_str("[1,2,3]"), Err(PoloError::Shape(Field::Records))));
    assert!(matches!(BookUpdate::from_str(r#"[1,2,[["f",1]]]"#), Err(PoloError::UnknownTag)));
    assert!(matches!(
        BookUpdate::from_str(r#"[1,2,[["o",3,"0.1","1"]]]"#),
        Err(PoloError::UnknownDirection)
    ));
    assert!(matches!(
        BookUpdate::from_str(r#"[1,2,[["t","7",2,"0.1","1",5]]]"#),
        Err(PoloError::UnknownDirection)
    ));
    assert!(matches!(
        BookUpdate::from_str(r#"[1,2,[["i",{"currencyPair":"XXX_YYY","orderBook":[{},{}]}]]]"#),
        Err(PoloError::UnknownPair)
    ));
    assert!(matches!(
        BookUpdate::from_str(r#"[1,2,[["i",{"currencyPair":"BTC_BCH","orderBook":[{}]}]]]"#),
        Err(PoloError::Shape(Field::OrderBook))
    ));
    assert!(matches!(
        BookUpdate::from_str(r#"[70000,2,[]]"#),
        Err(PoloError::Number(Field::BookId))
    ));
    assert!(matches!(
        BookUpdate::from_str(r#"[1,"x",[]]"#),
        Err(PoloError::Number(Field::RecordId))
    ));
    assert!(matches!(
        BookUpdate::from_str(r#"[1,2,[["o",1,5,"1"]]]"#),
        Err(PoloError::Shape(Field::Rate))
    ));
    assert!(matches!(
        BookUpdate::from_str(r#"[1,2,[["o",1,"0.1"]]]"#),
        Err(PoloError::Shape(Field::Record))
    ));
}

#[test]
fn numbers_as_text_are_accepted() {
    let update = BookUpdate::from_str(r#"["189","4811424",[["o","0","0.5","2"]]]"#).unwrap();
    assert_eq!(update.book_id, 189);
    assert_eq!(update.record_id, 4811424);
    match &update.records[0] {
        RecordUpdate::SellTotal(r) => assert_eq!(r.amount, 200_000_000),
        _ => panic!("expected a sell total"),
    }
}

#[test]
fn snapshot_amount_forms_agree() {
    let a = r#"[1,2,[["i",{"currencyPair":"BTC_BCH","orderBook":[{"0.1":0.25,"0.2":"1.5"},{"0.05":2}]}]]]"#;
    let b = r#"[1,2,[["i",{"currencyPair":"BTC_BCH","orderBook":[{"0.1":"0.25","0.2":1.5},{"0.05":"2"}]}]]]"#;
    let ua = BookUpdate::from_str(a).unwrap();
    let ub = BookUpdate::from_str(b).unwrap();
    match (&ua.records[0], &ub.records[0]) {
        (RecordUpdate::Initial(x), RecordUpdate::Initial(y)) => {
            for k in ["0.1", "0.2"] {
                assert_eq!(x.sell.get(k), y.sell.get(k));
            }
            assert_eq!(x.sell.get("0.1"), Some(25_000_000));
            assert_eq!(x.sell.get("0.2"), Some(150_000_000));
            assert_eq!(x.buy.get("0.05"), y.buy.get("0.05"));
            assert_eq!(x.buy.get("0.05"), Some(200_000_000));
            assert_eq!(x.sell.len(), y.sell.len());
        }
        _ => panic!("expected snapshots"),
    }
}

#[test]
fn snapshot_zero_amount_is_not_stored() {
    let a = r#"[1,2,[["i",{"currencyPair":"USDT_BTC","orderBook":[{"0.1":0,"0.2":"1"},{}]}]]]"#;
    match &BookUpdate::from_str(a).unwrap().records[0] {
        RecordUpdate::Initial(x) => {
            assert_eq!(x.sell.get("0.1"), None);
            assert_eq!(x.sell.len(), 1);
        }
        _ => panic!("expected a snapshot"),
    }
}
