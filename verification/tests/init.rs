use awrust::init::script_order;

#[test]
fn scripts_run_in_name_order() {
    let names = vec![
        b"02_second.sh".to_vec(),
        b"01_first.sh".to_vec(),
        b"03_third.sh".to_vec(),
    ];
    assert_eq!(
        script_order(names),
        vec![b"01_first.sh".to_vec(), b"02_second.sh".to_vec(), b"03_third.sh".to_vec()]
    );
}

#[test]
fn script_order_is_bytewise() {
    let names = vec![b"b".to_vec(), b"B".to_vec(), b"ab".to_vec(), b"a".to_vec(), b"a".to_vec()];
    assert_eq!(
        script_order(names),
        vec![b"B".to_vec(), b"a".to_vec(), b"a".to_vec(), b"ab".to_vec(), b"b".to_vec()]
    );
    assert!(script_order(Vec::new()).is_empty());
}
