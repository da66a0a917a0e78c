use wizarding::number::Decimal;

fn decimal(text: &str) -> Decimal {
    Decimal::from_text(text).unwrap()
}

#[test]
fn decimal_reads_whole_numbers() {
    let d = decimal("120");
    assert_eq!(d.digits(), &vec![1, 2, 0]);
    assert_eq!(d.scale(), 0);
    let d = decimal("7");
    assert_eq!(d.digits(), &vec![7]);
    assert_eq!(d.scale(), 0);
}

#[test]
fn decimal_reads_fractions() {
    let d = decimal("12.5");
    assert_eq!(d.digits(), &vec![1, 2, 5]);
    assert_eq!(d.scale(), 1);
    let d = decimal("0.05");
    assert_eq!(d.digits(), &vec![5]);
    assert_eq!(d.scale(), 2);
    let d = decimal("3.14159");
    assert_eq!(d.digits(), &vec![3, 1, 4, 1, 5, 9]);
    assert_eq!(d.scale(), 5);
}

#[test]
fn decimal_is_in_lowest_terms() {
    assert_eq!(decimal("1.0"), decimal("1"));
    assert_eq!(decimal("1."), decimal("1"));
    assert_eq!(decimal("001.500"), decimal("1.5"));
    assert_eq!(decimal("10.0"), decimal("10"));
    assert_eq!(decimal("1.50").digits(), &vec![1, 5]);
    assert_eq!(decimal("1.50").scale(), 1);
    assert_eq!(decimal("100").digits(), &vec![1, 0, 0]);
    assert_eq!(decimal("100.00").digits(), &vec![1, 0, 0]);
    assert_eq!(decimal("100.00").scale(), 0);
    assert_ne!(decimal("1.5"), decimal("15"));
    assert_ne!(decimal("1.05"), decimal("1.5"));
}

#[test]
fn decimal_zero_has_no_digits() {
    for text in ["0", "000", "0.0", "0.", "00.000"] {
        let d = decimal(text);
        assert_eq!(d.digits(), &Vec::<u8>::new());
        assert_eq!(d.scale(), 0);
    }
}

#[test]
fn decimal_keeps_every_digit() {
    let text = "123456789012345678901234567890.123456789012345678901234567891";
    let d = decimal(text);
    assert_eq!(d.digits().len(), 60);
    assert_eq!(d.scale(), 30);
    assert_eq!(d.to_text(), text);
}

#[test]
fn decimal_refuses_other_texts() {
    for text in ["", ".", ".5", "1.2.3", "1..2", "-1", "+1", "1e5", "1 ", " 1", "a", "1a", "١٢", "1.٣", "1,5", "0x10"] {
        assert_eq!(Decimal::from_text(text), None, "{:?}", text);
    }
}

#[test]
fn decimal_writes_its_shortest_text() {
    assert_eq!(decimal("1.0").to_text(), "1");
    assert_eq!(decimal("12.50").to_text(), "12.5");
    assert_eq!(decimal("0.05").to_text(), "0.05");
    assert_eq!(decimal("00.5").to_text(), "0.5");
    assert_eq!(decimal("0").to_text(), "0");
    assert_eq!(decimal("0.000").to_text(), "0");
    assert_eq!(decimal("100").to_text(), "100");
    assert_eq!(decimal("0.125").to_text(), "0.125");
    assert_eq!(decimal("7.").to_text(), "7");
}

#[test]
fn decimal_text_reads_back() {
    for text in ["0", "1", "1.5", "0.05", "120", "12.0625", "000.0100", "9999999999999999999999"] {
        let d = decimal(text);
        assert_eq!(Decimal::from_text(&d.to_text()), Some(d.clone()));
    }
}

#[test]
fn decimal_text_is_the_number_it_denotes() {
    assert_eq!(decimal("1.0").to_text().parse::<f64>().unwrap(), 1.0);
    assert_eq!(decimal("12.5").to_text().parse::<f64>().unwrap(), 12.5);
    assert_eq!(decimal("0.05").to_text().parse::<f64>().unwrap(), 0.05);
    assert_eq!(decimal("3.").to_text().parse::<f64>().unwrap(), 3.0);
}

#[test]
fn decimal_clone_is_equal() {
    let d = decimal("42.125");
    assert_eq!(d.clone(), d);
}
