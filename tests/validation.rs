use cpf::cpf::{digit_value, validate_cpf};

#[test]
fn wrong_length_is_rejected() {
    assert!(!validate_cpf(""));
    assert!(!validate_cpf("123"));
    assert!(!validate_cpf("1114447773"));
    assert!(!validate_cpf("111444777350"));
    assert!(!validate_cpf("111444777351"));
}

#[test]
fn non_digit_character_is_rejected() {
    assert!(!validate_cpf("1234567890a"));
    assert!(!validate_cpf("1114447773a"));
    assert!(!validate_cpf("111444777 5"));
    assert!(!validate_cpf("a1144477735"));
    assert!(!validate_cpf("-1144477735"));
}

#[test]
fn wide_digits_are_not_digits() {
    let wide = "\u{ff11}\u{ff11}\u{ff11}\u{ff14}\u{ff14}\u{ff14}\u{ff17}\u{ff17}\u{ff17}\u{ff13}\u{ff15}";
    assert_eq!(wide.chars().count(), 11);
    assert!(!validate_cpf(wide));
}

#[test]
fn repeated_digit_is_rejected() {
    for d in 0..10u32 {
        let c = char::from_digit(d, 10).unwrap();
        let s: String = std::iter::repeat(c).take(11).collect();
        assert!(!validate_cpf(&s), "{}", s);
    }
    assert!(!validate_cpf("00000000000"));
    assert!(!validate_cpf("99999999999"));
}

#[test]
fn known_valid_cpf_is_accepted() {
    assert!(validate_cpf("11144477735"));
    let owned = String::from("11144477735");
    assert!(validate_cpf(&owned));
}

#[test]
fn changed_check_digit_is_rejected() {
    assert!(!validate_cpf("11144477736"));
    assert!(!validate_cpf("11144477725"));
    let valid: Vec<char> = "11144477735".chars().collect();
    for pos in [9usize, 10] {
        for d in '0'..='9' {
            if d == valid[pos] {
                continue;
            }
            let mut t = valid.clone();
            t[pos] = d;
            let s: String = t.into_iter().collect();
            assert!(!validate_cpf(&s), "{}", s);
        }
    }
}

#[test]
fn changed_body_digit_is_rejected() {
    assert!(!validate_cpf("11144477835"));
    assert!(!validate_cpf("21144477735"));
    assert!(!validate_cpf("11144577735"));
    let valid: Vec<char> = "11144477735".chars().collect();
    for pos in 0..11 {
        for d in '0'..='9' {
            if d == valid[pos] {
                continue;
            }
            let mut t = valid.clone();
            t[pos] = d;
            let s: String = t.into_iter().collect();
            assert!(!validate_cpf(&s), "{}", s);
        }
    }
}

#[test]
fn first_or_sixth_digit_change_can_stay_valid() {
    // the first remainder moves between 0 and 10, both giving check digit 0
    assert!(validate_cpf("90748337806"));
    assert!(validate_cpf("80748337806"));
    assert!(validate_cpf("28698692400"));
    assert!(validate_cpf("28698892400"));
}

#[test]
fn remainder_ten_expects_zero() {
    // ten times the first weighted sum of 704999622 leaves 10 modulo 11
    assert!(validate_cpf("70499962206"));
    assert!(!validate_cpf("70499962216"));
    assert!(!validate_cpf("70499962296"));
}

#[test]
fn second_remainder_ten_expects_zero() {
    // ten times the second weighted sum of 5475277206 leaves 10 modulo 11
    assert!(validate_cpf("54752772060"));
    assert!(!validate_cpf("54752772061"));
    assert!(validate_cpf("52998224725"));
    assert!(!validate_cpf("52998224726"));
}

#[test]
fn repeated_calls_agree() {
    let inputs = ["11144477735", "11144477736", "", "111.444.777-35", "00000000000"];
    for s in inputs {
        let first = validate_cpf(s);
        for _ in 0..5 {
            assert_eq!(validate_cpf(s), first);
        }
    }
}

#[test]
fn punctuation_is_not_stripped() {
    assert_eq!("111.444.777-35".len(), 14);
    assert!(!validate_cpf("111.444.777-35"));
    assert!(!validate_cpf("111444777-35"));
    assert!(!validate_cpf(" 11144477735"));
}

#[test]
fn digit_values_of_characters() {
    assert_eq!(digit_value('0'), Some(0));
    assert_eq!(digit_value('7'), Some(7));
    assert_eq!(digit_value('9'), Some(9));
    assert_eq!(digit_value('a'), None);
    assert_eq!(digit_value('/'), None);
    assert_eq!(digit_value(':'), None);
    assert_eq!(digit_value('\u{ff11}'), None);
}
