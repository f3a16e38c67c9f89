use tobdd::hash::{splitmix64, splitmix64_2, splitmix64_3};

#[test]
fn one_word_is_mixed() {
    assert_eq!(splitmix64(0), 0xe220a8397b1dcdaf);
    assert_eq!(splitmix64(1), 0x910a2dec89025cc1);
    assert_eq!(splitmix64(u64::MAX), 0xe4d971771b652c20);
}

#[test]
fn two_words_are_mixed_in_order() {
    assert_eq!(splitmix64_2(0, 0), 0x2661f84b8d2656f0);
    assert_eq!(splitmix64_2(1, 2), 0xbfba4650b02cf15c);
    assert_eq!(splitmix64_2(2, 1), 0xb54c6e070e93ef4d);
}

#[test]
fn three_words_are_mixed_in_order() {
    assert_eq!(splitmix64_3(0, 0, 0), 0x6ba9816940891bf5);
    assert_eq!(splitmix64_3(1, 0, 0), 0x19e611279c9c53a0);
    assert_eq!(splitmix64_3(1, 2, 3), 0x9819321d8a9baa63);
    assert_eq!(splitmix64_3(3, 2, 1), 0xba958d6460c043a5);
}
