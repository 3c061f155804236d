use account_filter::account::Account;
use account_filter::filter::{
    AccountFilter, DigestSet, FilterParseError, MemCmp, MemCmpBytes, OwnerFilter,
};
use account_filter::parse::parse_memcmp_file;
use solana_program::pubkey::Pubkey;
use std::str::FromStr;

const TOKEN: &str = "TokenkegQfeZyiNwAJbNbGKPFXCWuBvf9Ss623VQ5DA";
const SYSTEM: &str = "11111111111111111111111111111111";

fn key_bytes(s: &str) -> Vec<u8> {
    Pubkey::from_str(s).unwrap().to_bytes().to_vec()
}

fn account(pubkey: [u8; 32], owner: &str, data_len: u64, data: Vec<u8>) -> Account {
    Account { pubkey: pubkey.to_vec(), owner: key_bytes(owner), data_len, data }
}

fn owner_only(specs: &[&str]) -> Result<AccountFilter, FilterParseError> {
    let owners: Vec<String> = specs.iter().map(|s| s.to_string()).collect();
    AccountFilter::new(&vec![], &None, &owners, &vec![])
}

#[test]
fn empty_filter_matches_every_account() {
    let f = AccountFilter::new(&vec![], &None, &vec![], &vec![]).unwrap();
    assert!(f.is_match(&account([1; 32], TOKEN, 0, vec![])));
    assert!(f.is_match(&account([2; 32], SYSTEM, 7, vec![1, 2, 3])));
}

#[test]
fn listed_pubkey_matches_whatever_owner_and_data() {
    let pk = Pubkey::new_from_array([9; 32]).to_string();
    let other = Pubkey::new_from_array([8; 32]).to_string();
    let f = AccountFilter::new(&vec![format!("{},{}", other, pk)], &None, &vec![], &vec![])
        .unwrap();
    assert_eq!(f.pubkey_filters.len(), 2);
    assert!(f.is_match(&account([9; 32], TOKEN, 3, vec![1, 2, 3])));
    assert!(f.is_match(&account([9; 32], SYSTEM, 0, vec![])));
    assert!(!f.is_match(&account([7; 32], SYSTEM, 0, vec![])));
}

#[test]
fn pubkey_file_lines_are_trimmed_and_blank_ones_skipped() {
    let pk = Pubkey::new_from_array([5; 32]).to_string();
    let content = format!("\n   \n  {}  \r\n\n", pk);
    let f = AccountFilter::new(&vec![], &Some(content), &vec![], &vec![]).unwrap();
    assert_eq!(f.pubkey_filters, vec![pk]);
    assert!(f.is_match(&account([5; 32], TOKEN, 0, vec![])));
    assert!(!f.is_match(&account([6; 32], TOKEN, 0, vec![])));
}

#[test]
fn constraints_of_one_owner_filter_are_all_required() {
    let f = owner_only(&[&format!("{},size:100", TOKEN), &format!("{},memcmp:0x07@0", TOKEN)])
        .unwrap();
    // fails the size of the first owner filter, matches the second by content
    assert!(f.is_match(&account([1; 32], TOKEN, 50, vec![7, 0])));
    // fails both
    assert!(!f.is_match(&account([1; 32], TOKEN, 50, vec![8, 0])));
    // owner differs: nothing matches
    assert!(!f.is_match(&account([1; 32], SYSTEM, 100, vec![7, 0])));
    let single = owner_only(&[&format!("{},size:100,memcmp:0x07@0", TOKEN)]).unwrap();
    assert!(!single.is_match(&account([1; 32], TOKEN, 50, vec![7, 0])));
    assert!(single.is_match(&account([1; 32], TOKEN, 100, vec![7, 0])));
}

#[test]
fn size_filter_accepts_exactly_that_length() {
    let f = owner_only(&[&format!("{},size:165", TOKEN)]).unwrap();
    assert_eq!(f.owner_filters[0].size_filter, Some(165));
    assert!(!f.is_match(&account([1; 32], TOKEN, 164, vec![])));
    assert!(!f.is_match(&account([1; 32], TOKEN, 166, vec![])));
    assert!(f.is_match(&account([1; 32], TOKEN, 165, vec![])));
}

#[test]
fn hex_memcmp_compares_bytes_at_offset() {
    let f = owner_only(&[&format!("{},memcmp:0x0601@44", TOKEN)]).unwrap();
    let mut data = vec![0u8; 46];
    data[44] = 6;
    data[45] = 1;
    assert!(f.is_match(&account([1; 32], TOKEN, 46, data.clone())));
    let mut wrong = data.clone();
    wrong[45] = 2;
    assert!(!f.is_match(&account([1; 32], TOKEN, 46, wrong)));
    assert!(!f.is_match(&account([1; 32], TOKEN, 45, data[..45].to_vec())));
    assert!(!f.is_match(&account([1; 32], TOKEN, 0, vec![])));
}

#[test]
fn base58_memcmp_compares_decoded_bytes() {
    // "2" is the base-58 digit 1
    let f = owner_only(&[&format!("{},memcmp:2@3", TOKEN)]).unwrap();
    assert!(f.is_match(&account([1; 32], TOKEN, 4, vec![9, 9, 9, 1])));
    assert!(!f.is_match(&account([1; 32], TOKEN, 4, vec![9, 9, 9, 2])));
    assert!(!f.is_match(&account([1; 32], TOKEN, 3, vec![9, 9, 9])));
}

#[test]
fn memcmp_is_match_directly() {
    let m = MemCmp { offset: 1, bytes: MemCmpBytes::One(vec![4, 5]) };
    assert!(m.is_match(&[3, 4, 5]));
    assert!(!m.is_match(&[3, 4]));
    assert!(!m.is_match(&[4, 5, 6]));
    let d = MemCmp { offset: 0, bytes: MemCmpBytes::AnyOf32(DigestSet::new(vec![vec![1; 32], vec![2; 32], vec![3; 31]])) };
    assert!(d.is_match(&[2; 40]));
    assert!(!d.is_match(&[3; 40]));
    assert!(!d.is_match(&[1; 31]));
    assert!(!d.is_match(&[3; 32]));
    let mut near = vec![2u8; 32];
    near[31] = 9;
    assert!(!d.is_match(&near));
}

#[test]
fn memcmpfile_accepts_any_listed_value() {
    let a = [0x11u8; 32];
    let b = [0x22u8; 32];
    let c = [0x33u8; 32];
    let content = format!(
        "0x{}\n\n  {}  \n0x{}\n",
        hex_string(&a),
        Pubkey::new_from_array(b),
        hex_string(&c)
    );
    let spec = format!("{},memcmpfile:/data/mints.txt@0", TOKEN);
    let paths = OwnerFilter::memcmpfile_paths(&spec);
    assert_eq!(paths.len(), 1);
    assert_eq!(paths[0].iter().collect::<String>(), "/data/mints.txt");
    let f = AccountFilter::new(&vec![], &None, &vec![spec], &vec![vec![Some(content)]]).unwrap();
    for v in [a, b, c] {
        assert!(f.is_match(&account([1; 32], TOKEN, 32, v.to_vec())));
    }
    assert!(!f.is_match(&account([1; 32], TOKEN, 32, vec![0x44; 32])));
    assert!(!f.is_match(&account([1; 32], TOKEN, 31, vec![0x11; 31])));
}

#[test]
fn parse_memcmp_file_reads_each_line() {
    let content = format!("0x{}\n{}\n", hex_string(&[0xab; 32]), Pubkey::new_from_array([1; 32]));
    let v = parse_memcmp_file(&content).unwrap();
    assert_eq!(v, vec![vec![0xab; 32], vec![1; 32]]);
    assert_eq!(parse_memcmp_file(&"0xzz".to_string()), Err(FilterParseError::InvalidMemcmpFileFilter));
}

#[test]
fn two_size_options_fail() {
    let r = owner_only(&[&format!("{},size:165,size:165", TOKEN)]);
    assert_eq!(r.err(), Some(FilterParseError::MultipleSizeFilter));
    let r = owner_only(&[&format!("{},size:1,size:2", TOKEN)]);
    assert_eq!(r.err(), Some(FilterParseError::MultipleSizeFilter));
}

#[test]
fn short_memcmpfile_value_fails() {
    let content = format!("0x{}\n0x{}\n", hex_string(&[1; 32]), hex_string(&[2; 31]));
    let spec = format!("{},memcmpfile:f@0", TOKEN);
    let r = AccountFilter::new(&vec![], &None, &vec![spec], &vec![vec![Some(content)]]);
    assert_eq!(r.err(), Some(FilterParseError::InvalidMemcmpFileFilter));
}

#[test]
fn unreadable_memcmpfile_fails() {
    let spec = format!("{},memcmpfile:f@0", TOKEN);
    let r = AccountFilter::new(&vec![], &None, &vec![spec.clone()], &vec![vec![None]]);
    assert_eq!(r.err(), Some(FilterParseError::InvalidMemcmpFileFilter));
    let r = AccountFilter::new(&vec![], &None, &vec![spec], &vec![]);
    assert_eq!(r.err(), Some(FilterParseError::InvalidMemcmpFileFilter));
}

#[test]
fn select_emits_only_the_listed_account() {
    let pk = Pubkey::new_from_array([0xaa; 32]).to_string();
    let f = AccountFilter::new(&vec![pk], &None, &vec![], &vec![]).unwrap();
    let accounts = vec![
        account([1; 32], TOKEN, 0, vec![]),
        account([0xaa; 32], TOKEN, 0, vec![]),
        account([3; 32], SYSTEM, 0, vec![]),
    ];
    assert_eq!(f.select(&accounts), vec![1]);
}

#[test]
fn syntax_errors() {
    assert_eq!(owner_only(&["Tok0n"]).err(), Some(FilterParseError::InvalidOwnerFilterSyntax));
    assert_eq!(owner_only(&[""]).err(), Some(FilterParseError::InvalidOwnerFilterSyntax));
    assert_eq!(
        owner_only(&[&format!("{},,size:1", TOKEN)]).err(),
        Some(FilterParseError::InvalidOwnerFilterSyntax)
    );
    assert_eq!(
        owner_only(&[&format!("{},size:1,", TOKEN)]).err(),
        Some(FilterParseError::InvalidOwnerFilterSyntax)
    );
}

#[test]
fn owner_must_be_a_public_key() {
    assert_eq!(owner_only(&["abc"]).err(), Some(FilterParseError::InvalidOwnerPubkey));
}

#[test]
fn owner_filter_keeps_owner_bytes() {
    let f = OwnerFilter::new(&TOKEN.to_string(), &vec![]).unwrap();
    assert_eq!(f.owner, key_bytes(TOKEN));
    assert_eq!(f.size_filter, None);
    assert!(f.memcmp_filters.is_empty());
}

#[test]
fn option_errors() {
    assert_eq!(
        owner_only(&[&format!("{},size:99999999999999999999", TOKEN)]).err(),
        Some(FilterParseError::InvalidSizeFilter)
    );
    assert_eq!(
        owner_only(&[&format!("{},memcmp:0x01@99999999999999999999", TOKEN)]).err(),
        Some(FilterParseError::InvalidOffsetMemcmpFilter)
    );
    assert_eq!(
        owner_only(&[&format!("{},memcmpfile:f@99999999999999999999", TOKEN)]).err(),
        Some(FilterParseError::InvalidOffsetMemcmpFilter)
    );
    assert_eq!(
        owner_only(&[&format!("{},lamports:5", TOKEN)]).err(),
        Some(FilterParseError::UnknownFilter)
    );
    assert_eq!(
        owner_only(&[&format!("{},memcmp:0x012@1", TOKEN)]).err(),
        Some(FilterParseError::UnknownFilter)
    );
    assert_eq!(
        owner_only(&[&format!("{},size:12a", TOKEN)]).err(),
        Some(FilterParseError::UnknownFilter)
    );
}

#[test]
fn first_refused_owner_spec_decides() {
    let r = owner_only(&[TOKEN, &format!("{},size:1,size:2", TOKEN), "abc"]);
    assert_eq!(r.err(), Some(FilterParseError::MultipleSizeFilter));
}

fn hex_string(b: &[u8]) -> String {
    b.iter().map(|x| format!("{:02x}", x)).collect()
}
