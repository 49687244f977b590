use gossip_nodes::log::{get_entry_key, get_offset_key};
use gossip_nodes::text::u64_to_string;

#[test]
fn decimal_numerals() {
    assert_eq!(u64_to_string(0), "0");
    assert_eq!(u64_to_string(7), "7");
    assert_eq!(u64_to_string(10), "10");
    assert_eq!(u64_to_string(1234567890), "1234567890");
    assert_eq!(u64_to_string(u64::MAX), "18446744073709551615");
}

#[test]
fn log_keys() {
    assert_eq!(get_offset_key("k1"), "offset-k1");
    assert_eq!(get_entry_key("k1", 12), "entries-k1-12");
    assert_eq!(get_entry_key("a-b", 0), "entries-a-b-0");
}

#[test]
fn entry_keys_are_distinct() {
    assert_ne!(get_entry_key("a-1", 2), get_entry_key("a", 12));
    assert_ne!(get_entry_key("a", 1), get_entry_key("a", 10));
    assert_ne!(get_offset_key("entries"), get_entry_key("", 0));
}
