use hat::memory_protector::find_protection;
use hat::memory_protector::page_span;
use hat::memory_protector::protection_bits;
use hat::memory_protector::MemoryProtector;
use hat::process::MapEntry;
use hat::protection::Protection;

#[test]
fn pages_of_a_range() {
    assert_eq!(page_span(0x1234, 0x10, 0x1000), (0x1000, 0x1000));
    assert_eq!(page_span(0x1ff0, 0x20, 0x1000), (0x1000, 0x2000));
    assert_eq!(page_span(0x3000, 0x1000, 0x1000), (0x3000, 0x1000));
}

#[test]
fn rights_in_the_map() {
    let maps = [MapEntry { begin: 0x1000, end: 0x2000, prot: 5 }, MapEntry { begin: 0x2000, end: 0x3000, prot: 3 }];
    assert_eq!(find_protection(&maps, 0x1800), Some(5));
    assert_eq!(find_protection(&maps, 0x2000), Some(3));
    assert_eq!(find_protection(&maps, 0x5000), None);
}

#[test]
fn rights_to_ask_for() {
    assert_eq!(protection_bits(Protection::read() | Protection::write()), 3);
    assert_eq!(protection_bits(Protection::execute()), 4);
    assert_eq!(protection_bits(Protection::empty()), 0);
}

#[test]
fn restores_once() {
    let mut p = MemoryProtector::new(0x1000, 0x10, Some(5));
    assert!(p.is_set());
    assert_eq!(p.address(), 0x1000);
    assert_eq!(p.size(), 0x10);
    assert_eq!(p.restore(), Some((0x1000, 0x10, 5)));
    assert!(!p.is_set());
    assert_eq!(p.restore(), None);
    let mut q = MemoryProtector::new(0x2000, 0x20, None);
    assert!(!q.is_set());
    assert_eq!(q.restore(), None);
}
