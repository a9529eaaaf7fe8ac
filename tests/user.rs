use rts_core::user::{Address, User, UserManager};

fn addr(ip: u128, port: u16) -> Address {
    Address { ip, v6: false, port }
}

#[test]
fn register_twice_gives_the_same_identity() {
    let mut m = UserManager::new();
    let a = addr(0x7f00_0001, 4000);
    let first = m.register(&a);
    let second = m.register(&a);
    assert_eq!(first, second);
}

#[test]
fn distinct_addresses_get_distinct_identities() {
    let mut m = UserManager::new();
    let a = m.register(&addr(0x7f00_0001, 4000));
    let b = m.register(&addr(0x7f00_0001, 4001));
    let c = m.register(&Address { ip: 0x7f00_0001, v6: true, port: 4000 });
    assert_eq!((a, b, c), (0, 1, 2));
    assert_eq!(m.register(&addr(0x7f00_0001, 4001)), 1);
}

#[test]
fn lookup_finds_registered_addresses() {
    let mut m = UserManager::new();
    let a = addr(0x0a00_0002, 80);
    let id = m.register(&a);
    assert_eq!(m.lookup(id), Some(a));
    assert_eq!(m.lookup(id + 1), None);
    assert!(!m.is_exhausted());
}

#[test]
fn user_keeps_identity_and_address() {
    let a = addr(1, 2);
    let u = User::new(&7, &a);
    assert_eq!(u.id, 7);
    assert_eq!(u.addr, a);
}
