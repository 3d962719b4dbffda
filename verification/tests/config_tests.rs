use buffett_core::bench_args::num_recv_sockets;
use buffett_core::fullnode_config::{Config, IpAddress, SocketAddress};

fn config(use_public_address: bool, use_local_address: bool) -> Config {
    Config {
        bind_port_or_address: Some("8001".to_string()),
        use_public_address,
        use_local_address,
        identity_pkcs8: vec![1, 2, 3],
    }
}

fn ip(addr: SocketAddress) -> IpAddress {
    addr.ip
}

fn v4(a: IpAddress) -> [u8; 4] {
    match a {
        IpAddress::V4(o) => o,
        IpAddress::V6(_) => panic!("expected a version 4 address"),
    }
}

#[test]
fn bind_addr_keeps_named_address() {
    let named = SocketAddress { ip: IpAddress::V4([0, 0, 0, 0]), port: 8001 };
    let addr = config(false, false).bind_addr(named, None, None);
    assert_eq!(v4(ip(addr)), [0, 0, 0, 0]);
    assert_eq!(addr.port, 8001);
}

#[test]
fn bind_addr_local_address() {
    let named = SocketAddress { ip: IpAddress::V4([0, 0, 0, 0]), port: 8001 };
    let addr = config(false, true).bind_addr(named, Some(IpAddress::V4([10, 0, 0, 5])), None);
    assert_eq!(v4(ip(addr)), [10, 0, 0, 5]);
    assert_eq!(addr.port, 8001);
}

#[test]
fn bind_addr_public_overrides_local() {
    let named = SocketAddress { ip: IpAddress::V4([0, 0, 0, 0]), port: 9000 };
    let addr = config(true, true).bind_addr(
        named,
        Some(IpAddress::V4([10, 0, 0, 5])),
        Some(IpAddress::V4([52, 1, 2, 3])),
    );
    assert_eq!(v4(ip(addr)), [52, 1, 2, 3]);
    assert_eq!(addr.port, 9000);
}

#[test]
fn config_equality() {
    assert_eq!(config(true, false), config(true, false));
    assert_ne!(config(true, false), config(false, false));
}

#[test]
fn recv_sockets_from_argument() {
    assert_eq!(num_recv_sockets("8"), Some(8));
    assert_eq!(num_recv_sockets("+12"), Some(12));
    assert_eq!(num_recv_sockets("0"), Some(1));
    assert_eq!(num_recv_sockets("007"), Some(7));
    assert_eq!(num_recv_sockets("x"), None);
    assert_eq!(num_recv_sockets(""), None);
    assert_eq!(num_recv_sockets("-3"), None);
    assert_eq!(num_recv_sockets(" 3"), None);
    assert_eq!(num_recv_sockets("99999999999999999999999999"), None);
}
