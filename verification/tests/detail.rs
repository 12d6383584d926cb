use dht::detail::{
    lower_bound, read_v4_address, read_v4_socket_address, read_v6_address,
    read_v6_socket_address, write_address, write_socket_addr, IpAddress, SocketAddress,
};
use dht::clamp;

#[test]
fn compact_forms() {
    let v4 = SocketAddress::new(IpAddress::V4([192, 168, 1, 2]), 6881);
    let mut out = vec![0xaa];
    write_socket_addr(&mut out, &v4);
    assert_eq!(vec![0xaa, 192, 168, 1, 2, 0x1a, 0xe1], out);
    assert_eq!(Some(v4), read_v4_socket_address(&out[1..]));
    assert_eq!(None, read_v4_socket_address(&out[2..]));
    assert_eq!(Some(IpAddress::V4([192, 168, 1, 2])), read_v4_address(&out[1..]));
    assert_eq!(None, read_v4_address(&out[4..]));

    let v6 = SocketAddress::new(
        IpAddress::V6([1, 2, 3, 4, 5, 6, 7, 8, 9, 10, 11, 12, 13, 14, 15, 16]),
        65535,
    );
    let mut out = vec![];
    write_socket_addr(&mut out, &v6);
    assert_eq!(18, out.len());
    assert_eq!(&[15u8, 16, 0xff, 0xff][..], &out[14..]);
    assert_eq!(Some(v6), read_v6_socket_address(&out));
    assert_eq!(None, read_v6_socket_address(&out[..17]));
    assert_eq!(Some(v6.ip()), read_v6_address(&out));
    assert_eq!(None, read_v6_address(&out[..15]));
    let mut only = vec![];
    write_address(&mut only, &v6.ip());
    assert_eq!(&out[..16], &only[..]);
}

#[test]
fn addresses_are_ordered() {
    let a = IpAddress::V4([10, 0, 0, 1]);
    let b = IpAddress::V4([10, 0, 1, 0]);
    let c = IpAddress::V6([0; 16]);
    assert!(a.lt(&b));
    assert!(!b.lt(&a));
    assert!(b.lt(&c));
    assert!(!c.lt(&a));
    assert!(a.same(&a));
    assert!(!a.same(&b));
    assert!(a.is_ipv4() && !a.is_ipv6());
    assert!(c.is_ipv6() && !c.is_ipv4());
    assert_eq!(IpAddress::V4([127, 0, 0, 1]), IpAddress::localhost());
    let p = SocketAddress::new(a, 80);
    let q = SocketAddress::new(a, 81);
    let r = SocketAddress::new(b, 1);
    assert!(p.lt(&q));
    assert!(q.lt(&r));
    assert!(!r.lt(&p));
    assert!(p.same(&p));
    assert!(!p.same(&q));
    assert_eq!(80, p.port());
    assert!(p.is_ipv4() && !p.is_ipv6());
}

#[test]
fn lower_bound_stops_at_the_first_smaller_item() {
    assert_eq!(0, lower_bound(&[], 5));
    assert_eq!(3, lower_bound(&[9, 7, 5, 3, 1], 5));
    assert_eq!(0, lower_bound(&[1, 2, 3], 5));
    assert_eq!(3, lower_bound(&[7, 8, 9], 5));
}

#[test]
fn clamp_limits() {
    assert_eq!(5, clamp(5, 0, 10));
    assert_eq!(0, clamp(0, 0, 10));
    assert_eq!(10, clamp(11, 0, 10));
    assert_eq!(3, clamp(1, 3, 10));
    assert_eq!(4, clamp(9, 4, 4));
}
