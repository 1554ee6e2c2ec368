use pai_sho::addr::{IpAddr, Ipv4Addr};
use pai_sho::surface::{
    allocate, allocate_in, command_failure, ensure_addr, remove_addr, strip_block, sync_hosts, Platform, SurfaceStore, HOSTS_BEGIN,
    TUN_BASE,
};

fn ip(host: u8) -> IpAddr {
    IpAddr::V4(Ipv4Addr::new(127, 0, 1, host))
}

#[test]
fn allocate_skips_taken() {
    let taken = vec![ip(2), ip(3), ip(5)];
    assert_eq!(allocate(&taken).unwrap(), ip(4));
}

#[test]
fn allocate_from_empty_starts_at_two() {
    assert_eq!(allocate(&[]).unwrap(), ip(2));
}

#[test]
fn allocate_errors_when_range_is_full() {
    let taken: Vec<IpAddr> = (2u8..=254).map(ip).collect();
    assert!(allocate(&taken).is_err());
}

#[test]
fn stock_loopback_is_never_touched() {
    // ensure/remove on 127.0.0.1 are no-ops that always succeed, with no
    // privilege and no ifconfig call.
    let lo = IpAddr::V4(Ipv4Addr::new(127, 0, 0, 1));
    for platform in [Platform::Linux, Platform::MacOs, Platform::Other] {
        assert_eq!(ensure_addr(platform, lo).unwrap(), None);
        assert_eq!(remove_addr(platform, lo), None);
    }
}

#[test]
fn hosts_block_roundtrip() {
    let after = sync_hosts(
        "127.0.0.1 localhost\n",
        &[(ip(2), "broker".into()), (ip(3), "ndyg".into())],
    );
    assert!(after.contains("127.0.0.1 localhost"));
    assert!(after.contains("127.0.1.2\tbroker"));
    assert!(after.contains("127.0.1.3\tndyg"));

    // A resync replaces the block rather than stacking a second one.
    let after = sync_hosts(&after, &[(ip(2), "broker".into())]);
    assert_eq!(after.matches(HOSTS_BEGIN).count(), 1);
    assert!(after.contains("127.0.1.2\tbroker"));
    assert!(!after.contains("ndyg"));

    // Emptying removes the block and leaves the rest intact.
    let after = sync_hosts(&after, &[]);
    assert!(!after.contains(HOSTS_BEGIN));
    assert!(after.contains("127.0.0.1 localhost"));
    assert_eq!(after, "127.0.0.1 localhost\n");
}

#[test]
fn a_whole_hosts_file() {
    let after = sync_hosts("a\nb", &[(ip(9), "x".into())]);
    assert_eq!(
        after,
        "a\nb\n# BEGIN pai-sho (managed, do not edit)\n127.0.1.9\tx\n# END pai-sho\n"
    );
    assert_eq!(sync_hosts("", &[]), "");
}

#[test]
fn a_block_that_never_ends_goes_to_the_end() {
    assert_eq!(
        strip_block("a\n  # BEGIN pai-sho (managed, do not edit)\nb\nc\n"),
        "a\n"
    );
    assert_eq!(strip_block("a\r\n# END pai-sho\r\nb"), "a\n# END pai-sho\nb\n");
    assert_eq!(
        strip_block("# BEGIN pai-sho (managed, do not edit)\nx\n# END pai-sho \nlast"),
        "last\n"
    );
}

#[test]
fn the_error_names_the_network() {
    let taken: Vec<IpAddr> = (2u8..=254).map(ip).collect();
    assert_eq!(
        allocate(&taken).unwrap_err().to_string(),
        "no free address in 127.0.1.0/24; unproject a surface first"
    );
    assert_eq!(
        allocate_in(&taken, TUN_BASE).unwrap(),
        IpAddr::V4(Ipv4Addr::new(10, 99, 1, 2))
    );
}

#[test]
fn extra_addresses_need_an_alias_on_macos() {
    assert_eq!(ensure_addr(Platform::Linux, ip(2)).unwrap(), None);
    assert_eq!(
        ensure_addr(Platform::MacOs, ip(2)).unwrap().unwrap(),
        vec!["lo0", "alias", "127.0.1.2", "up"]
    );
    assert_eq!(
        remove_addr(Platform::MacOs, ip(2)).unwrap(),
        vec!["lo0", "-alias", "127.0.1.2"]
    );
    assert_eq!(remove_addr(Platform::Linux, ip(2)), None);
    assert_eq!(remove_addr(Platform::Other, ip(2)), None);
    assert_eq!(
        ensure_addr(Platform::Other, ip(2)).unwrap_err().to_string(),
        "projecting 127.0.1.2 needs a loopback alias, unsupported on this OS (use --ip 127.0.0.1)"
    );
}

#[test]
fn a_failed_command_says_what_it_printed() {
    let args = vec!["lo0".to_string(), "alias".to_string()];
    assert_eq!(
        command_failure("ifconfig", &args, " permission denied\n"),
        "ifconfig lo0 alias: permission denied"
    );
}

#[test]
fn surfaces_are_kept_one_for_each_key() {
    let store = SurfaceStore::new("k.surfaces.json".into());
    let one = store.add(vec![], "a", ip(2), Some("x".into()));
    let two = store.add(one, "b", ip(3), None);
    let three = store.add(two, "a", ip(4), None);
    let keys: Vec<&str> = three.iter().map(|r| r.key.as_str()).collect();
    assert_eq!(keys, vec!["b", "a"]);
    assert_eq!(three[1].ip, ip(4));
    assert_eq!(three[1].name, None);
    let left = store.remove(three, "a");
    assert_eq!(left.len(), 1);
    assert_eq!(left[0].key, "b");
    assert_eq!(store.path, "k.surfaces.json");
}

#[test]
fn addresses_print_in_their_usual_notation() {
    assert_eq!(ip(10).to_string(), "127.0.1.10");
    assert_eq!(IpAddr::V4(Ipv4Addr::new(0, 9, 99, 255)).to_string(), "0.9.99.255");
    let v6 = |s: [u16; 8]| IpAddr::V6(s).to_string();
    assert_eq!(v6([0; 8]), "::");
    assert_eq!(v6([0, 0, 0, 0, 0, 0, 0, 1]), "::1");
    assert_eq!(v6([0x2001, 0xdb8, 0, 0, 1, 0, 0, 1]), "2001:db8::1:0:0:1");
    assert_eq!(v6([0x2001, 0xdb8, 0, 1, 1, 1, 1, 1]), "2001:db8:0:1:1:1:1:1");
    assert_eq!(v6([1, 0, 0, 2, 0, 0, 0, 3]), "1:0:0:2::3");
    assert_eq!(v6([0xfe80, 0, 0, 0, 0, 0, 0, 0]), "fe80::");
    assert_eq!(v6([0, 0, 0, 0, 0, 0xffff, 0x7f00, 0x0102]), "::ffff:127.0.1.2");
    assert_eq!(v6([1, 2, 3, 4, 5, 6, 0xabcd, 0x10]), "1:2:3:4:5:6:abcd:10");
    assert!(!ip(2).same(&IpAddr::V6([0; 8])));
    assert!(IpAddr::V6([7; 8]).same(&IpAddr::V6([7; 8])));
}
