use zerokv::diagnostics::{device_name, numa_path, parent_path, Hardware};
use zerokv::gid::{auto_gid_index, gid_index, GidEntry, DEFAULT_GID_INDEX};
use zerokv::text::{
    chars_of, current_cpus_allowed, env_u64, env_usize, find_field, parse_i32, parse_u64,
    parse_usize, read_trimmed, starts_with, trim,
};

fn entry(name: &str, contents: Option<&str>) -> GidEntry {
    GidEntry { name: name.to_string(), contents: contents.map(|s| s.to_string()) }
}

const ZERO: &str = "0000:0000:0000:0000:0000:0000:0000:0000\n";
const LINK_LOCAL: &str = "fe80:0000:0000:0000:5054:00ff:fe12:3456\n";
const IPV4: &str = "0000:0000:0000:0000:0000:FFFF:0a00:0001\n";

#[test]
fn trimming_goes_by_unicode_white_space() {
    for s in ["", " ", "a", " a ", "\t a b \r\n", "\u{3000}x\u{85}", "\u{200B}y\u{2029}", "\u{A0}\u{1680}"] {
        assert_eq!(trim(s), s.trim());
    }
    for c in (0u32..0x4000).filter_map(char::from_u32) {
        let s = format!("{c}x{c}");
        assert_eq!(trim(&s), s.trim());
    }
    assert_eq!(chars_of("aé中"), vec!['a', 'é', '中']);
}

#[test]
fn numbers_are_read_as_the_standard_library_reads_them() {
    for s in [
        "", "+", "-", "0", "-0", "+0", "00017", "+7", "-7", "7 ", " 7", "7a", "1_000", "--1", "+-1",
        "2147483647", "2147483648", "-2147483648", "-2147483649", "18446744073709551615",
        "18446744073709551616", "99999999999999999999999", "000000000000000000000000000001", "١",
    ] {
        assert_eq!(parse_i32(s), s.parse::<i32>().ok(), "{s}");
        assert_eq!(parse_u64(s), s.parse::<u64>().ok(), "{s}");
        assert_eq!(parse_usize(s), s.parse::<usize>().ok(), "{s}");
    }
}

#[test]
fn variables_have_defaults() {
    assert_eq!(env_u64(None, 5), 5);
    assert_eq!(env_u64(Some("12"), 5), 12);
    assert_eq!(env_u64(Some("twelve"), 5), 5);
    assert_eq!(env_usize(None, 9), 9);
    assert_eq!(env_usize(Some("3"), 9), 3);
    assert_eq!(env_usize(Some("-3"), 9), 9);
}

#[test]
fn files_are_trimmed() {
    assert_eq!(read_trimmed(None), None);
    assert_eq!(read_trimmed(Some(" \n")), None);
    assert_eq!(read_trimmed(Some("eth0\n")), Some("eth0".to_string()));
}

#[test]
fn a_field_is_found_on_its_line() {
    let status = "Name:\tbench\nCpus_allowed:\tff\nCpus_allowed_list:\t0-7 \nCpus_allowed_list:\t9\n";
    assert_eq!(current_cpus_allowed(Some(status)), Some("0-7".to_string()));
    assert_eq!(current_cpus_allowed(Some("Name:\tx\n")), None);
    assert_eq!(current_cpus_allowed(Some("x Cpus_allowed_list:\t1\n")), None);
    assert_eq!(current_cpus_allowed(Some("")), None);
    assert_eq!(current_cpus_allowed(None), None);
    assert_eq!(find_field("a:1\r\nb:2", "b:"), Some("2".to_string()));
    assert_eq!(find_field("a:1\r\nb:2", "a:"), Some("1".to_string()));
    assert_eq!(find_field("a:", "a:"), Some("".to_string()));
}

#[test]
fn an_ipv4_gid_is_preferred() {
    let entries = [
        entry("0", Some(ZERO)),
        entry("1", Some(LINK_LOCAL)),
        entry("2", Some(IPV4)),
        entry("3", Some(IPV4)),
    ];
    assert_eq!(auto_gid_index(&entries), Some(2));
    assert_eq!(auto_gid_index(&entries[..2]), Some(1));
    assert_eq!(auto_gid_index(&entries[..1]), None);
    assert_eq!(auto_gid_index(&[]), None);
}

#[test]
fn entries_without_index_or_gid_are_passed_over() {
    let entries = [
        entry("x", Some(IPV4)),
        entry("4", None),
        entry("5", Some("  \n")),
        entry("6", Some(LINK_LOCAL)),
    ];
    assert_eq!(auto_gid_index(&entries), Some(5));
    assert_eq!(auto_gid_index(&entries[..2]), None);
    assert_eq!(auto_gid_index(&entries[3..]), Some(6));
}

#[test]
fn the_environment_overrides_the_gid_index() {
    let entries = [entry("1", Some(LINK_LOCAL))];
    assert_eq!(gid_index(Some("3"), "mlx5_0", &entries), 3);
    assert_eq!(gid_index(Some("3"), "rxe0", &entries), 3);
    assert_eq!(gid_index(Some("-3"), "mlx5_0", &entries), -3);
    assert_eq!(gid_index(Some("three"), "mlx5_0", &entries), 1);
    assert_eq!(gid_index(None, "mlx5_0", &entries), 1);
    assert_eq!(gid_index(None, "mlx5_0", &[]), DEFAULT_GID_INDEX);
    assert_eq!(DEFAULT_GID_INDEX, 0);
}

#[test]
fn soft_roce_routes_by_index_zero() {
    let entries = [entry("0", Some(LINK_LOCAL)), entry("1", Some(IPV4))];
    assert_eq!(gid_index(None, "rxe0", &entries), 0);
    assert_eq!(gid_index(Some("one"), "rxe7", &entries), 0);
    assert_eq!(gid_index(None, "mlx5_0", &entries), 1);
    assert_eq!(gid_index(None, "rx", &entries), 1);
    assert!(starts_with("rxe0", "rxe") && starts_with("rxe", "rxe") && starts_with("a", ""));
    assert!(!starts_with("rx", "rxe") && !starts_with("xrxe0", "rxe"));
}

#[test]
fn the_checklist_of_a_virtual_device() {
    let nic = device_name(None);
    assert_eq!(nic, "rxe0");
    assert_eq!(parent_path(&nic), "/sys/class/infiniband/rxe0/parent");
    assert_eq!(numa_path(&nic), "/sys/class/infiniband/rxe0/device/numa_node");
    let hw = Hardware::new(nic, Some("eth0\n"), None, Some("Cpus_allowed_list:\t0-3\n"));
    assert_eq!(hw.cpulist_path(), None);
    let lines = hw.checklist(Some("0-3"));
    assert_eq!(lines.len(), 15);
    assert_eq!(lines[0], "\n====== Phase 9 Hardware Latency Checklist ===========");
    assert_eq!(lines[7], "RDMA device: rxe0, parent netdev: eth0, NUMA node: -1");
    assert_eq!(lines[8], "Current process allowed CPUs: 0-3");
    assert_eq!(
        lines[9],
        "NUMA node -1 means this device is virtual/unknown; pinning still helps migration spikes."
    );
    assert_eq!(lines[11], "  ethtool -c eth0");
    assert_eq!(lines[13], "  sudo ethtool -C eth0 rx-usecs 0");
    assert_eq!(lines[14], "=====================================================");
}

#[test]
fn the_checklist_of_a_device_on_a_node() {
    let hw = Hardware::new(device_name(Some("mlx5_0")), None, Some("1\n"), None);
    assert_eq!(hw.cpulist_path(), Some("/sys/devices/system/node/node1/cpulist".to_string()));
    let lines = hw.checklist(Some("16-31\n"));
    assert_eq!(lines.len(), 15);
    assert_eq!(lines[7], "RDMA device: mlx5_0, parent netdev: unknown, NUMA node: 1");
    assert_eq!(lines[8], "Current process allowed CPUs: unknown");
    assert_eq!(lines[9], "CPUs on NIC NUMA node 1: 16-31");
    assert_eq!(hw.checklist(None).len(), 14);
    assert_eq!(hw.checklist(Some("")).len(), 14);
}
