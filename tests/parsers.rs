use netmon::lsof::lsof_endpoints;
use netmon::proc_net::proc_net_endpoints;

const TCP: &str = "  sl  local_address rem_address   st tx_queue rx_queue tr tm->when retrnsmt   uid  timeout inode\n\
   0: 0100007F:0CEA 00000000:0000 0A 00000000:00000000 00:00000000 00000000  1000        0 12345 1 0000000000000000 100 0 0 10 0\n\
   1: 0F02000A:C350 5DB8D822:01BB 01 00000000:00000000 02:000A7D3C 00000000  1000        0 23456 1 0000000000000000 20 4 30 10 -1\n\
   2: 0F02000A:C351 5DB8D822:01BB 02 00000000:00000000 01:00000064 00000000  1000        0 0 1 0000000000000000 200 0 0 10 -1\n\
   3: 0F02000A:C352 0100000A:0035 01 00000000:00000000 00:00000000 00000000  1000        0 34567 1\n";

const TCP6: &str = "  sl  local_address                         remote_address                        st\n\
   0: 00000000000000000000000000000000:1F90 00000000000000000000000000000000:0000 0A\n\
   1: 0000000000000000FFFF00000F02000A:C360 0000000000000000FFFF00000200000A:0050 02\n";

fn sorted(mut x: Vec<String>) -> Vec<String> {
    x.sort();
    x
}

#[test]
fn proc_tables_give_distinct_remote_endpoints() {
    let r = proc_net_endpoints(TCP.as_bytes(), TCP6.as_bytes(), true);
    assert_eq!(
        sorted(r),
        vec!["10.0.0.1:53".to_string(), "10.0.0.2:80".to_string(), "34.216.184.93:443".to_string()]
    );
}

#[test]
fn proc_table_header_and_short_rows_are_skipped() {
    let t = "header 1.2.3.4 FFFFFFFF:0050 01\nshort row 01\n   9: 00000000:0000 0100007F:1F90 01\n";
    assert_eq!(proc_net_endpoints(t.as_bytes(), b"", true), vec!["127.0.0.1:8080".to_string()]);
}

#[test]
fn proc_table_bad_hex_is_skipped() {
    let t = "h\n 0: 0:0 XYZ00001:0050 01\n 1: 0:0 0100007F 01\n 2: 0:0 0100007F:10000 01\n 3: 0:0 +100007F:0050 01\n 4: 0:0 100007F:0050 01\n 5: 0:0 0100007F:+0050 01\n";
    assert_eq!(proc_net_endpoints(t.as_bytes(), b"", true), vec!["127.0.0.1:80".to_string()]);
}

#[test]
fn proc_wildcard_rows_of_either_width_are_skipped() {
    let t6 = "h\n 0: 00000000000000000000000000000000:1F90 00000000000000000000000000000000:0000 0A\n 1: 00000000000000000000000000000000:1F90 00000000000000000000000000000000:0050 01\n";
    let t4 = "h\n 0: 0100007F:0CEA 00000000:0050 01\n";
    assert!(proc_net_endpoints(t4.as_bytes(), t6.as_bytes(), true).is_empty());
}

#[test]
fn proc_rows_outside_established_or_opening_are_skipped() {
    let t = "h\n 0: 0F02000A:C350 01000000:0050 06\n 1: 0F02000A:C351 01000000:0050 08\n 2: 0F02000A:C352 01000000:0050 0A\n 3: 0F02000A:C353 01000000:0050 1\n";
    assert!(proc_net_endpoints(t.as_bytes(), b"", true).is_empty());
    let t = "h\n 0: 0F02000A:C350 01000000:0050 01\n";
    assert_eq!(proc_net_endpoints(t.as_bytes(), b"", true), vec!["0.0.0.1:80".to_string()]);
}

#[test]
fn proc_v4_mapped_rows_collapse_with_ipv4_rows() {
    let t4 = "h\n 0: 0F02000A:C350 5DB8D822:01BB 01\n";
    let t6 = "h\n 0: 0000000000000000FFFF00000F02000A:C351 0000000000000000FFFF00005DB8D822:01BB 01\n";
    assert_eq!(proc_net_endpoints(t4.as_bytes(), t6.as_bytes(), true), vec!["34.216.184.93:443".to_string()]);
    assert_eq!(proc_net_endpoints(b"", t6.as_bytes(), true), vec!["34.216.184.93:443".to_string()]);
}

#[test]
fn proc_native_ipv6_rows_are_read() {
    let t6 = "h\n 0: 00000000000000000000000001000000:C351 B80D0120000000000000000001000000:01BB 01\n";
    assert_eq!(proc_net_endpoints(b"", t6.as_bytes(), true), vec!["[2001:db8:0:0:0:0:0:1]:443".to_string()]);
}

#[test]
fn proc_addresses_follow_the_machine_byte_order() {
    let t = "h\n 0: 0A00000F:C350 0A000001:0035 01\n";
    assert_eq!(proc_net_endpoints(t.as_bytes(), b"", false), vec!["10.0.0.1:53".to_string()]);
    assert_eq!(proc_net_endpoints(t.as_bytes(), b"", true), vec!["1.0.0.10:53".to_string()]);
}

#[test]
fn empty_tables_give_nothing() {
    assert!(proc_net_endpoints(b"", b"", true).is_empty());
}

const LSOF: &str = "COMMAND  PID USER   FD   TYPE DEVICE SIZE/OFF NODE NAME\n\
curl    4242 me    5u  IPv4 0x1234      0t0  TCP 192.168.1.5:50000->93.184.216.34:443 (ESTABLISHED)\n\
curl    4242 me    6u  IPv4 0x1235      0t0  TCP 192.168.1.5:50001->1.1.1.1:53 (SYN_SENT)\n\
curl    4242 me    7u  IPv4 0x1236      0t0  TCP *:8080 (LISTEN)\n\
curl    4242 me    8u  IPv6 0x1237      0t0  TCP [::1]:50002->[::1]:631 (CLOSE_WAIT)\n\
curl    4242 me    9u  IPv4 0x1238      0t0  TCP 192.168.1.5:50003->93.184.216.34:443 (ESTABLISHED)\n";

#[test]
fn lsof_lists_established_and_opening_connections() {
    let r = lsof_endpoints(LSOF.as_bytes(), true);
    assert_eq!(sorted(r), vec!["1.1.1.1:53".to_string(), "93.184.216.34:443".to_string()]);
}

#[test]
fn lsof_failure_gives_nothing() {
    assert!(lsof_endpoints(LSOF.as_bytes(), false).is_empty());
}

#[test]
fn lsof_takes_text_up_to_a_second_arrow() {
    let t = "x 1 u 3u IPv6 0 0t0 TCP [fe80::1]:5->[fe80::2]:443->junk (ESTABLISHED)\n";
    assert_eq!(lsof_endpoints(t.as_bytes(), true), vec!["[fe80::2]:443".to_string()]);
}

#[test]
fn lsof_lines_without_arrow_are_skipped() {
    let t = "x 1 u 3u IPv4 0 0t0 UDP *:5353 (ESTABLISHED)\n";
    assert!(lsof_endpoints(t.as_bytes(), true).is_empty());
}
