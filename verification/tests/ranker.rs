use rust_dns::compression::CompressedName;
use rust_dns::net::IpAddress;
use rust_dns::server_info::{get_best_server, score_server, sort_server_list, ServerInfo};

#[test]
fn server_info_test_decompress_domain() {
    let message = [
        1, b'f', 3, b'i', b's', b'i', 4, b'a', b'r', b'p', b'a', 0, 3, b'f', b'o', b'o',
        0b11000000, 0, 0,
    ];
    let name = CompressedName(vec![message[12..12 + 4].to_vec(), message[..11].to_vec()]); // foo.fisi.arpa

    let server = ServerInfo { name, ip: None };
    let target = [1, b'f', 4, b'a', b'r', b'p', b'a']; // f.arpa
    let score = score_server(&server, &target);
    assert_eq!(score, 1);

    let target = [4, b'f', b'i', b's', b'i', 4, b'a', b'r', b'p', b'a']; // fisi.arpa
    let score = score_server(&server, &target);
    assert_eq!(score, 2);

    let target = [
        3, b'f', b'o', b'o', 4, b'f', b'i', b's', b'i', 4, b'a', b'r', b'p', b'a',
    ]; // fisi.arpa
    let score = score_server(&server, &target);
    assert_eq!(score, 2);
}

fn named(name: &[u8], ip: u32) -> ServerInfo {
    ServerInfo {
        name: CompressedName(vec![name.to_vec()]),
        ip: Some(IpAddress::V4(ip)),
    }
}

#[test]
fn test_suffix_server_scores_highest() {
    // The full-suffix match outranks servers for sibling zones.
    let target = [3, b'w', b'w', b'w', 2, b'e', b'x', 3, b'c', b'o', b'm', 0];
    let exact = named(&[2, b'e', b'x', 3, b'c', b'o', b'm', 0], 1);
    let sibling = named(&[2, b'n', b'o', 3, b'c', b'o', b'm', 0], 2);
    let unrelated = named(&[3, b'o', b'r', b'g', 0], 3);
    let s_exact = score_server(&exact, &target);
    let s_sibling = score_server(&sibling, &target);
    let s_unrelated = score_server(&unrelated, &target);
    assert!(s_exact >= s_sibling);
    assert!(s_exact >= s_unrelated);
    assert!(s_sibling > s_unrelated);
}

#[test]
fn test_get_best_server_prefers_closest() {
    let target = [3, b'w', b'w', b'w', 2, b'e', b'x', 3, b'c', b'o', b'm', 0];
    let servers = vec![
        named(&[3, b'o', b'r', b'g', 0], 1),
        named(&[2, b'e', b'x', 3, b'c', b'o', b'm', 0], 2),
        named(&[3, b'c', b'o', b'm', 0], 3),
    ];
    assert_eq!(get_best_server(&servers, &target), 1);
}

#[test]
fn test_get_best_server_all_zero_scores() {
    let target = [2, b'n', b'o', 0];
    let servers = vec![named(&[3, b'o', b'r', b'g', 0], 1), named(&[2, b'i', b'o', 0], 2)];
    assert_eq!(get_best_server(&servers, &target), 0);
}

#[test]
fn test_sort_orders_by_score_descending() {
    let target = [3, b'w', b'w', b'w', 2, b'e', b'x', 3, b'c', b'o', b'm', 0];
    let mut servers = vec![
        named(&[3, b'o', b'r', b'g', 0], 1),
        named(&[2, b'e', b'x', 3, b'c', b'o', b'm', 0], 2),
        named(&[3, b'c', b'o', b'm', 0], 3),
    ];
    sort_server_list(&mut servers, &target);
    assert_eq!(servers.len(), 3);
    assert_eq!(servers[0].ip, Some(IpAddress::V4(2)));
    assert_eq!(servers[1].ip, Some(IpAddress::V4(3)));
    assert_eq!(servers[2].ip, Some(IpAddress::V4(1)));
}

#[test]
fn test_sort_is_stable_on_equal_scores() {
    // Servers with equal score retain insertion order.
    let target = [2, b'e', b'x', 3, b'c', b'o', b'm', 0];
    let com = [3, b'c', b'o', b'm', 0];
    let mut servers = vec![
        named(&com, 1),
        named(&[3, b'o', b'r', b'g', 0], 2),
        named(&com, 3),
        named(&[2, b'i', b'o', 0], 4),
        named(&com, 5),
    ];
    sort_server_list(&mut servers, &target);
    // The three equal-scoring "com" servers come first, in their original
    // order; the two zero-scoring servers follow, in theirs.
    assert_eq!(servers[0].ip, Some(IpAddress::V4(1)));
    assert_eq!(servers[1].ip, Some(IpAddress::V4(3)));
    assert_eq!(servers[2].ip, Some(IpAddress::V4(5)));
    assert_eq!(servers[3].ip, Some(IpAddress::V4(2)));
    assert_eq!(servers[4].ip, Some(IpAddress::V4(4)));
}

#[test]
fn test_score_empty_name_is_zero() {
    let target = [3, b'c', b'o', b'm', 0];
    let empty = ServerInfo { name: CompressedName(Vec::new()), ip: None };
    assert_eq!(score_server(&empty, &target), 0);
}
