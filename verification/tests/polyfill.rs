//! Behaviour of the byte-buffer primitives.

use bruhos::polyfill::{copy_backward, copy_forward, memmove, memset, set_bytes};

fn ascending(n: usize) -> Vec<u8> {
    (0..n).map(|i| i as u8).collect()
}

#[test]
fn set_bytes_fills_prefix_only() {
    let mut buf = ascending(8);
    set_bytes(&mut buf, 0xAB, 5);
    assert_eq!(buf, vec![0xAB, 0xAB, 0xAB, 0xAB, 0xAB, 5, 6, 7]);
}

#[test]
fn memset_truncates_to_low_byte() {
    let mut buf = vec![0u8; 4];
    memset(&mut buf, 0x1FF, 3);
    assert_eq!(buf, vec![0xFF, 0xFF, 0xFF, 0]);
    let mut buf2 = vec![9u8; 2];
    memset(&mut buf2, -1, 2);
    assert_eq!(buf2, vec![0xFF, 0xFF]);
}

#[test]
fn copy_forward_disjoint() {
    let mut buf = ascending(10);
    copy_forward(&mut buf, 6, 1, 3);
    assert_eq!(buf, vec![0, 1, 2, 3, 4, 5, 1, 2, 3, 9]);
}

#[test]
fn copy_backward_disjoint() {
    let mut buf = ascending(10);
    copy_backward(&mut buf, 0, 6, 3);
    assert_eq!(buf, vec![6, 7, 8, 3, 4, 5, 6, 7, 8, 9]);
}

#[test]
fn memmove_overlap_toward_lower_addresses() {
    let mut buf = ascending(8);
    let r = memmove(&mut buf, 0, 2, 5);
    assert_eq!(r, 0);
    assert_eq!(buf, vec![2, 3, 4, 5, 6, 5, 6, 7]);
}

#[test]
fn memmove_overlap_toward_higher_addresses() {
    let mut buf = ascending(8);
    let r = memmove(&mut buf, 2, 0, 5);
    assert_eq!(r, 2);
    assert_eq!(buf, vec![0, 1, 0, 1, 2, 3, 4, 7]);
}

#[test]
fn memmove_full_buffer_is_identity() {
    let mut buf = ascending(6);
    memmove(&mut buf, 0, 0, 6);
    assert_eq!(buf, ascending(6));
}
