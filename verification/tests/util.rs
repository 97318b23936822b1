//! Behaviour of the integer helpers.

use bruhos::mm::PAGE_SIZE;

#[test]
fn div_up_exact_values() {
    assert_eq!(bruhos::util::div_up(0, 1), 0);
    assert_eq!(bruhos::util::div_up(0, 8), 0);
    assert_eq!(bruhos::util::div_up(7, 8), 1);
    assert_eq!(bruhos::util::div_up(8, 8), 1);
    assert_eq!(bruhos::util::div_up(9, 8), 2);
    assert_eq!(bruhos::util::div_up(0x200000, PAGE_SIZE), 512);
    assert_eq!(bruhos::util::div_up(0x200001, PAGE_SIZE), 513);
}

#[test]
fn div_up_large_values() {
    assert_eq!(bruhos::util::div_up(usize::MAX, 1), usize::MAX);
    assert_eq!(bruhos::util::div_up(usize::MAX, usize::MAX), 1);
    assert_eq!(bruhos::util::div_up(usize::MAX - 1, usize::MAX), 1);
}

#[test]
fn mm_div_up_agrees() {
    assert_eq!(bruhos::mm::div_up(513, 8), 65);
    assert_eq!(bruhos::mm::div_up(512, 8), 64);
    assert_eq!(bruhos::mm::div_up(1, PAGE_SIZE), 1);
}
