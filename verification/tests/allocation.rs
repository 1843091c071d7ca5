use lib::allocator::{
    address_notice, allocation_notice, copy_len, mapping_len, realloc_plan, release_notice,
    release_region, resize_notice, user_address, ReallocPlan, HEADER_SIZE,
};
use lib::output::STDOUT;

#[test]
fn mapping_holds_the_header() {
    assert_eq!(HEADER_SIZE, 8);
    assert_eq!(mapping_len(100), 108);
    assert_eq!(mapping_len(0), 8);
}

#[test]
fn user_address_skips_the_header() {
    assert_eq!(user_address(0x7000_0000), 0x7000_0008);
}

#[test]
fn release_gives_back_the_mapping() {
    let base = 0x7f00_0000_0000;
    let size = 4096;
    let addr = user_address(base);
    assert_eq!(release_region(addr, size), Some((base, mapping_len(size))));
}

#[test]
fn release_of_null_does_nothing() {
    assert_eq!(release_region(0, 1234), None);
}

#[test]
fn realloc_plans() {
    assert_eq!(realloc_plan(0x1008, 0), ReallocPlan::Release);
    assert_eq!(realloc_plan(0, 16), ReallocPlan::Allocate);
    assert_eq!(realloc_plan(0x1008, 16), ReallocPlan::Move);
}

#[test]
fn copy_len_is_the_smaller_size() {
    assert_eq!(copy_len(10, 20), 10);
    assert_eq!(copy_len(20, 10), 10);
    assert_eq!(copy_len(7, 7), 7);
}

#[test]
fn allocation_notice_text() {
    let ws = allocation_notice(0x20);
    assert_eq!(ws.len(), 2);
    assert!(ws.iter().all(|w| w.fd == STDOUT));
    assert_eq!(ws[0].bytes, b"-----> allocating ".to_vec());
    assert_eq!(ws[1].bytes, b"0x20".to_vec());
}

#[test]
fn address_notice_text() {
    let ws = address_notice(0x1000);
    let text: Vec<u8> = ws.iter().flat_map(|w| w.bytes.clone()).collect();
    assert_eq!(text, b" address 0x1000\n".to_vec());
}

#[test]
fn release_notice_text() {
    let ws = release_notice(0x1008);
    let text: Vec<u8> = ws.iter().flat_map(|w| w.bytes.clone()).collect();
    assert_eq!(text, b"-----> freeing 0x1008\n".to_vec());
}

#[test]
fn resize_notice_text() {
    let ws = resize_notice(0, 0x30);
    assert_eq!(ws.len(), 4);
    let text: Vec<u8> = ws.iter().flat_map(|w| w.bytes.clone()).collect();
    assert_eq!(text, b"0x0 0x30\n".to_vec());
}

#[test]
fn release_notice_of_null_is_silent() {
    assert!(release_notice(0).is_empty());
}
