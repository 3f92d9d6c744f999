use tg_rcore_tutorial::bump::{bump_alloc, dma_alloc, DMA_POOL_SIZE, HEAP_SIZE, PAGE_SIZE};
use tg_rcore_tutorial::text::{format_decimal, hex2, nibble};

#[test]
fn bump_alloc_aligns_and_advances() {
    let base = 0x8000_0000usize;
    assert_eq!(bump_alloc(base, 0, 8, 24), Some((base, 24)));
    assert_eq!(bump_alloc(base, 24, 16, 8), Some((base + 32, 40)));
    assert_eq!(bump_alloc(base, 40, 1, 3), Some((base + 40, 43)));
    assert_eq!(bump_alloc(base + 4, 0, 4096, 10), Some((base + 4096, 4096 + 10 - 4)));
}

#[test]
fn bump_alloc_refuses_past_the_heap() {
    let base = 0x8000_0000usize;
    assert_eq!(bump_alloc(base, 0, 8, HEAP_SIZE), Some((base, HEAP_SIZE)));
    assert_eq!(bump_alloc(base, 0, 8, HEAP_SIZE + 1), None);
    assert_eq!(bump_alloc(base, HEAP_SIZE - 4, 8, 1), None);
    assert_eq!(bump_alloc(base, HEAP_SIZE - 8, 8, 8), Some((base + HEAP_SIZE - 8, HEAP_SIZE)));
}

#[test]
fn bump_alloc_saturates_at_the_top_of_memory() {
    let base = usize::MAX - 64;
    assert_eq!(bump_alloc(base, 0, 1, usize::MAX), Some((base, 64)));
}

#[test]
fn bump_blocks_do_not_overlap() {
    let base = 0x1000usize;
    let (a, n1) = bump_alloc(base, 0, 8, 13).unwrap();
    let (b, n2) = bump_alloc(base, n1, 8, 5).unwrap();
    assert!(a + 13 <= b);
    assert_eq!(b % 8, 0);
    assert_eq!(n2, b + 5 - base);
}

#[test]
fn dma_alloc_hands_out_whole_pages() {
    let pool = 0x9000_0000usize;
    assert_eq!(dma_alloc(pool, 0, 1), Some((pool, PAGE_SIZE)));
    assert_eq!(dma_alloc(pool, 10, 2), Some((pool + PAGE_SIZE, 3 * PAGE_SIZE)));
    assert_eq!(dma_alloc(pool, PAGE_SIZE, 0), Some((pool + PAGE_SIZE, PAGE_SIZE)));
}

#[test]
fn dma_alloc_refuses_when_the_pool_is_exhausted() {
    let pool = 0x9000_0000usize;
    let pages = DMA_POOL_SIZE / PAGE_SIZE;
    assert_eq!(dma_alloc(pool, 0, pages), Some((pool, DMA_POOL_SIZE)));
    assert_eq!(dma_alloc(pool, 0, pages + 1), None);
    assert_eq!(dma_alloc(pool, 1, pages), None);
}

#[test]
fn format_decimal_values() {
    assert_eq!(format_decimal(0), b"0".to_vec());
    assert_eq!(format_decimal(7), b"7".to_vec());
    assert_eq!(format_decimal(10), b"10".to_vec());
    assert_eq!(format_decimal(1234567890), b"1234567890".to_vec());
    assert_eq!(format_decimal(usize::MAX), usize::MAX.to_string().into_bytes());
}

#[test]
fn hex_digits() {
    assert_eq!(nibble(0), b'0');
    assert_eq!(nibble(9), b'9');
    assert_eq!(nibble(10), b'a');
    assert_eq!(nibble(15), b'f');
    assert_eq!(hex2(0xab), *b"ab");
    assert_eq!(hex2(0x07), *b"07");
    assert_eq!(hex2(0xf0), *b"f0");
}
