use balloon::cli::parse_size;
use balloon::poll::{access_every_page, num_pages, touch_round, Balloon};

#[test]
fn one_page_touched_at_offset() {
    let size = match parse_size("4096") {
        Ok(v) => v,
        Err(_) => panic!("size"),
    };
    assert_eq!(num_pages(size, 4096), 1);
    let mut mem = vec![0u8; size];
    let offset = touch_round(&mut mem, 4096, 5000);
    assert_eq!(offset, 5000 % 4096);
    for (i, b) in mem.iter().enumerate() {
        if i == offset {
            assert_eq!(*b, offset as u8);
            assert_ne!(*b, 0);
        } else {
            assert_eq!(*b, 0);
        }
    }
}

#[test]
fn ten_kilo_leaves_tail_untouched() {
    let size = match parse_size("10k") {
        Ok(v) => v,
        Err(_) => panic!("size"),
    };
    assert_eq!(num_pages(size, 4096), 2);
    let mut mem = vec![0u8; size];
    access_every_page(&mut mem, 4096, 4095);
    let changed: Vec<usize> = (0..size).filter(|&i| mem[i] != 0).collect();
    assert_eq!(changed, vec![4095, 8191]);
    assert!(mem[2 * 4096..].iter().all(|&b| b == 0));
    assert_eq!(size - 2 * 4096, 2048);
}

#[test]
fn touch_flips_one_byte_per_page() {
    let mut mem: Vec<u8> = (0..64u32).map(|i| i as u8).collect();
    let before = mem.clone();
    access_every_page(&mut mem, 16, 3);
    for i in 0..64 {
        if i % 16 == 3 {
            assert_eq!(mem[i], before[i] ^ 3);
        } else {
            assert_eq!(mem[i], before[i]);
        }
    }
}

#[test]
fn touch_twice_restores() {
    let mut mem: Vec<u8> = (0..100u32).map(|i| (i * 7) as u8).collect();
    let before = mem.clone();
    access_every_page(&mut mem, 32, 17);
    assert_ne!(mem, before);
    access_every_page(&mut mem, 32, 17);
    assert_eq!(mem, before);
}

#[test]
fn offset_with_zero_low_byte_changes_nothing() {
    let mut mem = vec![9u8; 1024];
    access_every_page(&mut mem, 512, 256);
    assert!(mem.iter().all(|&b| b == 9));
}

#[test]
fn region_smaller_than_page_untouched() {
    assert_eq!(num_pages(100, 4096), 0);
    let mut mem = vec![0u8; 100];
    access_every_page(&mut mem, 4096, 50);
    assert!(mem.iter().all(|&b| b == 0));
    let mut empty: Vec<u8> = Vec::new();
    access_every_page(&mut empty, 1, 0);
    assert!(empty.is_empty());
}

#[test]
fn same_seed_same_offsets() {
    let mut a = Balloon::new(4096, 42);
    let mut b = Balloon::new(4096, 42);
    let mut ma = vec![0u8; 3 * 4096];
    let mut mb = vec![0u8; 3 * 4096];
    for _ in 0..20 {
        let oa = a.poll_round(&mut ma);
        let ob = b.poll_round(&mut mb);
        assert_eq!(oa, ob);
        assert!(oa < 4096);
    }
    assert_eq!(ma, mb);
}

#[test]
fn offsets_vary_between_rounds() {
    let mut bl = Balloon::new(4096, 7);
    let mut mem = vec![0u8; 4096];
    let offsets: Vec<usize> = (0..16).map(|_| bl.poll_round(&mut mem)).collect();
    assert!(offsets.iter().any(|&o| o != offsets[0]));
    assert_eq!(bl.page_size(), 4096);
}

#[test]
fn fill_writes_random_data() {
    let mut bl = Balloon::new(4096, 1);
    let mut mem = vec![0u8; 4096];
    bl.fill(&mut mem);
    assert_eq!(mem.len(), 4096);
    assert!(mem.iter().filter(|&&b| b != 0).count() > 3000);
    let mut other = Balloon::new(4096, 1);
    let mut mem2 = vec![0u8; 4096];
    other.fill(&mut mem2);
    assert_eq!(mem, mem2);
}

#[test]
fn offset_is_draw_modulo_page_size() {
    let mut mem = vec![0u8; 256];
    assert_eq!(touch_round(&mut mem, 64, 1000), 1000 % 64);
    assert_eq!(touch_round(&mut mem, 64, u64::MAX), (u64::MAX % 64) as usize);
}
