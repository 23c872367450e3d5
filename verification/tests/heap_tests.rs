use cshim::heap::Heap;
use cshim::heap::BLOCK_ALIGN;
use cshim::heap::FILL_BYTE;
use cshim::ShimError;

fn fill(h: &mut Heap, p: usize, len: usize, seed: u8) {
    for i in 0..len {
        h.write_byte(p, i, seed.wrapping_add((i as u8).wrapping_mul(31)));
    }
}

fn check(h: &Heap, p: usize, len: usize, seed: u8) {
    assert_eq!(h.alloc_size(p), len);
    for i in 0..len {
        assert_eq!(h.read_byte(p, i), seed.wrapping_add((i as u8).wrapping_mul(31)));
    }
}

#[test]
fn allocate_returns_aligned_nonnull() {
    let mut h = Heap::new();
    let p = h.malloc(5).unwrap();
    assert!(p != 0);
    assert_eq!(p % BLOCK_ALIGN, 0);
    assert_eq!(h.alloc_size(p), 5);
    for i in 0..5 {
        assert_eq!(h.read_byte(p, i), FILL_BYTE);
    }
    h.free(p);
    assert!(!h.is_live(p));
}

#[test]
fn zero_size_allocations_are_distinct_and_releasable() {
    let mut h = Heap::new();
    let a = h.malloc(0).unwrap();
    let b = h.malloc(0).unwrap();
    assert!(a != 0);
    assert!(b != 0);
    assert_ne!(a, b);
    assert_eq!(h.alloc_size(a), 0);
    h.free(a);
    h.free(b);
}

#[test]
fn allocate_release_does_not_corrupt_neighbors() {
    let mut h = Heap::new();
    let a = h.malloc(16).unwrap();
    let b = h.malloc(32).unwrap();
    fill(&mut h, a, 16, 3);
    fill(&mut h, b, 32, 7);
    // Allocate and release in between, for several sizes.
    for s in [0usize, 1, 15, 16, 17, 64] {
        let c = h.malloc(s).unwrap();
        fill(&mut h, c, s, 11);
        check(&h, a, 16, 3);
        check(&h, b, 32, 7);
        h.free(c);
        check(&h, a, 16, 3);
        check(&h, b, 32, 7);
    }
    h.free(a);
    check(&h, b, 32, 7);
    h.free(b);
}

#[test]
fn grow_preserves_prefix() {
    let mut h = Heap::new();
    let p = h.malloc(10).unwrap();
    fill(&mut h, p, 10, 42);
    let q = h.realloc(p, 40).unwrap();
    assert_eq!(h.alloc_size(q), 40);
    for i in 0..10 {
        assert_eq!(h.read_byte(q, i), 42u8.wrapping_add((i as u8).wrapping_mul(31)));
    }
    for i in 10..40 {
        assert_eq!(h.read_byte(q, i), FILL_BYTE);
    }
    h.free(q);
}

#[test]
fn shrink_preserves_prefix() {
    let mut h = Heap::new();
    let p = h.malloc(32).unwrap();
    fill(&mut h, p, 32, 9);
    let q = h.realloc(p, 4).unwrap();
    assert_eq!(h.alloc_size(q), 4);
    for i in 0..4 {
        assert_eq!(h.read_byte(q, i), 9u8.wrapping_add((i as u8).wrapping_mul(31)));
    }
    h.free(q);
}

#[test]
fn grow_zero_size_block() {
    let mut h = Heap::new();
    let p = h.malloc(0).unwrap();
    let q = h.realloc(p, 8).unwrap();
    assert_eq!(h.alloc_size(q), 8);
    h.free(q);
}

#[test]
fn grow_does_not_corrupt_neighbors() {
    let mut h = Heap::new();
    let a = h.malloc(24).unwrap();
    let p = h.malloc(8).unwrap();
    fill(&mut h, a, 24, 5);
    fill(&mut h, p, 8, 17);
    let q = h.realloc(p, 100).unwrap();
    check(&h, a, 24, 5);
    for i in 0..8 {
        assert_eq!(h.read_byte(q, i), 17u8.wrapping_add((i as u8).wrapping_mul(31)));
    }
    h.free(q);
    check(&h, a, 24, 5);
    h.free(a);
}

#[test]
fn calloc_returns_zeroed_block() {
    let mut h = Heap::new();
    for (n, k) in [(0usize, 16usize), (1, 1), (3, 7), (16, 16), (5, 0)] {
        let p = h.calloc(n, k).unwrap();
        assert!(p != 0);
        assert_eq!(h.alloc_size(p), n * k);
        for i in 0..n * k {
            assert_eq!(h.read_byte(p, i), 0);
        }
        h.free(p);
    }
}

#[test]
fn release_then_allocate_same_size_reuses_region() {
    let mut h = Heap::new();
    let a = h.malloc(24).unwrap();
    let b = h.malloc(40).unwrap();
    fill(&mut h, b, 40, 13);
    h.free(a);
    let c = h.malloc(24).unwrap();
    // The freed region is handed out again ...
    assert_eq!(c, a);
    // ... without corrupting the unrelated still-live allocation.
    check(&h, b, 40, 13);
    h.free(c);
    h.free(b);
}

#[test]
fn allocation_failure_is_out_of_memory() {
    let mut h = Heap::new();
    assert_eq!(h.malloc(usize::MAX), Err(ShimError::OutOfMemory));
    assert_eq!(h.calloc(usize::MAX, 1), Err(ShimError::OutOfMemory));
    let p = h.malloc(4).unwrap();
    assert_eq!(h.realloc(p, usize::MAX), Err(ShimError::OutOfMemory));
    // The failed growth left the original block untouched.
    assert!(h.is_live(p));
    assert_eq!(h.alloc_size(p), 4);
    h.free(p);
}

#[test]
fn randomized_alloc_free_against_shadow_ledger() {
    let mut h = Heap::new();
    let mut ledger: Vec<(usize, Vec<u8>)> = Vec::new();
    let mut state: u64 = 0x2545F4914F6CDD1D;
    let mut rand = move || {
        state ^= state << 13;
        state ^= state >> 7;
        state ^= state << 17;
        state
    };
    for round in 0..240 {
        let r = rand();
        match r % 4 {
            0 | 1 => {
                let size = (r / 7 % 48) as usize;
                let p = h.malloc(size).unwrap();
                let mut content = Vec::new();
                for i in 0..size {
                    let v = (r / 11) as u8 ^ (i as u8);
                    h.write_byte(p, i, v);
                    content.push(v);
                }
                // No double ownership: the fresh pointer is no live one.
                assert!(ledger.iter().all(|e| e.0 != p));
                ledger.push((p, content));
            }
            2 => {
                if !ledger.is_empty() {
                    let at = (r / 5) as usize % ledger.len();
                    let (p, _) = ledger.swap_remove(at);
                    h.free(p);
                    assert!(!h.is_live(p));
                }
            }
            _ => {
                if !ledger.is_empty() {
                    let at = (r / 5) as usize % ledger.len();
                    let new_size = (r / 13 % 48) as usize;
                    let (p, content) = ledger.swap_remove(at);
                    let q = h.realloc(p, new_size).unwrap();
                    let mut expected: Vec<u8> = content
                        .iter()
                        .copied()
                        .take(new_size)
                        .collect();
                    while expected.len() < new_size {
                        expected.push(FILL_BYTE);
                    }
                    assert!(ledger.iter().all(|e| e.0 != q));
                    ledger.push((q, expected));
                }
            }
        }
        if round % 16 == 15 {
            for (p, content) in &ledger {
                assert_eq!(h.alloc_size(*p), content.len());
                for (i, v) in content.iter().enumerate() {
                    assert_eq!(h.read_byte(*p, i), *v);
                }
            }
        }
    }
    for (p, content) in &ledger {
        assert_eq!(h.alloc_size(*p), content.len());
        for (i, v) in content.iter().enumerate() {
            assert_eq!(h.read_byte(*p, i), *v);
        }
    }
}
