use numalloc::freelist::{FreeBlock, ThreadFreelist, TreiberStack, REFILL_BATCH};
use numalloc::memory::{ByteMemory, Memory};

/// Memory to take blocks from.
fn memory() -> ByteMemory {
    ByteMemory::new(4096, 1 << 20)
}

/// A fresh block.
fn alloc_block(mem: &mut ByteMemory) -> usize {
    mem.map(16).unwrap()
}

/// The blocks that follow each other from `first`.
fn chain_from(mem: &ByteMemory, first: usize) -> Vec<usize> {
    let mut blocks = vec![first];
    let mut at = first;
    while let Some(next) = (FreeBlock { addr: at }).read_next(mem) {
        blocks.push(next);
        at = next;
    }
    blocks
}

#[test]
fn thread_freelist_push_pop() {
    let mut mem = memory();
    let mut fl = ThreadFreelist::new();
    assert!(fl.is_empty());

    let b1 = alloc_block(&mut mem);
    let b2 = alloc_block(&mut mem);
    fl.push(&mut mem, b1);
    fl.push(&mut mem, b2);
    assert_eq!(fl.count(), 2);

    let p1 = fl.pop(&mem).unwrap();
    assert_eq!(p1, b2); // LIFO
    let p2 = fl.pop(&mem).unwrap();
    assert_eq!(p2, b1);
    assert!(fl.is_empty());
}

#[test]
fn thread_freelist_drain() {
    let mut mem = memory();
    let mut fl = ThreadFreelist::new();
    for _ in 0..10 {
        let b = alloc_block(&mut mem);
        fl.push(&mut mem, b);
    }
    assert_eq!(fl.count(), 10);

    let (chain_head, chain_tail, drained) = fl.drain(&mut mem, 4).unwrap();
    assert_eq!(drained, 6);
    assert_eq!(fl.count(), 4);

    // Verify chain length.
    let chain = chain_from(&mem, chain_head);
    assert_eq!(chain.len(), 6);
    assert_eq!(*chain.last().unwrap(), chain_tail);
}

#[test]
fn treiber_push_pop() {
    let mut mem = memory();
    let mut stack = TreiberStack::new();
    assert!(stack.is_empty());

    let b1 = alloc_block(&mut mem);
    let b2 = alloc_block(&mut mem);
    stack.push(&mut mem, b1);
    stack.push(&mut mem, b2);

    assert_eq!(stack.pop(&mem).unwrap(), b2);
    assert_eq!(stack.pop(&mem).unwrap(), b1);
    assert!(stack.pop(&mem).is_none());
}

#[test]
fn treiber_push_chain() {
    let mut mem = memory();
    let mut stack = TreiberStack::new();
    let b1 = alloc_block(&mut mem);
    let b2 = alloc_block(&mut mem);
    let b3 = alloc_block(&mut mem);

    // Build chain: b1 -> b2 -> b3
    FreeBlock { addr: b1 }.write_next(&mut mem, Some(b2));
    FreeBlock { addr: b2 }.write_next(&mut mem, Some(b3));
    FreeBlock { addr: b3 }.write_next(&mut mem, None);

    stack.push_chain(&mut mem, b1, b3);

    assert_eq!(stack.pop(&mem).unwrap(), b1);
    assert_eq!(stack.pop(&mem).unwrap(), b2);
    assert_eq!(stack.pop(&mem).unwrap(), b3);
    assert!(stack.pop(&mem).is_none());
}

/// Pushes and pops of several actors, one step of a retry loop at a time.
#[test]
fn treiber_concurrent_push_pop() {
    let mut mem = memory();
    let mut stack = TreiberStack::new();
    let num_threads = 8;
    let ops_per_thread = 1000;

    for _ in 0..ops_per_thread {
        // Everyone reads the head before anyone swaps it.
        let mut pending: Vec<(u64, usize)> = Vec::new();
        for _ in 0..num_threads {
            let b = alloc_block(&mut mem);
            pending.push((stack.load(), b));
        }
        while let Some((seen, b)) = pending.pop() {
            if !stack.try_push(&mut mem, seen, b) {
                pending.push((stack.load(), b));
            }
        }
    }
    for _ in 0..ops_per_thread {
        let mut attempts = Vec::new();
        for _ in 0..num_threads {
            let mut attempt = stack.begin_pop().unwrap();
            attempt.read_next(&stack, &mem);
            attempts.push(attempt);
        }
        let mut done = 0;
        while let Some(attempt) = attempts.pop() {
            if stack.finish_pop(&attempt) {
                done += 1;
            } else {
                let mut again = stack.begin_pop().unwrap();
                again.read_next(&stack, &mem);
                attempts.push(again);
            }
        }
        assert_eq!(done, num_threads);
    }

    // Stack should be empty.
    let mut remaining = 0;
    while stack.pop(&mem).is_some() {
        remaining += 1;
    }
    assert_eq!(remaining, 0);
}

/// A block that is popped and pushed again between the two halves of a pop
/// makes the pop fail, though the same block is on top.
#[test]
fn stale_pop_fails_when_the_same_block_returns() {
    let mut mem = memory();
    let mut stack = TreiberStack::new();
    let a = alloc_block(&mut mem);
    let b = alloc_block(&mut mem);
    stack.push(&mut mem, b);
    stack.push(&mut mem, a);

    let mut attempt = stack.begin_pop().unwrap();
    attempt.read_next(&stack, &mem);

    assert_eq!(stack.pop(&mem), Some(a));
    assert_eq!(stack.pop(&mem), Some(b));
    stack.push(&mut mem, a);
    assert_eq!(stack.peek_head(), Some(a));

    assert!(!stack.finish_pop(&attempt));
    assert_eq!(stack.pop(&mem), Some(a));
    assert!(stack.is_empty());
}

#[test]
fn head_word_packs_address_and_tag() {
    let w = TreiberStack::pack(Some(0x1234_5678), 7);
    assert_eq!(w, (7u64 << 48) | 0x1234_5678);
    assert_eq!(TreiberStack::unpack(w), (Some(0x1234_5678), 7));
    assert_eq!(TreiberStack::unpack(TreiberStack::pack(None, 65535)), (None, 65535));
}

#[test]
fn take_all_detaches_the_chain() {
    let mut mem = memory();
    let mut stack = TreiberStack::new();
    assert_eq!(stack.take_all(), None);
    let blocks: Vec<usize> = (0..5).map(|_| alloc_block(&mut mem)).collect();
    for &b in &blocks {
        stack.push(&mut mem, b);
    }
    let first = stack.take_all().unwrap();
    assert!(stack.is_empty());
    let mut expected = blocks.clone();
    expected.reverse();
    assert_eq!(chain_from(&mem, first), expected);
}

#[test]
fn drain_keeps_the_hot_blocks() {
    let mut mem = memory();
    let mut fl = ThreadFreelist::new();
    let blocks: Vec<usize> = (0..6).map(|_| alloc_block(&mut mem)).collect();
    for &b in &blocks {
        fl.push(&mut mem, b);
    }
    assert_eq!(fl.drain(&mut mem, 6), None);
    // Newest first: 5 4 | 3 2 1 0.
    let (head, tail, n) = fl.drain(&mut mem, 2).unwrap();
    assert_eq!((head, tail, n), (blocks[3], blocks[0], 4));
    assert_eq!(fl.head(), Some(blocks[5]));
    assert_eq!(fl.tail(), Some(blocks[4]));
    // Nothing is kept when nothing is to be kept.
    let (head, tail, n) = fl.drain(&mut mem, 0).unwrap();
    assert_eq!((head, tail, n), (blocks[5], blocks[4], 2));
    assert!(fl.is_empty());
    assert_eq!(fl.drain_all(), None);
}

#[test]
fn refill_counts_a_batch_and_parks_the_rest() {
    let mut mem = memory();
    let mut source = TreiberStack::new();
    let n = 2 * REFILL_BATCH + 5;
    for _ in 0..n {
        let b = alloc_block(&mut mem);
        source.push(&mut mem, b);
    }
    let all = {
        let first = source.peek_head().unwrap();
        chain_from(&mem, first)
    };
    let mut fl = ThreadFreelist::new();
    let first = source.take_all().unwrap();
    fl.refill(&mut mem, first);
    assert_eq!(fl.count(), REFILL_BATCH);
    assert_eq!(fl.head(), Some(all[0]));
    assert_eq!(fl.tail(), Some(all[REFILL_BATCH - 1]));
    assert_eq!(fl.spare(), Some(all[REFILL_BATCH]));
    let spare = fl.take_spare().unwrap();
    assert_eq!(chain_from(&mem, spare), all[REFILL_BATCH..].to_vec());
    assert_eq!(fl.spare(), None);
    let (head, tail, count) = fl.drain_all().unwrap();
    assert_eq!((head, tail, count), (all[0], all[REFILL_BATCH - 1], REFILL_BATCH));
}

#[test]
fn push_chain_joins_lists() {
    let mut mem = memory();
    let mut fl = ThreadFreelist::new();
    let old = alloc_block(&mut mem);
    fl.push(&mut mem, old);
    let a = alloc_block(&mut mem);
    let b = alloc_block(&mut mem);
    FreeBlock { addr: a }.write_next(&mut mem, Some(b));
    fl.push_chain(&mut mem, a, b, 2);
    assert_eq!(fl.count(), 3);
    assert_eq!(fl.pop(&mem), Some(a));
    assert_eq!(fl.pop(&mem), Some(b));
    assert_eq!(fl.pop(&mem), Some(old));
    assert_eq!(fl.pop(&mem), None);
}

#[test]
fn memory_words_are_little_endian() {
    let mut mem = ByteMemory::new(64, 64);
    let a = mem.map(16).unwrap();
    mem.write_word(a, 0x0807_0605_0403_0201);
    assert_eq!(mem.read_byte(a), 1);
    assert_eq!(mem.read_byte(a + 7), 8);
    assert_eq!(mem.read_word(a), 0x0807_0605_0403_0201);
    mem.copy(a, a + 8, 8);
    assert_eq!(mem.read_word(a + 8), 0x0807_0605_0403_0201);
    mem.fill_zero(a, 4);
    assert_eq!(mem.read_word(a), 0x0807_0605_0000_0000);
    mem.write_byte(a, 9);
    assert_eq!(mem.read_byte(a), 9);
    assert_eq!(mem.map(49), None);
    assert_eq!(mem.map(48), Some(80));
}
