use matching_engine::{FastBitmap, RingBuffer};

#[test]
fn fast_bitmap_test_basic_operations() {
    let mut bitmap = FastBitmap::new(128);

    assert_eq!(bitmap.find_first_one(), None);
    assert_eq!(bitmap.find_last_one(), None);

    bitmap.set(0, true);
    bitmap.set(63, true);
    bitmap.set(64, true);
    bitmap.set(127, true);

    assert_eq!(bitmap.get(0), true);
    assert_eq!(bitmap.get(63), true);
    assert_eq!(bitmap.get(64), true);
    assert_eq!(bitmap.get(127), true);
    assert_eq!(bitmap.get(1), false);

    assert_eq!(bitmap.find_first_one(), Some(0));
    assert_eq!(bitmap.find_last_one(), Some(127));

    bitmap.set(127, false);
    assert_eq!(bitmap.find_last_one(), Some(64));
}

#[test]
fn test_find_next_prev() {
    let mut bitmap = FastBitmap::new(200);

    bitmap.set(10, true);
    bitmap.set(50, true);
    bitmap.set(100, true);
    bitmap.set(150, true);

    assert_eq!(bitmap.find_next_one(0), Some(10));
    assert_eq!(bitmap.find_next_one(10), Some(50));
    assert_eq!(bitmap.find_next_one(50), Some(100));
    assert_eq!(bitmap.find_next_one(100), Some(150));
    assert_eq!(bitmap.find_next_one(150), None);

    assert_eq!(bitmap.find_prev_one(150), Some(100));
    assert_eq!(bitmap.find_prev_one(100), Some(50));
    assert_eq!(bitmap.find_prev_one(50), Some(10));
    assert_eq!(bitmap.find_prev_one(10), None);
}

#[test]
fn test_large_bitmap() {
    let mut bitmap = FastBitmap::new(6000);

    bitmap.set(100, true);
    bitmap.set(1000, true);
    bitmap.set(2000, true);
    bitmap.set(3000, true);
    bitmap.set(4000, true);
    bitmap.set(5000, true);
    bitmap.set(5500, true);
    bitmap.set(5800, true);
    bitmap.set(5900, true);
    bitmap.set(5999, true);

    assert_eq!(bitmap.find_first_one(), Some(100));
    assert_eq!(bitmap.find_last_one(), Some(5999));

    assert_eq!(bitmap.count_ones(), 10);
}

#[test]
fn test_hardware_instructions() {
    let block = 0b1010_0000_0000_0000_0000_0000_0000_0000_0000_0000_0000_0000_0000_0000_0000_0000u64;

    assert_eq!(block.leading_zeros(), 0);

    assert_eq!(block.trailing_zeros(), 61);

    let block2 = 0b0000_0000_0000_0000_0000_0000_0000_0000_0000_0000_0000_0000_0000_0000_0000_0001u64;
    assert_eq!(block2.leading_zeros(), 63);
    assert_eq!(block2.trailing_zeros(), 0);
}

#[test]
fn test_bitmap_boundary_within_word() {
    let mut bitmap = FastBitmap::new(70);
    bitmap.set(64, true);
    assert_eq!(bitmap.find_next_one(63), Some(64));
    assert_eq!(bitmap.find_prev_one(64), None);
    bitmap.clear();
    assert!(bitmap.is_empty());
    assert_eq!(bitmap.count_ones(), 0);
}

#[test]
fn ringbuffer_test_basic_operations() {
    let mut rb = RingBuffer::with_capacity(4);

    assert!(rb.push(1).is_ok());
    assert!(rb.push(2).is_ok());
    assert!(rb.push(3).is_ok());
    assert_eq!(rb.len(), 3);

    assert_eq!(rb.pop(), Some(1));
    assert_eq!(rb.pop(), Some(2));
    assert_eq!(rb.len(), 1);

    assert!(rb.push(4).is_ok());
    assert!(rb.push(5).is_ok());
    assert_eq!(rb.len(), 3);
}

#[test]
fn test_capacity_limit() {
    let mut rb = RingBuffer::with_capacity(2);

    assert!(rb.push(1).is_ok());
    assert!(rb.push(2).is_ok());

    assert_eq!(rb.push(3), Err(3));
    assert_eq!(rb.len(), 2);

    rb.pop();
    assert!(rb.push(3).is_ok());
}

#[test]
fn test_wrap_around() {
    let mut rb = RingBuffer::with_capacity(3);

    rb.push(1).unwrap();
    rb.push(2).unwrap();
    rb.push(3).unwrap();

    assert_eq!(rb.pop(), Some(1));
    assert_eq!(rb.pop(), Some(2));

    rb.push(4).unwrap();
    rb.push(5).unwrap();

    assert_eq!(rb.pop(), Some(3));
    assert_eq!(rb.pop(), Some(4));
    assert_eq!(rb.pop(), Some(5));
    assert_eq!(rb.pop(), None);
}

#[test]
fn test_front() {
    let mut rb = RingBuffer::with_capacity(4);

    assert_eq!(rb.front(), None);

    rb.push(1).unwrap();
    rb.push(2).unwrap();

    assert_eq!(rb.front(), Some(&1));
    assert_eq!(rb.len(), 2);

    rb.pop();
    assert_eq!(rb.front(), Some(&2));
}

#[test]
fn test_drain() {
    let mut rb = RingBuffer::with_capacity(4);

    rb.push(1).unwrap();
    rb.push(2).unwrap();
    rb.push(3).unwrap();

    let items = rb.drain();
    assert_eq!(items, vec![1, 2, 3]);
    assert_eq!(rb.len(), 0);
}

#[test]
fn test_clear() {
    let mut rb = RingBuffer::with_capacity(4);

    rb.push(1).unwrap();
    rb.push(2).unwrap();
    rb.push(3).unwrap();

    rb.clear();
    assert_eq!(rb.len(), 0);
    assert!(rb.is_empty());

    rb.push(4).unwrap();
    assert_eq!(rb.pop(), Some(4));
}
