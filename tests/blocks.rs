use checked_wipe::blocks::{first_nonzero, throughput, BlockCursor};

fn plan(total: u64, block: u64) -> Vec<u64> {
    let mut c = BlockCursor::new(total, block);
    let mut out = Vec::new();
    while !c.is_done() {
        out.push(c.next_len());
        c.advance(true);
    }
    out
}

/// Runs one erase pass over an in-memory device and returns the bytes written.
fn erase(device: &mut Vec<u8>, block: u64) -> u64 {
    let mut c = BlockCursor::new(device.len() as u64, block);
    while !c.is_done() {
        let at = c.offset as usize;
        let n = c.next_len() as usize;
        for b in device[at..at + n].iter_mut() {
            *b = 0;
        }
        c.advance(true);
    }
    c.written()
}

/// Checks an in-memory device in chunks; the offset of the first non-zero byte on failure.
fn verify(device: &[u8], chunk: u64) -> Result<(), u64> {
    let mut c = BlockCursor::new(device.len() as u64, chunk);
    while !c.is_done() {
        let at = c.offset as usize;
        let n = c.next_len() as usize;
        if let Some(i) = first_nonzero(&device[at..at + n]) {
            return Err(c.offset + i as u64);
        }
        c.advance(true);
    }
    Ok(())
}

#[test]
fn short_final_block() {
    let p = plan(2_500_000, 1_000_000);
    assert_eq!(p, vec![1_000_000, 1_000_000, 500_000]);
    assert_eq!(p.iter().sum::<u64>(), 2_500_000);
}

#[test]
fn exact_multiple_has_no_short_block() {
    assert_eq!(plan(3_000_000, 1_000_000), vec![1_000_000; 3]);
}

#[test]
fn smaller_than_one_block() {
    assert_eq!(plan(1023, 1024), vec![1023]);
}

#[test]
fn empty_device_has_no_blocks() {
    assert!(plan(0, 1024).is_empty());
}

#[test]
fn largest_device() {
    let mut c = BlockCursor::new(u64::MAX, 1 << 62);
    let mut total: u64 = 0;
    let mut n = 0;
    while !c.is_done() {
        total += c.next_len();
        c.advance(true);
        n += 1;
    }
    assert_eq!(total, u64::MAX);
    assert_eq!(n, 4);
}

#[test]
fn failed_blocks_are_not_counted_as_written() {
    let mut c = BlockCursor::new(2_500, 1_000);
    c.advance(true);
    c.advance(false);
    c.advance(true);
    assert!(c.is_done());
    assert_eq!(c.offset, 2_500);
    assert_eq!(c.failed, 1_000);
    assert_eq!(c.written(), 1_500);
}

#[test]
fn zero_check() {
    assert_eq!(first_nonzero(&[0, 0, 0]), None);
    assert_eq!(first_nonzero(&[]), None);
    assert_eq!(first_nonzero(&[0, 0, 7, 1]), Some(2));
}

#[test]
fn single_nonzero_byte_fails_verification() {
    let mut device = vec![0u8; 2_500];
    assert_eq!(verify(&device, 1_024), Ok(()));
    device[2_499] = 1;
    assert_eq!(verify(&device, 1_024), Err(2_499));
    device[2_499] = 0;
    device[0] = 9;
    assert_eq!(verify(&device, 1_024), Err(0));
}

#[test]
fn second_erase_pass_is_the_same() {
    let mut device: Vec<u8> = (0..2_500_000u32).map(|i| (i % 251) as u8 + 1).collect();
    assert!(verify(&device, 1_024).is_err());
    assert_eq!(erase(&mut device, 1_000_000), 2_500_000);
    assert_eq!(verify(&device, 1_024), Ok(()));
    let once = device.clone();
    assert_eq!(erase(&mut device, 1_000_000), 2_500_000);
    assert_eq!(device, once);
    assert_eq!(verify(&device, 1_024), Ok(()));
}

#[test]
fn rate() {
    assert_eq!(throughput(2_000, 1_000), 2_000);
    assert_eq!(throughput(1_048_576, 500), 2_097_152);
    assert_eq!(throughput(5, 0), 0);
    assert_eq!(throughput(u64::MAX, 1), u64::MAX);
}
