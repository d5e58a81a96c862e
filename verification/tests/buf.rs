use milli_http::buf::{clamped_growth, Buf, BufExt};
use milli_http::error::Error;

#[test]
fn buf_enforces_capacity_bound() {
    let mut buf: Buf<8> = Buf::new();
    assert!(buf.extend_from_slice(&[1, 2, 3, 4]).is_ok());
    assert_eq!(buf.len(), 4);
    assert!(buf.extend_from_slice(&[5, 6, 7, 8]).is_ok());
    assert_eq!(buf.len(), 8);
    // Should fail - would exceed capacity of 8
    assert!(buf.extend_from_slice(&[9]).is_err());
    assert_eq!(buf.len(), 8);
}

#[test]
fn buf_push_enforces_bound() {
    let mut buf: Buf<2> = Buf::new();
    assert!(buf.push(1).is_ok());
    assert!(buf.push(2).is_ok());
    assert!(buf.push(3).is_err());
    assert_eq!(buf.len(), 2);
}

#[test]
fn buf_clear_and_reuse() {
    let mut buf: Buf<4> = Buf::new();
    assert!(buf.extend_from_slice(&[1, 2, 3, 4]).is_ok());
    assert!(buf.extend_from_slice(&[5]).is_err());
    buf.clear();
    assert!(buf.extend_from_slice(&[5, 6, 7, 8]).is_ok());
    assert_eq!(buf.as_slice(), &[5, 6, 7, 8][..]);
}

#[test]
fn buf_drain_front() {
    let mut buf: Buf<8> = Buf::new();
    let _ = buf.extend_from_slice(&[1, 2, 3, 4, 5]);
    buf.buf_drain_front(2);
    assert_eq!(buf.as_slice(), &[3, 4, 5][..]);
    assert_eq!(buf.len(), 3);
    // Space freed - can add more
    assert!(buf.extend_from_slice(&[6, 7, 8, 9, 10]).is_ok());
    assert_eq!(buf.len(), 8);
}

#[test]
fn buf_hide_tail_preserves_bytes_across_drain_and_extend() {
    let mut buf: Buf<16> = Buf::new();
    let _ = buf.extend_from_slice(&[1, 2, 3, 4, 5, 6]);
    buf.hide_tail(2); // hide [5, 6]
    assert_eq!(buf.as_slice(), &[1, 2, 3, 4][..]);
    assert_eq!(buf.len(), 4);

    // Front-drain two visible bytes; the hidden tail must follow the
    // visible end through the truncate.
    buf.buf_drain_front(2);
    assert_eq!(buf.as_slice(), &[3, 4][..]);

    // Appends insert before the hidden tail.
    let _ = buf.extend_from_slice(&[7, 8]);
    assert_eq!(buf.as_slice(), &[3, 4, 7, 8][..]);

    assert_eq!(buf.unhide_tail(), 2);
    assert_eq!(buf.as_slice(), &[3, 4, 7, 8, 5, 6][..]);
}

#[test]
fn buf_hide_tail_counts_against_capacity() {
    let mut buf: Buf<8> = Buf::new();
    let _ = buf.extend_from_slice(&[1, 2, 3, 4, 5, 6]);
    buf.hide_tail(4);
    // Visible len is 2, but physical occupancy is 6 of 8: two more fit.
    assert!(buf.extend_from_slice(&[7, 8]).is_ok());
    assert!(buf.push(9).is_err());
    buf.unhide_tail();
    assert_eq!(buf.as_slice(), &[1, 2, 7, 8, 3, 4, 5, 6][..]);
}

#[test]
fn buf_hide_tail_clear_drops_hidden() {
    let mut buf: Buf<8> = Buf::new();
    let _ = buf.extend_from_slice(&[1, 2, 3, 4]);
    buf.hide_tail(2);
    buf.clear();
    assert_eq!(buf.len(), 0);
    assert_eq!(buf.unhide_tail(), 0);
    assert!(buf.extend_from_slice(&[9; 8]).is_ok());
}

#[test]
fn buf_hide_tail_static_backing() {
    let mem: &'static mut [u8] = Vec::leak(vec![0u8; 16]);
    let mut buf: Buf<16> = Buf::from_static(mem);
    let _ = buf.extend_from_slice(&[1, 2, 3, 4, 5, 6]);
    buf.hide_tail(3); // hide [4, 5, 6]
    assert_eq!(buf.as_slice(), &[1, 2, 3][..]);
    buf.buf_drain_front(1);
    let _ = buf.extend_from_slice(&[7]);
    assert_eq!(buf.as_slice(), &[2, 3, 7][..]);
    buf.unhide_tail();
    assert_eq!(buf.as_slice(), &[2, 3, 7, 4, 5, 6][..]);
    // take_static still recovers the full slice and resets state.
    let slice = buf.take_static().unwrap();
    assert_eq!(slice.len(), 16);
    assert!(buf.is_empty());
}

#[test]
fn buf_slice_access() {
    let mut buf: Buf<16> = Buf::new();
    let _ = buf.extend_from_slice(b"hello");
    assert_eq!(buf.as_slice(), &b"hello"[..]);
    assert_eq!(buf.as_slice(), &b"hello"[..]);
    assert!(!buf.is_empty());
    buf.truncate(3);
    assert_eq!(buf.as_slice(), &b"hel"[..]);
}

#[test]
fn hidden_tail_survives_growth_and_clone() {
    let mut buf: Buf<64> = Buf::new();
    assert!(buf.extend_from_slice(&[1, 2, 3]).is_ok());
    buf.hide_tail(1);
    for i in 0..40u8 {
        assert!(buf.push(i).is_ok());
    }
    assert_eq!(buf.len(), 42);
    let mut copy = buf.clone();
    assert_eq!(copy.as_slice(), buf.as_slice());
    assert_eq!(copy.unhide_tail(), 1);
    assert_eq!(copy.len(), 43);
    assert_eq!(copy.as_slice()[42], 3);
    buf.shrink_to_fit();
    assert!(buf.capacity() >= 43);
    assert_eq!(buf.unhide_tail(), 1);
    assert_eq!(buf.as_slice(), copy.as_slice());
}

#[test]
fn capacity_is_a_bound_and_not_what_is_allocated() {
    let mut buf: Buf<1024> = Buf::new();
    assert_eq!(buf.capacity(), 1024);
    assert!(buf.extend_from_slice(&[7u8; 100]).is_ok());
    buf.truncate(10);
    buf.shrink_to_fit();
    assert_eq!(buf.capacity(), 1024);
    assert_eq!(buf.as_slice(), &[7u8; 10][..]);
    assert!(buf.extend_from_slice(&[8u8; 1014]).is_ok());
    assert!(buf.push(9).is_err());
}

#[test]
fn static_backing_has_fixed_capacity_and_goes_back() {
    let mem: &'static mut [u8] = Vec::leak(vec![9u8; 8]);
    let mut buf: Buf<8> = Buf::from_static(mem);
    assert_eq!(buf.capacity(), 8);
    assert!(buf.extend_from_slice(&[1; 8]).is_ok());
    assert_eq!(buf.push(2), Err(2));
    assert_eq!(buf.extend_from_slice(&[3]), Err(()));
    buf.shrink_to_fit();
    assert_eq!(buf.capacity(), 8);
    assert_eq!(buf.take_static().map(|s| s.len()), Some(8));
    assert!(buf.take_static().is_none());
    assert!(buf.is_empty());
    assert!(buf.push(1).is_ok());
}

#[test]
fn common_operations_report_what_they_would_need() {
    let mut buf: Buf<4> = Buf::new();
    assert!(buf.buf_is_empty());
    assert_eq!(buf.buf_extend_from_slice(&[1, 2, 3]), Ok(()));
    assert_eq!(
        buf.buf_extend_from_slice(&[4, 5]),
        Err(Error::BufferTooSmall { needed: 5 })
    );
    assert_eq!(buf.buf_push(4), Ok(()));
    assert_eq!(buf.buf_push(5), Err(Error::BufferTooSmall { needed: 5 }));
    assert_eq!(buf.buf_len(), 4);
    buf.buf_as_mut_slice()[0] = 9;
    assert_eq!(buf.buf_as_slice(), &[9, 2, 3, 4][..]);
    buf.buf_truncate(1);
    assert_eq!(buf.buf_as_slice(), &[9][..]);
    buf.buf_clear();
    assert!(buf.buf_is_empty());
}

#[test]
fn growth_doubles_and_is_clamped() {
    // What fits already asks for nothing.
    assert_eq!(clamped_growth(64, 64, 1024), None);
    assert_eq!(clamped_growth(0, 0, 1024), None);
    // Doubling, or what is needed where that is more.
    assert_eq!(clamped_growth(64, 65, 1024), Some(128));
    assert_eq!(clamped_growth(64, 300, 1024), Some(300));
    assert_eq!(clamped_growth(0, 5, 1024), Some(5));
    // A full-size record in a buffer that may hold little more.
    assert_eq!(clamped_growth(16384, 16389, 18432), Some(18432));
    assert_eq!(clamped_growth(usize::MAX - 1, usize::MAX, usize::MAX), Some(usize::MAX));
}

#[test]
fn shrinking_leaves_a_static_backing_alone() {
    let mem: &'static mut [u8] = Vec::leak(vec![9u8; 10]);
    let mut buf: Buf<8> = Buf::from_static(mem);
    assert!(buf.extend_from_slice(&[1, 2, 3]).is_ok());
    buf.hide_tail(1);
    buf.shrink_to_fit();
    assert_eq!(buf.as_slice(), &[1, 2]);
    assert_eq!(buf.unhide_tail(), 1);
    assert_eq!(buf.as_slice(), &[1, 2, 3]);
    let back = buf.take_static().unwrap();
    assert_eq!(back, &[1, 2, 3, 9, 9, 9, 9, 9, 9, 9]);
}

#[test]
fn buffer_stands_for_its_visible_bytes() {
    let mut buf: Buf<16> = Buf::new();
    assert!(buf.extend_from_slice(&[3, 1, 2, 9]).is_ok());
    buf.hide_tail(1);
    assert_eq!(buf[1..], [1, 2]);
    assert_eq!(buf.iter().copied().max(), Some(3));
    buf[0] = 7;
    buf.sort_unstable();
    let seen: &[u8] = buf.as_ref();
    assert_eq!(seen, &[1, 2, 7]);
    let change: &mut [u8] = buf.as_mut();
    change[2] = 8;
    assert_eq!(buf.unhide_tail(), 1);
    assert_eq!(buf.as_slice(), &[1, 2, 8, 9]);

    let mem: &'static mut [u8] = Vec::leak(vec![0u8; 8]);
    let mut fixed: Buf<8> = Buf::from_static(mem);
    assert!(fixed.extend_from_slice(&[5, 6]).is_ok());
    fixed[1] = 4;
    assert_eq!(&fixed[..], &[5, 4]);
}
