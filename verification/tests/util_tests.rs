use raft::util::{block_size_remainder, FlipSign};

#[test]
fn block_size_remainder_test() {
    let bsize = 64;
    assert_eq!(block_size_remainder(bsize, 0), 0);
    assert_eq!(block_size_remainder(bsize, 3 * bsize), 0);
    assert_eq!(block_size_remainder(bsize, bsize - 4), 4);
    assert_eq!(block_size_remainder(bsize, 6 * bsize + 5), bsize - 5);
}

#[test]
fn flip_sign_round_trips() {
    let a: i16 = -1;
    let b: u16 = a.flip();
    assert_eq!(b, u16::MAX);
    let c: i16 = b.flip();
    assert_eq!(c, -1);

    let d: i32 = -2;
    let e: u32 = d.flip();
    assert_eq!(e, u32::MAX - 1);
    let f: i32 = e.flip();
    assert_eq!(f, -2);

    let g: i64 = i64::MIN;
    let h: u64 = g.flip();
    assert_eq!(h, 1u64 << 63);
    let i: i64 = h.flip();
    assert_eq!(i, i64::MIN);

    let j: u64 = 7;
    let k: i64 = j.flip();
    assert_eq!(k, 7);
    let l: u32 = 12;
    let m: i32 = l.flip();
    assert_eq!(m, 12);
    let n: u16 = 12;
    let o: i16 = n.flip();
    assert_eq!(o, 12);
}
