use memory_analyser::bytes::{get_nul_str, get_s, get_u32, get_u64, ElfClass};

#[test]
fn get_u64_reads_little_endian_and_advances() {
    let data = [1u8, 2, 3, 4, 5, 6, 7, 8, 9];
    let mut s: &[u8] = &data;
    assert_eq!(get_u64(&mut s), 0x0807060504030201);
    assert_eq!(s, &[9u8][..]);
}

#[test]
fn get_u32_reads_little_endian_and_advances() {
    let data = [0xefu8, 0xbe, 0xad, 0xde, 0xff];
    let mut s: &[u8] = &data;
    assert_eq!(get_u32(&mut s), 0xdeadbeef);
    assert_eq!(s.len(), 1);
}

#[test]
fn get_s_follows_the_class() {
    let data = [1u8, 0, 0, 0, 2, 0, 0, 0, 3, 0, 0, 0];
    let mut s: &[u8] = &data;
    assert_eq!(get_s(&mut s, ElfClass::Elf32), 1);
    assert_eq!(s.len(), 8);
    let mut t: &[u8] = &data;
    assert_eq!(get_s(&mut t, ElfClass::Elf64), 0x0000_0002_0000_0001);
    assert_eq!(t.len(), 4);
}

#[test]
fn get_nul_str_splits_at_the_terminator() {
    let data = b"/bin/true\0/lib/libc.so\0";
    let mut s: &[u8] = data;
    assert_eq!(get_nul_str(&mut s), b"/bin/true");
    assert_eq!(get_nul_str(&mut s), b"/lib/libc.so");
    assert_eq!(s.len(), 0);
}

#[test]
fn get_nul_str_without_terminator_takes_the_rest() {
    let data = b"abc";
    let mut s: &[u8] = data;
    assert_eq!(get_nul_str(&mut s), b"abc");
    assert!(s.is_empty());
}
