use pkg::system::{copy_recursive, get_arch, gzip_extract, mkdir, rm, touch, wget};
use pkg::text::{dec_bytes, trim_bytes};

#[test]
fn command_lines_exact_text() {
    assert_eq!(rm(b"/a/b"), b"rm -rf /a/b".to_vec());
    assert_eq!(mkdir(b"/a/b"), b"mkdir -p /a/b".to_vec());
    assert_eq!(touch(b"/a/b"), b"touch /a/b".to_vec());
    assert_eq!(wget(b"http://x.test/f", b"/out/f"), b"wget http://x.test/f -O /out/f".to_vec());
    assert_eq!(gzip_extract(b"/a/b.gz"), b"gzip -d /a/b.gz".to_vec());
    assert_eq!(
        copy_recursive(b"/src", b"/dst"),
        b"mkdir -p /dst && cp -r /src/* /dst".to_vec()
    );
}

#[test]
fn host_architecture_mapping() {
    assert_eq!(get_arch(b"x86_64"), b"amd64".to_vec());
    assert_eq!(get_arch(b"aarch64"), b"aarch64".to_vec());
    assert_eq!(get_arch(b"riscv64"), b"amd64".to_vec());
}

#[test]
fn decimal_rendering() {
    assert_eq!(dec_bytes(0), b"0".to_vec());
    assert_eq!(dec_bytes(7), b"7".to_vec());
    assert_eq!(dec_bytes(10), b"10".to_vec());
    assert_eq!(dec_bytes(201), b"201".to_vec());
}

#[test]
fn trimming() {
    assert_eq!(trim_bytes(b"  a b \t\n"), b"a b".to_vec());
    assert_eq!(trim_bytes(b""), b"".to_vec());
    assert_eq!(trim_bytes(b" \t "), b"".to_vec());
}
