use embedding::export::numpy_header;

fn expected_header(rows: usize, cols: usize) -> Vec<u8> {
    let header = format!("{{'descr': '<f4', 'fortran_order': False, 'shape': ({}, {}), }}", rows, cols);
    let header_bytes = header.as_bytes();
    let header_len = header_bytes.len();
    let padding = (64 - (header_len + 10) % 64) % 64;
    let mut out = b"\x93NUMPY\x01\x00".to_vec();
    out.extend_from_slice(&((header_len + padding) as u16).to_le_bytes());
    out.extend_from_slice(header_bytes);
    out.extend(std::iter::repeat(b' ').take(padding));
    out
}

#[test]
fn numpy_header_small_matrix() {
    let h = numpy_header(3, 8);
    assert_eq!(h, expected_header(3, 8));
    assert_eq!(&h[..8], b"\x93NUMPY\x01\x00");
    assert_eq!(h.len(), 128);
    assert_eq!(u16::from_le_bytes([h[8], h[9]]), 118);
    assert_eq!(&h[10..69], b"{'descr': '<f4', 'fortran_order': False, 'shape': (3, 8), }");
    assert!(h[69..].iter().all(|&b| b == b' '));
}

#[test]
fn numpy_header_is_aligned() {
    for (rows, cols) in [(0, 0), (7, 300), (123456, 50), (usize::MAX, usize::MAX)] {
        let h = numpy_header(rows, cols);
        assert_eq!(h, expected_header(rows, cols));
        assert_eq!(h.len() % 64, 0);
    }
}

