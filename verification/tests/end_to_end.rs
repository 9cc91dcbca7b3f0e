use smw_tools::script::{load, SourceKind};
use smw_tools::tile::Tile;

#[test]
fn single_copy_scenario() {
    // A 64-tile destination of zero bytes and the script
    //   dst.bin:
    //    05 src.bin:0A
    // copy the 32 bytes at source offset 320 (0x0A * 32) onto destination
    // offset 160 (0x05 * 32) and touch nothing else.
    let mut src = vec![0u8; 64 * 32];
    for (i, b) in src.iter_mut().enumerate() {
        *b = (i % 256) as u8;
    }
    let mut dst = vec![0u8; 64 * 32];

    let script = vec![b"dst.bin:".to_vec(), b" 05 src.bin:0A".to_vec()];
    let edits = load(&script).expect("parses").0;
    assert_eq!(edits.len(), 1);
    let edit = &edits[0];
    assert_eq!(edit.to_file, b"dst.bin".to_vec());
    assert_eq!(edit.from_file, b"src.bin".to_vec());
    assert_eq!(edit.kind, SourceKind::Raw);

    for op in edit.expand() {
        let tile = Tile::load_from(&src, op.src_idx).expect("source in range");
        assert!(tile.write_to(&mut dst, op.dst_idx));
    }

    assert_eq!(&dst[160..192], &src[320..352]);
    assert!(dst[..160].iter().all(|&b| b == 0));
    assert!(dst[192..].iter().all(|&b| b == 0));
}

#[test]
fn overlapping_directives_apply_in_order() {
    // Two directives writing the same destination tile: the later one wins,
    // since directives are applied strictly in script order.
    let mut src = vec![0u8; 2 * 32];
    for b in src[0..32].iter_mut() {
        *b = 0x11;
    }
    for b in src[32..64].iter_mut() {
        *b = 0x22;
    }
    let mut dst = vec![0u8; 32];

    let script = vec![
        b"dst.bin:".to_vec(),
        b" 0 src.bin:0".to_vec(),
        b" 0 src.bin:1".to_vec(),
    ];
    let edits = load(&script).expect("parses").0;
    assert_eq!(edits.len(), 2);
    for edit in &edits {
        for op in edit.expand() {
            let tile = Tile::load_from(&src, op.src_idx).expect("source in range");
            assert!(tile.write_to(&mut dst, op.dst_idx));
        }
    }
    assert!(dst.iter().all(|&b| b == 0x22));
}
