use smw_tools::script::{
    load, parse_directive, ParseFailure, ScriptError, SourceKind, TilemapEdit,
};

fn lines(ls: &[&[u8]]) -> Vec<Vec<u8>> {
    ls.iter().map(|l| l.to_vec()).collect()
}

#[test]
fn load_basic_directive() {
    let script = lines(&[b"Graphics/GFX05.bin:", b" 0C Graphics/GFX02.bin:0E:2"]);
    let edits = load(&script).expect("parses").0;
    assert_eq!(edits.len(), 1);
    let e = &edits[0];
    assert_eq!(e.to_file, b"Graphics/GFX05.bin".to_vec());
    assert_eq!(e.to_idx, 0x0C);
    assert_eq!(e.from_file, b"Graphics/GFX02.bin".to_vec());
    assert_eq!(e.from_idx, 0x0E);
    assert_eq!(e.size, 2);
    assert_eq!(e.kind, SourceKind::Raw);
}

#[test]
fn load_skips_empty_lines_and_trims_indentation() {
    let script = lines(&[b"", b"d.bin:", b"", b"   \t 1f s.pgm:a0", b""]);
    let edits = load(&script).expect("parses").0;
    assert_eq!(edits.len(), 1);
    assert_eq!(edits[0].to_idx, 0x1F);
    assert_eq!(edits[0].from_idx, 0xA0);
    assert_eq!(edits[0].size, 1);
    assert_eq!(edits[0].kind, SourceKind::Raster);
}

#[test]
fn two_declarations_route_to_their_own_files() {
    // Destination-state reset: identical directives under two different
    // declarations go to the respective declared files.
    let script = lines(&[
        b"first.bin:",
        b" 05 s.bin:0A:2",
        b"second.bin:",
        b" 05 s.bin:0A:2",
    ]);
    let edits = load(&script).expect("parses").0;
    assert_eq!(edits.len(), 2);
    assert_eq!(edits[0].to_file, b"first.bin".to_vec());
    assert_eq!(edits[1].to_file, b"second.bin".to_vec());
    assert_eq!(edits[0].to_idx, edits[1].to_idx);
    assert_eq!(edits[0].from_idx, edits[1].from_idx);
    assert_eq!(edits[0].size, edits[1].size);
}

#[test]
fn directive_before_declaration_fails() {
    let script = lines(&[b" 05 s.bin:0A"]);
    assert_eq!(load(&script), Err(ScriptError::NoDestination(0)));
}

#[test]
fn declaration_must_end_in_bin_colon() {
    let script = lines(&[b"notascript.txt"]);
    assert_eq!(load(&script), Err(ScriptError::BadDeclaration(0)));
    let script = lines(&[b"missingcolon.bin"]);
    assert_eq!(load(&script), Err(ScriptError::BadDeclaration(0)));
}

#[test]
fn bad_directive_line_aborts_load() {
    let script = lines(&[b"d.bin:", b" not a directive"]);
    assert_eq!(load(&script), Err(ScriptError::BadDirective(1)));
}

#[test]
fn oversized_index_aborts_load() {
    // 17 hexadecimal digits exceed a 64-bit word even with leading digits
    let script = lines(&[b"d.bin:", b" FFFFFFFFFFFFFFFFF s.bin:0"]);
    assert_eq!(load(&script), Err(ScriptError::IndexTooLarge(1)));
    // leading zeros keep the value small, so this one is fine
    let script = lines(&[b"d.bin:", b" 000000000000000000ff s.bin:0"]);
    let edits = load(&script).expect("parses").0;
    assert_eq!(edits[0].to_idx, 0xFF);
}

#[test]
fn extent_defaults_to_one() {
    // A directive without the extent group behaves as with an explicit :1.
    let without = parse_directive(&b"05 a.bin:0A".to_vec()).expect("parses");
    let with = parse_directive(&b"05 a.bin:0A:1".to_vec()).expect("parses");
    assert_eq!(without.dst_idx, with.dst_idx);
    assert_eq!(without.path, with.path);
    assert_eq!(without.src_idx, with.src_idx);
    assert_eq!(without.size, 1);
    assert_eq!(with.size, 1);
    assert_eq!(without.kind, with.kind);
}

#[test]
fn grammar_rejections() {
    // extent value 3 is not a legal block size
    assert_eq!(
        parse_directive(&b"05 a.bin:0A:3".to_vec()),
        Err(ParseFailure::NoMatch)
    );
    // a five-character group where the one-character extent belongs
    assert_eq!(
        parse_directive(&b"05 a.bin:0A:12345".to_vec()),
        Err(ParseFailure::NoMatch)
    );
    // destination index must be hexadecimal
    assert_eq!(
        parse_directive(&b"0G a.bin:0A".to_vec()),
        Err(ParseFailure::NoMatch)
    );
    // source path must end in .bin or .pgm
    assert_eq!(
        parse_directive(&b"05 a.gif:0A".to_vec()),
        Err(ParseFailure::NoMatch)
    );
    // source index is required
    assert_eq!(
        parse_directive(&b"05 a.bin:".to_vec()),
        Err(ParseFailure::NoMatch)
    );
    // the separating space is required
    assert_eq!(
        parse_directive(&b"05a.bin:0A".to_vec()),
        Err(ParseFailure::NoMatch)
    );
}

#[test]
fn index_groups_have_no_length_limit() {
    // The two index groups are unbounded hexadecimal runs: five digits are
    // fine there. Only the extent group is a single character.
    let pd = parse_directive(&b"12345 a.bin:ABCDE".to_vec()).expect("parses");
    assert_eq!(pd.dst_idx, 0x12345);
    assert_eq!(pd.src_idx, 0xABCDE);
}

#[test]
fn greedy_path_may_contain_colons_and_spaces() {
    let pd = parse_directive(&b"0 a b.bin:c.bin:0A".to_vec()).expect("parses");
    assert_eq!(pd.dst_idx, 0);
    assert_eq!(pd.path, b"a b.bin:c.bin".to_vec());
    assert_eq!(pd.src_idx, 0x0A);
    assert_eq!(pd.size, 1);
    assert_eq!(pd.kind, SourceKind::Raw);
}

#[test]
fn pgm_extension_selects_raster_kind() {
    let pd = parse_directive(&b"1 shot.pgm:2:4".to_vec()).expect("parses");
    assert_eq!(pd.kind, SourceKind::Raster);
    assert_eq!(pd.size, 4);
}

#[test]
fn block_expansion_for_extent_two() {
    // Block expansion: size 2 gives exactly the four offset pairs
    // (S+0, D+0), (S+1, D+1), (S+16, D+16), (S+17, D+17), in that order.
    let edit = TilemapEdit {
        from_file: b"s.bin".to_vec(),
        from_idx: 3,
        to_file: b"d.bin".to_vec(),
        to_idx: 7,
        size: 2,
        kind: SourceKind::Raw,
    };
    let ops = edit.expand();
    let pairs: Vec<(usize, usize)> = ops.iter().map(|o| (o.src_idx, o.dst_idx)).collect();
    assert_eq!(pairs, vec![(3, 7), (4, 8), (19, 23), (20, 24)]);
}

#[test]
fn block_expansion_sizes() {
    let mut edit = TilemapEdit {
        from_file: b"s.bin".to_vec(),
        from_idx: 0,
        to_file: b"d.bin".to_vec(),
        to_idx: 0,
        size: 1,
        kind: SourceKind::Raw,
    };
    assert_eq!(edit.expand().len(), 1);
    assert_eq!(edit.expand()[0].src_idx, 0);
    edit.size = 4;
    let ops = edit.expand();
    assert_eq!(ops.len(), 16);
    // column-major: all y for x = 0 first, then x = 1, ...
    let offs: Vec<usize> = ops.iter().map(|o| o.src_idx).collect();
    assert_eq!(
        offs,
        vec![0, 1, 2, 3, 16, 17, 18, 19, 32, 33, 34, 35, 48, 49, 50, 51]
    );
}
