//! The edit-script interpreter: parsing the line-oriented copy-directive
//! format and expanding each directive into per-tile copy operations.
//!
//! A script is a sequence of text lines, handled byte-wise. An unindented
//! line ending in `.bin:` declares the current destination file; it stays in
//! force for the indented directive lines that follow. A directive line,
//! after trimming leading whitespace, must have the shape
//! `<dst-hex> <path>.(bin|pgm):<src-hex>[:<extent>]` with `<extent>` one of
//! `1`, `2`, `4` (absent means `1`). The source path is matched greedily: it
//! is the longest prefix ending in `.bin` or `.pgm` that leaves a well-formed
//! `:<src-hex>[:<extent>]` tail behind, so paths may themselves contain
//! colons and spaces. Empty lines are skipped; anything else is a fatal
//! parse error.

use vstd::prelude::*;

verus! {

// ---------------------------------------------------------------------------
// Byte classes and hexadecimal values
// ---------------------------------------------------------------------------

/// ASCII hexadecimal digit: `0-9`, `a-f` or `A-F`.
pub open spec fn is_hex_digit(b: u8) -> bool {
    (48 <= b && b <= 57) || (97 <= b && b <= 102) || (65 <= b && b <= 70)
}

/// The value of one hexadecimal digit.
pub open spec fn hex_digit_val(b: u8) -> nat
    recommends
        is_hex_digit(b),
{
    if 48 <= b && b <= 57 {
        (b - 48) as nat
    } else if 97 <= b && b <= 102 {
        (b - 87) as nat
    } else {
        (b - 55) as nat
    }
}

/// The unsigned value of a big-endian string of hexadecimal digits; the
/// empty string has value 0.
pub open spec fn hex_val(s: Seq<u8>) -> nat
    decreases s.len(),
{
    if s.len() == 0 {
        0
    } else {
        16 * hex_val(s.drop_last()) + hex_digit_val(s.last())
    }
}

/// ASCII whitespace.
pub open spec fn is_space(b: u8) -> bool {
    b == 32 || (9 <= b && b <= 13)
}

/// Where the run of hexadecimal digits starting at `i` ends: the first
/// position at or after `i` that is past the end or holds a non-digit.
pub open spec fn hex_run_from(s: Seq<u8>, i: int) -> int
    decreases s.len() - i,
{
    if i < s.len() && is_hex_digit(s[i]) {
        hex_run_from(s, i + 1)
    } else {
        i
    }
}

/// Where the run of leading whitespace starting at `i` ends.
pub open spec fn trim_from(s: Seq<u8>, i: int) -> int
    decreases s.len() - i,
{
    if i < s.len() && is_space(s[i]) {
        trim_from(s, i + 1)
    } else {
        i
    }
}

/// `hex_run_from` marks the maximal all-digit run.
pub proof fn lemma_hex_run_from(s: Seq<u8>, i: int)
    requires
        0 <= i <= s.len(),
    ensures
        i <= hex_run_from(s, i) <= s.len(),
        forall|j: int| i <= j < hex_run_from(s, i) ==> is_hex_digit(#[trigger] s[j]),
        hex_run_from(s, i) == s.len() || !is_hex_digit(s[hex_run_from(s, i)]),
    decreases s.len() - i,
{
    if i < s.len() && is_hex_digit(s[i]) {
        lemma_hex_run_from(s, i + 1);
    }
}

/// The converse: a position bounding an all-digit run, itself past the end
/// or holding a non-digit, is where the run ends.
pub proof fn lemma_hex_run_from_unique(s: Seq<u8>, i: int, k: int)
    requires
        0 <= i <= k <= s.len(),
        forall|j: int| i <= j < k ==> is_hex_digit(#[trigger] s[j]),
        k == s.len() || !is_hex_digit(s[k]),
    ensures
        hex_run_from(s, i) == k,
    decreases k - i,
{
    if i < k {
        lemma_hex_run_from_unique(s, i + 1, k);
    }
}

/// Appending digits to a digit string never decreases its value.
proof fn lemma_hex_val_extend(s: Seq<u8>, a: int, j: int, b: int)
    requires
        0 <= a <= j <= b <= s.len(),
    ensures
        hex_val(s.subrange(a, b)) >= hex_val(s.subrange(a, j)),
    decreases b - j,
{
    if j < b {
        lemma_hex_val_extend(s, a, j, b - 1);
        assert(s.subrange(a, b).drop_last() =~= s.subrange(a, b - 1));
    }
}

// ---------------------------------------------------------------------------
// The directive grammar
// ---------------------------------------------------------------------------

/// The bytes of `.bin`.
pub open spec fn bin_ext() -> Seq<u8> {
    seq![46u8, 98u8, 105u8, 110u8]
}

/// The bytes of `.pgm`.
pub open spec fn pgm_ext() -> Seq<u8> {
    seq![46u8, 112u8, 103u8, 109u8]
}

/// The bytes of `.bin:`, the required suffix of a destination declaration.
pub open spec fn decl_suffix() -> Seq<u8> {
    seq![46u8, 98u8, 105u8, 110u8, 58u8]
}

/// Whether position `p` can end the source path of directive line `s`:
/// the path must start after the destination index (the leading digit run)
/// and its separating space, end in `.bin` or `.pgm`, and be followed by
/// `:<src-hex>` to the end of the line, optionally with a final `:1`, `:2`
/// or `:4` extent group.
pub open spec fn valid_split(s: Seq<u8>, p: int) -> bool {
    let hr = hex_run_from(s, 0);
    let k = hex_run_from(s, p + 1);
    &&& hr + 5 <= p
    &&& p + 2 <= s.len()
    &&& s[p] == 58
    &&& (s.subrange(p - 4, p) == bin_ext() || s.subrange(p - 4, p) == pgm_ext())
    &&& p + 1 < k
    &&& (k == s.len() || (k == s.len() - 2 && s[s.len() - 2] == 58 && (s[s.len() - 1] == 49
        || s[s.len() - 1] == 50 || s[s.len() - 1] == 52)))
}

/// The greatest valid path end at or below `q`, or `-1` if there is none.
/// The scan runs from high positions down, which makes the path group
/// greedy: the longest path that leaves a well-formed tail wins.
pub open spec fn find_split(s: Seq<u8>, q: int) -> int
    decreases q,
{
    if q < 5 {
        -1
    } else if valid_split(s, q) {
        q
    } else {
        find_split(s, q - 1)
    }
}

/// What `find_split` returns: either no position at or below `q` is valid,
/// or the result is the greatest valid one.
pub proof fn lemma_find_split(s: Seq<u8>, q: int)
    ensures
        find_split(s, q) == -1 ==> forall|r: int| r <= q ==> !#[trigger] valid_split(s, r),
        find_split(s, q) >= 0 ==> 5 <= find_split(s, q) <= q && valid_split(s, find_split(s, q))
            && forall|r: int| find_split(s, q) < r <= q ==> !#[trigger] valid_split(s, r),
    decreases q,
{
    lemma_hex_run_from(s, 0);
    if q < 5 {
        assert forall|r: int| r <= q implies !#[trigger] valid_split(s, r) by {
            if valid_split(s, r) {
                assert(hex_run_from(s, 0) + 5 <= r);
            }
        }
    } else if valid_split(s, q) {
    } else {
        lemma_find_split(s, q - 1);
    }
}

/// The converse of [`lemma_find_split`]: a valid split above which no
/// other is valid is what the scan finds.
pub proof fn lemma_find_split_unique(s: Seq<u8>, q: int, p: int)
    requires
        5 <= p <= q,
        valid_split(s, p),
        forall|r: int| p < r <= q ==> !#[trigger] valid_split(s, r),
    ensures
        find_split(s, q) == p,
    decreases q,
{
    if q > p {
        lemma_find_split_unique(s, q - 1, p);
    }
}

/// One parsed directive line, at the specification level. Indices carry
/// their full unbounded values; whether they fit the machine is checked
/// separately.
pub ghost struct DirectiveForm {
    pub dst_idx: nat,
    pub path: Seq<u8>,
    pub src_idx: nat,
    pub size: nat,
    pub kind: SourceKind,
}

/// Parses one (already trimmed) directive line: `None` when the line does
/// not match the grammar, otherwise the captured destination index, source
/// path, source index, extent (1 when the group is absent) and source kind
/// from the path's extension.
pub open spec fn spec_parse_directive(s: Seq<u8>) -> Option<DirectiveForm> {
    let hr = hex_run_from(s, 0);
    if !(1 <= hr && hr < s.len() && s[hr] == 32) {
        None
    } else {
        let p = find_split(s, s.len() - 2);
        if p < 0 {
            None
        } else {
            let k = hex_run_from(s, p + 1);
            Some(
                DirectiveForm {
                    dst_idx: hex_val(s.subrange(0, hr)),
                    path: s.subrange(hr + 1, p),
                    src_idx: hex_val(s.subrange(p + 1, k)),
                    size: if k == s.len() {
                        1
                    } else {
                        (s[s.len() - 1] - 48) as nat
                    },
                    kind: if s.subrange(p - 4, p) == bin_ext() {
                        SourceKind::Raw
                    } else {
                        SourceKind::Raster
                    },
                },
            )
        }
    }
}

// ---------------------------------------------------------------------------
// Executable types
// ---------------------------------------------------------------------------

/// How a directive's source file is read, decided once at parse time from
/// the path's extension: a raw 32-byte-per-record tile table (`.bin`) or a
/// grayscale pixel raster (`.pgm`).
#[derive(Clone, Copy, PartialEq, Eq, Structural, Debug)]
pub enum SourceKind {
    Raw,
    Raster,
}

/// Why a directive line was rejected.
#[derive(Clone, Copy, PartialEq, Eq, Structural, Debug)]
pub enum ParseFailure {
    /// The line does not match the directive grammar.
    NoMatch,
    /// The line matches, but a tile index does not fit the machine word.
    IndexTooLarge,
}

/// One parsed directive line.
#[derive(Debug, PartialEq, Eq)]
pub struct ParsedDirective {
    pub dst_idx: usize,
    pub path: Vec<u8>,
    pub src_idx: usize,
    pub size: usize,
    pub kind: SourceKind,
}

// ---------------------------------------------------------------------------
// Executable helpers
// ---------------------------------------------------------------------------

fn is_hex(b: u8) -> (r: bool)
    ensures
        r == is_hex_digit(b),
{
    (48 <= b && b <= 57) || (97 <= b && b <= 102) || (65 <= b && b <= 70)
}

fn hex_digit(b: u8) -> (r: u8)
    requires
        is_hex_digit(b),
    ensures
        r as nat == hex_digit_val(b),
        r < 16,
{
    if b <= 57 {
        b - 48
    } else if b >= 97 {
        b - 87
    } else {
        b - 55
    }
}

/// Scans the run of hexadecimal digits starting at `start`.
fn hex_run(line: &Vec<u8>, start: usize) -> (k: usize)
    requires
        start <= line@.len(),
    ensures
        k as int == hex_run_from(line@, start as int),
        start <= k <= line@.len(),
{
    let n = line.len();
    let mut k = start;
    while k < n && is_hex(line[k])
        invariant
            start <= k <= n,
            n == line@.len(),
            hex_run_from(line@, start as int) == hex_run_from(line@, k as int),
        decreases n - k,
    {
        proof {
            assert(hex_run_from(line@, k as int) == hex_run_from(line@, k as int + 1));
        }
        k += 1;
    }
    proof {
        assert(hex_run_from(line@, k as int) == k as int);
    }
    k
}

/// Copies the bytes `[a, b)` of `line` into a fresh vector.
fn clone_range(line: &Vec<u8>, a: usize, b: usize) -> (t: Vec<u8>)
    requires
        a <= b <= line@.len(),
    ensures
        t@ == line@.subrange(a as int, b as int),
{
    let mut t: Vec<u8> = Vec::new();
    let mut j = a;
    while j < b
        invariant
            a <= j <= b <= line@.len(),
            t@.len() == j - a,
            forall|i: int| 0 <= i < t@.len() ==> t@[i] == line@[a + i],
        decreases b - j,
    {
        t.push(line[j]);
        j += 1;
    }
    proof {
        assert(t@ =~= line@.subrange(a as int, b as int));
    }
    t
}

/// Parses the digits `[a, b)` of `line` as a hexadecimal number; `None`
/// when the value does not fit a `usize`.
fn parse_hex(line: &Vec<u8>, a: usize, b: usize) -> (r: Option<usize>)
    requires
        a <= b <= line@.len(),
        forall|j: int| a <= j < b ==> is_hex_digit(#[trigger] line@[j]),
    ensures
        match r {
            Some(v) => v as nat == hex_val(line@.subrange(a as int, b as int)),
            None => hex_val(line@.subrange(a as int, b as int)) > usize::MAX,
        },
{
    let mut acc: usize = 0;
    let mut j = a;
    proof {
        assert(line@.subrange(a as int, a as int) =~= Seq::<u8>::empty());
    }
    while j < b
        invariant
            a <= j <= b <= line@.len(),
            forall|i: int| a <= i < b ==> is_hex_digit(#[trigger] line@[i]),
            acc as nat == hex_val(line@.subrange(a as int, j as int)),
        decreases b - j,
    {
        let d = hex_digit(line[j]);
        proof {
            assert(line@.subrange(a as int, j as int + 1).drop_last() =~= line@.subrange(
                a as int,
                j as int,
            ));
            assert(line@.subrange(a as int, j as int + 1).last() == line@[j as int]);
        }
        let m = match acc.checked_mul(16) {
            Some(m) => m,
            None => {
                proof {
                    lemma_hex_val_extend(line@, a as int, j as int + 1, b as int);
                }
                return None;
            },
        };
        let next = match m.checked_add(d as usize) {
            Some(x) => x,
            None => {
                proof {
                    lemma_hex_val_extend(line@, a as int, j as int + 1, b as int);
                }
                return None;
            },
        };
        acc = next;
        j += 1;
    }
    Some(acc)
}

/// Checks whether `q` is a valid end-of-path split of the directive line.
fn check_split(line: &Vec<u8>, q: usize, hr: usize) -> (ok: bool)
    requires
        hr as int == hex_run_from(line@, 0),
        5 <= q,
        q + 2 <= line@.len(),
    ensures
        ok == valid_split(line@, q as int),
{
    let n = line.len();
    proof {
        assert(bin_ext()[0] == 46 && bin_ext()[1] == 98 && bin_ext()[2] == 105 && bin_ext()[3]
            == 110);
        assert(pgm_ext()[0] == 46 && pgm_ext()[1] == 112 && pgm_ext()[2] == 103 && pgm_ext()[3]
            == 109);
        assert(line@.subrange(q as int - 4, q as int)[0] == line@[q as int - 4]);
        assert(line@.subrange(q as int - 4, q as int)[1] == line@[q as int - 3]);
        assert(line@.subrange(q as int - 4, q as int)[2] == line@[q as int - 2]);
        assert(line@.subrange(q as int - 4, q as int)[3] == line@[q as int - 1]);
    }
    if hr > q - 5 {
        return false;
    }
    if line[q] != 58 {
        return false;
    }
    let ext_bin = line[q - 4] == 46 && line[q - 3] == 98 && line[q - 2] == 105 && line[q - 1]
        == 110;
    let ext_pgm = line[q - 4] == 46 && line[q - 3] == 112 && line[q - 2] == 103 && line[q - 1]
        == 109;
    if !(ext_bin || ext_pgm) {
        return false;
    }
    proof {
        if ext_bin {
            assert(line@.subrange(q as int - 4, q as int) =~= bin_ext());
        } else {
            assert(line@.subrange(q as int - 4, q as int) =~= pgm_ext());
        }
    }
    let k = hex_run(line, q + 1);
    if k <= q + 1 {
        return false;
    }
    if k == n {
        return true;
    }
    if n - k == 2 && line[n - 2] == 58 && (line[n - 1] == 49 || line[n - 1] == 50 || line[n - 1]
        == 52) {
        return true;
    }
    false
}

/// Scans downward from `q` for the greatest valid split.
fn find_split_from(line: &Vec<u8>, q: usize, hr: usize) -> (r: Option<usize>)
    requires
        hr as int == hex_run_from(line@, 0),
        q + 2 <= line@.len(),
    ensures
        match r {
            Some(p) => p as int == find_split(line@, q as int) && 5 <= p <= q,
            None => find_split(line@, q as int) == -1,
        },
    decreases q,
{
    if q < 5 {
        return None;
    }
    if check_split(line, q, hr) {
        return Some(q);
    }
    if q == 5 {
        proof {
            assert(find_split(line@, 4) == -1);
            assert(find_split(line@, 5) == find_split(line@, 4));
        }
        return None;
    }
    find_split_from(line, q - 1, hr)
}

/// Parses one directive line (already trimmed of leading whitespace).
///
/// The result is exactly what the grammar says: `NoMatch` if and only if the
/// line does not match, `IndexTooLarge` if and only if it matches but one of
/// the two hexadecimal tile indices exceeds `usize::MAX`, and otherwise the
/// captured fields.
pub fn parse_directive(line: &Vec<u8>) -> (r: Result<ParsedDirective, ParseFailure>)
    ensures
        match spec_parse_directive(line@) {
            None => r == Err::<ParsedDirective, ParseFailure>(ParseFailure::NoMatch),
            Some(d) => {
                if d.dst_idx <= usize::MAX && d.src_idx <= usize::MAX {
                    match r {
                        Ok(pd) => {
                            &&& pd.dst_idx as nat == d.dst_idx
                            &&& pd.path@ == d.path
                            &&& pd.src_idx as nat == d.src_idx
                            &&& pd.size as nat == d.size
                            &&& pd.kind == d.kind
                        },
                        Err(_) => false,
                    }
                } else {
                    r == Err::<ParsedDirective, ParseFailure>(ParseFailure::IndexTooLarge)
                }
            },
        },
{
    let n = line.len();
    let hr = hex_run(line, 0);
    if hr == 0 || hr >= n {
        return Err(ParseFailure::NoMatch);
    }
    if line[hr] != 32 {
        return Err(ParseFailure::NoMatch);
    }
    let p = match find_split_from(line, n - 2, hr) {
        Some(p) => p,
        None => {
            return Err(ParseFailure::NoMatch);
        },
    };
    proof {
        lemma_find_split(line@, n as int - 2);
        lemma_hex_run_from(line@, 0);
        lemma_hex_run_from(line@, p as int + 1);
    }
    let k = hex_run(line, p + 1);
    let dst = match parse_hex(line, 0, hr) {
        Some(v) => v,
        None => {
            return Err(ParseFailure::IndexTooLarge);
        },
    };
    let src = match parse_hex(line, p + 1, k) {
        Some(v) => v,
        None => {
            return Err(ParseFailure::IndexTooLarge);
        },
    };
    let size: usize = if k == n {
        1
    } else {
        (line[n - 1] - 48) as usize
    };
    let kind = if line[p - 3] == 98 {
        proof {
            assert(line@.subrange(p as int - 4, p as int)[1] == line@[p as int - 3]);
            assert(pgm_ext()[1] == 112);
        }
        SourceKind::Raw
    } else {
        proof {
            assert(line@.subrange(p as int - 4, p as int)[1] == line@[p as int - 3]);
            assert(bin_ext()[1] == 98);
        }
        SourceKind::Raster
    };
    let path = clone_range(line, hr + 1, p);
    Ok(ParsedDirective { dst_idx: dst, path, src_idx: src, size, kind })
}

// ---------------------------------------------------------------------------
// Whole-script parsing
// ---------------------------------------------------------------------------

/// One parsed copy directive: copy a `size × size` block of tiles starting
/// at tile `from_idx` of `from_file` onto the block starting at tile
/// `to_idx` of `to_file`.
#[derive(Debug, PartialEq, Eq)]
pub struct TilemapEdit {
    pub from_file: Vec<u8>,
    pub from_idx: usize,
    pub to_file: Vec<u8>,
    pub to_idx: usize,
    pub size: usize,
    pub kind: SourceKind,
}

/// A [`TilemapEdit`], at the specification level.
pub ghost struct EditV {
    pub from_file: Seq<u8>,
    pub from_idx: int,
    pub to_file: Seq<u8>,
    pub to_idx: int,
    pub size: int,
    pub kind: SourceKind,
}

impl View for TilemapEdit {
    type V = EditV;

    open spec fn view(&self) -> EditV {
        EditV {
            from_file: self.from_file@,
            from_idx: self.from_idx as int,
            to_file: self.to_file@,
            to_idx: self.to_idx as int,
            size: self.size as int,
            kind: self.kind,
        }
    }
}

/// The ordered list of directives of one script, in file order.
#[derive(Debug, PartialEq, Eq)]
pub struct TilemapEdits(pub Vec<TilemapEdit>);

impl View for TilemapEdits {
    type V = Seq<EditV>;

    open spec fn view(&self) -> Seq<EditV> {
        edits_view(self.0@)
    }
}

/// The views of a sequence of edits.
pub open spec fn edits_view(edits: Seq<TilemapEdit>) -> Seq<EditV> {
    edits.map_values(|e: TilemapEdit| e@)
}

/// Why loading a script failed; each variant carries the index of the
/// offending line.
#[derive(Clone, Copy, PartialEq, Eq, Structural, Debug)]
pub enum ScriptError {
    /// An indented line does not match the directive grammar.
    BadDirective(usize),
    /// A directive line appeared before any destination declaration.
    NoDestination(usize),
    /// An unindented line does not end in `.bin:`.
    BadDeclaration(usize),
    /// A directive's tile index does not fit the machine word.
    IndexTooLarge(usize),
}

/// The views of a sequence of byte lines.
pub open spec fn lines_view(lines: Seq<Vec<u8>>) -> Seq<Seq<u8>> {
    lines.map_values(|v: Vec<u8>| v@)
}

/// Parses a script from line `i` on, with `cur` the destination file
/// currently in force. Empty lines are skipped; a line starting with a
/// space is a directive against `cur`; any other line must declare a new
/// destination by ending in `.bin:`. The first failing line aborts the
/// whole load.
pub open spec fn load_spec(lines: Seq<Seq<u8>>, i: int, cur: Option<Seq<u8>>) -> Result<
    Seq<EditV>,
    ScriptError,
>
    decreases lines.len() - i,
{
    if i < 0 || i >= lines.len() {
        Ok(Seq::empty())
    } else {
        let line = lines[i];
        if line.len() == 0 {
            load_spec(lines, i + 1, cur)
        } else if line[0] == 32 {
            let t = line.subrange(trim_from(line, 0), line.len() as int);
            match spec_parse_directive(t) {
                None => Err(ScriptError::BadDirective(i as usize)),
                Some(d) => match cur {
                    None => Err(ScriptError::NoDestination(i as usize)),
                    Some(dest) => if d.dst_idx > usize::MAX || d.src_idx > usize::MAX {
                        Err(ScriptError::IndexTooLarge(i as usize))
                    } else {
                        match load_spec(lines, i + 1, cur) {
                            Ok(rest) => Ok(
                                seq![
                                    EditV {
                                        from_file: d.path,
                                        from_idx: d.src_idx as int,
                                        to_file: dest,
                                        to_idx: d.dst_idx as int,
                                        size: d.size as int,
                                        kind: d.kind,
                                    },
                                ] + rest,
                            ),
                            Err(e) => Err(e),
                        }
                    },
                },
            }
        } else {
            if line.len() >= 5 && line.subrange(line.len() - 5, line.len() as int)
                == decl_suffix() {
                load_spec(lines, i + 1, Some(line.subrange(0, line.len() - 1)))
            } else {
                Err(ScriptError::BadDeclaration(i as usize))
            }
        }
    }
}

/// Destination-state reset: an unindented line is handled without regard
/// to the destination previously in force — a well-formed declaration
/// replaces it, so the directives that follow route to the newly declared
/// file no matter what earlier blocks declared.
pub proof fn lemma_declaration_resets_destination(
    lines: Seq<Seq<u8>>,
    i: int,
    cur1: Option<Seq<u8>>,
    cur2: Option<Seq<u8>>,
)
    requires
        0 <= i < lines.len(),
        lines[i].len() > 0,
        lines[i][0] != 32,
    ensures
        load_spec(lines, i, cur1) == load_spec(lines, i, cur2),
{
}

/// The view of the running destination state.
spec fn opt_view(o: Option<Vec<u8>>) -> Option<Seq<u8>> {
    match o {
        Some(v) => Some(v@),
        None => None,
    }
}

/// Prefixes already-collected edits onto the result of parsing the rest.
spec fn prepend(a: Seq<EditV>, r: Result<Seq<EditV>, ScriptError>) -> Result<
    Seq<EditV>,
    ScriptError,
> {
    match r {
        Ok(s) => Ok(a + s),
        Err(e) => Err(e),
    }
}

fn is_space_exec(b: u8) -> (r: bool)
    ensures
        r == is_space(b),
{
    b == 32 || (9 <= b && b <= 13)
}

/// Copies `line` without its leading whitespace.
fn trim_leading(line: &Vec<u8>) -> (t: Vec<u8>)
    ensures
        t@ == line@.subrange(trim_from(line@, 0), line@.len() as int),
{
    let n = line.len();
    let mut i: usize = 0;
    while i < n && is_space_exec(line[i])
        invariant
            i <= n,
            n == line@.len(),
            trim_from(line@, 0) == trim_from(line@, i as int),
        decreases n - i,
    {
        proof {
            assert(trim_from(line@, i as int) == trim_from(line@, i as int + 1));
        }
        i += 1;
    }
    proof {
        assert(trim_from(line@, i as int) == i as int);
    }
    clone_range(line, i, n)
}

/// Parses a whole script, given as its list of lines.
///
/// The result is exactly [`load_spec`] over the lines: the directives in
/// file order with the destination-declaration state threaded through, or
/// the error of the first line that fails.
pub fn load(lines: &Vec<Vec<u8>>) -> (r: Result<TilemapEdits, ScriptError>)
    ensures
        match r {
            Ok(es) => load_spec(lines_view(lines@), 0, None) == Ok::<Seq<EditV>, ScriptError>(
                es@,
            ),
            Err(e) => load_spec(lines_view(lines@), 0, None) == Err::<Seq<EditV>, ScriptError>(e),
        },
{
    let ghost l = lines_view(lines@);
    let n = lines.len();
    let mut cur: Option<Vec<u8>> = None;
    let mut acc: Vec<TilemapEdit> = Vec::new();
    let mut i: usize = 0;
    proof {
        assert(prepend(edits_view(acc@), load_spec(l, 0, opt_view(cur))) == load_spec(
            l,
            0,
            None,
        ));
    }
    while i < n
        invariant
            i <= n,
            n == lines@.len(),
            l == lines_view(lines@),
            load_spec(l, 0, None) == prepend(
                edits_view(acc@),
                load_spec(l, i as int, opt_view(cur)),
            ),
        decreases n - i,
    {
        let line = &lines[i];
        proof {
            assert(l[i as int] == line@);
        }
        if line.len() == 0 {
            i += 1;
        } else if line[0] == 32 {
            let t = trim_leading(line);
            match parse_directive(&t) {
                Err(ParseFailure::NoMatch) => {
                    let e = ScriptError::BadDirective(i);
                    proof {
                        assert(load_spec(l, i as int, opt_view(cur)) == Err::<
                            Seq<EditV>,
                            ScriptError,
                        >(e));
                    }
                    return Err(e);
                },
                Err(ParseFailure::IndexTooLarge) => {
                    match &cur {
                        None => {
                            let e = ScriptError::NoDestination(i);
                            proof {
                                assert(load_spec(l, i as int, opt_view(cur)) == Err::<
                                    Seq<EditV>,
                                    ScriptError,
                                >(e));
                            }
                            return Err(e);
                        },
                        Some(_) => {
                            let e = ScriptError::IndexTooLarge(i);
                            proof {
                                assert(load_spec(l, i as int, opt_view(cur)) == Err::<
                                    Seq<EditV>,
                                    ScriptError,
                                >(e));
                            }
                            return Err(e);
                        },
                    }
                },
                Ok(pd) => {
                    match &cur {
                        None => {
                            let e = ScriptError::NoDestination(i);
                            proof {
                                assert(load_spec(l, i as int, opt_view(cur)) == Err::<
                                    Seq<EditV>,
                                    ScriptError,
                                >(e));
                            }
                            return Err(e);
                        },
                        Some(dest) => {
                            let to_file = clone_range(dest, 0, dest.len());
                            proof {
                                assert(to_file@ =~= dest@);
                            }
                            let edit = TilemapEdit {
                                from_file: pd.path,
                                from_idx: pd.src_idx,
                                to_file,
                                to_idx: pd.dst_idx,
                                size: pd.size,
                                kind: pd.kind,
                            };
                            let ghost ev = edit@;
                            let ghost old_acc = acc@;
                            acc.push(edit);
                            proof {
                                assert(edits_view(acc@) =~= edits_view(old_acc).push(ev));
                                let step = load_spec(l, i as int, opt_view(cur));
                                let rest = load_spec(l, i as int + 1, opt_view(cur));
                                assert(step == match rest {
                                    Ok(r2) => Ok::<Seq<EditV>, ScriptError>(seq![ev] + r2),
                                    Err(e) => Err::<Seq<EditV>, ScriptError>(e),
                                });
                                match rest {
                                    Ok(r2) => {
                                        assert(edits_view(old_acc) + (seq![ev] + r2)
                                            =~= edits_view(old_acc).push(ev) + r2);
                                    },
                                    Err(_) => {},
                                }
                            }
                            i += 1;
                        },
                    }
                },
            }
        } else {
            let m = line.len();
            proof {
                assert(decl_suffix()[0] == 46 && decl_suffix()[1] == 98 && decl_suffix()[2]
                    == 105 && decl_suffix()[3] == 110 && decl_suffix()[4] == 58);
                if m >= 5 {
                    assert(line@.subrange(m - 5, m as int)[0] == line@[m - 5]);
                    assert(line@.subrange(m - 5, m as int)[1] == line@[m - 4]);
                    assert(line@.subrange(m - 5, m as int)[2] == line@[m - 3]);
                    assert(line@.subrange(m - 5, m as int)[3] == line@[m - 2]);
                    assert(line@.subrange(m - 5, m as int)[4] == line@[m - 1]);
                }
            }
            if m >= 5 && line[m - 5] == 46 && line[m - 4] == 98 && line[m - 3] == 105 && line[m
                - 2] == 110 && line[m - 1] == 58 {
                proof {
                    assert(line@.subrange(m - 5, m as int) =~= decl_suffix());
                }
                let new_dest = clone_range(line, 0, m - 1);
                cur = Some(new_dest);
                i += 1;
            } else {
                let e = ScriptError::BadDeclaration(i);
                proof {
                    assert(line@.subrange(m - 5, m as int) != decl_suffix() || m < 5);
                    assert(load_spec(l, i as int, opt_view(cur)) == Err::<Seq<EditV>, ScriptError>(
                        e,
                    ));
                }
                return Err(e);
            }
        }
    }
    proof {
        assert(load_spec(l, n as int, opt_view(cur)) == Ok::<Seq<EditV>, ScriptError>(
            Seq::empty(),
        ));
        assert(edits_view(acc@) + Seq::<EditV>::empty() =~= edits_view(acc@));
    }
    Ok(TilemapEdits(acc))
}

// ---------------------------------------------------------------------------
// Directive expansion
// ---------------------------------------------------------------------------

/// One expanded tile-copy operation: read source tile `src_idx`, write it
/// over destination tile `dst_idx`.
pub struct CopyOp {
    pub src_idx: usize,
    pub dst_idx: usize,
}

/// The tile-index offsets covered by a `size × size` block, in application
/// order: sub-tile `(x, y)` (for `x` across rows, `y` within a row) has
/// offset `16 * x + y`, walking a square block of a tile table whose row
/// stride is 16 tiles, column-major: all `y` for `x = 0`, then `x = 1`, and
/// so on.
pub open spec fn copy_offsets(size: int) -> Seq<int> {
    Seq::new((size * size) as nat, |i: int| 16 * (i / size) + i % size)
}

impl TilemapEdit {
    /// The extent is one of the three legal block sizes.
    pub open spec fn wf(&self) -> bool {
        self.size == 1 || self.size == 2 || self.size == 4
    }

    /// Expands the directive into its `size × size` per-tile copy
    /// operations, in order: operation `i` copies source tile
    /// `from_idx + copy_offsets(size)[i]` onto destination tile
    /// `to_idx + copy_offsets(size)[i]`.
    pub fn expand(&self) -> (ops: Vec<CopyOp>)
        requires
            self.wf(),
            self.from_idx + 17 * (self.size - 1) <= usize::MAX,
            self.to_idx + 17 * (self.size - 1) <= usize::MAX,
        ensures
            ops@.len() == self.size * self.size,
            forall|i: int|
                0 <= i < ops@.len() ==> (#[trigger] ops@[i]).src_idx == self.from_idx
                    + copy_offsets(self.size as int)[i] && ops@[i].dst_idx == self.to_idx
                    + copy_offsets(self.size as int)[i],
    {
        let size = self.size;
        let mut ops: Vec<CopyOp> = Vec::new();
        let mut x: usize = 0;
        while x < size
            invariant
                self.wf(),
                size == self.size,
                self.from_idx + 17 * (size - 1) <= usize::MAX,
                self.to_idx + 17 * (size - 1) <= usize::MAX,
                x <= size,
                ops@.len() == x * size,
                forall|i: int|
                    0 <= i < ops@.len() ==> (#[trigger] ops@[i]).src_idx == self.from_idx
                        + copy_offsets(size as int)[i] && ops@[i].dst_idx == self.to_idx
                        + copy_offsets(size as int)[i],
            decreases size - x,
        {
            let mut y: usize = 0;
            while y < size
                invariant
                    self.wf(),
                    size == self.size,
                    self.from_idx + 17 * (size - 1) <= usize::MAX,
                    self.to_idx + 17 * (size - 1) <= usize::MAX,
                    x < size,
                    y <= size,
                    ops@.len() == x * size + y,
                    forall|i: int|
                        0 <= i < ops@.len() ==> (#[trigger] ops@[i]).src_idx == self.from_idx
                            + copy_offsets(size as int)[i] && ops@[i].dst_idx == self.to_idx
                            + copy_offsets(size as int)[i],
                decreases size - y,
            {
                let off = 16 * x + y;
                let op = CopyOp { src_idx: self.from_idx + off, dst_idx: self.to_idx + off };
                ops.push(op);
                proof {
                    assert(0 <= (x as int) * (size as int) + (y as int) && (x as int) * (size
                        as int) + (y as int) < (size as int) * (size as int)) by (nonlinear_arith)
                        requires
                            0 <= (x as int) < (size as int),
                            0 <= (y as int) < (size as int),
                    ;
                    vstd::arithmetic::div_mod::lemma_fundamental_div_mod_converse(
                        x as int * (size as int) + y as int,
                        size as int,
                        x as int,
                        y as int,
                    );
                    assert(copy_offsets(size as int)[x as int * (size as int) + y as int] == 16
                        * (x as int) + y as int);
                }
                y += 1;
            }
            proof {
                assert((x as int + 1) * (size as int) == x as int * (size as int) + size as int)
                    by (nonlinear_arith);
            }
            x += 1;
        }
        ops
    }
}

/// Extent default: a directive line that omits the trailing `:<extent>`
/// group parses with extent 1, and appending an explicit `:1` to it parses
/// to exactly the same directive.
pub proof fn lemma_extent_default(s: Seq<u8>)
    requires
        spec_parse_directive(s) is Some,
        // the line has no extent group: the source-index digits run to its end
        hex_run_from(s, find_split(s, s.len() - 2) + 1) == s.len(),
    ensures
        (match spec_parse_directive(s) {
            Some(d) => d.size == 1,
            None => false,
        }),
        spec_parse_directive(s + seq![58u8, 49u8]) == spec_parse_directive(s),
{
    let s2 = s + seq![58u8, 49u8];
    let n = s.len() as int;
    let hr = hex_run_from(s, 0);
    let p = find_split(s, n - 2);
    lemma_hex_run_from(s, 0);
    lemma_find_split(s, n - 2);
    assert(1 <= hr && hr < n && s[hr] == 32);
    assert(p >= 0);
    assert(valid_split(s, p));
    let k = hex_run_from(s, p + 1);
    assert(k == n);
    lemma_hex_run_from(s, p + 1);
    assert(s2.len() == n + 2);
    assert(forall|i: int| 0 <= i < n ==> s2[i] == s[i]);
    assert(s2[n] == 58 && s2[n + 1] == 49);
    assert forall|j: int| 0 <= j < hr implies is_hex_digit(#[trigger] s2[j]) by {
        assert(s2[j] == s[j]);
    }
    lemma_hex_run_from_unique(s2, 0, hr);
    assert(hex_run_from(s2, 0) == hr);
    assert forall|j: int| p + 1 <= j < n implies is_hex_digit(#[trigger] s2[j]) by {
        assert(s2[j] == s[j]);
    }
    assert(!is_hex_digit(58));
    lemma_hex_run_from_unique(s2, p + 1, n);
    assert(hex_run_from(s2, p + 1) == n);
    assert(s2.subrange(p - 4, p) =~= s.subrange(p - 4, p));
    assert(valid_split(s2, p));
    assert forall|q: int| p < q <= n implies !#[trigger] valid_split(s2, q) by {
        if valid_split(s2, q) {
            lemma_hex_run_from(s2, q + 1);
            let k2q = hex_run_from(s2, q + 1);
            if k2q == n + 2 {
                assert(is_hex_digit(s2[n]));
            }
            assert(k2q == n);
            assert(q + 1 < k2q);
            assert(q <= n - 2);
            assert forall|j: int| q + 1 <= j < n implies is_hex_digit(#[trigger] s[j]) by {
                assert(s2[j] == s[j]);
            }
            lemma_hex_run_from_unique(s, q + 1, n);
            assert(hex_run_from(s, q + 1) == n);
            assert(s.subrange(q - 4, q) =~= s2.subrange(q - 4, q));
            assert(valid_split(s, q));
            assert(false);
        }
    }
    lemma_find_split_unique(s2, n, p);
    assert(find_split(s2, s2.len() - 2) == p);
    assert(s2.subrange(0, hr) =~= s.subrange(0, hr));
    assert(s2.subrange(hr + 1, p) =~= s.subrange(hr + 1, p));
    assert(s2.subrange(p + 1, n) =~= s.subrange(p + 1, n));
    assert(spec_parse_directive(s2) == spec_parse_directive(s));
}

/// Block expansion for extent 2: a directive expands to exactly four
/// sub-copies, applied in this order, whose offsets — added to both the
/// source and the destination tile index — are 0, 1, 16 and 17.
pub proof fn lemma_block_expansion()
    ensures
        copy_offsets(2) == seq![0int, 1int, 16int, 17int],
{
    assert(copy_offsets(2) =~= seq![0int, 1int, 16int, 17int]);
}

} // verus!
