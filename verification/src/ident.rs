//! Tile identifiers: the deterministic string that names one tile of one
//! source, `<stem>_<DIRTAG>[_bias<N>]_x<COL>_y<ROW>`, and the proofs that the
//! format is injective — the basis of image/label correspondence.

use vstd::prelude::*;
use vstd::string::*;

use crate::digits::{
    char_is_digit, dec_digits, is_digit_char, lemma_dec_digits_canonical,
    lemma_dec_digits_injective, lemma_digit_run_boundary, parse_dec_range, u32_to_dec,
};

verus! {

/// The two traversal directions: tiles anchored from the top-left corner, or
/// from the bottom-right corner by subtracting offsets from the source size.
#[derive(Clone, Copy, PartialEq, Eq, Structural, Debug)]
pub enum Direction {
    ForwardAnchored,
    ReverseAnchored,
}

/// The fixed identifier tag of each direction.
pub open spec fn spec_dir_tag(d: Direction) -> Seq<char> {
    match d {
        Direction::ForwardAnchored => seq!['L', 'T', 'R'],
        Direction::ReverseAnchored => seq!['R', 'T', 'L'],
    }
}

/// The optional bias segment of an identifier: absent entirely when bias
/// stepping is not in use.
pub open spec fn bias_seg(bias: Option<u32>) -> Seq<char> {
    match bias {
        Some(b) => seq!['_', 'b', 'i', 'a', 's'] + dec_digits(b as nat),
        None => Seq::<char>::empty(),
    }
}

/// Everything of a tile identifier after the source stem.
pub open spec fn spec_id_suffix(d: Direction, bias: Option<u32>, col: u32, row: u32) -> Seq<char> {
    seq!['_'] + spec_dir_tag(d) + bias_seg(bias) + seq!['_', 'x'] + dec_digits(col as nat)
        + seq!['_', 'y'] + dec_digits(row as nat)
}

/// The identifier of one tile: the source stem, the direction tag, the bias
/// segment when bias stepping is in use, and the column and row indices.
pub open spec fn spec_tile_id(
    stem: Seq<char>,
    d: Direction,
    bias: Option<u32>,
    col: u32,
    row: u32,
) -> Seq<char> {
    stem + spec_id_suffix(d, bias, col, row)
}

/// The direction tag as a string slice.
pub fn dir_tag(d: Direction) -> (r: &'static str)
    ensures
        r@ == spec_dir_tag(d),
{
    proof {
        reveal_strlit("LTR");
        reveal_strlit("RTL");
    }
    match d {
        Direction::ForwardAnchored => {
            let t = "LTR";
            proof {
                assert(t@ =~= spec_dir_tag(d));
            }
            t
        }
        Direction::ReverseAnchored => {
            let t = "RTL";
            proof {
                assert(t@ =~= spec_dir_tag(d));
            }
            t
        }
    }
}

/// Builds the identifier of one tile, exactly as `spec_tile_id` states it.
pub fn format_tile_id(stem: &str, direction: Direction, bias: Option<u32>, col: u32, row: u32) -> (r:
    String)
    ensures
        r@ == spec_tile_id(stem@, direction, bias, col, row),
{
    let mut s = String::from_str(stem);
    s.append("_");
    s.append(dir_tag(direction));
    match bias {
        Some(b) => {
            s.append("_bias");
            let dec = u32_to_dec(b);
            s.append(dec.as_str());
        },
        None => {},
    }
    s.append("_x");
    let dec_col = u32_to_dec(col);
    s.append(dec_col.as_str());
    s.append("_y");
    let dec_row = u32_to_dec(row);
    s.append(dec_row.as_str());
    proof {
        reveal_strlit("_");
        reveal_strlit("_bias");
        reveal_strlit("_x");
        reveal_strlit("_y");
        assert(s@ =~= spec_tile_id(stem@, direction, bias, col, row));
    }
    s
}

/// The layout of a bias-free identifier, read off by position: with
/// `ls`, `lc` and `lr` the lengths of the stem and the two digit runs, the
/// name is `ls + 8 + lc + lr` characters, and every segment sits at a fixed
/// offset.
pub proof fn lemma_id_shape(stem: Seq<char>, d: Direction, col: u32, row: u32)
    ensures
        ({
            let s = spec_tile_id(stem, d, None, col, row);
            let ls = stem.len() as int;
            let lc = dec_digits(col as nat).len() as int;
            let lr = dec_digits(row as nat).len() as int;
            &&& s.len() == ls + 8 + lc + lr
            &&& s.subrange(0, ls) == stem
            &&& s[ls] == '_'
            &&& s.subrange(ls + 1, ls + 4) == spec_dir_tag(d)
            &&& s[ls + 4] == '_'
            &&& s[ls + 5] == 'x'
            &&& s.subrange(ls + 6, ls + 6 + lc) == dec_digits(col as nat)
            &&& s[ls + 6 + lc] == '_'
            &&& s[ls + 7 + lc] == 'y'
            &&& s.subrange(ls + 8 + lc, ls + 8 + lc + lr) == dec_digits(row as nat)
        }),
{
    let s = spec_tile_id(stem, d, None, col, row);
    let ls = stem.len() as int;
    let lc = dec_digits(col as nat).len() as int;
    let lr = dec_digits(row as nat).len() as int;
    assert(s == stem + (seq!['_'] + spec_dir_tag(d) + bias_seg(None) + seq!['_', 'x'] + dec_digits(
        col as nat,
    ) + seq!['_', 'y'] + dec_digits(row as nat)));
    assert(s.len() == ls + 8 + lc + lr);
    assert(s.subrange(0, ls) =~= stem);
    assert(s.subrange(ls + 1, ls + 4) =~= spec_dir_tag(d));
    assert(s.subrange(ls + 6, ls + 6 + lc) =~= dec_digits(col as nat));
    assert(s.subrange(ls + 8 + lc, ls + 8 + lc + lr) =~= dec_digits(row as nat));
}

/// A common prefix cancels: `p + a == p + b` forces `a == b`.
pub proof fn lemma_cancel_prefix(p: Seq<char>, a: Seq<char>, b: Seq<char>)
    requires
        p + a == p + b,
    ensures
        a == b,
{
    assert(a.len() == b.len()) by {
        assert((p + a).len() == p.len() + a.len());
        assert((p + b).len() == p.len() + b.len());
    }
    assert forall|i: int| 0 <= i < a.len() implies a[i] == b[i] by {
        assert((p + a)[p.len() + i] == a[i]);
        assert((p + b)[p.len() + i] == b[i]);
    }
    assert(a =~= b);
}

/// A bias-free tile name taken apart into its components: the filename
/// scheme that stitch input uses.
pub struct ParsedTileName {
    pub stem: String,
    pub direction: Direction,
    pub col: u32,
    pub row: u32,
}

/// Whether `s` is the bias-free identifier of some tile.
pub open spec fn is_tile_name(s: Seq<char>) -> bool {
    exists|stem: Seq<char>, dir: Direction, col: u32, row: u32|
        s == spec_tile_id(stem, dir, None, col, row)
}

/// Parses a filename (without its extension) against the fixed bias-free
/// pattern `<stem>_<DIRTAG>_x<COL>_y<ROW>`: the unique decomposition when the
/// name has one, and `None` exactly when it has none.
#[verifier::rlimit(100)]
pub fn parse_tile_name(name: &str) -> (r: Option<ParsedTileName>)
    ensures
        match r {
            Some(p) => name@ == spec_tile_id(p.stem@, p.direction, None, p.col, p.row),
            None => !is_tile_name(name@),
        },
{
    let s = name;
    let n = s.unicode_len();

    // The maximal all-digit run ending the name: any decomposition's row
    // digits are exactly this run, because a digit precedes nothing else.
    let mut t_row: usize = n;
    loop
        invariant_except_break
            n == s@.len(),
            t_row <= n,
            forall|j: int| t_row <= j < n ==> is_digit_char(#[trigger] s@[j]),
        ensures
            t_row <= n,
            forall|j: int| t_row <= j < n ==> is_digit_char(#[trigger] s@[j]),
            t_row == 0 || !is_digit_char(s@[t_row - 1]),
        decreases t_row,
    {
        if t_row == 0 {
            break;
        }
        if !char_is_digit(s.get_char(t_row - 1)) {
            break;
        }
        t_row = t_row - 1;
    }

    if t_row == n || t_row < 2 || s.get_char(t_row - 1) != 'y' || s.get_char(t_row - 2) != '_' {
        proof {
            assert forall|stem: Seq<char>, dir: Direction, col: u32, row: u32|
                name@ != spec_tile_id(stem, dir, None, col, row) by {
                if name@ == spec_tile_id(stem, dir, None, col, row) {
                    lemma_id_shape(stem, dir, col, row);
                    lemma_dec_digits_canonical(row as nat);
                    let ls = stem.len() as int;
                    let lc = dec_digits(col as nat).len() as int;
                    let lr = dec_digits(row as nat).len() as int;
                    let rs = ls + 8 + lc;
                    assert forall|j: int| rs <= j < n implies is_digit_char(#[trigger] s@[j]) by {
                        assert(s@[j] == dec_digits(row as nat)[j - rs]);
                    }
                    assert(s@[rs - 1] == 'y');
                    assert(t_row == rs) by {
                        if t_row < rs {
                            assert(is_digit_char(s@[rs - 1]));
                        }
                        if t_row > rs {
                            assert(!is_digit_char(s@[t_row - 1]));
                            assert(s@[t_row - 1] == dec_digits(row as nat)[t_row - 1 - rs]);
                        }
                    }
                    assert(s@[t_row - 2] == '_');
                    assert(false);
                }
            }
        }
        return None;
    }

    // The maximal all-digit run ending just before "_y": the column digits.
    let col_end = t_row - 2;
    let mut t_col: usize = col_end;
    loop
        invariant_except_break
            n == s@.len(),
            col_end < n,
            t_col <= col_end,
            forall|j: int| t_col <= j < col_end ==> is_digit_char(#[trigger] s@[j]),
        ensures
            t_col <= col_end,
            forall|j: int| t_col <= j < col_end ==> is_digit_char(#[trigger] s@[j]),
            t_col == 0 || !is_digit_char(s@[t_col - 1]),
        decreases t_col,
    {
        if t_col == 0 {
            break;
        }
        if !char_is_digit(s.get_char(t_col - 1)) {
            break;
        }
        t_col = t_col - 1;
    }

    let shape_ok: bool = t_col < col_end && t_col >= 6 && s.get_char(t_col - 1) == 'x'
        && s.get_char(t_col - 2) == '_' && s.get_char(t_col - 6) == '_';
    let mut tag_dir: Option<Direction> = None;
    if shape_ok {
        let c1 = s.get_char(t_col - 5);
        let c2 = s.get_char(t_col - 4);
        let c3 = s.get_char(t_col - 3);
        if c1 == 'L' && c2 == 'T' && c3 == 'R' {
            tag_dir = Some(Direction::ForwardAnchored);
        } else if c1 == 'R' && c2 == 'T' && c3 == 'L' {
            tag_dir = Some(Direction::ReverseAnchored);
        }
    }
    let col_v: Option<u32> = if shape_ok {
        parse_dec_range(s, t_col, col_end)
    } else {
        None
    };
    let row_v: Option<u32> = parse_dec_range(s, t_row, n);

    proof {
        // Under any decomposition, the computed boundaries are forced, so
        // every component check below tests the decomposition itself.
        assert forall|stem: Seq<char>, dir: Direction, col: u32, row: u32|
            name@ == spec_tile_id(stem, dir, None, col, row) implies {
            let lc = dec_digits(col as nat).len() as int;
            &&& t_row == stem.len() + 8 + lc
            &&& t_col == stem.len() + 6
            &&& s@.subrange(t_col as int, col_end as int) == dec_digits(col as nat)
            &&& s@.subrange(t_row as int, n as int) == dec_digits(row as nat)
            &&& s@.subrange(t_col - 5, t_col - 2) == spec_dir_tag(dir)
            &&& s@[t_col - 6] == '_'
            &&& s@[t_col - 1] == 'x'
            &&& s@[t_col - 2] == '_'
            &&& stem == s@.subrange(0, t_col - 6)
        } by {
            lemma_id_shape(stem, dir, col, row);
            lemma_dec_digits_canonical(row as nat);
            lemma_dec_digits_canonical(col as nat);
            let ls = stem.len() as int;
            let lc = dec_digits(col as nat).len() as int;
            let lr = dec_digits(row as nat).len() as int;
            let rs = ls + 8 + lc;
            assert forall|j: int| rs <= j < n implies is_digit_char(#[trigger] s@[j]) by {
                assert(s@[j] == dec_digits(row as nat)[j - rs]);
            }
            assert(s@[rs - 1] == 'y');
            assert(t_row == rs) by {
                if t_row < rs {
                    assert(is_digit_char(s@[rs - 1]));
                }
                if t_row > rs {
                    assert(!is_digit_char(s@[t_row - 1]));
                    assert(s@[t_row - 1] == dec_digits(row as nat)[t_row - 1 - rs]);
                }
            }
            let cs = ls + 6;
            assert forall|j: int| cs <= j < col_end implies is_digit_char(#[trigger] s@[j]) by {
                assert(s@[j] == dec_digits(col as nat)[j - cs]);
            }
            assert(s@[cs - 1] == 'x');
            assert(t_col == cs) by {
                if t_col < cs {
                    assert(is_digit_char(s@[cs - 1]));
                }
                if t_col > cs {
                    assert(!is_digit_char(s@[t_col - 1]));
                    assert(s@[t_col - 1] == dec_digits(col as nat)[t_col - 1 - cs]);
                }
            }
            assert(s@.subrange(t_col as int, col_end as int) == dec_digits(col as nat));
            assert(s@.subrange(t_row as int, n as int) == dec_digits(row as nat));
            assert(s@.subrange(t_col - 5, t_col - 2) =~= spec_dir_tag(dir)) by {
                assert(s@.subrange(ls + 1, ls + 4) == spec_dir_tag(dir));
            }
            assert(stem =~= s@.subrange(0, t_col - 6)) by {
                assert(s@.subrange(0, ls) == stem);
            }
        }
    }

    if !shape_ok || tag_dir.is_none() || col_v.is_none() || row_v.is_none() {
        proof {
            assert forall|stem: Seq<char>, dir: Direction, col: u32, row: u32|
                name@ != spec_tile_id(stem, dir, None, col, row) by {
                if name@ == spec_tile_id(stem, dir, None, col, row) {
                    assert(t_col < col_end && t_col >= 6);
                    assert(shape_ok);
                    assert(s@.subrange(t_col - 5, t_col - 2) == spec_dir_tag(dir));
                    assert(s@[t_col - 5] == spec_dir_tag(dir)[0]);
                    assert(s@[t_col - 4] == spec_dir_tag(dir)[1]);
                    assert(s@[t_col - 3] == spec_dir_tag(dir)[2]);
                    assert(tag_dir is Some);
                    assert(col_v is Some);
                    assert(row_v is Some);
                }
            }
        }
        return None;
    }

    let direction = tag_dir.unwrap();
    let col = col_v.unwrap();
    let row = row_v.unwrap();
    let stem = String::from_str(s.substring_char(0, t_col - 6));
    proof {
        lemma_id_shape(stem@, direction, col, row);
        assert(s@.subrange(t_col as int, col_end as int) == dec_digits(col as nat));
        assert(s@.subrange(t_row as int, n as int) == dec_digits(row as nat));
        let t = spec_tile_id(stem@, direction, None, col, row);
        let ls = stem@.len() as int;
        let lc = dec_digits(col as nat).len() as int;
        let lr = dec_digits(row as nat).len() as int;
        assert(ls == t_col - 6);
        assert(lc == col_end - t_col);
        assert(lr == n - t_row);
        assert(t.len() == n as int);
        assert forall|i: int| 0 <= i < n implies name@[i] == t[i] by {
            if i < ls {
                assert(t.subrange(0, ls)[i] == t[i]);
                assert(stem@[i] == name@[i]);
            } else if i == ls {
                assert(t[ls] == '_');
            } else if i < ls + 4 {
                assert(t.subrange(ls + 1, ls + 4)[i - (ls + 1)] == t[i]);
                assert(spec_dir_tag(direction)[i - (ls + 1)] == s@.subrange(
                    t_col - 5,
                    t_col - 2,
                )[i - (ls + 1)]) by {
                    assert(match direction {
                        Direction::ForwardAnchored => s@[t_col - 5] == 'L' && s@[t_col - 4] == 'T'
                            && s@[t_col - 3] == 'R',
                        Direction::ReverseAnchored => s@[t_col - 5] == 'R' && s@[t_col - 4] == 'T'
                            && s@[t_col - 3] == 'L',
                    });
                }
            } else if i == ls + 4 {
                assert(t[ls + 4] == '_');
            } else if i == ls + 5 {
                assert(t[ls + 5] == 'x');
            } else if i < ls + 6 + lc {
                assert(t.subrange(ls + 6, ls + 6 + lc)[i - (ls + 6)] == t[i]);
                assert(s@.subrange(t_col as int, col_end as int)[i - (ls + 6)] == s@[i]);
            } else if i == ls + 6 + lc {
                assert(t[ls + 6 + lc] == '_');
            } else if i == ls + 7 + lc {
                assert(t[ls + 7 + lc] == 'y');
            } else {
                assert(t.subrange(ls + 8 + lc, ls + 8 + lc + lr)[i - (ls + 8 + lc)] == t[i]);
                assert(s@.subrange(t_row as int, n as int)[i - (ls + 8 + lc)] == s@[i]);
            }
        }
        assert(name@ =~= t);
    }
    Some(ParsedTileName { stem, direction, col, row })
}

/// A bias-free name decomposes in at most one way: whatever the stems, two
/// decompositions of the same string agree in every component.
#[verifier::rlimit(100)]
#[verifier::spinoff_prover]
pub proof fn lemma_tile_name_unique(
    s: Seq<char>,
    stem1: Seq<char>,
    d1: Direction,
    c1: u32,
    r1: u32,
    stem2: Seq<char>,
    d2: Direction,
    c2: u32,
    r2: u32,
)
    requires
        s == spec_tile_id(stem1, d1, None, c1, r1),
        s == spec_tile_id(stem2, d2, None, c2, r2),
    ensures
        stem1 == stem2,
        d1 == d2,
        c1 == c2,
        r1 == r2,
{
    lemma_id_shape(stem1, d1, c1, r1);
    lemma_id_shape(stem2, d2, c2, r2);
    lemma_dec_digits_canonical(c1 as nat);
    lemma_dec_digits_canonical(c2 as nat);
    lemma_dec_digits_canonical(r1 as nat);
    lemma_dec_digits_canonical(r2 as nat);
    let n = s.len() as int;
    let rs1 = stem1.len() + 8 + dec_digits(c1 as nat).len();
    let rs2 = stem2.len() + 8 + dec_digits(c2 as nat).len();
    assert forall|j: int| rs1 <= j < n implies is_digit_char(#[trigger] s[j]) by {
        assert(s[j] == dec_digits(r1 as nat)[j - rs1]);
    }
    assert forall|j: int| rs2 <= j < n implies is_digit_char(#[trigger] s[j]) by {
        assert(s[j] == dec_digits(r2 as nat)[j - rs2]);
    }
    assert(s[rs1 - 1] == 'y');
    assert(s[rs2 - 1] == 'y');
    assert(rs1 == rs2) by {
        if rs1 < rs2 {
            assert(is_digit_char(s[rs2 - 1]));
        }
        if rs2 < rs1 {
            assert(is_digit_char(s[rs1 - 1]));
        }
    }
    assert(dec_digits(r1 as nat) =~= dec_digits(r2 as nat));
    lemma_dec_digits_injective(r1 as nat, r2 as nat);
    let cs1 = stem1.len() + 6;
    let cs2 = stem2.len() + 6;
    assert forall|j: int| cs1 <= j < rs1 - 2 implies is_digit_char(#[trigger] s[j]) by {
        assert(s[j] == dec_digits(c1 as nat)[j - cs1]);
    }
    assert forall|j: int| cs2 <= j < rs2 - 2 implies is_digit_char(#[trigger] s[j]) by {
        assert(s[j] == dec_digits(c2 as nat)[j - cs2]);
    }
    assert(s[cs1 - 1] == 'x');
    assert(s[cs2 - 1] == 'x');
    assert(cs1 == cs2) by {
        if cs1 < cs2 {
            assert(is_digit_char(s[cs2 - 1]));
        }
        if cs2 < cs1 {
            assert(is_digit_char(s[cs1 - 1]));
        }
    }
    assert(dec_digits(c1 as nat) =~= dec_digits(c2 as nat));
    lemma_dec_digits_injective(c1 as nat, c2 as nat);
    assert(stem1 =~= stem2) by {
        assert(s.subrange(0, stem1.len() as int) == stem1);
        assert(s.subrange(0, stem2.len() as int) == stem2);
    }
    assert(d1 == d2) by {
        assert(s.subrange(stem1.len() as int + 1, stem1.len() as int + 4) == spec_dir_tag(d1));
        assert(s.subrange(stem2.len() as int + 1, stem2.len() as int + 4) == spec_dir_tag(d2));
        if d1 != d2 {
            assert(spec_dir_tag(d1)[0] != spec_dir_tag(d2)[0]);
        }
    }
}

/// The components of a bias-free tile name; meaningful when `is_tile_name`
/// holds, and then unique.
pub open spec fn name_parts(s: Seq<char>) -> (Seq<char>, Direction, u32, u32) {
    choose|p: (Seq<char>, Direction, u32, u32)| s == spec_tile_id(p.0, p.1, None, p.2, p.3)
}

/// For a parsable name, `name_parts` is exactly its one decomposition.
pub proof fn lemma_name_parts(s: Seq<char>, stem: Seq<char>, d: Direction, col: u32, row: u32)
    requires
        s == spec_tile_id(stem, d, None, col, row),
    ensures
        name_parts(s) == (stem, d, col, row),
{
    let w = (stem, d, col, row);
    assert(s == spec_tile_id(w.0, w.1, None, w.2, w.3));
    assert(exists|p: (Seq<char>, Direction, u32, u32)| s == spec_tile_id(p.0, p.1, None, p.2, p.3));
    let p = choose|p: (Seq<char>, Direction, u32, u32)|
        s == spec_tile_id(p.0, p.1, None, p.2, p.3);
    lemma_tile_name_unique(s, p.0, p.1, p.2, p.3, stem, d, col, row);
}

/// Identifiers are injective: within one invocation (so with one source stem
/// and one choice of whether bias stepping is in use), two equal identifiers
/// name the same direction, bias, column and row.
#[verifier::rlimit(100)]
#[verifier::spinoff_prover]
pub proof fn lemma_tile_id_injective(
    stem: Seq<char>,
    d1: Direction,
    b1: Option<u32>,
    c1: u32,
    r1: u32,
    d2: Direction,
    b2: Option<u32>,
    c2: u32,
    r2: u32,
)
    requires
        b1 is Some <==> b2 is Some,
        spec_tile_id(stem, d1, b1, c1, r1) == spec_tile_id(stem, d2, b2, c2, r2),
    ensures
        d1 == d2,
        b1 == b2,
        c1 == c2,
        r1 == r2,
{
    let suf1 = spec_id_suffix(d1, b1, c1, r1);
    let suf2 = spec_id_suffix(d2, b2, c2, r2);
    lemma_cancel_prefix(stem, suf1, suf2);

    // The direction is read off at index 1, the first tag character.
    assert(suf1[1] == spec_dir_tag(d1)[0]);
    assert(suf2[1] == spec_dir_tag(d2)[0]);
    if d1 != d2 {
        assert(spec_dir_tag(d1)[0] != spec_dir_tag(d2)[0]);
        assert(false);
    }

    let tail1 = dec_digits(c1 as nat) + (seq!['_', 'y'] + dec_digits(r1 as nat));
    let tail2 = dec_digits(c2 as nat) + (seq!['_', 'y'] + dec_digits(r2 as nat));
    let head = seq!['_'] + spec_dir_tag(d1);
    lemma_dec_digits_canonical(c1 as nat);
    lemma_dec_digits_canonical(c2 as nat);
    lemma_dec_digits_canonical(r1 as nat);
    lemma_dec_digits_canonical(r2 as nat);

    match (b1, b2) {
        (None, None) => {
            let rest1 = seq!['_', 'x'] + tail1;
            let rest2 = seq!['_', 'x'] + tail2;
            assert(suf1 =~= head + rest1);
            assert(suf2 =~= head + rest2);
            lemma_cancel_prefix(head, rest1, rest2);
            lemma_cancel_prefix(seq!['_', 'x'], tail1, tail2);
            lemma_digit_run_boundary(
                dec_digits(c1 as nat),
                seq!['_', 'y'] + dec_digits(r1 as nat),
                dec_digits(c2 as nat),
                seq!['_', 'y'] + dec_digits(r2 as nat),
            );
            lemma_dec_digits_injective(c1 as nat, c2 as nat);
            lemma_cancel_prefix(seq!['_', 'y'], dec_digits(r1 as nat), dec_digits(r2 as nat));
            lemma_dec_digits_injective(r1 as nat, r2 as nat);
        },
        (Some(v1), Some(v2)) => {
            lemma_dec_digits_canonical(v1 as nat);
            lemma_dec_digits_canonical(v2 as nat);
            let mid1 = dec_digits(v1 as nat) + (seq!['_', 'x'] + tail1);
            let mid2 = dec_digits(v2 as nat) + (seq!['_', 'x'] + tail2);
            let bias_head = head + seq!['_', 'b', 'i', 'a', 's'];
            assert(suf1 =~= bias_head + mid1);
            assert(suf2 =~= bias_head + mid2);
            lemma_cancel_prefix(bias_head, mid1, mid2);
            lemma_digit_run_boundary(
                dec_digits(v1 as nat),
                seq!['_', 'x'] + tail1,
                dec_digits(v2 as nat),
                seq!['_', 'x'] + tail2,
            );
            lemma_dec_digits_injective(v1 as nat, v2 as nat);
            lemma_cancel_prefix(seq!['_', 'x'], tail1, tail2);
            lemma_digit_run_boundary(
                dec_digits(c1 as nat),
                seq!['_', 'y'] + dec_digits(r1 as nat),
                dec_digits(c2 as nat),
                seq!['_', 'y'] + dec_digits(r2 as nat),
            );
            lemma_dec_digits_injective(c1 as nat, c2 as nat);
            lemma_cancel_prefix(seq!['_', 'y'], dec_digits(r1 as nat), dec_digits(r2 as nat));
            lemma_dec_digits_injective(r1 as nat, r2 as nat);
        },
        _ => {
            assert(false);
        },
    }
}

} // verus!
