//! Configuration parsing: the palette string `R,G,B;R,G,B;...` and the
//! rectangle corner string `x1,y1;x2,y2`. Malformed configuration is a fatal
//! error detected before any tile work starts.

use vstd::prelude::*;
use vstd::string::*;

use crate::digits::{all_digits, char_digit_val, char_is_digit, digits_value, is_digit_char};
use crate::filter::Rgb;
use crate::tiles::Rect;

verus! {

/// Parts joined by a single separator character: empty for no parts, and
/// otherwise the parts with one separator between each adjacent pair.
pub open spec fn sep_join(parts: Seq<Seq<char>>, sep: char) -> Seq<char>
    decreases parts.len(),
{
    if parts.len() == 0 {
        Seq::<char>::empty()
    } else if parts.len() == 1 {
        parts[0]
    } else {
        sep_join(parts.drop_last(), sep) + seq![sep] + parts.last()
    }
}

/// No character of `p` is the separator.
pub open spec fn part_sep_free(p: Seq<char>, sep: char) -> bool {
    forall|j: int| 0 <= j < p.len() ==> p[j] != sep
}

/// No part contains the separator.
pub open spec fn sep_free(parts: Seq<Seq<char>>, sep: char) -> bool {
    forall|i: int| 0 <= i < parts.len() ==> part_sep_free(#[trigger] parts[i], sep)
}

/// The views of a list of strings.
pub open spec fn views(parts: Seq<String>) -> Seq<Seq<char>> {
    parts.map_values(|p: String| p@)
}

/// A separator-free decomposition is unique: two lists of separator-free
/// parts with the same join are the same list.
pub proof fn lemma_sep_join_unique(a: Seq<Seq<char>>, b: Seq<Seq<char>>, sep: char)
    requires
        sep_free(a, sep),
        sep_free(b, sep),
        a.len() >= 1,
        b.len() >= 1,
        sep_join(a, sep) == sep_join(b, sep),
    ensures
        a == b,
    decreases a.len(),
{
    let s = sep_join(a, sep);
    if a.len() == 1 && b.len() == 1 {
        assert(a =~= b);
    } else if a.len() == 1 {
        let jb = sep_join(b.drop_last(), sep);
        assert(s == jb + seq![sep] + b.last());
        assert(s[jb.len() as int] == sep);
        assert(part_sep_free(a[0], sep));
        assert(false);
    } else if b.len() == 1 {
        let ja = sep_join(a.drop_last(), sep);
        assert(s == ja + seq![sep] + a.last());
        assert(s[ja.len() as int] == sep);
        assert(part_sep_free(b[0], sep));
        assert(false);
    } else {
        let ja = sep_join(a.drop_last(), sep);
        let jb = sep_join(b.drop_last(), sep);
        assert(s == ja + seq![sep] + a.last());
        assert(s == jb + seq![sep] + b.last());
        assert(ja.len() == jb.len()) by {
            if ja.len() < jb.len() {
                // The separator at jb.len() falls inside a's last part.
                assert((jb + seq![sep] + b.last())[jb.len() as int] == sep);
                assert((ja + seq![sep] + a.last())[jb.len() as int] == a.last()[jb.len()
                    - ja.len() - 1]);
                assert(part_sep_free(a.last(), sep));
                assert(a.last()[jb.len() - ja.len() - 1] != sep);
            }
            if jb.len() < ja.len() {
                assert((ja + seq![sep] + a.last())[ja.len() as int] == sep);
                assert((jb + seq![sep] + b.last())[ja.len() as int] == b.last()[ja.len()
                    - jb.len() - 1]);
                assert(part_sep_free(b.last(), sep));
                assert(b.last()[ja.len() - jb.len() - 1] != sep);
            }
        }
        assert(a.last() =~= b.last()) by {
            assert(s.len() == ja.len() + 1 + a.last().len());
            assert(s.len() == jb.len() + 1 + b.last().len());
            assert forall|j: int| 0 <= j < a.last().len() implies a.last()[j] == b.last()[j] by {
                assert((ja + seq![sep] + a.last())[ja.len() + 1 + j] == a.last()[j]);
                assert((jb + seq![sep] + b.last())[jb.len() + 1 + j] == b.last()[j]);
            }
        }
        assert(ja =~= jb) by {
            assert forall|j: int| 0 <= j < ja.len() implies ja[j] == jb[j] by {
                assert((ja + seq![sep] + a.last())[j] == ja[j]);
                assert((jb + seq![sep] + b.last())[j] == jb[j]);
            }
        }
        assert(sep_free(a.drop_last(), sep)) by {
            assert(forall|i: int| 0 <= i < a.len() - 1 ==> a.drop_last()[i] == #[trigger] a[i]);
        }
        assert(sep_free(b.drop_last(), sep)) by {
            assert(forall|i: int| 0 <= i < b.len() - 1 ==> b.drop_last()[i] == #[trigger] b[i]);
        }
        lemma_sep_join_unique(a.drop_last(), b.drop_last(), sep);
        assert(a.len() == b.len());
        assert forall|i: int| 0 <= i < a.len() implies a[i] == b[i] by {
            if i < a.len() - 1 {
                assert(a.drop_last()[i] == a[i]);
                assert(b.drop_last()[i] == b[i]);
            } else {
                assert(a[i] == a.last());
                assert(b[i] == b.last());
            }
        }
        assert(a =~= b);
    }
}

/// Splits `s` at every occurrence of `sep`: the one decomposition of `s`
/// into separator-free parts. Adjacent separators, and separators at either
/// end, yield empty parts; a string without the separator is one part.
#[verifier::loop_isolation(false)]
pub fn split_at_char(s: &str, sep: char) -> (r: Vec<String>)
    ensures
        r@.len() >= 1,
        sep_join(views(r@), sep) == s@,
        sep_free(views(r@), sep),
{
    let n = s.unicode_len();
    let mut r: Vec<String> = Vec::new();
    let mut start: usize = 0;
    let mut i: usize = 0;
    while i < n
        invariant
            start <= i <= n,
            forall|j: int| start <= j < i ==> s@[j] != sep,
            sep_free(views(r@), sep),
            sep_join(views(r@).push(s@.subrange(start as int, i as int)), sep) == s@.subrange(
                0,
                i as int,
            ),
        decreases n - i,
    {
        let c = s.get_char(i);
        if c == sep {
            let ghost old_views = views(r@);
            let part = String::from_str(s.substring_char(start, i));
            r.push(part);
            proof {
                assert(views(r@) =~= old_views.push(part@));
                let empty_next = s@.subrange(i as int + 1, i as int + 1);
                assert(empty_next =~= Seq::<char>::empty());
                assert(sep_join(views(r@).push(empty_next), sep) =~= s@.subrange(0, i as int + 1))
                    by {
                    assert(views(r@).push(empty_next).drop_last() =~= views(r@));
                    assert(sep_join(views(r@), sep) == s@.subrange(0, i as int));
                    assert(s@.subrange(0, i as int + 1) =~= s@.subrange(0, i as int) + seq![sep]);
                }
                assert(sep_free(views(r@), sep)) by {
                    assert(forall|k: int|
                        0 <= k < old_views.len() ==> views(r@)[k] == #[trigger] old_views[k]);
                    assert(views(r@).last() == part@);
                    assert(part_sep_free(part@, sep));
                }
            }
            start = i + 1;
        } else {
            proof {
                let pre = s@.subrange(start as int, i as int);
                let ext = s@.subrange(start as int, i as int + 1);
                assert(ext =~= pre.push(s@[i as int]));
                let vs = views(r@);
                assert(sep_join(vs.push(ext), sep) =~= s@.subrange(0, i as int + 1)) by {
                    assert(vs.push(ext).drop_last() =~= vs);
                    assert(vs.push(pre).drop_last() =~= vs);
                    if vs.len() == 0 {
                        assert(sep_join(vs.push(pre), sep) == pre);
                        assert(sep_join(vs.push(ext), sep) == ext);
                    } else {
                        assert(sep_join(vs.push(pre), sep) == sep_join(vs, sep) + seq![sep] + pre);
                        assert(sep_join(vs.push(ext), sep) == sep_join(vs, sep) + seq![sep] + ext);
                    }
                    assert(s@.subrange(0, i as int + 1) =~= s@.subrange(0, i as int).push(
                        s@[i as int],
                    ));
                }
            }
        }
        i = i + 1;
    }
    let part = String::from_str(s.substring_char(start, n));
    let ghost old_views = views(r@);
    r.push(part);
    proof {
        assert(views(r@) =~= old_views.push(part@));
        assert(s@.subrange(0, n as int) =~= s@);
        assert(sep_free(views(r@), sep)) by {
            assert(forall|k: int|
                0 <= k < old_views.len() ==> views(r@)[k] == #[trigger] old_views[k]);
            assert(views(r@).last() == part@);
            assert(part_sep_free(part@, sep));
        }
    }
    r
}

/// A decimal token: at least one digit, nothing else. Leading zeros are
/// allowed; the value is read in base ten.
pub open spec fn is_token(t: Seq<char>) -> bool {
    t.len() >= 1 && all_digits(t)
}

/// Parses a token whose value fits in a byte: `Some` exactly when `seg` is
/// all digits, nonempty, and at most 255.
#[verifier::loop_isolation(false)]
pub fn parse_u8_token(seg: &str) -> (r: Option<u8>)
    ensures
        match r {
            Some(v) => is_token(seg@) && digits_value(seg@) == v,
            None => !(is_token(seg@) && digits_value(seg@) <= 255),
        },
{
    let n = seg.unicode_len();
    if n == 0 {
        return None;
    }
    let mut acc: u32 = 0;
    let mut i: usize = 0;
    while i < n
        invariant
            i <= n,
            forall|j: int| 0 <= j < i ==> is_digit_char(#[trigger] seg@[j]),
            acc <= 255 ==> acc == digits_value(seg@.subrange(0, i as int)),
            acc > 255 ==> digits_value(seg@.subrange(0, i as int)) > 255,
            acc <= 2560 + 9,
        decreases n - i,
    {
        let c = seg.get_char(i);
        if !char_is_digit(c) {
            return None;
        }
        let d = char_digit_val(c);
        proof {
            assert(seg@.subrange(0, i as int + 1).drop_last() =~= seg@.subrange(0, i as int));
            assert(seg@.subrange(0, i as int + 1).last() == seg@[i as int]);
        }
        if acc <= 255 {
            acc = acc * 10 + d;
        } else {
            acc = 2560;
        }
        i = i + 1;
    }
    proof {
        assert(seg@.subrange(0, n as int) =~= seg@);
    }
    if acc <= 255 {
        Some(acc as u8)
    } else {
        None
    }
}

/// Three tokens joined by commas.
pub open spec fn color_join(t0: Seq<char>, t1: Seq<char>, t2: Seq<char>) -> Seq<char> {
    sep_join(seq![t0, t1, t2], ',')
}

/// Whether `s` is the comma-joined rendering of one palette color.
pub open spec fn is_color_str(s: Seq<char>, c: Rgb) -> bool {
    exists|t: (Seq<char>, Seq<char>, Seq<char>)|
        {
            &&& s == #[trigger] color_join(t.0, t.1, t.2)
            &&& is_token(t.0) && digits_value(t.0) == c.r
            &&& is_token(t.1) && digits_value(t.1) == c.g
            &&& is_token(t.2) && digits_value(t.2) == c.b
        }
}

/// Digit tokens never contain a separator.
proof fn lemma_token_sep_free(t: Seq<char>, sep: char)
    requires
        all_digits(t),
        !is_digit_char(sep),
    ensures
        part_sep_free(t, sep),
{
}

/// Parses one color `R,G,B`: `Some` exactly when the segment decomposes
/// into three byte-valued tokens.
pub fn parse_color(seg: &str) -> (r: Option<Rgb>)
    ensures
        match r {
            Some(c) => is_color_str(seg@, c),
            None => forall|c: Rgb| !is_color_str(seg@, c),
        },
{
    let parts = split_at_char(seg, ',');
    if parts.len() != 3 {
        proof {
            assert forall|c: Rgb| !is_color_str(seg@, c) by {
                if is_color_str(seg@, c) {
                    let t = choose|t: (Seq<char>, Seq<char>, Seq<char>)|
                        {
                            &&& seg@ == #[trigger] color_join(t.0, t.1, t.2)
                            &&& is_token(t.0) && digits_value(t.0) == c.r
                            &&& is_token(t.1) && digits_value(t.1) == c.g
                            &&& is_token(t.2) && digits_value(t.2) == c.b
                        };
                    lemma_token_sep_free(t.0, ',');
                    lemma_token_sep_free(t.1, ',');
                    lemma_token_sep_free(t.2, ',');
                    assert(sep_free(seq![t.0, t.1, t.2], ','));
                    lemma_sep_join_unique(views(parts@), seq![t.0, t.1, t.2], ',');
                }
            }
        }
        return None;
    }
    let v0 = parse_u8_token(parts[0].as_str());
    let v1 = parse_u8_token(parts[1].as_str());
    let v2 = parse_u8_token(parts[2].as_str());
    match (v0, v1, v2) {
        (Some(rv), Some(gv), Some(bv)) => {
            let c = Rgb { r: rv, g: gv, b: bv };
            proof {
                let t = (parts@[0]@, parts@[1]@, parts@[2]@);
                assert(views(parts@) =~= seq![t.0, t.1, t.2]);
                assert(seg@ == color_join(t.0, t.1, t.2));
                assert(is_color_str(seg@, c));
            }
            Some(c)
        },
        _ => {
            proof {
                assert forall|c: Rgb| !is_color_str(seg@, c) by {
                    if is_color_str(seg@, c) {
                        let t = choose|t: (Seq<char>, Seq<char>, Seq<char>)|
                            {
                                &&& seg@ == #[trigger] color_join(t.0, t.1, t.2)
                                &&& is_token(t.0) && digits_value(t.0) == c.r
                                &&& is_token(t.1) && digits_value(t.1) == c.g
                                &&& is_token(t.2) && digits_value(t.2) == c.b
                            };
                        lemma_token_sep_free(t.0, ',');
                        lemma_token_sep_free(t.1, ',');
                        lemma_token_sep_free(t.2, ',');
                        assert(sep_free(seq![t.0, t.1, t.2], ','));
                        lemma_sep_join_unique(views(parts@), seq![t.0, t.1, t.2], ',');
                        assert(parts@[0]@ == t.0);
                        assert(parts@[1]@ == t.1);
                        assert(parts@[2]@ == t.2);
                    }
                }
            }
            None
        },
    }
}

/// A configuration error: the whole invocation aborts before any tile work.
#[derive(Clone, Copy, PartialEq, Eq, Structural, Debug)]
pub enum ConfigError {
    /// The palette string is not `R,G,B` groups joined by `;`, with each
    /// component a decimal byte.
    MalformedPalette,
    /// The corner string is not `x1,y1;x2,y2` with decimal coordinates.
    MalformedCorners,
    /// The two corners do not span a rectangle of positive width and height.
    DegenerateRectangle,
    /// The rectangle spanned by the corners leaves the image.
    RegionOutsideImage,
}

/// Parses a token whose value fits in a `u32`, as `parse_u8_token` does for
/// a byte.
#[verifier::loop_isolation(false)]
pub fn parse_u32_token(seg: &str) -> (r: Option<u32>)
    ensures
        match r {
            Some(v) => is_token(seg@) && digits_value(seg@) == v,
            None => !(is_token(seg@) && digits_value(seg@) <= u32::MAX),
        },
{
    let n = seg.unicode_len();
    if n == 0 {
        return None;
    }
    let mut acc: u64 = 0;
    let mut i: usize = 0;
    while i < n
        invariant
            i <= n,
            forall|j: int| 0 <= j < i ==> is_digit_char(#[trigger] seg@[j]),
            acc <= u32::MAX ==> acc == digits_value(seg@.subrange(0, i as int)),
            acc > u32::MAX ==> digits_value(seg@.subrange(0, i as int)) > u32::MAX,
            acc <= 0xffff_ffffu64 * 10 + 9,
        decreases n - i,
    {
        let c = seg.get_char(i);
        if !char_is_digit(c) {
            return None;
        }
        let d = char_digit_val(c);
        proof {
            assert(seg@.subrange(0, i as int + 1).drop_last() =~= seg@.subrange(0, i as int));
            assert(seg@.subrange(0, i as int + 1).last() == seg@[i as int]);
        }
        if acc <= 0xffff_ffff {
            acc = acc * 10 + d as u64;
        } else {
            acc = 0x1_0000_0000;
        }
        i = i + 1;
    }
    proof {
        assert(seg@.subrange(0, n as int) =~= seg@);
    }
    if acc <= 0xffff_ffff {
        Some(acc as u32)
    } else {
        None
    }
}

/// Two tokens joined by a comma.
pub open spec fn pair_join(t0: Seq<char>, t1: Seq<char>) -> Seq<char> {
    sep_join(seq![t0, t1], ',')
}

/// Whether `s` is the comma-joined rendering of one coordinate pair.
pub open spec fn is_pair_str(s: Seq<char>, a: u32, b: u32) -> bool {
    exists|t: (Seq<char>, Seq<char>)|
        {
            &&& s == #[trigger] pair_join(t.0, t.1)
            &&& is_token(t.0) && digits_value(t.0) == a
            &&& is_token(t.1) && digits_value(t.1) == b
        }
}

/// Two pair strings joined by a semicolon.
pub open spec fn corners_join(g0: Seq<char>, g1: Seq<char>) -> Seq<char> {
    sep_join(seq![g0, g1], ';')
}

/// Whether `s` is the corner string of the two points (x1, y1) and (x2, y2).
pub open spec fn is_corners_str(s: Seq<char>, x1: u32, y1: u32, x2: u32, y2: u32) -> bool {
    exists|g: (Seq<char>, Seq<char>)|
        {
            &&& s == #[trigger] corners_join(g.0, g.1)
            &&& part_sep_free(g.0, ';')
            &&& part_sep_free(g.1, ';')
            &&& is_pair_str(g.0, x1, y1)
            &&& is_pair_str(g.1, x2, y2)
        }
}

/// Parses one coordinate pair `a,b`.
fn parse_pair(seg: &str) -> (r: Option<(u32, u32)>)
    ensures
        match r {
            Some(p) => is_pair_str(seg@, p.0, p.1),
            None => forall|a: u32, b: u32| !is_pair_str(seg@, a, b),
        },
{
    let parts = split_at_char(seg, ',');
    if parts.len() != 2 {
        proof {
            assert forall|a: u32, b: u32| !is_pair_str(seg@, a, b) by {
                if is_pair_str(seg@, a, b) {
                    let t = choose|t: (Seq<char>, Seq<char>)|
                        {
                            &&& seg@ == #[trigger] pair_join(t.0, t.1)
                            &&& is_token(t.0) && digits_value(t.0) == a
                            &&& is_token(t.1) && digits_value(t.1) == b
                        };
                    lemma_token_sep_free(t.0, ',');
                    lemma_token_sep_free(t.1, ',');
                    assert(sep_free(seq![t.0, t.1], ','));
                    lemma_sep_join_unique(views(parts@), seq![t.0, t.1], ',');
                }
            }
        }
        return None;
    }
    let v0 = parse_u32_token(parts[0].as_str());
    let v1 = parse_u32_token(parts[1].as_str());
    match (v0, v1) {
        (Some(a), Some(b)) => {
            proof {
                let t = (parts@[0]@, parts@[1]@);
                assert(views(parts@) =~= seq![t.0, t.1]);
                assert(seg@ == pair_join(t.0, t.1));
            }
            Some((a, b))
        },
        _ => {
            proof {
                assert forall|a: u32, b: u32| !is_pair_str(seg@, a, b) by {
                    if is_pair_str(seg@, a, b) {
                        let t = choose|t: (Seq<char>, Seq<char>)|
                            {
                                &&& seg@ == #[trigger] pair_join(t.0, t.1)
                                &&& is_token(t.0) && digits_value(t.0) == a
                                &&& is_token(t.1) && digits_value(t.1) == b
                            };
                        lemma_token_sep_free(t.0, ',');
                        lemma_token_sep_free(t.1, ',');
                        assert(sep_free(seq![t.0, t.1], ','));
                        lemma_sep_join_unique(views(parts@), seq![t.0, t.1], ',');
                        assert(parts@[0]@ == t.0);
                        assert(parts@[1]@ == t.1);
                    }
                }
            }
            None
        },
    }
}

/// A pair string holds only digits and commas, never a semicolon.
proof fn lemma_pair_semi_free(s: Seq<char>, a: u32, b: u32)
    requires
        is_pair_str(s, a, b),
    ensures
        part_sep_free(s, ';'),
{
    let t = choose|t: (Seq<char>, Seq<char>)|
        {
            &&& s == #[trigger] pair_join(t.0, t.1)
            &&& is_token(t.0) && digits_value(t.0) == a
            &&& is_token(t.1) && digits_value(t.1) == b
        };
    assert(s == t.0 + seq![','] + t.1) by {
        assert(seq![t.0, t.1].drop_last() =~= seq![t.0]);
        assert(sep_join(seq![t.0], ',') == t.0);
    }
    assert forall|j: int| 0 <= j < s.len() implies s[j] != ';' by {
        if j < t.0.len() {
            assert(s[j] == t.0[j]);
        } else if j == t.0.len() {
            assert(s[j] == ',');
        } else {
            assert(s[j] == t.1[j - t.0.len() - 1]);
        }
    }
}

/// Parses the corner string `x1,y1;x2,y2` of a rectangle selection: the four
/// coordinates when the string is well-formed, and a fatal configuration
/// error otherwise.
pub fn parse_corners(s: &str) -> (r: Result<(u32, u32, u32, u32), ConfigError>)
    ensures
        match r {
            Ok(c) => is_corners_str(s@, c.0, c.1, c.2, c.3),
            Err(e) => e == ConfigError::MalformedCorners && forall|x1: u32, y1: u32, x2: u32, y2: u32|
                !is_corners_str(s@, x1, y1, x2, y2),
        },
{
    let groups = split_at_char(s, ';');
    if groups.len() != 2 {
        proof {
            assert forall|x1: u32, y1: u32, x2: u32, y2: u32|
                !is_corners_str(s@, x1, y1, x2, y2) by {
                if is_corners_str(s@, x1, y1, x2, y2) {
                    let g = choose|g: (Seq<char>, Seq<char>)|
                        {
                            &&& s@ == #[trigger] corners_join(g.0, g.1)
                            &&& part_sep_free(g.0, ';')
                            &&& part_sep_free(g.1, ';')
                            &&& is_pair_str(g.0, x1, y1)
                            &&& is_pair_str(g.1, x2, y2)
                        };
                    assert(sep_free(seq![g.0, g.1], ';'));
                    lemma_sep_join_unique(views(groups@), seq![g.0, g.1], ';');
                }
            }
        }
        return Err(ConfigError::MalformedCorners);
    }
    let p0 = parse_pair(groups[0].as_str());
    let p1 = parse_pair(groups[1].as_str());
    match (p0, p1) {
        (Some(a), Some(b)) => {
            proof {
                let g = (groups@[0]@, groups@[1]@);
                assert(views(groups@) =~= seq![g.0, g.1]);
                assert(s@ == corners_join(g.0, g.1));
                lemma_pair_semi_free(g.0, a.0, a.1);
                lemma_pair_semi_free(g.1, b.0, b.1);
            }
            Ok((a.0, a.1, b.0, b.1))
        },
        _ => {
            proof {
                assert forall|x1: u32, y1: u32, x2: u32, y2: u32|
                    !is_corners_str(s@, x1, y1, x2, y2) by {
                    if is_corners_str(s@, x1, y1, x2, y2) {
                        let g = choose|g: (Seq<char>, Seq<char>)|
                            {
                                &&& s@ == #[trigger] corners_join(g.0, g.1)
                                &&& part_sep_free(g.0, ';')
                                &&& part_sep_free(g.1, ';')
                                &&& is_pair_str(g.0, x1, y1)
                                &&& is_pair_str(g.1, x2, y2)
                            };
                        assert(sep_free(seq![g.0, g.1], ';'));
                        lemma_sep_join_unique(views(groups@), seq![g.0, g.1], ';');
                        assert(groups@[0]@ == g.0);
                        assert(groups@[1]@ == g.1);
                    }
                }
            }
            Err(ConfigError::MalformedCorners)
        },
    }
}

/// Whether `s` is the semicolon-joined rendering of the palette `colors`.
pub open spec fn is_palette_str(s: Seq<char>, colors: Seq<Rgb>) -> bool {
    exists|groups: Seq<Seq<char>>|
        {
            &&& s == #[trigger] sep_join(groups, ';')
            &&& sep_free(groups, ';')
            &&& groups.len() == colors.len()
            &&& groups.len() >= 1
            &&& forall|i: int| 0 <= i < groups.len() ==> is_color_str(#[trigger] groups[i], colors[i])
        }
}

/// Parses the palette string `R,G,B;R,G,B;...`: the list of reference
/// colors when the string is well-formed, and a fatal configuration error
/// otherwise. A well-formed palette always has at least one entry.
#[verifier::loop_isolation(false)]
#[verifier::rlimit(100)]
pub fn parse_palette(s: &str) -> (r: Result<Vec<Rgb>, ConfigError>)
    ensures
        match r {
            Ok(pal) => is_palette_str(s@, pal@) && pal@.len() >= 1,
            Err(e) => e == ConfigError::MalformedPalette && forall|colors: Seq<Rgb>|
                !is_palette_str(s@, colors),
        },
{
    let groups = split_at_char(s, ';');
    let mut colors: Vec<Rgb> = Vec::new();
    let mut i: usize = 0;
    while i < groups.len()
        invariant
            i <= groups@.len(),
            colors@.len() == i,
            forall|k: int|
                0 <= k < i ==> is_color_str(views(groups@)[k], #[trigger] colors@[k]),
        decreases groups@.len() - i,
    {
        match parse_color(groups[i].as_str()) {
            Some(c) => {
                colors.push(c);
            },
            None => {
                proof {
                    assert forall|cs: Seq<Rgb>| !is_palette_str(s@, cs) by {
                        if is_palette_str(s@, cs) {
                            let gs = choose|gs: Seq<Seq<char>>|
                                {
                                    &&& s@ == #[trigger] sep_join(gs, ';')
                                    &&& sep_free(gs, ';')
                                    &&& gs.len() == cs.len()
                                    &&& gs.len() >= 1
                                    &&& forall|k: int|
                                        0 <= k < gs.len() ==> is_color_str(
                                            #[trigger] gs[k],
                                            cs[k],
                                        )
                                };
                            lemma_sep_join_unique(views(groups@), gs, ';');
                            assert(is_color_str(views(groups@)[i as int], cs[i as int]));
                        }
                    }
                }
                return Err(ConfigError::MalformedPalette);
            },
        }
        i = i + 1;
    }
    proof {
        assert(is_palette_str(s@, colors@)) by {
            let gs = views(groups@);
            assert(s@ == sep_join(gs, ';'));
            assert(gs.len() == colors@.len());
        }
    }
    Ok(colors)
}

} // verus!
