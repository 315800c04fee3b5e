//! Masked renaming of an image/label dataset pair: every matched pair gets
//! one zero-padded numeric identifier, and a remap record keeps the old and
//! new paths of both files. The filesystem walking and the actual renames
//! happen outside the library; paths are handled here as plain strings with
//! `/` separators.

use vstd::prelude::*;
use vstd::string::*;

use crate::digits::{dec_digits, digits_needed, zero_pad, zeros};

verus! {

/// One pair's renaming record: the masked identifier, and the old and new
/// path of the image and of the label file.
pub struct RemapEntry {
    pub id: String,
    pub image_old: String,
    pub image_new: String,
    pub label_old: String,
    pub label_new: String,
}

/// The whole remap manifest: a format version, the two roots, and one entry
/// per renamed pair.
pub struct RemapJson {
    pub version: u32,
    pub image_dir: String,
    pub label_dir: String,
    pub entries: Vec<RemapEntry>,
}

/// One matched image/label pair, keyed by relative parent and stem: the old
/// paths, the directories the files sit in, and their extensions.
pub struct MaskPair {
    pub image_old: String,
    pub image_parent: String,
    pub image_ext: String,
    pub label_old: String,
    pub label_parent: String,
    pub label_ext: String,
}

/// A path assembled from a directory, a file stem and an extension.
pub open spec fn joined_path(parent: Seq<char>, stem: Seq<char>, ext: Seq<char>) -> Seq<char> {
    parent + seq!['/'] + stem + seq!['.'] + ext
}

/// The identifier given to pair number `n` (counted from one) under the
/// padding width `width`.
pub open spec fn masked_id(n: nat, width: nat) -> Seq<char> {
    zeros(
        if dec_digits(n).len() < width {
            (width - dec_digits(n).len()) as nat
        } else {
            0
        },
    ) + dec_digits(n)
}

/// Joins a directory, a stem and an extension into a path string.
fn join_path(parent: &str, stem: &str, ext: &str) -> (r: String)
    ensures
        r@ == joined_path(parent@, stem@, ext@),
{
    let mut s = String::from_str(parent);
    s.append("/");
    s.append(stem);
    s.append(".");
    s.append(ext);
    proof {
        reveal_strlit("/");
        reveal_strlit(".");
        assert(s@ =~= joined_path(parent@, stem@, ext@));
    }
    s
}

/// The deterministic temporary name used between the two rename phases: the
/// target's file name, hidden with a leading dot and a fixed suffix, in the
/// original file's directory.
pub fn temp_path_for_target(original_parent: &str, target_name: &str) -> (r: String)
    ensures
        r@ == original_parent@ + seq!['/', '.'] + target_name@ + seq![
            '.',
            '_',
            '_',
            'm',
            'a',
            's',
            'k',
            '_',
            't',
            'm',
            'p',
            '_',
            '_',
        ],
{
    let mut s = String::from_str(original_parent);
    s.append("/.");
    s.append(target_name);
    s.append(".__mask_tmp__");
    proof {
        reveal_strlit("/.");
        reveal_strlit(".__mask_tmp__");
        assert(s@ =~= original_parent@ + seq!['/', '.'] + target_name@ + seq![
            '.',
            '_',
            '_',
            'm',
            'a',
            's',
            'k',
            '_',
            't',
            'm',
            'p',
            '_',
            '_',
        ]);
    }
    s
}

/// A path as a plain string, unchanged.
pub fn to_string_path(p: &String) -> (r: String)
    ensures
        r@ == p@,
{
    p.clone()
}

/// The canonical form of a path where canonicalization succeeded, and the
/// path itself where it did not. The canonicalization is filesystem work and
/// happens outside the library; this function only applies its outcome.
pub fn canonical_or_lossy(p: &String, canonical: Option<String>) -> (r: String)
    ensures
        match canonical {
            Some(c) => r@ == c@,
            None => r@ == p@,
        },
{
    match canonical {
        Some(c) => c,
        None => p.clone(),
    }
}

/// The padding width for `total` pairs: the digits of the count, and at
/// least three.
pub fn mask_width(total: usize) -> (w: usize)
    ensures
        w == if dec_digits(if total == 0 {
            1nat
        } else {
            total as nat
        }).len() > 3 {
            dec_digits(if total == 0 {
                1nat
            } else {
                total as nat
            }).len()
        } else {
            3nat
        },
{
    let d = digits_needed(total);
    if d > 3 {
        d
    } else {
        3
    }
}

/// Builds the renaming plan for the matched pairs, in their given
/// (deterministic) order: pair `k` gets the identifier `k + 1`, zero-padded
/// to the common width, and its new image and label paths keep each file's
/// directory and extension.
#[verifier::loop_isolation(false)]
pub fn build_remap_entries(pairs: &Vec<MaskPair>) -> (r: Vec<RemapEntry>)
    requires
        pairs@.len() < usize::MAX,
    ensures
        r@.len() == pairs@.len(),
        forall|k: int|
            0 <= k < r@.len() ==> {
                let width = if dec_digits(if pairs@.len() == 0 {
                    1nat
                } else {
                    pairs@.len() as nat
                }).len() > 3 {
                    dec_digits(if pairs@.len() == 0 {
                        1nat
                    } else {
                        pairs@.len() as nat
                    }).len()
                } else {
                    3nat
                };
                let id = masked_id((k + 1) as nat, width);
                &&& (#[trigger] r@[k]).id@ == id
                &&& r@[k].image_old@ == pairs@[k].image_old@
                &&& r@[k].label_old@ == pairs@[k].label_old@
                &&& r@[k].image_new@ == joined_path(pairs@[k].image_parent@, id, pairs@[k].image_ext@)
                &&& r@[k].label_new@ == joined_path(pairs@[k].label_parent@, id, pairs@[k].label_ext@)
            },
{
    let width = mask_width(pairs.len());
    let mut r: Vec<RemapEntry> = Vec::new();
    let mut k: usize = 0;
    while k < pairs.len()
        invariant
            k <= pairs@.len(),
            r@.len() == k,
            forall|k2: int|
                0 <= k2 < k ==> {
                    let id = masked_id((k2 + 1) as nat, width as nat);
                    &&& (#[trigger] r@[k2]).id@ == id
                    &&& r@[k2].image_old@ == pairs@[k2].image_old@
                    &&& r@[k2].label_old@ == pairs@[k2].label_old@
                    &&& r@[k2].image_new@ == joined_path(
                        pairs@[k2].image_parent@,
                        id,
                        pairs@[k2].image_ext@,
                    )
                    &&& r@[k2].label_new@ == joined_path(
                        pairs@[k2].label_parent@,
                        id,
                        pairs@[k2].label_ext@,
                    )
                },
        decreases pairs@.len() - k,
    {
        let p = &pairs[k];
        let id = zero_pad(k + 1, width);
        let image_new = join_path(p.image_parent.as_str(), id.as_str(), p.image_ext.as_str());
        let label_new = join_path(p.label_parent.as_str(), id.as_str(), p.label_ext.as_str());
        r.push(
            RemapEntry {
                id,
                image_old: p.image_old.clone(),
                image_new,
                label_old: p.label_old.clone(),
                label_new,
            },
        );
        k = k + 1;
    }
    r
}

/// Whether some string in the sequence reads `s`.
#[verifier::opaque]
pub open spec fn has_str(keys: Seq<String>, s: Seq<char>) -> bool {
    exists|i: int| 0 <= i < keys.len() && keys[i]@ == s
}

/// Whether a key occurs in the list.
fn contains_key(keys: &Vec<String>, key: &String) -> (b: bool)
    ensures
        b == has_str(keys@, key@),
{
    let mut i: usize = 0;
    while i < keys.len()
        invariant
            i <= keys@.len(),
            forall|k: int| 0 <= k < i ==> keys@[k]@ != key@,
        decreases keys@.len() - i,
    {
        if keys[i].eq(key) {
            proof {
                reveal(has_str);
            }
            return true;
        }
        i = i + 1;
    }
    proof {
        reveal(has_str);
    }
    false
}

/// The keys of `a` that `b` lacks, in `a`'s order: what one side of a
/// dataset pair is missing from the other. Both directions empty is exactly
/// key-set correspondence.
#[verifier::loop_isolation(false)]
pub fn missing_keys(a: &Vec<String>, b: &Vec<String>) -> (r: Vec<String>)
    ensures
        forall|k: int|
            0 <= k < r@.len() ==> has_str(a@, (#[trigger] r@[k])@) && !has_str(b@, r@[k]@),
        forall|i: int|
            0 <= i < a@.len() && !has_str(b@, (#[trigger] a@[i])@) ==> has_str(r@, a@[i]@),
{
    let mut r: Vec<String> = Vec::new();
    let mut i: usize = 0;
    while i < a.len()
        invariant
            i <= a@.len(),
            forall|k: int|
                0 <= k < r@.len() ==> has_str(a@, (#[trigger] r@[k])@) && !has_str(b@, r@[k]@),
            forall|i2: int|
                0 <= i2 < i && !has_str(b@, (#[trigger] a@[i2])@) ==> has_str(r@, a@[i2]@),
        decreases a@.len() - i,
    {
        let present = contains_key(b, &a[i]);
        if !present {
            let ghost old_r = r@;
            r.push(a[i].clone());
            proof {
                reveal(has_str);
                assert(r@[r@.len() - 1]@ == a@[i as int]@);
                assert forall|k: int|
                    0 <= k < r@.len() implies has_str(a@, (#[trigger] r@[k])@) && !has_str(
                    b@,
                    r@[k]@,
                ) by {
                    if k < old_r.len() {
                        assert(r@[k] == old_r[k]);
                    } else {
                        assert(r@[k]@ == a@[i as int]@);
                    }
                }
                assert forall|i2: int|
                    0 <= i2 < i + 1 && !has_str(b@, (#[trigger] a@[i2])@) implies has_str(
                    r@,
                    a@[i2]@,
                ) by {
                    if i2 < i {
                        let k = choose|k: int| 0 <= k < old_r.len() && old_r[k]@ == a@[i2]@;
                        assert(r@[k]@ == a@[i2]@);
                    } else {
                        assert(r@[r@.len() - 1]@ == a@[i2]@);
                    }
                }
            }
        } else {
            proof {
                assert forall|i2: int|
                    0 <= i2 < i + 1 && !has_str(b@, (#[trigger] a@[i2])@) implies has_str(
                    r@,
                    a@[i2]@,
                ) by {
                    assert(i2 != i);
                }
            }
        }
        i = i + 1;
    }
    r
}

} // verus!
