//! Request-path decoding and normalization.
//!
//! An HTTP request target arrives as raw bytes. It is percent-decoded
//! (`%HH` becomes one byte), split on `/` into components, and normalized by
//! treating `..` as a pop of the last kept component and dropping empty and
//! `.` components. The normalized components are then joined under the
//! document root, so the resolved path can never escape the root.

use vstd::prelude::*;

verus! {

/// ASCII `%`.
pub const PERCENT: u8 = 37;

/// ASCII `/`.
pub const SLASH: u8 = 47;

/// ASCII `.`.
pub const DOT: u8 = 46;

pub open spec fn is_hex_digit(c: u8) -> bool {
    (48 <= c && c <= 57) || (65 <= c && c <= 70) || (97 <= c && c <= 102)
}

pub open spec fn hex_value(c: u8) -> u8 {
    if 48 <= c && c <= 57 {
        (c - 48) as u8
    } else if 65 <= c && c <= 70 {
        (c - 55) as u8
    } else {
        (c - 87) as u8
    }
}

/// The percent-decoding of a byte string: each well-formed `%HH` escape
/// becomes the byte `0xHH`; everything else passes through unchanged.
pub open spec fn decoded(s: Seq<u8>) -> Seq<u8>
    decreases s.len(),
{
    if s.len() == 0 {
        Seq::empty()
    } else if s.len() >= 3 && s[0] == PERCENT && is_hex_digit(s[1]) && is_hex_digit(s[2]) {
        seq![(hex_value(s[1]) * 16 + hex_value(s[2])) as u8] + decoded(s.skip(3))
    } else {
        seq![s[0]] + decoded(s.skip(1))
    }
}

fn hex_digit(c: u8) -> (r: bool)
    ensures
        r == is_hex_digit(c),
{
    (48 <= c && c <= 57) || (65 <= c && c <= 70) || (97 <= c && c <= 102)
}

/// Percent-decode a request target, leaving malformed escapes untouched.
pub fn percent_decode(input: &Vec<u8>) -> (out: Vec<u8>)
    ensures
        out@ == decoded(input@),
{
    let mut out: Vec<u8> = Vec::new();
    let mut i: usize = 0;
    proof {
        assert(input@.skip(0) =~= input@);
        assert(Seq::<u8>::empty() + decoded(input@) =~= decoded(input@));
    }
    while i < input.len()
        invariant
            i <= input.len(),
            decoded(input@) == out@ + decoded(input@.skip(i as int)),
        decreases input.len() - i,
    {
        let c = input[i];
        if c == PERCENT && input.len() - i >= 3 && hex_digit(input[i + 1]) && hex_digit(input[i + 2])
        {
            let hi = input[i + 1];
            let lo = input[i + 2];
            let hv = if 48 <= hi && hi <= 57 {
                hi - 48
            } else if 65 <= hi && hi <= 70 {
                hi - 55
            } else {
                hi - 87
            };
            let lv = if 48 <= lo && lo <= 57 {
                lo - 48
            } else if 65 <= lo && lo <= 70 {
                lo - 55
            } else {
                lo - 87
            };
            let b = hv * 16 + lv;
            proof {
                assert(input@.skip(i as int).skip(3) =~= input@.skip(i as int + 3));
                assert(decoded(input@.skip(i as int)) == seq![b] + decoded(
                    input@.skip(i as int + 3),
                ));
                assert(out@ + decoded(input@.skip(i as int)) == (out@ + seq![b]) + decoded(
                    input@.skip(i as int + 3),
                ));
            }
            out.push(b);
            i = i + 3;
        } else {
            proof {
                assert(input@.skip(i as int).skip(1) =~= input@.skip(i as int + 1));
                assert(decoded(input@.skip(i as int)) == seq![c] + decoded(
                    input@.skip(i as int + 1),
                ));
                assert(out@ + decoded(input@.skip(i as int)) == (out@ + seq![c]) + decoded(
                    input@.skip(i as int + 1),
                ));
            }
            out.push(c);
            i = i + 1;
        }
    }
    proof {
        assert(input@.skip(input@.len() as int) =~= Seq::<u8>::empty());
        assert(out@ + Seq::<u8>::empty() =~= out@);
    }
    out
}

/// Byte-string equality, usable wherever paths are compared as values.
pub fn bytes_eq(a: &Vec<u8>, b: &Vec<u8>) -> (r: bool)
    ensures
        r == (a@ == b@),
{
    if a.len() != b.len() {
        return false;
    }
    let mut i: usize = 0;
    while i < a.len()
        invariant
            i <= a.len(),
            a@.len() == b@.len(),
            forall|k: int| 0 <= k < i ==> a@[k] == b@[k],
        decreases a.len() - i,
    {
        if a[i] != b[i] {
            return false;
        }
        i = i + 1;
    }
    proof {
        assert(a@ =~= b@);
    }
    true
}

/// Index of the first `/` in `s`, or `s.len()` when there is none.
pub open spec fn first_slash(s: Seq<u8>) -> int
    decreases s.len(),
{
    if s.len() == 0 {
        0
    } else if s[0] == SLASH {
        0
    } else {
        1 + first_slash(s.drop_first())
    }
}

proof fn lemma_first_slash_at(s: Seq<u8>, m: int)
    requires
        0 <= m <= s.len(),
        forall|k: int| 0 <= k < m ==> s[k] != SLASH,
        m < s.len() ==> s[m] == SLASH,
    ensures
        first_slash(s) == m,
    decreases m,
{
    if m == 0 {
    } else {
        assert(s[0] != SLASH);
        let t = s.drop_first();
        assert(forall|k: int| 0 <= k < m - 1 ==> t[k] == s[k + 1] && t[k] != SLASH);
        lemma_first_slash_at(t, m - 1);
    }
}

/// The components of a path: the byte string split on `/`. A path with no
/// slash is a single component; each slash ends a component, so repeated
/// slashes yield empty components, which normalization later drops.
pub open spec fn split_path(s: Seq<u8>) -> Seq<Seq<u8>>
    decreases s.len(),
{
    let i = first_slash(s);
    if 0 <= i < s.len() {
        seq![s.take(i)] + split_path(s.skip(i + 1))
    } else {
        seq![s]
    }
}

/// The views of a vector of byte-vector components.
pub open spec fn views(comps: Seq<Vec<u8>>) -> Seq<Seq<u8>> {
    comps.map_values(|c: Vec<u8>| c@)
}

/// Split a byte path on `/` into its components.
pub fn split_components(input: &Vec<u8>) -> (out: Vec<Vec<u8>>)
    ensures
        views(out@) == split_path(input@),
{
    let mut out: Vec<Vec<u8>> = Vec::new();
    let mut cur: Vec<u8> = Vec::new();
    let mut i: usize = 0;
    // start index of the component being accumulated
    let ghost mut j: int = 0;
    proof {
        assert(input@.skip(0) =~= input@);
        assert(Seq::<Seq<u8>>::empty() + split_path(input@) =~= split_path(input@));
        assert(views(out@) =~= Seq::<Seq<u8>>::empty());
    }
    while i < input.len()
        invariant
            0 <= j <= i as int <= input@.len(),
            cur@ == input@.subrange(j, i as int),
            forall|k: int| j <= k < i as int ==> input@[k] != SLASH,
            split_path(input@) == views(out@) + split_path(input@.skip(j)),
        decreases input.len() - i,
    {
        let c = input[i];
        if c == SLASH {
            proof {
                let t = input@.skip(j);
                assert(forall|k: int| 0 <= k < i as int - j ==> t[k] == input@[k + j]);
                lemma_first_slash_at(t, i as int - j);
                assert(t.take(i as int - j) =~= input@.subrange(j, i as int));
                assert(t.skip(i as int - j + 1) =~= input@.skip(i as int + 1));
                assert(split_path(t) == seq![cur@] + split_path(input@.skip(i as int + 1)));
                assert(views(out@) + (seq![cur@] + split_path(input@.skip(i as int + 1))) =~= (
                views(out@) + seq![cur@]) + split_path(input@.skip(i as int + 1)));
            }
            out.push(cur);
            cur = Vec::new();
            proof {
                assert(views(out@).drop_last() =~= views(out@.drop_last()));
                assert(views(out@) =~= views(out@.drop_last()) + seq![out@.last()@]);
                j = i as int + 1;
                assert(cur@ =~= input@.subrange(j, j));
            }
            i = i + 1;
        } else {
            cur.push(c);
            i = i + 1;
            proof {
                assert(cur@ =~= input@.subrange(j, i as int));
            }
        }
    }
    proof {
        let t = input@.skip(j);
        assert(forall|k: int| 0 <= k < t.len() ==> t[k] == input@[k + j]);
        lemma_first_slash_at(t, t.len() as int);
        assert(t =~= cur@);
        assert(split_path(t) == seq![cur@]);
    }
    out.push(cur);
    proof {
        assert(views(out@).drop_last() =~= views(out@.drop_last()));
        assert(views(out@) =~= views(out@.drop_last()) + seq![out@.last()@]);
    }
    out
}

/// The component `.`: a reference to the current directory, dropped.
pub open spec fn dot() -> Seq<u8> {
    seq![DOT]
}

/// The component `..`: a reference to the parent directory, a pop.
pub open spec fn dotdot() -> Seq<u8> {
    seq![DOT, DOT]
}

/// A component that survives normalization: nonempty, not `.`, not `..`.
pub open spec fn is_normal(c: Seq<u8>) -> bool {
    c.len() > 0 && c != dot() && c != dotdot()
}

/// One step of normalization: `..` pops the last kept component (and is a
/// no-op at the top), empty and `.` components are dropped, anything else is
/// kept.
pub open spec fn norm_step(acc: Seq<Seq<u8>>, c: Seq<u8>) -> Seq<Seq<u8>> {
    if c == dotdot() {
        if acc.len() > 0 {
            acc.drop_last()
        } else {
            acc
        }
    } else if c.len() == 0 || c == dot() {
        acc
    } else {
        acc.push(c)
    }
}

/// Normalization of a component sequence: the left fold of `norm_step` over
/// an empty prefix stack. The result never refers above its own start, which
/// is what keeps a request from escaping the document root.
pub open spec fn normalize(comps: Seq<Seq<u8>>) -> Seq<Seq<u8>>
    decreases comps.len(),
{
    if comps.len() == 0 {
        Seq::empty()
    } else {
        norm_step(normalize(comps.drop_last()), comps.last())
    }
}

/// Every component of a normalized sequence is normal.
pub proof fn lemma_normalize_normal(comps: Seq<Seq<u8>>)
    ensures
        forall|k: int| 0 <= k < normalize(comps).len() ==> is_normal(#[trigger] normalize(comps)[k]),
    decreases comps.len(),
{
    if comps.len() == 0 {
    } else {
        lemma_normalize_normal(comps.drop_last());
        let prev = normalize(comps.drop_last());
        let c = comps.last();
        if c == dotdot() {
            if prev.len() > 0 {
                assert(forall|k: int|
                    0 <= k < prev.drop_last().len() ==> prev.drop_last()[k] == prev[k]);
            }
        } else if c.len() == 0 || c == dot() {
        } else {
            assert(forall|k: int| 0 <= k < prev.len() ==> prev.push(c)[k] == prev[k]);
            assert(prev.push(c).last() == c);
        }
    }
}

/// Normalization is idempotent: a sequence of normal components is already
/// its own normalization.
pub proof fn lemma_normalize_of_normal(comps: Seq<Seq<u8>>)
    requires
        forall|k: int| 0 <= k < comps.len() ==> is_normal(#[trigger] comps[k]),
    ensures
        normalize(comps) == comps,
    decreases comps.len(),
{
    if comps.len() == 0 {
        assert(normalize(comps) =~= comps);
    } else {
        lemma_normalize_of_normal(comps.drop_last());
        assert(comps.drop_last().push(comps.last()) =~= comps);
    }
}

/// Normalizing twice is the same as normalizing once.
pub proof fn lemma_normalize_idempotent(comps: Seq<Seq<u8>>)
    ensures
        normalize(normalize(comps)) == normalize(comps),
{
    lemma_normalize_normal(comps);
    lemma_normalize_of_normal(normalize(comps));
}

/// Normalize a component list with a prefix stack.
pub fn normalize_components(comps: Vec<Vec<u8>>) -> (out: Vec<Vec<u8>>)
    ensures
        views(out@) == normalize(views(comps@)),
{
    let mut out: Vec<Vec<u8>> = Vec::new();
    let mut i: usize = 0;
    proof {
        assert(views(comps@).take(0) =~= Seq::<Seq<u8>>::empty());
        assert(views(out@) =~= Seq::<Seq<u8>>::empty());
    }
    while i < comps.len()
        invariant
            i <= comps.len(),
            views(out@) == normalize(views(comps@).take(i as int)),
        decreases comps.len() - i,
    {
        let c = &comps[i];
        let ghost pre = views(comps@).take(i as int);
        proof {
            assert(views(comps@).take(i as int + 1).drop_last() =~= pre);
            assert(views(comps@).take(i as int + 1).last() == c@);
            assert(normalize(views(comps@).take(i as int + 1)) == norm_step(normalize(pre), c@));
        }
        if c.len() == 2 && c[0] == DOT && c[1] == DOT {
            proof {
                assert(c@ =~= dotdot());
            }
            if out.len() > 0 {
                out.pop();
                proof {
                    assert(views(out@) =~= normalize(pre).drop_last());
                }
            }
        } else if c.len() == 0 || (c.len() == 1 && c[0] == DOT) {
            proof {
                if c.len() == 1 {
                    assert(c@ =~= dot());
                }
                assert(c@ != dotdot());
            }
        } else {
            proof {
                assert(c@ != dot() && c@ != dotdot());
            }
            out.push(c.clone());
            proof {
                assert(views(out@).drop_last() =~= views(out@.drop_last()));
                assert(views(out@) =~= views(out@.drop_last()).push(out@.last()@));
                assert(out@.last()@ == c@);
            }
        }
        i = i + 1;
    }
    proof {
        assert(views(comps@).take(comps@.len() as int) =~= views(comps@));
    }
    out
}

/// The byte form of a component sequence: each component preceded by `/`.
pub open spec fn joined(comps: Seq<Seq<u8>>) -> Seq<u8>
    decreases comps.len(),
{
    if comps.len() == 0 {
        Seq::empty()
    } else {
        joined(comps.drop_last()) + seq![SLASH] + comps.last()
    }
}

/// Render a component sequence as a single byte path, `/a/b/c` style.
pub fn join_components(comps: &Vec<Vec<u8>>) -> (out: Vec<u8>)
    ensures
        out@ == joined(views(comps@)),
{
    let mut out: Vec<u8> = Vec::new();
    let mut i: usize = 0;
    proof {
        assert(views(comps@).take(0) =~= Seq::<Seq<u8>>::empty());
        assert(out@ =~= joined(views(comps@).take(0)));
    }
    while i < comps.len()
        invariant
            i <= comps.len(),
            out@ == joined(views(comps@).take(i as int)),
        decreases comps.len() - i,
    {
        let ghost pre = views(comps@).take(i as int);
        out.push(SLASH);
        let c = &comps[i];
        let mut k: usize = 0;
        while k < c.len()
            invariant
                k <= c.len(),
                out@ == joined(pre) + seq![SLASH] + c@.take(k as int),
            decreases c.len() - k,
        {
            out.push(c[k]);
            k = k + 1;
            proof {
                assert((joined(pre) + seq![SLASH] + c@.take(k as int - 1)).push(c@[k as int - 1])
                    =~= joined(pre) + seq![SLASH] + c@.take(k as int));
            }
        }
        i = i + 1;
        proof {
            assert(c@.take(c@.len() as int) =~= c@);
            assert(views(comps@).take(i as int).drop_last() =~= pre);
            assert(views(comps@).take(i as int).last() == c@);
        }
    }
    proof {
        assert(views(comps@).take(comps@.len() as int) =~= views(comps@));
    }
    out
}

/// Resolve a raw request target under a document root: percent-decode,
/// split, normalize, and prepend the root's components.
///
/// The result always begins with the root's components, whatever the
/// request said: traversal below the root is impossible.
pub fn resolve_request(root: &Vec<Vec<u8>>, raw: &Vec<u8>) -> (out: Vec<Vec<u8>>)
    ensures
        views(out@) == views(root@) + normalize(split_path(decoded(raw@))),
        views(root@).is_prefix_of(views(out@)),
{
    let decoded_bytes = percent_decode(raw);
    let comps = split_components(&decoded_bytes);
    let norm = normalize_components(comps);
    let mut out: Vec<Vec<u8>> = Vec::new();
    let mut i: usize = 0;
    while i < root.len()
        invariant
            i <= root.len(),
            views(out@) == views(root@).take(i as int),
        decreases root.len() - i,
    {
        out.push(root[i].clone());
        i = i + 1;
        proof {
            assert(views(out@).drop_last() =~= views(out@.drop_last()));
            assert(views(out@) =~= views(out@.drop_last()).push(out@.last()@));
            assert(views(root@).take(i as int).drop_last() =~= views(root@).take(i as int - 1));
        }
    }
    proof {
        assert(views(root@).take(root@.len() as int) =~= views(root@));
    }
    let mut k: usize = 0;
    while k < norm.len()
        invariant
            k <= norm.len(),
            views(out@) == views(root@) + views(norm@).take(k as int),
        decreases norm.len() - k,
    {
        out.push(norm[k].clone());
        k = k + 1;
        proof {
            assert(views(out@).drop_last() =~= views(out@.drop_last()));
            assert(views(out@) =~= views(out@.drop_last()).push(out@.last()@));
            assert(views(norm@).take(k as int).drop_last() =~= views(norm@).take(k as int - 1));
            assert((views(root@) + views(norm@).take(k as int - 1)).push(views(norm@)[k as int - 1])
                =~= views(root@) + views(norm@).take(k as int));
        }
    }
    proof {
        assert(views(norm@).take(norm@.len() as int) =~= views(norm@));
        assert(views(root@).is_prefix_of(views(root@) + views(norm@)));
    }
    out
}

} // verus!
