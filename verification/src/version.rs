//! Release-tag handling: normalizing tags, reading semantic versions, and
//! ordering them.

use vstd::prelude::*;

use crate::chars::chars_of;
use crate::chars::string_of;
use crate::chars::trim;
use crate::chars::trim_chars;
use crate::codec::p_uint;
use crate::codec::parse_uint_at;

verus! {

/// `t` with every leading `v` removed.
pub open spec fn strip_v(t: Seq<char>) -> Seq<char>
    decreases t.len(),
{
    if t.len() > 0 && t[0] == 'v' {
        strip_v(t.drop_first())
    } else {
        t
    }
}

/// The normalized form of a release tag: trimmed, leading `v` stripped.
pub open spec fn normal_tag(t: Seq<char>) -> Seq<char> {
    strip_v(trim(t))
}

/// Normalizes a release tag: whitespace trimmed, leading `v`s stripped.
pub fn normalize_version_tag(tag: &str) -> (r: String)
    ensures
        r@ == normal_tag(tag@),
{
    let tv = chars_of(tag);
    let tt = trim_chars(&tv);
    let tlen = tt.len();
    let mut s: usize = 0;
    proof {
        assert(tt@.skip(0) =~= tt@);
    }
    while s < tlen && tt[s] == 'v'
        invariant
            tlen == tt@.len(),
            s <= tlen,
            strip_v(tt@) == strip_v(tt@.skip(s as int)),
        decreases tlen - s,
    {
        proof {
            assert(tt@.skip(s as int)[0] == tt@[s as int]);
            assert(tt@.skip(s as int).drop_first() =~= tt@.skip(s + 1));
        }
        s = s + 1;
    }
    let mut out: Vec<char> = Vec::new();
    let mut i: usize = s;
    while i < tlen
        invariant
            tlen == tt@.len(),
            s <= i <= tlen,
            out@ == tt@.subrange(s as int, i as int),
        decreases tlen - i,
    {
        out.push(tt[i]);
        i = i + 1;
        proof {
            assert(out@ =~= tt@.subrange(s as int, i as int));
        }
    }
    proof {
        let rest = tt@.skip(s as int);
        assert(rest.len() == tlen - s);
        if rest.len() > 0 {
            assert(rest[0] == tt@[s as int]);
        }
        assert(strip_v(rest) == rest);
        assert(tt@.subrange(s as int, tlen as int) =~= rest);
    }
    string_of(&out)
}

/// Index of the first occurrence of `c`, or `-1`.
pub open spec fn find_ch(t: Seq<char>, c: char) -> int
    decreases t.len(),
{
    if t.len() == 0 {
        -1
    } else if t[0] == c {
        0
    } else {
        let r = find_ch(t.drop_first(), c);
        if r == -1 {
            -1
        } else {
            r + 1
        }
    }
}

/// What `find_ch` returns: the first occurrence, or `-1`.
proof fn lemma_find_ch(t: Seq<char>, c: char)
    ensures
        find_ch(t, c) == -1 ==> forall|i: int| 0 <= i < t.len() ==> #[trigger] t[i] != c,
        find_ch(t, c) != -1 ==> 0 <= find_ch(t, c) < t.len() && t[find_ch(t, c)] == c && forall|
            i: int,
        | 0 <= i < find_ch(t, c) ==> #[trigger] t[i] != c,
    decreases t.len(),
{
    if t.len() > 0 && t[0] != c {
        let u = t.drop_first();
        lemma_find_ch(u, c);
        assert(forall|i: int| 0 <= i < u.len() ==> #[trigger] u[i] == t[i + 1]);
        if find_ch(t, c) == -1 {
            assert forall|i: int| 0 <= i < t.len() implies #[trigger] t[i] != c by {
                if i > 0 {
                    assert(u[i - 1] == t[i]);
                }
            }
        } else {
            let r = find_ch(u, c);
            assert(u[r] == t[r + 1]);
            assert forall|i: int| 0 <= i < r + 1 implies #[trigger] t[i] != c by {
                if i > 0 {
                    assert(u[i - 1] == t[i]);
                }
            }
        }
    }
}

/// The pieces of `t` split on `c`.
pub open spec fn split_on(t: Seq<char>, c: char) -> Seq<Seq<char>>
    decreases t.len(),
{
    let i = find_ch(t, c);
    if 0 <= i < t.len() {
        seq![t.take(i)] + split_on(t.skip(i + 1), c)
    } else {
        seq![t]
    }
}

/// Splits a character vector on a separator.
fn split_on_chars(t: &Vec<char>, c: char) -> (pieces: Vec<Vec<char>>)
    ensures
        pieces.deep_view() == split_on(t@, c),
{
    let tlen = t.len();
    let mut pieces: Vec<Vec<char>> = Vec::new();
    let mut start: usize = 0;
    let mut k: usize = 0;
    proof {
        assert(pieces.deep_view() =~~= Seq::<Seq<char>>::empty());
        assert(t@.skip(0) =~= t@);
        assert(Seq::<Seq<char>>::empty() + split_on(t@, c) =~= split_on(t@, c));
    }
    while k < tlen
        invariant
            tlen == t@.len(),
            start <= k <= tlen,
            forall|j: int| start <= j < k ==> t@[j] != c,
            split_on(t@, c) == pieces.deep_view() + split_on(t@.skip(start as int), c),
        decreases tlen - k,
    {
        if t[k] == c {
            let mut piece: Vec<char> = Vec::new();
            let mut i: usize = start;
            while i < k
                invariant
                    start <= i <= k <= t@.len(),
                    piece@ == t@.subrange(start as int, i as int),
                decreases k - i,
            {
                piece.push(t[i]);
                i = i + 1;
                proof {
                    assert(piece@ =~= t@.subrange(start as int, i as int));
                }
            }
            let ghost ts = t@.skip(start as int);
            proof {
                lemma_find_ch(ts, c);
                assert(forall|j: int| 0 <= j < ts.len() ==> #[trigger] ts[j] == t@[start + j]);
                assert(ts[k - start] == c);
                if find_ch(ts, c) == -1 {
                    assert(false);
                }
                let fi = find_ch(ts, c);
                if fi < k - start {
                    assert(ts[fi] == t@[start + fi]);
                    assert(false);
                }
                if fi > k - start {
                    assert(ts[k - start] != c);
                    assert(false);
                }
                assert(split_on(ts, c) == seq![ts.take(fi)] + split_on(ts.skip(fi + 1), c));
                assert(ts.take(fi) =~= t@.subrange(start as int, k as int));
                assert(ts.skip(fi + 1) =~= t@.skip(k + 1));
            }
            let ghost pv0 = pieces.deep_view();
            pieces.push(piece);
            proof {
                assert(piece.deep_view() =~= piece@);
                assert(pieces.deep_view() =~~= pv0.push(piece@));
                assert(pv0 + (seq![piece@] + split_on(t@.skip(k + 1), c)) =~= pv0.push(piece@)
                    + split_on(t@.skip(k + 1), c));
            }
            start = k + 1;
        }
        k = k + 1;
    }
    let mut piece: Vec<char> = Vec::new();
    let mut i: usize = start;
    while i < tlen
        invariant
            start <= i <= tlen <= t@.len(),
            tlen == t@.len(),
            piece@ == t@.subrange(start as int, i as int),
        decreases tlen - i,
    {
        piece.push(t[i]);
        i = i + 1;
        proof {
            assert(piece@ =~= t@.subrange(start as int, i as int));
        }
    }
    let ghost ts = t@.skip(start as int);
    proof {
        lemma_find_ch(ts, c);
        assert(forall|j: int| 0 <= j < ts.len() ==> #[trigger] ts[j] == t@[start + j]);
        if find_ch(ts, c) != -1 {
            let fi = find_ch(ts, c);
            assert(ts[fi] == t@[start + fi]);
            assert(false);
        }
        assert(split_on(ts, c) == seq![ts]);
        assert(piece@ =~= ts);
    }
    let ghost pv0 = pieces.deep_view();
    pieces.push(piece);
    proof {
        assert(piece.deep_view() =~= piece@);
        assert(pieces.deep_view() =~~= pv0.push(piece@));
        assert(pv0 + seq![piece@] =~= pv0.push(piece@));
    }
    pieces
}

/// The number a version component denotes: an optional leading plus sign,
/// then decimal digits filling the whole piece within the `u64` range;
/// anything else counts as zero.
pub open spec fn piece_value(t: Seq<char>) -> nat {
    let b = if t.len() > 0 && t[0] == '+' {
        t.drop_first()
    } else {
        t
    };
    match p_uint(b) {
        Some((n, rest)) => if rest.len() == 0 && n <= u64::MAX as nat {
            n
        } else {
            0
        },
        None => 0,
    }
}

/// Reads one version component, zero on any malformation or overflow.
fn piece_value_exec(t: &Vec<char>) -> (r: u64)
    ensures
        r as nat == piece_value(t@),
{
    let start: usize = if t.len() > 0 && t[0] == '+' {
        1
    } else {
        0
    };
    proof {
        if t@.len() > 0 && t@[0] == '+' {
            assert(t@.drop_first() =~= t@.skip(1));
        } else {
            assert(t@ =~= t@.skip(0));
        }
    }
    match parse_uint_at(t, start) {
        Some((n, j)) => {
            if j == t.len() {
                proof {
                    assert(t@.skip(j as int).len() == 0);
                }
                n
            } else {
                proof {
                    assert(t@.skip(j as int).len() == t@.len() - j);
                }
                0
            }
        },
        None => 0,
    }
}

/// The `(major, minor, patch, prerelease)` reading of a version string:
/// the tag is normalized, everything after the first dash is cut away, the
/// remainder is split on dots, and the first three pieces are read as
/// numbers, missing or malformed pieces counting as zero. The dash itself
/// marks a prerelease.
pub open spec fn version_fields(t: Seq<char>) -> (nat, nat, nat, bool) {
    let cleaned = normal_tag(t);
    let dash = find_ch(cleaned, '-');
    let numeric = if dash == -1 {
        cleaned
    } else {
        cleaned.take(dash)
    };
    let parts = split_on(numeric, '.');
    let major = if parts.len() > 0 {
        piece_value(parts[0])
    } else {
        0
    };
    let minor = if parts.len() > 1 {
        piece_value(parts[1])
    } else {
        0
    };
    let patch = if parts.len() > 2 {
        piece_value(parts[2])
    } else {
        0
    };
    (major, minor, patch, dash != -1)
}

/// Reads a version string into its numeric fields and prerelease flag.
pub fn parse_version(version: &str) -> (r: (u64, u64, u64, bool))
    ensures
        r.0 as nat == version_fields(version@).0,
        r.1 as nat == version_fields(version@).1,
        r.2 as nat == version_fields(version@).2,
        r.3 == version_fields(version@).3,
{
    let cleaned = normalize_version_tag(version);
    let cv = chars_of(cleaned.as_str());
    let clen = cv.len();
    let mut dash: usize = 0;
    while dash < clen && cv[dash] != '-'
        invariant
            clen == cv@.len(),
            dash <= clen,
            forall|j: int| 0 <= j < dash ==> cv@[j] != '-',
        decreases clen - dash,
    {
        dash = dash + 1;
    }
    let is_pre = dash < clen;
    let ghost sdash = find_ch(cv@, '-');
    proof {
        lemma_find_ch(cv@, '-');
        if dash < clen {
            if sdash == -1 {
                assert(false);
            }
            if sdash < dash as int {
                assert(cv@[sdash] == '-');
                assert(false);
            }
            if sdash > dash as int {
                assert(cv@[dash as int] != '-');
                assert(false);
            }
        } else {
            if sdash != -1 {
                assert(cv@[sdash] == '-');
                assert(false);
            }
        }
    }
    let mut numeric: Vec<char> = Vec::new();
    let mut i: usize = 0;
    while i < dash
        invariant
            dash <= cv@.len(),
            i <= dash,
            numeric@ == cv@.subrange(0, i as int),
        decreases dash - i,
    {
        numeric.push(cv[i]);
        i = i + 1;
        proof {
            assert(numeric@ =~= cv@.subrange(0, i as int));
        }
    }
    proof {
        if sdash == -1 {
            assert(cv@.subrange(0, clen as int) =~= cv@);
        } else {
            assert(cv@.subrange(0, sdash) =~= cv@.take(sdash));
        }
    }
    let parts = split_on_chars(&numeric, '.');
    let major = if parts.len() > 0 {
        piece_value_exec(&parts[0])
    } else {
        0
    };
    let minor = if parts.len() > 1 {
        piece_value_exec(&parts[1])
    } else {
        0
    };
    let patch = if parts.len() > 2 {
        piece_value_exec(&parts[2])
    } else {
        0
    };
    proof {
        if parts@.len() > 0 {
            assert(parts.deep_view()[0] =~= parts@[0]@);
        }
        if parts@.len() > 1 {
            assert(parts.deep_view()[1] =~= parts@[1]@);
        }
        if parts@.len() > 2 {
            assert(parts.deep_view()[2] =~= parts@[2]@);
        }
    }
    (major, minor, patch, is_pre)
}

/// The ordering of two version strings: numeric fields first, a prerelease
/// ranking below its release; `-1`, `0` or `1`.
pub open spec fn cmp_versions(a: Seq<char>, b: Seq<char>) -> int {
    let fa = version_fields(a);
    let fb = version_fields(b);
    if fa.0 != fb.0 {
        if fa.0 < fb.0 {
            -1int
        } else {
            1int
        }
    } else if fa.1 != fb.1 {
        if fa.1 < fb.1 {
            -1int
        } else {
            1int
        }
    } else if fa.2 != fb.2 {
        if fa.2 < fb.2 {
            -1int
        } else {
            1int
        }
    } else if fa.3 && !fb.3 {
        -1int
    } else if !fa.3 && fb.3 {
        1int
    } else {
        0int
    }
}

/// Orders the current version against the latest release.
pub fn compare_versions(current: &str, latest: &str) -> (r: i8)
    ensures
        r as int == cmp_versions(current@, latest@),
{
    let (cur_major, cur_minor, cur_patch, cur_pre) = parse_version(current);
    let (lat_major, lat_minor, lat_patch, lat_pre) = parse_version(latest);
    if cur_major != lat_major {
        return if cur_major < lat_major {
            -1
        } else {
            1
        };
    }
    if cur_minor != lat_minor {
        return if cur_minor < lat_minor {
            -1
        } else {
            1
        };
    }
    if cur_patch != lat_patch {
        return if cur_patch < lat_patch {
            -1
        } else {
            1
        };
    }
    if cur_pre && !lat_pre {
        return -1;
    }
    if !cur_pre && lat_pre {
        return 1;
    }
    0
}

} // verus!
