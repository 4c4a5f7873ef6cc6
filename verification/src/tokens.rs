//! Splitting text into whitespace-separated words, as `str::split_whitespace`
//! does, by byte ranges of the UTF-8 text.

use vstd::prelude::*;
use vstd::string::StringSliceAdditionalSpecFns;

verus! {

/// Length of the UTF-8 encoding of a Unicode `White_Space` character that
/// starts at byte `p` of `b`, or 0 when none starts there.
pub open spec fn whitespace_len(b: Seq<u8>, p: int) -> int {
    if p < 0 || p >= b.len() {
        0
    } else if (9 <= b[p] <= 13) || b[p] == 32 {
        1
    } else if b[p] == 0xC2 && p + 1 < b.len() && (b[p + 1] == 0x85 || b[p + 1] == 0xA0) {
        2
    } else if b[p] == 0xE1 && p + 2 < b.len() && b[p + 1] == 0x9A && b[p + 2] == 0x80 {
        3
    } else if b[p] == 0xE2 && p + 2 < b.len() && ((b[p + 1] == 0x80 && ((0x80 <= b[p + 2] <= 0x8A)
        || b[p + 2] == 0xA8 || b[p + 2] == 0xA9 || b[p + 2] == 0xAF)) || (b[p + 1] == 0x81 && b[p
        + 2] == 0x9F)) {
        3
    } else if b[p] == 0xE3 && p + 2 < b.len() && b[p + 1] == 0x80 && b[p + 2] == 0x80 {
        3
    } else {
        0
    }
}

/// The words of `b` from byte `p` on, as `(start, end)` byte ranges, when a
/// word began at `start` (if any) and is still open at `p`.
pub open spec fn scan_words(b: Seq<u8>, p: int, start: Option<int>) -> Seq<(int, int)>
    decreases b.len() - p,
{
    if p >= b.len() {
        match start {
            Some(s) => seq![(s, b.len() as int)],
            None => Seq::empty(),
        }
    } else if whitespace_len(b, p) > 0 {
        let rest = scan_words(b, p + whitespace_len(b, p), None);
        match start {
            Some(s) => seq![(s, p)] + rest,
            None => rest,
        }
    } else {
        scan_words(
            b,
            p + 1,
            match start {
                Some(s) => Some(s),
                None => Some(p),
            },
        )
    }
}

/// The maximal runs of non-whitespace characters of `b`, in order.
pub open spec fn words(b: Seq<u8>) -> Seq<(int, int)> {
    scan_words(b, 0, None)
}

/// Ranges moved `d` bytes later.
pub open spec fn shift_ranges(r: Seq<(int, int)>, d: int) -> Seq<(int, int)> {
    r.map_values(|x: (int, int)| (x.0 + d, x.1 + d))
}

/// A run of bytes where no whitespace starts neither opens nor closes a
/// word in its middle: scanning across it keeps the open word, or opens one
/// at its first byte.
pub proof fn lemma_scan_word_run(b: Seq<u8>, p: int, q: int, start: Option<int>)
    requires
        0 <= p <= q <= b.len(),
        forall|k: int| p <= k < q ==> #[trigger] whitespace_len(b, k) == 0,
    ensures
        p < q ==> scan_words(b, p, start) == scan_words(
            b,
            q,
            match start {
                Some(s) => Some(s),
                None => Some(p),
            },
        ),
    decreases q - p,
{
    if p < q {
        let next = match start {
            Some(s) => Some(s),
            None => Some(p),
        };
        lemma_scan_word_run(b, p + 1, q, next);
    }
}

/// Text put after a prefix `a` splits into the same words, moved by the
/// prefix's length.
pub proof fn lemma_scan_shift(a: Seq<u8>, c: Seq<u8>, p: int, start: Option<int>)
    requires
        0 <= p <= c.len(),
    ensures
        scan_words(
            a + c,
            a.len() + p,
            match start {
                Some(s) => Some(s + a.len()),
                None => None,
            },
        ) == shift_ranges(scan_words(c, p, start), a.len() as int),
    decreases c.len() - p,
{
    let b = a + c;
    let d = a.len() as int;
    let sh = match start {
        Some(s) => Some(s + d),
        None => None,
    };
    if p >= c.len() {
        assert(shift_ranges(scan_words(c, p, start), d) =~= scan_words(b, d + p, sh));
    } else {
        assert(b[d + p] == c[p]);
        if p + 1 < c.len() {
            assert(b[d + p + 1] == c[p + 1]);
        }
        if p + 2 < c.len() {
            assert(b[d + p + 2] == c[p + 2]);
        }
        assert(whitespace_len(b, d + p) == whitespace_len(c, p));
        let w = whitespace_len(c, p);
        if w > 0 {
            lemma_scan_shift(a, c, p + w, None);
            let rest = scan_words(c, p + w, None);
            match start {
                Some(s) => {
                    assert(shift_ranges(seq![(s, p)] + rest, d) =~= seq![(s + d, p + d)]
                        + shift_ranges(rest, d));
                },
                None => {},
            }
        } else {
            let next = match start {
                Some(s) => Some(s),
                None => Some(p),
            };
            lemma_scan_shift(a, c, p + 1, next);
        }
    }
}

/// Every word lies inside the text, after the scanning position (or the
/// open word's start), and is not empty.
pub proof fn lemma_scan_bounds(b: Seq<u8>, p: int, start: Option<int>)
    requires
        0 <= p <= b.len(),
        start matches Some(s) ==> 0 <= s < p,
    ensures
        forall|i: int|
            0 <= i < scan_words(b, p, start).len() ==> {
                let w = #[trigger] scan_words(b, p, start)[i];
                &&& 0 <= w.0 < w.1 <= b.len()
                &&& (start matches Some(s) ==> s <= w.0)
                &&& (start is None ==> p <= w.0)
            },
    decreases b.len() - p,
{
    let r = scan_words(b, p, start);
    if p < b.len() {
        let w = whitespace_len(b, p);
        if w > 0 {
            lemma_scan_bounds(b, p + w, None);
            let rest = scan_words(b, p + w, None);
            match start {
                Some(s) => {
                    assert(r == seq![(s, p)] + rest);
                    assert forall|i: int| 0 <= i < r.len() implies {
                        let x = #[trigger] r[i];
                        0 <= x.0 < x.1 <= b.len() && s <= x.0
                    } by {
                        if i > 0 {
                            assert(r[i] == rest[i - 1]);
                        }
                    }
                },
                None => {
                    assert(r == rest);
                },
            }
        } else {
            let next = match start {
                Some(s) => Some(s),
                None => Some(p),
            };
            lemma_scan_bounds(b, p + 1, next);
            assert(r == scan_words(b, p + 1, next));
        }
    } else {
        match start {
            Some(s) => {
                assert(r == seq![(s, b.len() as int)]);
            },
            None => {},
        }
    }
}

/// Byte `k` of `b` belongs to the encoding of a whitespace character that
/// starts at or up to two bytes before it.
pub open spec fn in_whitespace(b: Seq<u8>, k: int) -> bool {
    exists|q: int| k - 2 <= q <= k && #[trigger] whitespace_len(b, q) > k - q
}

/// Byte `k` lies in the range `w`.
pub open spec fn in_range(w: (int, int), k: int) -> bool {
    w.0 <= k < w.1
}

/// The lower end of the bytes that a scan from `p` accounts for.
spec fn scan_low(p: int, start: Option<int>) -> int {
    match start {
        Some(s) => s,
        None => p,
    }
}

proof fn lemma_scan_covers(b: Seq<u8>, p: int, start: Option<int>)
    requires
        0 <= p <= b.len(),
        start matches Some(s) ==> 0 <= s <= p,
    ensures
        forall|k: int|
            scan_low(p, start) <= k < b.len() && !in_whitespace(b, k) ==> exists|i: int|
                0 <= i < scan_words(b, p, start).len() && #[trigger] in_range(
                    scan_words(b, p, start)[i],
                    k,
                ),
    decreases b.len() - p,
{
    let r = scan_words(b, p, start);
    if p >= b.len() {
        match start {
            Some(s) => {
                assert forall|k: int| scan_low(p, start) <= k < b.len() && !in_whitespace(b, k) implies exists|i: int|
                    0 <= i < r.len() && #[trigger] in_range(r[i], k) by {
                    assert(in_range(r[0], k));
                }
            },
            None => {},
        }
    } else {
        let w = whitespace_len(b, p);
        if w > 0 {
            lemma_scan_covers(b, p + w, None);
            let rest = scan_words(b, p + w, None);
            assert forall|k: int| scan_low(p, start) <= k < b.len() && !in_whitespace(b, k) implies exists|i: int|
                0 <= i < r.len() && #[trigger] in_range(r[i], k) by {
                if k < p {
                    let s = start->0;
                    assert(r[0] == (s, p));
                    assert(in_range(r[0], k));
                } else if k < p + w {
                    assert(whitespace_len(b, p) > k - p);
                    assert(in_whitespace(b, k));
                } else {
                    let i = choose|i: int| 0 <= i < rest.len() && #[trigger] in_range(rest[i], k);
                    match start {
                        Some(s) => {
                            assert(r[i + 1] == rest[i]);
                            assert(in_range(r[i + 1], k));
                        },
                        None => {
                            assert(in_range(r[i], k));
                        },
                    }
                }
            }
        } else {
            let next = match start {
                Some(s) => Some(s),
                None => Some(p),
            };
            lemma_scan_covers(b, p + 1, next);
            assert(r == scan_words(b, p + 1, next));
        }
    }
}

proof fn lemma_scan_ordered(b: Seq<u8>, p: int, start: Option<int>)
    requires
        0 <= p <= b.len(),
        start matches Some(s) ==> 0 <= s < p,
    ensures
        forall|i: int, j: int|
            0 <= i < j < scan_words(b, p, start).len() ==> #[trigger] scan_words(b, p, start)[i].1
                < #[trigger] scan_words(b, p, start)[j].0,
    decreases b.len() - p,
{
    let r = scan_words(b, p, start);
    if p < b.len() {
        let w = whitespace_len(b, p);
        if w > 0 {
            lemma_scan_ordered(b, p + w, None);
            lemma_scan_bounds(b, p + w, None);
            let rest = scan_words(b, p + w, None);
            match start {
                Some(s) => {
                    assert forall|i: int, j: int| 0 <= i < j < r.len() implies #[trigger] r[i].1
                        < #[trigger] r[j].0 by {
                        assert(r[j] == rest[j - 1]);
                        if i > 0 {
                            assert(r[i] == rest[i - 1]);
                        }
                    }
                },
                None => {},
            }
        } else {
            let next = match start {
                Some(s) => Some(s),
                None => Some(p),
            };
            lemma_scan_ordered(b, p + 1, next);
            assert(r == scan_words(b, p + 1, next));
        }
    }
}

proof fn lemma_scan_words_clean(b: Seq<u8>, p: int, start: Option<int>)
    requires
        0 <= p <= b.len(),
        start matches Some(s) ==> 0 <= s < p && forall|k: int| s <= k < p ==> #[trigger] whitespace_len(b, k) == 0,
    ensures
        forall|i: int, k: int|
            0 <= i < scan_words(b, p, start).len() && #[trigger] in_range(scan_words(b, p, start)[i], k)
                ==> whitespace_len(b, k) == 0,
    decreases b.len() - p,
{
    let r = scan_words(b, p, start);
    if p >= b.len() {
        match start {
            Some(s) => {
                assert forall|i: int, k: int| 0 <= i < r.len() && #[trigger] in_range(r[i], k)
                    implies whitespace_len(b, k) == 0 by {
                    assert(i == 0);
                    if k >= b.len() {
                        assert(whitespace_len(b, k) == 0);
                    }
                }
            },
            None => {},
        }
    } else {
        let w = whitespace_len(b, p);
        if w > 0 {
            lemma_scan_words_clean(b, p + w, None);
            let rest = scan_words(b, p + w, None);
            match start {
                Some(s) => {
                    assert forall|i: int, k: int| 0 <= i < r.len() && #[trigger] in_range(r[i], k)
                        implies whitespace_len(b, k) == 0 by {
                        if i > 0 {
                            assert(r[i] == rest[i - 1]);
                            assert(in_range(rest[i - 1], k));
                        }
                    }
                },
                None => {},
            }
        } else {
            let next = match start {
                Some(s) => Some(s),
                None => Some(p),
            };
            lemma_scan_words_clean(b, p + 1, next);
            assert(r == scan_words(b, p + 1, next));
        }
    }
}

/// The words of a text are its maximal runs of non-whitespace: they come in
/// order without touching, no whitespace character starts inside one, every
/// byte that is not part of a whitespace character lies in exactly one word,
/// and a text that ends in such a byte has a last word that ends with it.
pub proof fn lemma_words_maximal(b: Seq<u8>)
    ensures
        forall|i: int|
            0 <= i < words(b).len() ==> 0 <= (#[trigger] words(b)[i]).0 < words(b)[i].1 <= b.len(),
        forall|i: int, j: int|
            0 <= i < j < words(b).len() ==> #[trigger] words(b)[i].1 < #[trigger] words(b)[j].0,
        forall|i: int, k: int|
            0 <= i < words(b).len() && #[trigger] in_range(words(b)[i], k) ==> whitespace_len(b, k)
                == 0,
        forall|k: int|
            0 <= k < b.len() && !in_whitespace(b, k) ==> exists|i: int|
                0 <= i < words(b).len() && #[trigger] in_range(words(b)[i], k),
        forall|i: int, j: int, k: int|
            0 <= i < words(b).len() && 0 <= j < words(b).len() && #[trigger] in_range(words(b)[i], k)
                && #[trigger] in_range(words(b)[j], k) ==> i == j,
        b.len() > 0 && !in_whitespace(b, b.len() - 1) ==> words(b).len() > 0 && words(b).last().1
            == b.len(),
{
    lemma_scan_bounds(b, 0, None);
    lemma_scan_ordered(b, 0, None);
    lemma_scan_words_clean(b, 0, None);
    lemma_scan_covers(b, 0, None);
    let r = words(b);
    assert forall|i: int, j: int, k: int|
        0 <= i < r.len() && 0 <= j < r.len() && #[trigger] in_range(r[i], k) && #[trigger] in_range(
            r[j],
            k,
        ) implies i == j by {
        if i < j {
            assert(r[i].1 < r[j].0);
        } else if j < i {
            assert(r[j].1 < r[i].0);
        }
    }
    if b.len() > 0 && !in_whitespace(b, b.len() - 1) {
        let k = b.len() - 1;
        assert(scan_low(0, None) == 0);
        let i = choose|i: int| 0 <= i < r.len() && #[trigger] in_range(r[i], k);
        assert(r[i].1 == b.len());
        if i < r.len() - 1 {
            assert(r[i].1 < r[r.len() - 1].0);
        }
    }
}

/// Byte ranges held as `usize` pairs, read as integers.
pub open spec fn ranges_view(r: Seq<(usize, usize)>) -> Seq<(int, int)> {
    r.map_values(|x: (usize, usize)| (x.0 as int, x.1 as int))
}

fn whitespace_at(b: &[u8], p: usize) -> (n: usize)
    requires
        p < b@.len(),
    ensures
        n == whitespace_len(b@, p as int),
{
    let c = b[p];
    let len = b.len();
    if (9 <= c && c <= 13) || c == 32 {
        1
    } else if c == 0xC2 && p + 1 < len && (b[p + 1] == 0x85 || b[p + 1] == 0xA0) {
        2
    } else if c == 0xE1 && len - p > 2 && b[p + 1] == 0x9A && b[p + 2] == 0x80 {
        3
    } else if c == 0xE2 && len - p > 2 && ((b[p + 1] == 0x80 && ((0x80 <= b[p + 2] && b[p + 2]
        <= 0x8A) || b[p + 2] == 0xA8 || b[p + 2] == 0xA9 || b[p + 2] == 0xAF)) || (b[p + 1]
        == 0x81 && b[p + 2] == 0x9F)) {
        3
    } else if c == 0xE3 && len - p > 2 && b[p + 1] == 0x80 && b[p + 2] == 0x80 {
        3
    } else {
        0
    }
}

/// The byte ranges of the whitespace-separated words of `text`, in order.
pub fn word_ranges(text: &str) -> (r: Vec<(usize, usize)>)
    ensures
        ranges_view(r@) == words(text.spec_bytes()),
        forall|i: int|
            #![trigger r@[i]]
            0 <= i < r@.len() ==> r@[i].0 < r@[i].1 && r@[i].1 <= text.spec_bytes().len(),
{
    let b = text.as_bytes();
    let len = b.len();
    let mut r: Vec<(usize, usize)> = Vec::new();
    let mut p: usize = 0;
    let mut start: Option<usize> = None;
    while p < len
        invariant
            b@ == text.spec_bytes(),
            len == b@.len(),
            p <= len,
            start matches Some(s) ==> s < p,
            ranges_view(r@) + scan_words(
                b@,
                p as int,
                match start {
                    Some(s) => Some(s as int),
                    None => None,
                },
            ) == words(b@),
            forall|i: int| #![trigger r@[i]] 0 <= i < r@.len() ==> r@[i].0 < r@[i].1 && r@[i].1 <= len,
        decreases len - p,
    {
        let w = whitespace_at(b, p);
        let ghost before = ranges_view(r@);
        if w > 0 {
            match start {
                Some(s) => {
                    r.push((s, p));
                    proof {
                        assert(ranges_view(r@) =~= before + seq![(s as int, p as int)]);
                    }
                },
                None => {},
            }
            p = p + w;
            start = None;
        } else {
            if start.is_none() {
                start = Some(p);
            }
            p = p + 1;
        }
    }
    match start {
        Some(s) => {
            let ghost before = ranges_view(r@);
            r.push((s, len));
            proof {
                assert(ranges_view(r@) =~= before + seq![(s as int, len as int)]);
            }
        },
        None => {
            proof {
                assert(ranges_view(r@) =~= ranges_view(r@) + Seq::<(int, int)>::empty());
            }
        },
    }
    r
}

} // verus!
