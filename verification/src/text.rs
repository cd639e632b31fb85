//! Byte-level text operations: substring containment, UTF-8 validity,
//! and the one-line formatting of multi-line blocks.

use vstd::prelude::*;

verus! {

/// Newline byte.
pub open spec fn nl() -> u8 {
    0x0Au8
}

/// Is `b` an ASCII whitespace byte (space, tab, newline, carriage
/// return, vertical tab, form feed)?
pub open spec fn is_ascii_space(b: u8) -> bool {
    b == 0x20 || b == 0x09 || b == 0x0A || b == 0x0D || b == 0x0B || b == 0x0C
}

/// The byte length of the white-space character that starts `s`, or 0
/// when `s` does not start with one.  The class is Unicode White_Space
/// in its UTF-8 encoding: the six ASCII whitespace bytes; U+0085 and
/// U+00A0 (two bytes); U+1680, U+2000 to U+200A, U+2028, U+2029,
/// U+202F, U+205F and U+3000 (three bytes).
pub open spec fn ws_char_len(s: Seq<u8>) -> nat {
    if s.len() > 0 && is_ascii_space(s[0]) {
        1
    } else if s.len() >= 2 && s[0] == 0xC2 && (s[1] == 0x85 || s[1] == 0xA0) {
        2
    } else if s.len() >= 3 && s[0] == 0xE1 && s[1] == 0x9A && s[2] == 0x80 {
        3
    } else if s.len() >= 3 && s[0] == 0xE2 && s[1] == 0x80 && (0x80 <= s[2] <= 0x8A || s[2]
        == 0xA8 || s[2] == 0xA9 || s[2] == 0xAF) {
        3
    } else if s.len() >= 3 && s[0] == 0xE2 && s[1] == 0x81 && s[2] == 0x9F {
        3
    } else if s.len() >= 3 && s[0] == 0xE3 && s[1] == 0x80 && s[2] == 0x80 {
        3
    } else {
        0
    }
}

/// The visible join marker that replaces a line break in a flattened
/// block: the UTF-8 encoding of a hook-arrow character.
pub open spec fn marker() -> Seq<u8> {
    seq![0xE2u8, 0x86u8, 0xA9u8]
}

/// Does `h` contain `n` as a contiguous subrange?
pub open spec fn contains_seq(h: Seq<u8>, n: Seq<u8>) -> bool {
    exists|i: int| 0 <= i <= h.len() - n.len() && #[trigger] h.subrange(i, i + n.len()) == n
}

/// Is `b` a UTF-8 continuation byte?
pub open spec fn is_cont(b: u8) -> bool {
    0x80 <= b <= 0xBF
}

/// Is `s` a well-formed UTF-8 byte sequence?  This follows the UTF-8
/// coding rules: ASCII bytes stand alone; longer sequences start with a
/// leading byte whose value determines the length and the admissible
/// range of the first continuation byte (which excludes overlong forms,
/// surrogates, and values above 0x10FFFF).
pub open spec fn is_utf8(s: Seq<u8>) -> bool
    decreases s.len(),
{
    if s.len() == 0 {
        true
    } else {
        let b0 = s[0];
        if b0 < 0x80 {
            is_utf8(s.skip(1))
        } else if 0xC2 <= b0 <= 0xDF {
            s.len() >= 2 && is_cont(s[1]) && is_utf8(s.skip(2))
        } else if b0 == 0xE0 {
            s.len() >= 3 && 0xA0 <= s[1] <= 0xBF && is_cont(s[2]) && is_utf8(s.skip(3))
        } else if 0xE1 <= b0 <= 0xEC || b0 == 0xEE || b0 == 0xEF {
            s.len() >= 3 && is_cont(s[1]) && is_cont(s[2]) && is_utf8(s.skip(3))
        } else if b0 == 0xED {
            s.len() >= 3 && 0x80 <= s[1] <= 0x9F && is_cont(s[2]) && is_utf8(s.skip(3))
        } else if b0 == 0xF0 {
            s.len() >= 4 && 0x90 <= s[1] <= 0xBF && is_cont(s[2]) && is_cont(s[3])
                && is_utf8(s.skip(4))
        } else if 0xF1 <= b0 <= 0xF3 {
            s.len() >= 4 && is_cont(s[1]) && is_cont(s[2]) && is_cont(s[3]) && is_utf8(s.skip(4))
        } else if b0 == 0xF4 {
            s.len() >= 4 && 0x80 <= s[1] <= 0x8F && is_cont(s[2]) && is_cont(s[3])
                && is_utf8(s.skip(4))
        } else {
            false
        }
    }
}

/// `s` with its leading run of white-space characters removed, whole
/// characters at a time.
pub open spec fn skip_ws(s: Seq<u8>) -> Seq<u8>
    decreases s.len(),
{
    if ws_char_len(s) > 0 {
        skip_ws(s.skip(ws_char_len(s) as int))
    } else {
        s
    }
}

/// Removing leading whitespace never lengthens a sequence.
pub proof fn lemma_skip_ws_len(s: Seq<u8>)
    ensures
        skip_ws(s).len() <= s.len(),
    decreases s.len(),
{
    if ws_char_len(s) > 0 {
        lemma_skip_ws_len(s.skip(ws_char_len(s) as int));
    }
}

/// The flattened form of `s`: every maximal run of a newline followed
/// by one or more white-space characters becomes the join marker;
/// every other byte is copied unchanged.
pub open spec fn flatten_bytes(s: Seq<u8>) -> Seq<u8>
    decreases s.len(),
    via flatten_bytes_decreases
{
    if s.len() == 0 {
        Seq::empty()
    } else if s[0] == nl() && ws_char_len(s.skip(1)) > 0 {
        marker() + flatten_bytes(skip_ws(s.skip(1)))
    } else {
        seq![s[0]] + flatten_bytes(s.skip(1))
    }
}

#[via_fn]
proof fn flatten_bytes_decreases(s: Seq<u8>) {
    if s.len() >= 1 {
        lemma_skip_ws_len(s.skip(1));
    }
}

/// How many times byte `b` occurs in `s`.
pub open spec fn count_byte(s: Seq<u8>, b: u8) -> nat
    decreases s.len(),
{
    if s.len() == 0 {
        0
    } else {
        (if s[0] == b { 1nat } else { 0nat }) + count_byte(s.skip(1), b)
    }
}

/// Between any two newlines of `s` there is at least one plain byte: a
/// non-whitespace ASCII byte.  Such a byte is part of no white-space
/// character's encoding (the multi-byte ones consist of bytes at or
/// above 0x80), so under this condition every replaced run holds
/// exactly one newline, and flattening keeps line boundaries
/// one-to-one.
pub open spec fn single_newline_runs(s: Seq<u8>) -> bool {
    forall|i: int, j: int|
        0 <= i < j < s.len() && s[i] == nl() && s[j] == nl() ==> exists|w: int|
            i < w < j && !is_ascii_space(#[trigger] s[w]) && s[w] < 0x80
}

/// Counting splits over any cut point.
pub proof fn lemma_count_split(s: Seq<u8>, b: u8, i: int)
    requires
        0 <= i <= s.len(),
    ensures
        count_byte(s, b) == count_byte(s.take(i), b) + count_byte(s.skip(i), b),
    decreases i,
{
    if i == 0 {
        assert(s.take(0) =~= Seq::<u8>::empty());
        assert(s.skip(0) =~= s);
    } else {
        lemma_count_split(s.skip(1), b, i - 1);
        assert(s.take(i).skip(1) =~= s.skip(1).take(i - 1));
        assert(s.skip(1).skip(i - 1) =~= s.skip(i));
        assert(count_byte(s.take(i), b) == (if s[0] == b {
            1nat
        } else {
            0nat
        }) + count_byte(s.skip(1).take(i - 1), b));
    }
}

/// A sequence without occurrences of `b` counts zero.
pub proof fn lemma_count_zero(s: Seq<u8>, b: u8)
    requires
        forall|w: int| 0 <= w < s.len() ==> s[w] != b,
    ensures
        count_byte(s, b) == 0,
    decreases s.len(),
{
    if s.len() > 0 {
        lemma_count_zero(s.skip(1), b);
    }
}

/// `single_newline_runs` carries over to suffixes.
proof fn lemma_snr_skip(s: Seq<u8>, d: int)
    requires
        single_newline_runs(s),
        0 <= d <= s.len(),
    ensures
        single_newline_runs(s.skip(d)),
{
    assert forall|i: int, j: int|
        0 <= i < j < s.skip(d).len() && s.skip(d)[i] == nl() && s.skip(d)[j] == nl()
        implies exists|w: int|
            i < w < j && !is_ascii_space(#[trigger] s.skip(d)[w]) && s.skip(d)[w] < 0x80 by {
        assert(s[i + d] == nl() && s[j + d] == nl());
        let w0 = choose|w0: int|
            i + d < w0 < j + d && !is_ascii_space(#[trigger] s[w0]) && s[w0] < 0x80;
        assert(s.skip(d)[w0 - d] == s[w0]);
        assert(i < w0 - d < j && !is_ascii_space(s.skip(d)[w0 - d]) && s.skip(d)[w0 - d] < 0x80);
    }
}

/// `skip_ws` removes exactly the leading run of white-space
/// characters: it returns the suffix after some cut `d`, and every
/// byte before `d` belongs to a white-space character's encoding, so
/// it is an ASCII whitespace byte or a byte at or above 0x80.
proof fn lemma_skip_ws_cut(s: Seq<u8>) -> (d: int)
    ensures
        0 <= d <= s.len(),
        skip_ws(s) == s.skip(d),
        forall|w: int| 0 <= w < d ==> is_ascii_space(#[trigger] s[w]) || s[w] >= 0x80,
        ws_char_len(s) > 0 ==> d >= 1,
    decreases s.len(),
{
    let w0 = ws_char_len(s) as int;
    if w0 > 0 {
        let d0 = lemma_skip_ws_cut(s.skip(w0));
        assert(s.skip(w0).skip(d0) =~= s.skip(d0 + w0));
        assert forall|w: int| 0 <= w < d0 + w0 implies is_ascii_space(#[trigger] s[w]) || s[w]
            >= 0x80 by {
            if w >= w0 {
                assert(s.skip(w0)[w - w0] == s[w]);
            }
        }
        d0 + w0
    } else {
        assert(s.skip(0) =~= s);
        0
    }
}

/// Counts of the join marker itself.
proof fn lemma_marker_counts()
    ensures
        count_byte(marker(), nl()) == 0,
        count_byte(marker(), 0xE2u8) == 1,
{
    let m = marker();
    let m1 = m.skip(1);
    let m2 = m1.skip(1);
    let m3 = m2.skip(1);
    assert(m1 =~= seq![0x86u8, 0xA9u8]);
    assert(m2 =~= seq![0xA9u8]);
    assert(m3 =~= Seq::<u8>::empty());
    assert(count_byte(m3, nl()) == 0);
    assert(count_byte(m3, 0xE2u8) == 0);
    assert(count_byte(m2, nl()) == 0);
    assert(count_byte(m2, 0xE2u8) == 0);
    assert(count_byte(m1, nl()) == 0);
    assert(count_byte(m1, 0xE2u8) == 0);
}

/// The round-trip law for flattening.  Provided the input has no byte
/// equal to the marker's leading byte 0xE2 (so every 0xE2 in the
/// output begins one inserted join marker) and no two newlines with
/// only whitespace between them (so every replaced run holds exactly
/// one newline), no line boundary is lost and none is invented:
/// newlines in, equals newlines surviving plus markers inserted.
/// Splitting the flattened block on the marker and the remaining
/// newlines therefore reconstructs the original line count.
pub proof fn lemma_flatten_line_count(s: Seq<u8>)
    requires
        single_newline_runs(s),
        forall|i: int| 0 <= i < s.len() ==> s[i] != 0xE2u8,
    ensures
        count_byte(flatten_bytes(s), nl()) + count_byte(flatten_bytes(s), 0xE2u8) == count_byte(
            s,
            nl(),
        ),
    decreases s.len(),
{
    if s.len() == 0 {
    } else if s[0] == nl() && ws_char_len(s.skip(1)) > 0 {
        let r = s.skip(1);
        let d = lemma_skip_ws_cut(r);
        assert(d >= 1);
        let tail = r.skip(d);
        // Every byte of the removed run belongs to a white-space
        // character, but none is a newline: a newline there would pair
        // with s[0], and the plain byte the condition puts between
        // them would have to sit inside the run, where every byte is
        // ASCII whitespace or at least 0x80.
        assert forall|w: int| 0 <= w < d implies r.take(d)[w] != nl() by {
            assert(r.take(d)[w] == s[w + 1]);
            if s[w + 1] == nl() {
                let u = choose|u: int|
                    0 < u < w + 1 && !is_ascii_space(#[trigger] s[u]) && s[u] < 0x80;
                assert(is_ascii_space(r[u - 1]) || r[u - 1] >= 0x80);
            }
        }
        lemma_count_zero(r.take(d), nl());
        lemma_count_split(r, nl(), d);
        // The suffix after the run still satisfies both conditions.
        lemma_snr_skip(s, d + 1);
        assert(s.skip(d + 1) =~= tail);
        assert forall|i: int| 0 <= i < tail.len() implies tail[i] != 0xE2u8 by {
            assert(tail[i] == s[i + d + 1]);
        }
        lemma_flatten_line_count(tail);
        // Split the output counts around the inserted marker.
        let f = flatten_bytes(s);
        assert(f == marker() + flatten_bytes(tail));
        lemma_marker_counts();
        lemma_count_split(f, nl(), 3);
        lemma_count_split(f, 0xE2u8, 3);
        assert(f.take(3) =~= marker());
        assert(f.skip(3) =~= flatten_bytes(tail));
        assert(count_byte(s, nl()) == 1 + count_byte(r, nl()));
    } else {
        let r = s.skip(1);
        lemma_snr_skip(s, 1);
        assert forall|i: int| 0 <= i < r.len() implies r[i] != 0xE2u8 by {
            assert(r[i] == s[i + 1]);
        }
        lemma_flatten_line_count(r);
        let f = flatten_bytes(s);
        assert(f == seq![s[0]] + flatten_bytes(r));
        assert(f.skip(1) =~= flatten_bytes(r));
        assert(count_byte(f, nl()) == (if s[0] == nl() {
            1nat
        } else {
            0nat
        }) + count_byte(flatten_bytes(r), nl()));
        assert(count_byte(f, 0xE2u8) == count_byte(flatten_bytes(r), 0xE2u8));
    }
}

/// A non-empty input flattens to a non-empty output whose first byte
/// is the input's first byte, or the marker's first byte where the
/// input begins with a replaced break.
proof fn lemma_flatten_first(s: Seq<u8>)
    ensures
        (flatten_bytes(s).len() == 0) == (s.len() == 0),
        s.len() > 0 ==> flatten_bytes(s)[0] == s[0] || (s[0] == nl() && flatten_bytes(s)[0]
            == 0xE2u8),
{
    if s.len() > 0 {
        if s[0] == nl() && ws_char_len(s.skip(1)) > 0 {
            assert(flatten_bytes(s)[0] == marker()[0]);
        } else {
            assert(flatten_bytes(s)[0] == s[0]);
        }
    }
}

/// Flattening an input that does not begin with a white-space
/// character yields an output that does not either: replacement never
/// assembles a new white-space character at the head.
proof fn lemma_flatten_ws_head(r: Seq<u8>)
    requires
        ws_char_len(r) == 0,
    ensures
        ws_char_len(flatten_bytes(r)) == 0,
{
    if r.len() > 0 {
        assert(!is_ascii_space(r[0]));
        let f = flatten_bytes(r);
        let r1 = r.skip(1);
        let f1 = flatten_bytes(r1);
        assert(f == seq![r[0]] + f1);
        assert(f[0] == r[0]);
        lemma_flatten_first(r1);
        if ws_char_len(f) == 1 {
            assert(is_ascii_space(r[0]));
        } else if ws_char_len(f) == 2 {
            assert(f[0] == 0xC2 && (f[1] == 0x85 || f[1] == 0xA0));
            assert(f[1] == f1[0]);
            assert(f1[0] == r1[0]);
            assert(ws_char_len(r) == 2);
        } else if ws_char_len(f) == 3 {
            assert(f[1] == f1[0]);
            assert(f[1] == 0x9A || f[1] == 0x80 || f[1] == 0x81);
            assert(f1[0] == r1[0]);
            assert(r1[0] != nl());
            assert(f1 == seq![r1[0]] + flatten_bytes(r1.skip(1)));
            let r2 = r1.skip(1);
            let f2 = flatten_bytes(r2);
            assert(f[2] == f1[1]);
            assert(f1[1] == f2[0]);
            lemma_flatten_first(r2);
            assert(f[2] != 0xE2u8);
            assert(f2[0] == r2[0]);
            assert(r2 =~= r.skip(2));
            assert(r[1] == r1[0] && r[2] == r2[0]);
            assert(r.len() >= 3);
            assert(ws_char_len(r) == 3);
        }
    }
}

/// The output-shape law for flattening: the flattened block holds no
/// newline that is still followed by a white-space character -- every
/// such break was replaced by the join marker.  Whitespace not after
/// a newline is untouched, as `flatten_bytes` itself states.
pub proof fn lemma_flatten_no_break(s: Seq<u8>)
    ensures
        forall|p: int|
            0 <= p < flatten_bytes(s).len() && flatten_bytes(s)[p] == nl() ==> ws_char_len(
                #[trigger] flatten_bytes(s).skip(p + 1),
            ) == 0,
    decreases s.len(),
{
    let f = flatten_bytes(s);
    if s.len() == 0 {
    } else if s[0] == nl() && ws_char_len(s.skip(1)) > 0 {
        let tail = skip_ws(s.skip(1));
        lemma_skip_ws_len(s.skip(1));
        lemma_flatten_no_break(tail);
        let ft = flatten_bytes(tail);
        assert(f == marker() + ft);
        assert forall|p: int| 0 <= p < f.len() && f[p] == nl() implies ws_char_len(
            #[trigger] f.skip(p + 1),
        ) == 0 by {
            if p < 3 {
                assert(f[p] == marker()[p]);
                assert(marker()[0] == 0xE2u8 && marker()[1] == 0x86u8 && marker()[2] == 0xA9u8);
                assert(f[p] != nl());
            } else {
                assert(f[p] == ft[p - 3]);
                assert(ft[p - 3] == nl());
                assert(ws_char_len(ft.skip(p - 3 + 1)) == 0);
                assert(f.skip(p + 1) =~= ft.skip(p - 3 + 1));
                assert(ws_char_len(f.skip(p + 1)) == 0);
            }
        }
    } else {
        let r = s.skip(1);
        lemma_flatten_no_break(r);
        let f1 = flatten_bytes(r);
        assert(f == seq![s[0]] + f1);
        assert forall|p: int| 0 <= p < f.len() && f[p] == nl() implies ws_char_len(
            #[trigger] f.skip(p + 1),
        ) == 0 by {
            if p == 0 {
                assert(s[0] == nl());
                assert(ws_char_len(r) == 0);
                lemma_flatten_ws_head(r);
                assert(f.skip(1) =~= f1);
                assert(ws_char_len(f.skip(p + 1)) == 0);
            } else {
                assert(f[p] == f1[p - 1]);
                assert(f1[p - 1] == nl());
                assert(ws_char_len(f1.skip(p - 1 + 1)) == 0);
                assert(f.skip(p + 1) =~= f1.skip(p - 1 + 1));
                assert(ws_char_len(f.skip(p + 1)) == 0);
            }
        }
    }
}

/// Does `h` contain `n` as a contiguous byte substring?
pub fn contains_bytes(h: &[u8], n: &[u8]) -> (r: bool)
    ensures
        r == contains_seq(h@, n@),
{
    let hn = h.len();
    let nn = n.len();
    if nn > hn {
        assert(!contains_seq(h@, n@));
        return false;
    }
    if nn == 0 {
        assert(contains_seq(h@, n@)) by {
            assert(h@.subrange(0, 0 + n@.len() as int) =~= n@);
        }
        return true;
    }
    let mut i: usize = 0;
    while i <= hn - nn
        invariant
            hn == h@.len(),
            nn == n@.len(),
            1 <= nn <= hn,
            0 <= i <= hn - nn + 1,
            forall|x: int| 0 <= x < i ==> #[trigger] h@.subrange(x, x + n@.len()) != n@,
        decreases hn - nn + 1 - i,
    {
        let mut j: usize = 0;
        let mut hit = true;
        while j < nn
            invariant
                hn == h@.len(),
                nn == n@.len(),
                nn <= hn,
                0 <= i <= hn - nn,
                0 <= j <= nn,
                hit ==> forall|y: int| 0 <= y < j ==> h@[i + y] == n@[y],
                !hit ==> h@.subrange(i as int, i + n@.len()) != n@,
            decreases nn - j,
        {
            if h[i + j] != n[j] {
                assert(h@.subrange(i as int, i + n@.len())[j as int] != n@[j as int]);
                hit = false;
                j = nn;
            } else {
                j = j + 1;
            }
        }
        if hit {
            assert(h@.subrange(i as int, i + n@.len()) =~= n@);
            return true;
        }
        i = i + 1;
    }
    assert(!contains_seq(h@, n@));
    false
}

/// Is `s` well-formed UTF-8?
pub fn validate_utf8(s: &[u8]) -> (r: bool)
    ensures
        r == is_utf8(s@),
{
    let len = s.len();
    let mut i: usize = 0;
    proof {
        assert(s@.skip(0) =~= s@);
    }
    while i < len
        invariant
            len == s@.len(),
            0 <= i <= len,
            is_utf8(s@) == is_utf8(s@.skip(i as int)),
        decreases len - i,
    {
        let ghost pre = s@.skip(i as int);
        let b0 = s[i];
        let w: usize;
        if b0 < 0x80 {
            w = 1;
        } else if 0xC2 <= b0 && b0 <= 0xDF {
            if !(len - i >= 2 && is_cont_byte(s[i + 1])) {
                return false;
            }
            w = 2;
        } else if b0 == 0xE0 {
            if !(len - i >= 3 && 0xA0 <= s[i + 1] && s[i + 1] <= 0xBF && is_cont_byte(s[i + 2])) {
                return false;
            }
            w = 3;
        } else if (0xE1 <= b0 && b0 <= 0xEC) || b0 == 0xEE || b0 == 0xEF {
            if !(len - i >= 3 && is_cont_byte(s[i + 1]) && is_cont_byte(s[i + 2])) {
                return false;
            }
            w = 3;
        } else if b0 == 0xED {
            if !(len - i >= 3 && 0x80 <= s[i + 1] && s[i + 1] <= 0x9F && is_cont_byte(s[i + 2])) {
                return false;
            }
            w = 3;
        } else if b0 == 0xF0 {
            if !(len - i >= 4 && 0x90 <= s[i + 1] && s[i + 1] <= 0xBF && is_cont_byte(s[i + 2])
                && is_cont_byte(s[i + 3])) {
                return false;
            }
            w = 4;
        } else if 0xF1 <= b0 && b0 <= 0xF3 {
            if !(len - i >= 4 && is_cont_byte(s[i + 1]) && is_cont_byte(s[i + 2])
                && is_cont_byte(s[i + 3])) {
                return false;
            }
            w = 4;
        } else if b0 == 0xF4 {
            if !(len - i >= 4 && 0x80 <= s[i + 1] && s[i + 1] <= 0x8F && is_cont_byte(s[i + 2])
                && is_cont_byte(s[i + 3])) {
                return false;
            }
            w = 4;
        } else {
            return false;
        }
        proof {
            assert(pre.skip(w as int) =~= s@.skip(i + w));
        }
        i = i + w;
    }
    proof {
        assert(s@.skip(len as int) =~= Seq::<u8>::empty());
    }
    true
}

/// Runtime check that `b` is a UTF-8 continuation byte.
fn is_cont_byte(b: u8) -> (r: bool)
    ensures
        r == is_cont(b),
{
    0x80 <= b && b <= 0xBF
}

/// The byte width of the white-space character at position `j` of
/// `s`, or 0 when none starts there.
fn ws_width(s: &[u8], j: usize) -> (w: usize)
    requires
        j <= s@.len(),
    ensures
        w == ws_char_len(s@.skip(j as int)),
        j + w <= s@.len(),
{
    let ghost suf = s@.skip(j as int);
    let len = s.len();
    if j >= len {
        return 0;
    }
    let b0 = s[j];
    proof {
        assert(suf[0] == s@[j as int]);
    }
    if b0 == 0x20 || b0 == 0x09 || b0 == 0x0A || b0 == 0x0D || b0 == 0x0B || b0 == 0x0C {
        return 1;
    }
    if len - j >= 2 {
        let b1 = s[j + 1];
        proof {
            assert(suf[1] == s@[j + 1]);
        }
        if b0 == 0xC2 && (b1 == 0x85 || b1 == 0xA0) {
            return 2;
        }
        if len - j >= 3 {
            let b2 = s[j + 2];
            proof {
                assert(suf[2] == s@[j + 2]);
            }
            if b0 == 0xE1 && b1 == 0x9A && b2 == 0x80 {
                return 3;
            }
            if b0 == 0xE2 && b1 == 0x80 && (0x80 <= b2 && b2 <= 0x8A || b2 == 0xA8 || b2 == 0xA9
                || b2 == 0xAF) {
                return 3;
            }
            if b0 == 0xE2 && b1 == 0x81 && b2 == 0x9F {
                return 3;
            }
            if b0 == 0xE3 && b1 == 0x80 && b2 == 0x80 {
                return 3;
            }
        }
    }
    0
}

/// Flatten a multi-line block to one display line: every maximal run
/// of a newline followed by one or more white-space characters is
/// replaced by the visible join marker; all other bytes, including
/// whitespace runs that do not follow a newline, are kept unchanged.
pub fn format_multiline(s: &[u8]) -> (r: Vec<u8>)
    ensures
        r@ == flatten_bytes(s@),
{
    let len = s.len();
    let mut out: Vec<u8> = Vec::new();
    let mut i: usize = 0;
    proof {
        assert(s@.skip(0) =~= s@);
        assert(Seq::<u8>::empty() + flatten_bytes(s@) =~= flatten_bytes(s@));
    }
    while i < len
        invariant
            len == s@.len(),
            0 <= i <= len,
            flatten_bytes(s@) == out@ + flatten_bytes(s@.skip(i as int)),
        decreases len - i,
    {
        let ghost pre = s@.skip(i as int);
        if s[i] == 0x0A && ws_width(s, i + 1) > 0 {
            out.push(0xE2);
            out.push(0x86);
            out.push(0xA9);
            let mut j: usize = i + 1;
            let mut w: usize = ws_width(s, j);
            while w > 0
                invariant
                    len == s@.len(),
                    i + 1 <= j <= len,
                    j + w <= len,
                    w == ws_char_len(s@.skip(j as int)),
                    skip_ws(s@.skip(i + 1)) == skip_ws(s@.skip(j as int)),
                decreases len - j,
            {
                proof {
                    assert(s@.skip(j as int).skip(w as int) =~= s@.skip(j + w));
                }
                j = j + w;
                w = ws_width(s, j);
            }
            proof {
                assert(skip_ws(s@.skip(j as int)) == s@.skip(j as int));
                assert(pre.skip(1) =~= s@.skip(i + 1));
                assert(flatten_bytes(pre) == marker() + flatten_bytes(s@.skip(j as int)));
                assert(out@ + flatten_bytes(s@.skip(j as int)) =~= flatten_bytes(s@));
            }
            i = j;
        } else {
            let b = s[i];
            out.push(b);
            proof {
                assert(pre.skip(1) =~= s@.skip(i + 1));
                assert(flatten_bytes(pre) == seq![b] + flatten_bytes(s@.skip(i + 1)));
                assert(out@ + flatten_bytes(s@.skip(i + 1)) =~= flatten_bytes(s@));
            }
            i = i + 1;
        }
    }
    proof {
        assert(flatten_bytes(s@.skip(len as int)) =~= Seq::<u8>::empty());
        assert(out@ =~= flatten_bytes(s@));
    }
    out
}

} // verus!
