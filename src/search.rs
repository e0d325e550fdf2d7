//! Recovery of the plaintexts that the default-key cipher maps to a given ciphertext.
use vstd::prelude::*;

use crate::cipher::{
    all_digits, default_key, default_key_chars, digit_char, digit_values, encode_chars, framed,
    is_digit, mirror, mirrored, encoded, wrap, assigned, shown, zip_len, encode,
};
use crate::combinatorics::{is_arrangement, permutations_of, selections_of};
use crate::decimal::{
    canon, digits_ok, div_exact, is_canonical, lemma_canon_of_val, lemma_canon_props,
    strip_leading_zeros, val,
};
use crate::order::{insert_sorted, lex_lt, same_chars, strictly_sorted};
use crate::text::{chars_of, string_of};

verus! {

pub open spec fn is_hex(c: char) -> bool {
    is_digit(c) || ('a' <= c && c <= 'f')
}

pub open spec fn all_hex(s: Seq<char>) -> bool {
    forall|i: int| 0 <= i < s.len() ==> is_hex(#[trigger] s[i])
}

/// The hex digit of value `k` in 0..16, letters in lower case.
pub open spec fn hex_char(k: int) -> char {
    if k < 10 {
        (k + 48) as char
    } else {
        (k + 87) as char
    }
}

/// How many of the hex digits of value below `k` occur in `s`.
pub open spec fn distinct_hex(s: Seq<char>, k: int) -> nat
    decreases k,
{
    if k <= 0 {
        0
    } else {
        distinct_hex(s, k - 1) + if s.contains(hex_char(k - 1)) {
            1nat
        } else {
            0nat
        }
    }
}

/// The input checks of the search: at least four characters, all hex digits, at most ten
/// distinct ones.
pub open spec fn passes_gates(s: Seq<char>) -> bool {
    &&& s.len() >= 4
    &&& all_hex(s)
    &&& distinct_hex(s, 16) <= 10
}

/// Every element encodes, under the default key, to `s`.
pub open spec fn all_encode_to(found: Seq<Seq<char>>, s: Seq<char>) -> bool {
    forall|i: int| 0 <= i < found.len() ==> encoded(#[trigger] found[i], default_key()) == Some(s)
}

pub open spec fn views(v: Seq<Vec<char>>) -> Seq<Seq<char>> {
    v.map_values(|e: Vec<char>| e@)
}

/// The value of a hex digit, or `None` for any other character.
fn hex_index(c: char) -> (r: Option<u8>)
    ensures
        match r {
            Some(k) => k < 16 && is_hex(c) && hex_char(k as int) == c,
            None => !is_hex(c),
        },
{
    if '0' <= c && c <= '9' {
        Some((c as u32 - 48) as u8)
    } else if 'a' <= c && c <= 'f' {
        Some((c as u32 - 87) as u8)
    } else {
        None
    }
}

/// Which of the sixteen hex digits occur in `s`.
fn presence(s: &Vec<char>) -> (t: Vec<bool>)
    ensures
        t@.len() == 16,
        forall|k: int| 0 <= k < 16 ==> #[trigger] t@[k] == s@.contains(hex_char(k)),
{
    let mut t: Vec<bool> = vec![
        false, false, false, false, false, false, false, false,
        false, false, false, false, false, false, false, false,
    ];
    let mut i: usize = 0;
    while i < s.len()
        invariant
            i <= s@.len(),
            t@.len() == 16,
            forall|k: int| 0 <= k < 16 ==> #[trigger] t@[k] == s@.subrange(0, i as int).contains(
                hex_char(k),
            ),
        decreases s@.len() - i,
    {
        let ghost pre = s@.subrange(0, i as int);
        let ghost post = s@.subrange(0, i + 1);
        assert(post =~= pre.push(s@[i as int]));
        match hex_index(s[i]) {
            Some(k) => {
                t.set(k as usize, true);
            },
            None => {},
        }
        i = i + 1;
        assert forall|k: int| 0 <= k < 16 implies #[trigger] t@[k] == post.contains(hex_char(k)) by {
            if post.contains(hex_char(k)) && !pre.contains(hex_char(k)) {
                let j = choose|j: int| 0 <= j < post.len() && post[j] == hex_char(k);
                if j < pre.len() {
                    assert(pre[j] == hex_char(k));
                }
            }
            if pre.contains(hex_char(k)) {
                let j = choose|j: int| 0 <= j < pre.len() && pre[j] == hex_char(k);
                assert(post[j] == hex_char(k));
            }
            if t@[k] && !pre.contains(hex_char(k)) {
                assert(post[post.len() - 1] == hex_char(k));
            }
        }
    }
    assert(s@.subrange(0, s@.len() as int) =~= s@);
    t
}

/// `s` with every `x` replaced by `y`.
fn replace_char(s: &Vec<char>, x: char, y: char) -> (r: Vec<char>)
    ensures
        r@ == s@.map_values(|c: char| if c == x { y } else { c }),
{
    let mut r: Vec<char> = Vec::new();
    let mut i: usize = 0;
    while i < s.len()
        invariant
            i <= s@.len(),
            r@ =~= s@.subrange(0, i as int).map_values(|c: char| if c == x { y } else { c }),
        decreases s@.len() - i,
    {
        let c = s[i];
        if c == x {
            r.push(y);
        } else {
            r.push(c);
        }
        i = i + 1;
    }
    assert(s@.subrange(0, s@.len() as int) =~= s@);
    r
}

/// `p` encodes, under the default key, to `s`.
pub open spec fn encodes_to(p: Seq<char>, s: Seq<char>) -> bool {
    encoded(p, default_key()) == Some(s)
}

/// The digits of `"2" + p + "91"` times 5.
pub open spec fn scaled_of(p: Seq<char>) -> Seq<u8> {
    canon(5 * val(wrap(digit_values(p))))
}

proof fn lemma_plain(p: Seq<char>)
    requires
        p.len() > 0,
        all_digits(p),
    ensures
        digits_ok(digit_values(p)),
        is_canonical(wrap(digit_values(p))),
        canon(val(wrap(digit_values(p)))) == wrap(digit_values(p)),
        val(scaled_of(p)) == 5 * val(wrap(digit_values(p))),
        is_canonical(scaled_of(p)),
        forall|j: int| 0 <= j < p.len() ==> (#[trigger] digit_values(p)[j] + 48) as char == p[j],
{
    let pv = digit_values(p);
    assert forall|j: int| 0 <= j < pv.len() implies #[trigger] pv[j] < 10 by {
        assert(is_digit(p[j]));
    }
    let w = wrap(pv);
    assert forall|j: int| 0 <= j < w.len() implies #[trigger] w[j] < 10 by {
        if 1 <= j < w.len() - 2 {
            assert(w[j] == pv[j - 1]);
        }
    }
    lemma_canon_of_val(w);
    lemma_canon_props(5 * val(w));
    assert forall|j: int| 0 <= j < p.len() implies (#[trigger] digit_values(p)[j] + 48) as char
        == p[j] by {
        assert(is_digit(p[j]));
    }
}

/// Record every plaintext that the digits `t` (the scaled, wrapped plaintext with its 2s
/// possibly shown as 3s) yield and that encodes back to `s`.
fn try_scaled(t: &Vec<u8>, s: &Vec<char>, found: &mut Vec<Vec<char>>)
    requires
        t@.len() > 0,
        digits_ok(t@),
        strictly_sorted(views(old(found)@)),
        all_encode_to(views(old(found)@), s@),
    ensures
        strictly_sorted(views(final(found)@)),
        all_encode_to(views(final(found)@), s@),
        views(old(found)@).to_set().subset_of(views(final(found)@).to_set()),
        forall|p: Seq<char>|
            #[trigger] encodes_to(p, s@) && scaled_of(p) == t@ ==> views(final(found)@).contains(p),
{
    let e = strip_leading_zeros(t);
    let f = match div_exact(&e, 5) {
        Some(f) => f,
        None => {
            proof {
                assert forall|p: Seq<char>| #[trigger] encodes_to(p, s@) && scaled_of(p) == t@ implies false by {
                    lemma_plain(p);
                }
            }
            return;
        },
    };
    proof {
        assert forall|p: Seq<char>| #[trigger] encodes_to(p, s@) && scaled_of(p) == t@ implies f@
            == wrap(digit_values(p)) by {
            lemma_plain(p);
        }
    }
    let n = f.len();
    if n < 3 || f[0] != 2 || f[n - 2] != 9 || f[n - 1] != 1 {
        proof {
            assert forall|p: Seq<char>| #[trigger] encodes_to(p, s@) && scaled_of(p) == t@ implies false by {
                lemma_plain(p);
            }
        }
        return;
    }
    let mut cand: Vec<char> = Vec::new();
    let mut i: usize = 1;
    while i < n - 2
        invariant
            1 <= i <= n - 2,
            n == f@.len(),
            is_canonical(f@),
            cand@ =~= Seq::new((i - 1) as nat, |j: int| (f@[j + 1] + 48) as char),
        decreases n - 2 - i,
    {
        let d = f[i];
        assert(d < 10);
        cand.push((d + 48) as char);
        i = i + 1;
    }
    proof {
        assert forall|p: Seq<char>| #[trigger] encodes_to(p, s@) && scaled_of(p) == t@ implies cand@
            == p by {
            lemma_plain(p);
            let pv = digit_values(p);
            assert forall|j: int| 0 <= j < p.len() implies cand@[j] == p[j] by {
                assert(f@[j + 1] == pv[j]);
            }
            assert(cand@ =~= p);
        }
    }
    let key = default_key_chars();
    match encode_chars(&cand, &key) {
        Some(out) => {
            if same_chars(&out, s) {
                let ghost before = views(found@);
                insert_sorted(found, cand);
                proof {
                    let after = views(found@);
                    assert forall|i: int| 0 <= i < after.len() implies encoded(
                        #[trigger] after[i],
                        default_key(),
                    ) == Some(s@) by {
                        assert(after.to_set().contains(after[i]));
                        if after[i] != cand@ {
                            assert(before.to_set().contains(after[i]));
                            let j = choose|j: int| 0 <= j < before.len() && before[j] == after[i];
                            assert(encoded(before[j], default_key()) == Some(s@));
                        }
                    }
                    assert(after.to_set().contains(cand@));
                }
            } else {
                proof {
                    assert forall|p: Seq<char>| #[trigger] encodes_to(p, s@) && scaled_of(p) == t@ implies false by {
                        assert(cand@ == p);
                    }
                }
            }
        },
        None => {
            proof {
                assert forall|p: Seq<char>| #[trigger] encodes_to(p, s@) && scaled_of(p) == t@ implies false by {
                    assert(cand@ == p);
                }
            }
        },
    }
}

/// The characters of digit values.
pub open spec fn digit_chars(d: Seq<u8>) -> Seq<char> {
    d.map_values(|x: u8| digit_char(x))
}

/// The options for one digit of the scaled numeral, given the digit it shows after mirroring:
/// a 3 may have been a 2 or a 3, a 2 cannot occur.
pub open spec fn options_for(e: u8) -> Seq<u8> {
    if e == 3 {
        seq![2u8, 3u8]
    } else if e == 2 {
        Seq::empty()
    } else {
        seq![e]
    }
}

proof fn lemma_framed(p: Seq<char>)
    requires
        p.len() > 0,
        all_digits(p),
    ensures
        ({
            let pv = digit_values(p);
            let m = mirrored(pv);
            let d = canon(9 * val(m));
            let f = framed(pv);
            let b = scaled_of(p);
            &&& is_canonical(m)
            &&& m.len() == b.len() + 1
            &&& m[0] == 6
            &&& forall|j: int| 0 <= j < b.len() ==> #[trigger] b[j] < 10 && m[m.len() - 1 - j] == (
                if b[j] == 2 {
                    3u8
                } else {
                    b[j]
                })
            &&& is_canonical(d)
            &&& val(d) == 9 * val(m)
            &&& f.len() == d.len() + 4
            &&& f[0] == 1 && f[1] == 7 && f[f.len() - 2] == 2 && f[f.len() - 1] == 4
            &&& forall|j: int| 0 <= j < d.len() ==> #[trigger] f[j + 2] == d[j]
        }),
{
    lemma_plain(p);
    let pv = digit_values(p);
    let b = scaled_of(p);
    let bp = b.push(6u8);
    let m = mirrored(pv);
    assert(m =~= mirror(bp));
    assert forall|j: int| 0 <= j < m.len() implies #[trigger] m[j] < 10 by {
        assert(bp[bp.len() - 1 - j] < 10);
    }
    lemma_canon_props(9 * val(m));
}

proof fn lemma_digit_char(x: u8)
    requires
        x < 10,
    ensures
        is_digit(digit_char(x)),
        (digit_char(x) as u32 - 48) as u8 == x,
        x == 1 ==> digit_char(x) == '1',
        x == 7 ==> digit_char(x) == '7',
        x == 2 ==> digit_char(x) == '2',
        x == 4 ==> digit_char(x) == '4',
{
}

/// `w` is the ciphertext of `p` with every letter resolved to its digit.
pub open spec fn resolved_for(w: Seq<char>, p: Seq<char>) -> bool {
    w == digit_chars(framed(digit_values(p)))
}

/// Undo the scaling by 9 and the mirror for one full digit assignment `w` of the ciphertext,
/// trying every way in which its 3s may have been 2s.
fn try_assignment(w: &Vec<char>, s: &Vec<char>, found: &mut Vec<Vec<char>>)
    requires
        strictly_sorted(views(old(found)@)),
        all_encode_to(views(old(found)@), s@),
    ensures
        strictly_sorted(views(final(found)@)),
        all_encode_to(views(final(found)@), s@),
        views(old(found)@).to_set().subset_of(views(final(found)@).to_set()),
        forall|p: Seq<char>|
            #[trigger] encodes_to(p, s@) && resolved_for(w@, p) ==> views(final(found)@).contains(p),
{
    let n = w.len();
    if n < 5 || w[0] != '1' || w[1] != '7' || w[n - 2] != '2' || w[n - 1] != '4' {
        proof {
            assert forall|p: Seq<char>| #[trigger] encodes_to(p, s@) && resolved_for(w@, p) implies false by {
                lemma_framed(p);
                let f = framed(digit_values(p));
                lemma_digit_char(f[0]);
                lemma_digit_char(f[1]);
                lemma_digit_char(f[f.len() - 2]);
                lemma_digit_char(f[f.len() - 1]);
            }
        }
        return;
    }
    let mut mid: Vec<u8> = Vec::new();
    let mut i: usize = 2;
    while i < n - 2
        invariant
            2 <= i <= n - 2,
            n == w@.len(),
            mid@.len() == i - 2,
            digits_ok(mid@),
            mid@ =~= Seq::new((i - 2) as nat, |j: int| (w@[j + 2] as u32 - 48) as u8),
            strictly_sorted(views(found@)),
            all_encode_to(views(found@), s@),
            found@ == old(found)@,
        decreases n - 2 - i,
    {
        let c = w[i];
        if !('0' <= c && c <= '9') {
            proof {
                assert forall|p: Seq<char>| #[trigger] encodes_to(p, s@) && resolved_for(w@, p) implies false by {
                    lemma_framed(p);
                    let f = framed(digit_values(p));
                    let d = canon(9 * val(mirrored(digit_values(p))));
                    assert(f[i as int] == d[i - 2]);
                    lemma_digit_char(f[i as int]);
                }
            }
            return;
        }
        mid.push((c as u32 - 48) as u8);
        i = i + 1;
    }
    proof {
        assert forall|p: Seq<char>| #[trigger] encodes_to(p, s@) && resolved_for(w@, p) implies mid@
            == canon(9 * val(mirrored(digit_values(p)))) by {
            lemma_framed(p);
            let f = framed(digit_values(p));
            let d = canon(9 * val(mirrored(digit_values(p))));
            assert forall|j: int| 0 <= j < d.len() implies mid@[j] == d[j] by {
                assert(f[j + 2] == d[j]);
                lemma_digit_char(d[j]);
            }
            assert(mid@ =~= d);
        }
    }
    let dnum = strip_leading_zeros(&mid);
    let c = match div_exact(&dnum, 9) {
        Some(c) => c,
        None => {
            proof {
                assert forall|p: Seq<char>| #[trigger] encodes_to(p, s@) && resolved_for(w@, p) implies false by {
                    lemma_framed(p);
                }
            }
            return;
        },
    };
    proof {
        assert forall|p: Seq<char>| #[trigger] encodes_to(p, s@) && resolved_for(w@, p) implies c@
            == mirrored(digit_values(p)) by {
            lemma_framed(p);
            lemma_canon_of_val(mirrored(digit_values(p)));
        }
    }
    let m = c.len();
    if m < 2 || c[0] != 6 {
        proof {
            assert forall|p: Seq<char>| #[trigger] encodes_to(p, s@) && resolved_for(w@, p) implies false by {
                lemma_framed(p);
                lemma_canon_props(5 * val(wrap(digit_values(p))));
            }
        }
        return;
    }
    // the digits of C reversed, without the 6 that ends them
    let mut options: Vec<Vec<u8>> = Vec::new();
    let mut j: usize = 0;
    while j < m - 1
        invariant
            j <= m - 1,
            m == c@.len(),
            is_canonical(c@),
            options@.len() == j,
            forall|a: int| 0 <= a < j ==> #[trigger] options@[a]@ == options_for(c@[m - 1 - a]),
            forall|a: int, b: int|
                0 <= a < options@.len() && 0 <= b < options@[a]@.len() ==> #[trigger] options@[a]@[b]
                    < 10,
        decreases m - 1 - j,
    {
        let d = c[m - 1 - j];
        if d == 3 {
            let o = vec![2, 3];
            assert(o@ =~= options_for(d));
            options.push(o);
        } else if d == 2 {
            let o: Vec<u8> = Vec::new();
            assert(o@ =~= options_for(d));
            options.push(o);
        } else {
            let o = vec![d];
            assert(o@ =~= options_for(d));
            options.push(o);
        }
        j = j + 1;
    }
    let sels = selections_of(&options);
    proof {
        assert forall|p: Seq<char>| #[trigger] encodes_to(p, s@) && resolved_for(w@, p) implies exists|a: int|
            0 <= a < sels@.len() && sels@[a]@ == scaled_of(p) by {
            lemma_framed(p);
            let b = scaled_of(p);
            assert forall|q: int| 0 <= q < b.len() implies options@[q]@.contains(#[trigger] b[q]) by {
                assert(options@[q]@ == options_for(c@[m - 1 - q]));
                if b[q] == 2 {
                    assert(options@[q]@[0] == 2);
                } else if b[q] == 3 {
                    assert(options@[q]@[1] == 3);
                } else {
                    assert(options@[q]@[0] == b[q]);
                }
            }
            assert(crate::combinatorics::is_selection(b, options@));
        }
    }
    let ghost start = views(found@);
    let mut k: usize = 0;
    while k < sels.len()
        invariant
            k <= sels@.len(),
            options@.len() > 0,
            forall|a: int, b: int|
                0 <= a < options@.len() && 0 <= b < options@[a]@.len() ==> #[trigger] options@[a]@[b]
                    < 10,
            forall|a: int|
                0 <= a < sels@.len() ==> crate::combinatorics::is_selection(
                    #[trigger] sels@[a]@,
                    options@,
                ),
            strictly_sorted(views(found@)),
            all_encode_to(views(found@), s@),
            start == views(old(found)@),
            start.to_set().subset_of(views(found@).to_set()),
            forall|p: Seq<char>|
                #[trigger] encodes_to(p, s@) && (exists|a: int| 0 <= a < k && sels@[a]@ == scaled_of(p))
                    ==> views(found@).contains(p),
        decreases sels@.len() - k,
    {
        let t = &sels[k];
        assert(digits_ok(t@)) by {
            assert(crate::combinatorics::is_selection(t@, options@));
            assert forall|b: int| 0 <= b < t@.len() implies #[trigger] t@[b] < 10 by {
                let o = options@[b]@;
                assert(o.contains(t@[b]));
                let x = choose|x: int| 0 <= x < o.len() && o[x] == t@[b];
                assert(options@[b]@[x] < 10);
            }
        }
        let ghost before = views(found@);
        try_scaled(t, s, found);
        proof {
            assert forall|p: Seq<char>| #[trigger] encodes_to(p, s@) && (exists|a: int| 0 <= a < k + 1 && sels@[a]@ == scaled_of(p))
                implies views(found@).contains(p) by {
                let a = choose|a: int| 0 <= a < k + 1 && sels@[a]@ == scaled_of(p);
                if a < k {
                    assert(before.contains(p));
                    assert(before.to_set().contains(p));
                    assert(views(found@).to_set().contains(p));
                }
            }
        }
        k = k + 1;
    }
}

/// All plaintexts that the cipher, with the default key, maps to `src`: distinct, in
/// lexicographic order. The ciphertext's letters stand for digits that do not occur in it
/// literally; its frame `"17"`…`"24"` fixes four of them, and every other assignment of
/// letters to missing digits is tried, each candidate being encoded again to check it.
pub fn reverse_numbers_(src: &str) -> (r: Vec<String>)
    ensures
        forall|i: int| 0 <= i < r@.len() ==> encoded(#[trigger] r@[i]@, default_key()) == Some(src@),
        forall|i: int, j: int| 0 <= i < j < r@.len() ==> lex_lt(#[trigger] r@[i]@, #[trigger] r@[j]@),
        !passes_gates(src@) ==> r@.len() == 0,
        forall|p: Seq<char>|
            #[trigger] encoded(p, default_key()) == Some(src@) ==> exists|i: int|
                0 <= i < r@.len() && r@[i]@ == p,
        r@.map_values(|x: String| x@).to_set() == preimages(src@),
{
    let s = chars_of(src);
    let found = search_chars(&s);
    let mut r: Vec<String> = Vec::new();
    let mut i: usize = 0;
    while i < found.len()
        invariant
            i <= found@.len(),
            r@.len() == i,
            forall|a: int| 0 <= a < i ==> #[trigger] r@[a]@ == found@[a]@,
        decreases found@.len() - i,
    {
        r.push(string_of(&found[i]));
        i = i + 1;
    }
    proof {
        let fv = views(found@);
        assert forall|a: int| 0 <= a < r@.len() implies encoded(#[trigger] r@[a]@, default_key())
            == Some(src@) by {
            assert(fv[a] == r@[a]@);
        }
        assert forall|a: int, b: int| 0 <= a < b < r@.len() implies lex_lt(
            #[trigger] r@[a]@,
            #[trigger] r@[b]@,
        ) by {
            assert(fv[a] == r@[a]@);
            assert(fv[b] == r@[b]@);
        }
        assert forall|p: Seq<char>| #[trigger] encoded(p, default_key()) == Some(src@) implies exists|i: int|
            0 <= i < r@.len() && r@[i]@ == p by {
            assert(encodes_to(p, s@));
            assert(fv.contains(p));
            let a = choose|a: int| 0 <= a < fv.len() && fv[a] == p;
            assert(r@[a]@ == p);
        }
        let rv = r@.map_values(|x: String| x@);
        assert forall|p: Seq<char>| rv.to_set().contains(p) <==> preimages(src@).contains(p) by {
            if rv.to_set().contains(p) {
                let a = choose|a: int| 0 <= a < rv.len() && rv[a] == p;
                assert(encoded(r@[a]@, default_key()) == Some(src@));
            }
            if preimages(src@).contains(p) {
                assert(encoded(p, default_key()) == Some(src@));
                let a = choose|a: int| 0 <= a < r@.len() && r@[a]@ == p;
                assert(rv[a] == p);
            }
        }
        assert(rv.to_set() =~= preimages(src@));
    }
    r
}

/// The plaintexts whose default-key ciphertext is `s`.
pub open spec fn preimages(s: Seq<char>) -> Set<Seq<char>> {
    Set::new(|p: Seq<char>| encoded(p, default_key()) == Some(s))
}

/// Every non-empty digit string is among the preimages of its own default-key ciphertext, so
/// `reverse_numbers_` on that ciphertext returns it.
pub proof fn lemma_search_recovers(p: Seq<char>)
    requires
        p.len() > 0,
        all_digits(p),
    ensures
        encoded(p, default_key()) is Some,
        preimages(encoded(p, default_key())->0).contains(p),
{
}

/// What the default-key ciphertext of `p` shows for digit `d`.
pub open spec fn sigma(p: Seq<char>, d: u8) -> char {
    shown(digit_values(p), default_key(), d)
}

pub open spec fn is_letter(c: char) -> bool {
    'a' <= c && c <= 'f'
}

proof fn lemma_assigned_from(pv: Seq<u8>, key: Seq<char>, d: u8, n: int)
    requires
        0 <= n <= pv.len(),
        n <= key.len(),
    ensures
        assigned(pv, key, d, n) matches Some(c) ==> exists|j: int|
            0 <= j < n && pv[j] == d && key[j] == c,
    decreases n,
{
    if n > 0 && pv[n - 1] != d {
        lemma_assigned_from(pv, key, d, n - 1);
    }
}

/// A digit shows as itself or as a letter; distinct digits show differently.
proof fn lemma_sigma(p: Seq<char>, d1: u8, d2: u8)
    requires
        p.len() > 0,
        all_digits(p),
        d1 < 10,
        d2 < 10,
    ensures
        sigma(p, d1) == digit_char(d1) || is_letter(sigma(p, d1)),
        is_hex(sigma(p, d1)),
        is_digit(sigma(p, d1)) ==> sigma(p, d1) == digit_char(d1),
        sigma(p, d1) == sigma(p, d2) ==> d1 == d2,
{
    let pv = digit_values(p);
    let dk = default_key();
    let n = zip_len(pv, dk);
    lemma_assigned_from(pv, dk, d1, n);
    lemma_assigned_from(pv, dk, d2, n);
    if sigma(p, d1) == sigma(p, d2) {
        match (assigned(pv, dk, d1, n), assigned(pv, dk, d2, n)) {
            (Some(c1), Some(c2)) => {
                let j1 = choose|j: int| 0 <= j < n && pv[j] == d1 && dk[j] == c1;
                let j2 = choose|j: int| 0 <= j < n && pv[j] == d2 && dk[j] == c2;
                assert(j1 == j2);
            },
            _ => {},
        }
    }
}

/// Facts on the default-key ciphertext `s` of `p`.
proof fn lemma_ciphertext(p: Seq<char>, s: Seq<char>)
    requires
        encodes_to(p, s),
    ensures
        p.len() > 0,
        all_digits(p),
        s.len() == framed(digit_values(p)).len(),
        s.len() >= 5,
        forall|i: int| 0 <= i < s.len() ==> #[trigger] framed(digit_values(p))[i] < 10,
        forall|i: int| 0 <= i < s.len() ==> #[trigger] s[i] == sigma(p, framed(digit_values(p))[i]),
        all_hex(s),
{
    lemma_framed(p);
    let f = framed(digit_values(p));
    let d = canon(9 * val(mirrored(digit_values(p))));
    assert forall|i: int| 0 <= i < s.len() implies #[trigger] f[i] < 10 by {
        if 2 <= i < f.len() - 2 {
            assert(f[(i - 2) + 2] == d[i - 2]);
        }
    }
    assert forall|i: int| 0 <= i < s.len() implies is_hex(#[trigger] s[i]) by {
        lemma_sigma(p, f[i], f[i]);
    }
}

/// The hex value of a hex digit.
pub open spec fn hex_value(c: char) -> int {
    if is_digit(c) {
        c as int - 48
    } else {
        c as int - 87
    }
}

proof fn lemma_distinct_set(s: Seq<char>, k: int)
    requires
        0 <= k,
    ensures
        Set::new(|x: int| 0 <= x < k && s.contains(hex_char(x))).finite(),
        distinct_hex(s, k) == Set::new(|x: int| 0 <= x < k && s.contains(hex_char(x))).len(),
    decreases k,
{
    let sk = Set::new(|x: int| 0 <= x < k && s.contains(hex_char(x)));
    if k == 0 {
        assert(sk =~= Set::<int>::empty());
    } else {
        lemma_distinct_set(s, k - 1);
        let sp = Set::new(|x: int| 0 <= x < k - 1 && s.contains(hex_char(x)));
        if s.contains(hex_char(k - 1)) {
            assert(sk =~= sp.insert(k - 1));
            assert(!sp.contains(k - 1));
        } else {
            assert(sk =~= sp);
        }
    }
}

/// A default-key ciphertext shows at most ten distinct hex digits.
proof fn lemma_distinct_bound(p: Seq<char>, s: Seq<char>)
    requires
        encodes_to(p, s),
    ensures
        distinct_hex(s, 16) <= 10,
{
    lemma_ciphertext(p, s);
    lemma_distinct_set(s, 16);
    let sx = Set::new(|x: int| 0 <= x < 16 && s.contains(hex_char(x)));
    let t = vstd::set_lib::set_int_range(0, 10);
    vstd::set_lib::lemma_int_range(0, 10);
    let g = |d: int| hex_value(sigma(p, d as u8));
    let y = t.map(g);
    vstd::set_lib::lemma_map_size_bound(t, y, g);
    assert forall|x: int| sx.contains(x) implies y.contains(x) by {
        let i = choose|i: int| 0 <= i < s.len() && s[i] == hex_char(x);
        let f = framed(digit_values(p));
        let d = f[i];
        lemma_sigma(p, d, d);
        assert(t.contains(d as int));
        assert(g(d as int) == x);
    }
    vstd::set_lib::lemma_len_subset(sx, y);
}

/// After the frame markers: `w` shows a resolved letter's digit and every other character
/// as the ciphertext shows it.
pub open spec fn marked(w: Seq<char>, s: Seq<char>, r: Set<char>, p: Seq<char>) -> bool {
    &&& w.len() == s.len()
    &&& forall|i: int|
        0 <= i < s.len() ==> #[trigger] w[i] == if r.contains(s[i]) {
            digit_char(framed(digit_values(p))[i])
        } else {
            s[i]
        }
}

/// Replace `letters[j]` by the digit `perm[j]`, in order, for `j` below `n`.
pub open spec fn replaced(c: char, letters: Seq<char>, perm: Seq<u8>, n: int) -> char
    decreases n,
{
    if n <= 0 {
        c
    } else {
        let r = replaced(c, letters, perm, n - 1);
        if r == letters[n - 1] {
            digit_char(perm[n - 1])
        } else {
            r
        }
    }
}

/// The digit that `p`'s ciphertext shows as `c`.
pub open spec fn digit_shown_as(p: Seq<char>, c: char) -> u8 {
    choose|d: u8| d < 10 && sigma(p, d) == c
}

pub open spec fn wanted(p: Seq<char>, letters: Seq<char>) -> Seq<u8> {
    Seq::new(letters.len(), |j: int| digit_shown_as(p, letters[j]))
}

proof fn lemma_replaced_digit(c: char, letters: Seq<char>, perm: Seq<u8>, n: int)
    requires
        !is_letter(c),
        n <= letters.len(),
        forall|j: int| 0 <= j < letters.len() ==> is_letter(#[trigger] letters[j]),
    ensures
        replaced(c, letters, perm, n) == c,
    decreases n,
{
    if n > 0 {
        lemma_replaced_digit(c, letters, perm, n - 1);
    }
}

proof fn lemma_replaced_letter(letters: Seq<char>, perm: Seq<u8>, j0: int, n: int)
    requires
        0 <= j0 < letters.len(),
        n <= letters.len(),
        n <= perm.len(),
        letters.no_duplicates(),
        forall|j: int| 0 <= j < letters.len() ==> is_letter(#[trigger] letters[j]),
        forall|j: int| 0 <= j < perm.len() ==> #[trigger] perm[j] < 10,
    ensures
        replaced(letters[j0], letters, perm, n) == if n <= j0 {
            letters[j0]
        } else {
            digit_char(perm[j0])
        },
    decreases n,
{
    if n > 0 {
        lemma_replaced_letter(letters, perm, j0, n - 1);
        if n - 1 > j0 {
            lemma_digit_char(perm[j0]);
        }
    }
}

pub open spec fn resolution_ok(s: Seq<char>, w: Seq<char>, resolved: Set<char>) -> bool {
    &&& forall|c: char| #[trigger] resolved.contains(c) ==> is_letter(c)
    &&& forall|p: Seq<char>| #[trigger] encodes_to(p, s) ==> marked(w, s, resolved, p)
}

pub open spec fn missing_ok(w: Seq<char>, missing: Seq<u8>) -> bool {
    &&& forall|a: int| 0 <= a < missing.len() ==> #[trigger] missing[a] < 10
    &&& forall|e: u8| e < 10 ==> (#[trigger] missing.contains(e) <==> !w.contains(digit_char(e)))
}

pub open spec fn letters_ok(w: Seq<char>, letters: Seq<char>) -> bool {
    &&& letters.no_duplicates()
    &&& forall|a: int| 0 <= a < letters.len() ==> is_letter(#[trigger] letters[a]) && w.contains(letters[a])
    &&& forall|c: char| is_letter(c) && #[trigger] w.contains(c) ==> letters.contains(c)
}

/// A letter left in `w` stands for a digit that `w` does not show.
proof fn lemma_letter_shown(p: Seq<char>, s: Seq<char>, w: Seq<char>, resolved: Set<char>, c: char)
    requires
        encodes_to(p, s),
        resolution_ok(s, w, resolved),
        is_letter(c),
        w.contains(c),
    ensures
        digit_shown_as(p, c) < 10,
        sigma(p, digit_shown_as(p, c)) == c,
        !w.contains(digit_char(digit_shown_as(p, c))),
{
    lemma_ciphertext(p, s);
    assert(marked(w, s, resolved, p));
    let f = framed(digit_values(p));
    let i = choose|i: int| 0 <= i < w.len() && w[i] == c;
    lemma_digit_char(f[i]);
    assert(!resolved.contains(s[i]));
    assert(sigma(p, f[i]) == c);
    let d0 = digit_shown_as(p, c);
    assert(d0 < 10 && sigma(p, d0) == c);
    if w.contains(digit_char(d0)) {
        let i2 = choose|i2: int| 0 <= i2 < w.len() && w[i2] == digit_char(d0);
        lemma_digit_char(f[i2]);
        lemma_digit_char(d0);
        lemma_sigma(p, f[i2], d0);
        if resolved.contains(s[i2]) {
            assert(f[i2] == d0);
        } else {
            assert(s[i2] == sigma(p, f[i2]));
        }
    }
}

proof fn lemma_wanted_arrangement(p: Seq<char>, s: Seq<char>, w: Seq<char>, resolved: Set<char>, letters: Seq<char>, missing: Seq<u8>)
    requires
        encodes_to(p, s),
        resolution_ok(s, w, resolved),
        letters_ok(w, letters),
        missing_ok(w, missing),
    ensures
        is_arrangement(wanted(p, letters), missing, letters.len() as int),
{
    let q = wanted(p, letters);
    assert forall|j: int| 0 <= j < q.len() implies missing.contains(#[trigger] q[j]) by {
        lemma_letter_shown(p, s, w, resolved, letters[j]);
    }
    assert forall|a: int, b: int| 0 <= a < q.len() && 0 <= b < q.len() && a != b implies q[a] != q[b] by {
        lemma_letter_shown(p, s, w, resolved, letters[a]);
        lemma_letter_shown(p, s, w, resolved, letters[b]);
    }
}

proof fn lemma_resolves(p: Seq<char>, s: Seq<char>, w: Seq<char>, resolved: Set<char>, letters: Seq<char>, perm: Seq<u8>, w2: Seq<char>)
    requires
        encodes_to(p, s),
        resolution_ok(s, w, resolved),
        letters_ok(w, letters),
        perm == wanted(p, letters),
        w2.len() == w.len(),
        forall|i: int| 0 <= i < w.len() ==> #[trigger] w2[i] == replaced(w[i], letters, perm, letters.len() as int),
    ensures
        resolved_for(w2, p),
{
    lemma_ciphertext(p, s);
    assert(marked(w, s, resolved, p));
    let f = framed(digit_values(p));
    assert forall|j: int| 0 <= j < perm.len() implies #[trigger] perm[j] < 10 by {
        lemma_letter_shown(p, s, w, resolved, letters[j]);
    }
    assert forall|i: int| 0 <= i < w2.len() implies w2[i] == digit_char(f[i]) by {
        lemma_digit_char(f[i]);
        lemma_sigma(p, f[i], f[i]);
        if is_letter(w[i]) {
            assert(w.contains(w[i]));
            assert(letters.contains(w[i]));
            let j0 = choose|j0: int| 0 <= j0 < letters.len() && letters[j0] == w[i];
            lemma_replaced_letter(letters, perm, j0, letters.len() as int);
            lemma_letter_shown(p, s, w, resolved, w[i]);
            lemma_sigma(p, perm[j0], f[i]);
        } else {
            lemma_replaced_digit(w[i], letters, perm, letters.len() as int);
        }
    }
    assert(w2 =~= digit_chars(f));
}

/// The search on a character vector.
pub fn search_chars(s: &Vec<char>) -> (found: Vec<Vec<char>>)
    ensures
        all_encode_to(views(found@), s@),
        strictly_sorted(views(found@)),
        !passes_gates(s@) ==> found@.len() == 0,
        forall|p: Seq<char>| #[trigger] encodes_to(p, s@) ==> views(found@).contains(p),
{
    let mut found: Vec<Vec<char>> = Vec::new();
    assert(views(found@) =~= Seq::<Seq<char>>::empty());
    let n = s.len();
    if n < 4 {
        proof {
            assert forall|p: Seq<char>| #[trigger] encodes_to(p, s@) implies false by {
                lemma_ciphertext(p, s@);
            }
        }
        return found;
    }
    let mut i: usize = 0;
    while i < n
        invariant
            i <= n == s@.len(),
            forall|j: int| 0 <= j < i ==> is_hex(#[trigger] s@[j]),
            found@.len() == 0,
        decreases n - i,
    {
        match hex_index(s[i]) {
            Some(_) => {},
            None => {
                proof {
                    assert forall|p: Seq<char>| #[trigger] encodes_to(p, s@) implies false by {
                        lemma_ciphertext(p, s@);
                    }
                }
                return found;
            },
        }
        i = i + 1;
    }
    let seen = presence(s);
    let mut distinct: usize = 0;
    let mut k: usize = 0;
    while k < 16
        invariant
            k <= 16,
            distinct <= k,
            seen@.len() == 16,
            forall|q: int| 0 <= q < 16 ==> #[trigger] seen@[q] == s@.contains(hex_char(q)),
            distinct == distinct_hex(s@, k as int),
        decreases 16 - k,
    {
        if seen[k] {
            distinct = distinct + 1;
        }
        k = k + 1;
    }
    if distinct > 10 {
        proof {
            assert forall|p: Seq<char>| #[trigger] encodes_to(p, s@) implies false by {
                lemma_distinct_bound(p, s@);
            }
        }
        return found;
    }
    // the frame "17" ... "24" fixes what its four characters stand for
    let mut table: Vec<Option<u8>> = vec![
        Some(0), Some(1), Some(2), Some(3), Some(4), Some(5), Some(6), Some(7), Some(8), Some(9),
        None, None, None, None, None, None,
    ];
    let markers: Vec<char> = vec![s[0], s[1], s[n - 2], s[n - 1]];
    let expected: Vec<u8> = vec![1, 7, 2, 4];
    let positions: Vec<usize> = vec![0, 1, n - 2, n - 1];
    let mut w: Vec<char> = s.clone();
    let ghost mut resolved: Set<char> = Set::empty();
    proof {
        assert forall|p: Seq<char>| #[trigger] encodes_to(p, s@) implies marked(w@, s@, resolved, p) by {
        }
    }
    let mut q: usize = 0;
    while q < 4
        invariant
            q <= 4,
            n == s@.len(),
            n >= 4,
            markers@.len() == 4,
            expected@.len() == 4,
            positions@.len() == 4,
            expected@ == seq![1u8, 7u8, 2u8, 4u8],
            positions@ == seq![0usize, 1usize, (n - 2) as usize, (n - 1) as usize],
            forall|a: int| 0 <= a < 4 ==> #[trigger] markers@[a] == s@[positions@[a] as int],
            forall|a: int| 0 <= a < 4 ==> #[trigger] expected@[a] < 10,
            table@.len() == 16,
            forall|x: int| 0 <= x < 10 ==> #[trigger] table@[x] == Some(x as u8),
            forall|x: int|
                10 <= x < 16 ==> (#[trigger] table@[x] is Some <==> resolved.contains(hex_char(x))),
            forall|c: char| #[trigger] resolved.contains(c) ==> is_letter(c),
            forall|p: Seq<char>| #[trigger] encodes_to(p, s@) ==> marked(w@, s@, resolved, p),
            forall|p: Seq<char>, x: int|
                #[trigger] encodes_to(p, s@) && 10 <= x < 16 && #[trigger] table@[x] is Some ==> table@[x]->0
                    < 10 && sigma(p, table@[x]->0) == hex_char(x),
            found@.len() == 0,
        decreases 4 - q,
    {
        let c = markers[q];
        let want = expected[q];
        proof {
            assert forall|p: Seq<char>| #[trigger] encodes_to(p, s@) implies c == sigma(p, want) by {
                lemma_ciphertext(p, s@);
                lemma_framed(p);
            }
        }
        match hex_index(c) {
            Some(x) => {
                match table[x as usize] {
                    Some(v) => {
                        if v != want {
                            proof {
                                assert forall|p: Seq<char>| #[trigger] encodes_to(p, s@) implies false by {
                                    lemma_ciphertext(p, s@);
                                    lemma_sigma(p, want, v);
                                    if x < 10 {
                                        lemma_digit_char(want);
                                    }
                                }
                            }
                            return found;
                        }
                    },
                    None => {
                        let ghost old_w = w@;
                        w = replace_char(&w, c, (want + 48) as char);
                        table.set(x as usize, Some(want));
                        proof {
                            let old_r = resolved;
                            resolved = resolved.insert(c);
                            assert forall|p: Seq<char>| #[trigger] encodes_to(p, s@) implies marked(
                                w@,
                                s@,
                                resolved,
                                p,
                            ) by {
                                lemma_ciphertext(p, s@);
                                let f = framed(digit_values(p));
                                assert forall|i: int| 0 <= i < s@.len() implies #[trigger] w@[i] == if resolved.contains(s@[i]) {
                                    digit_char(f[i])
                                } else {
                                    s@[i]
                                } by {
                                    assert(old_w[i] == if old_r.contains(s@[i]) {
                                        digit_char(f[i])
                                    } else {
                                        s@[i]
                                    });
                                    lemma_digit_char(f[i]);
                                    if s@[i] == c {
                                        lemma_sigma(p, f[i], want);
                                    }
                                }
                            }
                        }
                    },
                }
            },
            None => {
                proof {
                    assert forall|p: Seq<char>| #[trigger] encodes_to(p, s@) implies false by {
                        lemma_ciphertext(p, s@);
                        lemma_sigma(p, want, want);
                    }
                }
                return found;
            },
        }
        q = q + 1;
    }
    // digits that do not occur literally, and the letters that must stand for some of them
    let now = presence(&w);
    let mut missing: Vec<u8> = Vec::new();
    let mut d: u8 = 0;
    while d < 10
        invariant
            d <= 10,
            now@.len() == 16,
            forall|a: int| 0 <= a < missing@.len() ==> #[trigger] missing@[a] < d,
            forall|a: int, b: int| 0 <= a < b < missing@.len() ==> #[trigger] missing@[a] < #[trigger] missing@[b],
            forall|e: u8| e < d ==> (missing@.contains(e) <==> !now@[e as int]),
            forall|k: int| 0 <= k < 16 ==> #[trigger] now@[k] == w@.contains(hex_char(k)),
            resolution_ok(s@, w@, resolved),
        decreases 10 - d,
    {
        let ghost old_m = missing@;
        if !now[d as usize] {
            missing.push(d);
            proof {
                assert(missing@[missing@.len() - 1] == d);
                assert forall|e: u8| e < d + 1 implies (missing@.contains(e) <==> !now@[e as int]) by {
                    if e < d {
                        if old_m.contains(e) {
                            let a = choose|a: int| 0 <= a < old_m.len() && old_m[a] == e;
                            assert(missing@[a] == e);
                        }
                        if missing@.contains(e) {
                            let a = choose|a: int| 0 <= a < missing@.len() && missing@[a] == e;
                            assert(a < old_m.len());
                            assert(old_m[a] == e);
                        }
                    }
                }
            }
        } else {
            proof {
                assert(!missing@.contains(d)) by {
                    if missing@.contains(d) {
                        let a = choose|a: int| 0 <= a < missing@.len() && missing@[a] == d;
                        assert(missing@[a] < d);
                    }
                }
            }
        }
        d = d + 1;
    }
    assert(missing_ok(w@, missing@)) by {
        assert forall|e: u8| e < 10 implies (#[trigger] missing@.contains(e) <==> !w@.contains(digit_char(e))) by {
            assert(now@[e as int] == w@.contains(hex_char(e as int)));
            assert(hex_char(e as int) == digit_char(e));
            if missing@.contains(e) {
                let a = choose|a: int| 0 <= a < missing@.len() && missing@[a] == e;
            }
        }
    }
    let mut letters: Vec<char> = Vec::new();
    let mut x: usize = 10;
    while x < 16
        invariant
            10 <= x <= 16,
            now@.len() == 16,
            forall|a: int| 0 <= a < letters@.len() ==> is_letter(#[trigger] letters@[a]) && hex_value(letters@[a]) < x && w@.contains(letters@[a]),
            forall|a: int, b: int| 0 <= a < b < letters@.len() ==> #[trigger] letters@[a] < #[trigger] letters@[b],
            forall|y: int| 10 <= y < x && #[trigger] now@[y] ==> letters@.contains(hex_char(y)),
            forall|k: int| 0 <= k < 16 ==> #[trigger] now@[k] == w@.contains(hex_char(k)),
            resolution_ok(s@, w@, resolved),
            missing_ok(w@, missing@),
        decreases 16 - x,
    {
        let ghost old_l = letters@;
        if now[x] {
            letters.push(((x + 87) as u8) as char);
            proof {
                assert(letters@[letters@.len() - 1] == hex_char(x as int));
                assert forall|y: int| 10 <= y < x + 1 && #[trigger] now@[y] implies letters@.contains(hex_char(y)) by {
                    if y < x {
                        assert(old_l.contains(hex_char(y)));
                        let a = choose|a: int| 0 <= a < old_l.len() && old_l[a] == hex_char(y);
                        assert(letters@[a] == hex_char(y));
                    }
                }
            }
        }
        x = x + 1;
    }
    assert(letters@.no_duplicates()) by {
        assert forall|a: int, b: int| 0 <= a < letters@.len() && 0 <= b < letters@.len() && a != b
            implies letters@[a] != letters@[b] by {
            if a < b {
                assert(letters@[a] < letters@[b]);
            } else {
                assert(letters@[b] < letters@[a]);
            }
        }
    }
    assert(letters_ok(w@, letters@)) by {
        assert forall|c: char| is_letter(c) && #[trigger] w@.contains(c) implies letters@.contains(c) by {
            let y = hex_value(c);
            assert(hex_char(y) == c);
            assert(now@[y]);
        }
    }
    if letters.len() > missing.len() {
        proof {
            assert forall|p: Seq<char>| #[trigger] encodes_to(p, s@) implies false by {
                lemma_wanted_arrangement(p, s@, w@, resolved, letters@, missing@);
                let q = wanted(p, letters@);
                assert(q.to_set().subset_of(missing@.to_set()));
                q.unique_seq_to_set();
                missing@.unique_seq_to_set();
                vstd::set_lib::lemma_len_subset(q.to_set(), missing@.to_set());
            }
        }
        return found;
    }
    assert(missing@.no_duplicates()) by {
        assert forall|a: int, b: int| 0 <= a < missing@.len() && 0 <= b < missing@.len() && a != b
            implies missing@[a] != missing@[b] by {
            if a < b {
                assert(missing@[a] < missing@[b]);
            } else {
                assert(missing@[b] < missing@[a]);
            }
        }
    }
    let perms = permutations_of(&missing, letters.len());
    let mut pi: usize = 0;
    while pi < perms.len()
        invariant
            pi <= perms@.len(),
            letters@.len() <= missing@.len(),
            forall|a: int| 0 <= a < missing@.len() ==> #[trigger] missing@[a] < 10,
            forall|a: int| 0 <= a < perms@.len() ==> is_arrangement(#[trigger] perms@[a]@, missing@, letters@.len() as int),
            forall|q: Seq<u8>|
                #[trigger] is_arrangement(q, missing@, letters@.len() as int) ==> exists|i: int|
                    0 <= i < perms@.len() && perms@[i]@ == q,
            resolution_ok(s@, w@, resolved),
            missing_ok(w@, missing@),
            letters_ok(w@, letters@),
            strictly_sorted(views(found@)),
            all_encode_to(views(found@), s@),
            forall|p: Seq<char>|
                #[trigger] encodes_to(p, s@) && (exists|a: int| 0 <= a < pi && perms@[a]@ == wanted(p, letters@))
                    ==> views(found@).contains(p),
        decreases perms@.len() - pi,
    {
        let perm = &perms[pi];
        assert(is_arrangement(perm@, missing@, letters@.len() as int));
        let mut w2: Vec<char> = w.clone();
        let mut j: usize = 0;
        while j < letters.len()
            invariant
                j <= letters@.len() == perm@.len(),
                is_arrangement(perm@, missing@, letters@.len() as int),
                forall|a: int| 0 <= a < missing@.len() ==> #[trigger] missing@[a] < 10,
                w2@.len() == w@.len(),
                forall|i: int| 0 <= i < w@.len() ==> #[trigger] w2@[i] == replaced(w@[i], letters@, perm@, j as int),
            decreases letters@.len() - j,
        {
            let v = perm[j];
            assert(missing@.contains(v));
            w2 = replace_char(&w2, letters[j], (v + 48) as char);
            j = j + 1;
        }
        let ghost before = views(found@);
        try_assignment(&w2, s, &mut found);
        proof {
            assert forall|p: Seq<char>| #[trigger] encodes_to(p, s@) && (exists|a: int| 0 <= a < pi + 1 && perms@[a]@ == wanted(p, letters@))
                implies views(found@).contains(p) by {
                let a = choose|a: int| 0 <= a < pi + 1 && perms@[a]@ == wanted(p, letters@);
                if a < pi {
                    assert(before.contains(p));
                    assert(before.to_set().contains(p));
                    assert(views(found@).to_set().contains(p));
                } else {
                    lemma_resolves(p, s@, w@, resolved, letters@, perm@, w2@);
                }
            }
        }
        pi = pi + 1;
    }
    proof {
        assert forall|p: Seq<char>| #[trigger] encodes_to(p, s@) implies views(found@).contains(p) by {
            lemma_wanted_arrangement(p, s@, w@, resolved, letters@, missing@);
        }
    }
    found
}

} // verus!
