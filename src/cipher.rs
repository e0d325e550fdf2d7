//! The digit obfuscation cipher: a decimal plaintext becomes a hex-looking ciphertext.
use vstd::prelude::*;

use crate::decimal::{canon, digits_ok, is_canonical, lemma_canon_props, mul_small, val};
use crate::text::{chars_of, string_of};

verus! {

pub open spec fn is_digit(c: char) -> bool {
    '0' <= c && c <= '9'
}

pub open spec fn all_digits(s: Seq<char>) -> bool {
    forall|i: int| 0 <= i < s.len() ==> is_digit(#[trigger] s[i])
}

/// The value of a digit character.
pub open spec fn digit_value(c: char) -> u8 {
    (c as u32 - '0' as u32) as u8
}

/// The character of a digit value.
pub open spec fn digit_char(d: u8) -> char {
    (d + 48) as char
}

pub open spec fn digit_values(s: Seq<char>) -> Seq<u8> {
    s.map_values(|c: char| digit_value(c))
}

/// The key used when none is given.
pub open spec fn default_key() -> Seq<char> {
    seq!['a', 'b', 'c', 'd', 'e', 'f']
}

pub open spec fn key_or_default(key: Option<&str>) -> Seq<char> {
    match key {
        Some(k) => k@,
        None => default_key(),
    }
}

/// `"2" + p + "91"`.
pub open spec fn wrap(p: Seq<u8>) -> Seq<u8> {
    seq![2u8] + p + seq![9u8, 1u8]
}

/// Reverse the digits and turn every 2 into a 3.
pub open spec fn mirror(s: Seq<u8>) -> Seq<u8> {
    Seq::new(
        s.len(),
        |i: int|
            if s[s.len() - 1 - i] == 2 {
                3u8
            } else {
                s[s.len() - 1 - i]
            },
    )
}

/// The numeral that the cipher scales by 9 (the mirrored, scaled, wrapped plaintext).
pub open spec fn mirrored(p: Seq<u8>) -> Seq<u8> {
    mirror(canon(5 * val(wrap(p))).push(6u8))
}

/// The digits of the ciphertext before substitution: `"17" + 9·C + "24"`.
pub open spec fn framed(p: Seq<u8>) -> Seq<u8> {
    seq![1u8, 7u8] + canon(9 * val(mirrored(p))) + seq![2u8, 4u8]
}

/// The key character that the last of the first `n` plaintext positions holding `d` assigns.
pub open spec fn assigned(p: Seq<u8>, key: Seq<char>, d: u8, n: int) -> Option<char>
    decreases n,
{
    if n <= 0 {
        None
    } else if p[n - 1] == d {
        Some(key[n - 1])
    } else {
        assigned(p, key, d, n - 1)
    }
}

pub open spec fn zip_len(p: Seq<u8>, key: Seq<char>) -> int {
    if p.len() <= key.len() {
        p.len() as int
    } else {
        key.len() as int
    }
}

/// What the ciphertext shows for digit `d`.
pub open spec fn shown(p: Seq<u8>, key: Seq<char>, d: u8) -> char {
    match assigned(p, key, d, zip_len(p, key)) {
        Some(c) => c,
        None => digit_char(d),
    }
}

/// The ciphertext of digit values `p` under `key`.
pub open spec fn encode(p: Seq<u8>, key: Seq<char>) -> Seq<char> {
    framed(p).map_values(|d: u8| shown(p, key, d))
}

/// The forward cipher on characters: `None` on an empty or non-digit plaintext or an empty key.
pub open spec fn encoded(p: Seq<char>, key: Seq<char>) -> Option<Seq<char>> {
    if p.len() == 0 || key.len() == 0 || !all_digits(p) {
        None
    } else {
        Some(encode(digit_values(p), key))
    }
}

pub(crate) fn default_key_chars() -> (r: Vec<char>)
    ensures
        r@ == default_key(),
{
    let r = vec!['a', 'b', 'c', 'd', 'e', 'f'];
    assert(r@ =~= default_key());
    r
}

/// Digit values of a plaintext, or `None` when it holds a non-digit.
fn plain_values(p: &Vec<char>) -> (r: Option<Vec<u8>>)
    ensures
        match r {
            Some(v) => all_digits(p@) && v@ == digit_values(p@),
            None => !all_digits(p@),
        },
{
    let mut v: Vec<u8> = Vec::new();
    let mut i: usize = 0;
    while i < p.len()
        invariant
            i <= p@.len(),
            all_digits(p@.subrange(0, i as int)),
            v@ =~= digit_values(p@.subrange(0, i as int)),
        decreases p@.len() - i,
    {
        let c = p[i];
        if !('0' <= c && c <= '9') {
            return None;
        }
        v.push((c as u32 - '0' as u32) as u8);
        i = i + 1;
        assert(all_digits(p@.subrange(0, i as int))) by {
            assert forall|j: int| 0 <= j < i implies is_digit(#[trigger] p@.subrange(0, i as int)[j]) by {
                if j < i - 1 {
                    assert(p@.subrange(0, i as int)[j] == p@.subrange(0, i - 1)[j]);
                }
            }
        }
    }
    assert(p@.subrange(0, p@.len() as int) =~= p@);
    Some(v)
}

/// The digits of `"2" + p + "91"` scaled by 5, then mirrored with a trailing 6.
fn mirrored_exec(pv: &Vec<u8>) -> (r: Vec<u8>)
    requires
        digits_ok(pv@),
    ensures
        r@ == mirrored(pv@),
        is_canonical(r@),
{
    let mut w: Vec<u8> = Vec::new();
    w.push(2);
    let mut i: usize = 0;
    while i < pv.len()
        invariant
            i <= pv@.len(),
            w@ =~= seq![2u8] + pv@.subrange(0, i as int),
        decreases pv@.len() - i,
    {
        w.push(pv[i]);
        i = i + 1;
    }
    w.push(9);
    w.push(1);
    assert(pv@.subrange(0, pv@.len() as int) =~= pv@);
    assert(w@ =~= wrap(pv@));
    assert(is_canonical(w@)) by {
        assert forall|j: int| 0 <= j < w@.len() implies #[trigger] w@[j] < 10 by {
            if 1 <= j < w@.len() - 2 {
                assert(w@[j] == pv@[j - 1]);
            }
        }
    }
    let mut b = mul_small(&w, 5);
    b.push(6);
    proof {
        lemma_canon_props(5 * val(w@));
    }
    let n = b.len();
    let mut m: Vec<u8> = Vec::new();
    let mut j: usize = 0;
    while j < n
        invariant
            j <= n == b@.len(),
            b@ == canon(5 * val(wrap(pv@))).push(6u8),
            digits_ok(b@),
            m@ =~= mirror(b@).subrange(0, j as int),
        decreases n - j,
    {
        let d = b[n - 1 - j];
        if d == 2 {
            m.push(3);
        } else {
            m.push(d);
        }
        j = j + 1;
    }
    assert(m@ =~= mirror(b@));
    assert(is_canonical(m@)) by {
        assert(m@[0] == 6);
        assert forall|k: int| 0 <= k < m@.len() implies #[trigger] m@[k] < 10 by {
            assert(b@[b@.len() - 1 - k] < 10);
        }
    }
    m
}

/// The substitution table: for each digit value, the key character it is shown as, if any.
fn build_table(pv: &Vec<u8>, key: &Vec<char>) -> (t: Vec<Option<char>>)
    requires
        digits_ok(pv@),
    ensures
        t@.len() == 10,
        forall|d: u8| d < 10 ==> #[trigger] t@[d as int] == assigned(pv@, key@, d, zip_len(pv@, key@)),
{
    let mut t: Vec<Option<char>> = vec![None, None, None, None, None, None, None, None, None, None];
    let n: usize = if pv.len() <= key.len() {
        pv.len()
    } else {
        key.len()
    };
    let mut i: usize = 0;
    while i < n
        invariant
            i <= n,
            n as int == zip_len(pv@, key@),
            n <= pv@.len(),
            n <= key@.len(),
            digits_ok(pv@),
            t@.len() == 10,
            forall|d: u8| d < 10 ==> #[trigger] t@[d as int] == assigned(pv@, key@, d, i as int),
        decreases n - i,
    {
        let d = pv[i];
        t.set(d as usize, Some(key[i]));
        i = i + 1;
    }
    t
}

/// The forward cipher on characters.
pub fn encode_chars(p: &Vec<char>, key: &Vec<char>) -> (r: Option<Vec<char>>)
    ensures
        match r {
            Some(s) => encoded(p@, key@) == Some(s@),
            None => encoded(p@, key@) is None,
        },
{
    if p.len() == 0 || key.len() == 0 {
        return None;
    }
    let pv = match plain_values(p) {
        Some(v) => v,
        None => return None,
    };
    assert(digits_ok(pv@)) by {
        assert forall|i: int| 0 <= i < pv@.len() implies #[trigger] pv@[i] < 10 by {
            assert(is_digit(p@[i]));
        }
    }
    let m = mirrored_exec(&pv);
    let d = mul_small(&m, 9);
    proof {
        lemma_canon_props(9 * val(m@));
    }
    let mut f: Vec<u8> = vec![1, 7];
    let mut i: usize = 0;
    while i < d.len()
        invariant
            i <= d@.len(),
            f@ =~= seq![1u8, 7u8] + d@.subrange(0, i as int),
        decreases d@.len() - i,
    {
        f.push(d[i]);
        i = i + 1;
    }
    f.push(2);
    f.push(4);
    assert(d@.subrange(0, d@.len() as int) =~= d@);
    assert(f@ =~= framed(pv@));
    let t = build_table(&pv, key);
    let mut out: Vec<char> = Vec::new();
    let mut j: usize = 0;
    while j < f.len()
        invariant
            j <= f@.len(),
            f@ == framed(pv@),
            is_canonical(d@),
            f@ =~= seq![1u8, 7u8] + d@ + seq![2u8, 4u8],
            t@.len() == 10,
            forall|e: u8| e < 10 ==> #[trigger] t@[e as int] == assigned(pv@, key@, e, zip_len(pv@, key@)),
            out@ =~= encode(pv@, key@).subrange(0, j as int),
        decreases f@.len() - j,
    {
        let e = f[j];
        assert(e < 10) by {
            if 2 <= j < f@.len() - 2 {
                assert(e == d@[j - 2]);
            }
        }
        let c = match t[e as usize] {
            Some(c) => c,
            None => (e + 48) as char,
        };
        out.push(c);
        j = j + 1;
    }
    assert(out@ =~= encode(pv@, key@));
    Some(out)
}

/// The forward cipher: `"2" + plaintext + "91"` times 5, `"6"` appended, mirrored with 2 shown
/// as 3, times 9, framed by `"17"` and `"24"`, and each digit shown as the key character that
/// the last plaintext position holding it assigns. The key defaults to `"abcdef"`.
pub fn numbers_(src: &str, key: Option<&str>) -> (r: Option<String>)
    ensures
        match r {
            Some(s) => encoded(src@, key_or_default(key)) == Some(s@),
            None => encoded(src@, key_or_default(key)) is None,
        },
{
    let p = chars_of(src);
    let k = match key {
        Some(k) => chars_of(k),
        None => default_key_chars(),
    };
    match encode_chars(&p, &k) {
        Some(out) => Some(string_of(&out)),
        None => None,
    }
}

} // verus!
