//! A polyalphabetic substitution over a caller-given alphabet.
use vstd::prelude::*;

use crate::text::{chars_of, string_of};

verus! {

/// The last position below `n` where `a` holds `c`.
pub open spec fn last_index(a: Seq<char>, c: char, n: int) -> Option<int>
    decreases n,
{
    if n <= 0 {
        None
    } else if a[n - 1] == c {
        Some(n - 1)
    } else {
        last_index(a, c, n - 1)
    }
}

pub open spec fn position(a: Seq<char>, c: char) -> Option<int> {
    last_index(a, c, a.len() as int)
}

/// The key as alphabet positions, characters outside the alphabet dropped.
pub open spec fn key_positions(k: Seq<char>, a: Seq<char>) -> Seq<int>
    decreases k.len(),
{
    if k.len() == 0 {
        Seq::empty()
    } else {
        let rest = key_positions(k.drop_last(), a);
        match position(a, k.last()) {
            Some(i) => rest.push(i),
            None => rest,
        }
    }
}

/// How many of the first `n` characters of `s` belong to the alphabet.
pub open spec fn in_alphabet_before(s: Seq<char>, a: Seq<char>, n: int) -> nat
    decreases n,
{
    if n <= 0 {
        0
    } else {
        in_alphabet_before(s, a, n - 1) + if position(a, s[n - 1]) is Some {
            1nat
        } else {
            0nat
        }
    }
}

/// The character at position `i` of the result.
pub open spec fn vigenere_char(s: Seq<char>, k: Seq<char>, a: Seq<char>, inv: bool, i: int) -> char {
    let kp = key_positions(k, a);
    match position(a, s[i]) {
        None => s[i],
        Some(x) => if kp.len() == 0 {
            s[i]
        } else {
            let kk = kp[in_alphabet_before(s, a, i) as int % kp.len() as int];
            a[(if inv {
                x + kk
            } else {
                x + a.len() - kk
            }) % a.len() as int]
        },
    }
}

pub open spec fn vigenere_text(s: Seq<char>, k: Seq<char>, a: Seq<char>, inv: bool) -> Seq<char> {
    Seq::new(s.len(), |i: int| vigenere_char(s, k, a, inv, i))
}

/// The last position of `c` in `a`.
fn find_position(a: &Vec<char>, c: char) -> (r: Option<usize>)
    ensures
        match r {
            Some(i) => position(a@, c) == Some(i as int) && i < a@.len(),
            None => position(a@, c) is None,
        },
{
    let mut n: usize = a.len();
    while n > 0
        invariant
            n <= a@.len(),
            position(a@, c) == last_index(a@, c, n as int),
        decreases n,
    {
        if a[n - 1] == c {
            return Some(n - 1);
        }
        n = n - 1;
    }
    None
}

fn positions_of_key(k: &Vec<char>, a: &Vec<char>) -> (r: Vec<usize>)
    ensures
        r@.map_values(|x: usize| x as int) == key_positions(k@, a@),
        forall|j: int| 0 <= j < r@.len() ==> #[trigger] r@[j] < a@.len(),
{
    let mut r: Vec<usize> = Vec::new();
    let mut i: usize = 0;
    while i < k.len()
        invariant
            i <= k@.len(),
            r@.map_values(|x: usize| x as int) == key_positions(k@.subrange(0, i as int), a@),
            forall|j: int| 0 <= j < r@.len() ==> #[trigger] r@[j] < a@.len(),
        decreases k@.len() - i,
    {
        assert(k@.subrange(0, i + 1).drop_last() =~= k@.subrange(0, i as int));
        match find_position(a, k[i]) {
            Some(p) => {
                r.push(p);
                assert(r@.map_values(|x: usize| x as int) =~= key_positions(
                    k@.subrange(0, i as int),
                    a@,
                ).push(p as int));
            },
            None => {},
        }
        i = i + 1;
    }
    assert(k@.subrange(0, k@.len() as int) =~= k@);
    r
}

/// Shift each alphabet character of `s` by the repeating key: back by the key position when
/// `inv` is false, forward when it is true. Key characters outside the alphabet are dropped;
/// characters of `s` outside the alphabet pass through and do not use up a key position.
pub fn vigenere_(s: &str, k: &str, alphabet: &str, inv: bool) -> (r: String)
    ensures
        r@ == vigenere_text(s@, k@, alphabet@, inv),
{
    let sv = chars_of(s);
    let kv = chars_of(k);
    let a = chars_of(alphabet);
    let kp = positions_of_key(&kv, &a);
    let n = a.len();
    let mut out: Vec<char> = Vec::new();
    let mut used: usize = 0;
    let mut i: usize = 0;
    while i < sv.len()
        invariant
            i <= sv@.len(),
            n == a@.len(),
            kp@.map_values(|x: usize| x as int) == key_positions(kv@, a@),
            forall|j: int| 0 <= j < kp@.len() ==> #[trigger] kp@[j] < a@.len(),
            used == in_alphabet_before(sv@, a@, i as int),
            used <= i,
            out@ =~= vigenere_text(sv@, kv@, a@, inv).subrange(0, i as int),
        decreases sv@.len() - i,
    {
        let c = sv[i];
        let ghost kps = key_positions(kv@, a@);
        match find_position(&a, c) {
            None => {
                out.push(c);
            },
            Some(x) => {
                if kp.len() == 0 {
                    out.push(c);
                } else {
                    let kk = kp[used % kp.len()];
                    assert(kps[(used % kp.len()) as int] == kk as int);
                    let idx: usize = if inv {
                        if kk >= n - x {
                            kk - (n - x)
                        } else {
                            x + kk
                        }
                    } else {
                        if x >= kk {
                            x - kk
                        } else {
                            x + (n - kk)
                        }
                    };
                    proof {
                        let xi = x as int;
                        let ki = kk as int;
                        let ni = n as int;
                        if inv {
                            if ki >= ni - xi {
                                assert((xi + ki) % ni == xi + ki - ni) by (nonlinear_arith)
                                    requires
                                        0 <= xi + ki - ni < ni,
                                ;
                            } else {
                                assert((xi + ki) % ni == xi + ki) by (nonlinear_arith)
                                    requires
                                        0 <= xi + ki < ni,
                                ;
                            }
                        } else {
                            if xi >= ki {
                                assert((xi + ni - ki) % ni == xi - ki) by (nonlinear_arith)
                                    requires
                                        0 <= xi - ki < ni,
                                ;
                            } else {
                                assert((xi + ni - ki) % ni == xi + ni - ki) by (nonlinear_arith)
                                    requires
                                        0 <= xi + ni - ki < ni,
                                ;
                            }
                        }
                    }
                    out.push(a[idx]);
                }
                used = used + 1;
            },
        }
        i = i + 1;
    }
    string_of(&out)
}

} // verus!
