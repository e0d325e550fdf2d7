//! Shift ciphers on character codes: an unkeyed one that steps every character back by one
//! until some character can go no further, and a keyed one that adds a repeating key.
use vstd::prelude::*;

use crate::text::{chars_of, string_of};

verus! {

/// A valid `char` code: at most 0x10FFFF and not a surrogate.
pub open spec fn is_char_code(v: int) -> bool {
    0 <= v <= 0x10FFFF && !(0xD800 <= v <= 0xDFFF)
}

/// Relies on `char::from_u32`: `None` exactly for codes that are no `char`.
#[verifier::external_body]
fn char_from_code(v: u32) -> (r: Option<char>)
    ensures
        match r {
            Some(c) => is_char_code(v as int) && c as u32 == v,
            None => !is_char_code(v as int),
        },
{
    char::from_u32(v)
}

/// A character that the unkeyed shift can step back: a space stays, others need a valid
/// predecessor code.
pub open spec fn steps_back(c: char) -> bool {
    c == ' ' || is_char_code(c as u32 as int - 1)
}

pub open spec fn has_non_space(s: Seq<char>) -> bool {
    exists|i: int| 0 <= i < s.len() && s[i] != ' '
}

/// `t` is `s` with its first `n` non-space characters stepped back by one code and everything
/// else unchanged.
pub open spec fn stepped_up_to(s: Seq<char>, t: Seq<char>, n: int) -> bool {
    &&& t.len() == s.len()
    &&& forall|i: int|
        #![trigger t[i]]
        0 <= i < s.len() ==> if i < n && s[i] != ' ' {
            t[i] as u32 as int == s[i] as u32 as int - 1
        } else {
            t[i] == s[i]
        }
}

/// The sequence of texts that the unkeyed shift walks through.
pub struct Shift(Vec<char>);

impl View for Shift {
    type V = Seq<char>;

    closed spec fn view(&self) -> Seq<char> {
        self.0@
    }
}

pub open spec fn key_min(k: Seq<char>) -> int
    decreases k.len(),
{
    if k.len() <= 1 {
        if k.len() == 0 {
            0
        } else {
            k[0] as u32 as int
        }
    } else {
        let m = key_min(k.drop_last());
        if (k.last() as u32 as int) < m {
            k.last() as u32 as int
        } else {
            m
        }
    }
}

pub open spec fn key_max(k: Seq<char>) -> int
    decreases k.len(),
{
    if k.len() <= 1 {
        if k.len() == 0 {
            0
        } else {
            k[0] as u32 as int
        }
    } else {
        let m = key_max(k.drop_last());
        if (k.last() as u32 as int) > m {
            k.last() as u32 as int
        } else {
            m
        }
    }
}

/// The code of the `j`-th key character: the key repeats, and with `inv` each character is
/// mirrored through the key's code range where that gives a valid `char`.
pub open spec fn key_code(k: Seq<char>, inv: bool, j: int) -> int {
    let c = k[j % k.len() as int] as u32 as int;
    if inv && is_char_code(key_max(k) - c + key_min(k)) {
        key_max(k) - c + key_min(k)
    } else {
        c
    }
}

pub open spec fn uses_key(c: char, ignore_spaces: bool) -> bool {
    !ignore_spaces || c != ' '
}

/// How many of the first `n` characters take a key character.
pub open spec fn keyed_before(s: Seq<char>, ignore_spaces: bool, n: int) -> nat
    decreases n,
{
    if n <= 0 {
        0
    } else {
        keyed_before(s, ignore_spaces, n - 1) + if uses_key(s[n - 1], ignore_spaces) {
            1nat
        } else {
            0nat
        }
    }
}

/// The code at position `i` after adding the key: unchanged where no key character applies or
/// the sum is no `char`.
pub open spec fn keyed_code(s: Seq<char>, k: Seq<char>, inv: bool, ignore_spaces: bool, i: int) -> int {
    let x = s[i] as u32 as int;
    if uses_key(s[i], ignore_spaces) && k.len() > 0 && is_char_code(
        x + key_code(k, inv, keyed_before(s, ignore_spaces, i) as int),
    ) {
        x + key_code(k, inv, keyed_before(s, ignore_spaces, i) as int)
    } else {
        x
    }
}

fn key_range(k: &Vec<char>) -> (r: (u32, u32))
    requires
        k@.len() > 0,
    ensures
        r.0 as int == key_min(k@),
        r.1 as int == key_max(k@),
        forall|j: int| 0 <= j < k@.len() ==> r.0 <= #[trigger] k@[j] as u32 <= r.1,
{
    let mut lo: u32 = k[0] as u32;
    let mut hi: u32 = k[0] as u32;
    let mut i: usize = 1;
    assert(k@.subrange(0, 1).len() == 1);
    while i < k.len()
        invariant
            1 <= i <= k@.len(),
            lo as int == key_min(k@.subrange(0, i as int)),
            hi as int == key_max(k@.subrange(0, i as int)),
            forall|j: int| 0 <= j < i ==> lo <= #[trigger] k@[j] as u32 <= hi,
        decreases k@.len() - i,
    {
        assert(k@.subrange(0, i + 1).drop_last() =~= k@.subrange(0, i as int));
        let c = k[i] as u32;
        if c < lo {
            lo = c;
        }
        if c > hi {
            hi = c;
        }
        i = i + 1;
    }
    assert(k@.subrange(0, k@.len() as int) =~= k@);
    (lo, hi)
}

impl Shift {
    pub fn new(s: &str) -> (r: Self)
        ensures
            r@ == s@,
    {
        Shift(chars_of(s))
    }

    /// Start from `s` with the repeating key `k` added to the character codes; see
    /// `keyed_code`.
    pub fn with_key(s: &str, k: &str, inv: bool, ignore_spaces: bool) -> (r: Self)
        ensures
            r@.len() == s@.len(),
            forall|i: int|
                0 <= i < s@.len() ==> #[trigger] r@[i] as u32 as int == keyed_code(
                    s@,
                    k@,
                    inv,
                    ignore_spaces,
                    i,
                ),
    {
        let sv = chars_of(s);
        let kv = chars_of(k);
        let mut out: Vec<char> = Vec::new();
        let (lo, hi) = if kv.len() > 0 {
            key_range(&kv)
        } else {
            (0, 0)
        };
        let mut used: usize = 0;
        let mut i: usize = 0;
        while i < sv.len()
            invariant
                i <= sv@.len(),
                used <= i,
                used == keyed_before(sv@, ignore_spaces, i as int),
                kv@.len() > 0 ==> lo as int == key_min(kv@) && hi as int == key_max(kv@),
                kv@.len() > 0 ==> forall|j: int|
                    0 <= j < kv@.len() ==> lo <= #[trigger] kv@[j] as u32 <= hi,
                out@.len() == i,
                forall|j: int|
                    0 <= j < i ==> #[trigger] out@[j] as u32 as int == keyed_code(
                        sv@,
                        kv@,
                        inv,
                        ignore_spaces,
                        j,
                    ),
            decreases sv@.len() - i,
        {
            let x = sv[i];
            let mut y = x;
            if !ignore_spaces || x != ' ' {
                if kv.len() > 0 {
                    let c = kv[used % kv.len()] as u32;
                    let mut kc = c;
                    if inv {
                        match char_from_code(hi - c + lo) {
                            Some(_) => {
                                kc = hi - c + lo;
                            },
                            None => {},
                        }
                    }
                    assert(kc as int == key_code(kv@, inv, used as int));
                    if (x as u32) <= 0x10FFFF && kc <= 0x10FFFF {
                        match char_from_code(x as u32 + kc) {
                            Some(z) => {
                                y = z;
                            },
                            None => {},
                        }
                    }
                }
                used = used + 1;
            }
            out.push(y);
            i = i + 1;
        }
        Shift(out)
    }

    /// The current text, after which every non-space character steps back by one code.
    /// `None` when the text has no non-space character, or when some non-space character has
    /// no valid predecessor; the characters before that one have then already stepped back.
    pub fn next(&mut self) -> (r: Option<String>)
        ensures
            r is Some <==> (has_non_space(old(self)@) && forall|i: int|
                0 <= i < old(self)@.len() ==> steps_back(#[trigger] old(self)@[i])),
            r matches Some(t) ==> t@ == old(self)@ && stepped_up_to(
                old(self)@,
                final(self)@,
                old(self)@.len() as int,
            ),
            r is None ==> exists|n: int|
                0 <= n <= old(self)@.len() && stepped_up_to(old(self)@, final(self)@, n),
    {
        let ret = string_of(&self.0);
        let ghost s = self.0@;
        let mut good = false;
        let mut i: usize = 0;
        while i < self.0.len()
            invariant
                i <= s.len(),
                self.0@.len() == s.len(),
                stepped_up_to(s, self.0@, i as int),
                good == exists|j: int| 0 <= j < i && s[j] != ' ',
                forall|j: int| 0 <= j < i ==> steps_back(#[trigger] s[j]),
                ret@ == s,
                s == old(self)@,
            decreases s.len() - i,
        {
            let x = self.0[i];
            assert(x == s[i as int]);
            if x != ' ' {
                good = true;
                let code = x as u32;
                let prev = if code >= 1 {
                    char_from_code(code - 1)
                } else {
                    None
                };
                match prev {
                    Some(c) => {
                        self.0.set(i, c);
                    },
                    None => {
                        assert(!steps_back(s[i as int]));
                        assert(stepped_up_to(s, self.0@, i as int));
                        assert(self@ == self.0@);
                        assert(stepped_up_to(old(self)@, self@, i as int));
                        return None;
                    },
                }
            }
            i = i + 1;
        }
        if good {
            Some(ret)
        } else {
            None
        }
    }
}

} // verus!
