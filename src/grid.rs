//! The grid-rotation cipher: a fixed 6×6 grid of symbols whose rows and columns are rotated
//! by counts read from a key text.
use vstd::prelude::*;

use crate::cipher::{all_digits, digit_value, digit_values, is_digit};
use crate::decimal::val;
use crate::text::{chars_of, string_of};

verus! {

/// Pieces of `s` between occurrences of `sep`, as `str::split` gives them.
pub open spec fn split_on(s: Seq<char>, sep: char) -> Seq<Seq<char>>
    decreases s.len(),
{
    if s.len() == 0 {
        seq![Seq::empty()]
    } else {
        let rest = split_on(s.drop_last(), sep);
        if s.last() == sep {
            rest.push(Seq::empty())
        } else {
            rest.update(rest.len() - 1, rest.last().push(s.last()))
        }
    }
}

/// A count's digits: the text without a leading `+`.
pub open spec fn count_digits(p: Seq<char>) -> Seq<char> {
    if p.len() > 0 && p[0] == '+' {
        p.drop_first()
    } else {
        p
    }
}

/// A count written in decimal, with an optional leading `+`, that fits a `usize`.
pub open spec fn parse_count(p: Seq<char>) -> Option<int> {
    let d = count_digits(p);
    if d.len() == 0 || !all_digits(d) || val(digit_values(d)) > usize::MAX {
        None
    } else {
        Some(val(digit_values(d)) as int)
    }
}

/// The counts of one key token: comma-separated counts, or else one count per digit.
pub open spec fn token_counts(t: Seq<char>) -> Option<Seq<int>> {
    if t.contains(',') {
        let parts = split_on(t, ',');
        if forall|j: int| 0 <= j < parts.len() ==> #[trigger] parse_count(parts[j]) is Some {
            Some(Seq::new(parts.len(), |j: int| parse_count(parts[j])->0))
        } else {
            None
        }
    } else if all_digits(t) {
        Some(digit_values(t).map_values(|d: u8| d as int))
    } else {
        None
    }
}

pub open spec fn start_grid() -> Seq<char> {
    "abcdefghijqlmnopqrstuvwxyz1234567890"@
}

/// Row `r` moved right by `a` places, wrapping.
pub open spec fn rotate_row(g: Seq<char>, r: int, a: int) -> Seq<char> {
    Seq::new(
        36,
        |i: int|
            if i / 6 == r {
                g[r * 6 + (i % 6 + 6 - a % 6) % 6]
            } else {
                g[i]
            },
    )
}

/// Column `c` moved down by `a` places, wrapping.
pub open spec fn rotate_column(g: Seq<char>, c: int, a: int) -> Seq<char> {
    Seq::new(
        36,
        |i: int|
            if i % 6 == c {
                g[((i / 6 + 6 - a % 6) % 6) * 6 + c]
            } else {
                g[i]
            },
    )
}

/// The first `n` counts applied: the first six rotate rows, later ones rotate columns.
pub open spec fn apply_counts(g: Seq<char>, k: Seq<int>, n: int) -> Seq<char>
    decreases n,
{
    if n <= 0 {
        g
    } else {
        let h = apply_counts(g, k, n - 1);
        if n - 1 < 6 {
            rotate_row(h, n - 1, k[n - 1])
        } else {
            rotate_column(h, (n - 7) % 6, k[n - 1])
        }
    }
}

/// The grid after the first `n` tokens, or `None` when one of them does not parse.
pub open spec fn apply_tokens(g: Seq<char>, ts: Seq<Seq<char>>, n: int) -> Option<Seq<char>>
    decreases n,
{
    if n <= 0 {
        Some(g)
    } else {
        match apply_tokens(g, ts, n - 1) {
            None => None,
            Some(h) => match token_counts(ts[n - 1]) {
                None => None,
                Some(k) => Some(apply_counts(h, k, k.len() as int)),
            },
        }
    }
}

/// The grid as text: each row starts with a backslash and `n`, each symbol is followed by a
/// space.
pub open spec fn render(g: Seq<char>) -> Seq<char> {
    Seq::new(
        84,
        |i: int|
            if i % 14 == 0 {
                '\\'
            } else if i % 14 == 1 {
                'n'
            } else if (i % 14 - 2) % 2 == 0 {
                g[(i / 14) * 6 + (i % 14 - 2) / 2]
            } else {
                ' '
            },
    )
}

pub open spec fn grid_text(src: Seq<char>) -> Option<Seq<char>> {
    let ts = split_on(src, ' ');
    match apply_tokens(start_grid(), ts, ts.len() as int) {
        None => None,
        Some(g) => Some("Original Grid:"@ + render(start_grid()) + " \\n \\nEncrypted Grid after Rotating"@
            + render(g)),
    }
}

fn split_chars(s: &Vec<char>, sep: char) -> (r: Vec<Vec<char>>)
    ensures
        r@.map_values(|v: Vec<char>| v@) == split_on(s@, sep),
{
    let mut r: Vec<Vec<char>> = vec![Vec::new()];
    let mut i: usize = 0;
    assert(r@.map_values(|v: Vec<char>| v@) =~= split_on(s@.subrange(0, 0), sep));
    while i < s.len()
        invariant
            i <= s@.len(),
            r@.len() >= 1,
            r@.map_values(|v: Vec<char>| v@) == split_on(s@.subrange(0, i as int), sep),
        decreases s@.len() - i,
    {
        assert(s@.subrange(0, i + 1).drop_last() =~= s@.subrange(0, i as int));
        let c = s[i];
        if c == sep {
            r.push(Vec::new());
            assert(r@.map_values(|v: Vec<char>| v@) =~= split_on(s@.subrange(0, i + 1), sep));
        } else {
            let last = r.len() - 1;
            let mut piece = r.remove(last);
            piece.push(c);
            r.push(piece);
            assert(r@.map_values(|v: Vec<char>| v@) =~= split_on(s@.subrange(0, i + 1), sep));
        }
        i = i + 1;
    }
    assert(s@.subrange(0, s@.len() as int) =~= s@);
    r
}

fn parse_count_exec(p: &Vec<char>) -> (r: Option<usize>)
    ensures
        match r {
            Some(v) => parse_count(p@) == Some(v as int),
            None => parse_count(p@) is None,
        },
{
    let start: usize = if p.len() > 0 && p[0] == '+' {
        1
    } else {
        0
    };
    let ghost d = count_digits(p@);
    assert(d =~= p@.subrange(start as int, p@.len() as int));
    if start == p.len() {
        return None;
    }
    let mut v: usize = 0;
    let mut i: usize = start;
    while i < p.len()
        invariant
            start <= i <= p@.len(),
            d == count_digits(p@),
            d =~= p@.subrange(start as int, p@.len() as int),
            all_digits(d.subrange(0, i - start)),
            v as nat == val(digit_values(d.subrange(0, i - start))),
        decreases p@.len() - i,
    {
        let c = p[i];
        let ghost pre = d.subrange(0, i - start);
        let ghost post = d.subrange(0, i - start + 1);
        assert(post.drop_last() =~= pre);
        assert(digit_values(post).drop_last() =~= digit_values(pre));
        if !('0' <= c && c <= '9') {
            assert(!is_digit(d[i - start]));
            assert(!all_digits(d));
            assert(parse_count(p@) is None);
            return None;
        }
        let dv = (c as u32 - 48) as usize;
        assert(all_digits(post)) by {
            assert forall|j: int| 0 <= j < post.len() implies is_digit(#[trigger] post[j]) by {
                if j < pre.len() {
                    assert(post[j] == pre[j]);
                }
            }
        }
        if v > (usize::MAX - dv) / 10 {
            proof {
                // every later digit only makes the value larger
                crate::decimal::lemma_val_concat(digit_values(post), digit_values(d).subrange(
                    post.len() as int,
                    d.len() as int,
                ));
                assert(digit_values(post) + digit_values(d).subrange(post.len() as int, d.len() as int)
                    =~= digit_values(d));
                crate::decimal::lemma_pow10_pos((d.len() - post.len()) as nat);
                assert(val(digit_values(post)) == v * 10 + dv);
                assert(v * 10 + dv > usize::MAX) by (nonlinear_arith)
                    requires
                        v > (usize::MAX - dv) / 10,
                        dv <= 9,
                ;
                let q = crate::decimal::pow10((d.len() - post.len()) as nat);
                assert(val(digit_values(post)) * q >= val(digit_values(post))) by (nonlinear_arith)
                    requires
                        q >= 1,
                ;
            }
            return None;
        }
        v = v * 10 + dv;
        i = i + 1;
    }
    assert(d.subrange(0, d.len() as int) =~= d);
    Some(v)
}

fn token_counts_exec(t: &Vec<char>) -> (r: Option<Vec<usize>>)
    ensures
        match r {
            Some(k) => token_counts(t@) == Some(k@.map_values(|x: usize| x as int)),
            None => token_counts(t@) is None,
        },
{
    let mut has_comma = false;
    let mut i: usize = 0;
    while i < t.len()
        invariant
            i <= t@.len(),
            has_comma == t@.subrange(0, i as int).contains(','),
        decreases t@.len() - i,
    {
        let ghost pre = t@.subrange(0, i as int);
        let ghost post = t@.subrange(0, i + 1);
        assert(post =~= pre.push(t@[i as int]));
        if t[i] == ',' {
            has_comma = true;
            assert(post[i as int] == ',');
        }
        proof {
            if pre.contains(',') {
                let j = choose|j: int| 0 <= j < pre.len() && pre[j] == ',';
                assert(post[j] == ',');
            }
            if post.contains(',') && t@[i as int] != ',' {
                let j = choose|j: int| 0 <= j < post.len() && post[j] == ',';
                assert(pre[j] == ',');
            }
        }
        i = i + 1;
    }
    assert(t@.subrange(0, t@.len() as int) =~= t@);
    let mut k: Vec<usize> = Vec::new();
    if has_comma {
        let parts = split_chars(t, ',');
        let ghost ps = split_on(t@, ',');
        let mut j: usize = 0;
        while j < parts.len()
            invariant
                j <= parts@.len(),
                t@.contains(','),
                ps == split_on(t@, ','),
                parts@.map_values(|v: Vec<char>| v@) == ps,
                k@.len() == j,
                forall|a: int| 0 <= a < j ==> parse_count(#[trigger] ps[a]) == Some(k@[a] as int),
            decreases parts@.len() - j,
        {
            assert(ps[j as int] == parts@[j as int]@);
            match parse_count_exec(&parts[j]) {
                Some(v) => k.push(v),
                None => {
                    assert(parse_count(ps[j as int]) is None);
                    assert(t@.contains(','));
                    return None;
                },
            }
            j = j + 1;
        }
        assert(k@.map_values(|x: usize| x as int) =~= Seq::new(ps.len(), |a: int| parse_count(ps[a])->0));
        Some(k)
    } else {
        let mut j: usize = 0;
        while j < t.len()
            invariant
                j <= t@.len(),
                !t@.contains(','),
                all_digits(t@.subrange(0, j as int)),
                k@.map_values(|x: usize| x as int) =~= digit_values(t@.subrange(0, j as int)).map_values(|d: u8| d as int),
            decreases t@.len() - j,
        {
            let c = t[j];
            if !('0' <= c && c <= '9') {
                assert(!is_digit(t@[j as int]));
                assert(!all_digits(t@));
                return None;
            }
            let ghost kb = k@;
            k.push((c as u32 - 48) as usize);
            proof {
                let tp = t@.subrange(0, j + 1);
                assert(tp.drop_last() =~= t@.subrange(0, j as int));
                assert(digit_values(tp) =~= digit_values(t@.subrange(0, j as int)).push(digit_value(c)));
                assert(k@ =~= kb.push((c as u32 - 48) as usize));
                assert(k@.map_values(|x: usize| x as int) =~= kb.map_values(|x: usize| x as int).push(
                    digit_value(c) as int,
                ));
                assert(digit_values(tp).map_values(|d: u8| d as int) =~= digit_values(
                    t@.subrange(0, j as int),
                ).map_values(|d: u8| d as int).push(digit_value(c) as int));
                assert(((c as u32 - 48) as usize) as int == digit_value(c) as int);
            }
            j = j + 1;
            assert(all_digits(t@.subrange(0, j as int))) by {
                assert forall|a: int| 0 <= a < j implies is_digit(#[trigger] t@.subrange(0, j as int)[a]) by {
                    if a < j - 1 {
                        assert(t@.subrange(0, j as int)[a] == t@.subrange(0, j - 1)[a]);
                    }
                }
            }
        }
        Some(k)
    }
}

fn rotate_row_exec(g: &mut Vec<char>, r: usize, amount: usize)
    requires
        old(g)@.len() == 36,
        r < 6,
    ensures
        final(g)@ == rotate_row(old(g)@, r as int, amount as int),
{
    let a = amount % 6;
    let ghost before = g@;
    let mut temp: Vec<char> = Vec::new();
    let mut c: usize = 0;
    while c < 6
        invariant
            c <= 6,
            g@ == before,
            before.len() == 36,
            r < 6,
            temp@ =~= Seq::new(c as nat, |j: int| before[r * 6 + j]),
        decreases 6 - c,
    {
        temp.push(g[r * 6 + c]);
        c = c + 1;
    }
    let mut c: usize = 0;
    while c < 6
        invariant
            c <= 6,
            a < 6,
            a as int == amount as int % 6,
            r < 6,
            temp@.len() == 6,
            before.len() == 36,
            forall|j: int| 0 <= j < 6 ==> #[trigger] temp@[j] == before[r * 6 + j],
            g@.len() == 36,
            forall|i: int|
                0 <= i < 36 ==> #[trigger] g@[i] == if i / 6 == r && i % 6 < c {
                    rotate_row(before, r as int, amount as int)[i]
                } else {
                    before[i]
                },
        decreases 6 - c,
    {
        g.set(r * 6 + c, temp[(c + 6 - a) % 6]);
        c = c + 1;
    }
    assert(g@ =~= rotate_row(before, r as int, amount as int));
}

fn rotate_column_exec(g: &mut Vec<char>, col: usize, amount: usize)
    requires
        old(g)@.len() == 36,
        col < 6,
    ensures
        final(g)@ == rotate_column(old(g)@, col as int, amount as int),
{
    let a = amount % 6;
    let ghost before = g@;
    let mut temp: Vec<char> = Vec::new();
    let mut r: usize = 0;
    while r < 6
        invariant
            r <= 6,
            g@ == before,
            before.len() == 36,
            col < 6,
            temp@ =~= Seq::new(r as nat, |j: int| before[j * 6 + col]),
        decreases 6 - r,
    {
        temp.push(g[r * 6 + col]);
        r = r + 1;
    }
    let mut r: usize = 0;
    while r < 6
        invariant
            r <= 6,
            a < 6,
            a as int == amount as int % 6,
            col < 6,
            temp@.len() == 6,
            before.len() == 36,
            forall|j: int| 0 <= j < 6 ==> #[trigger] temp@[j] == before[j * 6 + col],
            g@.len() == 36,
            forall|i: int|
                0 <= i < 36 ==> #[trigger] g@[i] == if i % 6 == col && i / 6 < r {
                    rotate_column(before, col as int, amount as int)[i]
                } else {
                    before[i]
                },
        decreases 6 - r,
    {
        g.set(r * 6 + col, temp[(r + 6 - a) % 6]);
        r = r + 1;
    }
    assert(g@ =~= rotate_column(before, col as int, amount as int));
}

fn apply_counts_exec(g: &mut Vec<char>, k: &Vec<usize>)
    requires
        old(g)@.len() == 36,
    ensures
        final(g)@ == apply_counts(old(g)@, k@.map_values(|x: usize| x as int), k@.len() as int),
{
    let ghost start = g@;
    let ghost kk = k@.map_values(|x: usize| x as int);
    let mut i: usize = 0;
    while i < k.len()
        invariant
            i <= k@.len(),
            kk == k@.map_values(|x: usize| x as int),
            g@ == apply_counts(start, kk, i as int),
            g@.len() == 36,
        decreases k@.len() - i,
    {
        if i < 6 {
            rotate_row_exec(g, i, k[i]);
        } else {
            rotate_column_exec(g, (i - 6) % 6, k[i]);
        }
        i = i + 1;
    }
}

fn render_exec(g: &Vec<char>, out: &mut Vec<char>)
    requires
        g@.len() == 36,
    ensures
        final(out)@ == old(out)@ + render(g@),
{
    let ghost base = out@;
    let mut i: usize = 0;
    while i < 84
        invariant
            i <= 84,
            g@.len() == 36,
            out@ =~= base + render(g@).subrange(0, i as int),
        decreases 84 - i,
    {
        let j = i % 14;
        let c = if j == 0 {
            '\\'
        } else if j == 1 {
            'n'
        } else if (j - 2) % 2 == 0 {
            g[(i / 14) * 6 + (j - 2) / 2]
        } else {
            ' '
        };
        out.push(c);
        i = i + 1;
    }
}

/// Rotate the grid by the counts of each space-separated token of `src` and show the grid
/// before and after. `None` when a token does not parse. The key is not used.
pub fn numbers_III_(src: &str, key: Option<&str>) -> (r: Option<String>)
    ensures
        match r {
            Some(t) => grid_text(src@) == Some(t@),
            None => grid_text(src@) is None,
        },
{
    let start = chars_of("abcdefghijqlmnopqrstuvwxyz1234567890");
    proof {
        reveal_strlit("abcdefghijqlmnopqrstuvwxyz1234567890");
    }
    let mut g = start.clone();
    let s = chars_of(src);
    let tokens = split_chars(&s, ' ');
    let ghost ts = split_on(s@, ' ');
    let mut i: usize = 0;
    while i < tokens.len()
        invariant
            i <= tokens@.len(),
            tokens@.map_values(|v: Vec<char>| v@) == ts,
            ts == split_on(src@, ' '),
            start@ == start_grid(),
            apply_tokens(start_grid(), ts, i as int) == Some(g@),
            g@.len() == 36,
        decreases tokens@.len() - i,
    {
        assert(ts[i as int] == tokens@[i as int]@);
        match token_counts_exec(&tokens[i]) {
            Some(k) => apply_counts_exec(&mut g, &k),
            None => {
                proof {
                    let n = i + 1;
                    assert(apply_tokens(start_grid(), ts, n as int) is None);
                    lemma_none_stays(start_grid(), ts, n as int, ts.len() as int);
                }
                return None;
            },
        }
        i = i + 1;
    }
    let mut out = chars_of("Original Grid:");
    render_exec(&start, &mut out);
    let mid = chars_of(" \\n \\nEncrypted Grid after Rotating");
    let mut j: usize = 0;
    let ghost base = out@;
    while j < mid.len()
        invariant
            j <= mid@.len(),
            out@ =~= base + mid@.subrange(0, j as int),
        decreases mid@.len() - j,
    {
        out.push(mid[j]);
        j = j + 1;
    }
    render_exec(&g, &mut out);
    assert(mid@.subrange(0, mid@.len() as int) =~= mid@);
    Some(string_of(&out))
}

proof fn lemma_none_stays(g: Seq<char>, ts: Seq<Seq<char>>, n: int, m: int)
    requires
        apply_tokens(g, ts, n) is None,
        n <= m,
    ensures
        apply_tokens(g, ts, m) is None,
    decreases m - n,
{
    if n < m {
        lemma_none_stays(g, ts, n, m - 1);
    }
}

} // verus!
