//! Reading the text replies of a media player's remote-control channel.
use vstd::prelude::*;

verus! {

/// ASCII whitespace: space, tab, line feed, form feed, carriage return.
pub open spec fn is_blank(b: u8) -> bool {
    b == 32 || b == 9 || b == 10 || b == 12 || b == 13
}

pub open spec fn is_digit(b: u8) -> bool {
    48 <= b <= 57
}

pub open spec fn all_digits(d: Seq<u8>) -> bool {
    forall|k: int| 0 <= k < d.len() ==> is_digit(#[trigger] d[k])
}

/// The number that a string of decimal digits spells.
pub open spec fn digits_value(d: Seq<u8>) -> nat
    decreases d.len(),
{
    if d.len() == 0 {
        0
    } else {
        digits_value(d.drop_last()) * 10 + (d.last() - 48) as nat
    }
}

/// A token without its leading `+`, if it has one.
pub open spec fn unsigned_part(t: Seq<u8>) -> Seq<u8> {
    if t.len() > 0 && t[0] == 43 {
        t.drop_first()
    } else {
        t
    }
}

/// The unsigned number a token spells: an optional `+` followed by at least
/// one digit and nothing else, of a value that fits a `usize`.
pub open spec fn usize_value(t: Seq<u8>) -> Option<nat> {
    let d = unsigned_part(t);
    if d.len() > 0 && all_digits(d) && digits_value(d) <= usize::MAX {
        Some(digits_value(d))
    } else {
        None
    }
}

pub open spec fn as_nat(r: Option<usize>) -> Option<nat> {
    match r {
        Some(v) => Some(v as nat),
        None => None,
    }
}

proof fn lemma_digits_prefix_le(d: Seq<u8>, k: int)
    requires
        all_digits(d),
        0 <= k <= d.len(),
    ensures
        digits_value(d.take(k)) <= digits_value(d),
    decreases d.len() - k,
{
    if k < d.len() {
        lemma_digits_prefix_le(d, k + 1);
        assert(d.take(k + 1).drop_last() =~= d.take(k));
    } else {
        assert(d.take(k) =~= d);
    }
}

/// Reads the unsigned number spelled by `s[a..b]`.
pub fn parse_usize(s: &Vec<u8>, a: usize, b: usize) -> (r: Option<usize>)
    requires
        a <= b <= s@.len(),
    ensures
        as_nat(r) == usize_value(s@.subrange(a as int, b as int)),
{
    let ghost t = s@.subrange(a as int, b as int);
    let mut start = a;
    if start < b && s[start] == 43 {
        start = start + 1;
    }
    let ghost d = s@.subrange(start as int, b as int);
    assert(d =~= unsigned_part(t));
    if start == b {
        return None;
    }
    let mut v: usize = 0;
    let mut i: usize = start;
    while i < b
        invariant
            start <= i <= b <= s@.len(),
            d == s@.subrange(start as int, b as int),
            t == s@.subrange(a as int, b as int),
            d == unsigned_part(t),
            d.len() > 0,
            all_digits(d.take(i - start)),
            v as nat == digits_value(d.take(i - start)),
        decreases b - i,
    {
        let c = s[i];
        assert(d[i - start] == c);
        if c < 48 || c > 57 {
            assert(!is_digit(d[i - start]));
            return None;
        }
        assert(d.take(i - start + 1).drop_last() =~= d.take(i - start));
        assert(digits_value(d.take(i - start + 1)) == v * 10 + (c - 48) as nat);
        let next = match v.checked_mul(10) {
            Some(m) => m.checked_add((c - 48) as usize),
            None => None,
        };
        match next {
            Some(nv) => {
                v = nv;
            },
            None => {
                proof {
                    if all_digits(d) {
                        lemma_digits_prefix_le(d, i - start + 1);
                    }
                }
                return None;
            },
        }
        i = i + 1;
    }
    assert(d.take(i - start) =~= d);
    Some(v)
}

/// `s[a..b]` is a whitespace-separated token of `s`.
pub open spec fn is_token(s: Seq<u8>, a: int, b: int) -> bool {
    &&& 0 <= a < b <= s.len()
    &&& a == 0 || is_blank(s[a - 1])
    &&& b == s.len() || is_blank(s[b])
    &&& forall|k: int| a <= k < b ==> !is_blank(#[trigger] s[k])
}

/// The token of `s` that starts at `a` spells a number.
pub open spec fn is_number_token(s: Seq<u8>, a: int, b: int) -> bool {
    is_token(s, a, b) && usize_value(s.subrange(a, b)) is Some
}

/// `s[a..b]` is the earliest token of `s` that spells a number.
pub open spec fn is_first_number_token(s: Seq<u8>, a: int, b: int) -> bool {
    is_number_token(s, a, b) && forall|a2: int, b2: int| #[trigger]
        is_number_token(s, a2, b2) ==> a <= a2
}

/// The number spelled by the earliest token of `s` that spells one.
pub open spec fn first_number(s: Seq<u8>) -> Option<nat> {
    if exists|a: int, b: int| is_first_number_token(s, a, b) {
        let (a, b) = choose|a: int, b: int| is_first_number_token(s, a, b);
        usize_value(s.subrange(a, b))
    } else {
        None
    }
}

/// Reads the first whitespace-separated token of a reply line that spells an
/// unsigned number (a line such as `> 1`).
pub fn parse_vlc_response_to_usize(line: &Vec<u8>) -> (r: Option<usize>)
    ensures
        as_nat(r) == first_number(line@),
        r is None ==> forall|a: int, b: int| !#[trigger] is_number_token(line@, a, b),
        r is Some ==> exists|a: int, b: int|
            #[trigger] is_number_token(line@, a, b) && as_nat(r) == usize_value(
                line@.subrange(a, b),
            ) && forall|a2: int, b2: int| #[trigger]
                is_number_token(line@, a2, b2) ==> a <= a2,
{
    let ghost s = line@;
    let n = line.len();
    let mut i: usize = 0;
    while i < n
        invariant
            n == s.len(),
            s == line@,
            i <= n,
            i == 0 || i == n || is_blank(s[i - 1]),
            forall|a: int, b: int| #[trigger] is_number_token(s, a, b) ==> a >= i,
        decreases n - i,
    {
        if line[i] == 32 || line[i] == 9 || line[i] == 10 || line[i] == 12 || line[i] == 13 {
            assert(is_blank(s[i as int]));
            i = i + 1;
        } else {
            let mut j: usize = i + 1;
            while j < n && !(line[j] == 32 || line[j] == 9 || line[j] == 10 || line[j] == 12
                || line[j] == 13)
                invariant
                    i < j <= n,
                    n == s.len(),
                    s == line@,
                    forall|k: int| i <= k < j ==> !is_blank(#[trigger] s[k]),
                decreases n - j,
            {
                j = j + 1;
            }
            assert(is_token(s, i as int, j as int));
            let p = parse_usize(line, i, j);
            proof {
                assert forall|a: int, b: int| #[trigger] is_token(s, a, b) && a == i implies b
                    == j by {
                    if b < j {
                        assert(!is_blank(s[b]));
                    }
                    if b > j {
                        assert(is_blank(s[j as int]));
                    }
                }
            }
            if p.is_some() {
                assert(is_number_token(s, i as int, j as int));
                proof {
                    assert(is_first_number_token(s, i as int, j as int));
                    let (a, b) = choose|a: int, b: int| is_first_number_token(s, a, b);
                    assert(a <= i);
                    assert(is_token(s, a, b) && a == i);
                }
                return p;
            }
            proof {
                assert forall|a: int, b: int| #[trigger] is_number_token(s, a, b) implies a
                    > j by {
                    if a <= j && a > i {
                        assert(!is_blank(s[a - 1]));
                    }
                    if a == j && j < n {
                        assert(is_blank(s[j as int]));
                    }
                }
            }
            if j == n {
                i = n;
            } else {
                assert(is_blank(s[j as int]));
                i = j + 1;
            }
        }
    }
    proof {
        if exists|a: int, b: int| is_first_number_token(s, a, b) {
            let (a, b) = choose|a: int, b: int| is_first_number_token(s, a, b);
            assert(is_number_token(s, a, b));
        }
    }
    None
}

/// `needle` occurs in `hay` starting at `p`.
pub open spec fn occurs_at(hay: Seq<u8>, needle: Seq<u8>, p: int) -> bool {
    0 <= p && p + needle.len() <= hay.len() && hay.subrange(p, p + needle.len()) == needle
}

pub open spec fn contains_bytes(hay: Seq<u8>, needle: Seq<u8>) -> bool {
    exists|p: int| occurs_at(hay, needle, p)
}

/// Whether `needle` occurs in `s[a..b]`.
pub fn contains_in(s: &Vec<u8>, a: usize, b: usize, needle: &Vec<u8>) -> (r: bool)
    requires
        a <= b <= s@.len(),
    ensures
        r == contains_bytes(s@.subrange(a as int, b as int), needle@),
{
    let ghost hay = s@.subrange(a as int, b as int);
    let m = needle.len();
    if m > b - a {
        return false;
    }
    let mut p: usize = a;
    while p <= b - m
        invariant
            a <= p <= b - m + 1,
            m == needle@.len(),
            m <= b - a,
            b <= s@.len(),
            hay == s@.subrange(a as int, b as int),
            forall|q: int| 0 <= q < p - a ==> !#[trigger] occurs_at(hay, needle@, q),
        decreases b - p,
    {
        let mut k: usize = 0;
        while k < m && s[p + k] == needle[k]
            invariant
                k <= m,
                p + m <= b <= s@.len(),
                m == needle@.len(),
                forall|q: int| 0 <= q < k ==> s@[p + q] == needle@[q],
            decreases m - k,
        {
            k = k + 1;
        }
        if k == m {
            assert(hay.subrange(p - a, p - a + m) =~= needle@);
            assert(occurs_at(hay, needle@, p - a));
            return true;
        }
        assert(hay.subrange(p - a, p - a + m)[k as int] != needle@[k as int]);
        p = p + 1;
    }
    false
}

/// A line ending at `e` (a line feed, or the end): its text, without a carriage
/// return just before the line feed.
pub open spec fn line_text(s: Seq<u8>, a: int, e: int) -> Seq<u8> {
    if e < s.len() && e > a && s[e - 1] == 13 {
        s.subrange(a, e - 1)
    } else {
        s.subrange(a, e)
    }
}

/// The first line of `s` that holds `marker`, scanning from index `i` inside a
/// line that starts at `a`. Lines end at line feeds; text after the last one
/// is a line when it is not empty.
pub open spec fn find_line(s: Seq<u8>, a: int, i: int, marker: Seq<u8>) -> Option<Seq<u8>>
    decreases s.len() - i,
{
    if i >= s.len() {
        if a < s.len() && contains_bytes(s.subrange(a, s.len() as int), marker) {
            Some(s.subrange(a, s.len() as int))
        } else {
            None
        }
    } else if s[i] == 10 {
        if contains_bytes(line_text(s, a, i), marker) {
            Some(line_text(s, a, i))
        } else {
            find_line(s, i + 1, i + 1, marker)
        }
    } else {
        find_line(s, a, i + 1, marker)
    }
}

/// Bounds of the first line of `s` that holds `marker`.
fn find_line_with(s: &Vec<u8>, marker: &Vec<u8>) -> (r: Option<(usize, usize)>)
    ensures
        r is None <==> find_line(s@, 0, 0, marker@) is None,
        r is Some ==> r->Some_0.0 <= r->Some_0.1 <= s@.len() && find_line(s@, 0, 0, marker@)
            == Some(s@.subrange(r->Some_0.0 as int, r->Some_0.1 as int)),
{
    let n = s.len();
    let mut a: usize = 0;
    let mut i: usize = 0;
    while i < n
        invariant
            n == s@.len(),
            a <= i <= n,
            find_line(s@, 0, 0, marker@) == find_line(s@, a as int, i as int, marker@),
        decreases n - i,
    {
        if s[i] == 10 {
            let e = if i > a && s[i - 1] == 13 { i - 1 } else { i };
            assert(s@.subrange(a as int, e as int) == line_text(s@, a as int, i as int));
            if contains_in(s, a, e, marker) {
                return Some((a, e));
            }
            a = i + 1;
        }
        i = i + 1;
    }
    if a < n && contains_in(s, a, n, marker) {
        Some((a, n))
    } else {
        None
    }
}

/// Start of the text after the last `sep` of `t`; 0 when it has none.
pub open spec fn after_last(t: Seq<u8>, sep: u8) -> int
    decreases t.len(),
{
    if t.len() == 0 {
        0
    } else if t.last() == sep {
        t.len() as int
    } else {
        after_last(t.drop_last(), sep)
    }
}

/// `t` with every space taken out.
pub open spec fn drop_spaces(t: Seq<u8>) -> Seq<u8>
    decreases t.len(),
{
    if t.len() == 0 {
        t
    } else if t.last() == 32 {
        drop_spaces(t.drop_last())
    } else {
        drop_spaces(t.drop_last()).push(t.last())
    }
}

/// The value field of a `name : value` line: what follows its last colon,
/// spaces taken out.
pub open spec fn field_text(t: Seq<u8>) -> Seq<u8> {
    drop_spaces(t.subrange(after_last(t, 58), t.len() as int))
}

/// Index in `s` where the text after the last `sep` of `s[a..b]` starts.
fn after_last_index(s: &Vec<u8>, a: usize, b: usize, sep: u8) -> (c: usize)
    requires
        a <= b <= s@.len(),
    ensures
        a <= c <= b,
        c - a == after_last(s@.subrange(a as int, b as int), sep),
{
    let ghost t = s@.subrange(a as int, b as int);
    let mut c: usize = b;
    while c > a && s[c - 1] != sep
        invariant
            a <= c <= b <= s@.len(),
            t == s@.subrange(a as int, b as int),
            after_last(t, sep) == after_last(s@.subrange(a as int, c as int), sep),
        decreases c,
    {
        assert(s@.subrange(a as int, c - 1) =~= s@.subrange(a as int, c as int).drop_last());
        c = c - 1;
    }
    proof {
        if c > a {
            assert(s@.subrange(a as int, c as int).last() == sep);
        }
    }
    c
}

fn field_of(s: &Vec<u8>, a: usize, b: usize) -> (r: Vec<u8>)
    requires
        a <= b <= s@.len(),
    ensures
        r@ == field_text(s@.subrange(a as int, b as int)),
{
    let ghost t = s@.subrange(a as int, b as int);
    let c = after_last_index(s, a, b, 58);
    let mut out: Vec<u8> = Vec::new();
    let mut k: usize = c;
    while k < b
        invariant
            c <= k <= b <= s@.len(),
            out@ == drop_spaces(s@.subrange(c as int, k as int)),
        decreases b - k,
    {
        assert(s@.subrange(c as int, k + 1).drop_last() =~= s@.subrange(c as int, k as int));
        if s[k] != 32 {
            out.push(s[k]);
        }
        k = k + 1;
    }
    assert(t.subrange(after_last(t, 58), t.len() as int) =~= s@.subrange(c as int, b as int));
    out
}

/// Ten to the power `k`.
pub open spec fn pow10(k: nat) -> nat
    decreases k,
{
    if k == 0 {
        1
    } else {
        10 * pow10((k - 1) as nat)
    }
}

/// Index of the first `.` in `u`, or its length when it has none.
pub open spec fn first_dot(u: Seq<u8>) -> int
    decreases u.len(),
{
    if u.len() == 0 {
        0
    } else if u[0] == 46 {
        0
    } else {
        1 + first_dot(u.drop_first())
    }
}

/// A plain decimal number, `digits`, `digits.digits`, `.digits` or `digits.`,
/// with an optional leading `+`, as a pair `(m, 10^k)` whose quotient is its
/// value (`23.976` gives `(23976, 1000)`).
pub open spec fn decimal_ratio(t: Seq<u8>) -> Option<(nat, nat)> {
    let u = unsigned_part(t);
    let p = first_dot(u);
    let whole = u.take(p);
    let frac = if p < u.len() {
        u.skip(p + 1)
    } else {
        Seq::empty()
    };
    if all_digits(whole) && all_digits(frac) && whole.len() + frac.len() > 0 {
        Some((digits_value(whole + frac), pow10(frac.len())))
    } else {
        None
    }
}

proof fn lemma_first_dot(u: Seq<u8>, i: int)
    requires
        0 <= i <= u.len(),
        forall|k: int| 0 <= k < i ==> u[k] != 46,
        i == u.len() || u[i] == 46,
    ensures
        first_dot(u) == i,
    decreases i,
{
    if i > 0 {
        lemma_first_dot(u.drop_first(), i - 1);
    }
}

proof fn lemma_digits_concat(x: Seq<u8>, y: Seq<u8>)
    ensures
        digits_value(x + y) == digits_value(x) * pow10(y.len()) + digits_value(y),
    decreases y.len(),
{
    if y.len() == 0 {
        assert(x + y =~= x);
        assert(pow10(0) == 1);
    } else {
        assert((x + y).drop_last() =~= x + y.drop_last());
        assert((x + y).last() == y.last());
        lemma_digits_concat(x, y.drop_last());
        let dx = digits_value(x);
        let p = pow10((y.len() - 1) as nat);
        let dy = digits_value(y.drop_last());
        assert((dx * p + dy) * 10 == dx * (10 * p) + dy * 10) by (nonlinear_arith);
        assert(pow10(y.len()) == 10 * p);
        assert(digits_value(y) == dy * 10 + (y.last() - 48) as nat);
        assert(digits_value(x + y) == digits_value(x + y.drop_last()) * 10 + (y.last() - 48) as nat);
    }
}

/// Reads the digits `s[a..b]` as a number that fits a `u128`.
fn digits_u128(s: &Vec<u8>, a: usize, b: usize) -> (r: Option<u128>)
    requires
        a <= b <= s@.len(),
    ensures
        r is Some <==> all_digits(s@.subrange(a as int, b as int)) && digits_value(
            s@.subrange(a as int, b as int),
        ) <= u128::MAX,
        r is Some ==> r->Some_0 as nat == digits_value(s@.subrange(a as int, b as int)),
{
    let ghost d = s@.subrange(a as int, b as int);
    let mut v: u128 = 0;
    let mut i: usize = a;
    while i < b
        invariant
            a <= i <= b <= s@.len(),
            d == s@.subrange(a as int, b as int),
            all_digits(d.take(i - a)),
            v as nat == digits_value(d.take(i - a)),
        decreases b - i,
    {
        let c = s[i];
        assert(d[i - a] == c);
        if c < 48 || c > 57 {
            assert(!is_digit(d[i - a]));
            return None;
        }
        assert(d.take(i - a + 1).drop_last() =~= d.take(i - a));
        assert(digits_value(d.take(i - a + 1)) == v * 10 + (c - 48) as nat);
        let next = match v.checked_mul(10) {
            Some(m) => m.checked_add((c - 48) as u128),
            None => None,
        };
        match next {
            Some(nv) => {
                v = nv;
            },
            None => {
                proof {
                    if all_digits(d) {
                        lemma_digits_prefix_le(d, i - a + 1);
                    }
                }
                return None;
            },
        }
        i = i + 1;
    }
    assert(d.take(i - a) =~= d);
    Some(v)
}

/// Reads a plain decimal number as the pair that `decimal_ratio` gives, when
/// both parts fit a `u128`.
pub fn parse_decimal(t: &Vec<u8>) -> (r: Option<(u128, u128)>)
    ensures
        r is Some <==> decimal_ratio(t@) is Some && decimal_ratio(t@)->Some_0.0 <= u128::MAX
            && decimal_ratio(t@)->Some_0.1 <= u128::MAX,
        r is Some ==> r->Some_0.0 as nat == decimal_ratio(t@)->Some_0.0 && r->Some_0.1 as nat
            == decimal_ratio(t@)->Some_0.1 && r->Some_0.1 >= 1,
{
    let n = t.len();
    let mut start: usize = 0;
    if n > 0 && t[0] == 43 {
        start = 1;
    }
    let ghost u = t@.subrange(start as int, n as int);
    assert(u =~= unsigned_part(t@));
    let mut p: usize = start;
    while p < n && t[p] != 46
        invariant
            start <= p <= n == t@.len(),
            u == t@.subrange(start as int, n as int),
            forall|k: int| start <= k < p ==> t@[k] != 46,
        decreases n - p,
    {
        p = p + 1;
    }
    proof {
        lemma_first_dot(u, p - start);
    }
    let frac_start = if p < n { p + 1 } else { n };
    let ghost whole = u.take(p - start);
    let ghost frac = if p < n { u.skip(p - start + 1) } else { Seq::<u8>::empty() };
    assert(whole =~= t@.subrange(start as int, p as int));
    assert(frac =~= t@.subrange(frac_start as int, n as int));
    if p - start + (n - frac_start) == 0 {
        return None;
    }
    let w = digits_u128(t, start, p);
    let f = digits_u128(t, frac_start, n);
    proof {
        lemma_digits_concat(whole, frac);
    }
    match (w, f) {
        (Some(wv), Some(fv)) => {
            let scale = match pow10_u128(n - frac_start) {
                Some(sc) => sc,
                None => {
                    return None;
                },
            };
            proof {
                assert((wv as nat) * (scale as nat) <= (wv as nat) * (scale as nat) + fv);
            }
            match wv.checked_mul(scale) {
                Some(m) => match m.checked_add(fv) {
                    Some(mant) => Some((mant, scale)),
                    None => None,
                },
                None => None,
            }
        },
        _ => {
            proof {
                if all_digits(whole) && all_digits(frac) {
                    if w is None {
                        lemma_value_at_least_part(whole, frac, true);
                    } else {
                        lemma_value_at_least_part(whole, frac, false);
                    }
                }
            }
            None
        },
    }
}

fn pow10_u128(k: usize) -> (r: Option<u128>)
    ensures
        r is Some <==> pow10(k as nat) <= u128::MAX,
        r is Some ==> r->Some_0 as nat == pow10(k as nat) && r->Some_0 >= 1,
{
    proof {
        lemma_pow10_positive(k as nat);
    }
    let mut scale: u128 = 1;
    let mut i: usize = 0;
    while i < k
        invariant
            i <= k,
            scale as nat == pow10(i as nat),
        decreases k - i,
    {
        assert(pow10((i + 1) as nat) == scale * 10);
        match scale.checked_mul(10) {
            Some(ns) => {
                scale = ns;
            },
            None => {
                proof {
                    lemma_pow10_grows((i + 1) as nat, k as nat);
                }
                return None;
            },
        }
        i = i + 1;
    }
    Some(scale)
}

proof fn lemma_pow10_grows(a: nat, b: nat)
    requires
        a <= b,
    ensures
        pow10(a) <= pow10(b),
    decreases b - a,
{
    if a < b {
        lemma_pow10_grows(a + 1, b);
    }
}

proof fn lemma_pow10_positive(k: nat)
    ensures
        pow10(k) >= 1,
    decreases k,
{
    if k > 0 {
        lemma_pow10_positive((k - 1) as nat);
    }
}

proof fn lemma_value_at_least_part(x: Seq<u8>, y: Seq<u8>, first: bool)
    ensures
        digits_value(x + y) >= if first {
            digits_value(x)
        } else {
            digits_value(y)
        },
{
    lemma_digits_concat(x, y);
    lemma_pow10_positive(y.len());
    let dx = digits_value(x);
    let p = pow10(y.len());
    assert(dx * p >= dx) by (nonlinear_arith)
        requires p >= 1;
}

/// `frames displayed`
pub open spec fn displayed_marker() -> Seq<u8> {
    seq![102u8, 114, 97, 109, 101, 115, 32, 100, 105, 115, 112, 108, 97, 121, 101, 100]
}

/// `frames lost`
pub open spec fn lost_marker() -> Seq<u8> {
    seq![102u8, 114, 97, 109, 101, 115, 32, 108, 111, 115, 116]
}

/// `Frame rate`
pub open spec fn frame_rate_marker() -> Seq<u8> {
    seq![70u8, 114, 97, 109, 101, 32, 114, 97, 116, 101]
}

fn displayed_marker_bytes() -> (r: Vec<u8>)
    ensures
        r@ == displayed_marker(),
{
    let r = vec![102u8, 114, 97, 109, 101, 115, 32, 100, 105, 115, 112, 108, 97, 121, 101, 100];
    assert(r@ =~= displayed_marker());
    r
}

fn lost_marker_bytes() -> (r: Vec<u8>)
    ensures
        r@ == lost_marker(),
{
    let r = vec![102u8, 114, 97, 109, 101, 115, 32, 108, 111, 115, 116];
    assert(r@ =~= lost_marker());
    r
}

fn frame_rate_marker_bytes() -> (r: Vec<u8>)
    ensures
        r@ == frame_rate_marker(),
{
    let r = vec![70u8, 114, 97, 109, 101, 32, 114, 97, 116, 101];
    assert(r@ =~= frame_rate_marker());
    r
}

/// Whether an accumulated reply to `stats` and `info` holds all three lines
/// that the position is computed from.
pub fn position_reply_complete(reply: &Vec<u8>) -> (r: bool)
    ensures
        r == (contains_bytes(reply@, displayed_marker()) && contains_bytes(reply@, lost_marker())
            && contains_bytes(reply@, frame_rate_marker())),
{
    let n = reply.len();
    assert(reply@.subrange(0, n as int) =~= reply@);
    contains_in(reply, 0, n, &displayed_marker_bytes()) && contains_in(
        reply,
        0,
        n,
        &lost_marker_bytes(),
    ) && contains_in(reply, 0, n, &frame_rate_marker_bytes())
}

/// The unsigned number in the value field of the first line holding `marker`.
pub open spec fn line_field_usize(s: Seq<u8>, marker: Seq<u8>) -> Option<nat> {
    match find_line(s, 0, 0, marker) {
        Some(t) => usize_value(field_text(t)),
        None => None,
    }
}

/// The decimal number in the value field of the first line holding `marker`.
pub open spec fn line_field_decimal(s: Seq<u8>, marker: Seq<u8>) -> Option<(nat, nat)> {
    match find_line(s, 0, 0, marker) {
        Some(t) => decimal_ratio(field_text(t)),
        None => None,
    }
}

/// The playback position in milliseconds that a reply to `stats` and `info`
/// gives: frames shown plus frames lost, over the frame rate, rounded down.
/// `None` when a line is missing or malformed, the frame rate is zero, or the
/// numbers are too large for the computation.
pub open spec fn reply_position_millis(s: Seq<u8>) -> Option<nat> {
    match (
        line_field_usize(s, displayed_marker()),
        line_field_usize(s, lost_marker()),
        line_field_decimal(s, frame_rate_marker()),
    ) {
        (Some(shown), Some(lost), Some(rate)) => {
            let scaled = (shown + lost) * 1000 * rate.1;
            if rate.0 == 0 || rate.0 > u128::MAX || rate.1 > u128::MAX || scaled > u128::MAX
                || scaled / rate.0 > usize::MAX {
                None
            } else {
                Some(scaled / rate.0)
            }
        },
        _ => None,
    }
}

fn field_usize(reply: &Vec<u8>, marker: &Vec<u8>) -> (r: Option<usize>)
    ensures
        as_nat(r) == line_field_usize(reply@, marker@),
{
    match find_line_with(reply, marker) {
        Some((a, b)) => {
            let f = field_of(reply, a, b);
            let n = f.len();
            assert(f@.subrange(0, n as int) =~= f@);
            parse_usize(&f, 0, n)
        },
        None => None,
    }
}

fn field_decimal(reply: &Vec<u8>, marker: &Vec<u8>) -> (r: Option<(u128, u128)>)
    ensures
        r is Some <==> line_field_decimal(reply@, marker@) is Some && line_field_decimal(
            reply@,
            marker@,
        )->Some_0.0 <= u128::MAX && line_field_decimal(reply@, marker@)->Some_0.1 <= u128::MAX,
        r is Some ==> r->Some_0.0 as nat == line_field_decimal(reply@, marker@)->Some_0.0
            && r->Some_0.1 as nat == line_field_decimal(reply@, marker@)->Some_0.1,
{
    match find_line_with(reply, marker) {
        Some((a, b)) => {
            let f = field_of(reply, a, b);
            parse_decimal(&f)
        },
        None => None,
    }
}

/// Reads the playback position, in milliseconds, from the accumulated reply to
/// the `stats` and `info` commands.
pub fn current_time_millis(reply: &Vec<u8>) -> (r: Option<usize>)
    ensures
        as_nat(r) == reply_position_millis(reply@),
{
    let shown = field_usize(reply, &displayed_marker_bytes());
    let lost = field_usize(reply, &lost_marker_bytes());
    let rate = field_decimal(reply, &frame_rate_marker_bytes());
    match (shown, lost, rate) {
        (Some(d), Some(l), Some((mant, scale))) => {
            if mant == 0 {
                return None;
            }
            let frames = (d as u128) + (l as u128);
            let scaled = match frames.checked_mul(1000) {
                Some(x) => x.checked_mul(scale),
                None => {
                    proof {
                        assert((frames as nat) * 1000 * (scale as nat) >= (frames as nat) * 1000)
                            by (nonlinear_arith)
                            requires scale >= 1;
                    }
                    None
                },
            };
            match scaled {
                Some(x) => {
                    let q = x / mant;
                    if q > usize::MAX as u128 {
                        None
                    } else {
                        Some(q as usize)
                    }
                },
                None => None,
            }
        },
        _ => None,
    }
}

/// `t` without its trailing whitespace.
pub open spec fn trim_end(t: Seq<u8>) -> Seq<u8>
    decreases t.len(),
{
    if t.len() > 0 && is_blank(t.last()) {
        trim_end(t.drop_last())
    } else {
        t
    }
}

/// `t` without its leading whitespace.
pub open spec fn trim_start(t: Seq<u8>) -> Seq<u8>
    decreases t.len(),
{
    if t.len() > 0 && is_blank(t[0]) {
        trim_start(t.drop_first())
    } else {
        t
    }
}

/// The value of a probe's output line, `key=value` or a bare `value`: what
/// follows its last `=`, without surrounding whitespace.
pub open spec fn probe_value(t: Seq<u8>) -> Seq<u8> {
    trim_start(trim_end(t.subrange(after_last(t, 61), t.len() as int)))
}

fn probe_value_bounds(s: &Vec<u8>) -> (r: (usize, usize))
    ensures
        r.0 <= r.1 <= s@.len(),
        s@.subrange(r.0 as int, r.1 as int) == probe_value(s@),
{
    let n = s.len();
    assert(s@.subrange(0, n as int) =~= s@);
    let c = after_last_index(s, 0, n, 61);
    let ghost v = s@.subrange(c as int, n as int);
    let mut e: usize = n;
    while e > c && (s[e - 1] == 32 || s[e - 1] == 9 || s[e - 1] == 10 || s[e - 1] == 12 || s[e
        - 1] == 13)
        invariant
            c <= e <= n == s@.len(),
            v == s@.subrange(c as int, n as int),
            trim_end(v) == trim_end(s@.subrange(c as int, e as int)),
        decreases e,
    {
        assert(s@.subrange(c as int, e - 1) =~= s@.subrange(c as int, e as int).drop_last());
        e = e - 1;
    }
    proof {
        if e > c {
            assert(s@.subrange(c as int, e as int).last() == s@[e - 1]);
        }
    }
    let ghost w = s@.subrange(c as int, e as int);
    assert(trim_end(v) == w);
    let mut a: usize = c;
    while a < e && (s[a] == 32 || s[a] == 9 || s[a] == 10 || s[a] == 12 || s[a] == 13)
        invariant
            c <= a <= e <= n == s@.len(),
            w == s@.subrange(c as int, e as int),
            trim_start(w) == trim_start(s@.subrange(a as int, e as int)),
        decreases e - a,
    {
        assert(s@.subrange(a + 1, e as int) =~= s@.subrange(a as int, e as int).drop_first());
        a = a + 1;
    }
    proof {
        if a < e {
            assert(s@.subrange(a as int, e as int)[0] == s@[a as int]);
        }
    }
    (a, e)
}

/// The duration in milliseconds that a probe prints as a decimal number of
/// seconds (`2838.919000`, or `duration=2838.919000`), rounded down.
pub open spec fn probe_duration_millis(t: Seq<u8>) -> Option<nat> {
    match decimal_ratio(probe_value(t)) {
        Some(d) => {
            let scaled = d.0 * 1000;
            if d.0 > u128::MAX || d.1 > u128::MAX || scaled > u128::MAX || scaled / d.1
                > usize::MAX {
                None
            } else {
                Some(scaled / d.1)
            }
        },
        None => None,
    }
}

/// Reads a duration printed in seconds by a probe, in milliseconds.
pub fn duration_millis(output: &Vec<u8>) -> (r: Option<usize>)
    ensures
        as_nat(r) == probe_duration_millis(output@),
{
    let (a, b) = probe_value_bounds(output);
    let mut value: Vec<u8> = Vec::new();
    let mut k: usize = a;
    while k < b
        invariant
            a <= k <= b <= output@.len(),
            value@ == output@.subrange(a as int, k as int),
        decreases b - k,
    {
        value.push(output[k]);
        k = k + 1;
        assert(value@ =~= output@.subrange(a as int, k as int));
    }
    match parse_decimal(&value) {
        Some((mant, scale)) => {
            match mant.checked_mul(1000) {
                Some(x) => {
                    let q = x / scale;
                    if q > usize::MAX as u128 {
                        None
                    } else {
                        Some(q as usize)
                    }
                },
                None => None,
            }
        },
        None => None,
    }
}

/// The frame count that a probe prints, when it is an unsigned number.
pub fn frame_count(output: &Vec<u8>) -> (r: Option<usize>)
    ensures
        as_nat(r) == usize_value(probe_value(output@)),
{
    let (a, b) = probe_value_bounds(output);
    parse_usize(output, a, b)
}

} // verus!
