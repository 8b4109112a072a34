//! Text helpers: character-wise equality, lexicographic order, fixed-width
//! decimal numerals, and the `--` separator of log keys.

use vstd::prelude::*;
use vstd::string::StringExecFns;

verus! {

/// Relies on `String::push`, which appends one character.
pub assume_specification[ String::push ](s: &mut String, ch: char)
    ensures
        final(s)@ == old(s)@.push(ch),
;

/// Whether `a` and `b` hold the same characters.
pub fn same_text(a: &str, b: &str) -> (r: bool)
    ensures
        r == (a@ == b@),
{
    let n = a.unicode_len();
    if n != b.unicode_len() {
        return false;
    }
    let mut i: usize = 0;
    while i < n
        invariant
            n == a@.len() == b@.len(),
            i <= n,
            a@.take(i as int) == b@.take(i as int),
        decreases n - i,
    {
        if a.get_char(i) != b.get_char(i) {
            return false;
        }
        assert(a@.take(i as int + 1) =~= a@.take(i as int).push(a@[i as int]));
        assert(b@.take(i as int + 1) =~= b@.take(i as int).push(b@[i as int]));
        i = i + 1;
    }
    assert(a@.take(n as int) =~= a@);
    assert(b@.take(n as int) =~= b@);
    true
}

/// `a` comes strictly before `b` in lexicographic order of code points.
pub open spec fn lex_lt(a: Seq<char>, b: Seq<char>) -> bool
    decreases a.len(),
{
    if b.len() == 0 {
        false
    } else if a.len() == 0 {
        true
    } else if a[0] != b[0] {
        (a[0] as u32) < (b[0] as u32)
    } else {
        lex_lt(a.drop_first(), b.drop_first())
    }
}

/// Lexicographic order is transitive.
pub proof fn lemma_lex_lt_transitive(a: Seq<char>, b: Seq<char>, c: Seq<char>)
    requires
        lex_lt(a, b),
        lex_lt(b, c),
    ensures
        lex_lt(a, c),
    decreases a.len(),
{
    if a.len() > 0 && b.len() > 0 && c.len() > 0 && a[0] == b[0] && b[0] == c[0] {
        lemma_lex_lt_transitive(a.drop_first(), b.drop_first(), c.drop_first());
    }
}

/// Lexicographic order is irreflexive.
pub proof fn lemma_lex_lt_irreflexive(a: Seq<char>)
    ensures
        !lex_lt(a, a),
    decreases a.len(),
{
    if a.len() > 0 {
        lemma_lex_lt_irreflexive(a.drop_first());
    }
}

/// Whether `a` comes strictly before `b` in lexicographic order.
pub fn text_lt(a: &str, b: &str) -> (r: bool)
    ensures
        r == lex_lt(a@, b@),
{
    let n = a.unicode_len();
    let m = b.unicode_len();
    let mut i: usize = 0;
    assert(a@.skip(0) =~= a@);
    assert(b@.skip(0) =~= b@);
    while i < n && i < m
        invariant
            n == a@.len(),
            m == b@.len(),
            i <= n,
            i <= m,
            a@.take(i as int) == b@.take(i as int),
            lex_lt(a@, b@) == lex_lt(a@.skip(i as int), b@.skip(i as int)),
        decreases n - i,
    {
        let x = a.get_char(i);
        let y = b.get_char(i);
        assert(a@.skip(i as int)[0] == x && b@.skip(i as int)[0] == y);
        if x != y {
            return (x as u32) < (y as u32);
        }
        assert(a@.skip(i as int).drop_first() =~= a@.skip(i as int + 1));
        assert(b@.skip(i as int).drop_first() =~= b@.skip(i as int + 1));
        assert(a@.take(i as int + 1) =~= a@.take(i as int).push(x));
        assert(b@.take(i as int + 1) =~= b@.take(i as int).push(y));
        i = i + 1;
    }
    i < m
}

/// The character of the decimal digit `d`.
pub open spec fn digit_char(d: int) -> char {
    if d == 0 {
        '0'
    } else if d == 1 {
        '1'
    } else if d == 2 {
        '2'
    } else if d == 3 {
        '3'
    } else if d == 4 {
        '4'
    } else if d == 5 {
        '5'
    } else if d == 6 {
        '6'
    } else if d == 7 {
        '7'
    } else if d == 8 {
        '8'
    } else {
        '9'
    }
}

pub(crate) fn digit_to_char(d: u64) -> (c: char)
    requires
        d < 10,
    ensures
        c == digit_char(d as int),
{
    if d == 0 {
        '0'
    } else if d == 1 {
        '1'
    } else if d == 2 {
        '2'
    } else if d == 3 {
        '3'
    } else if d == 4 {
        '4'
    } else if d == 5 {
        '5'
    } else if d == 6 {
        '6'
    } else if d == 7 {
        '7'
    } else if d == 8 {
        '8'
    } else {
        '9'
    }
}

/// Number of digits of an event id: enough for every `u64`.
pub const ID_WIDTH: u64 = 20;

pub open spec fn pow10(k: nat) -> nat
    decreases k,
{
    if k == 0 {
        1
    } else {
        10 * pow10((k - 1) as nat)
    }
}

proof fn lemma_pow10_positive(k: nat)
    ensures
        pow10(k) > 0,
    decreases k,
{
    if k > 0 {
        lemma_pow10_positive((k - 1) as nat);
    }
}

/// The `i`-th character (from the left) of `n` written with `ID_WIDTH`
/// decimal digits.
pub open spec fn id_digit(n: u64, i: int) -> char {
    digit_char(((n as nat / pow10((ID_WIDTH - 1 - i) as nat)) % 10) as int)
}

/// `n` as decimal text, zero-padded to `ID_WIDTH` digits.
pub open spec fn id_text(n: u64) -> Seq<char> {
    Seq::new(ID_WIDTH as nat, |i: int| id_digit(n, i))
}

/// `n` as decimal text, zero-padded to `ID_WIDTH` digits.
pub fn format_event_id(n: u64) -> (r: String)
    ensures
        r@ == id_text(n),
{
    let mut r = String::new();
    let mut d: u64 = 10_000_000_000_000_000_000;
    let mut i: u64 = 0;
    assert(pow10(19) == 10_000_000_000_000_000_000) by {
        reveal_with_fuel(pow10, 20);
    }
    while i < ID_WIDTH
        invariant
            i <= ID_WIDTH,
            i < ID_WIDTH ==> d as nat == pow10((ID_WIDTH - 1 - i) as nat),
            r@ == Seq::new(i as nat, |k: int| id_digit(n, k)),
        decreases ID_WIDTH - i,
    {
        proof {
            lemma_pow10_positive((ID_WIDTH - 1 - i) as nat);
        }
        let c = digit_to_char((n / d) % 10);
        r.push(c);
        assert(r@ =~= Seq::new((i + 1) as nat, |k: int| id_digit(n, k)));
        if i + 1 < ID_WIDTH {
            assert(pow10((ID_WIDTH - 1 - i) as nat) == 10 * pow10((ID_WIDTH - 1 - (i + 1)) as nat));
        }
        d = d / 10;
        i = i + 1;
    }
    r
}

proof fn lemma_digit_char_code(d: int)
    requires
        0 <= d < 10,
    ensures
        digit_char(d) as u32 == 48 + d,
{
}

proof fn lemma_id_suffix_order(a: u64, b: u64, j: int)
    requires
        0 <= j <= ID_WIDTH,
    ensures
        lex_lt(id_text(a).skip(j), id_text(b).skip(j)) == ((a as int) % (pow10(
            (ID_WIDTH - j) as nat,
        ) as int) < (b as int) % (pow10((ID_WIDTH - j) as nat) as int)),
    decreases ID_WIDTH - j,
{
    let sa = id_text(a).skip(j);
    let sb = id_text(b).skip(j);
    if j == ID_WIDTH {
        assert(sa.len() == 0 && sb.len() == 0);
        assert((a as int) % 1 == 0 && (b as int) % 1 == 0);
    } else {
        lemma_id_suffix_order(a, b, j + 1);
        assert(sa.drop_first() =~= id_text(a).skip(j + 1));
        assert(sb.drop_first() =~= id_text(b).skip(j + 1));
        let p = pow10((ID_WIDTH - 1 - j) as nat) as int;
        lemma_pow10_positive((ID_WIDTH - 1 - j) as nat);
        assert(pow10((ID_WIDTH - j) as nat) as int == p * 10);
        vstd::arithmetic::div_mod::lemma_mod_breakdown(a as int, p, 10);
        vstd::arithmetic::div_mod::lemma_mod_breakdown(b as int, p, 10);
        let da = (a as int / p) % 10;
        let db = (b as int / p) % 10;
        let ra = (a as int) % p;
        let rb = (b as int) % p;
        vstd::arithmetic::div_mod::lemma_mod_pos_bound(a as int / p, 10);
        vstd::arithmetic::div_mod::lemma_mod_pos_bound(b as int / p, 10);
        vstd::arithmetic::div_mod::lemma_mod_pos_bound(a as int, p);
        vstd::arithmetic::div_mod::lemma_mod_pos_bound(b as int, p);
        assert(sa[0] == digit_char(da) && sb[0] == digit_char(db));
        lemma_digit_char_code(da);
        lemma_digit_char_code(db);
        if da != db {
            assert(sa[0] != sb[0]);
            assert((p * da + ra < p * db + rb) == (da < db)) by (nonlinear_arith)
                requires
                    0 <= ra < p,
                    0 <= rb < p,
                    da != db,
            ;
        } else {
            assert((p * da + ra < p * db + rb) == (ra < rb));
        }
    }
}

/// Event id texts sort as the ids do: the key order of a globe's log is the
/// order of its event ids.
pub proof fn lemma_id_text_order(a: u64, b: u64)
    ensures
        lex_lt(id_text(a), id_text(b)) == (a < b),
{
    lemma_id_suffix_order(a, b, 0);
    assert(id_text(a).skip(0) =~= id_text(a));
    assert(id_text(b).skip(0) =~= id_text(b));
    assert(pow10(20) == 100_000_000_000_000_000_000) by {
        reveal_with_fuel(pow10, 21);
    }
    vstd::arithmetic::div_mod::lemma_small_mod(a as nat, pow10(20));
    vstd::arithmetic::div_mod::lemma_small_mod(b as nat, pow10(20));
}

} // verus!
