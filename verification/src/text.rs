//! Character-level helpers shared by the sheet logic: decimal rendering and
//! parsing of day numbers, and the lexicographic order used to sort habit
//! names for prompts and freshly generated grids.

use vstd::prelude::*;

verus! {

/// Decimal digit for values 0 through 9.
pub open spec fn digit_char(d: int) -> char {
    if d == 0 {
        '0'
    } else if d == 1 {
        '1'
    } else if d == 2 {
        '2'
    } else if d == 3 {
        '3'
    } else if d == 4 {
        '4'
    } else if d == 5 {
        '5'
    } else if d == 6 {
        '6'
    } else if d == 7 {
        '7'
    } else if d == 8 {
        '8'
    } else {
        '9'
    }
}

pub open spec fn is_digit_char(c: char) -> bool {
    48 <= c as int <= 57
}

pub open spec fn digit_value(c: char) -> int {
    c as int - 48
}

/// Decimal rendering of a natural number, most significant digit first,
/// with no leading zeros (except for the number 0 itself).
pub open spec fn dec_chars(n: nat) -> Seq<char>
    decreases n,
{
    if n < 10 {
        seq![digit_char(n as int)]
    } else {
        dec_chars(n / 10).push(digit_char((n % 10) as int))
    }
}

/// Value of a sequence of decimal digits, most significant first.
pub open spec fn digits_value(s: Seq<char>) -> int
    decreases s.len(),
{
    if s.len() == 0 {
        0
    } else {
        digits_value(s.drop_last()) * 10 + digit_value(s.last())
    }
}

pub open spec fn all_digit_chars(s: Seq<char>) -> bool {
    forall|i: int| 0 <= i < s.len() ==> is_digit_char(#[trigger] s[i])
}

/// The strings accepted by an unsigned decimal parser: an optional leading
/// '+', then at least one digit.
pub open spec fn is_uint_literal(s: Seq<char>) -> bool {
    if s.len() >= 1 && s[0] == '+' {
        s.len() >= 2 && all_digit_chars(s.skip(1))
    } else {
        s.len() >= 1 && all_digit_chars(s)
    }
}

/// Numeric value of an accepted unsigned decimal string.
pub open spec fn uint_value(s: Seq<char>) -> int {
    if s.len() >= 1 && s[0] == '+' {
        digits_value(s.skip(1))
    } else {
        digits_value(s)
    }
}

proof fn lemma_digits_value_nonneg(s: Seq<char>)
    requires
        all_digit_chars(s),
    ensures
        digits_value(s) >= 0,
    decreases s.len(),
{
    if s.len() > 0 {
        assert(all_digit_chars(s.drop_last()));
        lemma_digits_value_nonneg(s.drop_last());
    }
}

/// Extending a digit string on the right can only increase its value.
proof fn lemma_digits_value_prefix_le(s: Seq<char>, k: int)
    requires
        all_digit_chars(s),
        0 <= k <= s.len(),
    ensures
        digits_value(s.subrange(0, k)) <= digits_value(s),
    decreases s.len() - k,
{
    if k == s.len() {
        assert(s.subrange(0, k) =~= s);
    } else {
        let t = s.subrange(0, k + 1);
        assert(t.drop_last() =~= s.subrange(0, k));
        assert(all_digit_chars(t.drop_last()));
        lemma_digits_value_nonneg(t.drop_last());
        assert(digits_value(t) == digits_value(s.subrange(0, k)) * 10 + digit_value(t.last()));
        assert(digits_value(s.subrange(0, k)) * 10 >= digits_value(s.subrange(0, k)))
            by (nonlinear_arith)
            requires digits_value(s.subrange(0, k)) >= 0;
        lemma_digits_value_prefix_le(s, k + 1);
    }
}

/// One decimal digit as a string slice.
fn digit_str(d: usize) -> (r: &'static str)
    requires
        d < 10,
    ensures
        r@ =~= seq![digit_char(d as int)],
{
    let r: &'static str = match d {
        0 => "0",
        1 => "1",
        2 => "2",
        3 => "3",
        4 => "4",
        5 => "5",
        6 => "6",
        7 => "7",
        8 => "8",
        _ => "9",
    };
    proof {
        reveal_strlit("0");
        reveal_strlit("1");
        reveal_strlit("2");
        reveal_strlit("3");
        reveal_strlit("4");
        reveal_strlit("5");
        reveal_strlit("6");
        reveal_strlit("7");
        reveal_strlit("8");
        reveal_strlit("9");
    }
    r
}

/// Digits collected least significant first, read back in display order.
spec fn rev_digit_chars(ds: Seq<usize>) -> Seq<char> {
    Seq::new(ds.len(), |k: int| digit_char(ds[ds.len() - 1 - k] as int))
}

/// Renders a number in decimal, as the day labels of a month grid are written.
pub fn usize_to_decimal(n: usize) -> (r: String)
    ensures
        r@ == dec_chars(n as nat),
{
    let mut digits: Vec<usize> = Vec::new();
    let mut m: usize = n;
    digits.push(m % 10);
    m = m / 10;
    proof {
        assert(rev_digit_chars(digits@) =~= seq![digit_char((n % 10) as int)]);
        if n < 10 {
            assert(dec_chars(n as nat) =~= rev_digit_chars(digits@));
        }
    }
    while m > 0
        invariant
            digits@.len() >= 1,
            forall|k: int| 0 <= k < digits@.len() ==> #[trigger] digits@[k] < 10,
            m > 0 ==> dec_chars(n as nat) =~= dec_chars(m as nat) + rev_digit_chars(digits@),
            m == 0 ==> dec_chars(n as nat) =~= rev_digit_chars(digits@),
        decreases m,
    {
        let ghost before = digits@;
        let d: usize = m % 10;
        digits.push(d);
        m = m / 10;
        proof {
            assert(rev_digit_chars(before.push(d)) =~= seq![digit_char(d as int)]
                + rev_digit_chars(before));
        }
    }
    let mut r = String::new();
    let mut i: usize = digits.len();
    while i > 0
        invariant
            i <= digits@.len(),
            forall|k: int| 0 <= k < digits@.len() ==> #[trigger] digits@[k] < 10,
            dec_chars(n as nat) =~= rev_digit_chars(digits@),
            r@ =~= rev_digit_chars(digits@).subrange(0, digits@.len() - i),
        decreases i,
    {
        i = i - 1;
        let s = digit_str(digits[i]);
        r.append(s);
        proof {
            assert(r@ =~= rev_digit_chars(digits@).subrange(0, digits@.len() - i));
        }
    }
    proof {
        assert(r@ =~= rev_digit_chars(digits@));
    }
    r
}

/// Parses an unsigned decimal string exactly as `str::parse::<usize>` does:
/// an optional leading '+', then one or more digits, rejecting anything else
/// and any value that does not fit in `usize`.
pub fn parse_usize(s: &str) -> (r: Option<usize>)
    ensures
        r is Some <==> is_uint_literal(s@) && uint_value(s@) <= usize::MAX,
        r is Some ==> r->0 == uint_value(s@),
{
    let n_chars: usize = s.unicode_len();
    if n_chars == 0 {
        return None;
    }
    let first: char = s.get_char(0);
    let start: usize = if first == '+' {
        1
    } else {
        0
    };
    if n_chars == start {
        return None;
    }
    let ghost body = s@.skip(start as int);
    let mut acc: usize = 0;
    let mut i: usize = start;
    while i < n_chars
        invariant
            start <= i <= n_chars,
            n_chars == s@.len(),
            start == 0 || start == 1,
            start == 1 ==> s@[0] == '+',
            start == 0 ==> (s@.len() == 0 || s@[0] != '+'),
            start < n_chars,
            body == s@.skip(start as int),
            forall|j: int| start <= j < i ==> is_digit_char(#[trigger] s@[j]),
            acc == digits_value(s@.subrange(start as int, i as int)),
        decreases n_chars - i,
    {
        let c: char = s.get_char(i);
        let cv: u32 = c as u32;
        if cv < 48 || cv > 57 {
            proof {
                assert(!is_digit_char(s@[i as int]));
                if start == 1 {
                    assert(body[i - 1] == s@[i as int]);
                    assert(!all_digit_chars(body));
                } else {
                    assert(!all_digit_chars(s@));
                }
            }
            return None;
        }
        let d: usize = (cv - 48) as usize;
        let ghost prefix = s@.subrange(start as int, i as int);
        let ghost extended = s@.subrange(start as int, i + 1 as int);
        proof {
            assert(extended.drop_last() =~= prefix);
            assert(extended.last() == s@[i as int]);
            assert(digits_value(extended) == acc * 10 + d);
        }
        let step: usize = match acc.checked_mul(10) {
            Some(x) => match x.checked_add(d) {
                Some(y) => y,
                None => {
                    proof {
                        lemma_value_too_large(s@, start as int, i + 1 as int);
                    }
                    return None;
                },
            },
            None => {
                proof {
                    assert(acc * 10 + d > usize::MAX) by (nonlinear_arith)
                        requires acc * 10 > usize::MAX, d >= 0;
                    lemma_value_too_large(s@, start as int, i + 1 as int);
                }
                return None;
            },
        };
        acc = step;
        i = i + 1;
    }
    proof {
        assert(s@.subrange(start as int, n_chars as int) =~= body);
        if start == 1 {
            assert(forall|j: int| 0 <= j < body.len() ==> body[j] == s@[j + 1]
                && is_digit_char(#[trigger] body[j]));
        } else {
            assert(body =~= s@);
        }
        assert(is_uint_literal(s@));
        assert(uint_value(s@) == acc);
    }
    Some(acc)
}

/// When the digits seen so far already exceed `usize::MAX`, so does the
/// whole string's value.
proof fn lemma_value_too_large(s: Seq<char>, start: int, k: int)
    requires
        0 <= start <= k <= s.len(),
        start == 0 || start == 1,
        start == 1 ==> s[0] == '+',
        start == 0 ==> (s.len() == 0 || s[0] != '+'),
        forall|j: int| start <= j < k ==> is_digit_char(#[trigger] s[j]),
        digits_value(s.subrange(start, k)) > usize::MAX,
    ensures
        !(is_uint_literal(s) && uint_value(s) <= usize::MAX),
{
    if is_uint_literal(s) {
        let body = s.skip(start);
        assert(forall|j: int| 0 <= j < body.len() ==> body[j] == s[j + start]);
        if start == 0 {
            assert(body =~= s);
        }
        assert(all_digit_chars(body));
        assert(s.subrange(start, k) =~= body.subrange(0, k - start));
        lemma_digits_value_prefix_le(body, k - start);
        assert(uint_value(s) == digits_value(body));
    }
}

/// Lexicographic order on character sequences by code point, the order used
/// to sort habit names.
pub open spec fn lex_le(a: Seq<char>, b: Seq<char>) -> bool
    decreases a.len(),
{
    if a.len() == 0 {
        true
    } else if b.len() == 0 {
        false
    } else if (a[0] as int) < (b[0] as int) {
        true
    } else if (a[0] as int) > (b[0] as int) {
        false
    } else {
        lex_le(a.drop_first(), b.drop_first())
    }
}

pub proof fn lemma_lex_le_total(a: Seq<char>, b: Seq<char>)
    ensures
        lex_le(a, b) || lex_le(b, a),
    decreases a.len(),
{
    if a.len() > 0 && b.len() > 0 && a[0] == b[0] {
        lemma_lex_le_total(a.drop_first(), b.drop_first());
    }
}

pub proof fn lemma_lex_le_trans(a: Seq<char>, b: Seq<char>, c: Seq<char>)
    requires
        lex_le(a, b),
        lex_le(b, c),
    ensures
        lex_le(a, c),
    decreases a.len(),
{
    if a.len() > 0 {
        if a[0] == b[0] && b[0] == c[0] {
            lemma_lex_le_trans(a.drop_first(), b.drop_first(), c.drop_first());
        }
    }
}

/// Character-by-character comparison of two strings in the order `lex_le`.
pub fn str_le(a: &str, b: &str) -> (r: bool)
    ensures
        r == lex_le(a@, b@),
{
    let a_len: usize = a.unicode_len();
    let b_len: usize = b.unicode_len();
    let mut i: usize = 0;
    proof {
        assert(a@.skip(0) =~= a@);
        assert(b@.skip(0) =~= b@);
    }
    while i < a_len && i < b_len
        invariant
            i <= a_len,
            i <= b_len,
            a_len == a@.len(),
            b_len == b@.len(),
            lex_le(a@, b@) == lex_le(a@.skip(i as int), b@.skip(i as int)),
        decreases a_len - i,
    {
        let ca: char = a.get_char(i);
        let cb: char = b.get_char(i);
        if (ca as u32) < (cb as u32) {
            return true;
        }
        if (ca as u32) > (cb as u32) {
            return false;
        }
        proof {
            assert(a@.skip(i as int).drop_first() =~= a@.skip(i + 1));
            assert(b@.skip(i as int).drop_first() =~= b@.skip(i + 1));
        }
        i = i + 1;
    }
    proof {
        if i == a_len {
            assert(a@.skip(i as int).len() == 0);
        } else {
            assert(b@.skip(i as int).len() == 0);
            assert(a@.skip(i as int).len() > 0);
        }
    }
    i == a_len
}

/// The texts of a list of strings, in list order.
pub open spec fn views_of(t: Seq<String>) -> Seq<Seq<char>> {
    t.map_values(|x: String| x@)
}

/// Sorts names into the order `lex_le` (habits are presented alphabetically),
/// keeping exactly the same multiset of names.
pub fn sort_strings(v: &mut Vec<String>)
    ensures
        final(v)@.len() == old(v)@.len(),
        final(v)@.to_multiset() == old(v)@.to_multiset(),
        views_of(final(v)@).to_multiset() == views_of(old(v)@).to_multiset(),
        forall|p: int, q: int|
            0 <= p < q < final(v)@.len() ==> #[trigger] lex_le(final(v)@[p]@, final(v)@[q]@),
{
    let ghost orig = v@;
    let mut i: usize = 1;
    while i < v.len()
        invariant
            i >= 1,
            v@.len() <= 1 || i <= v@.len(),
            v@.len() == orig.len(),
            v@.to_multiset() == orig.to_multiset(),
            views_of(v@).to_multiset() == views_of(orig).to_multiset(),
            forall|p: int, q: int| 0 <= p < q < i && q < v@.len()
                ==> #[trigger] lex_le(v@[p]@, v@[q]@),
        decreases v@.len() - i,
    {
        let ghost before = v@;
        let mut pos: usize = 0;
        loop
            invariant
                pos <= i,
                i < v@.len(),
                v@ == before,
                forall|k: int| 0 <= k < pos ==> #[trigger] lex_le(v@[k]@, v@[i as int]@),
            ensures
                pos <= i,
                v@ == before,
                forall|k: int| 0 <= k < pos ==> #[trigger] lex_le(v@[k]@, v@[i as int]@),
                pos == i || !lex_le(v@[pos as int]@, v@[i as int]@),
            decreases i - pos,
        {
            if pos >= i {
                break;
            }
            if !str_le(&v[pos], &v[i]) {
                break;
            }
            pos = pos + 1;
        }
        if pos < i {
            let x = v.remove(i);
            v.insert(pos, x);
            proof {
                let removed = before.remove(i as int);
                before.to_multiset_ensures();
                removed.to_multiset_ensures();
                vstd::seq_lib::to_multiset_insert(removed, pos as int, x);
                assert(before.contains(before[i as int])) by {
                    assert(before[i as int] == before[i as int]);
                }
                assert(v@.to_multiset() =~= before.to_multiset());
                let vb = views_of(before);
                let vremoved = vb.remove(i as int);
                vb.to_multiset_ensures();
                vremoved.to_multiset_ensures();
                vstd::seq_lib::to_multiset_insert(vremoved, pos as int, x@);
                assert(vb.contains(vb[i as int])) by {
                    assert(vb[i as int] == vb[i as int]);
                }
                assert(views_of(before.remove(i as int)) =~= vremoved);
                assert(views_of(v@) =~= vremoved.insert(pos as int, x@));
                assert(views_of(v@).to_multiset() =~= vb.to_multiset());
                before.remove_ensures(i as int);
                removed.insert_ensures(pos as int, x);
                lemma_lex_le_total(before[pos as int]@, x@);
                assert forall|p: int, q: int| 0 <= p < q < i + 1 implies
                    #[trigger] lex_le(v@[p]@, v@[q]@) by {
                    if q < pos {
                        assert(v@[p] == before[p] && v@[q] == before[q]);
                    } else if q == pos {
                        assert(v@[p] == before[p] && v@[q] == x);
                    } else if p < pos {
                        assert(v@[p] == before[p] && v@[q] == before[q - 1]);
                        if q - 1 > p {
                            assert(lex_le(before[p]@, before[q - 1]@));
                        }
                    } else if p == pos {
                        assert(v@[p] == x && v@[q] == before[q - 1]);
                        assert(lex_le(x@, before[pos as int]@));
                        if q - 1 > pos {
                            assert(lex_le(before[pos as int]@, before[q - 1]@));
                            lemma_lex_le_trans(x@, before[pos as int]@, before[q - 1]@);
                        }
                    } else {
                        assert(v@[p] == before[p - 1] && v@[q] == before[q - 1]);
                    }
                }
            }
        }
        i = i + 1;
    }
}

/// Sorts day numbers ascending (dates are presented numerically), keeping
/// exactly the same multiset of values.
pub fn sort_usizes(v: &mut Vec<usize>)
    ensures
        final(v)@.len() == old(v)@.len(),
        final(v)@.to_multiset() == old(v)@.to_multiset(),
        forall|p: int, q: int| 0 <= p < q < final(v)@.len() ==> final(v)@[p] <= final(v)@[q],
{
    let ghost orig = v@;
    let mut i: usize = 1;
    while i < v.len()
        invariant
            i >= 1,
            v@.len() <= 1 || i <= v@.len(),
            v@.len() == orig.len(),
            v@.to_multiset() == orig.to_multiset(),
            forall|p: int, q: int| 0 <= p < q < i && q < v@.len() ==> v@[p] <= v@[q],
        decreases v@.len() - i,
    {
        let ghost before = v@;
        let mut pos: usize = 0;
        loop
            invariant
                pos <= i,
                i < v@.len(),
                v@ == before,
                forall|k: int| 0 <= k < pos ==> v@[k] <= v@[i as int],
            ensures
                pos <= i,
                v@ == before,
                forall|k: int| 0 <= k < pos ==> v@[k] <= v@[i as int],
                pos == i || !(v@[pos as int] <= v@[i as int]),
            decreases i - pos,
        {
            if pos >= i {
                break;
            }
            if !(v[pos] <= v[i]) {
                break;
            }
            pos = pos + 1;
        }
        if pos < i {
            let x = v.remove(i);
            v.insert(pos, x);
            proof {
                let removed = before.remove(i as int);
                before.to_multiset_ensures();
                removed.to_multiset_ensures();
                vstd::seq_lib::to_multiset_insert(removed, pos as int, x);
                assert(before.contains(before[i as int])) by {
                    assert(before[i as int] == before[i as int]);
                }
                assert(v@.to_multiset() =~= before.to_multiset());
                before.remove_ensures(i as int);
                removed.insert_ensures(pos as int, x);
                assert forall|p: int, q: int| 0 <= p < q < i + 1 implies v@[p] <= v@[q] by {
                    if q < pos {
                        assert(v@[p] == before[p] && v@[q] == before[q]);
                    } else if q == pos {
                        assert(v@[p] == before[p] && v@[q] == x);
                    } else if p < pos {
                        assert(v@[p] == before[p] && v@[q] == before[q - 1]);
                    } else if p == pos {
                        assert(v@[p] == x && v@[q] == before[q - 1]);
                    } else {
                        assert(v@[p] == before[p - 1] && v@[q] == before[q - 1]);
                    }
                }
            }
        }
        i = i + 1;
    }
}

} // verus!
