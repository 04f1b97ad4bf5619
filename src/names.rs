//! Circuit identifiers: legality, normalisation of IR names, derived names and
//! decimal spelling of integers.
use vstd::prelude::*;

verus! {

/// An ASCII letter.
pub open spec fn is_alpha(c: char) -> bool {
    ('a' <= c && c <= 'z') || ('A' <= c && c <= 'Z')
}

/// An ASCII decimal digit.
pub open spec fn is_digit(c: char) -> bool {
    '0' <= c && c <= '9'
}

/// A character that may follow the first one of an identifier.
pub open spec fn is_ident_tail(c: char) -> bool {
    is_alpha(c) || is_digit(c) || c == '_'
}

/// `[A-Za-z][A-Za-z0-9_]*`
pub open spec fn is_legal_name(s: Seq<char>) -> bool {
    &&& s.len() > 0
    &&& is_alpha(s[0])
    &&& forall|i: int| 1 <= i < s.len() ==> is_ident_tail(#[trigger] s[i])
}

/// The characters that an IR name may hold for its normal form to be legal.
pub open spec fn is_plain_ir_char(c: char) -> bool {
    is_ident_tail(c) || c == '.' || c == '%'
}

/// The IR name with every `%` removed and every `.` turned into `_`.
pub open spec fn strip_sigils(s: Seq<char>) -> Seq<char>
    decreases s.len(),
{
    if s.len() == 0 {
        Seq::empty()
    } else {
        let rest = strip_sigils(s.drop_last());
        let c = s.last();
        if c == '%' {
            rest
        } else if c == '.' {
            rest.push('_')
        } else {
            rest.push(c)
        }
    }
}

/// The circuit name of an IR name: sigils stripped, and an `X` in front where the
/// stripped name begins with `_` or a digit.
pub open spec fn normalized(s: Seq<char>) -> Seq<char> {
    let t = strip_sigils(s);
    if t.len() > 0 && (t[0] == '_' || is_digit(t[0])) {
        seq!['X'] + t
    } else {
        t
    }
}

pub open spec fn digit_char(d: nat) -> char {
    if d == 0 { '0' }
    else if d == 1 { '1' }
    else if d == 2 { '2' }
    else if d == 3 { '3' }
    else if d == 4 { '4' }
    else if d == 5 { '5' }
    else if d == 6 { '6' }
    else if d == 7 { '7' }
    else if d == 8 { '8' }
    else { '9' }
}

/// Decimal digits of a natural number, most significant first, no leading zeros.
pub open spec fn decimal(n: nat) -> Seq<char>
    decreases n,
{
    if n < 10 {
        seq![digit_char(n)]
    } else {
        decimal(n / 10).push(digit_char(n % 10))
    }
}

/// Decimal spelling of an integer, with a leading `-` when negative.
pub open spec fn int_text(v: int) -> Seq<char> {
    if v < 0 {
        seq!['-'] + decimal((-v) as nat)
    } else {
        decimal(v as nat)
    }
}

/// Name of version `k` of the mutable cell `cell`.
pub open spec fn version_name(cell: Seq<char>, k: nat) -> Seq<char> {
    cell + seq!['_', 'm'] + decimal(k)
}

/// Name of the negation `1 - x` of a branch operand spelled `x`.
pub open spec fn negated_name(x: Seq<char>) -> Seq<char> {
    x + seq!['F']
}

/// Name of the disjunction of two predicate operands spelled `a` and `b`.
pub open spec fn or_name(a: Seq<char>, b: Seq<char>) -> Seq<char> {
    a + seq!['U'] + b
}

/// Name of the equality gadget instantiated for the destination `d`.
pub open spec fn gadget_name(d: Seq<char>) -> Seq<char> {
    d + seq!['_', 'E', 'Q']
}

/// Name of the intermediate signal of a conditional write to `d`.
pub open spec fn intermediate_name(d: Seq<char>) -> Seq<char> {
    d + seq!['O']
}

/// `s` occurs in `t` as a contiguous run of characters.
pub open spec fn contains_text(t: Seq<char>, s: Seq<char>) -> bool {
    exists|i: int| 0 <= i && i + s.len() <= t.len() && #[trigger] t.subrange(i, i + s.len()) == s
}


proof fn lemma_strip_sigils_tail_chars(s: Seq<char>)
    requires
        forall|i: int| 0 <= i < s.len() ==> is_plain_ir_char(#[trigger] s[i]),
    ensures
        forall|i: int| 0 <= i < strip_sigils(s).len() ==> is_ident_tail(#[trigger] strip_sigils(s)[i]),
    decreases s.len(),
{
    if s.len() > 0 {
        let p = s.drop_last();
        assert forall|i: int| 0 <= i < p.len() implies is_plain_ir_char(#[trigger] p[i]) by {
            assert(p[i] == s[i]);
        }
        lemma_strip_sigils_tail_chars(p);
        assert(is_plain_ir_char(s[s.len() - 1]));
        let rest = strip_sigils(p);
        let r = strip_sigils(s);
        assert forall|i: int| 0 <= i < r.len() implies is_ident_tail(#[trigger] r[i]) by {
            if i < rest.len() {
                assert(r[i] == rest[i]);
            }
        }
    }
}

/// The decimal spelling of a number is non-empty and made of digits.
pub proof fn lemma_decimal_digits(n: nat)
    ensures
        decimal(n).len() > 0,
        forall|i: int| 0 <= i < decimal(n).len() ==> is_digit(#[trigger] decimal(n)[i]),
    decreases n,
{
    if n >= 10 {
        lemma_decimal_digits(n / 10);
    }
}

/// The normal form of an IR name made of letters, digits, `_`, `.` and `%` that
/// keeps at least one character once its sigils are gone is a legal circuit
/// identifier.
pub proof fn lemma_normalized_is_legal(raw: Seq<char>)
    requires
        forall|i: int| 0 <= i < raw.len() ==> is_plain_ir_char(#[trigger] raw[i]),
        strip_sigils(raw).len() > 0,
    ensures
        is_legal_name(normalized(raw)),
{
    lemma_strip_sigils_tail_chars(raw);
    let t = strip_sigils(raw);
    assert(is_ident_tail(t[0]));
    if t[0] == '_' || is_digit(t[0]) {
        let r = seq!['X'] + t;
        assert forall|i: int| 1 <= i < r.len() implies is_ident_tail(#[trigger] r[i]) by {
            assert(r[i] == t[i - 1]);
        }
    }
}

/// Every name derived from legal names (a cell version, a negated operand, a
/// disjunction, a gadget instance, an intermediate signal) is legal.
pub proof fn lemma_derived_names_are_legal(a: Seq<char>, b: Seq<char>, k: nat)
    requires
        is_legal_name(a),
        is_legal_name(b),
    ensures
        is_legal_name(version_name(a, k)),
        is_legal_name(negated_name(a)),
        is_legal_name(or_name(a, b)),
        is_legal_name(gadget_name(a)),
        is_legal_name(intermediate_name(a)),
{
    lemma_decimal_digits(k);
    let v = version_name(a, k);
    assert(v[0] == a[0]);
    assert forall|i: int| 1 <= i < v.len() implies is_ident_tail(#[trigger] v[i]) by {
        if i >= a.len() + 2 {
            assert(v[i] == decimal(k)[i - a.len() - 2]);
        } else if i >= a.len() {
        } else {
            assert(v[i] == a[i]);
        }
    }
    let o = or_name(a, b);
    assert(o[0] == a[0]);
    assert forall|i: int| 1 <= i < o.len() implies is_ident_tail(#[trigger] o[i]) by {
        if i > a.len() {
            assert(o[i] == b[i - a.len() - 1]);
        } else if i == a.len() {
        } else {
            assert(o[i] == a[i]);
        }
    }
    let n = negated_name(a);
    assert(n[0] == a[0]);
    assert forall|i: int| 1 <= i < n.len() implies is_ident_tail(#[trigger] n[i]) by {
        if i < a.len() {
            assert(n[i] == a[i]);
        }
    }
    let g = gadget_name(a);
    assert(g[0] == a[0]);
    assert forall|i: int| 1 <= i < g.len() implies is_ident_tail(#[trigger] g[i]) by {
        if i < a.len() {
            assert(g[i] == a[i]);
        }
    }
    let m = intermediate_name(a);
    assert(m[0] == a[0]);
    assert forall|i: int| 1 <= i < m.len() implies is_ident_tail(#[trigger] m[i]) by {
        if i < a.len() {
            assert(m[i] == a[i]);
        }
    }
}

fn digit_str(d: u64) -> (r: &'static str)
    requires
        d < 10,
    ensures
        r@ == seq![digit_char(d as nat)],
{
    proof {
        reveal_strlit("0");
        reveal_strlit("1");
        reveal_strlit("2");
        reveal_strlit("3");
        reveal_strlit("4");
        reveal_strlit("5");
        reveal_strlit("6");
        reveal_strlit("7");
        reveal_strlit("8");
        reveal_strlit("9");
    }
    if d == 0 { "0" }
    else if d == 1 { "1" }
    else if d == 2 { "2" }
    else if d == 3 { "3" }
    else if d == 4 { "4" }
    else if d == 5 { "5" }
    else if d == 6 { "6" }
    else if d == 7 { "7" }
    else if d == 8 { "8" }
    else { "9" }
}

/// Decimal spelling of `n`.
pub fn decimal_string(n: u64) -> (r: String)
    ensures
        r@ == decimal(n as nat),
    decreases n,
{
    if n < 10 {
        String::from_str(digit_str(n))
    } else {
        let mut s = decimal_string(n / 10);
        s.append(digit_str(n % 10));
        s
    }
}

/// Decimal spelling of `v`, with a leading `-` when negative.
pub fn int_string(v: i64) -> (r: String)
    ensures
        r@ == int_text(v as int),
{
    if v < 0 {
        let m: i128 = -(v as i128);
        let mut s = String::from_str("-");
        proof {
            reveal_strlit("-");
        }
        s.append(decimal_string(m as u64).as_str());
        s
    } else {
        decimal_string(v as u64)
    }
}


/// The normal form of an IR name: every `%` removed, every `.` turned into `_`,
/// and an `X` put in front where the result begins with `_` or a digit.
pub fn normalize_name(raw: &str) -> (r: String)
    ensures
        r@ == normalized(raw@),
{
    let n = raw.unicode_len();
    let mut t = String::new();
    let mut i: usize = 0;
    while i < n
        invariant
            n == raw@.len(),
            i <= n,
            t@ == strip_sigils(raw@.subrange(0, i as int)),
        decreases n - i,
    {
        let c = raw.get_char(i);
        let ghost pre = raw@.subrange(0, i + 1);
        assert(pre.drop_last() == raw@.subrange(0, i as int));
        assert(pre.last() == c);
        if c == '.' {
            proof {
                reveal_strlit("_");
            }
            t.append("_");
        } else if c != '%' {
            let one = raw.substring_char(i, i + 1);
            assert(one@ == seq![c]);
            t.append(one);
        }
        assert(t@ == strip_sigils(pre));
        i = i + 1;
    }
    assert(raw@.subrange(0, n as int) == raw@);
    if t.unicode_len() > 0 {
        let first = t.as_str().get_char(0);
        if first == '_' || ('0' <= first && first <= '9') {
            let mut x = String::from_str("X");
            proof {
                reveal_strlit("X");
            }
            x.append(t.as_str());
            return x;
        }
    }
    t
}

/// `s` followed by `suffix`.
fn joined(s: &str, suffix: &str) -> (r: String)
    ensures
        r@ == s@ + suffix@,
{
    let mut r = String::from_str(s);
    r.append(suffix);
    r
}

/// Name of version `k` of the mutable cell `cell`: `{cell}_m{k}`.
pub fn version_string(cell: &str, k: usize) -> (r: String)
    ensures
        r@ == version_name(cell@, k as nat),
{
    proof {
        reveal_strlit("_m");
    }
    let mut r = joined(cell, "_m");
    r.append(decimal_string(k as u64).as_str());
    r
}

/// `{x}F`
pub fn negated_string(x: &str) -> (r: String)
    ensures
        r@ == negated_name(x@),
{
    proof {
        reveal_strlit("F");
    }
    joined(x, "F")
}

/// `{a}U{b}`
pub fn or_string(a: &str, b: &str) -> (r: String)
    ensures
        r@ == or_name(a@, b@),
{
    proof {
        reveal_strlit("U");
    }
    let mut r = joined(a, "U");
    r.append(b);
    r
}

/// `{d}_EQ`
pub fn gadget_string(d: &str) -> (r: String)
    ensures
        r@ == gadget_name(d@),
{
    proof {
        reveal_strlit("_EQ");
    }
    joined(d, "_EQ")
}

/// `{d}O`
pub fn intermediate_string(d: &str) -> (r: String)
    ensures
        r@ == intermediate_name(d@),
{
    proof {
        reveal_strlit("O");
    }
    joined(d, "O")
}

/// Whether `s` occurs in `t`.
pub fn text_contains(t: &str, s: &str) -> (r: bool)
    ensures
        r == contains_text(t@, s@),
{
    let n = t.unicode_len();
    let m = s.unicode_len();
    if m > n {
        return false;
    }
    let mut i: usize = 0;
    while i <= n - m
        invariant
            n == t@.len(),
            m == s@.len(),
            m <= n,
            i <= n - m + 1,
            forall|j: int| 0 <= j < i ==> #[trigger] t@.subrange(j, j + m) != s@,
        decreases n - i,
    {
        let mut k: usize = 0;
        let mut same = true;
        while k < m
            invariant
                n == t@.len(),
                m == s@.len(),
                i + m <= n,
                k <= m,
                same == (forall|q: int| 0 <= q < k ==> t@[i + q] == s@[q]),
            decreases m - k,
        {
            if t.get_char(i + k) != s.get_char(k) {
                same = false;
            }
            k = k + 1;
        }
        if same {
            assert(t@.subrange(i as int, i + m) == s@);
            return true;
        }
        assert(t@.subrange(i as int, i + m)[0] == t@[i as int + 0]);
        assert(t@.subrange(i as int, i + m) != s@) by {
            let q = choose|q: int| 0 <= q < m && t@[i + q] != s@[q];
            assert(t@.subrange(i as int, i + m)[q] == t@[i + q]);
        }
        i = i + 1;
    }
    false
}

} // verus!
