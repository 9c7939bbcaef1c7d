//! Small verified helpers on text: character access, equality, building.
use vstd::prelude::*;
use vstd::std_specs::iter::IteratorSpec;

verus! {

/// The characters of `s`, in order.
pub fn chars_of(s: &str) -> (res: Vec<char>)
    ensures
        res@ == s@,
{
    let n = s.unicode_len();
    let mut res: Vec<char> = Vec::new();
    let mut i: usize = 0;
    while i < n
        invariant
            n == s@.len(),
            i <= n,
            res@ == s@.subrange(0, i as int),
        decreases n - i,
    {
        let c = s.get_char(i);
        res.push(c);
        i = i + 1;
        assert(res@ =~= s@.subrange(0, i as int));
    }
    assert(res@ =~= s@);
    res
}

/// Whether two strings hold the same characters.
pub fn str_eq(a: &str, b: &str) -> (res: bool)
    ensures
        res == (a@ == b@),
{
    let n = a.unicode_len();
    let m = b.unicode_len();
    if n != m {
        return false;
    }
    let mut i: usize = 0;
    while i < n
        invariant
            n == a@.len(),
            m == b@.len(),
            n == m,
            i <= n,
            a@.subrange(0, i as int) == b@.subrange(0, i as int),
        decreases n - i,
    {
        if a.get_char(i) != b.get_char(i) {
            assert(a@[i as int] != b@[i as int]);
            return false;
        }
        assert(a@.subrange(0, i + 1) =~= a@.subrange(0, i as int).push(a@[i as int]));
        assert(b@.subrange(0, i + 1) =~= b@.subrange(0, i as int).push(b@[i as int]));
        i = i + 1;
    }
    assert(a@ =~= a@.subrange(0, n as int));
    assert(b@ =~= b@.subrange(0, n as int));
    true
}

/// Appends one character to a string (`String::push`).
#[verifier::external_body]
pub fn push_char(s: &mut String, c: char)
    ensures
        final(s)@ == old(s)@.push(c),
{
    s.push(c);
}

/// The scalar value `v` as a `char` (`char::from_u32`): `Some` exactly for
/// Unicode scalar values, that is below `0x110000` and outside the
/// surrogate range `0xD800..=0xDFFF`.
#[verifier::external_body]
pub fn char_from_u32(v: u32) -> (res: Option<char>)
    ensures
        res is Some <==> is_scalar(v as int),
        res matches Some(c) ==> c as u32 == v,
{
    char::from_u32(v)
}

/// Unicode scalar values.
pub open spec fn is_scalar(v: int) -> bool {
    (0 <= v < 0xD800) || (0xE000 <= v < 0x110000)
}

/// The members of `s`, each once, in the order the set hands them out.
pub fn set_to_vec(s: &std::collections::HashSet<i32>) -> (res: Vec<i32>)
    ensures
        res@.to_set() == s@,
        res@.no_duplicates(),
{
    broadcast use vstd::std_specs::hash::group_hash_axioms;
    let mut res: Vec<i32> = Vec::new();
    let ghost keys = vstd::std_specs::hash::spec_hash_keys_iter(s).remaining().unref();
    for x in it: s.iter()
        invariant
            res@ == it.seq().take(it.index() as int).unref(),
            it.seq().unref() == keys,
    {
        res.push(*x);
        assert(it.seq().take(it.index() + 1).unref() =~= res@);
    }
    assert(res@ =~= keys);
    res
}

/// Decimal digits only, at least one.
pub open spec fn all_digits(d: Seq<char>) -> bool {
    d.len() > 0 && forall|i: int| 0 <= i < d.len() ==> '0' <= #[trigger] d[i] <= '9'
}

/// The value of a run of decimal digits.
pub open spec fn digits_value(d: Seq<char>) -> int
    decreases d.len(),
{
    if d.len() == 0 {
        0
    } else {
        digits_value(d.drop_last()) * 10 + (d.last() as int - '0' as int)
    }
}

/// The value written by an optional `+` or `-` and then decimal digits.
pub open spec fn decimal_value(s: Seq<char>) -> Option<int> {
    if s.len() > 0 && s[0] == '-' && all_digits(s.drop_first()) {
        Some(-digits_value(s.drop_first()))
    } else if s.len() > 0 && s[0] == '+' && all_digits(s.drop_first()) {
        Some(digits_value(s.drop_first()))
    } else if all_digits(s) {
        Some(digits_value(s))
    } else {
        None
    }
}

/// What `str::parse::<i64>` accepts: a decimal numeral whose value fits.
pub open spec fn spec_parse_i64(s: Seq<char>) -> Option<i64> {
    match decimal_value(s) {
        Some(v) => if i64::MIN <= v <= i64::MAX { Some(v as i64) } else { None },
        None => None,
    }
}

/// `str::parse::<i64>`, with the error dropped: the value of an optional
/// `+` or `-` followed by one or more ASCII digits, when it fits in `i64`.
#[verifier::external_body]
pub fn parse_i64(s: &str) -> (res: Option<i64>)
    ensures
        res == spec_parse_i64(s@),
{
    s.parse::<i64>().ok()
}

/// The decimal digits of a natural number, most significant first.
pub open spec fn nat_text(v: nat) -> Seq<char>
    decreases v,
{
    if v < 10 {
        seq![char_of_digit(v)]
    } else {
        nat_text(v / 10) + seq![char_of_digit(v % 10)]
    }
}

/// The character of decimal digit `d`.
pub open spec fn char_of_digit(d: nat) -> char {
    if d == 0 { '0' } else if d == 1 { '1' } else if d == 2 { '2' } else if d == 3 { '3' } else if d == 4 { '4' }
    else if d == 5 { '5' } else if d == 6 { '6' } else if d == 7 { '7' } else if d == 8 { '8' } else { '9' }
}

/// How `i64` values print: a `-` before negative values, then the digits of
/// the magnitude.
pub open spec fn int_text(v: int) -> Seq<char> {
    if v < 0 {
        seq!['-'] + nat_text((-v) as nat)
    } else {
        nat_text(v as nat)
    }
}

/// The decimal text of a number is never empty and starts with a digit.
pub proof fn lemma_nat_text_shape(v: nat)
    ensures
        nat_text(v).len() >= 1,
        nat_text(v)[0] != '-',
        v < 10 <==> nat_text(v).len() == 1,
    decreases v,
{
    if v >= 10 {
        lemma_nat_text_shape(v / 10);
        assert((nat_text(v / 10) + seq![char_of_digit(v % 10)])[0] == nat_text(v / 10)[0]);
    }
}

/// Different numbers have different decimal texts.
pub proof fn lemma_nat_text_injective(a: nat, b: nat)
    requires
        nat_text(a) == nat_text(b),
    ensures
        a == b,
    decreases a,
{
    lemma_nat_text_shape(a);
    lemma_nat_text_shape(b);
    if a < 10 {
        assert(nat_text(a)[0] == char_of_digit(a));
        assert(nat_text(b)[0] == char_of_digit(b));
    } else {
        let pa = nat_text(a / 10);
        let pb = nat_text(b / 10);
        assert(nat_text(a) == pa + seq![char_of_digit(a % 10)]);
        assert(nat_text(b) == pb + seq![char_of_digit(b % 10)]);
        assert(nat_text(a).last() == char_of_digit(a % 10));
        assert(nat_text(b).last() == char_of_digit(b % 10));
        assert(a % 10 == b % 10);
        assert(nat_text(a).drop_last() =~= pa);
        assert(nat_text(b).drop_last() =~= pb);
        lemma_nat_text_injective(a / 10, b / 10);
    }
}

/// Different integers have different decimal texts.
pub proof fn lemma_int_text_injective(a: int, b: int)
    requires
        int_text(a) == int_text(b),
    ensures
        a == b,
{
    if a < 0 && b < 0 {
        assert(int_text(a).drop_first() =~= nat_text((-a) as nat));
        assert(int_text(b).drop_first() =~= nat_text((-b) as nat));
        lemma_nat_text_injective((-a) as nat, (-b) as nat);
    } else if a < 0 {
        lemma_nat_text_shape(b as nat);
        assert(int_text(a)[0] == '-');
    } else if b < 0 {
        lemma_nat_text_shape(a as nat);
        assert(int_text(b)[0] == '-');
    } else {
        lemma_nat_text_injective(a as nat, b as nat);
    }
}

/// `i64::to_string`: the decimal text of `v`.
#[verifier::external_body]
pub fn i64_to_string(v: i64) -> (res: String)
    ensures
        res@ == int_text(v as int),
{
    v.to_string()
}

/// Lexicographic order of character sequences by code point, which is the
/// order of `String`s (their UTF-8 bytes compare the same way).
pub open spec fn lex_less(a: Seq<char>, b: Seq<char>) -> bool
    decreases a.len(),
{
    if a.len() == 0 {
        b.len() > 0
    } else if b.len() == 0 {
        false
    } else if a[0] != b[0] {
        (a[0] as int) < (b[0] as int)
    } else {
        lex_less(a.drop_first(), b.drop_first())
    }
}

/// Whether `a` sorts before `b`.
pub fn str_less(a: &str, b: &str) -> (res: bool)
    ensures
        res == lex_less(a@, b@),
{
    let n = a.unicode_len();
    let m = b.unicode_len();
    let mut i: usize = 0;
    assert(a@.subrange(0, n as int) =~= a@);
    assert(b@.subrange(0, m as int) =~= b@);
    while i < n && i < m
        invariant
            n == a@.len(),
            m == b@.len(),
            i <= n,
            i <= m,
            lex_less(a@, b@) == lex_less(a@.subrange(i as int, n as int), b@.subrange(i as int, m as int)),
        decreases n - i,
    {
        let x = a.get_char(i);
        let y = b.get_char(i);
        let ghost sa = a@.subrange(i as int, n as int);
        let ghost sb = b@.subrange(i as int, m as int);
        assert(sa[0] == x && sb[0] == y);
        if x != y {
            return (x as u32) < (y as u32);
        }
        assert(sa.drop_first() =~= a@.subrange(i + 1, n as int));
        assert(sb.drop_first() =~= b@.subrange(i + 1, m as int));
        i = i + 1;
    }
    i == n && i < m
}


/// `lex_less` is irreflexive.
pub proof fn lemma_lex_irreflexive(a: Seq<char>)
    ensures
        !lex_less(a, a),
    decreases a.len(),
{
    if a.len() > 0 {
        lemma_lex_irreflexive(a.drop_first());
    }
}

/// `lex_less` is transitive.
pub proof fn lemma_lex_transitive(a: Seq<char>, b: Seq<char>, c: Seq<char>)
    requires
        lex_less(a, b),
        lex_less(b, c),
    ensures
        lex_less(a, c),
    decreases a.len(),
{
    if a.len() > 0 && b.len() > 0 && c.len() > 0 && a[0] == b[0] && b[0] == c[0] {
        lemma_lex_transitive(a.drop_first(), b.drop_first(), c.drop_first());
    }
}

/// Any two different sequences are ordered one way or the other.
pub proof fn lemma_lex_total(a: Seq<char>, b: Seq<char>)
    requires
        a != b,
    ensures
        lex_less(a, b) || lex_less(b, a),
    decreases a.len(),
{
    if a.len() > 0 && b.len() > 0 && a[0] == b[0] {
        if a.drop_first() == b.drop_first() {
            assert(a =~= seq![a[0]] + a.drop_first());
            assert(b =~= seq![b[0]] + b.drop_first());
        }
        lemma_lex_total(a.drop_first(), b.drop_first());
    } else if a.len() > 0 && b.len() > 0 {
    } else if a.len() == 0 && b.len() == 0 {
        assert(a =~= b);
    }
}

/// `lex_less` is asymmetric.
pub proof fn lemma_lex_asymmetric(a: Seq<char>, b: Seq<char>)
    requires
        lex_less(a, b),
    ensures
        !lex_less(b, a),
{
    if lex_less(b, a) {
        lemma_lex_transitive(a, b, a);
        lemma_lex_irreflexive(a);
    }
}


/// `usize::to_string`: the decimal text of `v`.
#[verifier::external_body]
pub fn usize_to_string(v: usize) -> (res: String)
    ensures
        res@ == nat_text(v as nat),
{
    v.to_string()
}
/// `s` padded with spaces on the right to `w` characters (`{:<w}`).
pub open spec fn pad_right(s: Seq<char>, w: nat) -> Seq<char> {
    if s.len() >= w {
        s
    } else {
        s + Seq::new((w - s.len()) as nat, |i: int| ' ')
    }
}

/// `s` padded with spaces on the left to `w` characters (`{:>w}`).
pub open spec fn pad_left(s: Seq<char>, w: nat) -> Seq<char> {
    if s.len() >= w {
        s
    } else {
        Seq::new((w - s.len()) as nat, |i: int| ' ') + s
    }
}

/// How `{}` prints a `bool`.
pub open spec fn bool_text(b: bool) -> Seq<char> {
    if b {
        "true"@
    } else {
        "false"@
    }
}

/// The numbers of `v` in decimal, separated by `", "`.
pub open spec fn usizes_joined(v: Seq<usize>) -> Seq<char>
    decreases v.len(),
{
    if v.len() == 0 {
        Seq::empty()
    } else if v.len() == 1 {
        nat_text(v[0] as nat)
    } else {
        usizes_joined(v.drop_last()) + ", "@ + nat_text(v.last() as nat)
    }
}

/// How `{:?}` prints a list of numbers: `[`, the numbers separated by
/// `", "`, `]`.
pub open spec fn usize_list_debug(v: Seq<usize>) -> Seq<char> {
    "["@ + usizes_joined(v) + "]"@
}

} // verus!
