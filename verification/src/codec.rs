use vstd::prelude::*;

verus! {

// ---------------------------------------------------------------------------
// Specification of the textual wire encoding: JSON string escaping and
// unsigned decimal numerals.
// ---------------------------------------------------------------------------

/// How one character appears inside a JSON string body: quotes and
/// backslashes carry a backslash escape, everything else stands as itself.
pub open spec fn esc_char(c: char) -> Seq<char> {
    if c == '"' || c == '\\' {
        seq!['\\', c]
    } else {
        seq![c]
    }
}

/// The escaped body of a JSON string.
pub open spec fn esc(s: Seq<char>) -> Seq<char>
    decreases s.len(),
{
    if s.len() == 0 {
        Seq::empty()
    } else {
        esc_char(s[0]) + esc(s.skip(1))
    }
}

/// A JSON string: quote, escaped body, quote.
pub open spec fn enc_str(s: Seq<char>) -> Seq<char> {
    seq!['"'] + esc(s) + seq!['"']
}

/// Whether `p` occurs in `s` starting at position `i`.
pub open spec fn prefix_of(p: Seq<char>, s: Seq<char>, i: int) -> bool {
    0 <= i && i + p.len() <= s.len() && s.subrange(i, i + p.len()) == p
}

/// Whether `c` is a decimal digit.
pub open spec fn is_digit(c: char) -> bool {
    48 <= c as u32 && c as u32 <= 57
}

/// The value of one digit character.
pub open spec fn digit_val(c: char) -> int {
    c as u32 - 48
}

/// The digit character for a value below ten.
pub open spec fn digit_char(d: int) -> char {
    if d == 0 {
        '0'
    } else if d == 1 {
        '1'
    } else if d == 2 {
        '2'
    } else if d == 3 {
        '3'
    } else if d == 4 {
        '4'
    } else if d == 5 {
        '5'
    } else if d == 6 {
        '6'
    } else if d == 7 {
        '7'
    } else if d == 8 {
        '8'
    } else {
        '9'
    }
}

/// The decimal numeral of a non-negative number, most significant digit
/// first, without leading zeros.
pub open spec fn dec_digits(n: int) -> Seq<char>
    decreases n,
{
    if n < 10 {
        seq![digit_char(n)]
    } else {
        dec_digits(n / 10).push(digit_char(n % 10))
    }
}

/// The value of a digit string, most significant digit first.
pub open spec fn digits_val(s: Seq<char>) -> int
    decreases s.len(),
{
    if s.len() == 0 {
        0
    } else {
        digits_val(s.drop_last()) * 10 + digit_val(s.last())
    }
}

/// Whether every character of `s` is a decimal digit.
pub open spec fn all_digits(s: Seq<char>) -> bool {
    forall|i: int| 0 <= i < s.len() ==> is_digit(#[trigger] s[i])
}

// ---------------------------------------------------------------------------
// Lemmas about the encoding
// ---------------------------------------------------------------------------

/// A subrange splits at any interior point.
pub proof fn lemma_subrange_join(s: Seq<char>, i: int, j: int, k: int)
    requires
        0 <= i <= j <= k <= s.len(),
    ensures
        s.subrange(i, k) == s.subrange(i, j) + s.subrange(j, k),
{
    assert(s.subrange(i, k) =~= s.subrange(i, j) + s.subrange(j, k));
}

/// A prefix made of two parts places each part.
pub proof fn lemma_prefix_split(a: Seq<char>, b: Seq<char>, s: Seq<char>, i: int)
    requires
        prefix_of(a + b, s, i),
    ensures
        prefix_of(a, s, i),
        prefix_of(b, s, i + a.len()),
{
    assert forall|m: int| 0 <= m < a.len() implies s.subrange(i, i + a.len())[m] == a[m] by {
        assert(s.subrange(i, i + (a + b).len())[m] == (a + b)[m]);
    }
    assert(s.subrange(i, i + a.len()) =~= a);
    assert forall|m: int| 0 <= m < b.len() implies s.subrange(
        i + a.len(),
        i + a.len() + b.len(),
    )[m] == b[m] by {
        assert(s.subrange(i, i + (a + b).len())[a.len() + m] == (a + b)[a.len() + m]);
    }
    assert(s.subrange(i + a.len(), i + a.len() + b.len()) =~= b);
}

/// Escaping distributes over concatenation.
pub proof fn lemma_esc_append(a: Seq<char>, b: Seq<char>)
    ensures
        esc(a + b) == esc(a) + esc(b),
    decreases a.len(),
{
    if a.len() == 0 {
        assert(a + b =~= b);
        assert(esc(a) + esc(b) =~= esc(b));
    } else {
        assert((a + b).skip(1) =~= a.skip(1) + b);
        lemma_esc_append(a.skip(1), b);
        assert((a + b)[0] == a[0]);
        assert(esc_char(a[0]) + (esc(a.skip(1)) + esc(b)) =~= (esc_char(a[0]) + esc(a.skip(1)))
            + esc(b));
    }
}

/// Escaping one more character extends the escaped body.
pub proof fn lemma_esc_push(s: Seq<char>, c: char)
    ensures
        esc(s.push(c)) == esc(s) + esc_char(c),
{
    assert(s.push(c) =~= s + seq![c]);
    lemma_esc_append(s, seq![c]);
    assert(seq![c].len() == 1);
    assert(seq![c][0] == c);
    assert(seq![c].skip(1) =~= Seq::<char>::empty());
    assert(esc(seq![c]) == esc_char(c) + esc(Seq::<char>::empty()));
    assert(esc(Seq::<char>::empty()) =~= Seq::<char>::empty());
    assert(esc_char(c) + Seq::<char>::empty() =~= esc_char(c));
}

/// The escaped body splits at any interior point of the raw text.
pub proof fn lemma_esc_take_skip(t: Seq<char>, m: int)
    requires
        0 <= m <= t.len(),
    ensures
        esc(t) == esc(t.take(m)) + esc(t.skip(m)),
{
    assert(t.take(m) + t.skip(m) =~= t);
    lemma_esc_append(t.take(m), t.skip(m));
}

/// Where a JSON string encoding sits at `i` in `s` and `m` characters of its
/// raw text are already accounted for, this places the next input character:
/// it is the head of the remaining escaped body, never a bare quote.
pub proof fn lemma_enc_str_char_at(t: Seq<char>, m: int, s: Seq<char>, i: int)
    requires
        prefix_of(enc_str(t), s, i),
        0 <= m < t.len(),
    ensures
        i + 1 + esc(t.take(m)).len() < s.len(),
        s[i + 1 + esc(t.take(m)).len()] == esc(t.skip(m))[0],
        esc(t.skip(m))[0] != '"',
        (t[m] == '"' || t[m] == '\\') ==> esc(t.skip(m))[0] == '\\' && i + 2 + esc(
            t.take(m),
        ).len() < s.len() && s[i + 2 + esc(t.take(m)).len()] == t[m],
        (t[m] != '"' && t[m] != '\\') ==> esc(t.skip(m))[0] == t[m],
        t.take(m + 1) == t.take(m).push(t[m]),
        esc(t.take(m + 1)) == esc(t.take(m)) + esc_char(t[m]),
{
    lemma_esc_take_skip(t, m);
    let e = esc(t.take(m)).len() as int;
    let rest = t.skip(m);
    assert(rest.len() > 0);
    assert(rest[0] == t[m]);
    assert(esc(rest) == esc_char(rest[0]) + esc(rest.skip(1)));
    assert(esc(rest)[0] == esc_char(t[m])[0]);
    assert(esc(rest).len() >= esc_char(t[m]).len());
    assert(esc(t).len() == e + esc(rest).len());
    assert forall|d: int| 0 <= d < enc_str(t).len() implies s[i + d] == enc_str(t)[d] by {
        assert(s.subrange(i, i + enc_str(t).len())[d] == enc_str(t)[d]);
    }
    assert(enc_str(t).len() == 2 + esc(t).len());
    assert(enc_str(t)[1 + e] == esc(t)[e]) by {
        assert((seq!['"'] + esc(t))[1 + e] == esc(t)[e]);
        assert(((seq!['"'] + esc(t)) + seq!['"'])[1 + e] == (seq!['"'] + esc(t))[1 + e]);
    }
    assert(esc(t)[e] == esc(rest)[0]) by {
        assert((esc(t.take(m)) + esc(rest))[e] == esc(rest)[0]);
    }
    assert(s[i + 1 + e] == esc(rest)[0]);
    if t[m] == '"' || t[m] == '\\' {
        assert(esc_char(t[m]) == seq!['\\', t[m]]);
        assert(esc(rest)[1] == esc_char(t[m])[1]) by {
            assert((esc_char(rest[0]) + esc(rest.skip(1)))[1] == esc_char(rest[0])[1]);
        }
        assert(enc_str(t)[2 + e] == esc(t)[1 + e]) by {
            assert((seq!['"'] + esc(t))[2 + e] == esc(t)[1 + e]);
            assert(((seq!['"'] + esc(t)) + seq!['"'])[2 + e] == (seq!['"'] + esc(t))[2 + e]);
        }
        assert(esc(t)[1 + e] == esc(rest)[1]) by {
            assert((esc(t.take(m)) + esc(rest))[1 + e] == esc(rest)[1]);
        }
        assert(s[i + 2 + e] == t[m]);
    }
    assert(t.take(m + 1) =~= t.take(m).push(t[m]));
    lemma_esc_push(t.take(m), t[m]);
}

/// Where a JSON string encoding sits at `i` in `s`, the opening quote is at
/// `i` and the closing quote right after the escaped body.
pub proof fn lemma_enc_str_bounds(t: Seq<char>, s: Seq<char>, i: int)
    requires
        prefix_of(enc_str(t), s, i),
    ensures
        i + 1 + esc(t).len() < s.len(),
        s[i] == '"',
        s[i + 1 + esc(t).len()] == '"',
{
    assert forall|d: int| 0 <= d < enc_str(t).len() implies s[i + d] == enc_str(t)[d] by {
        assert(s.subrange(i, i + enc_str(t).len())[d] == enc_str(t)[d]);
    }
    assert(enc_str(t)[0] == '"') by {
        assert((seq!['"'] + esc(t))[0] == '"');
        assert(((seq!['"'] + esc(t)) + seq!['"'])[0] == (seq!['"'] + esc(t))[0]);
    }
    assert(enc_str(t)[1 + esc(t).len() as int] == '"') by {
        assert(((seq!['"'] + esc(t)) + seq!['"'])[1 + esc(t).len() as int] == '"');
    }
}

// ---------------------------------------------------------------------------
// Executable character plumbing
// ---------------------------------------------------------------------------

/// Relies on std's `FromIterator` for `String` over `char`: collecting
/// characters yields the string of exactly those characters.
#[verifier::external_body]
pub fn chars_to_string(v: &Vec<char>) -> (r: String)
    ensures
        r@ == v@,
{
    v.iter().collect()
}

/// The characters of `s`, in order.
#[verifier::loop_isolation(false)]
pub fn str_to_chars(s: &str) -> (r: Vec<char>)
    ensures
        r@ == s@,
{
    let n = s.unicode_len();
    let mut out: Vec<char> = Vec::new();
    let mut i: usize = 0;
    while i < n
        invariant
            i <= n,
            out@ =~= s@.take(i as int),
        decreases n - i,
    {
        out.push(s.get_char(i));
        i = i + 1;
    }
    proof {
        assert(s@.take(n as int) =~= s@);
    }
    out
}

/// Append the characters of `lit` to `out`.
#[verifier::loop_isolation(false)]
pub fn append_lit(out: &mut Vec<char>, lit: &str)
    ensures
        final(out)@ == old(out)@ + lit@,
{
    let n = lit.unicode_len();
    let mut i: usize = 0;
    while i < n
        invariant
            i <= n,
            out@ =~= old(out)@ + lit@.take(i as int),
        decreases n - i,
    {
        out.push(lit.get_char(i));
        proof {
            assert(out@ =~= old(out)@ + lit@.take(i as int + 1));
        }
        i = i + 1;
    }
    proof {
        assert(lit@.take(n as int) =~= lit@);
    }
}

/// Append the JSON string encoding of `field` to `out`.
#[verifier::loop_isolation(false)]
pub fn append_str_enc(out: &mut Vec<char>, field: &str)
    ensures
        final(out)@ == old(out)@ + enc_str(field@),
{
    let n = field.unicode_len();
    out.push('"');
    let mut i: usize = 0;
    while i < n
        invariant
            i <= n,
            out@ =~= old(out)@ + seq!['"'] + esc(field@.take(i as int)),
        decreases n - i,
    {
        let c = field.get_char(i);
        if c == '"' || c == '\\' {
            out.push('\\');
            out.push(c);
        } else {
            out.push(c);
        }
        proof {
            assert(field@.take(i as int + 1) =~= field@.take(i as int).push(c));
            lemma_esc_push(field@.take(i as int), c);
            assert(out@ =~= old(out)@ + seq!['"'] + esc(field@.take(i as int + 1)));
        }
        i = i + 1;
    }
    out.push('"');
    proof {
        assert(field@.take(n as int) =~= field@);
        assert(out@ =~= old(out)@ + enc_str(field@));
    }
}

/// Whether the characters of `lit` sit in `s` at position `i`; on success
/// the returned position is just past them.
#[verifier::loop_isolation(false)]
pub fn eat_lit(s: &Vec<char>, i: usize, lit: &str) -> (r: Option<usize>)
    ensures
        match r {
            Some(j) => prefix_of(lit@, s@, i as int) && j == i + lit@.len(),
            None => !prefix_of(lit@, s@, i as int),
        },
{
    let n = lit.unicode_len();
    if i > s.len() || n > s.len() - i {
        return None;
    }
    let mut k: usize = 0;
    while k < n
        invariant
            k <= n,
            forall|m: int| 0 <= m < k ==> s@[i + m] == lit@[m],
        decreases n - k,
    {
        if s[i + k] != lit.get_char(k) {
            proof {
                assert(!prefix_of(lit@, s@, i as int)) by {
                    if prefix_of(lit@, s@, i as int) {
                        assert(s@.subrange(i as int, i as int + lit@.len())[k as int]
                            == lit@[k as int]);
                    }
                }
            }
            return None;
        }
        k = k + 1;
    }
    proof {
        assert(s@.subrange(i as int, i as int + n as int) =~= lit@);
    }
    Some(i + n)
}


/// Whether the parsed characters equal the tag `lit`.
#[verifier::loop_isolation(false)]
pub fn chars_eq_lit(v: &Vec<char>, lit: &str) -> (r: bool)
    ensures
        r == (v@ == lit@),
{
    let n = lit.unicode_len();
    if v.len() != n {
        proof {
            assert(v@.len() != lit@.len());
        }
        return false;
    }
    let mut k: usize = 0;
    while k < n
        invariant
            k <= n,
            forall|m: int| 0 <= m < k ==> v@[m] == lit@[m],
        decreases n - k,
    {
        if v[k] != lit.get_char(k) {
            return false;
        }
        k = k + 1;
    }
    proof {
        assert(v@ =~= lit@);
    }
    true
}

/// Parse one JSON string starting at `i`: the raw text and the position just
/// past the closing quote. Exactly the canonical encodings are accepted, so
/// decoding inverts encoding: where the input carries `enc_str(t)` at `i`,
/// the parse returns `t` itself.
#[verifier::loop_isolation(false)]
pub fn parse_string(s: &Vec<char>, i: usize) -> (r: Option<(Vec<char>, usize)>)
    ensures
        r matches Some(p) ==> i < p.1 && p.1 <= s@.len() && s@.subrange(i as int, p.1 as int)
            == enc_str(p.0@),
        forall|t: Seq<char>| #[trigger] prefix_of(enc_str(t), s@, i as int) ==> (match r {
            Some(p) => p.0@ == t && p.1 == i + enc_str(t).len(),
            None => false,
        }),
{
    if i >= s.len() || s[i] != '"' {
        proof {
            assert forall|t: Seq<char>| !prefix_of(enc_str(t), s@, i as int) by {
                if prefix_of(enc_str(t), s@, i as int) {
                    lemma_enc_str_bounds(t, s@, i as int);
                }
            }
        }
        return None;
    }
    let mut out: Vec<char> = Vec::new();
    let mut k: usize = i + 1;
    while k < s.len()
        invariant
            i + 1 <= k <= s@.len(),
            s@.subrange(i as int + 1, k as int) == esc(out@),
            forall|t: Seq<char>| #[trigger] prefix_of(enc_str(t), s@, i as int) ==> out@.len()
                <= t.len() && out@ == t.take(out@.len() as int),
        decreases s@.len() - k,
    {
        let ghost m = out@.len() as int;
        proof {
            assert(k as int == i + 1 + esc(out@).len()) by {
                assert(s@.subrange(i as int + 1, k as int).len() == esc(out@).len());
            }
        }
        let c = s[k];
        if c == '"' {
            proof {
                lemma_subrange_join(s@, i as int, i as int + 1, k as int);
                lemma_subrange_join(s@, i as int, k as int, k as int + 1);
                assert(s@.subrange(i as int, i as int + 1) =~= seq![s@[i as int]]);
                assert(s@.subrange(k as int, k as int + 1) =~= seq![s@[k as int]]);
                assert(s@.subrange(i as int, k as int + 1) =~= enc_str(out@));
                assert forall|t: Seq<char>| #[trigger] prefix_of(enc_str(t), s@, i as int)
                    implies out@ == t && k + 1 == i + enc_str(t).len() by {
                    if m < t.len() {
                        lemma_enc_str_char_at(t, m, s@, i as int);
                        assert(esc(t.take(m)) == esc(out@));
                        assert(s@[k as int] == esc(t.skip(m))[0]);
                        assert(false);
                    }
                    assert(out@ == t.take(t.len() as int));
                    assert(t.take(t.len() as int) =~= t);
                    lemma_enc_str_bounds(t, s@, i as int);
                }
            }
            return Some((out, k + 1));
        } else if c == '\\' {
            if k + 1 >= s.len() {
                proof {
                    assert forall|t: Seq<char>| !prefix_of(enc_str(t), s@, i as int) by {
                        if prefix_of(enc_str(t), s@, i as int) {
                            if m < t.len() {
                                lemma_enc_str_char_at(t, m, s@, i as int);
                                assert(esc(t.take(m)) == esc(out@));
                                if t[m] == '"' || t[m] == '\\' {
                                    assert(i + 2 + esc(t.take(m)).len() < s@.len());
                                } else {
                                    assert(s@[k as int] == t[m]);
                                }
                            } else {
                                assert(out@ == t.take(t.len() as int));
                                assert(t.take(t.len() as int) =~= t);
                                lemma_enc_str_bounds(t, s@, i as int);
                            }
                        }
                    }
                }
                return None;
            }
            let c2 = s[k + 1];
            if c2 != '"' && c2 != '\\' {
                proof {
                    assert forall|t: Seq<char>| !prefix_of(enc_str(t), s@, i as int) by {
                        if prefix_of(enc_str(t), s@, i as int) {
                            if m < t.len() {
                                lemma_enc_str_char_at(t, m, s@, i as int);
                                assert(esc(t.take(m)) == esc(out@));
                                if t[m] == '"' || t[m] == '\\' {
                                    assert(s@[k as int + 1] == t[m]);
                                } else {
                                    assert(s@[k as int] == t[m]);
                                }
                            } else {
                                assert(out@ == t.take(t.len() as int));
                                assert(t.take(t.len() as int) =~= t);
                                lemma_enc_str_bounds(t, s@, i as int);
                            }
                        }
                    }
                }
                return None;
            }
            let ghost pre = out@;
            out.push(c2);
            proof {
                lemma_esc_push(pre, c2);
                assert(esc_char(c2) == seq!['\\', c2]);
                lemma_subrange_join(s@, i as int + 1, k as int, k as int + 2);
                assert(s@.subrange(k as int, k as int + 2) =~= seq!['\\', c2]);
                assert(s@.subrange(i as int + 1, k as int + 2) =~= esc(out@));
                assert forall|t: Seq<char>| #[trigger] prefix_of(enc_str(t), s@, i as int)
                    implies out@.len() <= t.len() && out@ == t.take(out@.len() as int) by {
                    if m < t.len() {
                        lemma_enc_str_char_at(t, m, s@, i as int);
                        assert(esc(t.take(m)) == esc(pre));
                        if t[m] == '"' || t[m] == '\\' {
                            assert(s@[k as int + 1] == t[m]);
                            assert(c2 == t[m]);
                            assert(out@ =~= t.take(m + 1));
                        } else {
                            assert(s@[k as int] == t[m]);
                            assert(false);
                        }
                    } else {
                        assert(pre == t.take(t.len() as int));
                        assert(t.take(t.len() as int) =~= t);
                        lemma_enc_str_bounds(t, s@, i as int);
                        assert(false);
                    }
                }
            }
            k = k + 2;
        } else {
            let ghost pre = out@;
            out.push(c);
            proof {
                lemma_esc_push(pre, c);
                assert(esc_char(c) == seq![c]);
                lemma_subrange_join(s@, i as int + 1, k as int, k as int + 1);
                assert(s@.subrange(k as int, k as int + 1) =~= seq![c]);
                assert(s@.subrange(i as int + 1, k as int + 1) =~= esc(out@));
                assert forall|t: Seq<char>| #[trigger] prefix_of(enc_str(t), s@, i as int)
                    implies out@.len() <= t.len() && out@ == t.take(out@.len() as int) by {
                    if m < t.len() {
                        lemma_enc_str_char_at(t, m, s@, i as int);
                        assert(esc(t.take(m)) == esc(pre));
                        if t[m] == '"' || t[m] == '\\' {
                            assert(s@[k as int] == '\\');
                            assert(false);
                        } else {
                            assert(s@[k as int] == t[m]);
                            assert(c == t[m]);
                            assert(out@ =~= t.take(m + 1));
                        }
                    } else {
                        assert(pre == t.take(t.len() as int));
                        assert(t.take(t.len() as int) =~= t);
                        lemma_enc_str_bounds(t, s@, i as int);
                        assert(false);
                    }
                }
            }
            k = k + 1;
        }
    }
    proof {
        assert forall|t: Seq<char>| !prefix_of(enc_str(t), s@, i as int) by {
            if prefix_of(enc_str(t), s@, i as int) {
                let m = out@.len() as int;
                assert(k as int == i + 1 + esc(out@).len()) by {
                    assert(s@.subrange(i as int + 1, k as int).len() == esc(out@).len());
                }
                if m < t.len() {
                    lemma_enc_str_char_at(t, m, s@, i as int);
                    assert(esc(t.take(m)) == esc(out@));
                } else {
                    assert(out@ == t.take(t.len() as int));
                    assert(t.take(t.len() as int) =~= t);
                    lemma_enc_str_bounds(t, s@, i as int);
                }
            }
        }
    }
    None
}

// ---------------------------------------------------------------------------
// Decimal numerals
// ---------------------------------------------------------------------------

/// Powers of ten.
pub open spec fn pow10(k: nat) -> int
    decreases k,
{
    if k == 0 {
        1
    } else {
        10 * pow10((k - 1) as nat)
    }
}

pub proof fn lemma_pow10_pos(k: nat)
    ensures
        pow10(k) >= 1,
    decreases k,
{
    if k > 0 {
        lemma_pow10_pos((k - 1) as nat);
    }
}

/// `digit_char` and `digit_val` invert each other on digit values.
pub proof fn lemma_digit_char_val(d: int)
    requires
        0 <= d < 10,
    ensures
        digit_val(digit_char(d)) == d,
        is_digit(digit_char(d)),
{
}

/// `digit_char` and `digit_val` invert each other on digit characters.
pub proof fn lemma_digit_val_char(c: char)
    requires
        is_digit(c),
    ensures
        digit_char(digit_val(c)) == c,
        0 <= digit_val(c) < 10,
{
    let u = c as u32;
    if u == 48 {
        assert(c == '0');
    } else if u == 49 {
        assert(c == '1');
    } else if u == 50 {
        assert(c == '2');
    } else if u == 51 {
        assert(c == '3');
    } else if u == 52 {
        assert(c == '4');
    } else if u == 53 {
        assert(c == '5');
    } else if u == 54 {
        assert(c == '6');
    } else if u == 55 {
        assert(c == '7');
    } else if u == 56 {
        assert(c == '8');
    } else {
        assert(c == '9');
    }
}

pub proof fn lemma_digits_val_nonneg(s: Seq<char>)
    requires
        all_digits(s),
    ensures
        digits_val(s) >= 0,
    decreases s.len(),
{
    if s.len() > 0 {
        assert(all_digits(s.drop_last()));
        lemma_digits_val_nonneg(s.drop_last());
        assert(is_digit(s.last()));
    }
}

/// The value of a digit string made of two parts.
pub proof fn lemma_digits_val_append(a: Seq<char>, b: Seq<char>)
    requires
        all_digits(a),
        all_digits(b),
    ensures
        digits_val(a + b) == digits_val(a) * pow10(b.len()) + digits_val(b),
    decreases b.len(),
{
    if b.len() == 0 {
        assert(a + b =~= a);
    } else {
        assert((a + b).drop_last() =~= a + b.drop_last());
        assert(all_digits(b.drop_last()));
        assert((a + b).last() == b.last());
        lemma_digits_val_append(a, b.drop_last());
        let x = digits_val(a);
        let y = digits_val(b.drop_last());
        let p = pow10((b.len() - 1) as nat);
        assert((x * p + y) * 10 == x * (10 * p) + y * 10) by (nonlinear_arith);
        assert(pow10(b.len()) == 10 * pow10((b.len() - 1) as nat));
    }
}

/// A digit-string prefix never exceeds the whole string in value.
pub proof fn lemma_digits_val_take(s: Seq<char>, m: int)
    requires
        all_digits(s),
        0 <= m <= s.len(),
    ensures
        0 <= digits_val(s.take(m)) <= digits_val(s),
{
    assert(s.take(m) + s.skip(m) =~= s);
    assert(all_digits(s.take(m)));
    assert(all_digits(s.skip(m)));
    lemma_digits_val_append(s.take(m), s.skip(m));
    lemma_digits_val_nonneg(s.take(m));
    lemma_digits_val_nonneg(s.skip(m));
    lemma_pow10_pos(s.skip(m).len());
    let x = digits_val(s.take(m));
    let p = pow10(s.skip(m).len());
    assert(x * p >= x) by (nonlinear_arith)
        requires
            x >= 0,
            p >= 1,
    ;
}

/// The shape of a canonical numeral: digits only, no leading zero unless the
/// number is itself a single digit, and its value is the number.
pub proof fn lemma_dec_digits_shape(n: int)
    requires
        n >= 0,
    ensures
        all_digits(dec_digits(n)),
        dec_digits(n).len() >= 1,
        digits_val(dec_digits(n)) == n,
        n >= 10 ==> dec_digits(n)[0] != '0',
        n < 10 ==> dec_digits(n) == seq![digit_char(n)],
    decreases n,
{
    if n < 10 {
        lemma_digit_char_val(n);
        assert(digits_val(Seq::<char>::empty()) == 0);
        assert(dec_digits(n).drop_last() =~= Seq::<char>::empty());
        assert(dec_digits(n).last() == digit_char(n));
        assert(digits_val(dec_digits(n)) == digit_val(digit_char(n)));
        assert(all_digits(dec_digits(n)));
    } else {
        assert(0 <= n / 10 < n) by (nonlinear_arith)
            requires
                n >= 10,
        ;
        assert(0 <= n % 10 < 10) by (nonlinear_arith);
        lemma_dec_digits_shape(n / 10);
        lemma_digit_char_val(n % 10);
        assert(dec_digits(n).drop_last() =~= dec_digits(n / 10));
        assert(dec_digits(n).last() == digit_char(n % 10));
        assert(n / 10 * 10 + n % 10 == n) by (nonlinear_arith);
        assert(dec_digits(n)[0] == dec_digits(n / 10)[0]);
        if n / 10 < 10 {
            assert(dec_digits(n / 10) == seq![digit_char(n / 10)]);
            assert(n / 10 >= 1);
            lemma_digit_char_val(n / 10);
            assert(digit_val('0') == 0);
            assert(dec_digits(n / 10)[0] != '0');
        }
        assert forall|q: int| 0 <= q < dec_digits(n).len() implies is_digit(
            #[trigger] dec_digits(n)[q],
        ) by {
            if q < dec_digits(n / 10).len() {
                assert(dec_digits(n)[q] == dec_digits(n / 10)[q]);
            } else {
                assert(dec_digits(n)[q] == digit_char(n % 10));
            }
        }
    }
}

/// Decoding inverts encoding for numerals: a canonical digit string is the
/// numeral of its own value.
pub proof fn lemma_canonical_digits(w: Seq<char>)
    requires
        w.len() >= 1,
        all_digits(w),
        w[0] != '0' || w.len() == 1,
    ensures
        digits_val(w) >= 0,
        dec_digits(digits_val(w)) == w,
        w.len() >= 2 ==> digits_val(w) >= 10,
    decreases w.len(),
{
    lemma_digits_val_nonneg(w);
    if w.len() == 1 {
        lemma_digit_val_char(w[0]);
        assert(digits_val(Seq::<char>::empty()) == 0);
        assert(w.drop_last() =~= Seq::<char>::empty());
        assert(w.last() == w[0]);
        assert(digits_val(w) == digit_val(w[0]));
        assert(dec_digits(digits_val(w)) =~= w);
    } else {
        let w0 = w.drop_last();
        assert(all_digits(w0));
        assert(w0[0] == w[0]);
        lemma_canonical_digits(w0);
        // the leading digit keeps the head value at one or more
        assert(digits_val(w0) >= 1) by {
            assert(w0.take(1) + w0.skip(1) =~= w0);
            assert(all_digits(w0.take(1)));
            assert(all_digits(w0.skip(1)));
            lemma_digits_val_append(w0.take(1), w0.skip(1));
            lemma_digits_val_nonneg(w0.skip(1));
            lemma_pow10_pos(w0.skip(1).len());
            assert(digits_val(Seq::<char>::empty()) == 0);
            assert(w0.take(1).drop_last() =~= Seq::<char>::empty());
            assert(w0.take(1).last() == w0[0]);
            assert(digits_val(w0.take(1)) == digit_val(w0[0]));
            lemma_digit_val_char(w0[0]);
            assert(digit_val(w0[0]) >= 1);
            let x = digits_val(w0.take(1));
            let p = pow10(w0.skip(1).len());
            assert(x * p >= x) by (nonlinear_arith)
                requires
                    x >= 0,
                    p >= 1,
            ;
        }
        let d = digit_val(w.last());
        lemma_digit_val_char(w.last());
        let v = digits_val(w);
        assert(v == digits_val(w0) * 10 + d);
        assert(v >= 10) by (nonlinear_arith)
            requires
                digits_val(w0) >= 1,
                d >= 0,
                v == digits_val(w0) * 10 + d,
        ;
        assert(v / 10 == digits_val(w0) && v % 10 == d) by (nonlinear_arith)
            requires
                v == digits_val(w0) * 10 + d,
                0 <= d < 10,
        ;
        assert(dec_digits(v) == dec_digits(digits_val(w0)).push(digit_char(d)));
        assert(dec_digits(v) =~= w);
    }
}

/// The digit character of a value below ten.
pub fn digit_of(d: u32) -> (c: char)
    requires
        d < 10,
    ensures
        c == digit_char(d as int),
{
    if d == 0 {
        '0'
    } else if d == 1 {
        '1'
    } else if d == 2 {
        '2'
    } else if d == 3 {
        '3'
    } else if d == 4 {
        '4'
    } else if d == 5 {
        '5'
    } else if d == 6 {
        '6'
    } else if d == 7 {
        '7'
    } else if d == 8 {
        '8'
    } else {
        '9'
    }
}

/// Append the canonical decimal numeral of `n` to `out`.
pub fn append_u32(out: &mut Vec<char>, n: u32)
    ensures
        final(out)@ == old(out)@ + dec_digits(n as int),
    decreases n,
{
    if n < 10 {
        out.push(digit_of(n));
        proof {
            assert(out@ =~= old(out)@ + dec_digits(n as int));
        }
    } else {
        proof {
            assert(n / 10 < n && n % 10 < 10) by (nonlinear_arith)
                requires
                    n >= 10,
            ;
        }
        append_u32(out, n / 10);
        out.push(digit_of(n % 10));
        proof {
            assert(out@ =~= old(out)@ + dec_digits(n as int));
        }
    }
}

/// Parse one canonical decimal numeral starting at `i`: its value and the
/// position just past it. Exactly the canonical forms are accepted, so where
/// the input carries `dec_digits(n)` at `i`, followed by no further digit,
/// the parse returns `n` itself.
#[verifier::loop_isolation(false)]
pub fn parse_u32(s: &Vec<char>, i: usize) -> (r: Option<(u32, usize)>)
    ensures
        r matches Some(p) ==> i < p.1 && p.1 <= s@.len() && s@.subrange(i as int, p.1 as int)
            == dec_digits(p.0 as int),
        forall|n: u32|
            (#[trigger] prefix_of(dec_digits(n as int), s@, i as int) && (i + dec_digits(
                n as int,
            ).len() == s@.len() || !is_digit(s@[i + dec_digits(n as int).len()]))) ==> (match r {
                Some(p) => p.0 == n && p.1 == i + dec_digits(n as int).len(),
                None => false,
            }),
{
    if i >= s.len() || !(48 <= (s[i] as u32) && (s[i] as u32) <= 57) {
        proof {
            assert forall|n: u32| !prefix_of(dec_digits(n as int), s@, i as int) by {
                if prefix_of(dec_digits(n as int), s@, i as int) {
                    lemma_dec_digits_shape(n as int);
                    assert(s@.subrange(i as int, i + dec_digits(n as int).len())[0]
                        == dec_digits(n as int)[0]);
                    assert(is_digit(s@[i as int]));
                }
            }
        }
        return None;
    }
    let c0 = s[i];
    let d0: u32 = (c0 as u32) - 48;
    proof {
        lemma_digit_val_char(c0);
    }
    if d0 == 0 {
        proof {
            assert(c0 == '0');
            assert(s@.subrange(i as int, i as int + 1) =~= seq!['0']);
            assert(digit_char(0) == '0');
            assert(dec_digits(0) =~= seq!['0']);
            assert forall|n: u32|
                (#[trigger] prefix_of(dec_digits(n as int), s@, i as int) && (i + dec_digits(
                    n as int,
                ).len() == s@.len() || !is_digit(s@[i + dec_digits(n as int).len()]))) implies n
                == 0 && 1 == dec_digits(n as int).len() by {
                lemma_dec_digits_shape(n as int);
                assert(s@.subrange(i as int, i + dec_digits(n as int).len())[0]
                    == dec_digits(n as int)[0]);
                assert(dec_digits(n as int)[0] == '0');
                if n >= 10 {
                    assert(false);
                }
                assert(dec_digits(n as int) == seq![digit_char(n as int)]);
                assert(digit_char(n as int) == '0');
                lemma_digit_char_val(n as int);
            }
        }
        return Some((0, i + 1));
    }
    let mut acc: u64 = d0 as u64;
    let mut k: usize = i + 1;
    proof {
        assert(s@.subrange(i as int, k as int) =~= seq![c0]);
        assert(digits_val(Seq::<char>::empty()) == 0);
        assert(seq![c0].drop_last() =~= Seq::<char>::empty());
        assert(seq![c0].last() == c0);
        assert(digits_val(seq![c0]) == digit_val(c0));
        assert(all_digits(s@.subrange(i as int, k as int)));
    }
    while k < s.len() && 48 <= (s[k] as u32) && (s[k] as u32) <= 57
        invariant
            i < k <= s@.len(),
            all_digits(s@.subrange(i as int, k as int)),
            s@[i as int] != '0',
            acc as int == digits_val(s@.subrange(i as int, k as int)),
            acc <= 4294967295u64,
        decreases s@.len() - k,
    {
        let c = s[k];
        let d: u32 = (c as u32) - 48;
        proof {
            lemma_digit_val_char(c);
            assert(s@.subrange(i as int, k as int + 1).drop_last() =~= s@.subrange(
                i as int,
                k as int,
            ));
            assert(s@.subrange(i as int, k as int + 1).last() == c);
            assert(all_digits(s@.subrange(i as int, k as int + 1)));
        }
        acc = acc * 10 + (d as u64);
        k = k + 1;
        if acc > 4294967295u64 {
            proof {
                assert forall|n: u32|
                    !(prefix_of(dec_digits(n as int), s@, i as int) && (i + dec_digits(
                        n as int,
                    ).len() == s@.len() || !is_digit(s@[i + dec_digits(n as int).len()]))) by {
                    if prefix_of(dec_digits(n as int), s@, i as int) {
                        lemma_dec_digits_shape(n as int);
                        let w = dec_digits(n as int);
                        let ln = w.len() as int;
                        if i + ln == s@.len() || !is_digit(s@[i + ln]) {
                            // the scanned digits cannot run past the numeral
                            assert(k <= i + ln) by {
                                if k > i + ln {
                                    assert(s@.subrange(i as int, k as int)[ln] == s@[i + ln]);
                                    assert(is_digit(s@[i + ln]));
                                }
                            }
                            // so they are a prefix of it, and bounded by its value
                            assert forall|q: int| 0 <= q < k - i implies s@.subrange(
                                i as int,
                                k as int,
                            )[q] == w.take(k - i)[q] by {
                                assert(s@.subrange(i as int, i + ln)[q] == w[q]);
                            }
                            assert(s@.subrange(i as int, k as int) =~= w.take(k - i));
                            lemma_digits_val_take(w, k - i);
                            assert(acc as int <= n as int);
                        }
                    }
                }
            }
            return None;
        }
    }
    proof {
        let w = s@.subrange(i as int, k as int);
        lemma_canonical_digits(w);
        assert forall|n: u32|
            (#[trigger] prefix_of(dec_digits(n as int), s@, i as int) && (i + dec_digits(
                n as int,
            ).len() == s@.len() || !is_digit(s@[i + dec_digits(n as int).len()]))) implies acc
            as int == n as int && k as int == i + dec_digits(n as int).len() by {
            lemma_dec_digits_shape(n as int);
            let v = dec_digits(n as int);
            let ln = v.len() as int;
            assert(k <= i + ln) by {
                if k > i + ln {
                    assert(s@.subrange(i as int, k as int)[ln] == s@[i + ln]);
                    assert(is_digit(s@[i + ln]));
                }
            }
            assert(k >= i + ln) by {
                if k < i + ln {
                    assert(s@.subrange(i as int, i + ln)[k - i] == v[k - i]);
                    assert(is_digit(s@[k as int]));
                }
            }
            assert forall|q: int| 0 <= q < ln implies w[q] == v[q] by {
                assert(s@.subrange(i as int, i + ln)[q] == v[q]);
            }
            assert(w =~= v);
        }
    }
    Some((acc as u32, k))
}

} // verus!
