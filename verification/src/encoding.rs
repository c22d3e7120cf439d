//! Text encoding of the store file: decimal numerals, separator-delimited
//! fields, and the grammar of header and entry lines.
use vstd::prelude::*;

verus! {

use vstd::string::StrSliceExecFns;

// ---------- decimal numerals ----------

pub open spec fn is_digit(c: char) -> bool {
    48 <= c as u32 <= 57
}

pub open spec fn digit_char(d: nat) -> char {
    ((48 + d) as u8) as char
}

pub open spec fn digit_val(c: char) -> int {
    c as u32 - 48
}

pub open spec fn all_digits(s: Seq<char>) -> bool {
    forall|i: int| 0 <= i < s.len() ==> is_digit(#[trigger] s[i])
}

/// Numeric value of a digit string, most significant digit first.
pub open spec fn dec_val(s: Seq<char>) -> int
    decreases s.len(),
{
    if s.len() == 0 {
        0
    } else {
        dec_val(s.drop_last()) * 10 + digit_val(s.last())
    }
}

/// Canonical decimal numeral of `n`, without leading zeros.
pub open spec fn dec_digits(n: nat) -> Seq<char>
    decreases n,
{
    if n < 10 {
        seq![digit_char(n)]
    } else {
        dec_digits(n / 10).push(digit_char(n % 10))
    }
}

/// A field that denotes a `u64`: nonempty, digits only, value in range.
pub open spec fn is_dec_u64(s: Seq<char>) -> bool {
    s.len() > 0 && all_digits(s) && dec_val(s) <= u64::MAX
}

pub proof fn lemma_dec_val_nonneg(s: Seq<char>)
    requires
        all_digits(s),
    ensures
        dec_val(s) >= 0,
    decreases s.len(),
{
    if s.len() > 0 {
        assert(all_digits(s.drop_last()));
        lemma_dec_val_nonneg(s.drop_last());
    }
}

pub proof fn lemma_dec_digits_ok(n: nat)
    ensures
        dec_digits(n).len() >= 1,
        all_digits(dec_digits(n)),
        dec_val(dec_digits(n)) == n,
        n >= 10 ==> dec_digits(n).len() >= 2,
    decreases n,
{
    if n < 10 {
        assert(dec_digits(n) =~= seq![digit_char(n)]);
        assert(dec_digits(n).drop_last() =~= Seq::<char>::empty());
        assert(dec_val(Seq::<char>::empty()) == 0);
        assert(digit_val(digit_char(n)) == n);
    } else {
        lemma_dec_digits_ok(n / 10);
        let s = dec_digits(n);
        assert(s =~= dec_digits(n / 10).push(digit_char((n % 10) as nat)));
        assert(s.drop_last() =~= dec_digits(n / 10));
        assert(s.last() == digit_char((n % 10) as nat));
        assert(digit_val(digit_char((n % 10) as nat)) == n % 10);
        assert(dec_val(s) == (n / 10) * 10 + n % 10);
    }
}

proof fn lemma_dec_val_step(s: Seq<char>, i: int)
    requires
        0 <= i < s.len(),
    ensures
        dec_val(s.take(i + 1)) == dec_val(s.take(i)) * 10 + digit_val(s[i]),
{
    assert(s.take(i + 1).drop_last() =~= s.take(i));
    assert(s.take(i + 1).last() == s[i]);
}

proof fn lemma_dec_val_prefix_le(s: Seq<char>, i: int)
    requires
        all_digits(s),
        0 <= i <= s.len(),
    ensures
        dec_val(s.take(i)) <= dec_val(s),
    decreases s.len() - i,
{
    if i == s.len() {
        assert(s.take(i) =~= s);
    } else {
        lemma_dec_val_step(s, i);
        assert(all_digits(s.take(i)));
        lemma_dec_val_nonneg(s.take(i));
        lemma_dec_val_prefix_le(s, i + 1);
    }
}

/// Renders `v` as its canonical decimal numeral.
pub fn fmt_u64(v: u64) -> (r: Vec<char>)
    ensures
        r@ == dec_digits(v as nat),
    decreases v,
{
    if v < 10 {
        let mut r: Vec<char> = Vec::new();
        r.push((48 + v as u8) as char);
        assert(r@ =~= seq![digit_char(v as nat)]);
        r
    } else {
        let mut r = fmt_u64(v / 10);
        r.push((48 + (v % 10) as u8) as char);
        assert(r@ =~= dec_digits((v / 10) as nat).push(digit_char((v % 10) as nat)));
        r
    }
}

/// Parses the field `v[from..to]` as a `u64`; `None` exactly on fields that
/// denote no `u64` (empty, a non-digit, or out of range).
pub fn parse_dec_u64(v: &Vec<char>, from: usize, to: usize) -> (r: Option<u64>)
    requires
        from <= to <= v@.len(),
    ensures
        r is Some <==> is_dec_u64(v@.subrange(from as int, to as int)),
        r is Some ==> r->Some_0 == dec_val(v@.subrange(from as int, to as int)),
{
    let ghost s = v@.subrange(from as int, to as int);
    let n = to - from;
    if n == 0 {
        return None;
    }
    let mut acc: u64 = 0;
    let mut i: usize = 0;
    while i < n
        invariant
            0 <= i <= n,
            n == to - from,
            from <= to <= v@.len(),
            s == v@.subrange(from as int, to as int),
            all_digits(s.take(i as int)),
            acc == dec_val(s.take(i as int)),
        decreases n - i,
    {
        let c = v[from + i];
        assert(c == s[i as int]);
        let u = c as u32;
        if u < 48 || u > 57 {
            assert(!is_digit(s[i as int]));
            return None;
        }
        let d = (u - 48) as u64;
        proof {
            lemma_dec_val_step(s, i as int);
            assert(all_digits(s.take(i as int + 1)));
        }
        let wide: u128 = acc as u128 * 10 + d as u128;
        if wide > u64::MAX as u128 {
            proof {
                if all_digits(s) {
                    lemma_dec_val_prefix_le(s, i as int + 1);
                }
            }
            return None;
        }
        acc = wide as u64;
        i += 1;
    }
    assert(s.take(n as int) =~= s);
    Some(acc)
}

// ---------- splitting and joining on a separator ----------

/// The occurrences of `c` in `s`.
pub open spec fn count_ch(s: Seq<char>, c: char) -> nat
    decreases s.len(),
{
    if s.len() == 0 {
        0
    } else {
        (if s[0] == c {
            1nat
        } else {
            0nat
        }) + count_ch(s.drop_first(), c)
    }
}

/// Splits `s` on `sep`; always yields one more part than there are separators.
pub open spec fn split_on(s: Seq<char>, sep: char) -> Seq<Seq<char>>
    decreases s.len(),
{
    if s.len() == 0 {
        seq![Seq::<char>::empty()]
    } else {
        let rest = split_on(s.drop_first(), sep);
        if s[0] == sep {
            seq![Seq::<char>::empty()] + rest
        } else {
            seq![seq![s[0]] + rest[0]] + rest.drop_first()
        }
    }
}

/// Joins parts with `sep` between them.
pub open spec fn join_sep(parts: Seq<Seq<char>>, sep: char) -> Seq<char>
    decreases parts.len(),
{
    if parts.len() == 0 {
        Seq::<char>::empty()
    } else if parts.len() == 1 {
        parts[0]
    } else {
        parts[0] + seq![sep] + join_sep(parts.drop_first(), sep)
    }
}

pub proof fn lemma_split_on_len(s: Seq<char>, sep: char)
    ensures
        split_on(s, sep).len() == count_ch(s, sep) + 1,
    decreases s.len(),
{
    if s.len() > 0 {
        lemma_split_on_len(s.drop_first(), sep);
    }
}

pub proof fn lemma_split_on_no_sep_inside(s: Seq<char>, sep: char)
    ensures
        forall|k: int|
            0 <= k < split_on(s, sep).len() ==> !(#[trigger] split_on(s, sep)[k]).contains(sep),
    decreases s.len(),
{
    if s.len() == 0 {
        assert forall|k: int|
            0 <= k < split_on(s, sep).len() implies !(#[trigger] split_on(s, sep)[k]).contains(
            sep,
        ) by {
            assert(split_on(s, sep)[k] =~= Seq::<char>::empty());
        }
    } else {
        lemma_split_on_no_sep_inside(s.drop_first(), sep);
        let rest = split_on(s.drop_first(), sep);
        if s[0] == sep {
            assert forall|k: int|
                0 <= k < split_on(s, sep).len() implies !(#[trigger] split_on(s, sep)[
                k]).contains(sep) by {
                if k == 0 {
                    assert(split_on(s, sep)[0] =~= Seq::<char>::empty());
                } else {
                    assert(split_on(s, sep)[k] == rest[k - 1]);
                }
            }
        } else {
            assert forall|k: int|
                0 <= k < split_on(s, sep).len() implies !(#[trigger] split_on(s, sep)[
                k]).contains(sep) by {
                if k == 0 {
                    let h = seq![s[0]] + rest[0];
                    assert(split_on(s, sep)[0] == h);
                    assert(!rest[0].contains(sep));
                    assert forall|j: int| 0 <= j < h.len() implies h[j] != sep by {
                        if j > 0 {
                            assert(h[j] == rest[0][j - 1]);
                            assert(!rest[0].contains(sep));
                        }
                    }
                } else {
                    assert(split_on(s, sep)[k] == rest.drop_first()[k - 1]);
                    assert(rest.drop_first()[k - 1] == rest[k]);
                }
            }
        }
    }
}

pub proof fn lemma_split_join(s: Seq<char>, sep: char)
    ensures
        join_sep(split_on(s, sep), sep) == s,
    decreases s.len(),
{
    lemma_split_on_len(s, sep);
    if s.len() == 0 {
        assert(join_sep(split_on(s, sep), sep) =~= s);
    } else {
        lemma_split_join(s.drop_first(), sep);
        lemma_split_on_len(s.drop_first(), sep);
        let rest = split_on(s.drop_first(), sep);
        if s[0] == sep {
            assert(split_on(s, sep).drop_first() =~= rest);
            assert(join_sep(split_on(s, sep), sep) =~= seq![sep] + s.drop_first());
            assert(seq![sep] + s.drop_first() =~= s);
        } else {
            let h = seq![s[0]] + rest[0];
            if rest.len() == 1 {
                assert(split_on(s, sep) =~= seq![h]);
                assert(join_sep(rest, sep) == rest[0]);
                assert(rest[0] == s.drop_first());
                assert(h =~= s);
            } else {
                assert(split_on(s, sep).drop_first() =~= rest.drop_first());
                assert(join_sep(rest, sep) == rest[0] + seq![sep] + join_sep(
                    rest.drop_first(),
                    sep,
                ));
                assert(join_sep(split_on(s, sep), sep) == h + seq![sep] + join_sep(
                    rest.drop_first(),
                    sep,
                ));
                assert(h + seq![sep] + join_sep(rest.drop_first(), sep) =~= seq![s[0]] + (rest[0]
                    + seq![sep] + join_sep(rest.drop_first(), sep)));
                assert(seq![s[0]] + s.drop_first() =~= s);
            }
        }
    }
}

pub proof fn lemma_split_push_sep(s: Seq<char>, sep: char)
    ensures
        split_on(s.push(sep), sep) == split_on(s, sep).push(Seq::<char>::empty()),
    decreases s.len(),
{
    lemma_split_on_len(s, sep);
    if s.len() == 0 {
        assert(s.push(sep).drop_first() =~= Seq::<char>::empty());
        assert(split_on(Seq::<char>::empty(), sep) =~~= seq![Seq::<char>::empty()]);
        assert(s.push(sep)[0] == sep);
        assert(split_on(s.push(sep), sep) =~~= split_on(s, sep).push(Seq::<char>::empty()));
    } else {
        lemma_split_push_sep(s.drop_first(), sep);
        assert(s.push(sep).drop_first() =~= s.drop_first().push(sep));
        let rest = split_on(s.drop_first(), sep);
        let restp = split_on(s.drop_first().push(sep), sep);
        assert(restp == rest.push(Seq::<char>::empty()));
        if s[0] == sep {
            assert(split_on(s.push(sep), sep) =~~= (seq![Seq::<char>::empty()] + rest).push(
                Seq::<char>::empty(),
            ));
        } else {
            assert(restp[0] == rest[0]);
            assert(restp.drop_first() =~= rest.drop_first().push(Seq::<char>::empty()));
            assert(split_on(s.push(sep), sep) =~~= (seq![seq![s[0]] + rest[0]]
                + rest.drop_first()).push(Seq::<char>::empty()));
        }
    }
}

pub proof fn lemma_split_push_other(s: Seq<char>, sep: char, x: char)
    requires
        x != sep,
    ensures
        split_on(s.push(x), sep) == split_on(s, sep).update(
            split_on(s, sep).len() - 1,
            split_on(s, sep).last().push(x),
        ),
    decreases s.len(),
{
    lemma_split_on_len(s, sep);
    if s.len() == 0 {
        assert(s.push(x).drop_first() =~= Seq::<char>::empty());
        assert(split_on(Seq::<char>::empty(), sep) =~~= seq![Seq::<char>::empty()]);
        assert(s.push(x)[0] == x);
        assert(split_on(s.push(x), sep) =~~= split_on(s, sep).update(
            split_on(s, sep).len() - 1,
            split_on(s, sep).last().push(x),
        ));
    } else {
        lemma_split_push_other(s.drop_first(), sep, x);
        lemma_split_on_len(s.drop_first(), sep);
        assert(s.push(x).drop_first() =~= s.drop_first().push(x));
        let rest = split_on(s.drop_first(), sep);
        let restp = split_on(s.drop_first().push(x), sep);
        assert(restp == rest.update(rest.len() - 1, rest.last().push(x)));
        if s[0] == sep {
            assert(split_on(s.push(x), sep) =~~= (seq![Seq::<char>::empty()] + rest).update(
                rest.len() as int,
                rest.last().push(x),
            ));
        } else {
            if rest.len() == 1 {
                assert(restp[0] == rest[0].push(x));
                assert(split_on(s.push(x), sep) =~~= (seq![seq![s[0]] + rest[0]]
                    + rest.drop_first()).update(0, (seq![s[0]] + rest[0]).push(x)));
            } else {
                assert(restp[0] == rest[0]);
                assert(restp.drop_first() =~= rest.drop_first().update(
                    rest.len() - 2,
                    rest.last().push(x),
                ));
                assert(split_on(s.push(x), sep) =~~= (seq![seq![s[0]] + rest[0]]
                    + rest.drop_first()).update(rest.len() - 1, rest.last().push(x)));
            }
        }
    }
}

pub proof fn lemma_split_no_sep(a: Seq<char>, sep: char)
    requires
        !a.contains(sep),
    ensures
        split_on(a, sep) == seq![a],
    decreases a.len(),
{
    if a.len() == 0 {
        assert(split_on(a, sep) =~~= seq![a]);
    } else {
        assert(a[0] != sep);
        assert(!a.drop_first().contains(sep)) by {
            if a.drop_first().contains(sep) {
                let j = choose|j: int| 0 <= j < a.drop_first().len() && a.drop_first()[j] == sep;
                assert(a[j + 1] == sep);
            }
        }
        lemma_split_no_sep(a.drop_first(), sep);
        assert(split_on(a, sep) =~~= seq![seq![a[0]] + a.drop_first()]);
        assert(seq![a[0]] + a.drop_first() =~= a);
    }
}

pub proof fn lemma_split_concat(a: Seq<char>, rest: Seq<char>, sep: char)
    requires
        !a.contains(sep),
    ensures
        split_on(a + seq![sep] + rest, sep) == seq![a] + split_on(rest, sep),
    decreases a.len(),
{
    if a.len() == 0 {
        let s = a + seq![sep] + rest;
        assert(s[0] == sep);
        assert(s.drop_first() =~= rest);
        assert(split_on(s, sep) =~~= seq![a] + split_on(rest, sep));
    } else {
        let s = a + seq![sep] + rest;
        assert(s[0] == a[0]);
        assert(a[0] != sep);
        assert(!a.drop_first().contains(sep)) by {
            if a.drop_first().contains(sep) {
                let j = choose|j: int| 0 <= j < a.drop_first().len() && a.drop_first()[j] == sep;
                assert(a[j + 1] == sep);
            }
        }
        lemma_split_concat(a.drop_first(), rest, sep);
        assert(s.drop_first() =~= a.drop_first() + seq![sep] + rest);
        let rec = split_on(s.drop_first(), sep);
        assert(rec == seq![a.drop_first()] + split_on(rest, sep));
        lemma_split_on_len(rest, sep);
        assert(rec[0] == a.drop_first());
        assert(rec.drop_first() =~= split_on(rest, sep));
        assert(seq![s[0]] + rec[0] =~= a);
        assert(split_on(s, sep) =~~= seq![a] + split_on(rest, sep));
    }
}

/// Splits `v[from..to]` on `sep` into owned fields.
pub fn split_fields(v: &Vec<char>, from: usize, to: usize, sep: char) -> (r: Vec<Vec<char>>)
    requires
        from <= to <= v@.len(),
    ensures
        r.deep_view() == split_on(v@.subrange(from as int, to as int), sep),
{
    let ghost s = v@.subrange(from as int, to as int);
    let mut out: Vec<Vec<char>> = Vec::new();
    let mut cur: Vec<char> = Vec::new();
    assert(s.take(0) =~= Seq::<char>::empty());
    assert(split_on(Seq::<char>::empty(), sep) =~~= seq![Seq::<char>::empty()]);
    assert(out.deep_view().push(cur.deep_view()) =~~= seq![Seq::<char>::empty()]);
    let mut i: usize = 0;
    while i < to - from
        invariant
            0 <= i <= to - from,
            from <= to <= v@.len(),
            s == v@.subrange(from as int, to as int),
            out.deep_view().push(cur.deep_view()) == split_on(s.take(i as int), sep),
        decreases to - from - i,
    {
        let c = v[from + i];
        assert(c == s[i as int]);
        assert(s.take(i as int + 1) =~= s.take(i as int).push(s[i as int]));
        if c == sep {
            proof {
                lemma_split_push_sep(s.take(i as int), sep);
            }
            out.push(cur);
            cur = Vec::new();
            assert(out.deep_view().push(cur.deep_view()) =~~= split_on(s.take(i as int + 1), sep));
        } else {
            proof {
                lemma_split_push_other(s.take(i as int), sep, c);
                lemma_split_on_len(s.take(i as int), sep);
            }
            cur.push(c);
            assert(out.deep_view().push(cur.deep_view()) =~~= split_on(s.take(i as int + 1), sep));
        }
        i += 1;
    }
    assert(s.take((to - from) as int) =~= s);
    out.push(cur);
    assert(out.deep_view() =~~= split_on(s, sep));
    out
}

// ---------- lexicographic order on names ----------

/// Strict lexicographic order on character sequences, by code point.
pub open spec fn lex_lt(a: Seq<char>, b: Seq<char>) -> bool
    decreases a.len() + b.len(),
{
    if b.len() == 0 {
        false
    } else if a.len() == 0 {
        true
    } else if (a[0] as u32) < (b[0] as u32) {
        true
    } else if a[0] != b[0] {
        false
    } else {
        lex_lt(a.drop_first(), b.drop_first())
    }
}

pub proof fn lemma_lex_irrefl(a: Seq<char>)
    ensures
        !lex_lt(a, a),
    decreases a.len(),
{
    if a.len() > 0 {
        lemma_lex_irrefl(a.drop_first());
    }
}

pub proof fn lemma_lex_connex(a: Seq<char>, b: Seq<char>)
    requires
        a != b,
    ensures
        lex_lt(a, b) || lex_lt(b, a),
    decreases a.len() + b.len(),
{
    if b.len() == 0 {
        if a.len() == 0 {
            assert(a =~= b);
        }
    } else if a.len() == 0 {
    } else if a[0] == b[0] {
        assert(a.drop_first() != b.drop_first()) by {
            if a.drop_first() == b.drop_first() {
                assert(a.drop_first().len() == a.len() - 1);
                assert(b.drop_first().len() == b.len() - 1);
                assert(a.len() == b.len());
                assert forall|i: int| 0 <= i < a.len() implies a[i] == b[i] by {
                    if i > 0 {
                        assert(a[i] == a.drop_first()[i - 1]);
                        assert(b[i] == b.drop_first()[i - 1]);
                    }
                }
                assert(a =~= b);
            }
        }
        lemma_lex_connex(a.drop_first(), b.drop_first());
    } else {
        vstd::utf8::char_u32_cast(a[0], a[0] as u32);
        vstd::utf8::char_u32_cast(b[0], b[0] as u32);
        assert(a[0] as u32 != b[0] as u32);
    }
}

pub proof fn lemma_lex_trans(a: Seq<char>, b: Seq<char>, c: Seq<char>)
    requires
        lex_lt(a, b),
        lex_lt(b, c),
    ensures
        lex_lt(a, c),
    decreases a.len() + b.len() + c.len(),
{
    if a.len() == 0 {
    } else {
        vstd::utf8::char_u32_cast(a[0], a[0] as u32);
        vstd::utf8::char_u32_cast(b[0], b[0] as u32);
        vstd::utf8::char_u32_cast(c[0], c[0] as u32);
        if a[0] == b[0] && b[0] == c[0] {
            lemma_lex_trans(a.drop_first(), b.drop_first(), c.drop_first());
        }
    }
}

/// Every pair of the sequence is strictly ordered: sorted and duplicate-free.
pub open spec fn sorted_strict(cs: Seq<Seq<char>>) -> bool {
    forall|i: int, j: int| 0 <= i < j < cs.len() ==> lex_lt(#[trigger] cs[i], #[trigger] cs[j])
}

proof fn lemma_lex_span(cs: Seq<Seq<char>>, i: int, j: int)
    requires
        forall|k: int| 0 <= k < cs.len() - 1 ==> lex_lt(#[trigger] cs[k], cs[k + 1]),
        0 <= i < j < cs.len(),
    ensures
        lex_lt(cs[i], cs[j]),
    decreases j - i,
{
    if j == i + 1 {
    } else {
        lemma_lex_span(cs, i, j - 1);
        lemma_lex_trans(cs[i], cs[j - 1], cs[j]);
    }
}

pub proof fn lemma_sorted_from_adjacent(cs: Seq<Seq<char>>)
    requires
        forall|k: int| 0 <= k < cs.len() - 1 ==> lex_lt(#[trigger] cs[k], cs[k + 1]),
    ensures
        sorted_strict(cs),
{
    assert forall|i: int, j: int| 0 <= i < j < cs.len() implies lex_lt(
        #[trigger] cs[i],
        #[trigger] cs[j],
    ) by {
        lemma_lex_span(cs, i, j);
    }
}

// ---------- order-preserving subsets ----------

/// `a` appears within `b`, in order.
pub open spec fn is_subsequence(a: Seq<Seq<char>>, b: Seq<Seq<char>>) -> bool
    decreases a.len() + b.len(),
{
    if a.len() == 0 {
        true
    } else if b.len() == 0 {
        false
    } else if a[0] == b[0] {
        is_subsequence(a.drop_first(), b.drop_first())
    } else {
        is_subsequence(a, b.drop_first())
    }
}

// ---------- the store file grammar ----------

/// The fixed first header field.
pub open spec fn time_marker() -> Seq<char> {
    seq!['t', 'i', 'm', 'e']
}

/// A name that can stand as a header field.
pub open spec fn header_safe(name: Seq<char>) -> bool {
    !name.contains('\t') && !name.contains('\n')
}

pub open spec fn all_header_safe(cs: Seq<Seq<char>>) -> bool {
    forall|i: int| 0 <= i < cs.len() ==> header_safe(#[trigger] cs[i])
}

pub open spec fn tabbed_names(cs: Seq<Seq<char>>) -> Seq<char>
    decreases cs.len(),
{
    if cs.len() == 0 {
        Seq::<char>::empty()
    } else {
        seq!['\t'] + cs[0] + tabbed_names(cs.drop_first())
    }
}

/// The header line of a store for the given categories.
pub open spec fn header_str(cs: Seq<Seq<char>>) -> Seq<char> {
    time_marker() + tabbed_names(cs) + seq!['\n']
}

pub proof fn lemma_tabbed_names_push(cs: Seq<Seq<char>>, x: Seq<char>)
    ensures
        tabbed_names(cs.push(x)) == tabbed_names(cs) + seq!['\t'] + x,
    decreases cs.len(),
{
    if cs.len() == 0 {
        assert(cs.push(x)[0] == x);
        assert(cs.push(x).drop_first() =~= Seq::<Seq<char>>::empty());
        assert(tabbed_names(Seq::<Seq<char>>::empty()) =~= Seq::<char>::empty());
        assert(tabbed_names(cs.push(x)) =~= tabbed_names(cs) + seq!['\t'] + x);
    } else {
        assert(cs.push(x).drop_first() =~= cs.drop_first().push(x));
        lemma_tabbed_names_push(cs.drop_first(), x);
        assert(tabbed_names(cs.push(x)) =~= tabbed_names(cs) + seq!['\t'] + x);
    }
}

/// Joining the marker and the names with tabs yields the header body.
pub proof fn lemma_join_tabbed(m: Seq<char>, cs: Seq<Seq<char>>)
    ensures
        join_sep(seq![m] + cs, '\t') == m + tabbed_names(cs),
    decreases cs.len(),
{
    if cs.len() == 0 {
        assert(seq![m] + cs =~= seq![m]);
        assert(join_sep(seq![m], '\t') == m);
        assert(m + tabbed_names(cs) =~= m);
    } else {
        let parts = seq![m] + cs;
        assert(parts.len() >= 2);
        assert(parts[0] == m);
        assert(parts.drop_first() =~= seq![cs[0]] + cs.drop_first());
        lemma_join_tabbed(cs[0], cs.drop_first());
        assert(join_sep(parts, '\t') == m + seq!['\t'] + (cs[0] + tabbed_names(cs.drop_first())));
        assert(m + seq!['\t'] + (cs[0] + tabbed_names(cs.drop_first())) =~= m + tabbed_names(cs));
    }
}

pub open spec fn tabbed_nums(ds: Seq<u64>) -> Seq<char>
    decreases ds.len(),
{
    if ds.len() == 0 {
        Seq::<char>::empty()
    } else {
        seq!['\t'] + dec_digits(ds[0] as nat) + tabbed_nums(ds.drop_first())
    }
}

/// One entry line: a window start and one duration per category, in seconds.
pub open spec fn entry_line(t: u64, ds: Seq<u64>) -> Seq<char> {
    dec_digits(t as nat) + tabbed_nums(ds) + seq!['\n']
}

pub proof fn lemma_tabbed_nums_push(ds: Seq<u64>, x: u64)
    ensures
        tabbed_nums(ds.push(x)) == tabbed_nums(ds) + seq!['\t'] + dec_digits(x as nat),
    decreases ds.len(),
{
    if ds.len() == 0 {
        assert(ds.push(x)[0] == x);
        assert(ds.push(x).drop_first() =~= Seq::<u64>::empty());
        assert(tabbed_nums(Seq::<u64>::empty()) =~= Seq::<char>::empty());
        assert(tabbed_nums(ds.push(x)) =~= tabbed_nums(ds) + seq!['\t'] + dec_digits(x as nat));
    } else {
        assert(ds.push(x).drop_first() =~= ds.drop_first().push(x));
        lemma_tabbed_nums_push(ds.drop_first(), x);
        assert(tabbed_nums(ds.push(x)) =~= tabbed_nums(ds) + seq!['\t'] + dec_digits(x as nat));
    }
}

/// The shape that entry scanning checks: one terminating newline and the
/// right field count.
pub open spec fn entry_shaped(line: Seq<char>, ncats: nat) -> bool {
    &&& line.len() > 0
    &&& line.last() == '\n'
    &&& !line.drop_last().contains('\n')
    &&& split_on(line.drop_last(), '\t').len() == ncats + 1
}

/// Every field denotes a `u64`.
pub open spec fn all_dec_u64(fs: Seq<Seq<char>>) -> bool {
    forall|k: int| 0 <= k < fs.len() ==> is_dec_u64(#[trigger] fs[k])
}

/// Deterministic reading of an open-entry region as a window start and its
/// durations; `None` on any malformed region.
pub open spec fn parse_entry(region: Seq<char>, ncats: nat) -> Option<(u64, Seq<u64>)> {
    if !(region.len() > 0 && region.last() == '\n' && !region.drop_last().contains('\n')) {
        None
    } else {
        let fs = split_on(region.drop_last(), '\t');
        if fs.len() != ncats + 1 {
            None
        } else if !all_dec_u64(fs) {
            None
        } else {
            Some((dec_val(fs[0]) as u64, Seq::new(ncats, |k: int| dec_val(fs[k + 1]) as u64)))
        }
    }
}

proof fn lemma_tabbed_nums_chars(ds: Seq<u64>)
    ensures
        forall|i: int|
            0 <= i < tabbed_nums(ds).len() ==> (#[trigger] tabbed_nums(ds)[i]) == '\t' || is_digit(
                tabbed_nums(ds)[i],
            ),
    decreases ds.len(),
{
    if ds.len() > 0 {
        lemma_dec_digits_ok(ds[0] as nat);
        lemma_tabbed_nums_chars(ds.drop_first());
        let t = tabbed_nums(ds);
        let d0 = dec_digits(ds[0] as nat);
        assert forall|i: int| 0 <= i < t.len() implies (#[trigger] t[i]) == '\t' || is_digit(
            t[i],
        ) by {
            if i == 0 {
            } else if i <= d0.len() {
                assert(t[i] == d0[i - 1]);
            } else {
                assert(t[i] == tabbed_nums(ds.drop_first())[i - 1 - d0.len()]);
            }
        }
    }
}

proof fn lemma_digits_no_sep(s: Seq<char>)
    requires
        all_digits(s),
    ensures
        !s.contains('\t'),
        !s.contains('\n'),
{
    assert forall|i: int| 0 <= i < s.len() implies s[i] != '\t' && s[i] != '\n' by {
        assert(is_digit(s[i]));
        assert('\t' as u32 == 9);
        assert('\n' as u32 == 10);
        vstd::utf8::char_u32_cast(s[i], s[i] as u32);
    }
    if s.contains('\t') {
        let j = choose|j: int| 0 <= j < s.len() && s[j] == '\t';
    }
    if s.contains('\n') {
        let j = choose|j: int| 0 <= j < s.len() && s[j] == '\n';
    }
}

proof fn lemma_split_tabbed_nums(p: Seq<char>, ds: Seq<u64>)
    requires
        !p.contains('\t'),
    ensures
        split_on(p + tabbed_nums(ds), '\t') == seq![p] + Seq::new(
            ds.len(),
            |k: int| dec_digits(ds[k] as nat),
        ),
    decreases ds.len(),
{
    if ds.len() == 0 {
        assert(p + tabbed_nums(ds) =~= p);
        lemma_split_no_sep(p, '\t');
        assert(seq![p] + Seq::new(0, |k: int| dec_digits(ds[k] as nat)) =~~= seq![p]);
    } else {
        let d0 = dec_digits(ds[0] as nat);
        lemma_dec_digits_ok(ds[0] as nat);
        lemma_digits_no_sep(d0);
        lemma_split_tabbed_nums(d0, ds.drop_first());
        assert(p + tabbed_nums(ds) =~= p + seq!['\t'] + (d0 + tabbed_nums(ds.drop_first())));
        lemma_split_concat(p, d0 + tabbed_nums(ds.drop_first()), '\t');
        let rest_new = Seq::new(ds.drop_first().len(), |k: int| dec_digits(ds.drop_first()[k] as nat));
        assert(split_on(p + tabbed_nums(ds), '\t') == seq![p] + (seq![d0] + rest_new));
        assert(seq![p] + (seq![d0] + rest_new) =~~= seq![p] + Seq::new(
            ds.len(),
            |k: int| dec_digits(ds[k] as nat),
        ));
    }
}

/// Reading back a rendered entry line yields exactly what was written.
pub proof fn lemma_entry_round_trip(t: u64, ds: Seq<u64>)
    ensures
        entry_shaped(entry_line(t, ds), ds.len()),
        parse_entry(entry_line(t, ds), ds.len()) == Some((t, ds)),
{
    let line = entry_line(t, ds);
    let dt = dec_digits(t as nat);
    lemma_dec_digits_ok(t as nat);
    lemma_tabbed_nums_chars(ds);
    lemma_digits_no_sep(dt);
    let body = dt + tabbed_nums(ds);
    assert(line =~= body + seq!['\n']);
    assert(line.drop_last() =~= body);
    assert(line.last() == '\n');
    assert(!body.contains('\n')) by {
        assert('\t' as u32 == 9);
        assert('\n' as u32 == 10);
        if body.contains('\n') {
            let j = choose|j: int| 0 <= j < body.len() && body[j] == '\n';
            if j < dt.len() {
                assert(body[j] == dt[j]);
            } else {
                let tn = tabbed_nums(ds);
                assert(body[j] == tn[j - dt.len()]);
                assert(tn[j - dt.len()] == '\t' || is_digit(tn[j - dt.len()]));
                vstd::utf8::char_u32_cast(body[j], body[j] as u32);
            }
        }
    }
    lemma_split_tabbed_nums(dt, ds);
    let fs = split_on(body, '\t');
    assert(fs.len() == ds.len() + 1);
    assert forall|k: int| 0 <= k < fs.len() implies is_dec_u64(#[trigger] fs[k]) by {
        if k == 0 {
            assert(fs[0] == dt);
        } else {
            assert(fs[k] == dec_digits(ds[k - 1] as nat));
            lemma_dec_digits_ok(ds[k - 1] as nat);
        }
    }
    assert(dec_val(fs[0]) == t);
    assert(Seq::new(ds.len(), |k: int| dec_val(fs[k + 1]) as u64) =~= ds) by {
        assert forall|k: int| 0 <= k < ds.len() implies dec_val(fs[k + 1]) as u64 == ds[k] by {
            assert(fs[k + 1] == dec_digits(ds[k] as nat));
            lemma_dec_digits_ok(ds[k] as nat);
        }
    }
}

// ---------- finding a character ----------

/// Index of the first occurrence of `c` in `s`, or -1.
pub open spec fn find_ch(s: Seq<char>, c: char) -> int
    decreases s.len(),
{
    if s.len() == 0 {
        -1
    } else if s[0] == c {
        0
    } else if find_ch(s.drop_first(), c) == -1 {
        -1
    } else {
        find_ch(s.drop_first(), c) + 1
    }
}

pub proof fn lemma_find_ch_props(s: Seq<char>, c: char)
    ensures
        find_ch(s, c) == -1 ==> !s.contains(c),
        find_ch(s, c) != -1 ==> 0 <= find_ch(s, c) < s.len() && s[find_ch(s, c)] == c && (forall|
            i: int,
        | 0 <= i < find_ch(s, c) ==> s[i] != c),
    decreases s.len(),
{
    if s.len() == 0 {
        if s.contains(c) {
            let j = choose|j: int| 0 <= j < s.len() && s[j] == c;
        }
    } else if s[0] == c {
    } else {
        lemma_find_ch_props(s.drop_first(), c);
        if find_ch(s.drop_first(), c) == -1 {
            if s.contains(c) {
                let j = choose|j: int| 0 <= j < s.len() && s[j] == c;
                assert(s.drop_first()[j - 1] == c);
                assert(s.drop_first().contains(c));
            }
        } else {
            let r = find_ch(s.drop_first(), c);
            assert(s[r + 1] == s.drop_first()[r]);
            assert forall|i: int| 0 <= i < r + 1 implies s[i] != c by {
                if i > 0 {
                    assert(s[i] == s.drop_first()[i - 1]);
                }
            }
        }
    }
}

pub proof fn lemma_find_ch_at(s: Seq<char>, c: char, k: int)
    requires
        0 <= k < s.len(),
        s[k] == c,
        forall|i: int| 0 <= i < k ==> s[i] != c,
    ensures
        find_ch(s, c) == k,
    decreases s.len(),
{
    if k == 0 {
    } else {
        assert(s[0] != c);
        assert(s.drop_first()[k - 1] == c);
        assert forall|i: int| 0 <= i < k - 1 implies s.drop_first()[i] != c by {
            assert(s.drop_first()[i] == s[i + 1]);
        }
        lemma_find_ch_at(s.drop_first(), c, k - 1);
    }
}

// ---------- exec helpers on strings ----------

/// Relies on String::push: appends exactly the given character.
#[verifier::external_body]
pub(crate) fn push_char(s: &mut String, c: char)
    ensures
        final(s)@ == old(s)@.push(c),
{
    s.push(c);
}

/// The characters of `s`, as a vector.
pub fn str_chars(s: &str) -> (r: Vec<char>)
    ensures
        r@ == s@,
{
    let n = s.unicode_len();
    let mut r: Vec<char> = Vec::new();
    assert(r@ =~= s@.take(0));
    let mut i: usize = 0;
    while i < n
        invariant
            i <= n,
            n == s@.len(),
            r@ == s@.take(i as int),
        decreases n - i,
    {
        r.push(s.get_char(i));
        assert(r@ =~= s@.take(i as int + 1));
        i += 1;
    }
    assert(s@.take(n as int) =~= s@);
    r
}

/// The string holding `v[from..to]`.
pub fn chars_string(v: &Vec<char>, from: usize, to: usize) -> (r: String)
    requires
        from <= to <= v@.len(),
    ensures
        r@ == v@.subrange(from as int, to as int),
{
    let mut r = String::new();
    assert(r@ =~= v@.subrange(from as int, from as int));
    let mut i = from;
    while i < to
        invariant
            from <= i <= to <= v@.len(),
            r@ == v@.subrange(from as int, i as int),
        decreases to - i,
    {
        push_char(&mut r, v[i]);
        assert(r@ =~= v@.subrange(from as int, i as int + 1));
        i += 1;
    }
    r
}

/// Decides the strict lexicographic order of two strings.
pub fn str_lex_lt(a: &str, b: &str) -> (r: bool)
    ensures
        r == lex_lt(a@, b@),
{
    let na = a.unicode_len();
    let nb = b.unicode_len();
    let mut i: usize = 0;
    assert(a@.skip(0) =~= a@);
    assert(b@.skip(0) =~= b@);
    loop
        invariant
            i <= na,
            i <= nb,
            na == a@.len(),
            nb == b@.len(),
            lex_lt(a@, b@) == lex_lt(a@.skip(i as int), b@.skip(i as int)),
        decreases na - i,
    {
        let ghost sa = a@.skip(i as int);
        let ghost sb = b@.skip(i as int);
        if i >= nb {
            assert(sb.len() == 0);
            return false;
        }
        if i >= na {
            assert(sa.len() == 0);
            assert(sb.len() > 0);
            return true;
        }
        let ca = a.get_char(i);
        let cb = b.get_char(i);
        assert(sa[0] == ca && sb[0] == cb);
        if (ca as u32) < (cb as u32) {
            return true;
        }
        if (ca as u32) != (cb as u32) {
            proof {
                vstd::utf8::char_u32_cast(ca, ca as u32);
                vstd::utf8::char_u32_cast(cb, cb as u32);
            }
            assert(!((sa[0] as u32) < (sb[0] as u32)) && sa[0] != sb[0]);
            return false;
        }
        proof {
            vstd::utf8::char_u32_cast(ca, ca as u32);
            vstd::utf8::char_u32_cast(cb, cb as u32);
            assert(ca == cb);
            assert(sa.drop_first() =~= a@.skip(i as int + 1));
            assert(sb.drop_first() =~= b@.skip(i as int + 1));
        }
        i += 1;
    }
}

pub proof fn lemma_count_push(s: Seq<char>, c: char, x: char)
    ensures
        count_ch(s.push(x), c) == count_ch(s, c) + (if x == c {
            1nat
        } else {
            0nat
        }),
    decreases s.len(),
{
    if s.len() == 0 {
        assert(s.push(x)[0] == x);
        assert(s.push(x).drop_first() =~= Seq::<char>::empty());
        assert(count_ch(Seq::<char>::empty(), c) == 0);
    } else {
        assert(s.push(x)[0] == s[0]);
        assert(s.push(x).drop_first() =~= s.drop_first().push(x));
        lemma_count_push(s.drop_first(), c, x);
    }
}

/// Splitting never introduces characters: a character absent from the whole
/// is absent from every part.
pub proof fn lemma_split_on_keeps_absent(s: Seq<char>, sep: char, c: char)
    requires
        !s.contains(c),
    ensures
        forall|k: int|
            0 <= k < split_on(s, sep).len() ==> !(#[trigger] split_on(s, sep)[k]).contains(c),
    decreases s.len(),
{
    if s.len() == 0 {
        assert forall|k: int|
            0 <= k < split_on(s, sep).len() implies !(#[trigger] split_on(s, sep)[k]).contains(
            c,
        ) by {
            assert(split_on(s, sep)[k] =~= Seq::<char>::empty());
        }
    } else {
        assert(!s.drop_first().contains(c)) by {
            if s.drop_first().contains(c) {
                let j = choose|j: int|
                    0 <= j < s.drop_first().len() && (#[trigger] s.drop_first()[j]) == c;
                assert(s[j + 1] == c);
            }
        }
        lemma_split_on_keeps_absent(s.drop_first(), sep, c);
        let rest = split_on(s.drop_first(), sep);
        assert(s[0] != c);
        if s[0] == sep {
            assert forall|k: int|
                0 <= k < split_on(s, sep).len() implies !(#[trigger] split_on(s, sep)[k]).contains(
                c,
            ) by {
                if k == 0 {
                    assert(split_on(s, sep)[0] =~= Seq::<char>::empty());
                } else {
                    assert(split_on(s, sep)[k] == rest[k - 1]);
                }
            }
        } else {
            assert forall|k: int|
                0 <= k < split_on(s, sep).len() implies !(#[trigger] split_on(s, sep)[k]).contains(
                c,
            ) by {
                if k == 0 {
                    let h = seq![s[0]] + rest[0];
                    assert(split_on(s, sep)[0] == h);
                    assert(!rest[0].contains(c));
                    assert forall|j: int| 0 <= j < h.len() implies h[j] != c by {
                        if j > 0 {
                            assert(h[j] == rest[0][j - 1]);
                            assert(!rest[0].contains(c));
                        }
                    }
                    if h.contains(c) {
                        let j = choose|j: int| 0 <= j < h.len() && h[j] == c;
                    }
                } else {
                    assert(split_on(s, sep)[k] == rest.drop_first()[k - 1]);
                    assert(rest.drop_first()[k - 1] == rest[k]);
                }
            }
        }
    }
}

/// A sequence is an order-preserving subset of itself.
pub proof fn lemma_subsequence_refl(a: Seq<Seq<char>>)
    ensures
        is_subsequence(a, a),
    decreases a.len(),
{
    if a.len() > 0 {
        lemma_subsequence_refl(a.drop_first());
    }
}

/// Tab-joined names contain no character that neither the names nor the
/// tab itself contain.
pub proof fn lemma_tabbed_names_absent(cs: Seq<Seq<char>>, c: char)
    requires
        c != '\t',
        forall|k: int| 0 <= k < cs.len() ==> !(#[trigger] cs[k]).contains(c),
    ensures
        !tabbed_names(cs).contains(c),
    decreases cs.len(),
{
    if cs.len() == 0 {
        if tabbed_names(cs).contains(c) {
            let j = choose|j: int| 0 <= j < tabbed_names(cs).len() && tabbed_names(cs)[j] == c;
        }
    } else {
        assert forall|k: int| 0 <= k < cs.drop_first().len() implies !(
        #[trigger] cs.drop_first()[k]).contains(c) by {
            assert(cs.drop_first()[k] == cs[k + 1]);
        }
        lemma_tabbed_names_absent(cs.drop_first(), c);
        let t = tabbed_names(cs);
        if t.contains(c) {
            let j = choose|j: int| 0 <= j < t.len() && t[j] == c;
            if j == 0 {
            } else if j <= cs[0].len() {
                assert(t[j] == cs[0][j - 1]);
                assert(cs[0].contains(c));
            } else {
                assert(t[j] == tabbed_names(cs.drop_first())[j - 1 - cs[0].len()]);
                assert(tabbed_names(cs.drop_first()).contains(c));
            }
        }
    }
}

/// Splitting a header body on tabs recovers the marker and the names.
pub proof fn lemma_split_tabbed_names(p: Seq<char>, cs: Seq<Seq<char>>)
    requires
        !p.contains('\t'),
        forall|k: int| 0 <= k < cs.len() ==> !(#[trigger] cs[k]).contains('\t'),
    ensures
        split_on(p + tabbed_names(cs), '\t') == seq![p] + cs,
    decreases cs.len(),
{
    if cs.len() == 0 {
        assert(p + tabbed_names(cs) =~= p);
        lemma_split_no_sep(p, '\t');
        assert(seq![p] + cs =~~= seq![p]);
    } else {
        assert forall|k: int| 0 <= k < cs.drop_first().len() implies !(
        #[trigger] cs.drop_first()[k]).contains('\t') by {
            assert(cs.drop_first()[k] == cs[k + 1]);
        }
        assert(!cs[0].contains('\t'));
        lemma_split_tabbed_names(cs[0], cs.drop_first());
        assert(p + tabbed_names(cs) =~= p + seq!['\t'] + (cs[0] + tabbed_names(cs.drop_first())));
        lemma_split_concat(p, cs[0] + tabbed_names(cs.drop_first()), '\t');
        assert(split_on(p + tabbed_names(cs), '\t') == seq![p] + (seq![cs[0]] + cs.drop_first()));
        assert(seq![p] + (seq![cs[0]] + cs.drop_first()) =~~= seq![p] + cs);
    }
}

} // verus!
