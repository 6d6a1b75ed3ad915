use vstd::prelude::*;

verus! {

/// The pieces of `s` between occurrences of `sep`, as `str::split` with a
/// single character yields them: an empty string gives one empty piece, and
/// two separators in a row give an empty piece between them.
pub open spec fn split_spec(s: Seq<char>, sep: char) -> Seq<Seq<char>>
    decreases s.len(),
{
    if s.len() == 0 {
        seq![Seq::<char>::empty()]
    } else {
        let prev = split_spec(s.drop_last(), sep);
        if s.last() == sep {
            prev.push(Seq::<char>::empty())
        } else {
            prev.update(prev.len() - 1, prev.last().push(s.last()))
        }
    }
}

pub proof fn lemma_split_len(s: Seq<char>, sep: char)
    ensures
        1 <= split_spec(s, sep).len() <= s.len() + 1,
    decreases s.len(),
{
    if s.len() > 0 {
        lemma_split_len(s.drop_last(), sep);
    }
}

/// The views of a sequence of strings.
pub open spec fn views_of(v: Seq<String>) -> Seq<Seq<char>> {
    v.map_values(|x: String| x@)
}

/// The characters of `s`, in order.
pub fn chars_of(s: &str) -> (r: Vec<char>)
    ensures
        r@ == s@,
{
    let mut out: Vec<char> = Vec::new();
    for c in it: s.chars()
        invariant
            out@ == it.seq().take(it.index() as int),
            it.seq() == s@,
    {
        out.push(c);
    }
    out
}

/// Splits `s` at every occurrence of `sep`.
pub fn split_on(s: &str, sep: char) -> (r: Vec<String>)
    ensures
        views_of(r@) == split_spec(s@, sep),
{
    let cs = chars_of(s);
    let mut pieces: Vec<String> = Vec::new();
    let mut start: usize = 0;
    let mut i: usize = 0;
    proof {
        assert(s@.take(0) =~= Seq::<char>::empty());
        assert(views_of(pieces@).push(s@.subrange(0, 0)) =~= split_spec(s@.take(0), sep));
    }
    while i < cs.len()
        invariant
            start <= i <= cs@.len(),
            cs@ == s@,
            views_of(pieces@).push(s@.subrange(start as int, i as int)) == split_spec(
                s@.take(i as int),
                sep,
            ),
        decreases cs@.len() - i,
    {
        let ghost prev = split_spec(s@.take(i as int), sep);
        let ghost old_pieces = pieces@;
        proof {
            assert(s@.take(i as int + 1).drop_last() == s@.take(i as int));
            assert(s@.take(i as int + 1).last() == s@[i as int]);
        }
        if cs[i] == sep {
            let piece = String::from_str(s.substring_char(start, i));
            proof {
                assert(prev == views_of(old_pieces).push(piece@));
            }
            pieces.push(piece);
            start = i + 1;
            proof {
                assert(views_of(pieces@) =~= views_of(old_pieces).push(piece@));
                assert(s@.subrange(start as int, i as int + 1) =~= Seq::<char>::empty());
                assert(views_of(pieces@).push(s@.subrange(start as int, i as int + 1)) =~= prev.push(
                    Seq::<char>::empty(),
                ));
            }
        } else {
            proof {
                assert(s@.subrange(start as int, i as int + 1) =~= s@.subrange(start as int, i as int).push(s@[i as int]));
                assert(views_of(pieces@).push(s@.subrange(start as int, i as int + 1)) =~= prev.update(
                    prev.len() - 1,
                    prev.last().push(s@[i as int]),
                ));
            }
        }
        i = i + 1;
    }
    let last = String::from_str(s.substring_char(start, cs.len()));
    let ghost old_pieces = pieces@;
    pieces.push(last);
    proof {
        assert(views_of(pieces@) =~= views_of(old_pieces).push(last@));
        assert(s@.take(cs@.len() as int) == s@);
        assert(views_of(pieces@) =~= split_spec(s@, sep));
    }
    pieces
}

/// Whether `c` occurs in `s`.
pub fn has_char(s: &str, c: char) -> (r: bool)
    ensures
        r == s@.contains(c),
{
    let cs = chars_of(s);
    let mut i: usize = 0;
    while i < cs.len()
        invariant
            i <= cs@.len(),
            cs@ == s@,
            forall|j: int| 0 <= j < i ==> cs@[j] != c,
        decreases cs@.len() - i,
    {
        if cs[i] == c {
            return true;
        }
        i = i + 1;
    }
    false
}

/// Value of a run of decimal digits.
pub open spec fn digits_value(s: Seq<char>) -> nat
    decreases s.len(),
{
    if s.len() == 0 {
        0
    } else {
        digits_value(s.drop_last()) * 10 + digit_of(s.last())
    }
}

/// Value of a decimal digit; zero for any other character.
pub open spec fn digit_of(c: char) -> nat {
    if is_digit(c) {
        (c as int - '0' as int) as nat
    } else {
        0
    }
}

pub open spec fn is_digit(c: char) -> bool {
    '0' <= c && c <= '9'
}

/// The unsigned number that `s` spells: an optional `+` and then one or more
/// decimal digits.
pub open spec fn decimal_value(s: Seq<char>) -> Option<nat> {
    if unsigned_digits(s).len() > 0 && all_digits(unsigned_digits(s)) {
        Some(digits_value(unsigned_digits(s)))
    } else {
        None
    }
}

/// `s` without a leading `+`.
pub open spec fn unsigned_digits(s: Seq<char>) -> Seq<char> {
    if s.len() > 0 && s[0] == '+' {
        s.drop_first()
    } else {
        s
    }
}

pub open spec fn all_digits(d: Seq<char>) -> bool {
    forall|i: int| 0 <= i < d.len() ==> is_digit(#[trigger] d[i])
}

proof fn lemma_digits_monotone(s: Seq<char>, i: int)
    requires
        0 <= i <= s.len(),
        forall|j: int| 0 <= j < s.len() ==> is_digit(#[trigger] s[j]),
    ensures
        digits_value(s.take(i)) <= digits_value(s),
    decreases s.len(),
{
    if i < s.len() {
        let p = s.drop_last();
        assert(p.take(i) =~= s.take(i));
        assert forall|j: int| 0 <= j < p.len() implies is_digit(#[trigger] p[j]) by {
            assert(is_digit(s[j]));
        }
        lemma_digits_monotone(p, i);
        assert(is_digit(s[s.len() - 1]));
    } else {
        assert(s.take(i) =~= s);
    }
}

/// Reads an unsigned decimal number, as `str::parse::<u128>` does; `None`
/// where `s` spells no number or one above `u128::MAX`.
pub fn parse_u128(s: &str) -> (r: Option<u128>)
    ensures
        r == (match decimal_value(s@) {
            Some(v) => if v <= u128::MAX {
                Some(v as u128)
            } else {
                None
            },
            None => None,
        }),
{
    let cs = chars_of(s);
    let start: usize = if cs.len() > 0 && cs[0] == '+' {
        1
    } else {
        0
    };
    let ghost d = unsigned_digits(s@);
    proof {
        assert(d =~= cs@.subrange(start as int, cs@.len() as int));
    }
    if start == cs.len() {
        return None;
    }
    let mut acc: u128 = 0;
    let mut i: usize = start;
    proof {
        assert(d.take(0) =~= Seq::<char>::empty());
    }
    while i < cs.len()
        invariant
            start <= i <= cs@.len(),
            cs@ == s@,
            d == cs@.subrange(start as int, cs@.len() as int),
            d == unsigned_digits(s@),
            d.len() > 0,
            forall|j: int| start <= j < i ==> is_digit(#[trigger] cs@[j]),
            acc as nat == digits_value(d.take(i - start)),
        decreases cs@.len() - i,
    {
        let c = cs[i];
        if !('0' <= c && c <= '9') {
            proof {
                assert(d[i - start] == c);
                assert(!is_digit(d[i - start]));
                assert(!all_digits(d));
            }
            return None;
        }
        let digit = (c as u32 - '0' as u32) as u128;
        proof {
            assert(d[i - start] == c);
            assert(digit_of(c) == digit);
            assert(d.take(i - start + 1).drop_last() =~= d.take(i - start));
            assert(d.take(i - start + 1).last() == c);
        }
        if acc > (u128::MAX - digit) / 10 {
            proof {
                assert(acc * 10 + digit > u128::MAX) by (nonlinear_arith)
                    requires
                        acc > (u128::MAX - digit) / 10,
                        digit <= 9,
                ;
                let rest_digits = forall|j: int| 0 <= j < d.len() ==> is_digit(#[trigger] d[j]);
                if rest_digits {
                    lemma_digits_monotone(d, i - start + 1);
                    assert(digits_value(d.take(i - start + 1)) == acc * 10 + digit);
                    assert(decimal_value(s@) == Some(digits_value(d)));
                }
            }
            return None;
        }
        proof {
            assert(acc * 10 + digit <= u128::MAX) by (nonlinear_arith)
                requires
                    acc <= (u128::MAX - digit) / 10,
                    digit <= 9,
            ;
        }
        acc = acc * 10 + digit;
        i = i + 1;
    }
    proof {
        assert(d.take(d.len() as int) =~= d);
        assert forall|j: int| 0 <= j < d.len() implies is_digit(#[trigger] d[j]) by {
            assert(d[j] == cs@[start + j]);
        }
    }
    Some(acc)
}

/// `s` without any `a` or `b`.
pub open spec fn strip_chars(s: Seq<char>, a: char, b: char) -> Seq<char>
    decreases s.len(),
{
    if s.len() == 0 {
        s
    } else if s.last() == a || s.last() == b {
        strip_chars(s.drop_last(), a, b)
    } else {
        strip_chars(s.drop_last(), a, b).push(s.last())
    }
}

/// Removes every `a` and every `b` from `s`.
pub fn without_chars(s: &str, a: char, b: char) -> (r: String)
    ensures
        r@ == strip_chars(s@, a, b),
{
    let cs = chars_of(s);
    let mut out = String::new();
    let mut i: usize = 0;
    let mut start: usize = 0;
    proof {
        assert(s@.take(0) =~= Seq::<char>::empty());
    }
    while i < cs.len()
        invariant
            start <= i <= cs@.len(),
            cs@ == s@,
            out@ + s@.subrange(start as int, i as int) == strip_chars(s@.take(i as int), a, b),
            forall|j: int| start <= j < i ==> #[trigger] cs@[j] != a && cs@[j] != b,
        decreases cs@.len() - i,
    {
        proof {
            assert(s@.take(i as int + 1).drop_last() =~= s@.take(i as int));
            assert(s@.take(i as int + 1).last() == cs@[i as int]);
        }
        if cs[i] == a || cs[i] == b {
            let piece = s.substring_char(start, i);
            out.append(piece);
            start = i + 1;
            proof {
                assert(s@.subrange(start as int, i as int + 1) =~= Seq::<char>::empty());
                assert(out@ + s@.subrange(start as int, i as int + 1) =~= strip_chars(s@.take(i as int), a, b));
            }
        } else {
            proof {
                assert(s@.subrange(start as int, i as int + 1) =~= s@.subrange(start as int, i as int).push(cs@[i as int]));
                assert(out@ + s@.subrange(start as int, i as int + 1) =~= (out@ + s@.subrange(start as int, i as int)).push(cs@[i as int]));
            }
        }
        i = i + 1;
    }
    let piece = s.substring_char(start, cs.len());
    out.append(piece);
    proof {
        assert(s@.take(cs@.len() as int) =~= s@);
    }
    out
}

/// `a` comes strictly before `b` in the order of code points: it is a proper
/// prefix of `b`, or the first character where they differ is smaller.
pub open spec fn lex_lt(a: Seq<char>, b: Seq<char>) -> bool {
    exists|k: int| #[trigger] lex_lt_at(a, b, k)
}

/// `a` and `b` agree on their first `k` characters and `a` is smaller at `k`.
pub open spec fn lex_lt_at(a: Seq<char>, b: Seq<char>, k: int) -> bool {
    &&& 0 <= k <= a.len()
    &&& k <= b.len()
    &&& a.take(k) == b.take(k)
    &&& ((k == a.len() && k < b.len()) || (k < a.len() && k < b.len() && a[k] < b[k]))
}

pub proof fn lemma_lex_irreflexive(a: Seq<char>)
    ensures
        !lex_lt(a, a),
{
}

pub proof fn lemma_lex_transitive(a: Seq<char>, b: Seq<char>, c: Seq<char>)
    requires
        lex_lt(a, b),
        lex_lt(b, c),
    ensures
        lex_lt(a, c),
{
    let k1 = choose|k: int| lex_lt_at(a, b, k);
    let k2 = choose|k: int| lex_lt_at(b, c, k);
    if k1 < k2 {
        assert(c.take(k1) =~= b.take(k2).take(k1));
        assert(b.take(k1) =~= b.take(k2).take(k1));
        if k1 < a.len() {
            assert(b[k1] == b.take(k2)[k1]);
            assert(c[k1] == c.take(k2)[k1]);
        }
        assert(lex_lt_at(a, c, k1));
    } else if k2 < k1 {
        assert(a.take(k2) =~= a.take(k1).take(k2));
        assert(b.take(k2) =~= b.take(k1).take(k2));
        assert(a[k2] == a.take(k1)[k2]);
        assert(b[k2] == b.take(k1)[k2]);
        assert(lex_lt_at(a, c, k2));
    } else {
        assert(lex_lt_at(a, c, k1));
    }
}

/// Compares two character sequences: negative when `a` comes first,
/// positive when `b` does, zero when they are equal.
pub fn compare_chars(a: &Vec<char>, b: &Vec<char>) -> (r: i8)
    ensures
        r < 0 ==> lex_lt(a@, b@),
        r > 0 ==> lex_lt(b@, a@),
        r == 0 ==> a@ == b@,
{
    let mut k: usize = 0;
    while k < a.len() && k < b.len()
        invariant
            k <= a@.len(),
            k <= b@.len(),
            a@.take(k as int) == b@.take(k as int),
        decreases a@.len() - k,
    {
        if a[k] < b[k] {
            proof {
                assert(lex_lt_at(a@, b@, k as int));
            }
            return -1;
        }
        if b[k] < a[k] {
            proof {
                assert(lex_lt_at(b@, a@, k as int));
            }
            return 1;
        }
        proof {
            assert(a[k as int] == b[k as int]);
            assert(a@.take(k as int + 1) =~= a@.take(k as int).push(a@[k as int]));
            assert(b@.take(k as int + 1) =~= b@.take(k as int).push(b@[k as int]));
        }
        k = k + 1;
    }
    if a.len() == b.len() {
        proof {
            assert(a@ =~= a@.take(k as int));
            assert(b@ =~= b@.take(k as int));
        }
        0
    } else if k == a.len() {
        proof {
            assert(lex_lt_at(a@, b@, k as int));
        }
        -1
    } else {
        proof {
            assert(lex_lt_at(b@, a@, k as int));
        }
        1
    }
}

} // verus!
