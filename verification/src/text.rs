use vstd::prelude::*;

verus! {

/// The decimal digit character for `d`.
pub open spec fn digit_char(d: int) -> char {
    if d == 0 {
        '0'
    } else if d == 1 {
        '1'
    } else if d == 2 {
        '2'
    } else if d == 3 {
        '3'
    } else if d == 4 {
        '4'
    } else if d == 5 {
        '5'
    } else if d == 6 {
        '6'
    } else if d == 7 {
        '7'
    } else if d == 8 {
        '8'
    } else {
        '9'
    }
}

/// The decimal representation of a natural number, most significant digit first.
pub open spec fn dec_str(n: nat) -> Seq<char>
    decreases n,
{
    if n < 10 {
        seq![digit_char(n as int)]
    } else {
        dec_str(n / 10) + seq![digit_char((n % 10) as int)]
    }
}

/// Strict lexicographic order on character sequences, by code point.
pub open spec fn seq_char_lt(a: Seq<char>, b: Seq<char>) -> bool
    decreases a.len(),
{
    if b.len() == 0 {
        false
    } else if a.len() == 0 {
        true
    } else if a[0] != b[0] {
        (a[0] as u32) < (b[0] as u32)
    } else {
        seq_char_lt(a.skip(1), b.skip(1))
    }
}

/// Exactly one of `a < b`, `a == b`, `b < a` holds.
pub proof fn lemma_seq_char_lt_trichotomy(a: Seq<char>, b: Seq<char>)
    ensures
        seq_char_lt(a, b) <==> !(a =~= b) && !seq_char_lt(b, a),
    decreases a.len(),
{
    if a.len() == 0 || b.len() == 0 {
    } else if a[0] != b[0] {
        vstd::utf8::char_u32_cast(a[0], a[0] as u32);
        vstd::utf8::char_u32_cast(b[0], b[0] as u32);
        assert((a[0] as u32) != (b[0] as u32));
    } else {
        lemma_seq_char_lt_trichotomy(a.skip(1), b.skip(1));
        if a.skip(1) =~= b.skip(1) {
            assert forall|i: int| 0 <= i < a.len() implies a[i] == b[i] by {
                if i > 0 {
                    assert(a.skip(1)[i - 1] == b.skip(1)[i - 1]);
                }
            }
            assert(a =~= b);
        }
        if a =~= b {
            assert(a.skip(1) =~= b.skip(1));
        }
    }
}

/// Lexicographic order is transitive.
pub proof fn lemma_seq_char_lt_trans(a: Seq<char>, b: Seq<char>, c: Seq<char>)
    requires
        seq_char_lt(a, b),
        seq_char_lt(b, c),
    ensures
        seq_char_lt(a, c),
    decreases a.len(),
{
    if b.len() == 0 || c.len() == 0 || a.len() == 0 {
    } else if a[0] == b[0] && b[0] == c[0] {
        lemma_seq_char_lt_trans(a.skip(1), b.skip(1), c.skip(1));
    } else {
        vstd::utf8::char_u32_cast(a[0], a[0] as u32);
        vstd::utf8::char_u32_cast(b[0], b[0] as u32);
        vstd::utf8::char_u32_cast(c[0], c[0] as u32);
        assert((a[0] as u32) == (b[0] as u32) ==> a[0] == b[0]);
        assert((b[0] as u32) == (c[0] as u32) ==> b[0] == c[0]);
        assert((a[0] as u32) == (c[0] as u32) ==> a[0] == c[0]);
    }
}

/// Append the decimal digit character for `d` to `s`.
pub(crate) fn push_digit(s: &mut String, d: u64)
    requires
        d < 10,
    ensures
        final(s)@ == old(s)@ + seq![digit_char(d as int)],
{
    if d == 0 {
        s.append("0");
        proof {
            reveal_strlit("0");
            assert(old(s)@ + ("0")@ =~= old(s)@ + seq![digit_char(d as int)]);
        }
    } else if d == 1 {
        s.append("1");
        proof {
            reveal_strlit("1");
            assert(old(s)@ + ("1")@ =~= old(s)@ + seq![digit_char(d as int)]);
        }
    } else if d == 2 {
        s.append("2");
        proof {
            reveal_strlit("2");
            assert(old(s)@ + ("2")@ =~= old(s)@ + seq![digit_char(d as int)]);
        }
    } else if d == 3 {
        s.append("3");
        proof {
            reveal_strlit("3");
            assert(old(s)@ + ("3")@ =~= old(s)@ + seq![digit_char(d as int)]);
        }
    } else if d == 4 {
        s.append("4");
        proof {
            reveal_strlit("4");
            assert(old(s)@ + ("4")@ =~= old(s)@ + seq![digit_char(d as int)]);
        }
    } else if d == 5 {
        s.append("5");
        proof {
            reveal_strlit("5");
            assert(old(s)@ + ("5")@ =~= old(s)@ + seq![digit_char(d as int)]);
        }
    } else if d == 6 {
        s.append("6");
        proof {
            reveal_strlit("6");
            assert(old(s)@ + ("6")@ =~= old(s)@ + seq![digit_char(d as int)]);
        }
    } else if d == 7 {
        s.append("7");
        proof {
            reveal_strlit("7");
            assert(old(s)@ + ("7")@ =~= old(s)@ + seq![digit_char(d as int)]);
        }
    } else if d == 8 {
        s.append("8");
        proof {
            reveal_strlit("8");
            assert(old(s)@ + ("8")@ =~= old(s)@ + seq![digit_char(d as int)]);
        }
    } else {
        s.append("9");
        proof {
            reveal_strlit("9");
            assert(old(s)@ + ("9")@ =~= old(s)@ + seq![digit_char(d as int)]);
        }
    }
}

/// Append the decimal representation of `n` to `s`.
pub fn push_dec(s: &mut String, n: u64)
    ensures
        final(s)@ == old(s)@ + dec_str(n as nat),
    decreases n,
{
    if n < 10 {
        push_digit(s, n);
    } else {
        push_dec(s, n / 10);
        push_digit(s, n % 10);
        proof {
            assert(old(s)@ + dec_str((n / 10) as nat) + seq![digit_char((n % 10) as int)] =~= old(
                s,
            )@ + dec_str(n as nat));
        }
    }
}

/// How a coordinate held in thousandths of a pixel reads in the index file:
/// a value with zero fractional part reads as a plain integer, any other
/// value as a real number with up to three decimal places, trailing zeros
/// dropped.
pub open spec fn milli_str(v: int) -> Seq<char> {
    if v < 0 {
        seq!['-'] + milli_abs_str(-v)
    } else {
        milli_abs_str(v)
    }
}

/// `milli_str` for a non-negative value.
pub open spec fn milli_abs_str(a: int) -> Seq<char>
    recommends
        a >= 0,
{
    if a % 1000 == 0 {
        dec_str((a / 1000) as nat)
    } else {
        dec_str((a / 1000) as nat) + seq!['.'] + frac_str((a % 1000) as nat)
    }
}

/// The fractional digits of a thousandths value, trailing zeros dropped.
pub open spec fn frac_str(f: nat) -> Seq<char>
    recommends
        0 < f < 1000,
{
    let d1 = (f / 100) as int;
    let d2 = ((f / 10) % 10) as int;
    let d3 = (f % 10) as int;
    if d3 != 0 {
        seq![digit_char(d1), digit_char(d2), digit_char(d3)]
    } else if d2 != 0 {
        seq![digit_char(d1), digit_char(d2)]
    } else {
        seq![digit_char(d1)]
    }
}

/// Append the index-file reading of the thousandths value `v` to `s`.
pub fn push_milli(s: &mut String, v: i64)
    requires
        v > i64::MIN,
    ensures
        final(s)@ == old(s)@ + milli_str(v as int),
{
    let ghost base = old(s)@;
    let a: u64 = if v < 0 {
        s.append("-");
        proof {
            reveal_strlit("-");
            assert(s@ =~= base + seq!['-']);
        }
        (-v) as u64
    } else {
        v as u64
    };
    let ghost mid = s@;
    let whole: u64 = a / 1000;
    let frac: u64 = a % 1000;
    push_dec(s, whole);
    if frac != 0 {
        s.append(".");
        proof {
            reveal_strlit(".");
        }
        let d1: u64 = frac / 100;
        let d2: u64 = (frac / 10) % 10;
        let d3: u64 = frac % 10;
        if d3 != 0 {
            push_digit(s, d1);
            push_digit(s, d2);
            push_digit(s, d3);
        } else if d2 != 0 {
            push_digit(s, d1);
            push_digit(s, d2);
        } else {
            push_digit(s, d1);
        }
        proof {
            assert(s@ =~= mid + milli_abs_str(a as int));
        }
    } else {
        proof {
            assert(s@ =~= mid + milli_abs_str(a as int));
        }
    }
    proof {
        assert(s@ =~= base + milli_str(v as int));
    }
}

/// Compare two strings in code-point order: negative, zero or positive as
/// `a` is below, equal to or above `b`.
pub fn str_compare(a: &str, b: &str) -> (r: i32)
    ensures
        (r < 0) == seq_char_lt(a@, b@),
        (r == 0) == (a@ == b@),
        (r > 0) == seq_char_lt(b@, a@),
{
    let alen = a.unicode_len();
    let blen = b.unicode_len();
    let mut i: usize = 0;
    loop
        invariant
            i <= alen,
            i <= blen,
            alen == a@.len(),
            blen == b@.len(),
            a@.subrange(0, i as int) =~= b@.subrange(0, i as int),
        decreases alen - i,
    {
        proof {
            lemma_seq_char_lt_common_prefix(a@, b@, i as int);
        }
        if i >= alen || i >= blen {
            if alen < blen {
                proof {
                    lemma_seq_char_lt_trichotomy(a@, b@);
                }
                return -1;
            } else if blen < alen {
                proof {
                    lemma_seq_char_lt_trichotomy(a@, b@);
                }
                return 1;
            } else {
                proof {
                    assert(a@ =~= a@.subrange(0, i as int));
                    assert(b@ =~= b@.subrange(0, i as int));
                    assert(a@ =~= b@);
                    lemma_seq_char_lt_trichotomy(a@, b@);
                    lemma_seq_char_lt_trichotomy(b@, a@);
                }
                return 0;
            }
        }
        let ca = a.get_char(i);
        let cb = b.get_char(i);
        if ca != cb {
            proof {
                vstd::utf8::char_u32_cast(ca, ca as u32);
                vstd::utf8::char_u32_cast(cb, cb as u32);
                lemma_seq_char_lt_trichotomy(a@, b@);
                lemma_seq_char_lt_trichotomy(b@, a@);
                assert(a@.skip(i as int)[0] == ca);
                assert(b@.skip(i as int)[0] == cb);
                assert((ca as u32) != (cb as u32));
            }
            if (ca as u32) < (cb as u32) {
                return -1;
            } else {
                return 1;
            }
        }
        i = i + 1;
        proof {
            assert(a@.subrange(0, i as int) =~= b@.subrange(0, i as int));
        }
    }
}

/// When the first `i` characters agree, the order of the remainders decides.
proof fn lemma_seq_char_lt_common_prefix(a: Seq<char>, b: Seq<char>, i: int)
    requires
        0 <= i <= a.len(),
        i <= b.len(),
        a.subrange(0, i) =~= b.subrange(0, i),
    ensures
        seq_char_lt(a, b) == seq_char_lt(a.skip(i), b.skip(i)),
    decreases i,
{
    if i > 0 {
        assert(a[0] == b[0]) by {
            assert(a.subrange(0, i)[0] == a[0]);
            assert(b.subrange(0, i)[0] == b[0]);
        }
        if a.len() > 0 && b.len() > 0 {
            assert(a.skip(1).subrange(0, i - 1) =~= b.skip(1).subrange(0, i - 1)) by {
                assert forall|j: int| 0 <= j < i - 1 implies a.skip(1)[j] == b.skip(1)[j] by {
                    assert(a.subrange(0, i)[j + 1] == a[j + 1]);
                    assert(b.subrange(0, i)[j + 1] == b[j + 1]);
                }
            }
            lemma_seq_char_lt_common_prefix(a.skip(1), b.skip(1), i - 1);
            assert(a.skip(1).skip(i - 1) =~= a.skip(i));
            assert(b.skip(1).skip(i - 1) =~= b.skip(i));
        }
    } else {
        assert(a.skip(0) =~= a);
        assert(b.skip(0) =~= b);
    }
}

} // verus!
