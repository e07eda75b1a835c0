//! Reading the textual trace: whitespace-separated tokens and hexadecimal
//! numbers.
use vstd::prelude::*;

verus! {

/// ASCII whitespace: space, tab, line feed, vertical tab, form feed, return.
pub open spec fn is_ws(b: u8) -> bool {
    b == 0x20 || (0x09 <= b && b <= 0x0d)
}

/// The tokens of `s` from position `i`, where `cur` is the token begun
/// before `i`.
pub open spec fn tokens_from(s: Seq<u8>, i: int, cur: Seq<u8>) -> Seq<Seq<u8>>
    decreases s.len() - i,
{
    if i >= s.len() || i < 0 {
        if cur.len() > 0 {
            seq![cur]
        } else {
            Seq::empty()
        }
    } else if is_ws(s[i]) {
        (if cur.len() > 0 {
            seq![cur]
        } else {
            Seq::empty()
        }) + tokens_from(s, i + 1, Seq::empty())
    } else {
        tokens_from(s, i + 1, cur.push(s[i]))
    }
}

/// The maximal runs of non-whitespace bytes of `s`, in order.
pub open spec fn tokens(s: Seq<u8>) -> Seq<Seq<u8>> {
    tokens_from(s, 0, Seq::empty())
}

/// The value of a hexadecimal digit, upper or lower case.
pub open spec fn digit_value(b: u8) -> Option<nat> {
    if 0x30 <= b <= 0x39 {
        Some((b - 0x30) as nat)
    } else if 0x61 <= b <= 0x66 {
        Some((b - 0x57) as nat)
    } else if 0x41 <= b <= 0x46 {
        Some((b - 0x37) as nat)
    } else {
        None
    }
}

pub open spec fn all_digits(t: Seq<u8>) -> bool {
    forall|i: int| 0 <= i < t.len() ==> (#[trigger] digit_value(t[i])) is Some
}

/// The number that the hexadecimal digits `t` write.
pub open spec fn hex_value(t: Seq<u8>) -> nat
    decreases t.len(),
{
    if t.len() == 0 {
        0
    } else {
        hex_value(t.drop_last()) * 16 + digit_value(t.last())->0
    }
}

/// The number that the token `t` writes in hexadecimal, where it is one and
/// is at most `max`.
pub open spec fn hex_token(t: Seq<u8>, max: nat) -> Option<nat> {
    if t.len() > 0 && all_digits(t) && hex_value(t) <= max {
        Some(hex_value(t))
    } else {
        None
    }
}

/// A longer run of digits writes at least as large a number.
proof fn lemma_hex_prefix(t: Seq<u8>, k: int)
    requires
        0 <= k <= t.len(),
        all_digits(t),
    ensures
        hex_value(t.subrange(0, k)) <= hex_value(t),
    decreases t.len() - k,
{
    if k < t.len() {
        lemma_hex_prefix(t, k + 1);
        assert(t.subrange(0, k + 1).drop_last() =~= t.subrange(0, k));
    } else {
        assert(t.subrange(0, k) =~= t);
    }
}

/// The number that `s[a..b]` writes in hexadecimal, where it is one and fits
/// in a `u64`.
pub fn parse_hex(s: &[u8], a: usize, b: usize) -> (r: Option<u64>)
    requires
        a <= b <= s@.len(),
    ensures
        r is Some <==> hex_token(s@.subrange(a as int, b as int), u64::MAX as nat) is Some,
        r is Some ==> r->0 == hex_token(s@.subrange(a as int, b as int), u64::MAX as nat)->0,
{
    let ghost t = s@.subrange(a as int, b as int);
    if a == b {
        return None;
    }
    let mut acc: u64 = 0;
    let mut i: usize = a;
    while i < b
        invariant
            a <= i <= b <= s@.len(),
            t == s@.subrange(a as int, b as int),
            all_digits(t.subrange(0, i - a)),
            acc == hex_value(t.subrange(0, i - a)),
        decreases b - i,
    {
        let c = s[i];
        let d: u64 = if 0x30 <= c && c <= 0x39 {
            (c - 0x30) as u64
        } else if 0x61 <= c && c <= 0x66 {
            (c - 0x57) as u64
        } else if 0x41 <= c && c <= 0x46 {
            (c - 0x37) as u64
        } else {
            proof {
                assert(!all_digits(t)) by {
                    assert(t[i - a] == c);
                }
            }
            return None;
        };
        proof {
            assert(t.subrange(0, i + 1 - a).drop_last() =~= t.subrange(0, i - a));
            assert(t.subrange(0, i + 1 - a).last() == c);
            assert(all_digits(t.subrange(0, i + 1 - a))) by {
                assert forall|j: int| 0 <= j < i + 1 - a implies (#[trigger] digit_value(
                    t.subrange(0, i + 1 - a)[j],
                )) is Some by {
                    if j < i - a {
                        assert(t.subrange(0, i + 1 - a)[j] == t.subrange(0, i - a)[j]);
                    }
                }
            }
        }
        if acc > (u64::MAX - d) / 16 {
            proof {
                assert(hex_value(t.subrange(0, i + 1 - a)) > u64::MAX) by (nonlinear_arith)
                    requires
                        hex_value(t.subrange(0, i + 1 - a)) == acc * 16 + d,
                        acc > (u64::MAX - d) / 16,
                        d < 16,
                ;
                if all_digits(t) {
                    lemma_hex_prefix(t, i + 1 - a);
                }
            }
            return None;
        }
        proof {
            assert(acc * 16 + d <= u64::MAX) by (nonlinear_arith)
                requires
                    acc <= (u64::MAX - d) / 16,
                    d < 16,
            ;
        }
        acc = acc * 16 + d;
        i = i + 1;
    }
    proof {
        assert(t.subrange(0, b - a) =~= t);
    }
    Some(acc)
}

/// The spans `[start, end)` of the tokens of `s`, in order.
pub fn token_spans(s: &[u8]) -> (r: Vec<(usize, usize)>)
    ensures
        r@.len() == tokens(s@).len(),
        forall|k: int|
            0 <= k < r@.len() ==> r@[k].0 <= r@[k].1 <= s@.len() && s@.subrange(
                #[trigger] r@[k].0 as int,
                r@[k].1 as int,
            ) == tokens(s@)[k],
{
    let mut spans: Vec<(usize, usize)> = Vec::new();
    let ghost mut done: Seq<Seq<u8>> = Seq::empty();
    let mut start: usize = 0;
    let mut i: usize = 0;
    proof {
        assert(s@.subrange(0, 0) =~= Seq::<u8>::empty());
        assert(done + tokens(s@) =~= tokens(s@));
    }
    while i < s.len()
        invariant
            start <= i <= s@.len(),
            tokens(s@) == done + tokens_from(s@, i as int, s@.subrange(start as int, i as int)),
            spans@.len() == done.len(),
            forall|k: int|
                0 <= k < spans@.len() ==> spans@[k].0 <= spans@[k].1 <= s@.len() && s@.subrange(
                    #[trigger] spans@[k].0 as int,
                    spans@[k].1 as int,
                ) == done[k],
        decreases s@.len() - i,
    {
        let ghost cur = s@.subrange(start as int, i as int);
        if s[i] == 0x20 || (0x09 <= s[i] && s[i] <= 0x0d) {
            if start < i {
                let ghost old_spans = spans@;
                spans.push((start, i));
                proof {
                    let ghost old_done = done;
                    done = done.push(cur);
                    assert forall|k: int| 0 <= k < spans@.len() implies spans@[k].0 <= spans@[k].1
                        <= s@.len() && s@.subrange(#[trigger] spans@[k].0 as int, spans@[k].1 as int)
                        == done[k] by {
                        if k < old_done.len() {
                            assert(done[k] == old_done[k]);
                            assert(spans@[k] == old_spans[k]);
                        } else {
                            assert(spans@[k] == (start, i));
                        }
                    }
                }
            }
            proof {
                assert(tokens_from(s@, i as int, cur) == (if cur.len() > 0 {
                    seq![cur]
                } else {
                    Seq::<Seq<u8>>::empty()
                }) + tokens_from(s@, i + 1, Seq::empty()));
                assert(s@.subrange(i + 1, i + 1) =~= Seq::<u8>::empty());
                if cur.len() > 0 {
                    assert(done.drop_last() + (seq![cur] + tokens_from(s@, i + 1, Seq::empty()))
                        =~= done + tokens_from(s@, i + 1, Seq::empty()));
                } else {
                    assert(done + (Seq::<Seq<u8>>::empty() + tokens_from(s@, i + 1, Seq::empty()))
                        =~= done + tokens_from(s@, i + 1, Seq::empty()));
                }
            }
            start = i + 1;
        } else {
            proof {
                assert(s@.subrange(start as int, i + 1) =~= cur.push(s@[i as int]));
            }
        }
        assert(forall|k: int|
            0 <= k < spans@.len() ==> spans@[k].0 <= spans@[k].1 <= s@.len() && s@.subrange(
                #[trigger] spans@[k].0 as int,
                spans@[k].1 as int,
            ) == done[k]);
        i = i + 1;
    }
    let ghost cur = s@.subrange(start as int, i as int);
    if start < i {
        let ghost old_spans = spans@;
        spans.push((start, i));
        proof {
            let ghost old_done = done;
            done = done.push(cur);
            assert forall|k: int| 0 <= k < spans@.len() implies spans@[k].0 <= spans@[k].1
                <= s@.len() && s@.subrange(#[trigger] spans@[k].0 as int, spans@[k].1 as int)
                == done[k] by {
                if k < old_done.len() {
                    assert(done[k] == old_done[k]);
                    assert(spans@[k] == old_spans[k]);
                } else {
                    assert(spans@[k] == (start, i));
                }
            }
        }
    }
    proof {
        if cur.len() > 0 {
            assert(done.drop_last() + seq![cur] =~= done);
        } else {
            assert(done + Seq::<Seq<u8>>::empty() =~= done);
        }
    }
    spans
}

} // verus!
