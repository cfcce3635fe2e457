//! Reading back the JSON pieces of `text`.
use vstd::prelude::*;
use crate::text::{byte_list, decimal, escape_byte, escaped, hex_digit, is_digit, list_items, quoted};

verus! {

/// The value of a run of ASCII digits.
pub open spec fn digits_value(s: Seq<u8>) -> nat
    decreases s.len(),
{
    if s.len() == 0 {
        0
    } else {
        digits_value(s.drop_last()) * 10 + (s.last() - 48) as nat
    }
}

pub open spec fn pow10(k: nat) -> nat
    decreases k,
{
    if k == 0 {
        1
    } else {
        10 * pow10((k - 1) as nat)
    }
}

proof fn lemma_pow10_mono(a: nat, b: nat)
    requires
        a <= b,
    ensures
        pow10(a) <= pow10(b),
    decreases b,
{
    if a < b {
        lemma_pow10_mono(a, (b - 1) as nat);
    }
}

/// `decimal(n)` is a non-empty run of digits worth `n`, and it has at most
/// `k` digits when `n < 10^k`.
pub(crate) proof fn lemma_decimal(n: nat)
    ensures
        decimal(n).len() >= 1,
        forall|i: int| 0 <= i < decimal(n).len() ==> is_digit(#[trigger] decimal(n)[i]),
        digits_value(decimal(n)) == n,
        forall|k: nat| 1 <= k && n < #[trigger] pow10(k) ==> decimal(n).len() <= k,
    decreases n,
{
    if n >= 10 {
        lemma_decimal(n / 10);
        assert(decimal(n).drop_last() == decimal(n / 10));
        assert(n == (n / 10) * 10 + n % 10);
        assert(decimal(n).last() == ((n % 10) + 48) as u8);
        assert(digits_value(decimal(n)) == digits_value(decimal(n / 10)) * 10 + (n % 10));
        assert(digits_value(decimal(n)) == n);
        assert forall|k: nat| 1 <= k && n < #[trigger] pow10(k) implies decimal(n).len() <= k by {
            if k == 1 {
                assert(pow10(1) == 10 * pow10(0));
            } else {
                let p = pow10((k - 1) as nat);
                assert(pow10(k) == 10 * p);
                assert(n / 10 < p) by (nonlinear_arith)
                    requires
                        n < 10 * p,
                ;
            }
        }
    } else {
        assert(decimal(n).drop_last() == Seq::<u8>::empty());
        assert(digits_value(decimal(n)) == digits_value(Seq::<u8>::empty()) * 10 + n);
        assert(digits_value(decimal(n)) == n);
        assert forall|k: nat| 1 <= k && n < #[trigger] pow10(k) implies decimal(n).len() <= k by {
        }
    }
}

/// Reads a run of at most `max_len` digits at `start`; fails on an empty run
/// or a longer one. Where `decimal(n)` stands at `start`, not followed by a
/// digit, it reads `n`.
pub fn parse_digits(b: &[u8], start: usize, max_len: usize) -> (r: Option<(u64, usize)>)
    requires
        start <= b@.len(),
        1 <= max_len <= 10,
    ensures
        r matches Some((v, e)) ==> start < e <= b@.len(),
        forall|n: nat|
            #![trigger decimal(n)]
            start + decimal(n).len() <= b@.len() && b@.subrange(
                start as int,
                start + decimal(n).len(),
            ) == decimal(n) && (start + decimal(n).len() == b@.len() || !is_digit(
                b@[start + decimal(n).len()],
            )) && decimal(n).len() <= max_len ==> r == Some((n as u64, (start + decimal(n).len()) as usize)),
{
    let mut j: usize = start;
    let mut v: u64 = 0;
    proof {
        lemma_pow10_mono(max_len as nat, 10);
        reveal_with_fuel(pow10, 11);
    }
    while j < b.len() && j - start < max_len && 48 <= b[j] && b[j] <= 57
        invariant
            start <= j <= b@.len(),
            j - start <= max_len <= 10,
            pow10(max_len as nat) <= 10000000000,
            v == digits_value(b@.subrange(start as int, j as int)),
            v < pow10((j - start) as nat),
            forall|i: int| start <= i < j ==> is_digit(b@[i]),
        decreases b@.len() - j,
    {
        proof {
            lemma_pow10_mono((j - start + 1) as nat, max_len as nat);
            assert(b@.subrange(start as int, j + 1).drop_last() == b@.subrange(start as int, j as int));
        }
        v = v * 10 + (b[j] - 48) as u64;
        j = j + 1;
    }
    let r = if j == start || (j < b.len() && 48 <= b[j] && b[j] <= 57) {
        None
    } else {
        Some((v, j))
    };
    assert forall|n: nat|
        #![trigger decimal(n)]
        start + decimal(n).len() <= b@.len() && b@.subrange(start as int, start + decimal(n).len())
            == decimal(n) && (start + decimal(n).len() == b@.len() || !is_digit(
            b@[start + decimal(n).len()],
        )) && decimal(n).len() <= max_len implies r == Some((n as u64, (start + decimal(n).len()) as usize)) by {
        lemma_decimal(n);
        let e = start + decimal(n).len();
        assert forall|i: int| start <= i < e implies is_digit(b@[i]) by {
            assert(b@[i] == decimal(n)[i - start]);
        }
        if j < e {
            assert(is_digit(b@[j as int]));
        }
        if j > e {
            assert(is_digit(b@[e]));
        }
        assert(j == e);
    }
    r
}

proof fn lemma_items_step(w: Seq<u8>, k: int)
    requires
        0 <= k < w.len(),
    ensures
        list_items(w.take(k + 1)) == list_items(w.take(k)) + (if k > 0 {
            seq![44u8]
        } else {
            Seq::empty()
        }) + decimal(w[k] as nat),
{
    assert(w.take(k + 1).drop_last() == w.take(k));
    if k == 0 {
        assert(list_items(w.take(0)) == Seq::<u8>::empty());
        assert(Seq::<u8>::empty() + Seq::<u8>::empty() + decimal(w[0] as nat) == decimal(w[0] as nat));
    }
}

proof fn lemma_items_prefix(w: Seq<u8>, j: int)
    requires
        1 <= j <= w.len(),
    ensures
        list_items(w.take(j)).len() <= list_items(w).len(),
        list_items(w).subrange(0, list_items(w.take(j)).len() as int) == list_items(w.take(j)),
        j < w.len() ==> list_items(w.take(j)).len() < list_items(w).len(),
        j < w.len() ==> list_items(w)[list_items(w.take(j)).len() as int] == 44,
    decreases w.len(),
{
    if j == w.len() {
        assert(w.take(j) == w);
        assert(list_items(w).subrange(0, list_items(w).len() as int) == list_items(w));
    } else {
        let p = w.drop_last();
        lemma_items_prefix(p, j);
        assert(p.take(j) == w.take(j));
        assert(w.len() >= 2);
        assert(list_items(w) == list_items(p) + seq![44u8] + decimal(w.last() as nat));
        let a = list_items(w.take(j));
        assert(list_items(w).subrange(0, a.len() as int) == list_items(p).subrange(0, a.len() as int));
    }
}

/// Where the `k`-th value of `byte_list(w)` placed at `start` begins.
pub open spec fn item_start(start: int, w: Seq<u8>, k: int) -> int {
    start + 1 + list_items(w.take(k)).len() + (if k > 0 {
        1int
    } else {
        0int
    })
}

/// Where the `k`-th value of `byte_list(w)` placed at `start` ends.
pub open spec fn item_end(start: int, w: Seq<u8>, k: int) -> int {
    item_start(start, w, k) + decimal(w[k] as nat).len()
}

/// Where `byte_list(w)` stands at `start` in `b`, the `k`-th value stands
/// where the parser looks for it, and the byte after it says whether more
/// follow.
proof fn lemma_list_at(b: Seq<u8>, start: int, w: Seq<u8>, k: int)
    requires
        0 <= start,
        start + byte_list(w).len() <= b.len(),
        b.subrange(start, start + byte_list(w).len()) == byte_list(w),
        0 <= k < w.len(),
    ensures
        item_end(start, w, k) < b.len(),
        b.subrange(item_start(start, w, k), item_end(start, w, k)) == decimal(w[k] as nat),
        !is_digit(b[item_end(start, w, k)]),
        k + 1 < w.len() ==> b[item_end(start, w, k)] == 44,
        k + 1 == w.len() ==> b[item_end(start, w, k)] == 93,
        item_end(start, w, k) == start + 1 + list_items(w.take(k + 1)).len(),
{
    lemma_items_step(w, k);
    lemma_items_prefix(w, k + 1);
    let items = list_items(w);
    let lst = byte_list(w);
    assert(lst == seq![91u8] + items + seq![93u8]);
    assert forall|i: int| 0 <= i < items.len() implies b[start + 1 + i] == items[i] by {
        assert(b[start + 1 + i] == lst[1 + i]);
    }
    assert(b[start + 1 + items.len()] == lst[1 + items.len() as int]);
    let pos = start + 1 + list_items(w.take(k)).len() + (if k > 0 {
        1int
    } else {
        0int
    });
    let d = decimal(w[k] as nat);
    let pre = list_items(w.take(k + 1));
    let e = pos + d.len();
    assert forall|i: int| 0 <= i < d.len() implies b.subrange(pos, e)[i] == d[i] by {
        assert(pre[pre.len() - d.len() + i] == d[i]);
        assert(items[pre.len() - d.len() + i] == pre[pre.len() - d.len() + i]);
    }
    assert(b.subrange(pos, e) == d);
    lemma_decimal(w[k] as nat);
    if k + 1 == w.len() {
        assert(w.take(k + 1) == w);
        assert(b[e] == lst[1 + items.len() as int]);
    } else {
        assert(e == start + 1 + pre.len());
        assert(pre.len() < items.len());
        assert(b[e] == items[pre.len() as int]);
    }
}

/// `byte_list(w)` stands at `start` in `b`.
pub open spec fn list_at(b: Seq<u8>, start: int, w: Seq<u8>) -> bool {
    start + byte_list(w).len() <= b.len() && b.subrange(start, start + byte_list(w).len())
        == byte_list(w)
}

/// `r` read the bytes `w`, and the text ended just before `end`.
pub open spec fn read_as(r: Option<(Vec<u8>, usize)>, w: Seq<u8>, end: int) -> bool {
    r matches Some((v, e)) && v@ == w && e == end
}

/// Reads a JSON array of byte values at `start`: where `byte_list(w)`
/// stands there, it reads `w` and the position after the array.
pub fn parse_byte_list(b: &[u8], start: usize) -> (r: Option<(Vec<u8>, usize)>)
    requires
        start <= b@.len(),
    ensures
        r matches Some((v, e)) ==> e <= b@.len(),
        forall|w: Seq<u8>|
            #![trigger list_at(b@, start as int, w)]
            list_at(b@, start as int, w) ==> read_as(r, w, start + byte_list(w).len()),
{
    let mut result: Option<(Vec<u8>, usize)> = None;
    if start < b.len() && b[start] == 91 {
        if start + 1 < b.len() && b[start + 1] == 93 {
            result = Some((Vec::new(), start + 2));
            proof {
                assert forall|w: Seq<u8>|
                    #![trigger list_at(b@, start as int, w)]
            list_at(b@, start as int, w) implies read_as(result, w, start + byte_list(w).len()) by {
                    if w.len() > 0 {
                        lemma_list_at(b@, start as int, w, 0);
                        lemma_decimal(w[0] as nat);
                        assert(w.take(0) == Seq::<u8>::empty());
                        assert(b@[start + 1] == decimal(w[0] as nat)[0]);
                    } else {
                        assert(list_items(w) == Seq::<u8>::empty());
                        let (v, e) = result->0;
                        assert(v@ == w);
                    }
                }
            }
        } else {
            let mut out: Vec<u8> = Vec::new();
            let mut pos: usize = start + 1;
            proof {
                assert forall|w: Seq<u8>|
                    #![trigger list_at(b@, start as int, w)]
            list_at(b@, start as int, w) implies w.len() > 0 && out@ == w.take(0) && pos == start + 1
                    + list_items(w.take(0)).len() by {
                    if w.len() == 0 {
                        assert(list_items(w) == Seq::<u8>::empty());
                        assert(b@[start + 1] == byte_list(w)[1]);
                    }
                    assert(w.take(0) == Seq::<u8>::empty());
                }
            }
            loop
                invariant_except_break
                    start < pos <= b@.len(),
                    result is None,
                    forall|w: Seq<u8>|
                        #![trigger list_at(b@, start as int, w)]
            list_at(b@, start as int, w) ==> out@.len() < w.len() && out@ == w.take(
                            out@.len() as int,
                        ) && pos == start + 1 + list_items(w.take(out@.len() as int)).len() + (
                        if out@.len() > 0 {
                            1int
                        } else {
                            0int
                        }),
                ensures
                    result matches Some((v, e)) ==> e <= b@.len(),
                    forall|w: Seq<u8>|
                        #![trigger list_at(b@, start as int, w)]
            list_at(b@, start as int, w) ==> read_as(result, w, start + byte_list(w).len()),
                decreases b@.len() - pos,
            {
                let ghost k = out@.len() as int;
                let ghost old_out = out@;
                let ghost old_pos = pos;
                let d = parse_digits(b, pos, 3);
                proof {
                    assert forall|w: Seq<u8>|
                        #![trigger list_at(b@, start as int, w)]
            list_at(b@, start as int, w) implies d == Some((w[k] as u64, (pos + decimal(w[k] as nat).len()) as usize)) by {
                        lemma_list_at(b@, start as int, w, k);
                        lemma_decimal(w[k] as nat);
                        reveal_with_fuel(pow10, 4);
                        assert(pow10(3) == 1000);
                        assert(w[k] < pow10(3));
                        assert(decimal(w[k] as nat).len() <= 3);
                    }
                }
                match d {
                    Some((v, e)) => {
                        if v > 255 || e >= b.len() {
                            proof {
                                assert forall|w: Seq<u8>|
                                    #![trigger list_at(b@, start as int, w)]
                                    list_at(b@, start as int, w) implies false by {
                                    lemma_list_at(b@, start as int, w, k);
                                }
                            }
                            break;
                        }
                        out.push(v as u8);
                        pos = e;
                        if b[pos] == 93 {
                            result = Some((out, pos + 1));
                            proof {
                                assert forall|w: Seq<u8>|
                                    #![trigger list_at(b@, start as int, w)]
            list_at(b@, start as int, w) implies read_as(result, w, start + byte_list(w).len()) by {
                                    lemma_list_at(b@, start as int, w, k);
                                    assert(w.take(k + 1) == w.take(k).push(w[k]));
                                    assert(w.take(k + 1) == w);
                                }
                            }
                            break;
                        } else if b[pos] == 44 {
                            pos = pos + 1;
                            proof {
                                assert forall|w: Seq<u8>|
                                    #![trigger list_at(b@, start as int, w)]
            list_at(b@, start as int, w) implies out@.len() < w.len() && out@ == w.take(
                                        out@.len() as int,
                                    ) && pos == start + 1 + list_items(w.take(out@.len() as int)).len()
                                        + (if out@.len() > 0 {
                                        1int
                                    } else {
                                        0int
                                    }) by {
                                    lemma_list_at(b@, start as int, w, k);
                                    assert(w.take(k + 1) == w.take(k).push(w[k]));
                                }
                            }
                        } else {
                            proof {
                                assert forall|w: Seq<u8>|
                                    #![trigger list_at(b@, start as int, w)]
            list_at(b@, start as int, w) implies false by {
                                    lemma_list_at(b@, start as int, w, k);
                                }
                            }
                            break;
                        }
                    },
                    None => {
                        break;
                    },
                }
            }
        }
    } else {
        proof {
            assert forall|w: Seq<u8>|
                #![trigger list_at(b@, start as int, w)]
            list_at(b@, start as int, w) implies false by {
                assert(b@[start as int] == byte_list(w)[0]);
            }
        }
    }
    result
}

/// `quoted(t)` stands at `start` in `b`.
pub open spec fn quoted_at(b: Seq<u8>, start: int, t: Seq<u8>) -> bool {
    start + quoted(t).len() <= b.len() && b.subrange(start, start + quoted(t).len()) == quoted(t)
}

/// `escape_byte(c)` stands at `p` in `b`.
pub open spec fn unit_at(b: Seq<u8>, p: int, c: u8) -> bool {
    p + escape_byte(c).len() <= b.len() && b.subrange(p, p + escape_byte(c).len()) == escape_byte(c)
}

proof fn lemma_escaped_prefix(t: Seq<u8>, j: int)
    requires
        0 <= j <= t.len(),
    ensures
        escaped(t.take(j)).len() <= escaped(t).len(),
        escaped(t).subrange(0, escaped(t.take(j)).len() as int) == escaped(t.take(j)),
    decreases t.len(),
{
    if j == t.len() {
        assert(t.take(j) == t);
        assert(escaped(t).subrange(0, escaped(t).len() as int) == escaped(t));
    } else {
        let p = t.drop_last();
        lemma_escaped_prefix(p, j);
        assert(p.take(j) == t.take(j));
        let a = escaped(t.take(j));
        assert(escaped(t).subrange(0, a.len() as int) == escaped(p).subrange(0, a.len() as int));
    }
}

/// Where `quoted(t)` stands at `start`, after the first `k` bytes of `t`
/// comes the escaped form of the next one, or the closing quote.
proof fn lemma_quoted_at(b: Seq<u8>, start: int, t: Seq<u8>, k: int)
    requires
        0 <= start,
        quoted_at(b, start, t),
        0 <= k <= t.len(),
    ensures
        start + 1 + escaped(t.take(k)).len() < b.len(),
        k < t.len() ==> unit_at(b, start + 1 + escaped(t.take(k)).len(), t[k]),
        k < t.len() ==> start + 1 + escaped(t.take(k)).len() + escape_byte(t[k]).len() == start + 1
            + escaped(t.take(k + 1)).len(),
        k < t.len() ==> b[start + 1 + escaped(t.take(k)).len()] != 34,
        k == t.len() ==> b[start + 1 + escaped(t.take(k)).len()] == 34,
        k == t.len() ==> start + 1 + escaped(t.take(k)).len() + 1 == start + quoted(t).len(),
{
    let q = quoted(t);
    let es = escaped(t);
    assert forall|i: int| 0 <= i < es.len() implies b[start + 1 + i] == es[i] by {
        assert(b[start + 1 + i] == q[1 + i]);
    }
    assert(b[start + 1 + es.len()] == q[1 + es.len() as int]);
    if k == t.len() {
        assert(t.take(k) == t);
    } else {
        lemma_escaped_prefix(t, k + 1);
        assert(t.take(k + 1).drop_last() == t.take(k));
        let pre = escaped(t.take(k));
        let u = escape_byte(t[k]);
        let p = start + 1 + pre.len();
        assert(escaped(t.take(k + 1)) == pre + u);
        assert forall|i: int| 0 <= i < u.len() implies b.subrange(p, p + u.len())[i] == u[i] by {
            assert(es[pre.len() + i] == (pre + u)[pre.len() + i]);
        }
        assert(b.subrange(p, p + u.len()) == u);
        assert(b[p] == u[0]);
    }
}

fn hex_value(x: u8) -> (r: Option<u8>)
    ensures
        r matches Some(v) ==> v < 16,
        forall|d: nat| d < 16 && x == #[trigger] hex_digit(d) ==> r == Some(d as u8),
{
    if 48 <= x && x <= 57 {
        Some(x - 48)
    } else if 97 <= x && x <= 102 {
        Some(x - 87)
    } else {
        None
    }
}

/// Reads the escaped form of one byte at `p`.
fn unescape_at(b: &[u8], p: usize) -> (r: Option<(u8, usize)>)
    requires
        p < b@.len(),
    ensures
        r matches Some((c, e)) ==> p < e <= b@.len(),
        forall|c: u8|
            #![trigger escape_byte(c)]
            unit_at(b@, p as int, c) ==> r == Some((c, (p + escape_byte(c).len()) as usize)),
{
    let x = b[p];
    let r = if x != 92 {
        Some((x, p + 1))
    } else if p + 1 >= b.len() {
        None
    } else {
        let y = b[p + 1];
        if y == 34 || y == 92 {
            Some((y, p + 2))
        } else if y == 98 {
            Some((8u8, p + 2))
        } else if y == 116 {
            Some((9u8, p + 2))
        } else if y == 110 {
            Some((10u8, p + 2))
        } else if y == 102 {
            Some((12u8, p + 2))
        } else if y == 114 {
            Some((13u8, p + 2))
        } else if y == 117 && b.len() - p > 5 && b[p + 2] == 48 && b[p + 3] == 48 {
            match (hex_value(b[p + 4]), hex_value(b[p + 5])) {
                (Some(h), Some(l)) => {
                    if h < 2 {
                        Some((h * 16 + l, p + 6))
                    } else {
                        None
                    }
                },
                _ => None,
            }
        } else {
            None
        }
    };
    assert forall|c: u8|
        #![trigger escape_byte(c)]
        unit_at(b@, p as int, c) implies r == Some((c, (p + escape_byte(c).len()) as usize)) by {
        let u = escape_byte(c);
        assert(b@[p as int] == u[0]);
        if u.len() >= 2 {
            assert(b@[p + 1] == u[1]);
        }
        if u.len() == 6 {
            assert(b@[p + 2] == u[2]);
            assert(b@[p + 3] == u[3]);
            assert(b@[p + 4] == u[4]);
            assert(b@[p + 5] == u[5]);
            assert(c as nat / 16 < 2);
        }
    }
    r
}

/// Reads a JSON string at `start`: where `quoted(t)` stands there, it reads
/// `t` and the position after the closing quote.
pub fn parse_quoted(b: &[u8], start: usize) -> (r: Option<(Vec<u8>, usize)>)
    requires
        start <= b@.len(),
    ensures
        r matches Some((v, e)) ==> e <= b@.len(),
        forall|t: Seq<u8>|
            #![trigger quoted_at(b@, start as int, t)]
            quoted_at(b@, start as int, t) ==> read_as(r, t, start + quoted(t).len()),
{
    let mut result: Option<(Vec<u8>, usize)> = None;
    if start < b.len() && b[start] == 34 {
        let mut out: Vec<u8> = Vec::new();
        let mut pos: usize = start + 1;
        proof {
            assert forall|t: Seq<u8>|
                #![trigger quoted_at(b@, start as int, t)]
                quoted_at(b@, start as int, t) implies out@ == t.take(0) && pos == start + 1
                + escaped(t.take(0)).len() by {
                assert(t.take(0) == Seq::<u8>::empty());
            }
        }
        loop
            invariant_except_break
                start < pos <= b@.len(),
                result is None,
                forall|t: Seq<u8>|
                    #![trigger quoted_at(b@, start as int, t)]
                    quoted_at(b@, start as int, t) ==> out@.len() <= t.len() && out@ == t.take(
                        out@.len() as int,
                    ) && pos == start + 1 + escaped(t.take(out@.len() as int)).len(),
            ensures
                result matches Some((v, e)) ==> e <= b@.len(),
                forall|t: Seq<u8>|
                    #![trigger quoted_at(b@, start as int, t)]
                    quoted_at(b@, start as int, t) ==> read_as(result, t, start + quoted(t).len()),
            decreases b@.len() - pos,
        {
            let ghost k = out@.len() as int;
            if pos >= b.len() {
                proof {
                    assert forall|t: Seq<u8>|
                        #![trigger quoted_at(b@, start as int, t)]
                        quoted_at(b@, start as int, t) implies false by {
                        lemma_quoted_at(b@, start as int, t, k);
                    }
                }
                break;
            }
            if b[pos] == 34 {
                result = Some((out, pos + 1));
                proof {
                    assert forall|t: Seq<u8>|
                        #![trigger quoted_at(b@, start as int, t)]
                        quoted_at(b@, start as int, t) implies read_as(
                            result,
                            t,
                            start + quoted(t).len(),
                        ) by {
                        lemma_quoted_at(b@, start as int, t, k);
                        assert(t.take(t.len() as int) == t);
                    }
                }
                break;
            }
            match unescape_at(b, pos) {
                Some((c, e)) => {
                    proof {
                        assert forall|t: Seq<u8>|
                            #![trigger quoted_at(b@, start as int, t)]
                            quoted_at(b@, start as int, t) implies k < t.len() && c == t[k] && e == pos
                            + escape_byte(t[k]).len() by {
                            lemma_quoted_at(b@, start as int, t, k);
                            assert(t.take(t.len() as int) == t);
                        }
                    }
                    out.push(c);
                    pos = e;
                    proof {
                        assert forall|t: Seq<u8>|
                            #![trigger quoted_at(b@, start as int, t)]
                            quoted_at(b@, start as int, t) implies out@.len() <= t.len() && out@
                            == t.take(out@.len() as int) && pos == start + 1 + escaped(
                            t.take(out@.len() as int),
                        ).len() by {
                            lemma_quoted_at(b@, start as int, t, k);
                            assert(t.take(k + 1) == t.take(k).push(t[k]));
                        }
                    }
                },
                None => {
                    proof {
                        assert forall|t: Seq<u8>|
                            #![trigger quoted_at(b@, start as int, t)]
                            quoted_at(b@, start as int, t) implies false by {
                            lemma_quoted_at(b@, start as int, t, k);
                            if k == t.len() {
                                assert(t.take(t.len() as int) == t);
                            }
                        }
                    }
                    break;
                },
            }
        }
    } else {
        proof {
            assert forall|t: Seq<u8>|
                #![trigger quoted_at(b@, start as int, t)]
                quoted_at(b@, start as int, t) implies false by {
                assert(b@[start as int] == quoted(t)[0]);
            }
        }
    }
    result
}

} // verus!
