//! Segment file naming: `kvlog_<decimal identifier>.cmdlog`.
//!
//! Identifiers are written in plain decimal with no leading zeros, so names
//! of equal-width identifiers sort in creation order and each name has
//! exactly one reading. The parser accepts exactly the writer's output;
//! files whose names read as nothing are not segments and are ignored.

use vstd::prelude::*;

use crate::codec::hex_digit_char;
use crate::codec::hex_val;
use crate::codec::hex_value;
use crate::codec::push_char;

verus! {

pub open spec fn name_prefix() -> Seq<char> {
    seq!['k', 'v', 'l', 'o', 'g', '_']
}

pub open spec fn name_suffix() -> Seq<char> {
    seq!['.', 'c', 'm', 'd', 'l', 'o', 'g']
}

/// The decimal digits of `n`, most significant first, no leading zeros.
pub open spec fn dec_str(n: nat) -> Seq<char>
    decreases n,
{
    if n < 10 {
        seq![hex_digit_char(n as int)]
    } else {
        dec_str(n / 10) + seq![hex_digit_char((n % 10) as int)]
    }
}

/// The file name of the segment with identifier `id`.
pub open spec fn seg_name(id: u64) -> Seq<char> {
    name_prefix() + dec_str(id as nat) + name_suffix()
}

pub open spec fn is_digit(c: char) -> bool {
    0 <= hex_val(c) <= 9
}

/// The value of a digit string, most significant first.
pub open spec fn digits_val(s: Seq<char>) -> int
    decreases s.len(),
{
    if s.len() == 0 {
        0
    } else {
        digits_val(s.drop_last()) * 10 + hex_val(s.last())
    }
}

pub proof fn lemma_dec_str_facts(n: nat)
    ensures
        dec_str(n).len() >= 1,
        forall|i: int| 0 <= i < dec_str(n).len() ==> is_digit(#[trigger] dec_str(n)[i]),
        digits_val(dec_str(n)) == n,
        dec_str(n).len() > 1 ==> dec_str(n)[0] != '0',
    decreases n,
{
    if n < 10 {
        let s = dec_str(n);
        assert(s =~= seq![hex_digit_char(n as int)]);
        assert(s.drop_last() =~= Seq::<char>::empty());
        assert(digits_val(s.drop_last()) == 0);
        assert(s.last() == hex_digit_char(n as int));
        assert(digits_val(s) == n);
    } else {
        lemma_dec_str_facts(n / 10);
        let s = dec_str(n);
        let pre = dec_str(n / 10);
        assert(s == pre + seq![hex_digit_char((n % 10) as int)]);
        assert(s.drop_last() =~= pre);
        assert(s.last() == hex_digit_char((n % 10) as int));
        assert(hex_val(s.last()) == n % 10);
        assert(digits_val(s) == digits_val(pre) * 10 + n % 10);
        assert(digits_val(pre) == n / 10);
        assert(n as int == (n as int / 10) * 10 + (n as int % 10)) by (nonlinear_arith);
        assert(digits_val(s) == n);
        assert(s[0] == pre[0]);
        if n / 10 < 10 {
            assert(pre =~= seq![hex_digit_char((n / 10) as int)]);
            assert(n / 10 >= 1);
            assert(pre[0] != '0');
        } else {
            lemma_dec_str_facts(n / 10 / 10);
            assert(pre == dec_str(n / 10 / 10) + seq![hex_digit_char((n / 10 % 10) as int)]);
            assert(pre.len() >= 2);
            assert(pre[0] != '0');
        }
    }
}

/// A longer digit prefix never has a smaller value.
pub proof fn lemma_digits_val_mono(s: Seq<char>, i: int, j: int)
    requires
        forall|x: int| 0 <= x < s.len() ==> is_digit(#[trigger] s[x]),
        0 <= i <= j <= s.len(),
    ensures
        0 <= digits_val(s.subrange(0, i)) <= digits_val(s.subrange(0, j)),
    decreases j - i,
{
    if i == j {
        lemma_digits_val_nonneg(s.subrange(0, i));
    } else {
        lemma_digits_val_mono(s, i, j - 1);
        let sj = s.subrange(0, j);
        assert(sj.drop_last() =~= s.subrange(0, j - 1));
        assert(is_digit(sj.last()));
    }
}

pub proof fn lemma_digits_val_nonneg(s: Seq<char>)
    requires
        forall|x: int| 0 <= x < s.len() ==> is_digit(#[trigger] s[x]),
    ensures
        digits_val(s) >= 0,
    decreases s.len(),
{
    if s.len() > 0 {
        assert(forall|x: int|
            0 <= x < s.drop_last().len() ==> is_digit(#[trigger] s.drop_last()[x]));
        lemma_digits_val_nonneg(s.drop_last());
    }
}

fn digit_char(d: u64) -> (c: char)
    requires
        d < 10,
    ensures
        c == hex_digit_char(d as int),
{
    if d == 0 { '0' } else if d == 1 { '1' } else if d == 2 { '2' } else if d == 3 { '3' }
    else if d == 4 { '4' } else if d == 5 { '5' } else if d == 6 { '6' } else if d == 7 { '7' }
    else if d == 8 { '8' } else { '9' }
}

fn push_decimal(out: &mut String, n: u64)
    ensures
        final(out)@ == old(out)@ + dec_str(n as nat),
    decreases n,
{
    if n < 10 {
        push_char(out, digit_char(n));
        proof {
            assert(old(out)@.push(hex_digit_char(n as int)) =~= old(out)@ + dec_str(n as nat));
        }
    } else {
        push_decimal(out, n / 10);
        push_char(out, digit_char(n % 10));
        proof {
            assert((old(out)@ + dec_str((n / 10) as nat)).push(
                hex_digit_char((n % 10) as int),
            ) =~= old(out)@ + dec_str(n as nat));
        }
    }
}

/// The name a fresh segment with identifier `id` is created under.
pub fn segment_file_name(id: u64) -> (name: String)
    ensures
        name@ == seg_name(id),
{
    let mut name = String::new();
    push_char(&mut name, 'k');
    push_char(&mut name, 'v');
    push_char(&mut name, 'l');
    push_char(&mut name, 'o');
    push_char(&mut name, 'g');
    push_char(&mut name, '_');
    proof {
        assert(name@ =~= name_prefix());
    }
    push_decimal(&mut name, id);
    push_char(&mut name, '.');
    push_char(&mut name, 'c');
    push_char(&mut name, 'm');
    push_char(&mut name, 'd');
    push_char(&mut name, 'l');
    push_char(&mut name, 'o');
    push_char(&mut name, 'g');
    proof {
        assert(name@ =~= seg_name(id));
    }
    name
}

/// Reads a segment identifier back out of a file name: `Some(id)` exactly on
/// the writer's names, `None` on every other string, which `list_segments`
/// ignores.
pub fn parse_segment_file_name(name: &String) -> (r: Option<u64>)
    ensures
        match r {
            Some(id) => name@ == seg_name(id),
            None => forall|id: u64| name@ != #[trigger] seg_name(id),
        },
{
    let s = name.as_str();
    let n = s.unicode_len();
    if n < 14 {
        proof {
            assert forall|id: u64| name@ != #[trigger] seg_name(id) by {
                if name@ == seg_name(id) {
                    lemma_dec_str_facts(id as nat);
                }
            }
        }
        return None;
    }
    let ok = s.get_char(0) == 'k' && s.get_char(1) == 'v' && s.get_char(2) == 'l' && s.get_char(3)
        == 'o' && s.get_char(4) == 'g' && s.get_char(5) == '_' && s.get_char(n - 7) == '.'
        && s.get_char(n - 6) == 'c' && s.get_char(n - 5) == 'm' && s.get_char(n - 4) == 'd'
        && s.get_char(n - 3) == 'l' && s.get_char(n - 2) == 'o' && s.get_char(n - 1) == 'g';
    if !ok {
        proof {
            assert forall|id: u64| name@ != #[trigger] seg_name(id) by {
                if name@ == seg_name(id) {
                    lemma_dec_str_facts(id as nat);
                    let dl = dec_str(id as nat).len();
                    assert(name@.len() == 6 + dl + 7);
                    assert(forall|x: int| 0 <= x < 6 ==> name@[x] == name_prefix()[x]);
                    assert(forall|x: int|
                        0 <= x < 7 ==> name@[6 + dl + x] == name_suffix()[x]);
                    assert(false);
                }
            }
        }
        return None;
    }
    let ghost gdigits = name@.subrange(6, n - 7);
    if s.get_char(6) == '0' && n > 14 {
        proof {
            assert forall|id: u64| name@ != #[trigger] seg_name(id) by {
                if name@ == seg_name(id) {
                    lemma_dec_str_facts(id as nat);
                    let dl = dec_str(id as nat).len();
                    assert(name@.len() == 6 + dl + 7);
                    assert(dl > 1);
                    assert(name@[6] == dec_str(id as nat)[0]);
                    assert(false);
                }
            }
        }
        return None;
    }
    let mut acc: u64 = 0;
    let mut i: usize = 6;
    while i < n - 7
        invariant
            6 <= i <= n - 7,
            14 <= n,
            n == name@.len(),
            s@ == name@,
            gdigits == name@.subrange(6, n as int - 7),
            forall|x: int| 6 <= x < i ==> is_digit(#[trigger] name@[x]),
            acc as int == digits_val(name@.subrange(6, i as int)),
        decreases n - 7 - i,
    {
        let c = s.get_char(i);
        let d = match hex_value(c) {
            Some(v) if v <= 9 => v as u64,
            _ => {
                proof {
                    assert(!is_digit(name@[i as int]));
                    assert forall|id: u64| name@ != #[trigger] seg_name(id) by {
                        if name@ == seg_name(id) {
                            lemma_dec_str_facts(id as nat);
                            let dl = dec_str(id as nat).len();
                            assert(name@.len() == 6 + dl + 7);
                            assert(name@[i as int] == dec_str(id as nat)[i - 6]);
                            assert(false);
                        }
                    }
                }
                return None;
            },
        };
        if acc > (u64::MAX - d) / 10 {
            proof {
                assert(acc as int * 10 + d > u64::MAX as int) by (nonlinear_arith)
                    requires
                        acc as int > (u64::MAX as int - d) / 10,
                        0 <= d <= 9,
                ;
                assert(digits_val(name@.subrange(6, i + 1)) > u64::MAX as int) by {
                    assert(name@.subrange(6, i + 1).drop_last() =~= name@.subrange(6, i as int));
                    assert(name@.subrange(6, i + 1).last() == name@[i as int]);
                }
                assert forall|id: u64| name@ != #[trigger] seg_name(id) by {
                    if name@ == seg_name(id) {
                        lemma_dec_str_facts(id as nat);
                        let dl = dec_str(id as nat).len();
                        assert(name@.len() == 6 + dl + 7);
                        assert forall|x: int| 0 <= x < dl implies is_digit(
                            #[trigger] gdigits[x],
                        ) by {
                            assert(gdigits[x] == dec_str(id as nat)[x]);
                        }
                        assert(gdigits =~= dec_str(id as nat));
                        assert(forall|x: int|
                            6 <= x < n - 7 ==> name@[x] == gdigits[x - 6]);
                        assert(forall|x: int|
                            0 <= x < gdigits.len() ==> is_digit(#[trigger] name@[6 + x]));
                        lemma_digits_val_mono(gdigits, i - 6 + 1, n - 7 - 6);
                        assert(name@.subrange(6, i + 1) =~= gdigits.subrange(0, i - 6 + 1));
                        assert(gdigits.subrange(0, gdigits.len() as int) =~= gdigits);
                        assert(digits_val(gdigits) == id as int);
                        assert(false);
                    }
                }
            }
            return None;
        }
        proof {
            assert(acc as int * 10 + d <= u64::MAX as int) by (nonlinear_arith)
                requires
                    acc as int <= (u64::MAX as int - d) / 10,
                    0 <= d <= 9,
                    acc as int >= 0,
            ;
            assert(name@.subrange(6, i + 1).drop_last() =~= name@.subrange(6, i as int));
            assert(name@.subrange(6, i + 1).last() == name@[i as int]);
            assert(hex_val(name@[i as int]) == d);
        }
        acc = acc * 10 + d;
        i = i + 1;
    }
    let formatted = segment_file_name(acc);
    if *name == formatted {
        Some(acc)
    } else {
        proof {
            assert forall|id: u64| name@ != #[trigger] seg_name(id) by {
                if name@ == seg_name(id) {
                    lemma_dec_str_facts(id as nat);
                    let dl = dec_str(id as nat).len();
                    assert(name@.len() == 6 + dl + 7);
                    assert forall|x: int| 0 <= x < dl implies gdigits[x] == dec_str(
                        id as nat,
                    )[x] by {
                        assert(name@[6 + x] == dec_str(id as nat)[x]);
                    }
                    assert(gdigits =~= dec_str(id as nat));
                    assert(name@.subrange(6, (n - 7) as int) == gdigits);
                    assert(acc as int == digits_val(gdigits));
                    assert(digits_val(dec_str(id as nat)) == id as int);
                    assert(acc == id);
                    assert(formatted@ == seg_name(acc));
                    assert(false);
                }
            }
        }
        None
    }
}

} // verus!
