use vstd::prelude::*;
use crate::{Combination, valid_subset};

verus! {

/// Why a meta line was rejected.
#[derive(Clone, Copy, PartialEq, Eq, Debug)]
pub enum MetaLineError {
    /// The line cannot be decomposed into the three fields in canonical
    /// form.
    MalformedMetaLine,
    /// A genome index of the line is outside `[0, n)`.
    IndexOutOfRange,
}

pub const TAB: u8 = 9;
pub const COMMA: u8 = 44;

/// The decimal digits of `x`, most significant first.
pub open spec fn digits(x: nat) -> Seq<u8>
    decreases x,
{
    if x < 10 {
        seq![(48 + x) as u8]
    } else {
        digits(x / 10).push((48 + x % 10) as u8)
    }
}

/// The number a digit sequence denotes.
pub open spec fn digits_val(s: Seq<u8>) -> nat
    decreases s.len(),
{
    if s.len() == 0 {
        0
    } else {
        digits_val(s.drop_last()) * 10 + (if s.last() >= 48 {
            (s.last() - 48) as nat
        } else {
            0
        })
    }
}

/// Every byte of a digit sequence is an ASCII digit.
pub proof fn lemma_digits_are_digits(x: nat)
    ensures
        digits(x).len() >= 1,
        forall|i: int| 0 <= i < digits(x).len() ==> 48 <= #[trigger] digits(x)[i] <= 57,
    decreases x,
{
    if x >= 10 {
        lemma_digits_are_digits(x / 10);
        assert forall|i: int| 0 <= i < digits(x).len() implies 48 <= #[trigger] digits(x)[i]
            <= 57 by {
            if i < digits(x / 10).len() {
                assert(digits(x)[i] == digits(x / 10)[i]);
            }
        }
    }
}

/// Reading back the digits of `x` gives `x`.
pub proof fn lemma_digits_val(x: nat)
    ensures
        digits_val(digits(x)) == x,
    decreases x,
{
    if x < 10 {
        let s = digits(x);
        assert(s == seq![(48 + x) as u8]);
        assert(s.len() == 1);
        assert(s.drop_last() =~= Seq::<u8>::empty());
        assert(digits_val(s.drop_last()) == 0);
        assert(s.last() == (48 + x) as u8);
        assert(s.last() as nat == 48 + x);
        assert(digits_val(s) == (s.last() - 48) as nat);
    } else {
        lemma_digits_val(x / 10);
        let s = digits(x);
        assert(s == digits(x / 10).push((48 + x % 10) as u8));
        assert(s.len() == digits(x / 10).len() + 1);
        assert(s.drop_last() =~= digits(x / 10));
        assert(s.last() == (48 + x % 10) as u8);
        assert(s.last() as nat == 48 + x % 10);
        assert(digits_val(s) == digits_val(digits(x / 10)) * 10 + (s.last() - 48) as nat);
        assert(x / 10 * 10 + x % 10 == x) by {
            vstd::arithmetic::div_mod::lemma_fundamental_div_mod(x as int, 10);
        }
    }
}

/// The value only grows as a digit sequence is extended.
proof fn lemma_digits_val_extend(s: Seq<u8>, m: int)
    requires
        0 <= m <= s.len(),
    ensures
        digits_val(s.subrange(0, m)) <= digits_val(s),
    decreases s.len() - m,
{
    if m < s.len() {
        lemma_digits_val_extend(s, m + 1);
        let a = s.subrange(0, m);
        let b = s.subrange(0, m + 1);
        assert(b.drop_last() =~= a);
        assert(digits_val(a) <= digits_val(b));
    } else {
        assert(s.subrange(0, m) =~= s);
    }
}

/// Append the decimal digits of `x`.
fn push_digits(x: usize, out: &mut Vec<u8>)
    ensures
        final(out)@ == old(out)@ + digits(x as nat),
    decreases x,
{
    if x < 10 {
        out.push(48 + x as u8);
        proof {
            assert(out@ =~= old(out)@ + digits(x as nat));
        }
    } else {
        push_digits(x / 10, out);
        out.push(48 + (x % 10) as u8);
        proof {
            assert(out@ =~= old(out)@ + digits(x as nat));
        }
    }
}

/// Parse the decimal number in `line[a..b]`. Accepts exactly a nonempty
/// run of digits whose value fits in `usize`; in particular it accepts the
/// canonical digits of every `usize` and returns that number.
fn parse_usize_range(line: &Vec<u8>, a: usize, b: usize) -> (r: Result<usize, MetaLineError>)
    requires
        a <= b <= line@.len(),
    ensures
        match r {
            Ok(v) => b > a && (forall|i: int| a <= i < b ==> 48 <= #[trigger] line@[i] <= 57)
                && v as nat == digits_val(line@.subrange(a as int, b as int)),
            Err(e) => e == MetaLineError::MalformedMetaLine,
        },
        forall|x0: usize|
            line@.subrange(a as int, b as int) == digits(x0 as nat) ==> r == Ok::<
                usize,
                MetaLineError,
            >(x0),
{
    let ghost seg = line@.subrange(a as int, b as int);
    if a == b {
        proof {
            assert forall|x0: usize| seg == digits(x0 as nat) implies false by {
                lemma_digits_are_digits(x0 as nat);
            }
        }
        return Err(MetaLineError::MalformedMetaLine);
    }
    let mut v: usize = 0;
    let mut i: usize = a;
    while i < b
        invariant
            a <= i <= b <= line@.len(),
            seg == line@.subrange(a as int, b as int),
            forall|t: int| a <= t < i ==> 48 <= #[trigger] line@[t] <= 57,
            v as nat == digits_val(line@.subrange(a as int, i as int)),
            forall|x0: usize|
                seg == digits(x0 as nat) ==> digits_val(line@.subrange(a as int, i as int))
                    <= x0 as nat,
        decreases b - i,
    {
        let c = line[i];
        if c < 48 || c > 57 {
            proof {
                assert forall|x0: usize| seg == digits(x0 as nat) implies false by {
                    lemma_digits_are_digits(x0 as nat);
                    assert(seg[i - a] == line@[i as int]);
                }
            }
            return Err(MetaLineError::MalformedMetaLine);
        }
        let d = (c - 48) as usize;
        if v > (usize::MAX - d) / 10 {
            proof {
                let pre = line@.subrange(a as int, i as int);
                let ext = line@.subrange(a as int, i as int + 1);
                assert(ext.drop_last() =~= pre);
                assert(ext.last() == line@[i as int]);
                assert(digits_val(ext) == v as nat * 10 + d as nat);
                assert(v as nat * 10 + d as nat > usize::MAX as nat) by {
                    assert(v >= (usize::MAX - d) / 10 + 1);
                    assert(10 * ((usize::MAX - d) / 10) >= usize::MAX - d - 9);
                }
                assert forall|x0: usize| seg == digits(x0 as nat) implies false by {
                    lemma_digits_val(x0 as nat);
                    lemma_digits_val_extend(seg, i as int + 1 - a);
                    assert(seg.subrange(0, i as int + 1 - a) =~= ext);
                }
            }
            return Err(MetaLineError::MalformedMetaLine);
        }
        proof {
            let pre = line@.subrange(a as int, i as int);
            let ext = line@.subrange(a as int, i as int + 1);
            assert(ext.drop_last() =~= pre);
            assert(ext.last() == line@[i as int]);
            assert(10 * ((usize::MAX - d) / 10) <= usize::MAX - d);
            assert forall|x0: usize|
                seg == digits(x0 as nat) implies digits_val(ext) <= x0 as nat by {
                lemma_digits_val(x0 as nat);
                lemma_digits_val_extend(seg, i as int + 1 - a);
                assert(seg.subrange(0, i as int + 1 - a) =~= ext);
            }
        }
        v = v * 10 + d;
        i = i + 1;
    }
    proof {
        assert(line@.subrange(a as int, b as int) =~= seg);
        assert forall|x0: usize| seg == digits(x0 as nat) implies v == x0 by {
            lemma_digits_val(x0 as nat);
        }
    }
    Ok(v)
}

/// The canonical bytes of a comma-separated ascending index list.
pub open spec fn list_bytes(gs: Seq<usize>) -> Seq<u8>
    decreases gs.len(),
{
    if gs.len() == 0 {
        Seq::empty()
    } else if gs.len() == 1 {
        digits(gs[0] as nat)
    } else {
        digits(gs[0] as nat) + seq![COMMA] + list_bytes(gs.skip(1))
    }
}

/// Every byte of an index list is a digit or a comma; in particular it
/// holds no tab.
pub proof fn lemma_list_bytes_chars(gs: Seq<usize>)
    ensures
        forall|i: int|
            0 <= i < list_bytes(gs).len() ==> (48 <= #[trigger] list_bytes(gs)[i] <= 57
                || list_bytes(gs)[i] == COMMA),
    decreases gs.len(),
{
    if gs.len() == 1 {
        lemma_digits_are_digits(gs[0] as nat);
    } else if gs.len() > 1 {
        lemma_digits_are_digits(gs[0] as nat);
        lemma_list_bytes_chars(gs.skip(1));
        let d = digits(gs[0] as nat);
        let rest = list_bytes(gs.skip(1));
        assert forall|i: int|
            0 <= i < list_bytes(gs).len() implies (48 <= #[trigger] list_bytes(gs)[i] <= 57
            || list_bytes(gs)[i] == COMMA) by {
            if i < d.len() {
                assert(list_bytes(gs)[i] == d[i]);
            } else if i == d.len() {
                assert(list_bytes(gs)[i] == COMMA);
            } else {
                assert(list_bytes(gs)[i] == rest[i - d.len() - 1]);
            }
        }
    }
}

/// Append the canonical bytes of `gs[from..]`.
fn push_indices(gs: &Vec<usize>, from: usize, out: &mut Vec<u8>)
    requires
        from <= gs@.len(),
    ensures
        final(out)@ == old(out)@ + list_bytes(gs@.skip(from as int)),
    decreases gs@.len() - from,
{
    if from == gs.len() {
        proof {
            assert(out@ =~= out@ + list_bytes(gs@.skip(from as int)));
        }
        return ;
    }
    push_digits(gs[from], out);
    if from + 1 == gs.len() {
        proof {
            assert(gs@.skip(from as int).len() == 1);
            assert(gs@.skip(from as int)[0] == gs@[from as int]);
            assert(out@ =~= old(out)@ + list_bytes(gs@.skip(from as int)));
        }
    } else {
        out.push(COMMA);
        let ghost mid = out@;
        push_indices(gs, from + 1, out);
        proof {
            let tail = gs@.skip(from as int);
            assert(tail.len() >= 2);
            assert(tail[0] == gs@[from as int]);
            assert(tail.skip(1) =~= gs@.skip(from as int + 1));
            assert(list_bytes(tail) == digits(tail[0] as nat) + seq![COMMA] + list_bytes(
                tail.skip(1),
            ));
            assert(out@ =~= old(out)@ + list_bytes(tail));
        }
    }
}

/// Parse the canonical index list occupying `line[pos..]`: nonempty
/// comma-separated decimal numbers, each below `n`. Returns exactly the
/// encoded values on a canonical suffix.
fn parse_indices(line: &Vec<u8>, pos: usize, n: usize) -> (r: Result<Vec<usize>, MetaLineError>)
    requires
        pos <= line@.len(),
    ensures
        match r {
            Ok(v) => line@.skip(pos as int) == list_bytes(v@) && forall|i: int|
                0 <= i < v@.len() ==> #[trigger] v@[i] < n,
            Err(e) => e == MetaLineError::MalformedMetaLine || e
                == MetaLineError::IndexOutOfRange,
        },
        forall|gs0: Seq<usize>|
            line@.skip(pos as int) == list_bytes(gs0) && (forall|i: int|
                0 <= i < gs0.len() ==> #[trigger] gs0[i] < n) ==> (r is Ok
                && (r matches Ok(v) ==> v@ == gs0)),
    decreases line@.len() - pos,
{
    let ghost suffix = line@.skip(pos as int);
    if pos == line.len() {
        let empty: Vec<usize> = Vec::new();
        proof {
            assert(suffix =~= Seq::<u8>::empty());
            assert(list_bytes(empty@) =~= Seq::<u8>::empty());
            assert forall|gs0: Seq<usize>|
                suffix == list_bytes(gs0) implies gs0 =~= empty@ by {
                if gs0.len() >= 1 {
                    lemma_digits_are_digits(gs0[0] as nat);
                    assert(list_bytes(gs0).len() >= 1);
                }
            }
        }
        return Ok(empty);
    }
    // Scan to the next comma or the end of the line.
    let mut e = pos;
    while e < line.len() && line[e] != COMMA
        invariant
            pos <= e <= line@.len(),
            forall|t: int| pos <= t < e ==> line@[t] != COMMA,
        decreases line@.len() - e,
    {
        e = e + 1;
    }
    proof {
        // On a canonical suffix the scan stops exactly after the first
        // number's digits.
        assert forall|gs0: Seq<usize>|
            suffix == list_bytes(gs0) && gs0.len() >= 1 implies (e - pos == digits(
            gs0[0] as nat,
        ).len() && (e < line@.len() <==> gs0.len() >= 2)) by {
            let d = digits(gs0[0] as nat);
            lemma_digits_are_digits(gs0[0] as nat);
            if gs0.len() == 1 {
                assert(suffix == d);
                assert(e == line@.len()) by {
                    if e < line@.len() {
                        assert(line@[e as int] == COMMA);
                        assert(suffix[e - pos] == d[e - pos]);
                    }
                }
                assert(e - pos == d.len());
            } else {
                assert(list_bytes(gs0) == d + seq![COMMA] + list_bytes(gs0.skip(1)));
                assert(suffix[d.len() as int] == COMMA);
                assert(line@[pos + d.len()] == COMMA);
                assert(e <= pos + d.len());
                if e < pos + d.len() {
                    assert(suffix[e - pos] == d[e - pos]);
                    assert(line@[e as int] == d[e - pos]);
                    assert(48 <= d[e - pos] <= 57);
                    assert(e == line@.len() || line@[e as int] == COMMA);
                    assert(false);
                }
                assert(e - pos == d.len());
                assert(e < line@.len());
            }
        }
    }
    let first = match parse_usize_range(line, pos, e) {
        Ok(v) => v,
        Err(err) => {
            proof {
                assert forall|gs0: Seq<usize>|
                    suffix == list_bytes(gs0) && (forall|i: int|
                        0 <= i < gs0.len() ==> #[trigger] gs0[i] < n) implies false by {
                    if gs0.len() == 0 {
                        assert(suffix.len() == 0);
                    } else {
                        let d = digits(gs0[0] as nat);
                        assert(line@.subrange(pos as int, e as int) =~= d);
                    }
                }
            }
            return Err(err);
        },
    };
    if first >= n {
        proof {
            assert forall|gs0: Seq<usize>|
                suffix == list_bytes(gs0) && (forall|i: int|
                    0 <= i < gs0.len() ==> #[trigger] gs0[i] < n) implies false by {
                if gs0.len() == 0 {
                    assert(suffix.len() == 0);
                } else {
                    let d = digits(gs0[0] as nat);
                    assert(line@.subrange(pos as int, e as int) =~= d);
                    assert(first == gs0[0]);
                }
            }
        }
        return Err(MetaLineError::IndexOutOfRange);
    }
    if e == line.len() {
        let mut v: Vec<usize> = Vec::new();
        v.push(first);
        proof {
            assert(line@.subrange(pos as int, e as int) =~= suffix);
            assert(v@.len() == 1 && v@[0] == first);
            assert(list_bytes(v@) == digits(first as nat));
            assert forall|gs0: Seq<usize>|
                suffix == list_bytes(gs0) && (forall|i: int|
                    0 <= i < gs0.len() ==> #[trigger] gs0[i] < n) implies v@ == gs0 by {
                if gs0.len() == 0 {
                    assert(suffix.len() == 0);
                } else {
                    assert(gs0.len() == 1);
                    let d = digits(gs0[0] as nat);
                    assert(line@.subrange(pos as int, e as int) =~= d);
                    assert(first == gs0[0]);
                    assert(v@ =~= gs0);
                }
            }
        }
        if !digits_canonical(line, pos, e, first) {
            return Err(MetaLineError::MalformedMetaLine);
        }
        proof {
            assert(suffix =~= line@.subrange(pos as int, e as int));
        }
        return Ok(v);
    }
    // line[e] is a comma; the rest must be a nonempty canonical list.
    if !digits_canonical(line, pos, e, first) {
        proof {
            assert forall|gs0: Seq<usize>|
                suffix == list_bytes(gs0) && (forall|i: int|
                    0 <= i < gs0.len() ==> #[trigger] gs0[i] < n) implies false by {
                if gs0.len() == 0 {
                    assert(suffix.len() == 0);
                } else {
                    let d = digits(gs0[0] as nat);
                    assert(line@.subrange(pos as int, e as int) =~= d);
                }
            }
        }
        return Err(MetaLineError::MalformedMetaLine);
    }
    if e + 1 == line.len() {
        // A trailing comma is never canonical.
        proof {
            assert forall|gs0: Seq<usize>|
                suffix == list_bytes(gs0) && (forall|i: int|
                    0 <= i < gs0.len() ==> #[trigger] gs0[i] < n) implies false by {
                if gs0.len() == 0 {
                    assert(suffix.len() == 0);
                } else if gs0.len() == 1 {
                    lemma_digits_are_digits(gs0[0] as nat);
                    assert(suffix[e - pos] == COMMA);
                } else {
                    let tail = gs0.skip(1);
                    let d = digits(gs0[0] as nat);
                    assert(e - pos == d.len());
                    assert(list_bytes(gs0) == d + seq![COMMA] + list_bytes(tail));
                    assert(suffix.len() == line@.len() - pos);
                    assert(suffix.len() == d.len() + 1 + list_bytes(tail).len());
                    assert(list_bytes(tail).len() == 0);
                    assert(tail.len() >= 1);
                    lemma_digits_are_digits(tail[0] as nat);
                    if tail.len() == 1 {
                        assert(list_bytes(tail) == digits(tail[0] as nat));
                    } else {
                        assert(list_bytes(tail) == digits(tail[0] as nat) + seq![COMMA]
                            + list_bytes(tail.skip(1)));
                    }
                }
            }
        }
        return Err(MetaLineError::MalformedMetaLine);
    }
    let rest = match parse_indices(line, e + 1, n) {
        Ok(v2) => v2,
        Err(err) => {
            proof {
                assert forall|gs0: Seq<usize>|
                    suffix == list_bytes(gs0) && (forall|i: int|
                        0 <= i < gs0.len() ==> #[trigger] gs0[i] < n) implies false by {
                    lemma_tail_shifts(line@, pos as int, e as int, gs0);
                }
            }
            return Err(err);
        },
    };
    if rest.len() == 0 {
        proof {
            assert(line@.skip(e as int + 1) == list_bytes(rest@));
            assert(list_bytes(rest@).len() == 0);
            assert(e + 1 == line@.len());
            assert(false);
        }
    }
    let mut v: Vec<usize> = Vec::new();
    v.push(first);
    let mut t: usize = 0;
    while t < rest.len()
        invariant
            t <= rest@.len(),
            v@ == seq![first] + rest@.take(t as int),
        decreases rest@.len() - t,
    {
        v.push(rest[t]);
        proof {
            assert(v@ =~= seq![first] + rest@.take(t as int + 1));
        }
        t = t + 1;
    }
    proof {
        assert(rest@.take(rest@.len() as int) =~= rest@);
        assert(v@ == seq![first] + rest@);
        assert(v@.len() >= 2);
        assert(v@[0] == first);
        assert(v@.skip(1) =~= rest@);
        assert(list_bytes(v@) == digits(first as nat) + seq![COMMA] + list_bytes(rest@));
        assert(line@.subrange(pos as int, e as int) == digits(first as nat));
        assert(line@[e as int] == COMMA);
        assert(line@.skip(e as int + 1) == list_bytes(rest@));
        assert(suffix =~= line@.subrange(pos as int, e as int) + seq![COMMA] + line@.skip(
            e as int + 1,
        ));
        assert forall|gs0: Seq<usize>|
            suffix == list_bytes(gs0) && (forall|i: int|
                0 <= i < gs0.len() ==> #[trigger] gs0[i] < n) implies v@ == gs0 by {
            lemma_tail_shifts(line@, pos as int, e as int, gs0);
            assert(first == gs0[0]);
            assert(rest@ == gs0.skip(1));
            assert(v@ =~= gs0);
        }
    }
    Ok(v)
}

/// On a canonical suffix whose first comma sits at `e`, the bytes after the
/// comma are the canonical list of the remaining indices.
proof fn lemma_tail_shifts(lb: Seq<u8>, pos: int, e: int, gs0: Seq<usize>)
    requires
        0 <= pos <= e < lb.len(),
        lb.skip(pos) == list_bytes(gs0),
        gs0.len() >= 2 || (gs0.len() >= 1 && e - pos == digits(gs0[0] as nat).len()
            ==> gs0.len() >= 2),
        gs0.len() >= 1,
        e - pos == digits(gs0[0] as nat).len(),
    ensures
        gs0.len() >= 2,
        lb.subrange(pos, e) == digits(gs0[0] as nat),
        lb.skip(e + 1) == list_bytes(gs0.skip(1)),
{
    let d = digits(gs0[0] as nat);
    lemma_digits_are_digits(gs0[0] as nat);
    if gs0.len() == 1 {
        assert(lb.skip(pos) == d);
        assert(lb.skip(pos).len() == d.len());
        assert(e < lb.len());
        assert(e - pos < d.len());
        assert(false);
    }
    assert(list_bytes(gs0) == d + seq![COMMA] + list_bytes(gs0.skip(1)));
    assert forall|i: int| 0 <= i < d.len() implies lb.subrange(pos, e)[i] == d[i] by {
        assert(lb.skip(pos)[i] == d[i]);
    }
    assert(lb.subrange(pos, e) =~= d);
    assert forall|i: int|
        0 <= i < lb.len() - e - 1 implies lb.skip(e + 1)[i] == list_bytes(gs0.skip(1))[i] by {
        assert(lb.skip(pos)[e - pos + 1 + i] == list_bytes(gs0)[e - pos + 1 + i]);
    }
    assert(lb.skip(e + 1) =~= list_bytes(gs0.skip(1)));
}

/// The digit run `line[a..b]` is the canonical encoding of `v` (no leading
/// zeros).
fn digits_canonical(line: &Vec<u8>, a: usize, b: usize, v: usize) -> (r: bool)
    requires
        a <= b <= line@.len(),
    ensures
        r == (line@.subrange(a as int, b as int) == digits(v as nat)),
{
    let mut enc: Vec<u8> = Vec::new();
    push_digits(v, &mut enc);
    proof {
        assert(enc@ == digits(v as nat));
    }
    if enc.len() != b - a {
        proof {
            assert(line@.subrange(a as int, b as int).len() == b - a);
        }
        return false;
    }
    let mut i: usize = 0;
    while i < enc.len()
        invariant
            i <= enc@.len(),
            enc@ == digits(v as nat),
            a <= b <= line@.len(),
            enc@.len() == b - a,
            forall|t: int| 0 <= t < i ==> enc@[t] == line@[a + t],
        decreases enc@.len() - i,
    {
        if enc[i] != line[a + i] {
            proof {
                assert(line@.subrange(a as int, b as int)[i as int] == line@[a + i]);
            }
            return false;
        }
        i = i + 1;
    }
    proof {
        assert(line@.subrange(a as int, b as int) =~= enc@);
    }
    true
}

/// The canonical meta line of one combination: subset size, iteration
/// index and the ascending genome indices, tab-separated, the indices
/// comma-separated.
pub open spec fn line_of(size: nat, iter: nat, gs: Seq<usize>) -> Seq<u8> {
    digits(size) + seq![TAB] + digits(iter) + seq![TAB] + list_bytes(gs)
}

/// Where the two tabs of a canonical line sit, and what the three fields
/// between them are.
proof fn lemma_line_structure(lb: Seq<u8>, s0: nat, it0: nat, gs0: Seq<usize>, t1: int, t2: int)
    requires
        lb == line_of(s0, it0, gs0),
        0 <= t1 < lb.len(),
        lb[t1] == TAB,
        forall|m: int| 0 <= m < t1 ==> lb[m] != TAB,
        t1 < t2 < lb.len(),
        lb[t2] == TAB,
        forall|m: int| t1 < m < t2 ==> lb[m] != TAB,
    ensures
        t1 == digits(s0).len(),
        t2 == digits(s0).len() + 1 + digits(it0).len(),
        lb.subrange(0, t1) == digits(s0),
        lb.subrange(t1 + 1, t2) == digits(it0),
        lb.skip(t2 + 1) == list_bytes(gs0),
{
    let d1 = digits(s0);
    let d2 = digits(it0);
    let lbb = list_bytes(gs0);
    lemma_digits_are_digits(s0);
    lemma_digits_are_digits(it0);
    lemma_list_bytes_chars(gs0);
    assert(lb.len() == d1.len() + 1 + d2.len() + 1 + lbb.len());
    assert(lb[d1.len() as int] == TAB);
    assert forall|m: int| 0 <= m < d1.len() implies lb[m] == d1[m] by {}
    if t1 < d1.len() {
        assert(lb[t1] == d1[t1]);
        assert(48 <= d1[t1] <= 57);
        assert(false);
    }
    if t1 > d1.len() {
        assert(false);
    }
    assert(t1 == d1.len());
    let p2 = d1.len() + 1 + d2.len();
    assert(lb[p2 as int] == TAB);
    assert forall|m: int| t1 < m < p2 implies lb[m] == d2[m - t1 - 1] by {}
    if t2 < p2 {
        assert(lb[t2] == d2[t2 - t1 - 1]);
        assert(48 <= d2[t2 - t1 - 1] <= 57);
        assert(false);
    }
    if t2 > p2 {
        assert(false);
    }
    assert(t2 == p2);
    assert(lb.subrange(0, t1) =~= d1);
    assert(lb.subrange(t1 + 1, t2) =~= d2);
    assert forall|i: int| 0 <= i < lbb.len() implies lb.skip(t2 + 1)[i] == lbb[i] by {
        assert(lb[t2 + 1 + i] == lbb[i]);
    }
    assert(lb.skip(t2 + 1) =~= lbb);
}

/// Serialize one combination to its canonical meta line.
pub fn encode_combination(c: &Combination) -> (r: Vec<u8>)
    ensures
        r@ == line_of(c.size as nat, c.iteration as nat, c.genomes@),
{
    let mut out: Vec<u8> = Vec::new();
    push_digits(c.size, &mut out);
    out.push(TAB);
    push_digits(c.iteration, &mut out);
    out.push(TAB);
    push_indices(&c.genomes, 0, &mut out);
    proof {
        assert(c.genomes@.skip(0) =~= c.genomes@);
        assert(out@ =~= line_of(c.size as nat, c.iteration as nat, c.genomes@));
    }
    out
}

/// Parse one meta line. Accepts exactly the canonical lines of well-formed
/// combinations of a run with `n` genomes: on the canonical line of any
/// such combination the same combination comes back; any other line is
/// rejected, an out-of-range genome index with `IndexOutOfRange`.
#[verifier::rlimit(60)]
#[verifier::loop_isolation(false)]
pub fn parse_combination(line: &Vec<u8>, n: usize) -> (r: Result<Combination, MetaLineError>)
    ensures
        match r {
            Ok(c) => c.wf(n as nat) && line@ == line_of(
                c.size as nat,
                c.iteration as nat,
                c.genomes@,
            ),
            Err(_) => true,
        },
        forall|c0: Combination|
            c0.wf(n as nat) && line@ == #[trigger] line_of(
                c0.size as nat,
                c0.iteration as nat,
                c0.genomes@,
            ) ==> (r is Ok && (r matches Ok(c) ==> c.size == c0.size && c.iteration
                == c0.iteration && c.genomes@ == c0.genomes@)),
{
    let ghost lb = line@;
    // First tab.
    let mut t1: usize = 0;
    while t1 < line.len() && line[t1] != TAB
        invariant
            t1 <= lb.len(),
            forall|m: int| 0 <= m < t1 ==> lb[m] != TAB,
        decreases lb.len() - t1,
    {
        t1 = t1 + 1;
    }
    if t1 == line.len() {
        proof {
            assert forall|c0: Combination|
                c0.wf(n as nat) && lb == #[trigger] line_of(
                    c0.size as nat,
                    c0.iteration as nat,
                    c0.genomes@,
                ) implies false by {
                lemma_digits_are_digits(c0.size as nat);
                let d1 = digits(c0.size as nat);
                assert(lb[d1.len() as int] == TAB);
            }
        }
        return Err(MetaLineError::MalformedMetaLine);
    }
    // Second tab.
    let mut t2: usize = t1 + 1;
    while t2 < line.len() && line[t2] != TAB
        invariant
            t1 < t2 <= lb.len(),
            forall|m: int| t1 < m < t2 ==> lb[m] != TAB,
        decreases lb.len() - t2,
    {
        t2 = t2 + 1;
    }
    if t2 == line.len() {
        proof {
            assert forall|c0: Combination|
                c0.wf(n as nat) && lb == #[trigger] line_of(
                    c0.size as nat,
                    c0.iteration as nat,
                    c0.genomes@,
                ) implies false by {
                lemma_digits_are_digits(c0.size as nat);
                lemma_digits_are_digits(c0.iteration as nat);
                let d1 = digits(c0.size as nat);
                let d2 = digits(c0.iteration as nat);
                assert(lb[d1.len() as int] == TAB);
                if t1 < d1.len() {
                    assert(lb[t1 as int] == d1[t1 as int]);
                    assert(false);
                }
                assert(t1 == d1.len());
                assert(lb.len() == d1.len() + 1 + d2.len() + 1 + list_bytes(
                    c0.genomes@,
                ).len());
                assert(lb[d1.len() as int + 1 + d2.len() as int] == TAB);
                assert(t1 < d1.len() + 1 + d2.len() < t2);
            }
        }
        return Err(MetaLineError::MalformedMetaLine);
    }
    proof {
        // On a canonical line the scans find exactly the two field tabs.
        assert forall|c0: Combination|
            c0.wf(n as nat) && lb == #[trigger] line_of(
                c0.size as nat,
                c0.iteration as nat,
                c0.genomes@,
            ) implies (t1 == digits(c0.size as nat).len() && t2 == digits(c0.size as nat).len()
            + 1 + digits(c0.iteration as nat).len() && lb.subrange(0, t1 as int) == digits(
            c0.size as nat,
        ) && lb.subrange(t1 as int + 1, t2 as int) == digits(c0.iteration as nat) && lb.skip(
            t2 as int + 1,
        ) == list_bytes(c0.genomes@)) by {
            lemma_line_structure(
                lb,
                c0.size as nat,
                c0.iteration as nat,
                c0.genomes@,
                t1 as int,
                t2 as int,
            );
        }
    }
    let size = match parse_usize_range(line, 0, t1) {
        Ok(v) => v,
        Err(e) => {
            return Err(e);
        },
    };
    if !digits_canonical(line, 0, t1, size) {
        return Err(MetaLineError::MalformedMetaLine);
    }
    let iter = match parse_usize_range(line, t1 + 1, t2) {
        Ok(v) => v,
        Err(e) => {
            return Err(e);
        },
    };
    if !digits_canonical(line, t1 + 1, t2, iter) {
        return Err(MetaLineError::MalformedMetaLine);
    }
    let gs = match parse_indices(line, t2 + 1, n) {
        Ok(v) => v,
        Err(e) => {
            return Err(e);
        },
    };
    // The indices must be strictly ascending and match the size field.
    let mut ok = gs.len() == size;
    let mut i: usize = 1;
    while i < gs.len()
        invariant
            1 <= i,
            i <= gs@.len() || i == 1,
            ok == (gs@.len() == size && forall|a: int, b: int|
                0 <= a < b < i ==> gs@[a] < gs@[b]),
        decreases gs@.len() - i,
    {
        if gs[i - 1] >= gs[i] {
            ok = false;
        }
        proof {
            if ok {
                assert forall|a: int, b: int| 0 <= a < b < i + 1 implies gs@[a] < gs@[b] by {
                    if b < i {
                    } else {
                        if a < i - 1 {
                            assert(gs@[a] < gs@[i - 1]);
                        }
                    }
                }
            }
        }
        i = i + 1;
    }
    if !ok {
        proof {
            assert forall|c0: Combination|
                c0.wf(n as nat) && lb == #[trigger] line_of(
                    c0.size as nat,
                    c0.iteration as nat,
                    c0.genomes@,
                ) implies false by {
                assert(lb.subrange(0, t1 as int) == digits(c0.size as nat));
                assert(lb.subrange(t1 as int + 1, t2 as int) == digits(c0.iteration as nat));
                assert(lb.skip(t2 as int + 1) == list_bytes(c0.genomes@));
                assert(size == c0.size);
                assert(iter == c0.iteration);
                assert(forall|i: int|
                    0 <= i < c0.genomes@.len() ==> #[trigger] c0.genomes@[i] < n);
                assert(gs@ == c0.genomes@);
                assert(gs@.len() == c0.size);
                assert forall|a: int, b: int| 0 <= a < b < i implies gs@[a] < gs@[b] by {
                    assert(b >= 1);
                    assert(gs@.len() != 0);
                    assert(i <= gs@.len());
                    assert(b < c0.genomes@.len());
                    assert(valid_subset(c0.genomes@, n as nat, c0.size as nat));
                    assert(c0.genomes@[a] < c0.genomes@[b]);
                    assert(gs@[a] == c0.genomes@[a]);
                    assert(gs@[b] == c0.genomes@[b]);
                }
                assert(ok);
            }
        }
        return Err(MetaLineError::MalformedMetaLine);
    }
    let c = Combination { size, iteration: iter, genomes: gs };
    proof {
        assert(lb =~= lb.subrange(0, t1 as int) + seq![TAB] + lb.subrange(
            t1 as int + 1,
            t2 as int,
        ) + seq![TAB] + lb.skip(t2 as int + 1));
        assert(lb.subrange(0, t1 as int) == digits(size as nat));
        assert(lb.subrange(t1 as int + 1, t2 as int) == digits(iter as nat));
        assert(lb.skip(t2 as int + 1) == list_bytes(c.genomes@));
        assert(lb == line_of(c.size as nat, c.iteration as nat, c.genomes@));
    }
    Ok(c)
}

/// Serialize a combination list: one canonical line per combination, in
/// order.
pub fn encode_meta(combos: &Vec<Combination>) -> (r: Vec<Vec<u8>>)
    ensures
        r@.len() == combos@.len(),
        forall|i: int|
            0 <= i < combos@.len() ==> (#[trigger] r@[i])@ == line_of(
                combos@[i].size as nat,
                combos@[i].iteration as nat,
                combos@[i].genomes@,
            ),
{
    let mut r: Vec<Vec<u8>> = Vec::new();
    let mut i: usize = 0;
    while i < combos.len()
        invariant
            i <= combos@.len(),
            r@.len() == i,
            forall|t: int|
                0 <= t < i ==> (#[trigger] r@[t])@ == line_of(
                    combos@[t].size as nat,
                    combos@[t].iteration as nat,
                    combos@[t].genomes@,
                ),
        decreases combos@.len() - i,
    {
        let line = encode_combination(&combos[i]);
        r.push(line);
        i = i + 1;
    }
    r
}

/// The lines are exactly the canonical encoding of the combination list
/// `cs0` for a run with `n` genomes.
pub open spec fn canonical_preimage(lines: Seq<Vec<u8>>, cs0: Seq<Combination>, n: nat) -> bool {
    &&& cs0.len() == lines.len()
    &&& forall|i: int|
        0 <= i < cs0.len() ==> (#[trigger] cs0[i]).wf(n) && lines[i]@ == line_of(
            cs0[i].size as nat,
            cs0[i].iteration as nat,
            cs0[i].genomes@,
        )
}

/// Parse a whole meta file, given as its lines. The first offending line
/// is reported with its number; a list written by `encode_meta` parses
/// back to combinations with exactly the original triples.
pub fn parse_meta(lines: &Vec<Vec<u8>>, n: usize) -> (r: Result<
    Vec<Combination>,
    (usize, MetaLineError),
>)
    ensures
        match r {
            Ok(cs) => cs@.len() == lines@.len() && forall|i: int|
                0 <= i < cs@.len() ==> (#[trigger] cs@[i]).wf(n as nat) && lines@[i]@
                    == line_of(cs@[i].size as nat, cs@[i].iteration as nat, cs@[i].genomes@),
            Err(p) => p.0 < lines@.len(),
        },
        forall|cs0: Seq<Combination>|
            #[trigger] canonical_preimage(lines@, cs0, n as nat) ==> (r is Ok && (r matches Ok(
                cs,
            ) ==> crate::triples_of(cs@) == crate::triples_of(cs0))),
{
    let mut cs: Vec<Combination> = Vec::new();
    let mut i: usize = 0;
    while i < lines.len()
        invariant
            i <= lines@.len(),
            cs@.len() == i,
            forall|t: int|
                0 <= t < i ==> (#[trigger] cs@[t]).wf(n as nat) && lines@[t]@ == line_of(
                    cs@[t].size as nat,
                    cs@[t].iteration as nat,
                    cs@[t].genomes@,
                ),
            forall|t: int, c0: Combination|
                0 <= t < i && c0.wf(n as nat) && lines@[t]@ == #[trigger] line_of(
                    c0.size as nat,
                    c0.iteration as nat,
                    c0.genomes@,
                ) ==> (#[trigger] cs@[t]).size == c0.size && cs@[t].iteration == c0.iteration
                    && cs@[t].genomes@ == c0.genomes@,
        decreases lines@.len() - i,
    {
        match parse_combination(&lines[i], n) {
            Ok(c) => {
                cs.push(c);
            },
            Err(e) => {
                proof {
                    assert forall|cs0: Seq<Combination>|
                        #[trigger] canonical_preimage(lines@, cs0, n as nat) implies false by {
                        assert(cs0[i as int].wf(n as nat));
                        assert(lines@[i as int]@ == line_of(
                            cs0[i as int].size as nat,
                            cs0[i as int].iteration as nat,
                            cs0[i as int].genomes@,
                        ));
                    }
                }
                return Err((i, e));
            },
        }
        i = i + 1;
    }
    proof {
        assert forall|cs0: Seq<Combination>|
            #[trigger] canonical_preimage(lines@, cs0, n as nat) implies crate::triples_of(cs@)
            =~= crate::triples_of(cs0) by {
            assert forall|t: int|
                0 <= t < cs@.len() implies crate::triples_of(cs@)[t] == crate::triples_of(
                cs0,
            )[t] by {
                assert(cs0[t].wf(n as nat));
                assert(lines@[t]@ == line_of(
                    cs0[t].size as nat,
                    cs0[t].iteration as nat,
                    cs0[t].genomes@,
                ));
                assert(cs@[t].size == cs0[t].size && cs@[t].iteration == cs0[t].iteration
                    && cs@[t].genomes@ == cs0[t].genomes@);
            }
        }
    }
    Ok(cs)
}

} // verus!
