//! Character-level kernels of the String methods and of `format`: sign and
//! exponent decoration, padding, character sets, line splitting and literal
//! substitution. Text is handled as sequences of `char` (or of bytes where
//! the method works on bytes).

use vstd::prelude::*;

verus! {

/// Copies `s` into a fresh vector.
fn chars_vec(s: &[char]) -> (r: Vec<char>)
    ensures
        r@ == s@,
{
    vstd::slice::slice_to_vec(s)
}

/// Appends all of `s` to `out`.
pub(crate) fn push_all(out: &mut Vec<char>, s: &[char])
    ensures
        final(out)@ == old(out)@ + s@,
{
    let mut i: usize = 0;
    while i < s.len()
        invariant
            i <= s.len(),
            out@ == old(out)@ + s@.take(i as int),
        decreases s.len() - i,
    {
        out.push(s[i]);
        i += 1;
        assert(s@.take(i as int) =~= s@.take(i - 1) .push(s@[i - 1]));
    }
    assert(s@.take(s.len() as int) =~= s@);
}

/// Copies `s[from..to]` into a fresh vector.
fn copy_range(s: &[char], from: usize, to: usize) -> (r: Vec<char>)
    requires
        from <= to <= s.len(),
    ensures
        r@ == s@.subrange(from as int, to as int),
{
    let mut r: Vec<char> = Vec::new();
    let mut i = from;
    while i < to
        invariant
            from <= i <= to <= s.len(),
            r@ == s@.subrange(from as int, i as int),
        decreases to - i,
    {
        r.push(s[i]);
        i += 1;
        assert(s@.subrange(from as int, i as int) =~= s@.subrange(from as int, i - 1).push(s@[i - 1]));
    }
    r
}

/// An instance-variable name: `raw` itself when it already starts with `@`,
/// otherwise `raw` behind an `@`.
pub open spec fn spec_ivar_name(raw: Seq<char>) -> Seq<char> {
    if raw.len() > 0 && raw[0] == '@' {
        raw
    } else {
        seq!['@'] + raw
    }
}

/// The instance-variable name for `raw` (`"x"` and `"@x"` both give `"@x"`).
pub fn ivar_name(raw: &[char]) -> (r: Vec<char>)
    ensures
        r@ == spec_ivar_name(raw@),
{
    if raw.len() > 0 && raw[0] == '@' {
        chars_vec(raw)
    } else {
        let mut r: Vec<char> = Vec::new();
        r.push('@');
        push_all(&mut r, raw);
        assert(r@ =~= seq!['@'] + raw@);
        r
    }
}

pub open spec fn is_sign_char(c: char) -> bool {
    c == '-' || c == '+' || c == ' '
}

/// Splits a leading sign character (`-`, `+` or a space) off `s`.
pub open spec fn spec_split_sign(s: Seq<char>) -> (Seq<char>, Seq<char>) {
    if s.len() > 0 && is_sign_char(s[0]) {
        (s.take(1), s.skip(1))
    } else {
        (Seq::empty(), s)
    }
}

/// The sign character of `s`, if it starts with one, and the rest.
pub fn split_sign(s: &[char]) -> (r: (Vec<char>, Vec<char>))
    ensures
        (r.0@, r.1@) == spec_split_sign(s@),
{
    if s.len() > 0 && (s[0] == '-' || s[0] == '+' || s[0] == ' ') {
        (copy_range(s, 0, 1), copy_range(s, 1, s.len()))
    } else {
        assert(s@.subrange(0, s@.len() as int) =~= s@);
        (Vec::new(), chars_vec(s))
    }
}

/// `s` with a `+` (when `plus`) or a space (when `space`) put in front,
/// unless it is negative.
pub open spec fn spec_decorate_sign(s: Seq<char>, plus: bool, space: bool) -> Seq<char> {
    if s.len() > 0 && s[0] == '-' {
        s
    } else if plus {
        seq!['+'] + s
    } else if space {
        seq![' '] + s
    } else {
        s
    }
}

/// Adds the sign that the `+` and space flags ask for to a rendered number.
pub fn decorate_sign(s: &[char], plus: bool, space: bool) -> (r: Vec<char>)
    ensures
        r@ == spec_decorate_sign(s@, plus, space),
{
    if s.len() > 0 && s[0] == '-' {
        return chars_vec(s);
    }
    if plus || space {
        let mut r: Vec<char> = Vec::new();
        r.push(if plus {
            '+'
        } else {
            ' '
        });
        push_all(&mut r, s);
        r
    } else {
        chars_vec(s)
    }
}

/// Index of the first `c` in `s`, if any.
pub open spec fn first_index(s: Seq<char>, c: char) -> Option<int>
    decreases s.len(),
{
    if s.len() == 0 {
        None
    } else if s.last() == c && first_index(s.drop_last(), c) is None {
        Some(s.len() - 1)
    } else {
        first_index(s.drop_last(), c)
    }
}

proof fn lemma_first_index(s: Seq<char>, c: char)
    ensures
        match first_index(s, c) {
            Some(i) => 0 <= i < s.len() && s[i] == c && forall|j: int| 0 <= j < i ==> s[j] != c,
            None => forall|j: int| 0 <= j < s.len() ==> s[j] != c,
        },
    decreases s.len(),
{
    if s.len() > 0 {
        lemma_first_index(s.drop_last(), c);
        assert(forall|j: int| 0 <= j < s.len() - 1 ==> s.drop_last()[j] == s[j]);
    }
}

fn find_char(s: &[char], c: char) -> (r: Option<usize>)
    ensures
        match r {
            Some(i) => first_index(s@, c) == Some(i as int),
            None => first_index(s@, c) is None,
        },
{
    let mut i: usize = 0;
    while i < s.len()
        invariant
            i <= s.len(),
            forall|j: int| 0 <= j < i ==> s@[j] != c,
        decreases s.len() - i,
    {
        if s[i] == c {
            proof {
                lemma_first_index(s@, c);
                let f = first_index(s@, c);
                if f is None || f.unwrap() != i {
                    lemma_first_index(s@, c);
                }
            }
            return Some(i);
        }
        i += 1;
    }
    proof {
        lemma_first_index(s@, c);
    }
    None
}

/// `digits` padded on the left with zeros to at least two characters.
pub open spec fn pad2(digits: Seq<char>) -> Seq<char> {
    if digits.len() >= 2 {
        digits
    } else {
        Seq::new((2 - digits.len()) as nat, |_j: int| '0') + digits
    }
}

/// Rewrites an exponent in the Rust style (`1.5e2`, `1.5e-7`) to the Ruby
/// style (`1.5e+02`, `1.5e-07`): an explicit sign and at least two digits.
pub open spec fn spec_expand_exponent(s: Seq<char>) -> Seq<char> {
    match first_index(s, 'e') {
        Some(i) => {
            let mantissa = s.take(i);
            let exp = s.skip(i + 1);
            let (sign, digits) = if exp.len() > 0 && exp[0] == '-' {
                ('-', exp.skip(1))
            } else {
                ('+', exp)
            };
            mantissa + seq!['e', sign] + pad2(digits)
        },
        None => s,
    }
}

/// Ruby-style exponent for a number rendered in exponent notation.
pub fn expand_exponent(s: &[char]) -> (r: Vec<char>)
    ensures
        r@ == spec_expand_exponent(s@),
{
    match find_char(s, 'e') {
        Some(i) => {
            proof {
                lemma_first_index(s@, 'e');
                assert(first_index(s@, 'e') == Some(i as int));
                assert(i < s.len());
            }
            let mut r = copy_range(s, 0, i);
            r.push('e');
            let neg = i + 1 < s.len() && s[i + 1] == '-';
            let start = if neg {
                i + 2
            } else {
                i + 1
            };
            r.push(if neg {
                '-'
            } else {
                '+'
            });
            let digits = copy_range(s, start, s.len());
            let ghost exp = s@.skip(i + 1);
            proof {
                if neg {
                    assert(digits@ =~= exp.skip(1));
                } else {
                    assert(digits@ =~= exp);
                }
            }
            if digits.len() < 2 {
                let mut k: usize = digits.len();
                while k < 2
                    invariant
                        digits.len() <= k <= 2,
                        r@ == s@.take(i as int) + seq!['e', if neg { '-' } else { '+' }] + Seq::new(
                            (k - digits.len()) as nat,
                            |_j: int| '0',
                        ),
                    decreases 2 - k,
                {
                    r.push('0');
                    k += 1;
                    assert(Seq::new((k - digits.len()) as nat, |_j: int| '0') =~= Seq::new(
                        (k - 1 - digits.len()) as nat,
                        |_j: int| '0',
                    ).push('0'));
                }
            }
            push_all(&mut r, digits.as_slice());
            assert(r@ =~= spec_expand_exponent(s@));
            r
        },
        None => chars_vec(s),
    }
}

/// The first `n` characters of `pad` repeated without end.
pub open spec fn cycle(pad: Seq<char>, n: nat) -> Seq<char> {
    Seq::new(n, |j: int| pad[j % pad.len() as int])
}

/// `body` padded to `width` characters with `pad` repeated: on the right
/// (`left`), on the left (`right`), or split with the smaller half first.
pub open spec fn spec_pad_to(
    body: Seq<char>,
    width: nat,
    left: bool,
    right: bool,
    pad: Seq<char>,
) -> Seq<char> {
    if body.len() >= width || pad.len() == 0 {
        body
    } else {
        let total = (width - body.len()) as nat;
        if left {
            body + cycle(pad, total)
        } else if right {
            cycle(pad, total) + body
        } else {
            cycle(pad, total / 2) + body + cycle(pad, (total - total / 2) as nat)
        }
    }
}

fn push_cycle(out: &mut Vec<char>, pad: &[char], n: usize)
    requires
        pad.len() > 0,
    ensures
        final(out)@ == old(out)@ + cycle(pad@, n as nat),
{
    let mut i: usize = 0;
    let mut j: usize = 0;
    while i < n
        invariant
            pad.len() > 0,
            i <= n,
            j < pad.len(),
            j as int == i as int % pad.len() as int,
            out@ == old(out)@ + cycle(pad@, i as nat),
        decreases n - i,
    {
        out.push(pad[j]);
        proof {
            assert(cycle(pad@, (i + 1) as nat) =~= cycle(pad@, i as nat).push(pad@[j as int]));
            vstd::arithmetic::div_mod::lemma_mod_add_multiples_vanish(i as int, pad.len() as int);
            if j + 1 < pad.len() {
                vstd::arithmetic::div_mod::lemma_add_mod_noop(i as int, 1, pad.len() as int);
                vstd::arithmetic::div_mod::lemma_small_mod(1, pad.len() as nat);
                vstd::arithmetic::div_mod::lemma_small_mod((j + 1) as nat, pad.len() as nat);
            } else {
                vstd::arithmetic::div_mod::lemma_add_mod_noop(i as int, 1, pad.len() as int);
                vstd::arithmetic::div_mod::lemma_mod_self_0(pad.len() as int);
                if pad.len() > 1 {
                    vstd::arithmetic::div_mod::lemma_small_mod(1, pad.len() as nat);
                }
            }
        }
        i += 1;
        j = if j + 1 < pad.len() {
            j + 1
        } else {
            0
        };
    }
}

/// Pads `body` to `width` characters with the characters of `pad`, for
/// ljust (`left`), rjust (`right`) and center (neither).
pub fn pad_to(body: &[char], width: usize, left: bool, right: bool, pad: &[char]) -> (r: Vec<char>)
    ensures
        r@ == spec_pad_to(body@, width as nat, left, right, pad@),
{
    let len = body.len();
    if len >= width || pad.len() == 0 {
        return chars_vec(body);
    }
    let total = width - len;
    let mut out: Vec<char> = Vec::new();
    if !left {
        let n = if right {
            total
        } else {
            total / 2
        };
        push_cycle(&mut out, pad, n);
    }
    push_all(&mut out, body);
    if left || !right {
        let n = if left {
            total
        } else {
            total - total / 2
        };
        push_cycle(&mut out, pad, n);
    }
    assert(out@ =~= spec_pad_to(body@, width as nat, left, right, pad@));
    out
}

/// The bytes `lo..=hi` in order.
pub open spec fn byte_range(lo: u8, hi: u8) -> Seq<u8> {
    Seq::new((hi - lo + 1) as nat, |j: int| (lo + j) as u8)
}

/// A character-set spec with `a-z` style ranges (either way round) expanded
/// into the bytes it names, in order of appearance.
pub open spec fn spec_expand_set(b: Seq<u8>) -> Seq<u8>
    decreases b.len(),
{
    if b.len() == 0 {
        Seq::empty()
    } else if b.len() > 2 && b[1] == 45u8 {
        let lo = if b[0] <= b[2] {
            b[0]
        } else {
            b[2]
        };
        let hi = if b[0] <= b[2] {
            b[2]
        } else {
            b[0]
        };
        byte_range(lo, hi) + spec_expand_set(b.skip(3))
    } else {
        seq![b[0]] + spec_expand_set(b.skip(1))
    }
}

/// Expands a character-set spec such as `a-cx` into `abcx`.
pub fn expand_set(spec: &[u8]) -> (r: Vec<u8>)
    ensures
        r@ == spec_expand_set(spec@),
{
    let b = spec;
    let mut out: Vec<u8> = Vec::new();
    let mut i: usize = 0;
    proof {
        assert(b@.skip(0) =~= b@);
        assert(out@ + b@ =~= b@);
    }
    while i < b.len()
        invariant
            i <= b.len(),
            out@ + spec_expand_set(b@.skip(i as int)) == spec_expand_set(b@),
        decreases b.len() - i,
    {
        let ghost rest = b@.skip(i as int);
        if b.len() - i > 2 && b[i + 1] == 45u8 {
            let (lo, hi) = if b[i] <= b[i + 2] {
                (b[i], b[i + 2])
            } else {
                (b[i + 2], b[i])
            };
            let ghost base = out@;
            let mut c = lo;
            while c < hi
                invariant
                    lo <= c <= hi,
                    out@ == base + Seq::new((c - lo) as nat, |j: int| (lo + j) as u8),
                decreases hi - c,
            {
                out.push(c);
                c += 1;
                assert(Seq::new((c - lo) as nat, |j: int| (lo + j) as u8) =~= Seq::new(
                    (c - 1 - lo) as nat,
                    |j: int| (lo + j) as u8,
                ).push((c - 1) as u8));
            }
            out.push(hi);
            proof {
                assert(Seq::new((c - lo) as nat, |j: int| (lo + j) as u8).push(hi) =~= byte_range(
                    lo,
                    hi,
                ));
                assert(rest.skip(3) =~= b@.skip(i + 3));
                assert(out@ =~= base + byte_range(lo, hi));
            }
            i += 3;
        } else {
            out.push(b[i]);
            proof {
                assert(rest.skip(1) =~= b@.skip(i + 1));
            }
            i += 1;
        }
    }
    proof {
        assert(b@.skip(b.len() as int) =~= Seq::<u8>::empty());
        assert(out@ + Seq::<u8>::empty() =~= out@);
    }
    out
}

/// Whether `c` occurs in `set`.
fn byte_in(set: &[u8], c: u8) -> (r: bool)
    ensures
        r == set@.contains(c),
{
    let mut i: usize = 0;
    while i < set.len()
        invariant
            i <= set.len(),
            forall|j: int| 0 <= j < i ==> set@[j] != c,
        decreases set.len() - i,
    {
        if set[i] == c {
            assert(set@[i as int] == c);
            return true;
        }
        i += 1;
    }
    false
}

/// Position of the first `c` in `set`, if any.
fn byte_position(set: &[u8], c: u8) -> (r: Option<usize>)
    ensures
        match r {
            Some(i) => i < set.len() && set@[i as int] == c && forall|j: int| 0 <= j < i ==> set@[j] != c,
            None => !set@.contains(c),
        },
{
    let mut i: usize = 0;
    while i < set.len()
        invariant
            i <= set.len(),
            forall|j: int| 0 <= j < i ==> set@[j] != c,
        decreases set.len() - i,
    {
        if set[i] == c {
            return Some(i);
        }
        i += 1;
    }
    None
}

/// Index of the first `c` in `set`.
pub open spec fn first_pos(set: Seq<u8>, c: u8) -> int
    recommends
        set.contains(c),
{
    choose|i: int| 0 <= i < set.len() && set[i] == c && forall|j: int| 0 <= j < i ==> set[j] != c
}

/// `src` with each byte of `from` replaced by the byte at the same place in
/// `to` (the last one of `to` when `to` is shorter); with an empty `to`, the
/// bytes of `from` are dropped instead.
pub open spec fn spec_tr(src: Seq<u8>, from: Seq<u8>, to: Seq<u8>) -> Seq<u8> {
    if to.len() == 0 {
        src.filter(|c: u8| !from.contains(c))
    } else {
        src.map_values(
            |c: u8|
                if from.contains(c) {
                    let i = first_pos(from, c);
                    to[if i < to.len() {
                        i
                    } else {
                        to.len() - 1
                    }]
                } else {
                    c
                },
        )
    }
}

proof fn lemma_filter_push(s: Seq<u8>, c: u8, keep: spec_fn(u8) -> bool)
    ensures
        s.push(c).filter(keep) == if keep(c) {
            s.filter(keep).push(c)
        } else {
            s.filter(keep)
        },
{
    reveal(Seq::filter);
    assert(s.push(c).drop_last() =~= s);
}

/// Transliterates `src` from the set spec `from` to the set spec `to`
/// (String#tr).
pub fn tr(src: &[u8], from_spec: &[u8], to_spec: &[u8]) -> (r: Vec<u8>)
    ensures
        r@ == spec_tr(src@, spec_expand_set(from_spec@), spec_expand_set(to_spec@)),
{
    let from = expand_set(from_spec);
    let to = expand_set(to_spec);
    let mut out: Vec<u8> = Vec::new();
    let mut i: usize = 0;
    if to.len() == 0 {
        while i < src.len()
            invariant
                i <= src.len(),
                to@.len() == 0,
                out@ == src@.take(i as int).filter(|c: u8| !from@.contains(c)),
            decreases src.len() - i,
        {
            let c = src[i];
            proof {
                assert(src@.take(i + 1) =~= src@.take(i as int).push(c));
                lemma_filter_push(src@.take(i as int), c, |c: u8| !from@.contains(c));
            }
            if !byte_in(from.as_slice(), c) {
                out.push(c);
            }
            i += 1;
        }
    } else {
        while i < src.len()
            invariant
                i <= src.len(),
                to@.len() > 0,
                out@ == src@.take(i as int).map_values(
                    |c: u8|
                        if from@.contains(c) {
                            let i = first_pos(from@, c);
                            to@[if i < to@.len() {
                                i
                            } else {
                                to@.len() - 1
                            }]
                        } else {
                            c
                        },
                ),
            decreases src.len() - i,
        {
            let c = src[i];
            let d = match byte_position(from.as_slice(), c) {
                Some(p) => {
                    proof {
                        let q = first_pos(from@, c);
                        assert(0 <= q < from@.len() && from@[q] == c);
                        if q < p {
                        } else if q > p {
                            assert(from@[p as int] == c);
                        }
                        assert(q == p);
                    }
                    if p < to.len() {
                        to[p]
                    } else {
                        to[to.len() - 1]
                    }
                },
                None => c,
            };
            out.push(d);
            proof {
                assert(src@.take(i + 1) =~= src@.take(i as int).push(c));
            }
            i += 1;
            assert(out@ =~= src@.take(i as int).map_values(
                |c: u8|
                    if from@.contains(c) {
                        let i = first_pos(from@, c);
                        to@[if i < to@.len() {
                            i
                        } else {
                            to@.len() - 1
                        }]
                    } else {
                        c
                    },
            ));
        }
    }
    proof {
        assert(src@.take(src.len() as int) =~= src@);
    }
    out
}

/// `src` without the bytes of the set spec (String#delete).
pub fn delete_set(src: &[u8], set_spec: &[u8]) -> (r: Vec<u8>)
    ensures
        r@ == src@.filter(|c: u8| !spec_expand_set(set_spec@).contains(c)),
{
    let set = expand_set(set_spec);
    let mut out: Vec<u8> = Vec::new();
    let mut i: usize = 0;
    while i < src.len()
        invariant
            i <= src.len(),
            out@ == src@.take(i as int).filter(|c: u8| !set@.contains(c)),
        decreases src.len() - i,
    {
        let c = src[i];
        proof {
            assert(src@.take(i + 1) =~= src@.take(i as int).push(c));
            lemma_filter_push(src@.take(i as int), c, |c: u8| !set@.contains(c));
        }
        if !byte_in(set.as_slice(), c) {
            out.push(c);
        }
        i += 1;
    }
    proof {
        assert(src@.take(src.len() as int) =~= src@);
    }
    out
}

/// How many bytes of `src` belong to the set spec (String#count).
pub fn count_set(src: &[u8], set_spec: &[u8]) -> (r: usize)
    ensures
        r == src@.filter(|c: u8| spec_expand_set(set_spec@).contains(c)).len(),
{
    let set = expand_set(set_spec);
    let mut n: usize = 0;
    let mut i: usize = 0;
    while i < src.len()
        invariant
            i <= src.len(),
            n == src@.take(i as int).filter(|c: u8| set@.contains(c)).len(),
            n <= i,
        decreases src.len() - i,
    {
        let c = src[i];
        proof {
            assert(src@.take(i + 1) =~= src@.take(i as int).push(c));
            lemma_filter_push(src@.take(i as int), c, |c: u8| set@.contains(c));
        }
        if byte_in(set.as_slice(), c) {
            n += 1;
        }
        i += 1;
    }
    proof {
        assert(src@.take(src.len() as int) =~= src@);
    }
    n
}

/// Runs of one repeated byte collapsed to a single byte; with a set, only
/// runs of bytes in the set.
pub open spec fn spec_squeeze(src: Seq<u8>, set: Option<Seq<u8>>) -> Seq<u8>
    decreases src.len(),
{
    if src.len() == 0 {
        Seq::empty()
    } else {
        let prev = spec_squeeze(src.drop_last(), set);
        let c = src.last();
        if prev.len() > 0 && prev.last() == c && (set is None || set.unwrap().contains(c)) {
            prev
        } else {
            prev.push(c)
        }
    }
}

/// Collapses runs of repeated bytes (String#squeeze), optionally only those
/// of the bytes named by a set spec.
pub fn squeeze(src: &[u8], set_spec: Option<&[u8]>) -> (r: Vec<u8>)
    ensures
        r@ == spec_squeeze(
            src@,
            match set_spec {
                Some(s) => Some(spec_expand_set(s@)),
                None => None,
            },
        ),
{
    let set = match set_spec {
        Some(s) => Some(expand_set(s)),
        None => None,
    };
    let ghost sset = match set_spec {
        Some(s) => Some(spec_expand_set(s@)),
        None => None,
    };
    let mut out: Vec<u8> = Vec::new();
    let mut i: usize = 0;
    while i < src.len()
        invariant
            i <= src.len(),
            match set {
                Some(v) => sset == Some(v@),
                None => sset is None,
            },
            out@ == spec_squeeze(src@.take(i as int), sset),
        decreases src.len() - i,
    {
        let c = src[i];
        proof {
            assert(src@.take(i + 1).drop_last() =~= src@.take(i as int));
        }
        let in_set = match &set {
            Some(v) => byte_in(v.as_slice(), c),
            None => true,
        };
        let repeat = out.len() > 0 && out[out.len() - 1] == c && in_set;
        if !repeat {
            out.push(c);
        }
        i += 1;
    }
    proof {
        assert(src@.take(src.len() as int) =~= src@);
    }
    out
}

/// `sep` occurs in `s` starting at `i`.
pub open spec fn matches_at(s: Seq<char>, sep: Seq<char>, i: int) -> bool {
    0 <= i && i + sep.len() <= s.len() && s.subrange(i, i + sep.len()) == sep
}

/// First place at or after `p` where `sep` occurs in `s`.
pub open spec fn find_from(s: Seq<char>, sep: Seq<char>, p: int) -> Option<int>
    decreases s.len() + 1 - p,
{
    if p < 0 || p + sep.len() > s.len() {
        None
    } else if matches_at(s, sep, p) {
        Some(p)
    } else {
        find_from(s, sep, p + 1)
    }
}

proof fn lemma_find_from(s: Seq<char>, sep: Seq<char>, p: int)
    requires
        0 <= p,
    ensures
        match find_from(s, sep, p) {
            Some(i) => p <= i && matches_at(s, sep, i) && forall|j: int|
                p <= j < i ==> !matches_at(s, sep, j),
            None => forall|j: int| p <= j ==> !matches_at(s, sep, j),
        },
    decreases s.len() + 1 - p,
{
    if p + sep.len() <= s.len() && !matches_at(s, sep, p) {
        lemma_find_from(s, sep, p + 1);
    }
}

fn matches_here(s: &[char], sep: &[char], i: usize) -> (r: bool)
    requires
        i + sep.len() <= s.len(),
    ensures
        r == matches_at(s@, sep@, i as int),
{
    let mut k: usize = 0;
    while k < sep.len()
        invariant
            i + sep.len() <= s.len(),
            k <= sep.len(),
            forall|t: int| 0 <= t < k ==> s@[i + t] == sep@[t],
        decreases sep.len() - k,
    {
        if s[i + k] != sep[k] {
            assert(s@.subrange(i as int, i + sep.len())[k as int] != sep@[k as int]);
            return false;
        }
        k += 1;
    }
    assert(s@.subrange(i as int, i + sep.len()) =~= sep@);
    true
}

/// Where `sep` next occurs in `s`, searching from `p`.
fn find_next(s: &[char], sep: &[char], p: usize) -> (r: Option<usize>)
    ensures
        match r {
            Some(i) => find_from(s@, sep@, p as int) == Some(i as int),
            None => find_from(s@, sep@, p as int) is None,
        },
{
    if p > s.len() {
        return None;
    }
    let mut j = p;
    while s.len() - j >= sep.len()
        invariant
            p <= j <= s.len(),
            find_from(s@, sep@, p as int) == find_from(s@, sep@, j as int),
        decreases s.len() - j,
    {
        if matches_here(s, sep, j) {
            return Some(j);
        }
        proof {
            if sep.len() == 0 {
                assert(s@.subrange(j as int, j as int) =~= sep@);
            }
        }
        j += 1;
    }
    None
}

/// The lines of `s[p..]`, each keeping the `sep` that ends it; a last piece
/// without `sep` counts as a line when it is not empty.
pub open spec fn lines_from(s: Seq<char>, sep: Seq<char>, p: int) -> Seq<Seq<char>>
    decreases s.len() - p,
{
    match find_from(s, sep, p) {
        Some(i) => if 0 <= p <= i && i + sep.len() <= s.len() && sep.len() > 0 {
            seq![s.subrange(p, i + sep.len())] + lines_from(s, sep, i + sep.len())
        } else {
            Seq::empty()
        },
        None => if 0 <= p < s.len() {
            seq![s.subrange(p, s.len() as int)]
        } else {
            Seq::empty()
        },
    }
}

/// String#lines: `s` cut after each `sep`; an empty `sep` leaves `s` whole.
pub open spec fn spec_split_lines(s: Seq<char>, sep: Seq<char>) -> Seq<Seq<char>> {
    if sep.len() == 0 {
        seq![s]
    } else {
        lines_from(s, sep, 0)
    }
}

/// Splits `s` into lines ending with `sep` (String#lines, String#each_line).
pub fn split_lines(s: &[char], sep: &[char]) -> (r: Vec<Vec<char>>)
    ensures
        r@.map_values(|l: Vec<char>| l@) == spec_split_lines(s@, sep@),
{
    let mut out: Vec<Vec<char>> = Vec::new();
    if sep.len() == 0 {
        out.push(chars_vec(s));
        assert(out@.map_values(|l: Vec<char>| l@) =~= seq![s@]);
        return out;
    }
    let mut p: usize = 0;
    loop
        invariant
            sep.len() > 0,
            p <= s.len(),
            out@.map_values(|l: Vec<char>| l@) + lines_from(s@, sep@, p as int) == lines_from(
                s@,
                sep@,
                0,
            ),
        decreases s.len() - p,
    {
        proof {
            lemma_find_from(s@, sep@, p as int);
        }
        match find_next(s, sep, p) {
            Some(i) => {
                let ghost before = out@.map_values(|l: Vec<char>| l@);
                let line = copy_range(s, p, i + sep.len());
                out.push(line);
                proof {
                    assert(out@.map_values(|l: Vec<char>| l@) =~= before.push(line@));
                    assert(before.push(line@) + lines_from(s@, sep@, i + sep.len()) =~= before + (
                    seq![line@] + lines_from(s@, sep@, i + sep.len())));
                }
                p = i + sep.len();
            },
            None => {
                let ghost before = out@.map_values(|l: Vec<char>| l@);
                if p < s.len() {
                    let line = copy_range(s, p, s.len());
                    out.push(line);
                    assert(out@.map_values(|l: Vec<char>| l@) =~= before.push(line@));
                } else {
                    assert(before + Seq::<Seq<char>>::empty() =~= before);
                }
                return out;
            },
        }
    }
}

proof fn lemma_lines_concat(s: Seq<char>, sep: Seq<char>, p: int)
    requires
        0 <= p <= s.len(),
        sep.len() > 0,
    ensures
        lines_from(s, sep, p).flatten() == s.subrange(p, s.len() as int),
    decreases s.len() - p,
{
    lemma_find_from(s, sep, p);
    match find_from(s, sep, p) {
        Some(i) => {
            lemma_lines_concat(s, sep, i + sep.len());
            let head = s.subrange(p, i + sep.len());
            let tail = lines_from(s, sep, i + sep.len());
            vstd::seq_lib::lemma_flatten_concat(seq![head], tail);
            assert(seq![head].flatten() =~= head) by {
                reveal_with_fuel(Seq::flatten, 2);
                assert(seq![head].drop_first() =~= Seq::<Seq<char>>::empty());
            }
            assert(head + s.subrange(i + sep.len(), s.len() as int) =~= s.subrange(p, s.len() as int));
        },
        None => {
            if p < s.len() {
                assert(seq![s.subrange(p, s.len() as int)].flatten() =~= s.subrange(p, s.len() as int)) by {
                    reveal_with_fuel(Seq::flatten, 2);
                    assert(seq![s.subrange(p, s.len() as int)].drop_first() =~= Seq::<Seq<char>>::empty());
                }
            } else {
                assert(s.subrange(p, s.len() as int) =~= Seq::<char>::empty());
            }
        },
    }
}

/// Joining the lines of `s` gives `s` back: no character is lost or added.
pub proof fn law_split_lines_concat(s: Seq<char>, sep: Seq<char>)
    ensures
        spec_split_lines(s, sep).flatten() == s,
{
    if sep.len() == 0 {
        reveal_with_fuel(Seq::flatten, 2);
        assert(seq![s].drop_first() =~= Seq::<Seq<char>>::empty());
        assert(s + Seq::<char>::empty() =~= s);
    } else {
        lemma_lines_concat(s, sep, 0);
        assert(s.subrange(0, s.len() as int) =~= s);
    }
}

/// Start of each non-overlapping occurrence of a non-empty `pat` in `s`
/// from `p` on, left to right.
pub open spec fn occurrences_from(s: Seq<char>, pat: Seq<char>, p: int) -> Seq<int>
    decreases s.len() + 1 - p,
{
    match find_from(s, pat, p) {
        Some(i) => if 0 <= p <= i && pat.len() > 0 && i + pat.len() <= s.len() {
            seq![i] + occurrences_from(s, pat, i + pat.len())
        } else {
            Seq::empty()
        },
        None => Seq::empty(),
    }
}

/// The occurrences that `sub` (first only) or `gsub` (`all`) replaces.
pub open spec fn spec_occurrences(s: Seq<char>, pat: Seq<char>, all: bool) -> Seq<int> {
    let o = occurrences_from(s, pat, 0);
    if all || o.len() == 0 {
        o
    } else {
        o.take(1)
    }
}

/// Positions of matches of length `plen` in a text of length `len`: in
/// bounds and apart by at least `plen`.
pub open spec fn positions_ok(len: int, plen: int, pos: Seq<int>) -> bool {
    &&& forall|k: int| 0 <= k < pos.len() ==> 0 <= #[trigger] pos[k] && pos[k] + plen <= len
    &&& forall|k: int| 0 < k < pos.len() ==> pos[k - 1] + plen <= #[trigger] pos[k]
}

/// `s[p..]` with the match at `pos[k]` replaced by `reps[k]` for each `k`
/// from `k` on.
pub open spec fn splice_from(
    s: Seq<char>,
    plen: int,
    pos: Seq<int>,
    reps: Seq<Seq<char>>,
    k: int,
    p: int,
) -> Seq<char>
    decreases pos.len() - k,
{
    if k < 0 || k >= pos.len() {
        s.subrange(p, s.len() as int)
    } else {
        s.subrange(p, pos[k]) + reps[k] + splice_from(s, plen, pos, reps, k + 1, pos[k] + plen)
    }
}

proof fn lemma_occurrences_ok(s: Seq<char>, pat: Seq<char>, p: int)
    requires
        0 <= p,
        pat.len() > 0,
    ensures
        positions_ok(s.len() as int, pat.len() as int, occurrences_from(s, pat, p)),
        forall|k: int|
            0 <= k < occurrences_from(s, pat, p).len() ==> p <= #[trigger] occurrences_from(
                s,
                pat,
                p,
            )[k],
    decreases s.len() + 1 - p,
{
    lemma_find_from(s, pat, p);
    match find_from(s, pat, p) {
        Some(i) => {
            lemma_occurrences_ok(s, pat, i + pat.len());
            let rest = occurrences_from(s, pat, i + pat.len());
            let o = occurrences_from(s, pat, p);
            assert(o =~= seq![i] + rest);
            assert forall|k: int| 0 < k < o.len() implies o[k - 1] + pat.len() <= #[trigger] o[k] by {
                if k > 1 {
                    assert(o[k - 1] == rest[k - 2]);
                    assert(o[k] == rest[k - 1]);
                } else {
                    assert(o[k] == rest[0]);
                }
            }
            assert forall|k: int| 0 <= k < o.len() implies 0 <= #[trigger] o[k] && o[k] + pat.len() <= s.len() by {
                if k > 0 {
                    assert(o[k] == rest[k - 1]);
                }
            }
        },
        None => {},
    }
}

/// Where `String#sub` (`all` false) or `String#gsub` (`all`) replace a
/// literal `pat` in `s`.
pub fn occurrences(s: &[char], pat: &[char], all: bool) -> (r: Vec<usize>)
    requires
        pat.len() > 0,
    ensures
        r@.map_values(|i: usize| i as int) == spec_occurrences(s@, pat@, all),
        positions_ok(s.len() as int, pat.len() as int, spec_occurrences(s@, pat@, all)),
{
    let mut out: Vec<usize> = Vec::new();
    let mut p: usize = 0;
    proof {
        lemma_occurrences_ok(s@, pat@, 0);
        let o = occurrences_from(s@, pat@, 0);
        if o.len() > 0 {
            assert(positions_ok(s.len() as int, pat.len() as int, o.take(1)));
        }
    }
    loop
        invariant
            pat.len() > 0,
            positions_ok(s.len() as int, pat.len() as int, spec_occurrences(s@, pat@, all)),
            p <= s.len(),
            out@.map_values(|i: usize| i as int) + occurrences_from(s@, pat@, p as int) == occurrences_from(
                s@,
                pat@,
                0,
            ),
            !all ==> out.len() == 0,
        decreases s.len() - p,
    {
        proof {
            lemma_find_from(s@, pat@, p as int);
        }
        match find_next(s, pat, p) {
            Some(i) => {
                let ghost before = out@.map_values(|i: usize| i as int);
                out.push(i);
                proof {
                    assert(out@.map_values(|i: usize| i as int) =~= before.push(i as int));
                    assert(before.push(i as int) + occurrences_from(s@, pat@, i + pat.len()) =~= before + (
                    seq![i as int] + occurrences_from(s@, pat@, i + pat.len())));
                }
                if !all {
                    proof {
                        assert(occurrences_from(s@, pat@, 0).take(1) =~= seq![i as int]);
                    }
                    return out;
                }
                p = i + pat.len();
            },
            None => {
                proof {
                    let before = out@.map_values(|i: usize| i as int);
                    assert(before + Seq::<int>::empty() =~= before);
                    assert(occurrences_from(s@, pat@, p as int) =~= Seq::<int>::empty());
                    if !all {
                        assert(occurrences_from(s@, pat@, 0) =~= Seq::<int>::empty());
                    }
                }
                return out;
            },
        }
    }
}

/// `s` with the match of length `plen` at each of `pos` replaced by the
/// corresponding entry of `reps`.
#[verifier::spinoff_prover]
#[verifier::rlimit(30)]
pub fn splice_matches(s: &[char], plen: usize, pos: &[usize], reps: &[Vec<char>]) -> (r: Vec<char>)
    requires
        positions_ok(s.len() as int, plen as int, pos@.map_values(|i: usize| i as int)),
        reps.len() == pos.len(),
    ensures
        r@ == splice_from(
            s@,
            plen as int,
            pos@.map_values(|i: usize| i as int),
            reps@.map_values(|v: Vec<char>| v@),
            0,
            0,
        ),
{
    let ghost ps = pos@.map_values(|i: usize| i as int);
    let ghost rs = reps@.map_values(|v: Vec<char>| v@);
    let mut out: Vec<char> = Vec::new();
    let mut k: usize = 0;
    let mut cur: usize = 0;
    while k < pos.len()
        invariant
            ps == pos@.map_values(|i: usize| i as int),
            rs == reps@.map_values(|v: Vec<char>| v@),
            positions_ok(s.len() as int, plen as int, ps),
            reps.len() == pos.len(),
            k <= pos.len(),
            cur <= s.len(),
            k == 0 ==> cur == 0,
            k > 0 ==> cur == pos@[k - 1] + plen,
            out@ + splice_from(s@, plen as int, ps, rs, k as int, cur as int) == splice_from(
                s@,
                plen as int,
                ps,
                rs,
                0,
                0,
            ),
        decreases pos.len() - k,
    {
        let at = pos[k];
        assert(ps[k as int] == at);
        let ghost before = out@;
        let head = copy_range(s, cur, at);
        push_all(&mut out, head.as_slice());
        push_all(&mut out, reps[k].as_slice());
        proof {
            assert(rs[k as int] == reps@[k as int]@);
            assert(out@ + splice_from(s@, plen as int, ps, rs, k + 1, at + plen) =~= before
                + splice_from(s@, plen as int, ps, rs, k as int, cur as int));
        }
        cur = at + plen;
        k += 1;
    }
    let tail = copy_range(s, cur, s.len());
    push_all(&mut out, tail.as_slice());
    out
}

/// Replaces the first (`all` false) or every occurrence of the literal
/// `pat` in `s` by `rep` (String#sub, String#gsub); an empty pattern is an
/// error.
pub fn replace_occurrences(s: &[char], pat: &[char], rep: &[char], all: bool) -> (r: Result<
    Vec<char>,
    crate::error::Error,
>)
    ensures
        pat.len() == 0 <==> r is Err,
        pat.len() == 0 ==> crate::error::is_argument_error(r, "empty pattern is not supported"@),
        r is Ok ==> r->Ok_0@ == splice_from(
            s@,
            pat.len() as int,
            spec_occurrences(s@, pat@, all),
            Seq::new(spec_occurrences(s@, pat@, all).len(), |_k: int| rep@),
            0,
            0,
        ),
{
    if pat.len() == 0 {
        return Err(crate::error::argument_error("empty pattern is not supported"));
    }
    let pos = occurrences(s, pat, all);
    let mut reps: Vec<Vec<char>> = Vec::new();
    while reps.len() < pos.len()
        invariant
            reps.len() <= pos.len(),
            forall|t: int| 0 <= t < reps.len() ==> (#[trigger] reps@[t])@ == rep@,
        decreases pos.len() - reps.len(),
    {
        reps.push(chars_vec(rep));
    }
    let r = splice_matches(s, pat.len(), pos.as_slice(), reps.as_slice());
    assert(reps@.map_values(|v: Vec<char>| v@) =~= Seq::new(
        spec_occurrences(s@, pat@, all).len(),
        |_k: int| rep@,
    ));
    Ok(r)
}

/// String#partition: the text before the first `sep`, `sep` itself and the
/// text after it; `s`, "" and "" when `sep` does not occur.
pub open spec fn spec_partition(s: Seq<char>, sep: Seq<char>) -> (Seq<char>, Seq<char>, Seq<char>) {
    match find_from(s, sep, 0) {
        Some(i) => (s.take(i), sep, s.skip(i + sep.len())),
        None => (s, Seq::empty(), Seq::empty()),
    }
}

/// Splits `s` around the first occurrence of `sep`.
pub fn partition(s: &[char], sep: &[char]) -> (r: (Vec<char>, Vec<char>, Vec<char>))
    ensures
        (r.0@, r.1@, r.2@) == spec_partition(s@, sep@),
{
    proof {
        lemma_find_from(s@, sep@, 0);
    }
    match find_next(s, sep, 0) {
        Some(i) => {
            assert(matches_at(s@, sep@, i as int));
            assert(i + sep@.len() <= s@.len());
            assert(i + sep.len() <= s.len());
            let a = copy_range(s, 0, i);
            let c = copy_range(s, i + sep.len(), s.len());
            assert(a@ =~= s@.take(i as int));
            assert(c@ =~= s@.skip(i + sep.len()));
            (a, chars_vec(sep), c)
        },
        None => (chars_vec(s), Vec::new(), Vec::new()),
    }
}

/// String#chop: without a final "\r\n", or else without the last character.
pub open spec fn spec_chop(s: Seq<char>) -> Seq<char> {
    if s.len() >= 2 && s[s.len() - 2] == '\r' && s[s.len() - 1] == '\n' {
        s.take(s.len() - 2)
    } else if s.len() > 0 {
        s.take(s.len() - 1)
    } else {
        s
    }
}

/// Drops the last character, or a trailing "\r\n" as one.
pub fn chop(s: &[char]) -> (r: Vec<char>)
    ensures
        r@ == spec_chop(s@),
{
    let n = s.len();
    if n >= 2 && s[n - 2] == '\r' && s[n - 1] == '\n' {
        copy_range(s, 0, n - 2)
    } else if n > 0 {
        copy_range(s, 0, n - 1)
    } else {
        Vec::new()
    }
}

/// String#reverse: the characters in reverse order.
pub fn reverse_chars(s: &[char]) -> (r: Vec<char>)
    ensures
        r@ == s@.reverse(),
{
    let mut out: Vec<char> = Vec::new();
    let mut i = s.len();
    while i > 0
        invariant
            i <= s.len(),
            out@ == s@.skip(i as int).reverse(),
        decreases i,
    {
        i -= 1;
        out.push(s[i]);
        assert(s@.skip(i as int).reverse() =~= s@.skip(i + 1).reverse().push(s@[i as int]));
    }
    assert(s@.skip(0) =~= s@);
    out
}

pub open spec fn is_lower(c: char) -> bool {
    'a' <= c <= 'z'
}

pub open spec fn is_upper(c: char) -> bool {
    'A' <= c <= 'Z'
}

pub open spec fn is_digit(c: char) -> bool {
    '0' <= c <= '9'
}

pub open spec fn is_alnum(c: char) -> bool {
    is_lower(c) || is_upper(c) || is_digit(c)
}

/// The successor of `s[..=i]`, carrying leftward: `z`, `Z` and `9` wrap to
/// `a`, `A` and `0` and carry; another ASCII letter or digit steps up by one;
/// any other character stops the carry unchanged. A carry out of the first
/// character inserts `a`, `A` or `1` after the class of the (wrapped) first
/// character, or nothing if it is of no class.
pub open spec fn succ_at(s: Seq<char>, i: int) -> Seq<char>
    decreases i + 1,
{
    if i < 0 {
        let seed = s[0];
        if is_lower(seed) {
            seq!['a'] + s
        } else if is_upper(seed) {
            seq!['A'] + s
        } else if is_digit(seed) {
            seq!['1'] + s
        } else {
            s
        }
    } else {
        let c = s[i];
        if c == 'z' {
            succ_at(s.update(i, 'a'), i - 1)
        } else if c == 'Z' {
            succ_at(s.update(i, 'A'), i - 1)
        } else if c == '9' {
            succ_at(s.update(i, '0'), i - 1)
        } else if is_alnum(c) {
            s.update(i, ((c as int) + 1) as char)
        } else {
            s
        }
    }
}

/// String#succ.
pub open spec fn spec_succ(s: Seq<char>) -> Seq<char> {
    if s.len() == 0 {
        s
    } else {
        succ_at(s, s.len() - 1)
    }
}

/// Alphanumeric increment with carry: "az" gives "ba", "zz" gives "aaa",
/// "a9" gives "b0" and "9" gives "10".
pub fn succ(s: &[char]) -> (r: Vec<char>)
    ensures
        r@ == spec_succ(s@),
{
    let mut chars = chars_vec(s);
    if chars.len() == 0 {
        return chars;
    }
    let mut i = chars.len();
    loop
        invariant
            0 < chars.len() == s.len(),
            i <= chars.len(),
            succ_at(chars@, i - 1) == spec_succ(s@),
        decreases i,
    {
        if i == 0 {
            let seed = chars[0];
            let grown = if 'a' <= seed && seed <= 'z' {
                'a'
            } else if 'A' <= seed && seed <= 'Z' {
                'A'
            } else if '0' <= seed && seed <= '9' {
                '1'
            } else {
                return chars;
            };
            let ghost before = chars@;
            chars.insert(0, grown);
            assert(chars@ =~= seq![grown] + before);
            return chars;
        }
        i -= 1;
        let c = chars[i];
        if c == 'z' {
            chars.set(i, 'a');
        } else if c == 'Z' {
            chars.set(i, 'A');
        } else if c == '9' {
            chars.set(i, '0');
        } else {
            if ('a' <= c && c <= 'z') || ('A' <= c && c <= 'Z') || ('0' <= c && c <= '9') {
                let next = ((c as u8) + 1) as char;
                assert(next == ((c as int) + 1) as char);
                chars.set(i, next);
            }
            return chars;
        }
    }
}

/// Byte-wise three-way comparison: -1, 0 or 1.
pub open spec fn byte_order(a: Seq<u8>, b: Seq<u8>) -> int
    decreases a.len(),
{
    if a.len() == 0 {
        if b.len() == 0 {
            0
        } else {
            -1
        }
    } else if b.len() == 0 {
        1
    } else if a[0] < b[0] {
        -1
    } else if a[0] > b[0] {
        1
    } else {
        byte_order(a.skip(1), b.skip(1))
    }
}

/// String#<=> on the bytes of two strings.
pub fn compare_bytes(a: &[u8], b: &[u8]) -> (r: i64)
    ensures
        r == byte_order(a@, b@),
{
    let mut i: usize = 0;
    assert(a@.skip(0) =~= a@);
    assert(b@.skip(0) =~= b@);
    while i < a.len() && i < b.len()
        invariant
            i <= a.len(),
            i <= b.len(),
            byte_order(a@, b@) == byte_order(a@.skip(i as int), b@.skip(i as int)),
        decreases a.len() - i,
    {
        if a[i] < b[i] {
            return -1;
        }
        if a[i] > b[i] {
            return 1;
        }
        assert(a@.skip(i as int).skip(1) =~= a@.skip(i + 1));
        assert(b@.skip(i as int).skip(1) =~= b@.skip(i + 1));
        i += 1;
    }
    if a.len() == b.len() {
        0
    } else if i == a.len() {
        -1
    } else {
        1
    }
}

/// The width argument of ljust, rjust and center: a negative width is an
/// error.
pub fn width_arg(w: i64) -> (r: Result<usize, crate::error::Error>)
    requires
        w <= usize::MAX,
    ensures
        w < 0 ==> crate::error::is_argument_error(
            r,
            "negative width ("@ + crate::format::int_text(w, 10, false, false, false) + ")"@,
        ),
        w >= 0 ==> r == Ok::<usize, crate::error::Error>(w as usize),
{
    if w < 0 {
        let mut msg: Vec<char> = Vec::new();
        push_all(&mut msg, &['n', 'e', 'g', 'a', 't', 'i', 'v', 'e', ' ', 'w', 'i', 'd', 't', 'h', ' ', '(']);
        let digits = crate::format::int_render(w, 10, false, false, false);
        push_all(&mut msg, digits.as_slice());
        push_all(&mut msg, &[')']);
        proof {
            reveal_strlit("negative width (");
            reveal_strlit(")");
        }
        assert(msg@ =~= "negative width ("@ + crate::format::int_text(w, 10, false, false, false) + ")"@);
        return Err(crate::error::Error::ArgumentError(crate::error::string_from_chars(msg.as_slice())));
    }
    Ok(w as usize)
}

/// A name given without `@` addresses the same instance variable as the
/// name with `@` in front.
pub proof fn law_ivar_name_bare(raw: Seq<char>)
    requires
        !(raw.len() > 0 && raw[0] == '@'),
    ensures
        spec_ivar_name(raw) == spec_ivar_name(seq!['@'] + raw),
{
    assert((seq!['@'] + raw)[0] == '@');
}

/// Normalising a name twice changes nothing more than normalising once.
pub proof fn law_ivar_name_idempotent(raw: Seq<char>)
    ensures
        spec_ivar_name(spec_ivar_name(raw)) == spec_ivar_name(raw),
{
    if !(raw.len() > 0 && raw[0] == '@') {
        assert((seq!['@'] + raw)[0] == '@');
    }
}

/// With a non-empty pad, padding gives exactly `width` characters, or the
/// body unchanged when it is already that long.
pub proof fn law_pad_to_width(body: Seq<char>, width: nat, left: bool, right: bool, pad: Seq<char>)
    requires
        pad.len() > 0,
    ensures
        spec_pad_to(body, width, left, right, pad).len() == if body.len() >= width {
            body.len()
        } else {
            width
        },
{
}

/// A range in a set spec names the same bytes written either way round.
pub proof fn law_expand_set_range_symmetric(a: u8, b: u8)
    ensures
        spec_expand_set(seq![a, 45u8, b]) == spec_expand_set(seq![b, 45u8, a]),
{
    assert(seq![a, 45u8, b].skip(3) =~= Seq::<u8>::empty());
    assert(seq![b, 45u8, a].skip(3) =~= Seq::<u8>::empty());
}

/// Transliterating to an empty set deletes the bytes of the source set.
pub proof fn law_tr_to_empty_deletes(src: Seq<u8>, from: Seq<u8>)
    ensures
        spec_tr(src, from, Seq::empty()) == src.filter(|c: u8| !from.contains(c)),
{
}

/// Comparing the other way round gives the opposite answer.
pub proof fn law_byte_order_antisymmetric(a: Seq<u8>, b: Seq<u8>)
    ensures
        byte_order(a, b) == -byte_order(b, a),
    decreases a.len(),
{
    if a.len() > 0 && b.len() > 0 && a[0] == b[0] {
        law_byte_order_antisymmetric(a.skip(1), b.skip(1));
    }
}

/// Every string equals itself and only itself under String#<=>.
pub proof fn law_byte_order_zero_iff_equal(a: Seq<u8>, b: Seq<u8>)
    ensures
        (byte_order(a, b) == 0) == (a == b),
    decreases a.len(),
{
    if a.len() > 0 && b.len() > 0 {
        if a[0] == b[0] {
            law_byte_order_zero_iff_equal(a.skip(1), b.skip(1));
            if a.skip(1) == b.skip(1) {
                assert(a =~= seq![a[0]] + a.skip(1));
                assert(b =~= seq![b[0]] + b.skip(1));
            } else if a == b {
                assert(a.skip(1) =~= b.skip(1));
            }
        } else {
            assert(a[0] != b[0]);
        }
    } else if a.len() == 0 && b.len() > 0 {
        assert(a != b);
    } else if a.len() > 0 && b.len() == 0 {
        assert(a != b);
    } else {
        assert(a =~= b);
    }
}

/// Every line but the last ends with the separator.
pub proof fn law_lines_end_with_separator(s: Seq<char>, sep: Seq<char>, k: int)
    requires
        sep.len() > 0,
        0 <= k < spec_split_lines(s, sep).len() - 1,
    ensures
        spec_split_lines(s, sep)[k].len() >= sep.len(),
        spec_split_lines(s, sep)[k].skip(spec_split_lines(s, sep)[k].len() - sep.len()) == sep,
{
    lemma_lines_sep(s, sep, 0, k);
}

proof fn lemma_lines_sep(s: Seq<char>, sep: Seq<char>, p: int, k: int)
    requires
        sep.len() > 0,
        0 <= p <= s.len(),
        0 <= k < lines_from(s, sep, p).len() - 1,
    ensures
        lines_from(s, sep, p)[k].len() >= sep.len(),
        lines_from(s, sep, p)[k].skip(lines_from(s, sep, p)[k].len() - sep.len()) == sep,
    decreases s.len() - p,
{
    lemma_find_from(s, sep, p);
    match find_from(s, sep, p) {
        Some(i) => {
            let head = s.subrange(p, i + sep.len());
            if k == 0 {
                assert(lines_from(s, sep, p)[0] == head);
                assert(head.skip(head.len() - sep.len()) =~= s.subrange(i, i + sep.len()));
            } else {
                lemma_lines_sep(s, sep, i + sep.len(), k - 1);
                assert(lines_from(s, sep, p)[k] == lines_from(s, sep, i + sep.len())[k - 1]);
            }
        },
        None => {},
    }
}

/// The shape of a line cut by a non-empty `sep`: it is not empty, and either
/// it ends with `sep` and holds no earlier occurrence of it, or it holds no
/// occurrence of `sep` at all.
pub open spec fn line_shape(l: Seq<char>, sep: Seq<char>) -> bool {
    &&& l.len() > 0
    &&& ({
        &&& l.len() >= sep.len()
        &&& matches_at(l, sep, l.len() - sep.len())
        &&& forall|j: int| 0 <= j < l.len() - sep.len() ==> !#[trigger] matches_at(l, sep, j)
    } || forall|j: int| 0 <= j ==> !#[trigger] matches_at(l, sep, j))
}

/// Every line has the shape `line_shape` describes, and every line but the
/// last ends with the separator.
pub proof fn law_line_shape(s: Seq<char>, sep: Seq<char>, k: int)
    requires
        sep.len() > 0,
        0 <= k < spec_split_lines(s, sep).len(),
    ensures
        line_shape(spec_split_lines(s, sep)[k], sep),
        k < spec_split_lines(s, sep).len() - 1 ==> matches_at(
            spec_split_lines(s, sep)[k],
            sep,
            spec_split_lines(s, sep)[k].len() - sep.len(),
        ),
{
    lemma_line_shape(s, sep, 0, k);
}

proof fn lemma_line_shape(s: Seq<char>, sep: Seq<char>, p: int, k: int)
    requires
        sep.len() > 0,
        0 <= p <= s.len(),
        0 <= k < lines_from(s, sep, p).len(),
    ensures
        line_shape(lines_from(s, sep, p)[k], sep),
        k < lines_from(s, sep, p).len() - 1 ==> matches_at(
            lines_from(s, sep, p)[k],
            sep,
            lines_from(s, sep, p)[k].len() - sep.len(),
        ),
    decreases s.len() - p,
{
    lemma_find_from(s, sep, p);
    match find_from(s, sep, p) {
        Some(i) => {
            if k == 0 {
                let l = s.subrange(p, i + sep.len());
                assert(lines_from(s, sep, p)[0] == l);
                assert(l.subrange(l.len() - sep.len(), l.len() as int) =~= s.subrange(i, i + sep.len()));
                assert forall|j: int| 0 <= j < l.len() - sep.len() implies !#[trigger] matches_at(l, sep, j) by {
                    assert(l.subrange(j, j + sep.len()) =~= s.subrange(p + j, p + j + sep.len()));
                    assert(!matches_at(s, sep, p + j));
                }
            } else {
                lemma_line_shape(s, sep, i + sep.len(), k - 1);
                assert(lines_from(s, sep, p)[k] == lines_from(s, sep, i + sep.len())[k - 1]);
            }
        },
        None => {
            let l = s.subrange(p, s.len() as int);
            assert(lines_from(s, sep, p)[0] == l);
            assert forall|j: int| 0 <= j implies !#[trigger] matches_at(l, sep, j) by {
                if j + sep.len() <= l.len() {
                    assert(l.subrange(j, j + sep.len()) =~= s.subrange(p + j, p + j + sep.len()));
                    assert(!matches_at(s, sep, p + j));
                }
            }
        },
    }
}

/// What `str::to_lowercase` gives for a text.
pub uninterp spec fn str_lowercase(s: Seq<char>) -> Seq<char>;

/// What `char::to_uppercase` yields for a character.
pub uninterp spec fn char_upper(c: char) -> Seq<char>;

/// What `char::to_lowercase` yields for a character.
pub uninterp spec fn char_lower(c: char) -> Seq<char>;

/// What `char::is_lowercase` answers for a character.
pub uninterp spec fn char_is_lower(c: char) -> bool;

/// `str::to_lowercase` of `s`: its Unicode lower-case form, as std's
/// tables give it. The contract names the result and states nothing more.
#[verifier::external_body]
fn lowercase_text(s: &[char]) -> (r: Vec<char>)
    ensures
        r@ == str_lowercase(s@),
{
    String::from_iter(s.iter()).to_lowercase().chars().collect()
}

/// `char::to_uppercase` of `c`, collected: the contract names the result.
#[verifier::external_body]
pub(crate) fn upper_of(c: char) -> (r: Vec<char>)
    ensures
        r@ == char_upper(c),
{
    c.to_uppercase().collect()
}

/// `char::to_lowercase` of `c`, collected: the contract names the result.
#[verifier::external_body]
fn lower_of(c: char) -> (r: Vec<char>)
    ensures
        r@ == char_lower(c),
{
    c.to_lowercase().collect()
}

/// `char::is_lowercase` of `c`: the contract names the answer.
#[verifier::external_body]
fn is_lower_char(c: char) -> (r: bool)
    ensures
        r == char_is_lower(c),
{
    c.is_lowercase()
}

/// The characters of `s` each mapped to a sequence and joined.
pub open spec fn map_join(s: Seq<char>, f: spec_fn(char) -> Seq<char>) -> Seq<char>
    decreases s.len(),
{
    if s.len() == 0 {
        Seq::empty()
    } else {
        map_join(s.drop_last(), f) + f(s.last())
    }
}

/// String#capitalize: the first character upper-cased, the rest
/// lower-cased.
pub open spec fn spec_capitalize(s: Seq<char>) -> Seq<char> {
    if s.len() == 0 {
        s
    } else {
        char_upper(s[0]) + map_join(s.skip(1), |c: char| char_lower(c))
    }
}

pub fn capitalize(s: &[char]) -> (r: Vec<char>)
    ensures
        r@ == spec_capitalize(s@),
{
    if s.len() == 0 {
        return Vec::new();
    }
    let mut out = upper_of(s[0]);
    let ghost head = out@;
    let mut i: usize = 1;
    while i < s.len()
        invariant
            1 <= i <= s.len(),
            head == char_upper(s@[0]),
            out@ == head + map_join(s@.subrange(1, i as int), |c: char| char_lower(c)),
        decreases s.len() - i,
    {
        let low = lower_of(s[i]);
        push_all(&mut out, low.as_slice());
        proof {
            assert(s@.subrange(1, i + 1).drop_last() =~= s@.subrange(1, i as int));
            assert(s@.subrange(1, i + 1).last() == s@[i as int]);
            assert(head + map_join(s@.subrange(1, i as int), |c: char| char_lower(c)) + low@ =~= head
                + (map_join(s@.subrange(1, i as int), |c: char| char_lower(c)) + low@));
        }
        i += 1;
    }
    assert(s@.subrange(1, s.len() as int) =~= s@.skip(1));
    out
}

/// String#swapcase: lower-case characters upper-cased, the others
/// lower-cased.
pub open spec fn spec_swapcase(s: Seq<char>) -> Seq<char> {
    map_join(s, |c: char| if char_is_lower(c) { char_upper(c) } else { char_lower(c) })
}

pub fn swapcase(s: &[char]) -> (r: Vec<char>)
    ensures
        r@ == spec_swapcase(s@),
{
    let mut out: Vec<char> = Vec::new();
    let mut i: usize = 0;
    while i < s.len()
        invariant
            i <= s.len(),
            out@ == map_join(
                s@.take(i as int),
                |c: char| if char_is_lower(c) { char_upper(c) } else { char_lower(c) },
            ),
        decreases s.len() - i,
    {
        let c = s[i];
        let piece = if is_lower_char(c) {
            upper_of(c)
        } else {
            lower_of(c)
        };
        push_all(&mut out, piece.as_slice());
        proof {
            assert(s@.take(i + 1).drop_last() =~= s@.take(i as int));
            assert(s@.take(i + 1).last() == c);
        }
        i += 1;
    }
    assert(s@.take(s.len() as int) =~= s@);
    out
}

/// Three-way comparison of character sequences by code point: -1, 0 or 1.
pub open spec fn char_order(a: Seq<char>, b: Seq<char>) -> int
    decreases a.len(),
{
    if a.len() == 0 {
        if b.len() == 0 {
            0
        } else {
            -1
        }
    } else if b.len() == 0 {
        1
    } else if a[0] < b[0] {
        -1
    } else if a[0] > b[0] {
        1
    } else {
        char_order(a.skip(1), b.skip(1))
    }
}

fn compare_chars(a: &[char], b: &[char]) -> (r: i64)
    ensures
        r == char_order(a@, b@),
{
    let mut i: usize = 0;
    assert(a@.skip(0) =~= a@);
    assert(b@.skip(0) =~= b@);
    while i < a.len() && i < b.len()
        invariant
            i <= a.len(),
            i <= b.len(),
            char_order(a@, b@) == char_order(a@.skip(i as int), b@.skip(i as int)),
        decreases a.len() - i,
    {
        if a[i] < b[i] {
            return -1;
        }
        if a[i] > b[i] {
            return 1;
        }
        assert(a@.skip(i as int).skip(1) =~= a@.skip(i + 1));
        assert(b@.skip(i as int).skip(1) =~= b@.skip(i + 1));
        i += 1;
    }
    if a.len() == b.len() {
        0
    } else if i == a.len() {
        -1
    } else {
        1
    }
}

/// String#casecmp and Symbol#casecmp: the order of the lower-case forms.
pub fn casecmp(a: &[char], b: &[char]) -> (r: i64)
    ensures
        r == char_order(str_lowercase(a@), str_lowercase(b@)),
{
    let la = lowercase_text(a);
    let lb = lowercase_text(b);
    compare_chars(la.as_slice(), lb.as_slice())
}

} // verus!
