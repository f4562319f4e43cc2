//! The per-line parser: a row is `key;value` with a byte key of at most
//! [`MAX_KEY_LEN`] bytes and a signed decimal value with up to fifteen
//! integer digits and an optional fraction of one or two digits, held as a
//! fixed-point number in hundredths.  Rows that do not fit this shape —
//! exponent forms, longer fractions, anything non-numeric — are rejected,
//! never approximated, and the aggregation step counts the rejected rows
//! instead of dropping them silently.

use vstd::prelude::*;

use crate::tree::{fold_updates, spec_update, Tree, MAX_KEY_LEN, VAL_MAX};

verus! {

/// The key/value separator byte (`;`).
pub const FIELD_SEP: u8 = 59;

/// The decimal point byte (`.`).
pub const DOT: u8 = 46;

/// The minus sign byte (`-`).
pub const MINUS: u8 = 45;

/// Is `b` an ASCII decimal digit?
pub open spec fn is_digit(b: u8) -> bool {
    48 <= b <= 57
}

/// Is every byte of `s` a decimal digit?
pub open spec fn all_digits(s: Seq<u8>) -> bool {
    forall|i: int| 0 <= i < s.len() ==> is_digit(#[trigger] s[i])
}

/// The number the digit string `s` denotes.
pub open spec fn digits_val(s: Seq<u8>) -> int
    decreases s.len(),
{
    if s.len() == 0 {
        0
    } else {
        digits_val(s.drop_last()) * 10 + (s.last() - 48)
    }
}

/// The index of the first occurrence of `b` in `s`, or `s.len()` if none.
pub open spec fn first_byte(s: Seq<u8>, b: u8) -> int
    decreases s.len(),
{
    if s.len() == 0 {
        0
    } else if s[0] == b {
        0
    } else {
        1 + first_byte(s.drop_first(), b)
    }
}

proof fn lemma_first_byte(s: Seq<u8>, b: u8)
    ensures
        0 <= first_byte(s, b) <= s.len(),
        first_byte(s, b) < s.len() ==> s[first_byte(s, b)] == b,
        forall|i: int| 0 <= i < first_byte(s, b) ==> s[i] != b,
    decreases s.len(),
{
    if s.len() == 0 {
    } else if s[0] == b {
    } else {
        lemma_first_byte(s.drop_first(), b);
        assert forall|i: int| 0 <= i < first_byte(s, b) implies s[i] != b by {
            if i > 0 {
                assert(s.drop_first()[i - 1] != b);
            }
        }
    }
}

proof fn lemma_digits_bound_rec(s: Seq<u8>)
    requires
        all_digits(s),
    ensures
        0 <= digits_val(s),
        s.len() <= 15 ==> digits_val(s) < 1_000_000_000_000_000,
        s.len() <= 14 ==> digits_val(s) < 100_000_000_000_000,
        s.len() <= 13 ==> digits_val(s) < 10_000_000_000_000,
        s.len() <= 12 ==> digits_val(s) < 1_000_000_000_000,
        s.len() <= 11 ==> digits_val(s) < 100_000_000_000,
        s.len() <= 10 ==> digits_val(s) < 10_000_000_000,
        s.len() <= 9 ==> digits_val(s) < 1_000_000_000,
        s.len() <= 8 ==> digits_val(s) < 100_000_000,
        s.len() <= 7 ==> digits_val(s) < 10_000_000,
        s.len() <= 6 ==> digits_val(s) < 1_000_000,
        s.len() <= 5 ==> digits_val(s) < 100_000,
        s.len() <= 4 ==> digits_val(s) < 10_000,
        s.len() <= 3 ==> digits_val(s) < 1_000,
        s.len() <= 2 ==> digits_val(s) < 100,
        s.len() <= 1 ==> digits_val(s) < 10,
        s.len() == 0 ==> digits_val(s) == 0,
    decreases s.len(),
{
    if s.len() > 0 {
        assert(all_digits(s.drop_last())) by {
            assert(forall|i: int|
                0 <= i < s.len() - 1 ==> #[trigger] s.drop_last()[i] == s[i]);
        }
        lemma_digits_bound_rec(s.drop_last());
    }
}

/// What the value field denotes: an optional minus sign, one to fifteen
/// integer digits, and optionally a decimal point with one or two fraction
/// digits, read as a fixed-point number in hundredths.
pub open spec fn parse_value(t: Seq<u8>) -> Option<int> {
    let neg = t.len() >= 1 && t[0] == MINUS;
    let u = if neg {
        t.drop_first()
    } else {
        t
    };
    let sgn: int = if neg {
        -1
    } else {
        1
    };
    let fd = first_byte(u, DOT);
    if fd == u.len() {
        if 1 <= u.len() <= 15 && all_digits(u) {
            Some(sgn * digits_val(u) * 100)
        } else {
            None
        }
    } else {
        let ip = u.take(fd);
        let fp = u.skip(fd + 1);
        if 1 <= ip.len() <= 15 && all_digits(ip) && 1 <= fp.len() <= 2 && all_digits(fp) {
            Some(
                sgn * (digits_val(ip) * 100 + digits_val(fp) * (if fp.len() == 1 {
                    10int
                } else {
                    1int
                })),
            )
        } else {
            None
        }
    }
}

/// What a whole row denotes: the bytes before the first field separator are
/// the key, the bytes between the first and second field separator (or the
/// end) are the value field.  A row with no separator, an oversized key or
/// an ill-shaped value field is rejected.
pub open spec fn spec_parse(s: Seq<u8>) -> Option<(Seq<u8>, int)> {
    let k = first_byte(s, FIELD_SEP);
    if k == s.len() {
        None
    } else {
        let key = s.take(k);
        let rest = s.skip(k + 1);
        let vf = rest.take(first_byte(rest, FIELD_SEP));
        if key.len() > MAX_KEY_LEN {
            None
        } else {
            match parse_value(vf) {
                Some(v) => Some((key, v)),
                None => None,
            }
        }
    }
}

/// One parsed row.
pub struct Row {
    pub key: Vec<u8>,
    pub value: i64,
}

/// Finds the first occurrence of `b` at or after `from`.
fn find_byte(v: &Vec<u8>, from: usize, b: u8) -> (r: usize)
    requires
        from <= v@.len(),
    ensures
        from <= r <= v@.len(),
        r - from == first_byte(v@.skip(from as int), b),
{
    let ghost u = v@.skip(from as int);
    proof {
        lemma_first_byte(u, b);
    }
    let mut j: usize = from;
    while j < v.len()
        invariant
            from <= j <= v@.len(),
            u == v@.skip(from as int),
            forall|i: int| from <= i < j ==> v@[i] != b,
        decreases v@.len() - j,
    {
        if v[j] == b {
            proof {
                lemma_first_byte(u, b);
                let fb = first_byte(u, b);
                assert(u[j - from] == v@[j as int]);
                if fb < j - from {
                    assert(u[fb] == v@[fb + from]);
                    assert(u[fb] == b);
                    assert(v@[fb + from] != b);
                }
                if fb > j - from {
                    assert(u[j - from] != b);
                }
                assert(fb == j - from);
            }
            return j;
        }
        j += 1;
    }
    proof {
        lemma_first_byte(u, b);
        let fb = first_byte(u, b);
        if fb < u.len() {
            assert(u[fb] == v@[fb + from]);
            assert(u[fb] == b);
        }
    }
    v.len()
}

/// Copies the bytes of `v` from `a` (inclusive) to `b` (exclusive).
fn sub_bytes(v: &Vec<u8>, a: usize, b: usize) -> (r: Vec<u8>)
    requires
        a <= b <= v@.len(),
    ensures
        r@ == v@.subrange(a as int, b as int),
{
    let mut r: Vec<u8> = Vec::new();
    let mut i: usize = a;
    while i < b
        invariant
            a <= i <= b <= v@.len(),
            r@ == v@.subrange(a as int, i as int),
        decreases b - i,
    {
        r.push(v[i]);
        proof {
            assert(v@.subrange(a as int, i + 1) =~= v@.subrange(a as int, i as int).push(
                v@[i as int],
            ));
        }
        i += 1;
    }
    r
}

/// Reads a digit string of one to fifteen digits.
fn parse_digits(v: &Vec<u8>) -> (r: Option<i64>)
    ensures
        match r {
            Some(x) => 1 <= v@.len() <= 15 && all_digits(v@) && x == digits_val(v@) && 0 <= x
                < 1_000_000_000_000_000,
            None => !(1 <= v@.len() <= 15 && all_digits(v@)),
        },
{
    if v.len() < 1 || v.len() > 15 {
        return None;
    }
    let mut acc: i64 = 0;
    let mut i: usize = 0;
    proof {
        assert(v@.take(0) =~= Seq::<u8>::empty());
    }
    while i < v.len()
        invariant
            0 <= i <= v@.len() <= 15,
            all_digits(v@.take(i as int)),
            acc == digits_val(v@.take(i as int)),
            0 <= acc,
        decreases v@.len() - i,
    {
        let b = v[i];
        if b < 48 || b > 57 {
            proof {
                assert(!is_digit(v@[i as int]));
            }
            return None;
        }
        proof {
            lemma_digits_bound_rec(v@.take(i as int));
            assert(v@.take(i + 1).drop_last() =~= v@.take(i as int));
            assert(v@.take(i + 1).last() == v@[i as int]);
            assert(all_digits(v@.take(i + 1))) by {
                assert(forall|t: int|
                    0 <= t < i ==> #[trigger] v@.take(i + 1)[t] == v@.take(i as int)[t]);
            }
        }
        acc = acc * 10 + ((b - 48) as i64);
        i += 1;
    }
    proof {
        assert(v@.take(v@.len() as int) =~= v@);
        lemma_digits_bound_rec(v@);
    }
    Some(acc)
}

/// Parses one row.  Succeeds with exactly the key and fixed-point value the
/// row denotes, and fails exactly on the rows the row grammar rejects.
pub fn parse(bytes: &Vec<u8>) -> (r: Option<Row>)
    ensures
        match r {
            Some(row) => spec_parse(bytes@) == Some((row.key@, row.value as int))
                && row.key@.len() <= MAX_KEY_LEN && -VAL_MAX < row.value < VAL_MAX,
            None => spec_parse(bytes@) is None,
        },
{
    let ghost s = bytes@;
    proof {
        assert(s.skip(0) =~= s);
    }
    let k = find_byte(bytes, 0, FIELD_SEP);
    if k == bytes.len() {
        return None;
    }
    if k > MAX_KEY_LEN {
        proof {
            assert(s.take(first_byte(s, FIELD_SEP)).len() > MAX_KEY_LEN);
        }
        return None;
    }
    let key = sub_bytes(bytes, 0, k);
    proof {
        assert(key@ =~= s.take(k as int));
    }
    let m = find_byte(bytes, k + 1, FIELD_SEP);
    let vf = sub_bytes(bytes, k + 1, m);
    let ghost rest = s.skip(k + 1);
    proof {
        assert(vf@ =~= rest.take(first_byte(rest, FIELD_SEP)));
    }
    match parse_fixed_point(&vf) {
        Some(value) => Some(Row { key, value }),
        None => None,
    }
}

/// Parses the value field into hundredths.
fn parse_fixed_point(vf: &Vec<u8>) -> (r: Option<i64>)
    ensures
        match r {
            Some(x) => parse_value(vf@) == Some(x as int) && -VAL_MAX < x < VAL_MAX,
            None => parse_value(vf@) is None,
        },
{
    let ghost t = vf@;
    let neg = vf.len() >= 1 && vf[0] == MINUS;
    let off: usize = if neg {
        1
    } else {
        0
    };
    let u = sub_bytes(vf, off, vf.len());
    proof {
        if neg {
            assert(u@ =~= t.drop_first());
        } else {
            assert(u@ =~= t);
        }
    }
    let fd = find_byte(&u, 0, DOT);
    proof {
        assert(u@.skip(0) =~= u@);
    }
    if fd == u.len() {
        match parse_digits(&u) {
            Some(x) => {
                proof {
                    let sg: int = if neg {
                        -1int
                    } else {
                        1int
                    };
                    assert(parse_value(t) == Some(sg * digits_val(u@) * 100));
                    assert(x * 100 < VAL_MAX);
                }
                let v: i64 = x * 100;
                if neg {
                    Some(-v)
                } else {
                    Some(v)
                }
            },
            None => None,
        }
    } else {
        let ip = sub_bytes(&u, 0, fd);
        let fp = sub_bytes(&u, fd + 1, u.len());
        proof {
            assert(ip@ =~= u@.take(fd as int));
            assert(fp@ =~= u@.skip(fd + 1));
        }
        if fp.len() < 1 || fp.len() > 2 {
            return None;
        }
        match parse_digits(&ip) {
            Some(x) => {
                match parse_digits(&fp) {
                    Some(f) => {
                        proof {
                            lemma_digits_bound_rec(fp@);
                            assert(fp@.len() == 1 ==> f < 10);
                            assert(fp@.len() <= 2 ==> f < 100);
                        }
                        let scale: i64 = if fp.len() == 1 {
                            10
                        } else {
                            1
                        };
                        let v: i64 = x * 100 + f * scale;
                        proof {
                            let sg: int = if neg {
                                -1int
                            } else {
                                1int
                            };
                            let scl: int = if fp@.len() == 1 {
                                10int
                            } else {
                                1int
                            };
                            assert(scale as int == scl);
                            assert(parse_value(t) == Some(
                                sg * (digits_val(ip@) * 100 + digits_val(fp@) * scl),
                            ));
                            assert(v < VAL_MAX);
                        }
                        if neg {
                            Some(-v)
                        } else {
                            Some(v)
                        }
                    },
                    None => None,
                }
            },
            None => None,
        }
    }
}

/// The rows the parser accepts among `lines`, in order.
pub open spec fn parsed_rows(lines: Seq<Seq<u8>>) -> Seq<(Seq<u8>, int)>
    decreases lines.len(),
{
    if lines.len() == 0 {
        Seq::<(Seq<u8>, int)>::empty()
    } else {
        let rest = parsed_rows(lines.drop_last());
        match spec_parse(lines.last()) {
            Some(p) => rest.push(p),
            None => rest,
        }
    }
}

proof fn lemma_fold_push(
    m: Map<Seq<u8>, crate::tree::Agg>,
    rows: Seq<(Seq<u8>, int)>,
    p: (Seq<u8>, int),
)
    ensures
        fold_updates(m, rows.push(p)) == spec_update(fold_updates(m, rows), p.0, p.1),
    decreases rows.len(),
{
    if rows.len() == 0 {
        assert(rows.push(p)[0] == p);
        assert(rows.push(p).drop_first() =~= Seq::<(Seq<u8>, int)>::empty());
        assert(fold_updates(m, rows.push(p)) == fold_updates(
            spec_update(m, p.0, p.1),
            rows.push(p).drop_first(),
        ));
        assert(fold_updates(spec_update(m, p.0, p.1), rows.push(p).drop_first())
            == spec_update(m, p.0, p.1));
        assert(fold_updates(m, rows) == m);
    } else {
        assert(rows.push(p)[0] == rows[0]);
        assert(rows.push(p).drop_first() =~= rows.drop_first().push(p));
        assert(fold_updates(m, rows.push(p)) == fold_updates(
            spec_update(m, rows[0].0, rows[0].1),
            rows.drop_first().push(p),
        ));
        lemma_fold_push(spec_update(m, rows[0].0, rows[0].1), rows.drop_first(), p);
        assert(fold_updates(m, rows) == fold_updates(
            spec_update(m, rows[0].0, rows[0].1),
            rows.drop_first(),
        ));
    }
}

/// Parses every line, folds each accepted row into the tree, and reports how
/// many rows the parser rejected instead of dropping them silently.
pub fn aggregate_lines(tree: &mut Tree, lines: &Vec<Vec<u8>>) -> (dropped: u64)
    requires
        old(tree).inv(),
        old(tree).total_updates() + lines@.len() <= u64::MAX as int,
    ensures
        final(tree).inv(),
        final(tree)@ == fold_updates(old(tree)@, parsed_rows(lines.deep_view())),
        final(tree).total_updates() == old(tree).total_updates() + parsed_rows(
            lines.deep_view(),
        ).len(),
        dropped as int == lines@.len() - parsed_rows(lines.deep_view()).len(),
{
    let ghost lv = lines.deep_view();
    let mut dropped: u64 = 0;
    let mut i: usize = 0;
    proof {
        assert(lv.take(0) =~~= Seq::<Seq<u8>>::empty());
        assert(usize::MAX as int <= u64::MAX as int);
    }
    while i < lines.len()
        invariant
            0 <= i <= lines@.len(),
            lv == lines.deep_view(),
            lv.len() == lines@.len(),
            tree.inv(),
            tree@ == fold_updates(old(tree)@, parsed_rows(lv.take(i as int))),
            tree.total_updates() == old(tree).total_updates() + parsed_rows(
                lv.take(i as int),
            ).len(),
            parsed_rows(lv.take(i as int)).len() + dropped as int == i,
            old(tree).total_updates() + lines@.len() <= u64::MAX as int,
        decreases lines@.len() - i,
    {
        proof {
            assert(lv[i as int] == lines@[i as int]@);
            assert(lv.take(i + 1).drop_last() =~~= lv.take(i as int));
            assert(lv.take(i + 1).last() == lv[i as int]);
        }
        match parse(&lines[i]) {
            Some(row) => {
                proof {
                    lemma_fold_push(
                        old(tree)@,
                        parsed_rows(lv.take(i as int)),
                        (row.key@, row.value as int),
                    );
                }
                tree.update(row.key, row.value);
            },
            None => {
                dropped += 1;
            },
        }
        i += 1;
    }
    proof {
        assert(lv.take(lv.len() as int) =~~= lv);
    }
    dropped
}

} // verus!
