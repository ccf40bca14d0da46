//! Segment file names.
//!
//! A segment file is named `<gen>.log`, where `<gen>` is the decimal
//! form of its generation number without leading zeros.  Opening a
//! directory means listing it, keeping the names of that shape, and
//! sorting their generations ascending.

use vstd::prelude::*;

verus! {

/// The canonical decimal digits of `n`, most significant first.
pub open spec fn dec_digits(n: u64) -> Seq<u8>
    decreases n,
{
    if n < 10 {
        seq![(0x30 + n) as u8]
    } else {
        dec_digits(n / 10).push((0x30 + n % 10) as u8)
    }
}

/// The bytes of `.log`.
pub open spec fn log_ext() -> Seq<u8> {
    seq![0x2eu8, 0x6cu8, 0x6fu8, 0x67u8]
}

/// The file name `<gen>.log`, as bytes.
pub open spec fn log_name(gen: u64) -> Seq<u8> {
    dec_digits(gen) + log_ext()
}

/// The value of a digit string read most significant first.
pub open spec fn dec_value(ds: Seq<u8>) -> int
    decreases ds.len(),
{
    if ds.len() == 0 {
        0
    } else {
        dec_value(ds.drop_last()) * 10 + (ds.last() - 0x30)
    }
}

/// True for a digit string that some number writes canonically: all
/// digits, nonempty, and no leading zero unless it is exactly `0`.
pub open spec fn canonical_digits(ds: Seq<u8>) -> bool {
    &&& ds.len() >= 1
    &&& (forall|i: int| 0 <= i < ds.len() ==> 0x30 <= #[trigger] ds[i] <= 0x39)
    &&& (ds.len() > 1 ==> ds[0] != 0x30)
}

/// The canonical digits of `n` are canonical and value back to `n`.
pub proof fn lemma_dec_digits_canonical(n: u64)
    ensures
        canonical_digits(dec_digits(n)),
        dec_value(dec_digits(n)) == n,
    decreases n,
{
    if n < 10 {
        assert(dec_digits(n) == seq![(0x30 + n) as u8]);
        assert(dec_digits(n).drop_last() =~= Seq::<u8>::empty());
        assert(dec_digits(n).last() == (0x30 + n) as u8);
        assert(dec_value(dec_digits(n)) == dec_value(Seq::<u8>::empty()) * 10 + ((0x30 + n) as u8
            - 0x30));
    } else {
        lemma_dec_digits_canonical(n / 10);
        let ds = dec_digits(n);
        let prev = dec_digits(n / 10);
        assert(ds.drop_last() =~= prev);
        assert(ds.last() == (0x30 + n % 10) as u8);
        assert(ds[0] == prev[0]);
        assert(prev.len() > 1 ==> prev[0] != 0x30);
        assert(prev[0] != 0x30) by {
            if n / 10 < 10 {
                // a quotient of ten or more is at least one
                assert(n / 10 >= 1);
                assert(prev == seq![(0x30 + n / 10) as u8]);
            } else {
                lemma_dec_digits_canonical(n / 100);
                assert(prev.len() >= 2) by {
                    assert(prev == dec_digits((n / 10) / 10).push((0x30 + (n / 10) % 10) as u8));
                    assert(dec_digits((n / 10) / 10).len() >= 1) by {
                        lemma_dec_digits_canonical((n / 10) / 10);
                    }
                }
            }
        }
        assert(dec_value(ds) == dec_value(prev) * 10 + ((0x30 + n % 10) as u8 - 0x30));
        assert(n / 10 * 10 + n % 10 == n);
    }
}

/// A canonical digit string is the canonical form of its own value.
pub proof fn lemma_canonical_digits_roundtrip(ds: Seq<u8>)
    requires
        canonical_digits(ds),
        dec_value(ds) <= u64::MAX,
    ensures
        0 <= dec_value(ds),
        dec_digits(dec_value(ds) as u64) == ds,
    decreases ds.len(),
{
    let d = (ds.last() - 0x30) as int;
    let prefix = ds.drop_last();
    if ds.len() == 1 {
        assert(dec_value(ds) == d);
        assert(dec_digits(d as u64) =~= ds);
    } else {
        assert(canonical_digits(prefix)) by {
            assert(forall|i: int| 0 <= i < prefix.len() ==> prefix[i] == ds[i]);
        }
        assert(prefix[0] != 0x30);
        assert(dec_value(prefix) >= 1) by {
            lemma_canonical_positive(prefix);
        }
        assert(dec_value(prefix) * 10 <= dec_value(ds)) by {
            assert(d >= 0);
        }
        lemma_canonical_digits_roundtrip(prefix);
        let v = dec_value(ds);
        assert(v == dec_value(prefix) * 10 + d);
        assert(v >= 10);
        assert(v as u64 / 10 == dec_value(prefix)) by (nonlinear_arith)
            requires
                v == dec_value(prefix) * 10 + d,
                0 <= d < 10,
                0 <= dec_value(prefix) <= u64::MAX,
                v <= u64::MAX,
        ;
        assert(v as u64 % 10 == d) by (nonlinear_arith)
            requires
                v == dec_value(prefix) * 10 + d,
                0 <= d < 10,
                0 <= dec_value(prefix),
                v <= u64::MAX,
        ;
        assert(dec_digits(v as u64) == dec_digits(dec_value(prefix) as u64).push(
            (0x30 + d) as u8,
        ));
        assert(prefix.push(ds.last()) =~= ds);
    }
}

/// A canonical digit string with a nonzero leading digit has a
/// positive value.
pub proof fn lemma_canonical_positive(ds: Seq<u8>)
    requires
        canonical_digits(ds),
        ds[0] != 0x30,
    ensures
        dec_value(ds) >= 1,
    decreases ds.len(),
{
    assert(0x30 <= ds.last() <= 0x39) by {
        assert(0x30 <= ds[ds.len() - 1] <= 0x39);
    }
    if ds.len() == 1 {
        assert(ds.drop_last() =~= Seq::<u8>::empty());
        assert(ds.last() == ds[0]);
        assert(dec_value(ds) == dec_value(Seq::<u8>::empty()) * 10 + (ds.last() - 0x30));
    } else {
        let prefix = ds.drop_last();
        assert(canonical_digits(prefix)) by {
            assert(forall|i: int| 0 <= i < prefix.len() ==> prefix[i] == ds[i]);
        }
        assert(prefix[0] == ds[0]);
        lemma_canonical_positive(prefix);
        assert(dec_value(ds) == dec_value(prefix) * 10 + (ds.last() - 0x30));
        assert(dec_value(prefix) * 10 >= 10) by (nonlinear_arith)
            requires
                dec_value(prefix) >= 1,
        ;
    }
}

/// The value of a prefix of a digit string never exceeds the whole.
pub proof fn lemma_dec_value_prefix(ds: Seq<u8>, k: int)
    requires
        0 <= k <= ds.len(),
        forall|i: int| 0 <= i < ds.len() ==> 0x30 <= #[trigger] ds[i] <= 0x39,
    ensures
        0 <= dec_value(ds.take(k)) <= dec_value(ds),
    decreases ds.len() - k,
{
    if k == ds.len() {
        assert(ds.take(k) =~= ds);
        lemma_dec_value_nonneg(ds);
    } else {
        lemma_dec_value_prefix(ds, k + 1);
        let t = ds.take(k + 1);
        assert(t.drop_last() =~= ds.take(k));
        assert(t.last() == ds[k]);
        assert(dec_value(ds.take(k)) * 10 + (ds[k] - 0x30) == dec_value(t));
        lemma_dec_value_nonneg(ds.take(k));
        assert(dec_value(ds.take(k)) <= dec_value(ds.take(k)) * 10 + (ds[k] - 0x30))
            by (nonlinear_arith)
            requires
                dec_value(ds.take(k)) >= 0,
                ds[k] >= 0x30,
        ;
    }
}

/// Digit strings have nonnegative values.
pub proof fn lemma_dec_value_nonneg(ds: Seq<u8>)
    requires
        forall|i: int| 0 <= i < ds.len() ==> 0x30 <= #[trigger] ds[i] <= 0x39,
    ensures
        dec_value(ds) >= 0,
    decreases ds.len(),
{
    if ds.len() > 0 {
        assert(forall|i: int|
            0 <= i < ds.drop_last().len() ==> 0x30 <= #[trigger] ds.drop_last()[i] <= 0x39);
        lemma_dec_value_nonneg(ds.drop_last());
        assert(dec_value(ds.drop_last()) * 10 >= 0) by (nonlinear_arith)
            requires
                dec_value(ds.drop_last()) >= 0,
        ;
    }
}

/// Writes `gen` in canonical decimal.
pub fn u64_to_dec(n: u64) -> (r: Vec<u8>)
    ensures
        r@ == dec_digits(n),
    decreases n,
{
    if n < 10 {
        let mut v: Vec<u8> = Vec::new();
        v.push(0x30 + (n as u8));
        proof {
            assert(v@ =~= dec_digits(n));
        }
        v
    } else {
        let mut v = u64_to_dec(n / 10);
        v.push(0x30 + ((n % 10) as u8));
        v
    }
}

/// The file name `<gen>.log` for a generation, as bytes.
pub fn log_file_name(gen: u64) -> (r: Vec<u8>)
    ensures
        r@ == log_name(gen),
{
    let mut v = u64_to_dec(gen);
    v.push(0x2e);
    v.push(0x6c);
    v.push(0x6f);
    v.push(0x67);
    proof {
        assert(v@ =~= log_name(gen));
    }
    v
}

/// The path of the segment file for a generation under a directory:
/// the directory's bytes, a path separator, and `<gen>.log`.
pub fn log_path(dir: &Vec<u8>, gen: u64) -> (r: Vec<u8>)
    ensures
        r@ == dir@ + seq![0x2fu8] + log_name(gen),
{
    let mut v: Vec<u8> = Vec::new();
    let mut d = dir.clone();
    v.append(&mut d);
    v.push(0x2f);
    let mut name = log_file_name(gen);
    v.append(&mut name);
    v
}

/// Reads a file name of the shape `<gen>.log` back into its
/// generation number.  Returns `None` for any other name, including
/// non-canonical digits and generations that overflow 64 bits.
pub fn parse_log_name(name: &Vec<u8>) -> (r: Option<u64>)
    ensures
        r matches Some(g) ==> name@ == log_name(g),
        r is None ==> forall|g: u64| name@ != log_name(g),
{
    let n = name.len();
    if n < 5 {
        proof {
            assert forall|g: u64| name@ != log_name(g) by {
                lemma_dec_digits_canonical(g);
            }
        }
        return None;
    }
    let e1 = name[n - 4];
    let e2 = name[n - 3];
    let e3 = name[n - 2];
    let e4 = name[n - 1];
    if !(e1 == 0x2e && e2 == 0x6c && e3 == 0x6f && e4 == 0x67) {
        proof {
            assert forall|g: u64| name@ != log_name(g) by {
                lemma_dec_digits_canonical(g);
                if name@ == log_name(g) {
                    let dl = dec_digits(g).len() as int;
                    assert(name@[dl] == 0x2e && name@[dl + 1] == 0x6c && name@[dl + 2] == 0x6f
                        && name@[dl + 3] == 0x67);
                }
            }
        }
        return None;
    }
    let ghost digits = name@.take(n - 4);
    proof {
        assert forall|g: u64| name@ == log_name(g) implies digits == dec_digits(g) by {
            assert(name@.take(n - 4) =~= dec_digits(g)) by {
                lemma_dec_digits_canonical(g);
            }
        }
    }
    // scan the digit part, most significant first
    let mut acc: u64 = 0;
    let mut i: usize = 0;
    let dn = n - 4;
    while i < dn
        invariant
            0 <= i <= dn,
            dn == n - 4,
            n == name@.len(),
            n >= 5,
            digits == name@.take(dn as int),
            forall|j: int| 0 <= j < i ==> 0x30 <= #[trigger] name@[j] <= 0x39,
            acc as int == dec_value(name@.take(i as int)),
        decreases dn - i,
    {
        let c = name[i];
        if c < 0x30 || c > 0x39 {
            proof {
                assert forall|g: u64| name@ != log_name(g) by {
                    if name@ == log_name(g) {
                        lemma_dec_digits_canonical(g);
                        assert(digits[i as int] == name@[i as int]);
                    }
                }
            }
            return None;
        }
        let d = c - 0x30;
        proof {
            assert(name@.take(i + 1 as int).drop_last() =~= name@.take(i as int));
            assert(name@.take(i + 1 as int).last() == c);
        }
        if acc > (u64::MAX - (d as u64)) / 10 {
            proof {
                assert forall|g: u64| name@ != log_name(g) by {
                    if name@ == log_name(g) {
                        lemma_dec_digits_canonical(g);
                        assert(forall|j: int|
                            0 <= j < digits.len() ==> 0x30 <= #[trigger] digits[j] <= 0x39);
                        assert(forall|j: int|
                            0 <= j < digits.len() ==> digits[j] == name@[j]);
                        assert(digits =~= dec_digits(g));
                        assert(dec_value(digits) == g);
                        lemma_dec_value_prefix(digits, i + 1);
                        assert(digits.take(i + 1) =~= name@.take(i + 1 as int));
                        assert(dec_value(name@.take(i + 1 as int)) <= g);
                        assert(acc * 10 + d > u64::MAX) by (nonlinear_arith)
                            requires
                                acc > (u64::MAX - d) / 10,
                                0 <= d < 10,
                                acc >= 0,
                        ;
                    }
                }
            }
            return None;
        }
        proof {
            assert(acc * 10 + d <= u64::MAX) by (nonlinear_arith)
                requires
                    acc <= (u64::MAX - d) / 10,
                    0 <= d < 10,
                    acc >= 0,
            ;
        }
        acc = acc * 10 + (d as u64);
        i += 1;
    }
    // the digit part must be canonical: nonempty, no leading zero
    if dn == 0 {
        proof {
            assert forall|g: u64| name@ != log_name(g) by {
                lemma_dec_digits_canonical(g);
            }
        }
        return None;
    }
    if dn > 1 && name[0] == 0x30 {
        proof {
            assert forall|g: u64| name@ != log_name(g) by {
                if name@ == log_name(g) {
                    lemma_dec_digits_canonical(g);
                    assert(digits[0] == name@[0]);
                }
            }
        }
        return None;
    }
    proof {
        assert(digits =~= name@.take(dn as int));
        assert(canonical_digits(digits)) by {
            assert(forall|j: int| 0 <= j < digits.len() ==> digits[j] == name@[j]);
        }
        lemma_canonical_digits_roundtrip(digits);
        assert(name@ =~= digits + log_ext());
    }
    Some(acc)
}

/// The generations named by the given file names, each exactly once,
/// sorted ascending; names of any other shape are ignored, as a
/// directory scan ignores other files.
pub fn sorted_gen_list(names: &Vec<Vec<u8>>) -> (r: Vec<u64>)
    ensures
        forall|i: int, j: int| 0 <= i < j < r@.len() ==> r@[i] < r@[j],
        forall|g: u64|
            (#[trigger] r@.contains(g)) <==> exists|i: int|
                0 <= i < names@.len() && (#[trigger] names@[i])@ == log_name(g),
{
    let mut r: Vec<u64> = Vec::new();
    let mut i: usize = 0;
    while i < names.len()
        invariant
            i <= names@.len(),
            forall|p: int, q: int| 0 <= p < q < r@.len() ==> r@[p] < r@[q],
            forall|g: u64|
                (#[trigger] r@.contains(g)) <==> exists|j: int|
                    0 <= j < i && (#[trigger] names@[j])@ == log_name(g),
        decreases names@.len() - i,
    {
        let ghost r0 = r@;
        match parse_log_name(&names[i]) {
            Some(g) => {
                insert_sorted(&mut r, g);
                proof {
                    assert forall|g2: u64| (#[trigger] r@.contains(g2)) implies exists|j: int|
                        0 <= j < i + 1 && (#[trigger] names@[j])@ == log_name(g2) by {
                        if g2 == g {
                            assert(names@[i as int]@ == log_name(g2));
                        } else {
                            assert(r0.contains(g2));
                        }
                    }
                    assert forall|g2: u64|
                        (exists|j: int| 0 <= j < i + 1 && (#[trigger] names@[j])@ == log_name(g2))
                        implies #[trigger] r@.contains(g2) by {
                        let j = choose|j: int|
                            0 <= j < i + 1 && (#[trigger] names@[j])@ == log_name(g2);
                        if j < i {
                            assert(r0.contains(g2));
                        } else {
                            // two names for the same file are the same name
                            assert(log_name(g2) == log_name(g));
                            lemma_dec_digits_canonical(g);
                            lemma_dec_digits_canonical(g2);
                            assert(dec_digits(g2) =~= log_name(g2).take(
                                log_name(g2).len() - 4,
                            ));
                            assert(dec_digits(g) =~= log_name(g).take(log_name(g).len() - 4));
                            assert(g2 == g);
                        }
                    }
                }
            },
            None => {
                proof {
                    assert forall|g2: u64| (#[trigger] r@.contains(g2)) implies exists|j: int|
                        0 <= j < i + 1 && (#[trigger] names@[j])@ == log_name(g2) by {
                        assert(r0.contains(g2));
                    }
                    assert forall|g2: u64|
                        (exists|j: int| 0 <= j < i + 1 && (#[trigger] names@[j])@ == log_name(g2))
                        implies #[trigger] r@.contains(g2) by {
                        let j = choose|j: int|
                            0 <= j < i + 1 && (#[trigger] names@[j])@ == log_name(g2);
                        if j < i {
                            assert(r0.contains(g2));
                        }
                    }
                }
            },
        }
        i += 1;
    }
    r
}

/// Inserts `g` into a strictly sorted vector, keeping it strictly
/// sorted; a generation already present stays present once.
fn insert_sorted(r: &mut Vec<u64>, g: u64)
    requires
        forall|p: int, q: int| 0 <= p < q < old(r)@.len() ==> old(r)@[p] < old(r)@[q],
    ensures
        forall|p: int, q: int| 0 <= p < q < final(r)@.len() ==> final(r)@[p] < final(r)@[q],
        forall|g2: u64|
            (#[trigger] final(r)@.contains(g2)) <==> (old(r)@.contains(g2) || g2 == g),
{
    let ghost r0 = r@;
    let mut i: usize = 0;
    while i < r.len() && r[i] < g
        invariant
            r@ == r0,
            i <= r@.len(),
            forall|p: int| 0 <= p < i ==> r@[p] < g,
        decreases r@.len() - i,
    {
        i += 1;
    }
    if i < r.len() {
        let cur = r[i];
        if cur == g {
            proof {
                assert forall|g2: u64|
                    (#[trigger] r@.contains(g2)) <==> (r0.contains(g2) || g2 == g) by {
                    if g2 == g {
                        assert(r@[i as int] == g2);
                    }
                }
            }
            return ;
        }
    }
    r.insert(i, g);
    proof {
        assert(r@ == r0.insert(i as int, g));
        assert forall|p: int, q: int| 0 <= p < q < r@.len() implies r@[p] < r@[q] by {
            if q < i {
                assert(r@[p] == r0[p] && r@[q] == r0[q]);
            } else if p > i {
                assert(r@[p] == r0[p - 1] && r@[q] == r0[q - 1]);
            } else if p < i && q == i {
                assert(r@[p] == r0[p]);
            } else if p == i {
                assert(r@[q] == r0[q - 1]);
                assert(r0[q - 1] >= r0[i as int]);
                assert(r0[i as int] != g);
                assert(r0[i as int] >= g);
            } else {
                assert(p < i && q > i);
                assert(r@[p] == r0[p] && r@[q] == r0[q - 1]);
                assert(r0[q - 1] >= r0[i as int]);
                assert(r0[i as int] != g || true);
            }
        }
        assert forall|g2: u64|
            (#[trigger] r@.contains(g2)) <==> (r0.contains(g2) || g2 == g) by {
            if r@.contains(g2) {
                let p = choose|p: int| 0 <= p < r@.len() && r@[p] == g2;
                if p < i {
                    assert(r0[p] == g2);
                } else if p > i {
                    assert(r0[p - 1] == g2);
                }
            }
            if r0.contains(g2) {
                let p = choose|p: int| 0 <= p < r0.len() && r0[p] == g2;
                if p < i {
                    assert(r@[p] == g2);
                } else {
                    assert(r@[p + 1] == g2);
                }
            }
            if g2 == g {
                assert(r@[i as int] == g2);
            }
        }
    }
}

} // verus!
