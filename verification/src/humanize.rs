//! Humanizing byte sizes: repeated division by a radix until the amount
//! falls under it, and rendering with the matching magnitude prefix.

use vstd::prelude::*;

use crate::trusted::chars_to_string;

verus! {

/// Repeated division of `amount` by `radix`, at most `max_idx` times,
/// stopping as soon as the amount falls under the radix: the reduced
/// amount, and how many divisions were made.
pub open spec fn norm(amount: nat, radix: nat, max_idx: nat) -> (nat, nat)
    recommends
        radix >= 1,
    decreases max_idx,
{
    if amount >= radix && max_idx > 0 {
        let (a, k) = norm(amount / radix, radix, (max_idx - 1) as nat);
        (a, k + 1)
    } else {
        (amount, 0)
    }
}

/// The magnitude budget: a zero maximum index means no limit.
pub open spec fn magnitude_budget(max_idx: nat) -> nat {
    if max_idx == 0 {
        usize::MAX as nat
    } else {
        max_idx
    }
}

/// The decimal digits of a number, as characters, most significant first.
pub open spec fn dec_chars(n: nat) -> Seq<char>
    decreases n,
{
    if n < 10 {
        seq![(48 + n) as u32 as char]
    } else {
        dec_chars(n / 10).push((48 + n % 10) as u32 as char)
    }
}

/// The metric magnitude prefixes, by index.
pub open spec fn metric_prefix_chars(i: nat) -> Seq<char> {
    if i == 0 {
        ""@
    } else if i == 1 {
        "K"@
    } else if i == 2 {
        "M"@
    } else if i == 3 {
        "G"@
    } else if i == 4 {
        "T"@
    } else if i == 5 {
        "P"@
    } else if i == 6 {
        "E"@
    } else {
        "Z"@
    }
}

/// The binary magnitude prefixes, by index.
pub open spec fn binary_prefix_chars(i: nat) -> Seq<char> {
    if i == 0 {
        ""@
    } else if i == 1 {
        "Ki"@
    } else if i == 2 {
        "Mi"@
    } else if i == 3 {
        "Gi"@
    } else if i == 4 {
        "Ti"@
    } else if i == 5 {
        "Pi"@
    } else if i == 6 {
        "Ei"@
    } else {
        "Zi"@
    }
}

/// What a metric rendering of a byte amount says.
pub open spec fn metric_chars(amount: nat) -> Seq<char> {
    let (a, k) = norm(amount, 1000, 7);
    dec_chars(a) + " "@ + metric_prefix_chars(k) + "B"@
}

/// What a binary rendering of a byte amount says.
pub open spec fn binary_chars(amount: nat) -> Seq<char> {
    let (a, k) = norm(amount, 1024, 7);
    dec_chars(a) + " "@ + binary_prefix_chars(k) + "B"@
}

/// A quantity that a magnitude can be taken of: it has a numeric value,
/// and supports the division and comparison that normalizing needs.
pub trait Normalizable: Sized + Copy {
    /// The numeric value.
    spec fn nval(self) -> nat;

    /// Division, rounding down.
    fn div_by(self, other: Self) -> (r: Self)
        requires
            other.nval() >= 1,
        ensures
            r.nval() == self.nval() / other.nval(),
    ;

    /// Comparison.
    fn at_least(self, other: Self) -> (r: bool)
        ensures
            r == (self.nval() >= other.nval()),
    ;

    /// The quantity with a small given value.
    fn from_small(v: u16) -> (r: Self)
        ensures
            r.nval() == v as nat,
    ;
}

impl Normalizable for u128 {
    open spec fn nval(self) -> nat {
        self as nat
    }

    fn div_by(self, other: Self) -> (r: Self)
        ensures
            r.nval() == self.nval() / other.nval(),
    {
        self / other
    }

    fn at_least(self, other: Self) -> (r: bool)
        ensures
            r == (self.nval() >= other.nval()),
    {
        self >= other
    }

    fn from_small(v: u16) -> (r: Self)
        ensures
            r.nval() == v as nat,
    {
        v as u128
    }
}

/// Divide the amount by the radix until it falls under it, at most
/// `max_idx` times (a zero maximum meaning no limit): the reduced amount
/// and the number of divisions made.
pub fn normalize_magnitude<T: Normalizable>(amount: T, radix: T, max_idx: usize) -> (r: (T, usize))
    requires
        radix.nval() >= 1,
    ensures
        r.0.nval() == norm(amount.nval(), radix.nval(), magnitude_budget(max_idx as nat)).0,
        r.1 == norm(amount.nval(), radix.nval(), magnitude_budget(max_idx as nat)).1,
{
    let budget: usize = if max_idx == 0 {
        usize::MAX
    } else {
        max_idx
    };
    let ghost a0 = amount.nval();
    let ghost rv = radix.nval();
    let ghost m = budget as nat;
    let mut cur = amount;
    let mut unit_idx: usize = 0;
    while cur.at_least(radix) && unit_idx < budget
        invariant
            radix.nval() == rv,
            rv >= 1,
            unit_idx <= budget,
            budget as nat == m,
            norm(a0, rv, m) == (
                norm(cur.nval(), rv, (m - unit_idx) as nat).0,
                norm(cur.nval(), rv, (m - unit_idx) as nat).1 + unit_idx as nat,
            ),
        decreases budget - unit_idx,
    {
        cur = cur.div_by(radix);
        unit_idx = unit_idx + 1;
    }
    proof {
        assert(norm(cur.nval(), rv, (m - unit_idx) as nat) == (cur.nval(), 0nat));
    }
    (cur, unit_idx)
}

/// Normalize with the metric radix of 1000.
pub fn normalize_magnitude_metric<T: Normalizable>(amount: T, max_idx: usize) -> (r: (T, usize))
    ensures
        r.0.nval() == norm(amount.nval(), 1000, magnitude_budget(max_idx as nat)).0,
        r.1 == norm(amount.nval(), 1000, magnitude_budget(max_idx as nat)).1,
{
    normalize_magnitude(amount, T::from_small(1000), max_idx)
}

/// Normalize with the binary radix of 1024.
pub fn normalize_magnitude_binary<T: Normalizable>(amount: T, max_idx: usize) -> (r: (T, usize))
    ensures
        r.0.nval() == norm(amount.nval(), 1024, magnitude_budget(max_idx as nat)).0,
        r.1 == norm(amount.nval(), 1024, magnitude_budget(max_idx as nat)).1,
{
    normalize_magnitude(amount, T::from_small(1024), max_idx)
}

/// The metric magnitude prefix at an index.
fn metric_prefix(i: usize) -> (r: &'static str)
    ensures
        r@ == metric_prefix_chars(i as nat),
{
    if i == 0 {
        ""
    } else if i == 1 {
        "K"
    } else if i == 2 {
        "M"
    } else if i == 3 {
        "G"
    } else if i == 4 {
        "T"
    } else if i == 5 {
        "P"
    } else if i == 6 {
        "E"
    } else {
        "Z"
    }
}

/// The binary magnitude prefix at an index.
fn binary_prefix(i: usize) -> (r: &'static str)
    ensures
        r@ == binary_prefix_chars(i as nat),
{
    if i == 0 {
        ""
    } else if i == 1 {
        "Ki"
    } else if i == 2 {
        "Mi"
    } else if i == 3 {
        "Gi"
    } else if i == 4 {
        "Ti"
    } else if i == 5 {
        "Pi"
    } else if i == 6 {
        "Ei"
    } else {
        "Zi"
    }
}

/// The decimal digits of a number, as characters.
pub(crate) fn dec_char_vec(n: u128) -> (r: Vec<char>)
    ensures
        r@ == dec_chars(n as nat),
{
    let mut out: Vec<char> = Vec::new();
    push_dec_chars(n, &mut out);
    proof {
        assert(Seq::<char>::empty() + dec_chars(n as nat) =~= dec_chars(n as nat));
    }
    out
}

/// Append the decimal digits of a number as characters.
fn push_dec_chars(n: u128, out: &mut Vec<char>)
    ensures
        final(out)@ == old(out)@ + dec_chars(n as nat),
    decreases n,
{
    if n < 10 {
        let d: u32 = 48 + (n as u32);
        match crate::trusted::char_from_u32(d) {
            Some(c) => {
                out.push(c);
                proof {
                    assert(vstd::utf8::is_scalar(d));
                    assert(old(out)@ + dec_chars(n as nat) =~= out@);
                }
            },
            None => {
                proof {
                    assert(vstd::utf8::is_scalar(d));
                    assert(false);
                }
            },
        }
    } else {
        push_dec_chars(n / 10, out);
        let d: u32 = 48 + ((n % 10) as u32);
        match crate::trusted::char_from_u32(d) {
            Some(c) => {
                out.push(c);
                proof {
                    assert(vstd::utf8::is_scalar(d));
                    assert(old(out)@ + dec_chars(n as nat) =~= out@);
                }
            },
            None => {
                proof {
                    assert(vstd::utf8::is_scalar(d));
                    assert(false);
                }
            },
        }
    }
}

/// Render a byte amount with metric magnitude prefixes, e.g. `3 KB`.
pub fn bytes_to_metric(amount: u128) -> (r: String)
    ensures
        r@ == metric_chars(amount as nat),
{
    let (a, k) = normalize_magnitude_metric(amount, 7);
    let digits = dec_char_vec(a);
    let mut s = chars_to_string(&digits);
    s.append(" ");
    s.append(metric_prefix(k));
    s.append("B");
    s
}

/// Render a byte amount with binary magnitude prefixes, e.g. `3 KiB`.
pub fn bytes_to_binary(amount: u128) -> (r: String)
    ensures
        r@ == binary_chars(amount as nat),
{
    let (a, k) = normalize_magnitude_binary(amount, 7);
    let digits = dec_char_vec(a);
    let mut s = chars_to_string(&digits);
    s.append(" ");
    s.append(binary_prefix(k));
    s.append("B");
    s
}

} // verus!
