use vstd::prelude::*;
use crate::text::{decimal, digit_char};
use crate::calibration::{
    bytes_text, datapoints_text, dump_text, packets_text, rows_view, Datapoint, PsyLinkDataset,
};

verus! {

/// The bytes of an ASCII text.
pub open spec fn ascii(s: Seq<char>) -> Seq<u8> {
    Seq::new(s.len(), |i: int| s[i] as u8)
}

/// Whether a byte is an ASCII decimal digit.
pub open spec fn is_digit(b: u8) -> bool {
    48 <= b <= 57
}

/// The value of a string of ASCII decimal digits.
pub open spec fn digits_value(s: Seq<u8>) -> nat
    decreases s.len(),
{
    if s.len() == 0 {
        0
    } else {
        digits_value(s.drop_last()) * 10 + (s.last() - 48) as nat
    }
}

/// Whether a number of the given decimal notation starts at `pos` in `b` and
/// is followed by a byte that is not a digit.
pub open spec fn number_at(b: Seq<u8>, pos: int, n: nat) -> bool {
    &&& 0 <= pos
    &&& pos + decimal(n).len() < b.len()
    &&& b.subrange(pos, pos + decimal(n).len()) == ascii(decimal(n))
    &&& !is_digit(b[pos + decimal(n).len()])
}

proof fn lemma_digit_char_byte(d: nat)
    requires
        d < 10,
    ensures
        digit_char(d) as u8 == 48 + d,
{
}

proof fn lemma_ascii_push(s: Seq<char>, c: char)
    ensures
        ascii(s.push(c)) == ascii(s).push(c as u8),
{
    assert(ascii(s.push(c)) =~= ascii(s).push(c as u8));
}

/// The decimal notation of `n` is a non-empty string of digits whose value is `n`.
pub proof fn lemma_decimal_digits(n: nat)
    ensures
        decimal(n).len() >= 1,
        ascii(decimal(n)).len() == decimal(n).len(),
        forall|i: int| 0 <= i < decimal(n).len() ==> #[trigger] is_digit(ascii(decimal(n))[i]),
        digits_value(ascii(decimal(n))) == n,
    decreases n,
{
    if n < 10 {
        lemma_digit_char_byte(n);
        let a = ascii(decimal(n));
        assert(a =~= seq![(48 + n) as u8]);
        assert(a.drop_last() =~= Seq::<u8>::empty());
        assert(digits_value(a.drop_last()) == 0);
    } else {
        lemma_decimal_digits(n / 10);
        lemma_digit_char_byte(n % 10);
        lemma_ascii_push(decimal(n / 10), digit_char(n % 10));
        let a = ascii(decimal(n));
        assert(a.drop_last() =~= ascii(decimal(n / 10)));
        assert(a.last() == 48 + n % 10);
        assert(n == (n / 10) * 10 + n % 10);
        assert forall|i: int| 0 <= i < decimal(n).len() implies #[trigger] is_digit(a[i]) by {
            if i < decimal(n).len() - 1 {
                assert(a[i] == ascii(decimal(n / 10))[i]);
            }
        }
    }
}

/// A prefix of a digit string has a value no larger than the whole.
proof fn lemma_prefix_value_le(s: Seq<u8>, k: int)
    requires
        0 <= k <= s.len(),
        forall|i: int| 0 <= i < s.len() ==> #[trigger] is_digit(s[i]),
    ensures
        digits_value(s.subrange(0, k)) <= digits_value(s),
    decreases s.len(),
{
    if k < s.len() {
        let t = s.drop_last();
        assert forall|i: int| 0 <= i < t.len() implies #[trigger] is_digit(t[i]) by {
            assert(t[i] == s[i]);
        }
        lemma_prefix_value_le(t, k);
        assert(t.subrange(0, k) =~= s.subrange(0, k));
    } else {
        assert(s.subrange(0, k) =~= s);
    }
}

/// Decimal notation starts with a zero only for zero itself.
proof fn lemma_decimal_no_leading_zero(n: nat)
    ensures
        decimal(n).len() >= 1,
        n >= 1 ==> ascii(decimal(n))[0] != 48,
        n == 0 ==> decimal(n).len() == 1,
    decreases n,
{
    lemma_decimal_digits(n);
    if n < 10 {
        lemma_digit_char_byte(n);
    } else {
        lemma_decimal_no_leading_zero(n / 10);
        lemma_ascii_push(decimal(n / 10), digit_char(n % 10));
        assert(ascii(decimal(n))[0] == ascii(decimal(n / 10))[0]);
    }
}

/// A digit string without a leading zero is the decimal notation of its value.
proof fn lemma_canonical_digits(s: Seq<u8>)
    requires
        s.len() >= 1,
        forall|i: int| 0 <= i < s.len() ==> #[trigger] is_digit(s[i]),
        s.len() == 1 || s[0] != 48,
    ensures
        ascii(decimal(digits_value(s))) == s,
    decreases s.len(),
{
    let t = s.drop_last();
    let d = (s.last() - 48) as nat;
    assert(is_digit(s[s.len() - 1]));
    lemma_digit_char_byte(d);
    if s.len() == 1 {
        assert(t =~= Seq::<u8>::empty());
        assert(digits_value(t) == 0);
        assert(digits_value(s) == d);
        assert(ascii(decimal(d)) =~= s);
    } else {
        assert forall|i: int| 0 <= i < t.len() implies #[trigger] is_digit(t[i]) by {
            assert(t[i] == s[i]);
        }
        lemma_canonical_digits(t);
        let v = digits_value(t);
        lemma_prefix_value_le(t, 1);
        let first = t.subrange(0, 1);
        assert(first.drop_last() =~= Seq::<u8>::empty());
        assert(digits_value(first.drop_last()) == 0);
        assert(first.last() == s[0]);
        assert(is_digit(s[0]));
        assert(digits_value(first) == digits_value(first.drop_last()) * 10 + (first.last() - 48) as nat);
        assert(digits_value(first) >= 1);
        assert(digits_value(s) == v * 10 + d);
        assert((v * 10 + d) / 10 == v && (v * 10 + d) % 10 == d);
        lemma_ascii_push(decimal(v), digit_char(d));
        assert(ascii(decimal(v * 10 + d)) =~= s);
    }
}

/// Reads the run of digits that starts at `pos` as a number no larger than
/// `max`. Fails when there is no digit there or the number exceeds `max`.
pub fn parse_number(b: &[u8], pos: usize, max: u64) -> (r: Option<(u64, usize)>)
    requires
        pos <= b@.len(),
    ensures
        r matches Some((v, next)) ==> {
            &&& pos < next <= b@.len()
            &&& v <= max
            &&& v == digits_value(b@.subrange(pos as int, next as int))
            &&& b@.subrange(pos as int, next as int) == ascii(decimal(v as nat))
            &&& forall|i: int| pos <= i < next ==> #[trigger] is_digit(b@[i])
            &&& (next == b@.len() || !is_digit(b@[next as int]))
        },
        forall|n: nat|
            n <= max && #[trigger] number_at(b@, pos as int, n) ==> r == Some(
                (n as u64, (pos + decimal(n).len()) as usize),
            ),
{
    let mut i: usize = pos;
    let mut v: u64 = 0;
    assert(b@.subrange(pos as int, pos as int) =~= Seq::<u8>::empty());
    while i < b.len() && b[i] >= 48 && b[i] <= 57
        invariant
            pos <= i <= b@.len(),
            v <= max,
            v == digits_value(b@.subrange(pos as int, i as int)),
            forall|k: int| pos <= k < i ==> #[trigger] is_digit(b@[k]),
            forall|n: nat|
                n <= max && #[trigger] number_at(b@, pos as int, n) ==> i <= pos + decimal(n).len()
                    && v <= n,
        decreases b@.len() - i,
    {
        let d: u64 = (b[i] - 48) as u64;
        let ghost next = b@.subrange(pos as int, i + 1);
        assert(next.drop_last() =~= b@.subrange(pos as int, i as int));
        assert forall|n: nat| n <= max && #[trigger] number_at(b@, pos as int, n) implies i + 1
            <= pos + decimal(n).len() && digits_value(next) <= n by {
            lemma_decimal_digits(n);
            let len = decimal(n).len();
            let a = ascii(decimal(n));
            if i == pos + len {
                assert(!is_digit(b@[i as int]));
            }
            assert(next =~= a.subrange(0, i + 1 - pos));
            lemma_prefix_value_le(a, i + 1 - pos);
        }
        if d > max || v > (max - d) / 10 {
            proof {
                if d <= max {
                    assert(v * 10 + d > max) by (nonlinear_arith)
                        requires
                            v > (max - d) / 10,
                            d <= max,
                    ;
                }
                assert forall|n: nat| n <= max && #[trigger] number_at(b@, pos as int, n) implies false by {
                }
            }
            return None;
        }
        assert(v * 10 + d <= max) by (nonlinear_arith)
            requires
                v <= (max - d) / 10,
                d <= 9,
        ;
        v = v * 10 + d;
        i = i + 1;
    }
    if i == pos {
        proof {
            assert forall|n: nat| n <= max && #[trigger] number_at(b@, pos as int, n) implies false by {
                lemma_decimal_digits(n);
                let a = ascii(decimal(n));
                assert(b@[pos as int] == b@.subrange(pos as int, pos + decimal(n).len())[0]);
                assert(b@[pos as int] == a[0]);
                assert(is_digit(a[0]));
            }
        }
        return None;
    }
    if i - pos > 1 && b[pos] == 48 {
        proof {
            assert forall|n: nat| n <= max && #[trigger] number_at(b@, pos as int, n) implies false by {
                lemma_decimal_digits(n);
                lemma_decimal_no_leading_zero(n);
                let len = decimal(n).len();
                let a = ascii(decimal(n));
                if i < pos + len {
                    assert(b@[i as int] == b@.subrange(pos as int, pos + len)[i - pos]);
                    assert(is_digit(a[i - pos]));
                }
                assert(b@[pos as int] == b@.subrange(pos as int, pos + len)[0]);
            }
        }
        return None;
    }
    proof {
        let digits = b@.subrange(pos as int, i as int);
        assert forall|k: int| 0 <= k < digits.len() implies #[trigger] is_digit(digits[k]) by {
            assert(digits[k] == b@[pos + k]);
        }
        assert(digits[0] == b@[pos as int]);
        lemma_canonical_digits(digits);
        assert forall|n: nat| n <= max && #[trigger] number_at(b@, pos as int, n) implies i == pos
            + decimal(n).len() && v == n by {
            lemma_decimal_digits(n);
            let len = decimal(n).len();
            let a = ascii(decimal(n));
            if i < pos + len {
                assert(b@[i as int] == b@.subrange(pos as int, pos + len)[i - pos]);
                assert(b@[i as int] == a[i - pos]);
                assert(is_digit(a[i - pos]));
            }
        }
    }
    Some((v, i))
}

pub open spec fn datapoint_text(d: Datapoint) -> Seq<char> {
    "("@ + decimal(d.packet_index as nat) + ","@ + decimal(d.label as nat) + "),"@
}

pub open spec fn byte_text(x: u8) -> Seq<char> {
    decimal(x as nat) + ","@
}

pub open spec fn row_text(r: Seq<u8>) -> Seq<char> {
    "["@ + bytes_text(r) + "],\n"@
}

spec fn datapoints_text_from(ds: Seq<Datapoint>, k: int) -> Seq<char>
    decreases ds.len() - k,
{
    if k < 0 || k >= ds.len() {
        Seq::empty()
    } else {
        datapoint_text(ds[k]) + datapoints_text_from(ds, k + 1)
    }
}

spec fn bytes_text_from(r: Seq<u8>, k: int) -> Seq<char>
    decreases r.len() - k,
{
    if k < 0 || k >= r.len() {
        Seq::empty()
    } else {
        byte_text(r[k]) + bytes_text_from(r, k + 1)
    }
}

spec fn packets_text_from(rows: Seq<Seq<u8>>, k: int) -> Seq<char>
    decreases rows.len() - k,
{
    if k < 0 || k >= rows.len() {
        Seq::empty()
    } else {
        row_text(rows[k]) + packets_text_from(rows, k + 1)
    }
}

proof fn lemma_datapoints_split(ds: Seq<Datapoint>, k: int)
    requires
        0 <= k <= ds.len(),
    ensures
        datapoints_text(ds) == datapoints_text(ds.subrange(0, k)) + datapoints_text_from(ds, k),
    decreases ds.len() - k,
{
    if k == ds.len() {
        assert(ds.subrange(0, k) =~= ds);
        assert(datapoints_text(ds) + Seq::<char>::empty() =~= datapoints_text(ds));
    } else {
        lemma_datapoints_split(ds, k + 1);
        let sub = ds.subrange(0, k + 1);
        assert(sub.drop_last() =~= ds.subrange(0, k));
        assert(datapoints_text(sub) =~= datapoints_text(ds.subrange(0, k)) + datapoint_text(ds[k]));
        assert(datapoints_text(ds) =~= datapoints_text(ds.subrange(0, k)) + datapoints_text_from(
            ds,
            k,
        ));
    }
}

proof fn lemma_bytes_split(r: Seq<u8>, k: int)
    requires
        0 <= k <= r.len(),
    ensures
        bytes_text(r) == bytes_text(r.subrange(0, k)) + bytes_text_from(r, k),
    decreases r.len() - k,
{
    if k == r.len() {
        assert(r.subrange(0, k) =~= r);
        assert(bytes_text(r) + Seq::<char>::empty() =~= bytes_text(r));
    } else {
        lemma_bytes_split(r, k + 1);
        let sub = r.subrange(0, k + 1);
        assert(sub.drop_last() =~= r.subrange(0, k));
        assert(bytes_text(sub) =~= bytes_text(r.subrange(0, k)) + byte_text(r[k]));
        assert(bytes_text(r) =~= bytes_text(r.subrange(0, k)) + bytes_text_from(r, k));
    }
}

proof fn lemma_packets_split(rows: Seq<Seq<u8>>, k: int)
    requires
        0 <= k <= rows.len(),
    ensures
        packets_text(rows) == packets_text(rows.subrange(0, k)) + packets_text_from(rows, k),
    decreases rows.len() - k,
{
    if k == rows.len() {
        assert(rows.subrange(0, k) =~= rows);
        assert(packets_text(rows) + Seq::<char>::empty() =~= packets_text(rows));
    } else {
        lemma_packets_split(rows, k + 1);
        let sub = rows.subrange(0, k + 1);
        assert(sub.drop_last() =~= rows.subrange(0, k));
        assert(packets_text(sub) =~= packets_text(rows.subrange(0, k)) + row_text(rows[k]));
        assert(packets_text(rows) =~= packets_text(rows.subrange(0, k)) + packets_text_from(
            rows,
            k,
        ));
    }
}

proof fn lemma_ascii_concat(x: Seq<char>, y: Seq<char>)
    ensures
        ascii(x + y) == ascii(x) + ascii(y),
{
    assert(ascii(x + y) =~= ascii(x) + ascii(y));
}

/// Whether `b` holds exactly the dump of the datapoints `ds` over the packet
/// history `rows`.
pub open spec fn is_dump_of(b: Seq<u8>, ds: Seq<Datapoint>, rows: Seq<Seq<u8>>) -> bool {
    b == ascii(dump_text(ds, rows))
}

spec fn rest_of(b: Seq<u8>, pos: int) -> Seq<u8> {
    b.subrange(pos, b.len() as int)
}

/// The dump text that follows the first `k` datapoints.
spec fn points_rest(ds: Seq<Datapoint>, rows: Seq<Seq<u8>>, k: int) -> Seq<char> {
    datapoints_text_from(ds, k) + ("],\n[\n"@ + (packets_text(rows) + "])\n"@))
}

/// The dump text that follows the first `k` packets.
spec fn rows_rest(rows: Seq<Seq<u8>>, k: int) -> Seq<char> {
    packets_text_from(rows, k) + "])\n"@
}

/// The dump text that follows the first `j` bytes of packet `k`.
spec fn bytes_rest(rows: Seq<Seq<u8>>, k: int, j: int) -> Seq<char> {
    bytes_text_from(rows[k], j) + ("],\n"@ + rows_rest(rows, k + 1))
}

/// Splits what is left of the input at `pos` after the text `x`.
proof fn lemma_peel(b: Seq<u8>, pos: int, x: Seq<char>, y: Seq<char>)
    requires
        0 <= pos <= b.len(),
        rest_of(b, pos) == ascii(x + y),
    ensures
        pos + x.len() <= b.len(),
        b.subrange(pos, pos + x.len()) == ascii(x),
        rest_of(b, pos + x.len()) == ascii(y),
{
    lemma_ascii_concat(x, y);
    let rest = rest_of(b, pos);
    assert(rest.len() == b.len() - pos);
    assert(ascii(x + y).len() == x.len() + y.len());
    assert(b.subrange(pos, pos + x.len()) =~= rest.subrange(0, x.len() as int));
    assert(rest_of(b, pos + x.len()) =~= rest.subrange(x.len() as int, rest.len() as int));
}

/// The byte at `pos` is the first character of what is left.
proof fn lemma_first(b: Seq<u8>, pos: int, y: Seq<char>)
    requires
        0 <= pos <= b.len(),
        rest_of(b, pos) == ascii(y),
        y.len() > 0,
    ensures
        pos < b.len(),
        b[pos] == y[0] as u8,
{
    assert(rest_of(b, pos).len() == b.len() - pos);
    assert(ascii(y).len() == y.len());
    assert(rest_of(b, pos)[0] == b[pos]);
    assert(ascii(y)[0] == y[0] as u8);
}

/// A number followed by a non-digit is read as that number.
proof fn lemma_number_then(b: Seq<u8>, pos: int, n: nat, y: Seq<char>)
    requires
        0 <= pos <= b.len(),
        rest_of(b, pos) == ascii(decimal(n) + y),
        y.len() > 0,
        !is_digit(y[0] as u8),
    ensures
        number_at(b, pos, n),
        rest_of(b, pos + decimal(n).len()) == ascii(y),
{
    lemma_peel(b, pos, decimal(n), y);
    lemma_first(b, pos + decimal(n).len(), y);
}

/// Reads the text `lit` at `pos`; returns the position after it.
fn expect_text(b: &[u8], pos: usize, lit: &str) -> (r: Option<usize>)
    requires
        pos <= b@.len(),
    ensures
        r matches Some(next) ==> next == pos + lit@.len() && next <= b@.len() && b@.subrange(
            pos as int,
            next as int,
        ) == ascii(lit@),
        pos + lit@.len() <= b@.len() && b@.subrange(pos as int, pos + lit@.len()) == ascii(lit@)
            ==> r == Some((pos + lit@.len()) as usize),
{
    let n = lit.unicode_len();
    if n > b.len() - pos {
        return None;
    }
    let mut j: usize = 0;
    while j < n
        invariant
            n == lit@.len(),
            pos + n <= b.len(),
            j <= n,
            forall|i: int| 0 <= i < j ==> b@[pos + i] == #[trigger] ascii(lit@)[i],
        decreases n - j,
    {
        let c = lit.get_char(j);
        if b[pos + j] != c as u8 {
            proof {
                if b@.subrange(pos as int, pos + lit@.len()) == ascii(lit@) {
                    assert(b@.subrange(pos as int, pos + lit@.len())[j as int] == ascii(
                        lit@,
                    )[j as int]);
                }
            }
            return None;
        }
        j = j + 1;
    }
    assert(b@.subrange(pos as int, pos + lit@.len()) =~= ascii(lit@));
    Some(pos + n)
}

proof fn lemma_literals()
    ensures
        "([\n"@ == seq!['(', '[', '\n'],
        "],\n[\n"@ == seq![']', ',', '\n', '[', '\n'],
        "])\n"@ == seq![']', ')', '\n'],
        "("@ == seq!['('],
        ","@ == seq![','],
        "),"@ == seq![')', ','],
        "["@ == seq!['['],
        "],\n"@ == seq![']', ',', '\n'],
{
    reveal_strlit("([\n");
    reveal_strlit("],\n[\n");
    reveal_strlit("])\n");
    reveal_strlit("(");
    reveal_strlit(",");
    reveal_strlit("),");
    reveal_strlit("[");
    reveal_strlit("],\n");
    assert("([\n"@ =~= seq!['(', '[', '\n']);
    assert("],\n[\n"@ =~= seq![']', ',', '\n', '[', '\n']);
    assert("])\n"@ =~= seq![']', ')', '\n']);
    assert("("@ =~= seq!['(']);
    assert(","@ =~= seq![',']);
    assert("),"@ =~= seq![')', ',']);
    assert("["@ =~= seq!['[']);
    assert("],\n"@ =~= seq![']', ',', '\n']);
}

proof fn lemma_dump_start(b: Seq<u8>, ds: Seq<Datapoint>, rows: Seq<Seq<u8>>)
    requires
        is_dump_of(b, ds, rows),
    ensures
        3 <= b.len(),
        b.subrange(0, 3) == ascii("([\n"@),
        rest_of(b, 3) == ascii(points_rest(ds, rows, 0)),
{
    lemma_literals();
    assert(rest_of(b, 0) =~= b);
    lemma_datapoints_split(ds, 0);
    assert(ds.subrange(0, 0) =~= Seq::<Datapoint>::empty());
    assert(dump_text(ds, rows) =~= "([\n"@ + points_rest(ds, rows, 0));
    lemma_peel(b, 0, "([\n"@, points_rest(ds, rows, 0));
}

proof fn lemma_point_start(b: Seq<u8>, pos: int, ds: Seq<Datapoint>, rows: Seq<Seq<u8>>, k: int)
    requires
        0 <= pos < b.len(),
        b[pos] == 40,
        0 <= k <= ds.len(),
        rest_of(b, pos) == ascii(points_rest(ds, rows, k)),
    ensures
        k < ds.len(),
        number_at(b, pos + 1, ds[k].packet_index as nat),
        rest_of(b, pos + 1 + decimal(ds[k].packet_index as nat).len()) == ascii(
            ","@ + (decimal(ds[k].label as nat) + ("),"@ + points_rest(ds, rows, k + 1))),
        ),
{
    lemma_literals();
    if k == ds.len() {
        assert(datapoints_text_from(ds, k) =~= Seq::<char>::empty());
        assert(points_rest(ds, rows, k)[0] == ']');
        lemma_first(b, pos, points_rest(ds, rows, k));
        assert(false);
    }
    let d = ds[k];
    assert(datapoints_text_from(ds, k) == datapoint_text(d) + datapoints_text_from(ds, k + 1));
    let y = ","@ + (decimal(d.label as nat) + ("),"@ + points_rest(ds, rows, k + 1)));
    assert(points_rest(ds, rows, k) =~= "("@ + (decimal(d.packet_index as nat) + y));
    lemma_peel(b, pos, "("@, decimal(d.packet_index as nat) + y);
    lemma_number_then(b, pos + 1, d.packet_index as nat, y);
}

proof fn lemma_point_label(b: Seq<u8>, p1: int, ds: Seq<Datapoint>, rows: Seq<Seq<u8>>, k: int)
    requires
        0 <= p1 <= b.len(),
        0 <= k < ds.len(),
        rest_of(b, p1) == ascii(
            ","@ + (decimal(ds[k].label as nat) + ("),"@ + points_rest(ds, rows, k + 1))),
        ),
    ensures
        p1 + 1 <= b.len(),
        b.subrange(p1, p1 + 1) == ascii(","@),
        number_at(b, p1 + 1, ds[k].label as nat),
        rest_of(b, p1 + 1 + decimal(ds[k].label as nat).len()) == ascii(
            "),"@ + points_rest(ds, rows, k + 1),
        ),
{
    lemma_literals();
    let y = "),"@ + points_rest(ds, rows, k + 1);
    lemma_peel(b, p1, ","@, decimal(ds[k].label as nat) + y);
    lemma_number_then(b, p1 + 1, ds[k].label as nat, y);
}

proof fn lemma_points_done(b: Seq<u8>, pos: int, ds: Seq<Datapoint>, rows: Seq<Seq<u8>>, k: int)
    requires
        0 <= pos <= b.len(),
        0 <= k <= ds.len(),
        rest_of(b, pos) == ascii(points_rest(ds, rows, k)),
        !(pos < b.len() && b[pos] == 40),
    ensures
        k == ds.len(),
        pos + 5 <= b.len(),
        b.subrange(pos, pos + 5) == ascii("],\n[\n"@),
        rest_of(b, pos + 5) == ascii(rows_rest(rows, 0)),
{
    lemma_literals();
    if k < ds.len() {
        let d = ds[k];
        assert(datapoints_text_from(ds, k) == datapoint_text(d) + datapoints_text_from(ds, k + 1));
        assert(points_rest(ds, rows, k)[0] == '(');
        lemma_first(b, pos, points_rest(ds, rows, k));
        assert(false);
    }
    assert(datapoints_text_from(ds, k) =~= Seq::<char>::empty());
    lemma_packets_split(rows, 0);
    assert(rows.subrange(0, 0) =~= Seq::<Seq<u8>>::empty());
    assert(points_rest(ds, rows, k) =~= "],\n[\n"@ + rows_rest(rows, 0));
    lemma_peel(b, pos, "],\n[\n"@, rows_rest(rows, 0));
}

proof fn lemma_row_start(b: Seq<u8>, pos: int, rows: Seq<Seq<u8>>, k: int)
    requires
        0 <= pos < b.len(),
        b[pos] == 91,
        0 <= k <= rows.len(),
        rest_of(b, pos) == ascii(rows_rest(rows, k)),
    ensures
        k < rows.len(),
        rest_of(b, pos + 1) == ascii(bytes_rest(rows, k, 0)),
{
    lemma_literals();
    if k == rows.len() {
        assert(packets_text_from(rows, k) =~= Seq::<char>::empty());
        assert(rows_rest(rows, k)[0] == ']');
        lemma_first(b, pos, rows_rest(rows, k));
        assert(false);
    }
    assert(packets_text_from(rows, k) == row_text(rows[k]) + packets_text_from(rows, k + 1));
    lemma_bytes_split(rows[k], 0);
    assert(rows[k].subrange(0, 0) =~= Seq::<u8>::empty());
    assert(rows_rest(rows, k) =~= "["@ + bytes_rest(rows, k, 0));
    lemma_peel(b, pos, "["@, bytes_rest(rows, k, 0));
}

proof fn lemma_byte_step(b: Seq<u8>, q: int, rows: Seq<Seq<u8>>, k: int, j: int)
    requires
        0 <= q < b.len(),
        is_digit(b[q]),
        0 <= k < rows.len(),
        0 <= j <= rows[k].len(),
        rest_of(b, q) == ascii(bytes_rest(rows, k, j)),
    ensures
        j < rows[k].len(),
        number_at(b, q, rows[k][j] as nat),
        rest_of(b, q + decimal(rows[k][j] as nat).len()) == ascii(","@ + bytes_rest(rows, k, j + 1)),
{
    lemma_literals();
    if j == rows[k].len() {
        assert(bytes_text_from(rows[k], j) =~= Seq::<char>::empty());
        assert(bytes_rest(rows, k, j)[0] == ']');
        lemma_first(b, q, bytes_rest(rows, k, j));
        assert(false);
    }
    let x = rows[k][j];
    assert(bytes_text_from(rows[k], j) == byte_text(x) + bytes_text_from(rows[k], j + 1));
    assert(bytes_rest(rows, k, j) =~= decimal(x as nat) + (","@ + bytes_rest(rows, k, j + 1)));
    assert((","@ + bytes_rest(rows, k, j + 1))[0] == ',');
    lemma_number_then(b, q, x as nat, ","@ + bytes_rest(rows, k, j + 1));
}

proof fn lemma_row_done(b: Seq<u8>, q: int, rows: Seq<Seq<u8>>, k: int, j: int)
    requires
        0 <= q <= b.len(),
        0 <= k < rows.len(),
        0 <= j <= rows[k].len(),
        rest_of(b, q) == ascii(bytes_rest(rows, k, j)),
        !(q < b.len() && is_digit(b[q])),
    ensures
        j == rows[k].len(),
        q + 3 <= b.len(),
        b.subrange(q, q + 3) == ascii("],\n"@),
        rest_of(b, q + 3) == ascii(rows_rest(rows, k + 1)),
{
    lemma_literals();
    if j < rows[k].len() {
        let x = rows[k][j];
        lemma_decimal_digits(x as nat);
        assert(bytes_text_from(rows[k], j) == byte_text(x) + bytes_text_from(rows[k], j + 1));
        assert(bytes_rest(rows, k, j) =~= decimal(x as nat) + (","@ + bytes_rest(rows, k, j + 1)));
        lemma_peel(b, q, decimal(x as nat), ","@ + bytes_rest(rows, k, j + 1));
        assert(b[q] == b.subrange(q, q + decimal(x as nat).len())[0]);
        assert(is_digit(ascii(decimal(x as nat))[0]));
        assert(false);
    }
    assert(bytes_text_from(rows[k], j) =~= Seq::<char>::empty());
    assert(bytes_rest(rows, k, j) =~= "],\n"@ + rows_rest(rows, k + 1));
    lemma_peel(b, q, "],\n"@, rows_rest(rows, k + 1));
}

proof fn lemma_rows_done(b: Seq<u8>, pos: int, rows: Seq<Seq<u8>>, k: int)
    requires
        0 <= pos <= b.len(),
        0 <= k <= rows.len(),
        rest_of(b, pos) == ascii(rows_rest(rows, k)),
        !(pos < b.len() && b[pos] == 91),
    ensures
        k == rows.len(),
        pos + 3 == b.len(),
        b.subrange(pos, pos + 3) == ascii("])\n"@),
{
    lemma_literals();
    if k < rows.len() {
        assert(packets_text_from(rows, k) == row_text(rows[k]) + packets_text_from(rows, k + 1));
        assert(rows_rest(rows, k)[0] == '[');
        lemma_first(b, pos, rows_rest(rows, k));
        assert(false);
    }
    assert(packets_text_from(rows, k) =~= Seq::<char>::empty());
    assert(rows_rest(rows, k) =~= "])\n"@ + Seq::<char>::empty());
    lemma_peel(b, pos, "])\n"@, Seq::<char>::empty());
    assert(rest_of(b, pos + 3).len() == 0);
}

/// Extends a read prefix by the text that follows it.
proof fn lemma_extend(b: Seq<u8>, p: int, p2: int, pre: Seq<char>, x: Seq<char>)
    requires
        0 <= p <= p2 <= b.len(),
        b.subrange(0, p) == ascii(pre),
        b.subrange(p, p2) == ascii(x),
    ensures
        b.subrange(0, p2) == ascii(pre + x),
{
    lemma_ascii_concat(pre, x);
    assert(b.subrange(0, p2) =~= b.subrange(0, p) + b.subrange(p, p2));
}

/// The byte at `pos` read as a one-character text.
proof fn lemma_single(b: Seq<u8>, pos: int, c: char)
    requires
        0 <= pos < b.len(),
        b[pos] == c as u8,
    ensures
        b.subrange(pos, pos + 1) == ascii(seq![c]),
{
    assert(b.subrange(pos, pos + 1) =~= ascii(seq![c]));
}

proof fn lemma_point_prefix(
    b: Seq<u8>,
    pos: int,
    p1: int,
    p2: int,
    p3: int,
    p4: int,
    points: Seq<Datapoint>,
    d: Datapoint,
)
    requires
        0 <= pos < p1 <= p2 <= p3 <= p4 <= b.len(),
        pos + 1 <= p1,
        b[pos] == 40,
        b.subrange(0, pos) == ascii("([\n"@ + datapoints_text(points)),
        b.subrange(pos + 1, p1) == ascii(decimal(d.packet_index as nat)),
        b.subrange(p1, p2) == ascii(","@),
        b.subrange(p2, p3) == ascii(decimal(d.label as nat)),
        b.subrange(p3, p4) == ascii("),"@),
    ensures
        b.subrange(0, p4) == ascii("([\n"@ + datapoints_text(points.push(d))),
{
    lemma_literals();
    let pre = "([\n"@ + datapoints_text(points);
    lemma_single(b, pos, '(');
    lemma_extend(b, pos, pos + 1, pre, "("@);
    lemma_extend(b, pos + 1, p1, pre + "("@, decimal(d.packet_index as nat));
    lemma_extend(b, p1, p2, pre + "("@ + decimal(d.packet_index as nat), ","@);
    lemma_extend(b, p2, p3, pre + "("@ + decimal(d.packet_index as nat) + ","@, decimal(d.label as nat));
    lemma_extend(
        b,
        p3,
        p4,
        pre + "("@ + decimal(d.packet_index as nat) + ","@ + decimal(d.label as nat),
        "),"@,
    );
    assert(points.push(d).drop_last() =~= points);
    assert(pre + "("@ + decimal(d.packet_index as nat) + ","@ + decimal(d.label as nat) + "),"@
        =~= "([\n"@ + datapoints_text(points.push(d)));
}

proof fn lemma_byte_prefix(b: Seq<u8>, q: int, q1: int, q2: int, pre: Seq<char>, row: Seq<u8>, x: u8)
    requires
        0 <= q <= q1 <= q2 <= b.len(),
        b.subrange(0, q) == ascii(pre + bytes_text(row)),
        b.subrange(q, q1) == ascii(decimal(x as nat)),
        b.subrange(q1, q2) == ascii(","@),
    ensures
        b.subrange(0, q2) == ascii(pre + bytes_text(row.push(x))),
{
    lemma_extend(b, q, q1, pre + bytes_text(row), decimal(x as nat));
    lemma_extend(b, q1, q2, pre + bytes_text(row) + decimal(x as nat), ","@);
    assert(row.push(x).drop_last() =~= row);
    assert(pre + bytes_text(row) + decimal(x as nat) + ","@ =~= pre + bytes_text(row.push(x)));
}

proof fn lemma_row_prefix(
    b: Seq<u8>,
    q: int,
    next: int,
    pre: Seq<char>,
    rows: Seq<Seq<u8>>,
    row: Seq<u8>,
)
    requires
        0 <= q <= next <= b.len(),
        b.subrange(0, q) == ascii(pre + packets_text(rows) + "["@ + bytes_text(row)),
        b.subrange(q, next) == ascii("],\n"@),
    ensures
        b.subrange(0, next) == ascii(pre + packets_text(rows.push(row))),
{
    lemma_extend(b, q, next, pre + packets_text(rows) + "["@ + bytes_text(row), "],\n"@);
    assert(rows.push(row).drop_last() =~= rows);
    assert(pre + packets_text(rows) + "["@ + bytes_text(row) + "],\n"@ =~= pre + packets_text(
        rows.push(row),
    ));
}

/// Loads a dataset from the bytes of the text that
/// `PsyLinkDataset::to_string` writes: the dump of any dataset loads back as
/// that very dataset.
#[verifier::spinoff_prover]
#[verifier::rlimit(60)]
pub fn from_dump(b: &[u8]) -> (r: Option<PsyLinkDataset>)
    ensures
        forall|ds: Seq<Datapoint>, rows: Seq<Seq<u8>>|
            #[trigger] is_dump_of(b@, ds, rows) ==> (r matches Some(d) && d.datapoints@ == ds
                && d.history() == rows),
        r matches Some(d) ==> is_dump_of(b@, d.datapoints@, d.history()),
{
    proof {
        assert forall|ds: Seq<Datapoint>, rows: Seq<Seq<u8>>| #[trigger] is_dump_of(
            b@,
            ds,
            rows,
        ) implies 3 <= b@.len() && b@.subrange(0, 3) == ascii("([\n"@) && rest_of(b@, 3) == ascii(
            points_rest(ds, rows, 0),
        ) by {
            lemma_dump_start(b@, ds, rows);
        }
        reveal_strlit("([\n");
    }
    let mut pos = match expect_text(b, 0, "([\n") {
        Some(p) => p,
        None => {
            return None;
        },
    };
    let mut points: Vec<Datapoint> = Vec::new();
    proof {
        lemma_literals();
        assert("([\n"@ + datapoints_text(points@) =~= "([\n"@);
    }
    while pos < b.len() && b[pos] == 40
        invariant
            pos <= b@.len(),
            b@.subrange(0, pos as int) == ascii("([\n"@ + datapoints_text(points@)),
            forall|ds: Seq<Datapoint>, rows: Seq<Seq<u8>>| #[trigger] is_dump_of(b@, ds, rows) ==> {
                &&& points@.len() <= ds.len()
                &&& points@ == ds.subrange(0, points@.len() as int)
                &&& rest_of(b@, pos as int) == ascii(points_rest(ds, rows, points@.len() as int))
            },
        decreases b@.len() - pos,
    {
        let ghost k = points@.len() as int;
        proof {
            assert forall|ds: Seq<Datapoint>, rows: Seq<Seq<u8>>| #[trigger] is_dump_of(
                b@,
                ds,
                rows,
            ) implies k < ds.len() && number_at(b@, pos + 1, ds[k].packet_index as nat) && rest_of(
                b@,
                pos + 1 + decimal(ds[k].packet_index as nat).len(),
            ) == ascii(
                ","@ + (decimal(ds[k].label as nat) + ("),"@ + points_rest(ds, rows, k + 1))),
            ) by {
                lemma_point_start(b@, pos as int, ds, rows, k);
            }
        }
        let (index, p1) = match parse_number(b, pos + 1, usize::MAX as u64) {
            Some(v) => v,
            None => {
                return None;
            },
        };
        proof {
            assert forall|ds: Seq<Datapoint>, rows: Seq<Seq<u8>>| #[trigger] is_dump_of(
                b@,
                ds,
                rows,
            ) implies index == ds[k].packet_index && p1 + 1 <= b@.len() && b@.subrange(
                p1 as int,
                p1 + 1,
            ) == ascii(","@) && number_at(b@, p1 + 1, ds[k].label as nat) && rest_of(
                b@,
                p1 + 1 + decimal(ds[k].label as nat).len(),
            ) == ascii("),"@ + points_rest(ds, rows, k + 1)) by {
                assert(number_at(b@, pos + 1, ds[k].packet_index as nat));
                lemma_point_label(b@, p1 as int, ds, rows, k);
            }
            lemma_literals();
        }
        let p2 = match expect_text(b, p1, ",") {
            Some(p) => p,
            None => {
                return None;
            },
        };
        let (label, p3) = match parse_number(b, p2, 255) {
            Some(v) => v,
            None => {
                return None;
            },
        };
        proof {
            assert forall|ds: Seq<Datapoint>, rows: Seq<Seq<u8>>| #[trigger] is_dump_of(
                b@,
                ds,
                rows,
            ) implies label == ds[k].label && p3 + 2 <= b@.len() && b@.subrange(p3 as int, p3 + 2)
                == ascii("),"@) && rest_of(b@, p3 + 2) == ascii(points_rest(ds, rows, k + 1)) by {
                assert(number_at(b@, p2 as int, ds[k].label as nat));
                lemma_literals();
                lemma_peel(b@, p3 as int, "),"@, points_rest(ds, rows, k + 1));
            }
        }
        let p4 = match expect_text(b, p3, "),") {
            Some(p) => p,
            None => {
                return None;
            },
        };
        let d = Datapoint { packet_index: index as usize, label: label as u8 };
        proof {
            lemma_literals();
            lemma_point_prefix(
                b@,
                pos as int,
                p1 as int,
                p2 as int,
                p3 as int,
                p4 as int,
                points@,
                d,
            );
        }
        points.push(d);
        proof {
            assert forall|ds: Seq<Datapoint>, rows: Seq<Seq<u8>>| #[trigger] is_dump_of(
                b@,
                ds,
                rows,
            ) implies points@ == ds.subrange(0, k + 1) by {
                assert(points@ =~= ds.subrange(0, k + 1));
            }
        }
        pos = p4;
    }
    proof {
        assert forall|ds: Seq<Datapoint>, rows: Seq<Seq<u8>>| #[trigger] is_dump_of(
            b@,
            ds,
            rows,
        ) implies points@ == ds && pos + 5 <= b@.len() && b@.subrange(pos as int, pos + 5)
            == ascii("],\n[\n"@) && rest_of(b@, pos + 5) == ascii(rows_rest(rows, 0)) by {
            lemma_points_done(b@, pos as int, ds, rows, points@.len() as int);
            assert(ds.subrange(0, ds.len() as int) =~= ds);
        }
        lemma_literals();
    }
    pos = match expect_text(b, pos, "],\n[\n") {
        Some(p) => p,
        None => {
            return None;
        },
    };
    let mut all_rows: Vec<Vec<u8>> = Vec::new();
    let ghost pre = "([\n"@ + datapoints_text(points@) + "],\n[\n"@;
    proof {
        lemma_extend(b@, (pos - 5) as int, pos as int, "([\n"@ + datapoints_text(points@), "],\n[\n"@);
        assert(pre + packets_text(rows_view(all_rows@)) =~= pre);
    }
    while pos < b.len() && b[pos] == 91
        invariant
            pos <= b@.len(),
            pre == "([\n"@ + datapoints_text(points@) + "],\n[\n"@,
            b@.subrange(0, pos as int) == ascii(pre + packets_text(rows_view(all_rows@))),
            forall|ds: Seq<Datapoint>, rows: Seq<Seq<u8>>| #[trigger] is_dump_of(b@, ds, rows) ==> {
                &&& points@ == ds
                &&& all_rows@.len() <= rows.len()
                &&& rows_view(all_rows@) == rows.subrange(0, all_rows@.len() as int)
                &&& rest_of(b@, pos as int) == ascii(rows_rest(rows, all_rows@.len() as int))
            },
        decreases b@.len() - pos,
    {
        let ghost k = all_rows@.len() as int;
        proof {
            assert forall|ds: Seq<Datapoint>, rows: Seq<Seq<u8>>| #[trigger] is_dump_of(
                b@,
                ds,
                rows,
            ) implies k < rows.len() && rest_of(b@, pos + 1) == ascii(bytes_rest(rows, k, 0)) by {
                lemma_row_start(b@, pos as int, rows, k);
            }
        }
        let mut q: usize = pos + 1;
        let mut row: Vec<u8> = Vec::new();
        proof {
            lemma_literals();
            lemma_single(b@, pos as int, '[');
            lemma_extend(b@, pos as int, pos + 1, pre + packets_text(rows_view(all_rows@)), "["@);
            assert(pre + packets_text(rows_view(all_rows@)) + "["@ + bytes_text(row@) =~= pre
                + packets_text(rows_view(all_rows@)) + "["@);
        }
        while q < b.len() && b[q] >= 48 && b[q] <= 57
            invariant
                pos < q <= b@.len(),
                k == all_rows@.len(),
                b@.subrange(0, q as int) == ascii(
                    pre + packets_text(rows_view(all_rows@)) + "["@ + bytes_text(row@),
                ),
                forall|ds: Seq<Datapoint>, rows: Seq<Seq<u8>>| #[trigger] is_dump_of(b@, ds, rows) ==> {
                    &&& points@ == ds
                    &&& k < rows.len()
                    &&& rows_view(all_rows@) == rows.subrange(0, k)
                    &&& row@.len() <= rows[k].len()
                    &&& row@ == rows[k].subrange(0, row@.len() as int)
                    &&& rest_of(b@, q as int) == ascii(bytes_rest(rows, k, row@.len() as int))
                },
            decreases b@.len() - q,
        {
            let ghost j = row@.len() as int;
            proof {
                assert forall|ds: Seq<Datapoint>, rows: Seq<Seq<u8>>| #[trigger] is_dump_of(
                    b@,
                    ds,
                    rows,
                ) implies j < rows[k].len() && number_at(b@, q as int, rows[k][j] as nat) && rest_of(
                    b@,
                    q + decimal(rows[k][j] as nat).len(),
                ) == ascii(","@ + bytes_rest(rows, k, j + 1)) by {
                    lemma_byte_step(b@, q as int, rows, k, j);
                }
            }
            let (value, q1) = match parse_number(b, q, 255) {
                Some(v) => v,
                None => {
                    return None;
                },
            };
            proof {
                assert forall|ds: Seq<Datapoint>, rows: Seq<Seq<u8>>| #[trigger] is_dump_of(
                    b@,
                    ds,
                    rows,
                ) implies value == rows[k][j] && q1 + 1 <= b@.len() && b@.subrange(
                    q1 as int,
                    q1 + 1,
                ) == ascii(","@) && rest_of(b@, q1 + 1) == ascii(bytes_rest(rows, k, j + 1)) by {
                    assert(number_at(b@, q as int, rows[k][j] as nat));
                    lemma_literals();
                    lemma_peel(b@, q1 as int, ","@, bytes_rest(rows, k, j + 1));
                }
                lemma_literals();
            }
            let q2 = match expect_text(b, q1, ",") {
                Some(p) => p,
                None => {
                    return None;
                },
            };
            proof {
                lemma_byte_prefix(
                    b@,
                    q as int,
                    q1 as int,
                    q2 as int,
                    pre + packets_text(rows_view(all_rows@)) + "["@,
                    row@,
                    value as u8,
                );
            }
            row.push(value as u8);
            proof {
                assert forall|ds: Seq<Datapoint>, rows: Seq<Seq<u8>>| #[trigger] is_dump_of(
                    b@,
                    ds,
                    rows,
                ) implies row@ == rows[k].subrange(0, j + 1) by {
                    assert(row@ =~= rows[k].subrange(0, j + 1));
                }
            }
            q = q2;
        }
        proof {
            assert forall|ds: Seq<Datapoint>, rows: Seq<Seq<u8>>| #[trigger] is_dump_of(
                b@,
                ds,
                rows,
            ) implies row@ == rows[k] && q + 3 <= b@.len() && b@.subrange(q as int, q + 3)
                == ascii("],\n"@) && rest_of(b@, q + 3) == ascii(rows_rest(rows, k + 1)) by {
                lemma_row_done(b@, q as int, rows, k, row@.len() as int);
                assert(rows[k].subrange(0, rows[k].len() as int) =~= rows[k]);
            }
            lemma_literals();
        }
        let next = match expect_text(b, q, "],\n") {
            Some(p) => p,
            None => {
                return None;
            },
        };
        let ghost before = all_rows@;
        proof {
            lemma_row_prefix(b@, q as int, next as int, pre, rows_view(all_rows@), row@);
        }
        all_rows.push(row);
        proof {
            assert(rows_view(all_rows@) =~= rows_view(before).push(row@));
        }
        proof {
            assert forall|ds: Seq<Datapoint>, rows: Seq<Seq<u8>>| #[trigger] is_dump_of(
                b@,
                ds,
                rows,
            ) implies rows_view(all_rows@) == rows.subrange(0, k + 1) by {
                assert forall|m: int| 0 <= m < k + 1 implies #[trigger] rows_view(all_rows@)[m]
                    == rows.subrange(0, k + 1)[m] by {
                    if m < k {
                        assert(rows_view(before)[m] == rows.subrange(0, k)[m]);
                        assert(all_rows@[m] == before[m]);
                    }
                }
                assert(rows_view(all_rows@) =~= rows.subrange(0, k + 1));
            }
        }
        pos = next;
    }
    proof {
        assert forall|ds: Seq<Datapoint>, rows: Seq<Seq<u8>>| #[trigger] is_dump_of(
            b@,
            ds,
            rows,
        ) implies rows_view(all_rows@) == rows && pos + 3 == b@.len() && b@.subrange(
            pos as int,
            pos + 3,
        ) == ascii("])\n"@) by {
            lemma_rows_done(b@, pos as int, rows, all_rows@.len() as int);
            assert(rows.subrange(0, rows.len() as int) =~= rows);
        }
        lemma_literals();
    }
    let end = match expect_text(b, pos, "])\n") {
        Some(p) => p,
        None => {
            return None;
        },
    };
    if end != b.len() {
        return None;
    }
    proof {
        lemma_extend(b@, pos as int, end as int, pre + packets_text(rows_view(all_rows@)), "])\n"@);
        assert(pre + packets_text(rows_view(all_rows@)) + "])\n"@ =~= dump_text(
            points@,
            rows_view(all_rows@),
        ));
        assert(b@.subrange(0, end as int) =~= b@);
    }
    Some(PsyLinkDataset { datapoints: points, all_packets: all_rows })
}

} // verus!
