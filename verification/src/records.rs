use vstd::prelude::*;

verus! {

/// The byte `,`, which separates the fields of a record.
pub const COMMA: u8 = 44;

/// The byte `+`.
pub const PLUS: u8 = 43;

/// The byte `-`.
pub const MINUS: u8 = 45;

/// An ASCII decimal digit.
pub open spec fn is_digit(c: u8) -> bool {
    48 <= c <= 57
}

/// Every byte of `s` is a decimal digit.
pub open spec fn all_digits(s: Seq<u8>) -> bool {
    forall|i: int| 0 <= i < s.len() ==> is_digit(#[trigger] s[i])
}

/// The number that a string of decimal digits denotes (most significant first).
pub open spec fn digits_value(s: Seq<u8>) -> nat
    decreases s.len(),
{
    if s.len() == 0 {
        0
    } else {
        digits_value(s.drop_last()) * 10 + (s.last() - 48) as nat
    }
}

/// The digits of an unsigned field: one leading `+` is dropped.
pub open spec fn unsigned_body(s: Seq<u8>) -> Seq<u8> {
    if s.len() > 0 && s[0] == PLUS {
        s.drop_first()
    } else {
        s
    }
}

/// A non-empty run of digits whose value is at most `limit`.
pub open spec fn digits_within(d: Seq<u8>, limit: nat) -> bool {
    d.len() > 0 && all_digits(d) && digits_value(d) <= limit
}

/// What Rust's `u64::from_str` gives on `s`: an optional `+`, then at least
/// one digit, and a value that fits in 64 bits.
pub open spec fn spec_parse_u64(s: Seq<u8>) -> Option<u64> {
    let d = unsigned_body(s);
    if digits_within(d, u64::MAX as nat) {
        Some(digits_value(d) as u64)
    } else {
        None
    }
}

/// What Rust's `i8::from_str` gives on `s`: an optional sign, then at least
/// one digit, and a value in `-128..=127`.
pub open spec fn spec_parse_i8(s: Seq<u8>) -> Option<i8> {
    if s.len() > 0 && s[0] == MINUS {
        let d = s.drop_first();
        if digits_within(d, 128) {
            Some((0 - digits_value(d)) as i8)
        } else {
            None
        }
    } else {
        let d = unsigned_body(s);
        if digits_within(d, 127) {
            Some(digits_value(d) as i8)
        } else {
            None
        }
    }
}

/// The pieces of `s` between commas, as `str::split(",")` yields them: a string
/// with `n` commas has `n + 1` fields.
pub open spec fn split_fields(s: Seq<u8>) -> Seq<Seq<u8>>
    decreases s.len(),
{
    if s.len() == 0 {
        seq![Seq::<u8>::empty()]
    } else {
        let init = split_fields(s.drop_last());
        if s.last() == COMMA {
            init.push(Seq::<u8>::empty())
        } else {
            init.update(init.len() - 1, init.last().push(s.last()))
        }
    }
}

/// The decimal rendering of `n`, without sign or leading zeros.
pub open spec fn decimal(n: nat) -> Seq<u8>
    decreases n,
{
    if n < 10 {
        seq![(n + 48) as u8]
    } else {
        decimal(n / 10).push((n % 10 + 48) as u8)
    }
}

/// Why a record line was refused. Fields are numbered from 0.
#[derive(Debug, Clone, Copy, PartialEq, Eq, Structural)]
pub enum RecordError {
    /// The line has no field with this number.
    Missing(usize),
    /// The field with this number does not hold a number of the expected type.
    Malformed(usize),
}

pub proof fn lemma_split_nonempty(s: Seq<u8>)
    ensures
        split_fields(s).len() >= 1,
    decreases s.len(),
{
    if s.len() > 0 {
        lemma_split_nonempty(s.drop_last());
    }
}

/// Appending a byte to a string extends its field list the way the
/// definition says, written for a prefix of a longer string.
proof fn lemma_split_step(s: Seq<u8>, i: int)
    requires
        0 <= i < s.len(),
    ensures
        split_fields(s.subrange(0, i + 1)) == (if s[i] == COMMA {
            split_fields(s.subrange(0, i)).push(Seq::<u8>::empty())
        } else {
            split_fields(s.subrange(0, i)).update(
                split_fields(s.subrange(0, i)).len() - 1,
                split_fields(s.subrange(0, i)).last().push(s[i]),
            )
        }),
{
    assert(s.subrange(0, i + 1).drop_last() =~= s.subrange(0, i));
}

/// A digit string extended by digits never gets a smaller value.
proof fn lemma_digits_value_prefix(s: Seq<u8>, k: int)
    requires
        0 <= k <= s.len(),
        all_digits(s),
    ensures
        digits_value(s.subrange(0, k)) <= digits_value(s),
    decreases s.len(),
{
    if k < s.len() {
        assert(all_digits(s.drop_last()));
        assert(s.drop_last().subrange(0, k) =~= s.subrange(0, k));
        lemma_digits_value_prefix(s.drop_last(), k);
    } else {
        assert(s.subrange(0, k) =~= s);
    }
}

/// Parses the digits `d[start..]` as a number not above `limit`.
fn parse_digits(d: &[u8], start: usize, limit: u64) -> (r: Option<u64>)
    requires
        start <= d@.len(),
    ensures
        r == (if digits_within(d@.subrange(start as int, d@.len() as int), limit as nat) {
            Some(digits_value(d@.subrange(start as int, d@.len() as int)) as u64)
        } else {
            None::<u64>
        }),
{
    let n = d.len();
    let ghost full = d@.subrange(start as int, n as int);
    if start == n {
        return None;
    }
    let mut acc: u64 = 0;
    let mut i: usize = start;
    while i < n
        invariant
            start <= i <= n,
            n == d@.len(),
            start < n,
            full == d@.subrange(start as int, n as int),
            all_digits(d@.subrange(start as int, i as int)),
            acc as nat == digits_value(d@.subrange(start as int, i as int)),
            acc <= limit,
        decreases n - i,
    {
        let ghost pre = d@.subrange(start as int, i as int);
        let c = d[i];
        assert(d@.subrange(start as int, i + 1) =~= pre.push(c));
        assert(pre.push(c).drop_last() =~= pre);
        assert(full[i - start] == c);
        if c < 48 || c > 57 {
            assert(!is_digit(full[i - start]));
            return None;
        }
        let next: u128 = (acc as u128) * 10 + ((c - 48) as u128);
        if next > limit as u128 {
            proof {
                if all_digits(full) {
                    assert(full.subrange(0, i + 1 - start) =~= pre.push(c));
                    lemma_digits_value_prefix(full, i + 1 - start);
                }
            }
            return None;
        }
        acc = next as u64;
        i = i + 1;
    }
    assert(d@.subrange(start as int, i as int) =~= full);
    Some(acc)
}

/// Reads an unsigned 64-bit field as Rust's `u64::from_str` does.
pub fn parse_u64(field: &[u8]) -> (r: Option<u64>)
    ensures
        r == spec_parse_u64(field@),
{
    let start: usize = if field.len() > 0 && field[0] == PLUS {
        1
    } else {
        0
    };
    assert(unsigned_body(field@) =~= field@.subrange(start as int, field@.len() as int));
    parse_digits(field, start, u64::MAX)
}

/// Reads a signed 8-bit field as Rust's `i8::from_str` does.
pub fn parse_i8(field: &[u8]) -> (r: Option<i8>)
    ensures
        r == spec_parse_i8(field@),
{
    if field.len() > 0 && field[0] == MINUS {
        assert(field@.drop_first() =~= field@.subrange(1, field@.len() as int));
        match parse_digits(field, 1, 128) {
            Some(v) => {
                let m: i16 = 0 - (v as i16);
                Some(m as i8)
            },
            None => None,
        }
    } else {
        let start: usize = if field.len() > 0 && field[0] == PLUS {
            1
        } else {
            0
        };
        assert(unsigned_body(field@) =~= field@.subrange(start as int, field@.len() as int));
        match parse_digits(field, start, 127) {
            Some(v) => Some(v as i8),
            None => None,
        }
    }
}

/// Cuts `line` at every comma.
pub fn split_fields_of(line: &[u8]) -> (fields: Vec<Vec<u8>>)
    ensures
        fields@.len() == split_fields(line@).len(),
        forall|i: int| 0 <= i < fields@.len() ==> #[trigger] fields@[i]@ == split_fields(line@)[i],
{
    let n = line.len();
    let mut fields: Vec<Vec<u8>> = Vec::new();
    let mut cur: Vec<u8> = Vec::new();
    let mut i: usize = 0;
    assert(line@.subrange(0, 0) =~= Seq::<u8>::empty());
    while i < n
        invariant
            i <= n,
            n == line@.len(),
            fields@.len() + 1 == split_fields(line@.subrange(0, i as int)).len(),
            forall|j: int|
                0 <= j < fields@.len() ==> #[trigger] fields@[j]@ == split_fields(
                    line@.subrange(0, i as int),
                )[j],
            cur@ == split_fields(line@.subrange(0, i as int)).last(),
        decreases n - i,
    {
        proof {
            lemma_split_step(line@, i as int);
            lemma_split_nonempty(line@.subrange(0, i as int));
        }
        let c = line[i];
        if c == COMMA {
            fields.push(cur);
            cur = Vec::new();
        } else {
            cur.push(c);
        }
        i = i + 1;
    }
    assert(line@.subrange(0, n as int) =~= line@);
    fields.push(cur);
    fields
}

/// What reading an edge record `u,v,w,...` gives: the two ids and the raw
/// third field, or the first field that is missing or malformed, checked in
/// the order `u`, `v`, `w`.
pub open spec fn spec_edge_record(line: Seq<u8>) -> Result<(u64, u64, Seq<u8>), RecordError> {
    let f = split_fields(line);
    match spec_parse_u64(f[0]) {
        None => Err(RecordError::Malformed(0)),
        Some(u) => if f.len() < 2 {
            Err(RecordError::Missing(1))
        } else {
            match spec_parse_u64(f[1]) {
                None => Err(RecordError::Malformed(1)),
                Some(v) => if f.len() < 3 {
                    Err(RecordError::Missing(2))
                } else {
                    Ok((u, v, f[2]))
                },
            }
        },
    }
}

/// What reading a rating record `u,v,r,...` gives: two ids and a small signed
/// number, or the first field that is missing or malformed.
pub open spec fn spec_rating_record(line: Seq<u8>) -> Result<(u64, u64, i8), RecordError> {
    match spec_edge_record(line) {
        Err(e) => Err(e),
        Ok((u, v, w)) => match spec_parse_i8(w) {
            None => Err(RecordError::Malformed(2)),
            Some(r) => Ok((u, v, r)),
        },
    }
}

/// Reads an edge record `u,v,w`: the ids of both endpoints and the third field
/// as it stands. Fields after the third are ignored.
pub fn parse_edge_record(line: &[u8]) -> (r: Result<(u64, u64, Vec<u8>), RecordError>)
    ensures
        match (r, spec_edge_record(line@)) {
            (Ok((u, v, w)), Ok((su, sv, sw))) => u == su && v == sv && w@ == sw,
            (Err(e), Err(se)) => e == se,
            _ => false,
        },
{
    let fields = split_fields_of(line);
    proof {
        lemma_split_nonempty(line@);
    }
    let u = match parse_u64(fields[0].as_slice()) {
        None => {
            return Err(RecordError::Malformed(0));
        },
        Some(u) => u,
    };
    if fields.len() < 2 {
        return Err(RecordError::Missing(1));
    }
    let v = match parse_u64(fields[1].as_slice()) {
        None => {
            return Err(RecordError::Malformed(1));
        },
        Some(v) => v,
    };
    if fields.len() < 3 {
        return Err(RecordError::Missing(2));
    }
    let w = fields[2].clone();
    Ok((u, v, w))
}

/// Reads a rating record `u,v,r` with a signed 8-bit third field.
pub fn parse_rating_record(line: &[u8]) -> (r: Result<(u64, u64, i8), RecordError>)
    ensures
        r == spec_rating_record(line@),
{
    match parse_edge_record(line) {
        Err(e) => Err(e),
        Ok((u, v, w)) => match parse_i8(w.as_slice()) {
            None => Err(RecordError::Malformed(2)),
            Some(x) => Ok((u, v, x)),
        },
    }
}

/// Neither byte of `s` is a comma.
pub open spec fn comma_free(s: Seq<u8>) -> bool {
    forall|i: int| 0 <= i < s.len() ==> #[trigger] s[i] != COMMA
}

/// The text that opens an edge record: `u,v,` in decimal.
pub open spec fn edge_ids_text(u: u64, v: u64) -> Seq<u8> {
    decimal(u as nat) + seq![COMMA] + decimal(v as nat) + seq![COMMA]
}

proof fn lemma_decimal(n: nat)
    ensures
        decimal(n).len() > 0,
        all_digits(decimal(n)),
        digits_value(decimal(n)) == n,
    decreases n,
{
    if n >= 10 {
        lemma_decimal(n / 10);
        assert(decimal(n).drop_last() =~= decimal(n / 10));
        assert(all_digits(decimal(n)));
        let last = decimal(n).last();
        assert(last == (n % 10 + 48) as u8);
        assert((last - 48) as nat == n % 10);
        assert((n / 10) * 10 + n % 10 == n) by (nonlinear_arith);
    } else {
        assert(decimal(n).drop_last() =~= Seq::<u8>::empty());
        assert(digits_value(decimal(n).drop_last()) == 0);
        assert(decimal(n).last() == (n + 48) as u8);
    }
}

/// Decimal renderings hold digits only, so no sign and no comma.
proof fn lemma_decimal_comma_free(n: nat)
    ensures
        comma_free(decimal(n)),
        decimal(n)[0] != PLUS,
        decimal(n)[0] != MINUS,
{
    lemma_decimal(n);
    assert(is_digit(decimal(n)[0]));
}

/// A rendered number reads back as itself.
pub proof fn lemma_parse_u64_of_decimal(n: u64)
    ensures
        spec_parse_u64(decimal(n as nat)) == Some(n),
{
    lemma_decimal(n as nat);
    lemma_decimal_comma_free(n as nat);
}

/// Appending comma-free text extends the last field.
proof fn lemma_split_append_plain(p: Seq<u8>, t: Seq<u8>)
    requires
        comma_free(t),
    ensures
        split_fields(p + t) == split_fields(p).update(
            split_fields(p).len() - 1,
            split_fields(p).last() + t,
        ),
    decreases t.len(),
{
    lemma_split_nonempty(p);
    if t.len() == 0 {
        assert(p + t =~= p);
        assert(split_fields(p).last() + t =~= split_fields(p).last());
        assert(split_fields(p).update(split_fields(p).len() - 1, split_fields(p).last())
            =~= split_fields(p));
    } else {
        let t0 = t.drop_last();
        lemma_split_append_plain(p, t0);
        assert((p + t).drop_last() =~= p + t0);
        assert(t[t.len() - 1] != COMMA);
        assert(split_fields(p).last() + t =~= (split_fields(p).last() + t0).push(t.last()));
        lemma_split_nonempty(p + t0);
        assert(split_fields(p + t) =~= split_fields(p).update(
            split_fields(p).len() - 1,
            split_fields(p).last() + t,
        ));
    }
}

/// A comma opens a new, empty field.
proof fn lemma_split_comma(p: Seq<u8>)
    ensures
        split_fields(p.push(COMMA)) == split_fields(p).push(Seq::<u8>::empty()),
{
    assert(p.push(COMMA).drop_last() =~= p);
}

/// Law of the edge-list format: a record written as `u,v,` followed by a
/// comma-free weight text reads back as the same two ids and the same text.
pub proof fn lemma_edge_record_roundtrip(u: u64, v: u64, w: Seq<u8>)
    requires
        comma_free(w),
    ensures
        spec_edge_record(edge_ids_text(u, v) + w) == Ok::<(u64, u64, Seq<u8>), RecordError>(
            (u, v, w),
        ),
{
    let du = decimal(u as nat);
    let dv = decimal(v as nat);
    lemma_decimal_comma_free(u as nat);
    lemma_decimal_comma_free(v as nat);
    let e = Seq::<u8>::empty();
    assert(split_fields(e) == seq![e]);
    lemma_split_append_plain(e, du);
    assert(e + du =~= du);
    assert(split_fields(du) =~= seq![du]);
    lemma_split_comma(du);
    let a = du.push(COMMA);
    assert(split_fields(a) =~= seq![du, e]);
    lemma_split_append_plain(a, dv);
    assert(split_fields(a + dv) =~= seq![du, dv]);
    lemma_split_comma(a + dv);
    let b = (a + dv).push(COMMA);
    assert(split_fields(b) =~= seq![du, dv, e]);
    lemma_split_append_plain(b, w);
    assert(split_fields(b + w) =~= seq![du, dv, w]);
    assert(b + w =~= edge_ids_text(u, v) + w);
    lemma_parse_u64_of_decimal(u);
    lemma_parse_u64_of_decimal(v);
}

/// Appends the decimal rendering of `n` to `out`.
fn push_decimal(n: u64, out: &mut Vec<u8>)
    ensures
        final(out)@ == old(out)@ + decimal(n as nat),
    decreases n,
{
    if n >= 10 {
        push_decimal(n / 10, out);
    }
    out.push((n % 10 + 48) as u8);
    assert(out@ =~= old(out)@ + decimal(n as nat));
}

/// The text `u,v,` that opens the record of the edge from `u` to `v`.
pub fn render_edge_ids(u: u64, v: u64) -> (text: Vec<u8>)
    ensures
        text@ == edge_ids_text(u, v),
{
    let mut text: Vec<u8> = Vec::new();
    push_decimal(u, &mut text);
    text.push(COMMA);
    push_decimal(v, &mut text);
    text.push(COMMA);
    assert(text@ =~= edge_ids_text(u, v));
    text
}

} // verus!
