//! Byte layouts, all little-endian. A matrix: a 4-byte row count, then per row a 4-byte entry
//! count and, per entry, the field value in 4 bytes and the column in 8 bytes. A vector of field
//! values: a 4-byte count, then 4 bytes per value. A label: a 4-byte length, then its UTF-8 bytes.
use crate::compose::{LabeledPolynomial, MatrixPolynomials};
use crate::field::{Fp, P};
use crate::matrix::{entries_view, rows_view, Entry, Matrix};
use vstd::prelude::*;
use vstd::string::StringSliceAdditionalSpecFns;
use vstd::utf8::{decode_utf8, encode_utf8, encode_utf8_decode_utf8, encode_utf8_valid_utf8, valid_utf8};

verus! {

pub open spec fn pow256(n: nat) -> nat
    decreases n,
{
    if n == 0 {
        1
    } else {
        256 * pow256((n - 1) as nat)
    }
}

/// `x` in `n` little-endian bytes.
pub open spec fn le_bytes(x: nat, n: nat) -> Seq<u8>
    decreases n,
{
    if n == 0 {
        Seq::empty()
    } else {
        seq![(x % 256) as u8] + le_bytes(x / 256, (n - 1) as nat)
    }
}

/// The number that little-endian bytes `s` stand for.
pub open spec fn from_le(s: Seq<u8>) -> nat
    decreases s.len(),
{
    if s.len() == 0 {
        0
    } else {
        s[0] as nat + 256 * from_le(s.drop_first())
    }
}

pub open spec fn encode_entry(e: (int, usize)) -> Seq<u8> {
    le_bytes(e.0 as nat, 4) + le_bytes(e.1 as nat, 8)
}

pub open spec fn encode_entries(r: Seq<(int, usize)>) -> Seq<u8>
    decreases r.len(),
{
    if r.len() == 0 {
        Seq::empty()
    } else {
        encode_entry(r[0]) + encode_entries(r.drop_first())
    }
}

pub open spec fn encode_row(r: Seq<(int, usize)>) -> Seq<u8> {
    le_bytes(r.len(), 4) + encode_entries(r)
}

pub open spec fn encode_rows(rows: Seq<Seq<(int, usize)>>) -> Seq<u8>
    decreases rows.len(),
{
    if rows.len() == 0 {
        Seq::empty()
    } else {
        encode_row(rows[0]) + encode_rows(rows.drop_first())
    }
}

/// The bytes of a matrix with entries `rows`.
pub open spec fn encode_matrix(rows: Seq<Seq<(int, usize)>>) -> Seq<u8> {
    le_bytes(rows.len(), 4) + encode_rows(rows)
}

/// What can be written: counts fit in 4 bytes, values are canonical.
pub open spec fn encodable(rows: Seq<Seq<(int, usize)>>) -> bool {
    &&& rows.len() < pow256(4)
    &&& forall|i: int| 0 <= i < rows.len() ==> (#[trigger] rows[i]).len() < pow256(4)
    &&& forall|i: int, t: int|
        0 <= i < rows.len() && 0 <= t < rows[i].len() ==> 0 <= (#[trigger] rows[i][t]).0 < P
}

/// The number in the `n` bytes at `off`, if there are that many.
pub open spec fn parse_le(b: Seq<u8>, off: int, n: nat) -> Option<(nat, int)> {
    if 0 <= off && off + n <= b.len() {
        Some((from_le(b.subrange(off, off + n)), off + n))
    } else {
        None
    }
}

pub open spec fn parse_entry(b: Seq<u8>, off: int) -> Result<((int, usize), int), DecodeError> {
    match parse_le(b, off, 4) {
        None => Err(DecodeError::UnexpectedEnd),
        Some((f, o1)) => match parse_le(b, o1, 8) {
            None => Err(DecodeError::UnexpectedEnd),
            Some((c, o2)) => if f < P && c <= usize::MAX {
                Ok(((f as int, c as usize), o2))
            } else {
                Err(DecodeError::InvalidValue)
            },
        },
    }
}

pub open spec fn prepend<T>(done: Seq<T>, r: Result<(Seq<T>, int), DecodeError>) -> Result<
    (Seq<T>, int),
    DecodeError,
> {
    match r {
        Err(e) => Err(e),
        Ok((rest, end)) => Ok((done + rest, end)),
    }
}

pub open spec fn parse_entries(b: Seq<u8>, off: int, count: nat) -> Result<
    (Seq<(int, usize)>, int),
    DecodeError,
>
    decreases count,
{
    if count == 0 {
        Ok((Seq::empty(), off))
    } else {
        match parse_entry(b, off) {
            Err(e) => Err(e),
            Ok((e, o)) => prepend(seq![e], parse_entries(b, o, (count - 1) as nat)),
        }
    }
}

pub open spec fn parse_row(b: Seq<u8>, off: int) -> Result<(Seq<(int, usize)>, int), DecodeError> {
    match parse_le(b, off, 4) {
        None => Err(DecodeError::UnexpectedEnd),
        Some((n, o)) => parse_entries(b, o, n),
    }
}

pub open spec fn parse_rows(b: Seq<u8>, off: int, count: nat) -> Result<
    (Seq<Seq<(int, usize)>>, int),
    DecodeError,
>
    decreases count,
{
    if count == 0 {
        Ok((Seq::empty(), off))
    } else {
        match parse_row(b, off) {
            Err(e) => Err(e),
            Ok((r, o)) => prepend(seq![r], parse_rows(b, o, (count - 1) as nat)),
        }
    }
}

/// The matrix whose bytes start at `off`, and where they end.
pub open spec fn parse_matrix(b: Seq<u8>, off: int) -> Result<
    (Seq<Seq<(int, usize)>>, int),
    DecodeError,
> {
    match parse_le(b, off, 4) {
        None => Err(DecodeError::UnexpectedEnd),
        Some((n, o)) => parse_rows(b, o, n),
    }
}

/// Why bytes could not be read.
#[derive(Clone, Copy, Debug, PartialEq, Eq)]
pub enum DecodeError {
    /// The bytes end before the value does.
    UnexpectedEnd,
    /// A field value is not below the modulus, or a column does not fit in `usize`.
    InvalidValue,
}

proof fn lemma_le_bytes_len(x: nat, n: nat)
    ensures
        le_bytes(x, n).len() == n,
    decreases n,
{
    if n > 0 {
        lemma_le_bytes_len(x / 256, (n - 1) as nat);
    }
}

/// Appends `x` in `n` little-endian bytes.
fn write_le(out: &mut Vec<u8>, x: u64, n: usize)
    ensures
        final(out)@ == old(out)@ + le_bytes(x as nat, n as nat),
{
    let ghost start = old(out)@;
    let mut cur = x;
    let mut k: usize = 0;
    while k < n
        invariant
            k <= n,
            out@ + le_bytes(cur as nat, (n - k) as nat) == start + le_bytes(x as nat, n as nat),
        decreases n - k,
    {
        let ghost before = out@;
        out.push((cur % 256) as u8);
        proof {
            assert(le_bytes(cur as nat, (n - k) as nat) == seq![(cur % 256) as u8] + le_bytes(
                (cur / 256) as nat,
                (n - k - 1) as nat,
            ));
            assert(out@ + le_bytes((cur / 256) as nat, (n - k - 1) as nat) =~= before + le_bytes(
                cur as nat,
                (n - k) as nat,
            ));
        }
        cur = cur / 256;
        k = k + 1;
    }
    proof {
        assert(out@ =~= out@ + le_bytes(cur as nat, 0));
    }
}

proof fn lemma_from_le_bound(s: Seq<u8>)
    ensures
        from_le(s) < pow256(s.len()),
    decreases s.len(),
{
    if s.len() > 0 {
        lemma_from_le_bound(s.drop_first());
    }
}

/// The number in the `n` little-endian bytes at `off`.
fn read_le(b: &Vec<u8>, off: usize, n: usize) -> (r: Option<(u64, usize)>)
    requires
        n <= 8,
    ensures
        match parse_le(b@, off as int, n as nat) {
            None => r is None,
            Some((v, o)) => r matches Some((rv, ro)) && rv as nat == v && ro as int == o,
        },
{
    if off > b.len() || n > b.len() - off {
        return None;
    }
    let end = off + n;
    let mut acc: u64 = 0;
    let mut i: usize = n;
    proof {
        assert(b@.subrange(off + n, off + n) =~= Seq::<u8>::empty());
    }
    while i > 0
        invariant
            i <= n <= 8,
            end == off + n,
            off + n <= b@.len(),
            acc == from_le(b@.subrange(off + i, off + n)),
            acc < pow256((n - i) as nat),
        decreases i,
    {
        i = i - 1;
        let ghost s = b@.subrange(off + i, off + n);
        proof {
            assert(s.drop_first() =~= b@.subrange(off + i + 1, off + n));
            lemma_pow256_values();
            lemma_pow256_mono((n - i - 1) as nat, 7);
            let pw = pow256((n - i - 1) as nat);
            assert(pow256((n - i) as nat) == 256 * pw);
            assert(b@[off + i] as int + 256 * acc < 256 * pw) by (nonlinear_arith)
                requires
                    acc < pw,
                    b@[off + i] < 256,
            ;
        }
        acc = b[off + i] as u64 + 256 * acc;
    }
    proof {
        lemma_from_le_bound(b@.subrange(off as int, off + n));
        lemma_pow256_mono(n as nat, 8);
        lemma_pow256_values();
    }
    Some((acc, end))
}

proof fn lemma_pow256_values()
    ensures
        pow256(4) == 0x1_0000_0000,
        pow256(7) == 0x1_0000_0000_0000_00,
        pow256(8) == 0x1_0000_0000_0000_0000,
{
    reveal_with_fuel(pow256, 9);
}

proof fn lemma_pow256_mono(a: nat, b: nat)
    requires
        a <= b,
    ensures
        pow256(a) <= pow256(b),
    decreases b,
{
    if a < b {
        lemma_pow256_mono(a, (b - 1) as nat);
    }
}

proof fn lemma_prepend_empty<T>(r: Result<(Seq<T>, int), DecodeError>)
    ensures
        prepend(Seq::empty(), r) == r,
{
    if let Ok((rest, end)) = r {
        assert(Seq::<T>::empty() + rest =~= rest);
    }
}

proof fn lemma_prepend_assoc<T>(a: Seq<T>, b: Seq<T>, r: Result<(Seq<T>, int), DecodeError>)
    ensures
        prepend(a, prepend(b, r)) == prepend(a + b, r),
{
    if let Ok((rest, end)) = r {
        assert(a + (b + rest) =~= (a + b) + rest);
    }
}

impl Matrix {
    /// The matrix's bytes.
    pub fn write(&self) -> (r: Vec<u8>)
        requires
            encodable(self@),
        ensures
            r@ == encode_matrix(self@),
    {
        let ghost v = self@;
        let mut out: Vec<u8> = Vec::new();
        let n = self.0.len();
        proof {
            lemma_pow256_values();
        }
        write_le(&mut out, n as u64, 4);
        let mut i: usize = 0;
        proof {
            assert(v.subrange(0, n as int) =~= v);
        }
        while i < n
            invariant
                n == v.len(),
                v == self@,
                encodable(v),
                i <= n,
                out@ + encode_rows(v.subrange(i as int, n as int)) == encode_matrix(v),
            decreases n - i,
        {
            let row = &self.0[i];
            let ghost rv = v[i as int];
            let ghost rest = encode_rows(v.subrange(i + 1, n as int));
            proof {
                assert(v.subrange(i as int, n as int).drop_first() =~= v.subrange(i + 1, n as int));
                assert(rv == entries_view(row@));
                lemma_pow256_values();
            }
            let m = row.len();
            write_le(&mut out, m as u64, 4);
            proof {
                assert(rv.subrange(0, m as int) =~= rv);
            }
            let mut t: usize = 0;
            while t < m
                invariant
                    m == rv.len(),
                    rv == entries_view(row@),
                    t <= m,
                    out@ + encode_entries(rv.subrange(t as int, m as int)) + rest == encode_matrix(v),
                decreases m - t,
            {
                let e = row[t];
                proof {
                    assert(rv.subrange(t as int, m as int).drop_first() =~= rv.subrange(t + 1, m as int));
                    assert(rv[t as int] == (e.0@, e.1));
                }
                let ghost before = out@;
                write_le(&mut out, e.0.value(), 4);
                write_le(&mut out, e.1 as u64, 8);
                proof {
                    assert(out@ =~= before + encode_entry(rv[t as int]));
                    assert(encode_entries(rv.subrange(t as int, m as int)) == encode_entry(rv[t as int])
                        + encode_entries(rv.subrange(t + 1, m as int)));
                    assert(out@ + encode_entries(rv.subrange(t + 1, m as int)) + rest =~= before
                        + encode_entries(rv.subrange(t as int, m as int)) + rest);
                }
                t = t + 1;
            }
            proof {
                assert(rv.subrange(m as int, m as int) =~= Seq::<(int, usize)>::empty());
                assert(out@ + encode_entries(Seq::<(int, usize)>::empty()) =~= out@);
            }
            i = i + 1;
        }
        proof {
            assert(v.subrange(n as int, n as int) =~= Seq::<Seq<(int, usize)>>::empty());
            assert(out@ + encode_rows(Seq::<Seq<(int, usize)>>::empty()) =~= out@);
        }
        out
    }

    /// Reads a matrix from the bytes at `off`; gives it with the position where its bytes end.
    pub fn read(b: &Vec<u8>, off: usize) -> (r: Result<(Matrix, usize), DecodeError>)
        ensures
            match parse_matrix(b@, off as int) {
                Err(err) => r matches Err(e) && e == err,
                Ok((m, end)) => r matches Ok((mm, e)) && mm@ == m && e == end,
            },
    {
        let (n, mut pos) = match read_le(b, off, 4) {
            None => {
                return Err(DecodeError::UnexpectedEnd);
            },
            Some(x) => x,
        };
        let ghost rows_start = pos as int;
        let mut rows: Vec<Vec<Entry>> = Vec::new();
        let mut k: u64 = 0;
        proof {
            assert(rows_view(rows@) =~= Seq::<Seq<(int, usize)>>::empty());
            lemma_prepend_empty(parse_rows(b@, pos as int, n as nat));
        }
        while k < n
            invariant
                k <= n,
                parse_matrix(b@, off as int) == prepend(
                    rows_view(rows@),
                    parse_rows(b@, pos as int, (n - k) as nat),
                ),
            decreases n - k,
        {
            let ghost row_hdr = pos as int;
            let (cnt, q1) = match read_le(b, pos, 4) {
                None => {
                    return Err(DecodeError::UnexpectedEnd);
                },
                Some(x) => x,
            };
            let ghost row_start = q1 as int;
            pos = q1;
            let mut row: Vec<Entry> = Vec::new();
            let mut t: u64 = 0;
            proof {
                assert(entries_view(row@) =~= Seq::<(int, usize)>::empty());
                lemma_prepend_empty(parse_entries(b@, q1 as int, cnt as nat));
            }
            while t < cnt
                invariant
                    t <= cnt,
                    k < n,
                    parse_matrix(b@, off as int) == prepend(
                        rows_view(rows@),
                        parse_rows(b@, row_hdr, (n - k) as nat),
                    ),
                    parse_le(b@, row_hdr, 4) == Some((cnt as nat, row_start)),
                    parse_entries(b@, row_start, cnt as nat) == prepend(
                        entries_view(row@),
                        parse_entries(b@, pos as int, (cnt - t) as nat),
                    ),
                decreases cnt - t,
            {
                let (f, q2) = match read_le(b, pos, 4) {
                    None => {
                        return Err(DecodeError::UnexpectedEnd);
                    },
                    Some(x) => x,
                };
                let (c, q3) = match read_le(b, q2, 8) {
                    None => {
                        return Err(DecodeError::UnexpectedEnd);
                    },
                    Some(x) => x,
                };
                if f >= P || c > usize::MAX as u64 {
                    return Err(DecodeError::InvalidValue);
                }
                let ghost before = entries_view(row@);
                proof {
                    assert(parse_entry(b@, pos as int) == Ok::<_, DecodeError>(((f as int, c as usize), q3 as int)));
                }
                row.push((Fp { v: f }, c as usize));
                proof {
                    assert(entries_view(row@) =~= before + seq![(f as int, c as usize)]);
                    lemma_prepend_assoc(
                        before,
                        seq![(f as int, c as usize)],
                        parse_entries(b@, q3 as int, (cnt - t - 1) as nat),
                    );
                }
                pos = q3;
                t = t + 1;
            }
            let ghost rv = entries_view(row@);
            let ghost before = rows_view(rows@);
            rows.push(row);
            proof {
                assert(rv + Seq::<(int, usize)>::empty() =~= rv);
                assert(rows_view(rows@) =~= before + seq![rv]);
                lemma_prepend_assoc(before, seq![rv], parse_rows(b@, pos as int, (n - k - 1) as nat));
            }
            k = k + 1;
        }
        proof {
            assert(rows_view(rows@) + Seq::<Seq<(int, usize)>>::empty() =~= rows_view(rows@));
        }
        Ok((Matrix(rows), pos))
    }
}

proof fn lemma_split<T>(b: Seq<T>, o: int, x: Seq<T>, y: Seq<T>)
    requires
        0 <= o,
        o + x.len() + y.len() <= b.len(),
        b.subrange(o, o + x.len() + y.len()) == x + y,
    ensures
        b.subrange(o, o + x.len()) == x,
        b.subrange(o + x.len(), o + x.len() + y.len()) == y,
{
    assert(b.subrange(o, o + x.len()) =~= (x + y).subrange(0, x.len() as int));
    assert((x + y).subrange(0, x.len() as int) =~= x);
    assert(b.subrange(o + x.len(), o + x.len() + y.len()) =~= (x + y).subrange(
        x.len() as int,
        (x.len() + y.len()) as int,
    ));
    assert((x + y).subrange(x.len() as int, (x.len() + y.len()) as int) =~= y);
}

proof fn lemma_from_le_bytes(x: nat, n: nat)
    requires
        x < pow256(n),
    ensures
        le_bytes(x, n).len() == n,
        from_le(le_bytes(x, n)) == x,
    decreases n,
{
    lemma_le_bytes_len(x, n);
    if n > 0 {
        lemma_from_le_bytes(x / 256, (n - 1) as nat);
        assert(le_bytes(x, n).drop_first() =~= le_bytes(x / 256, (n - 1) as nat));
    }
}

proof fn lemma_parse_le_of(b: Seq<u8>, off: int, x: nat, n: nat)
    requires
        0 <= off,
        x < pow256(n),
        off + n <= b.len(),
        b.subrange(off, off + n) == le_bytes(x, n),
    ensures
        parse_le(b, off, n) == Some((x, off + n)),
{
    lemma_from_le_bytes(x, n);
}

proof fn lemma_parse_entries_of(b: Seq<u8>, off: int, r: Seq<(int, usize)>)
    requires
        0 <= off,
        forall|t: int| 0 <= t < r.len() ==> 0 <= (#[trigger] r[t]).0 < P,
        off + encode_entries(r).len() <= b.len(),
        b.subrange(off, off + encode_entries(r).len()) == encode_entries(r),
    ensures
        parse_entries(b, off, r.len()) == Ok::<_, DecodeError>((r, off + encode_entries(r).len())),
    decreases r.len(),
{
    if r.len() == 0 {
        assert(r =~= Seq::empty());
    } else {
        let e = r[0];
        let rest = r.drop_first();
        let a = le_bytes(e.0 as nat, 4);
        let c = le_bytes(e.1 as nat, 8);
        lemma_le_bytes_len(e.0 as nat, 4);
        lemma_le_bytes_len(e.1 as nat, 8);
        lemma_pow256_values();
        assert(encode_entries(r) == (a + c) + encode_entries(rest));
        lemma_split(b, off, a + c, encode_entries(rest));
        lemma_split(b, off, a, c);
        lemma_parse_le_of(b, off, e.0 as nat, 4);
        lemma_parse_le_of(b, off + 4, e.1 as nat, 8);
        assert forall|t: int| 0 <= t < rest.len() implies 0 <= (#[trigger] rest[t]).0 < P by {
            assert(rest[t] == r[t + 1]);
        }
        lemma_parse_entries_of(b, off + 12, rest);
        assert(seq![e] + rest =~= r);
    }
}

proof fn lemma_parse_rows_of(b: Seq<u8>, off: int, rows: Seq<Seq<(int, usize)>>)
    requires
        0 <= off,
        encodable(rows),
        off + encode_rows(rows).len() <= b.len(),
        b.subrange(off, off + encode_rows(rows).len()) == encode_rows(rows),
    ensures
        parse_rows(b, off, rows.len()) == Ok::<_, DecodeError>((rows, off + encode_rows(rows).len())),
    decreases rows.len(),
{
    if rows.len() == 0 {
        assert(rows =~= Seq::empty());
    } else {
        let r = rows[0];
        let rest = rows.drop_first();
        let h = le_bytes(r.len(), 4);
        lemma_le_bytes_len(r.len(), 4);
        lemma_split(b, off, encode_row(r), encode_rows(rest));
        lemma_split(b, off, h, encode_entries(r));
        lemma_parse_le_of(b, off, r.len(), 4);
        assert forall|t: int| 0 <= t < r.len() implies 0 <= (#[trigger] r[t]).0 < P by {
            assert(rows[0][t] == r[t]);
        }
        lemma_parse_entries_of(b, off + 4, r);
        assert(encodable(rest)) by {
            assert forall|i: int| 0 <= i < rest.len() implies (#[trigger] rest[i]).len() < pow256(4) by {
                assert(rest[i] == rows[i + 1]);
            }
            assert forall|i: int, t: int|
                0 <= i < rest.len() && 0 <= t < rest[i].len() implies 0 <= (
                #[trigger] rest[i][t]).0 < P by {
                assert(rest[i] == rows[i + 1]);
            }
        }
        lemma_parse_rows_of(b, off + encode_row(r).len(), rest);
        assert(seq![r] + rest =~= rows);
    }
}

/// Reading back what `Matrix::write` wrote gives the same matrix, wherever the bytes stand
/// and whatever follows them.
pub proof fn lemma_matrix_round_trip(m: Seq<Seq<(int, usize)>>, b: Seq<u8>, off: int)
    requires
        encodable(m),
        0 <= off,
        off + encode_matrix(m).len() <= b.len(),
        b.subrange(off, off + encode_matrix(m).len()) == encode_matrix(m),
    ensures
        parse_matrix(b, off) == Ok::<_, DecodeError>((m, off + encode_matrix(m).len())),
{
    let h = le_bytes(m.len(), 4);
    lemma_le_bytes_len(m.len(), 4);
    lemma_split(b, off, h, encode_rows(m));
    lemma_parse_le_of(b, off, m.len(), 4);
    lemma_parse_rows_of(b, off + 4, m);
}

pub open spec fn fp_view(s: Seq<Fp>) -> Seq<int> {
    Seq::new(s.len(), |i: int| s[i]@)
}

pub open spec fn encode_values(s: Seq<int>) -> Seq<u8>
    decreases s.len(),
{
    if s.len() == 0 {
        Seq::empty()
    } else {
        le_bytes(s[0] as nat, 4) + encode_values(s.drop_first())
    }
}

pub open spec fn encode_field_vec(s: Seq<int>) -> Seq<u8> {
    le_bytes(s.len(), 4) + encode_values(s)
}

pub open spec fn values_encodable(s: Seq<int>) -> bool {
    &&& s.len() < pow256(4)
    &&& forall|i: int| 0 <= i < s.len() ==> 0 <= #[trigger] s[i] < P
}

/// A label and the coefficients of its polynomial.
pub open spec fn encode_labeled(l: (Seq<char>, Seq<int>)) -> Seq<u8> {
    le_bytes(encode_utf8(l.0).len(), 4) + encode_utf8(l.0) + encode_field_vec(l.1)
}

pub open spec fn labeled_encodable(l: (Seq<char>, Seq<int>)) -> bool {
    &&& encode_utf8(l.0).len() < pow256(4)
    &&& values_encodable(l.1)
}

pub open spec fn parse_values(b: Seq<u8>, off: int, count: nat) -> Result<(Seq<int>, int), DecodeError>
    decreases count,
{
    if count == 0 {
        Ok((Seq::empty(), off))
    } else {
        match parse_le(b, off, 4) {
            None => Err(DecodeError::UnexpectedEnd),
            Some((x, o)) => if x < P {
                prepend(seq![x as int], parse_values(b, o, (count - 1) as nat))
            } else {
                Err(DecodeError::InvalidValue)
            },
        }
    }
}

pub open spec fn parse_field_vec(b: Seq<u8>, off: int) -> Result<(Seq<int>, int), DecodeError> {
    match parse_le(b, off, 4) {
        None => Err(DecodeError::UnexpectedEnd),
        Some((n, o)) => parse_values(b, o, n),
    }
}

pub open spec fn parse_label(b: Seq<u8>, off: int) -> Result<(Seq<char>, int), DecodeError> {
    match parse_le(b, off, 4) {
        None => Err(DecodeError::UnexpectedEnd),
        Some((n, o)) => if o + n > b.len() {
            Err(DecodeError::UnexpectedEnd)
        } else if !valid_utf8(b.subrange(o, o + n)) {
            Err(DecodeError::InvalidValue)
        } else {
            Ok((decode_utf8(b.subrange(o, o + n)), o + n))
        },
    }
}

pub open spec fn parse_labeled(b: Seq<u8>, off: int) -> Result<
    ((Seq<char>, Seq<int>), int),
    DecodeError,
> {
    match parse_label(b, off) {
        Err(e) => Err(e),
        Ok((l, o)) => match parse_field_vec(b, o) {
            Err(e) => Err(e),
            Ok((c, e)) => Ok(((l, c), e)),
        },
    }
}

/// Relies on `std::str::from_utf8`: it accepts exactly the valid UTF-8 byte strings, and the
/// text it returns is made of those bytes.
#[verifier::external_body]
fn text_from_utf8(bytes: &Vec<u8>) -> (r: Option<String>)
    ensures
        r is Some <==> valid_utf8(bytes@),
        r matches Some(s) ==> encode_utf8(s@) == bytes@,
{
    match std::str::from_utf8(bytes) {
        Ok(s) => Some(s.to_string()),
        Err(_) => None,
    }
}

fn write_values(out: &mut Vec<u8>, v: &Vec<Fp>)
    requires
        v@.len() < pow256(4),
    ensures
        final(out)@ == old(out)@ + encode_field_vec(fp_view(v@)),
{
    let ghost s = fp_view(v@);
    let ghost start = old(out)@;
    let n = v.len();
    proof {
        lemma_pow256_values();
        assert(s.subrange(0, n as int) =~= s);
    }
    write_le(out, n as u64, 4);
    let mut i: usize = 0;
    while i < n
        invariant
            n == v@.len(),
            s == fp_view(v@),
            i <= n,
            out@ + encode_values(s.subrange(i as int, n as int)) == start + encode_field_vec(s),
        decreases n - i,
    {
        let ghost before = out@;
        proof {
            assert(s.subrange(i as int, n as int).drop_first() =~= s.subrange(i + 1, n as int));
        }
        write_le(out, v[i].value(), 4);
        proof {
            assert(out@ + encode_values(s.subrange(i + 1, n as int)) =~= before + encode_values(
                s.subrange(i as int, n as int),
            ));
        }
        i = i + 1;
    }
    proof {
        assert(s.subrange(n as int, n as int) =~= Seq::<int>::empty());
        assert(out@ + encode_values(Seq::<int>::empty()) =~= out@);
    }
}

fn write_labeled(out: &mut Vec<u8>, p: &LabeledPolynomial)
    requires
        labeled_encodable((p.label@, fp_view(p.polynomial@))),
    ensures
        final(out)@ == old(out)@ + encode_labeled((p.label@, fp_view(p.polynomial@))),
{
    let ghost start = old(out)@;
    let text = p.label.as_str();
    let bytes = text.as_bytes();
    let n = bytes.len();
    proof {
        lemma_pow256_values();
    }
    write_le(out, n as u64, 4);
    let ghost head = out@;
    let mut i: usize = 0;
    while i < n
        invariant
            n == bytes@.len(),
            i <= n,
            out@ == head + bytes@.subrange(0, i as int),
        decreases n - i,
    {
        out.push(bytes[i]);
        proof {
            assert(out@ =~= head + bytes@.subrange(0, i + 1));
        }
        i = i + 1;
    }
    proof {
        assert(bytes@.subrange(0, n as int) =~= bytes@);
    }
    write_values(out, &p.polynomial);
}

fn read_values(b: &Vec<u8>, off: usize) -> (r: Result<(Vec<Fp>, usize), DecodeError>)
    ensures
        match parse_field_vec(b@, off as int) {
            Err(err) => r matches Err(e) && e == err,
            Ok((s, end)) => r matches Ok((v, e)) && fp_view(v@) == s && e == end,
        },
{
    let (n, mut pos) = match read_le(b, off, 4) {
        None => {
            return Err(DecodeError::UnexpectedEnd);
        },
        Some(x) => x,
    };
    let ghost start = pos as int;
    let mut v: Vec<Fp> = Vec::new();
    let mut k: u64 = 0;
    proof {
        assert(fp_view(v@) =~= Seq::<int>::empty());
        lemma_prepend_empty(parse_values(b@, start, n as nat));
    }
    while k < n
        invariant
            k <= n,
            parse_field_vec(b@, off as int) == prepend(
                fp_view(v@),
                parse_values(b@, pos as int, (n - k) as nat),
            ),
        decreases n - k,
    {
        let (x, q1) = match read_le(b, pos, 4) {
            None => {
                return Err(DecodeError::UnexpectedEnd);
            },
            Some(x) => x,
        };
        if x >= P {
            return Err(DecodeError::InvalidValue);
        }
        let ghost before = fp_view(v@);
        v.push(Fp { v: x });
        proof {
            assert(fp_view(v@) =~= before + seq![x as int]);
            lemma_prepend_assoc(before, seq![x as int], parse_values(b@, q1 as int, (n - k - 1) as nat));
        }
        pos = q1;
        k = k + 1;
    }
    proof {
        assert(fp_view(v@) + Seq::<int>::empty() =~= fp_view(v@));
    }
    Ok((v, pos))
}

fn read_labeled(b: &Vec<u8>, off: usize) -> (r: Result<(LabeledPolynomial, usize), DecodeError>)
    ensures
        match parse_labeled(b@, off as int) {
            Err(err) => r matches Err(e) && e == err,
            Ok((l, end)) => r matches Ok((p, e)) && p.label@ == l.0 && fp_view(p.polynomial@)
                == l.1 && e == end,
        },
{
    let (n, pos) = match read_le(b, off, 4) {
        None => {
            return Err(DecodeError::UnexpectedEnd);
        },
        Some(x) => x,
    };
    if pos > b.len() || (n as usize) > b.len() - pos || n > usize::MAX as u64 {
        return Err(DecodeError::UnexpectedEnd);
    }
    let end = pos + n as usize;
    let mut bytes: Vec<u8> = Vec::new();
    let mut i: usize = pos;
    while i < end
        invariant
            pos <= i <= end,
            end <= b@.len(),
            bytes@ == b@.subrange(pos as int, i as int),
        decreases end - i,
    {
        bytes.push(b[i]);
        proof {
            assert(bytes@ =~= b@.subrange(pos as int, i + 1));
        }
        i = i + 1;
    }
    let label = match text_from_utf8(&bytes) {
        None => {
            return Err(DecodeError::InvalidValue);
        },
        Some(s) => s,
    };
    proof {
        encode_utf8_decode_utf8(label@);
    }
    let (polynomial, e) = match read_values(b, end) {
        Err(x) => {
            return Err(x);
        },
        Ok(x) => x,
    };
    Ok((LabeledPolynomial { label, polynomial }, e))
}

proof fn lemma_parse_values_of(b: Seq<u8>, off: int, s: Seq<int>)
    requires
        0 <= off,
        forall|i: int| 0 <= i < s.len() ==> 0 <= #[trigger] s[i] < P,
        off + encode_values(s).len() <= b.len(),
        b.subrange(off, off + encode_values(s).len()) == encode_values(s),
    ensures
        parse_values(b, off, s.len()) == Ok::<_, DecodeError>((s, off + encode_values(s).len())),
    decreases s.len(),
{
    if s.len() == 0 {
        assert(s =~= Seq::empty());
    } else {
        let rest = s.drop_first();
        let h = le_bytes(s[0] as nat, 4);
        lemma_le_bytes_len(s[0] as nat, 4);
        lemma_pow256_values();
        lemma_split(b, off, h, encode_values(rest));
        lemma_parse_le_of(b, off, s[0] as nat, 4);
        assert forall|i: int| 0 <= i < rest.len() implies 0 <= #[trigger] rest[i] < P by {
            assert(rest[i] == s[i + 1]);
        }
        lemma_parse_values_of(b, off + 4, rest);
        assert(seq![s[0]] + rest =~= s);
    }
}

proof fn lemma_parse_field_vec_of(b: Seq<u8>, off: int, s: Seq<int>)
    requires
        0 <= off,
        values_encodable(s),
        off + encode_field_vec(s).len() <= b.len(),
        b.subrange(off, off + encode_field_vec(s).len()) == encode_field_vec(s),
    ensures
        parse_field_vec(b, off) == Ok::<_, DecodeError>((s, off + encode_field_vec(s).len())),
{
    lemma_le_bytes_len(s.len(), 4);
    lemma_split(b, off, le_bytes(s.len(), 4), encode_values(s));
    lemma_parse_le_of(b, off, s.len(), 4);
    lemma_parse_values_of(b, off + 4, s);
}

proof fn lemma_parse_labeled_of(b: Seq<u8>, off: int, l: (Seq<char>, Seq<int>))
    requires
        0 <= off,
        labeled_encodable(l),
        off + encode_labeled(l).len() <= b.len(),
        b.subrange(off, off + encode_labeled(l).len()) == encode_labeled(l),
    ensures
        parse_labeled(b, off) == Ok::<_, DecodeError>((l, off + encode_labeled(l).len())),
{
    let u = encode_utf8(l.0);
    let h = le_bytes(u.len(), 4);
    lemma_le_bytes_len(u.len(), 4);
    lemma_split(b, off, h + u, encode_field_vec(l.1));
    lemma_split(b, off, h, u);
    lemma_parse_le_of(b, off, u.len(), 4);
    encode_utf8_valid_utf8(l.0);
    encode_utf8_decode_utf8(l.0);
    lemma_parse_field_vec_of(b, off + 4 + u.len(), l.1);
}

/// The mathematical content of a `MatrixPolynomials`: labels as text, values as residues.
pub struct MatrixPolynomialsView {
    pub row: (Seq<char>, Seq<int>),
    pub col: (Seq<char>, Seq<int>),
    pub val: (Seq<char>, Seq<int>),
    pub row_col: (Seq<char>, Seq<int>),
    pub row_evals_on_k: Seq<int>,
    pub col_evals_on_k: Seq<int>,
    pub val_evals_on_k: Seq<int>,
    pub row_evals_on_b: Seq<int>,
    pub col_evals_on_b: Seq<int>,
    pub val_evals_on_b: Seq<int>,
    pub row_col_evals_on_b: Seq<int>,
}

impl View for MatrixPolynomials {
    type V = MatrixPolynomialsView;

    open spec fn view(&self) -> MatrixPolynomialsView {
        MatrixPolynomialsView {
            row: (self.row.label@, fp_view(self.row.polynomial@)),
            col: (self.col.label@, fp_view(self.col.polynomial@)),
            val: (self.val.label@, fp_view(self.val.polynomial@)),
            row_col: (self.row_col.label@, fp_view(self.row_col.polynomial@)),
            row_evals_on_k: fp_view(self.row_evals_on_k@),
            col_evals_on_k: fp_view(self.col_evals_on_k@),
            val_evals_on_k: fp_view(self.val_evals_on_k@),
            row_evals_on_b: fp_view(self.row_evals_on_b@),
            col_evals_on_b: fp_view(self.col_evals_on_b@),
            val_evals_on_b: fp_view(self.val_evals_on_b@),
            row_col_evals_on_b: fp_view(self.row_col_evals_on_b@),
        }
    }
}

/// The bytes of a `MatrixPolynomials`: the four labeled polynomials, then the seven
/// evaluation vectors, each behind its length.
pub open spec fn encode_matrix_polynomials(v: MatrixPolynomialsView) -> Seq<u8> {
    encode_labeled(v.row) + (encode_labeled(v.col) + (encode_labeled(v.val) + (encode_labeled(v.row_col) + (encode_field_vec(v.row_evals_on_k) + (encode_field_vec(v.col_evals_on_k) + (encode_field_vec(v.val_evals_on_k) + (encode_field_vec(v.row_evals_on_b) + (encode_field_vec(v.col_evals_on_b) + (encode_field_vec(v.val_evals_on_b) + (encode_field_vec(v.row_col_evals_on_b)))))))))))
}

pub open spec fn polynomials_encodable(v: MatrixPolynomialsView) -> bool {
    &&& labeled_encodable(v.row)
    &&& labeled_encodable(v.col)
    &&& labeled_encodable(v.val)
    &&& labeled_encodable(v.row_col)
    &&& values_encodable(v.row_evals_on_k)
    &&& values_encodable(v.col_evals_on_k)
    &&& values_encodable(v.val_evals_on_k)
    &&& values_encodable(v.row_evals_on_b)
    &&& values_encodable(v.col_evals_on_b)
    &&& values_encodable(v.val_evals_on_b)
    &&& values_encodable(v.row_col_evals_on_b)
}

/// The `MatrixPolynomials` whose bytes start at `off`, and where they end.
pub open spec fn parse_matrix_polynomials(b: Seq<u8>, off: int) -> Result<(MatrixPolynomialsView, int), DecodeError> {
    match parse_labeled(b, off) {
        Err(e) => Err(e),
        Ok((row, o0)) =>
            match parse_labeled(b, o0) {
                Err(e) => Err(e),
                Ok((col, o1)) =>
                    match parse_labeled(b, o1) {
                        Err(e) => Err(e),
                        Ok((val, o2)) =>
                            match parse_labeled(b, o2) {
                                Err(e) => Err(e),
                                Ok((row_col, o3)) =>
                                    match parse_field_vec(b, o3) {
                                        Err(e) => Err(e),
                                        Ok((row_evals_on_k, o4)) =>
                                            match parse_field_vec(b, o4) {
                                                Err(e) => Err(e),
                                                Ok((col_evals_on_k, o5)) =>
                                                    match parse_field_vec(b, o5) {
                                                        Err(e) => Err(e),
                                                        Ok((val_evals_on_k, o6)) =>
                                                            match parse_field_vec(b, o6) {
                                                                Err(e) => Err(e),
                                                                Ok((row_evals_on_b, o7)) =>
                                                                    match parse_field_vec(b, o7) {
                                                                        Err(e) => Err(e),
                                                                        Ok((col_evals_on_b, o8)) =>
                                                                            match parse_field_vec(b, o8) {
                                                                                Err(e) => Err(e),
                                                                                Ok((val_evals_on_b, o9)) =>
                                                                                    match parse_field_vec(b, o9) {
                                                                                        Err(e) => Err(e),
                                                                                        Ok((row_col_evals_on_b, o10)) =>
                                                                                            Ok((MatrixPolynomialsView { row, col, val, row_col, row_evals_on_k, col_evals_on_k, val_evals_on_k, row_evals_on_b, col_evals_on_b, val_evals_on_b, row_col_evals_on_b }, o10)),
                                                                                    }
                                                                            }
                                                                    }
                                                            }
                                                    }
                                            }
                                    }
                            }
                    }
            }
    }
}

impl MatrixPolynomials {
    /// The bytes of the bundle; the product's values on `K` are not stored.
    #[verifier::rlimit(100)]
    pub fn write(&self) -> (r: Vec<u8>)
        requires
            polynomials_encodable(self@),
        ensures
            r@ == encode_matrix_polynomials(self@),
    {
        let ghost v = self@;
        let mut out: Vec<u8> = Vec::new();
        proof {
            assert(out@ + encode_matrix_polynomials(v) =~= encode_matrix_polynomials(v));
        }
        let ghost before = out@;
        write_labeled(&mut out, &self.row);
        proof {
            assert(out@ + (encode_labeled(v.col) + (encode_labeled(v.val) + (encode_labeled(v.row_col) + (encode_field_vec(v.row_evals_on_k) + (encode_field_vec(v.col_evals_on_k) + (encode_field_vec(v.val_evals_on_k) + (encode_field_vec(v.row_evals_on_b) + (encode_field_vec(v.col_evals_on_b) + (encode_field_vec(v.val_evals_on_b) + (encode_field_vec(v.row_col_evals_on_b))))))))))) =~= before + (encode_labeled(v.row) + (encode_labeled(v.col) + (encode_labeled(v.val) + (encode_labeled(v.row_col) + (encode_field_vec(v.row_evals_on_k) + (encode_field_vec(v.col_evals_on_k) + (encode_field_vec(v.val_evals_on_k) + (encode_field_vec(v.row_evals_on_b) + (encode_field_vec(v.col_evals_on_b) + (encode_field_vec(v.val_evals_on_b) + (encode_field_vec(v.row_col_evals_on_b)))))))))))));
        }
        let ghost before = out@;
        write_labeled(&mut out, &self.col);
        proof {
            assert(out@ + (encode_labeled(v.val) + (encode_labeled(v.row_col) + (encode_field_vec(v.row_evals_on_k) + (encode_field_vec(v.col_evals_on_k) + (encode_field_vec(v.val_evals_on_k) + (encode_field_vec(v.row_evals_on_b) + (encode_field_vec(v.col_evals_on_b) + (encode_field_vec(v.val_evals_on_b) + (encode_field_vec(v.row_col_evals_on_b)))))))))) =~= before + (encode_labeled(v.col) + (encode_labeled(v.val) + (encode_labeled(v.row_col) + (encode_field_vec(v.row_evals_on_k) + (encode_field_vec(v.col_evals_on_k) + (encode_field_vec(v.val_evals_on_k) + (encode_field_vec(v.row_evals_on_b) + (encode_field_vec(v.col_evals_on_b) + (encode_field_vec(v.val_evals_on_b) + (encode_field_vec(v.row_col_evals_on_b))))))))))));
        }
        let ghost before = out@;
        write_labeled(&mut out, &self.val);
        proof {
            assert(out@ + (encode_labeled(v.row_col) + (encode_field_vec(v.row_evals_on_k) + (encode_field_vec(v.col_evals_on_k) + (encode_field_vec(v.val_evals_on_k) + (encode_field_vec(v.row_evals_on_b) + (encode_field_vec(v.col_evals_on_b) + (encode_field_vec(v.val_evals_on_b) + (encode_field_vec(v.row_col_evals_on_b))))))))) =~= before + (encode_labeled(v.val) + (encode_labeled(v.row_col) + (encode_field_vec(v.row_evals_on_k) + (encode_field_vec(v.col_evals_on_k) + (encode_field_vec(v.val_evals_on_k) + (encode_field_vec(v.row_evals_on_b) + (encode_field_vec(v.col_evals_on_b) + (encode_field_vec(v.val_evals_on_b) + (encode_field_vec(v.row_col_evals_on_b)))))))))));
        }
        let ghost before = out@;
        write_labeled(&mut out, &self.row_col);
        proof {
            assert(out@ + (encode_field_vec(v.row_evals_on_k) + (encode_field_vec(v.col_evals_on_k) + (encode_field_vec(v.val_evals_on_k) + (encode_field_vec(v.row_evals_on_b) + (encode_field_vec(v.col_evals_on_b) + (encode_field_vec(v.val_evals_on_b) + (encode_field_vec(v.row_col_evals_on_b)))))))) =~= before + (encode_labeled(v.row_col) + (encode_field_vec(v.row_evals_on_k) + (encode_field_vec(v.col_evals_on_k) + (encode_field_vec(v.val_evals_on_k) + (encode_field_vec(v.row_evals_on_b) + (encode_field_vec(v.col_evals_on_b) + (encode_field_vec(v.val_evals_on_b) + (encode_field_vec(v.row_col_evals_on_b))))))))));
        }
        let ghost before = out@;
        write_values(&mut out, &self.row_evals_on_k);
        proof {
            assert(out@ + (encode_field_vec(v.col_evals_on_k) + (encode_field_vec(v.val_evals_on_k) + (encode_field_vec(v.row_evals_on_b) + (encode_field_vec(v.col_evals_on_b) + (encode_field_vec(v.val_evals_on_b) + (encode_field_vec(v.row_col_evals_on_b))))))) =~= before + (encode_field_vec(v.row_evals_on_k) + (encode_field_vec(v.col_evals_on_k) + (encode_field_vec(v.val_evals_on_k) + (encode_field_vec(v.row_evals_on_b) + (encode_field_vec(v.col_evals_on_b) + (encode_field_vec(v.val_evals_on_b) + (encode_field_vec(v.row_col_evals_on_b)))))))));
        }
        let ghost before = out@;
        write_values(&mut out, &self.col_evals_on_k);
        proof {
            assert(out@ + (encode_field_vec(v.val_evals_on_k) + (encode_field_vec(v.row_evals_on_b) + (encode_field_vec(v.col_evals_on_b) + (encode_field_vec(v.val_evals_on_b) + (encode_field_vec(v.row_col_evals_on_b)))))) =~= before + (encode_field_vec(v.col_evals_on_k) + (encode_field_vec(v.val_evals_on_k) + (encode_field_vec(v.row_evals_on_b) + (encode_field_vec(v.col_evals_on_b) + (encode_field_vec(v.val_evals_on_b) + (encode_field_vec(v.row_col_evals_on_b))))))));
        }
        let ghost before = out@;
        write_values(&mut out, &self.val_evals_on_k);
        proof {
            assert(out@ + (encode_field_vec(v.row_evals_on_b) + (encode_field_vec(v.col_evals_on_b) + (encode_field_vec(v.val_evals_on_b) + (encode_field_vec(v.row_col_evals_on_b))))) =~= before + (encode_field_vec(v.val_evals_on_k) + (encode_field_vec(v.row_evals_on_b) + (encode_field_vec(v.col_evals_on_b) + (encode_field_vec(v.val_evals_on_b) + (encode_field_vec(v.row_col_evals_on_b)))))));
        }
        let ghost before = out@;
        write_values(&mut out, &self.row_evals_on_b);
        proof {
            assert(out@ + (encode_field_vec(v.col_evals_on_b) + (encode_field_vec(v.val_evals_on_b) + (encode_field_vec(v.row_col_evals_on_b)))) =~= before + (encode_field_vec(v.row_evals_on_b) + (encode_field_vec(v.col_evals_on_b) + (encode_field_vec(v.val_evals_on_b) + (encode_field_vec(v.row_col_evals_on_b))))));
        }
        let ghost before = out@;
        write_values(&mut out, &self.col_evals_on_b);
        proof {
            assert(out@ + (encode_field_vec(v.val_evals_on_b) + (encode_field_vec(v.row_col_evals_on_b))) =~= before + (encode_field_vec(v.col_evals_on_b) + (encode_field_vec(v.val_evals_on_b) + (encode_field_vec(v.row_col_evals_on_b)))));
        }
        let ghost before = out@;
        write_values(&mut out, &self.val_evals_on_b);
        proof {
            assert(out@ + (encode_field_vec(v.row_col_evals_on_b)) =~= before + (encode_field_vec(v.val_evals_on_b) + (encode_field_vec(v.row_col_evals_on_b))));
        }
        let ghost before = out@;
        write_values(&mut out, &self.row_col_evals_on_b);
        proof {
            assert(out@ =~= before + encode_field_vec(v.row_col_evals_on_b));
        }
        out
    }

    /// Reads a bundle from the bytes at `off`; gives it with the position where its bytes end.
    pub fn read(b: &Vec<u8>, off: usize) -> (r: Result<(MatrixPolynomials, usize), DecodeError>)
        ensures
            match parse_matrix_polynomials(b@, off as int) {
                Err(err) => r matches Err(e) && e == err,
                Ok((v, end)) => r matches Ok((p, e)) && p@ == v && e == end,
            },
    {
        let (row, o0) = match read_labeled(b, off) {
            Err(e) => {
                return Err(e);
            },
            Ok(x) => x,
        };
        let (col, o1) = match read_labeled(b, o0) {
            Err(e) => {
                return Err(e);
            },
            Ok(x) => x,
        };
        let (val, o2) = match read_labeled(b, o1) {
            Err(e) => {
                return Err(e);
            },
            Ok(x) => x,
        };
        let (row_col, o3) = match read_labeled(b, o2) {
            Err(e) => {
                return Err(e);
            },
            Ok(x) => x,
        };
        let (row_evals_on_k, o4) = match read_values(b, o3) {
            Err(e) => {
                return Err(e);
            },
            Ok(x) => x,
        };
        let (col_evals_on_k, o5) = match read_values(b, o4) {
            Err(e) => {
                return Err(e);
            },
            Ok(x) => x,
        };
        let (val_evals_on_k, o6) = match read_values(b, o5) {
            Err(e) => {
                return Err(e);
            },
            Ok(x) => x,
        };
        let (row_evals_on_b, o7) = match read_values(b, o6) {
            Err(e) => {
                return Err(e);
            },
            Ok(x) => x,
        };
        let (col_evals_on_b, o8) = match read_values(b, o7) {
            Err(e) => {
                return Err(e);
            },
            Ok(x) => x,
        };
        let (val_evals_on_b, o9) = match read_values(b, o8) {
            Err(e) => {
                return Err(e);
            },
            Ok(x) => x,
        };
        let (row_col_evals_on_b, o10) = match read_values(b, o9) {
            Err(e) => {
                return Err(e);
            },
            Ok(x) => x,
        };
        let p = MatrixPolynomials { row, col, val, row_col, row_evals_on_k, col_evals_on_k, val_evals_on_k, row_evals_on_b, col_evals_on_b, val_evals_on_b, row_col_evals_on_b };
        proof {
            assert(p@ == (MatrixPolynomialsView { row: p@.row, col: p@.col, val: p@.val, row_col: p@.row_col, row_evals_on_k: p@.row_evals_on_k, col_evals_on_k: p@.col_evals_on_k, val_evals_on_k: p@.val_evals_on_k, row_evals_on_b: p@.row_evals_on_b, col_evals_on_b: p@.col_evals_on_b, val_evals_on_b: p@.val_evals_on_b, row_col_evals_on_b: p@.row_col_evals_on_b }));
        }
        Ok((p, o10))
    }
}

/// Reading back what `MatrixPolynomials::write` wrote gives the same bundle, wherever the
/// bytes stand and whatever follows them.
#[verifier::rlimit(100)]
pub proof fn lemma_polynomials_round_trip(v: MatrixPolynomialsView, b: Seq<u8>, off: int)
    requires
        polynomials_encodable(v),
        0 <= off,
        off + encode_matrix_polynomials(v).len() <= b.len(),
        b.subrange(off, off + encode_matrix_polynomials(v).len()) == encode_matrix_polynomials(v),
    ensures
        parse_matrix_polynomials(b, off) == Ok::<_, DecodeError>((v, off + encode_matrix_polynomials(v).len())),
{
    let o0 = off + encode_labeled(v.row).len();
    lemma_split(b, off, encode_labeled(v.row), encode_labeled(v.col) + (encode_labeled(v.val) + (encode_labeled(v.row_col) + (encode_field_vec(v.row_evals_on_k) + (encode_field_vec(v.col_evals_on_k) + (encode_field_vec(v.val_evals_on_k) + (encode_field_vec(v.row_evals_on_b) + (encode_field_vec(v.col_evals_on_b) + (encode_field_vec(v.val_evals_on_b) + (encode_field_vec(v.row_col_evals_on_b)))))))))));
    lemma_parse_labeled_of(b, off, v.row);
    let o1 = o0 + encode_labeled(v.col).len();
    lemma_split(b, o0, encode_labeled(v.col), encode_labeled(v.val) + (encode_labeled(v.row_col) + (encode_field_vec(v.row_evals_on_k) + (encode_field_vec(v.col_evals_on_k) + (encode_field_vec(v.val_evals_on_k) + (encode_field_vec(v.row_evals_on_b) + (encode_field_vec(v.col_evals_on_b) + (encode_field_vec(v.val_evals_on_b) + (encode_field_vec(v.row_col_evals_on_b))))))))));
    lemma_parse_labeled_of(b, o0, v.col);
    let o2 = o1 + encode_labeled(v.val).len();
    lemma_split(b, o1, encode_labeled(v.val), encode_labeled(v.row_col) + (encode_field_vec(v.row_evals_on_k) + (encode_field_vec(v.col_evals_on_k) + (encode_field_vec(v.val_evals_on_k) + (encode_field_vec(v.row_evals_on_b) + (encode_field_vec(v.col_evals_on_b) + (encode_field_vec(v.val_evals_on_b) + (encode_field_vec(v.row_col_evals_on_b)))))))));
    lemma_parse_labeled_of(b, o1, v.val);
    let o3 = o2 + encode_labeled(v.row_col).len();
    lemma_split(b, o2, encode_labeled(v.row_col), encode_field_vec(v.row_evals_on_k) + (encode_field_vec(v.col_evals_on_k) + (encode_field_vec(v.val_evals_on_k) + (encode_field_vec(v.row_evals_on_b) + (encode_field_vec(v.col_evals_on_b) + (encode_field_vec(v.val_evals_on_b) + (encode_field_vec(v.row_col_evals_on_b))))))));
    lemma_parse_labeled_of(b, o2, v.row_col);
    let o4 = o3 + encode_field_vec(v.row_evals_on_k).len();
    lemma_split(b, o3, encode_field_vec(v.row_evals_on_k), encode_field_vec(v.col_evals_on_k) + (encode_field_vec(v.val_evals_on_k) + (encode_field_vec(v.row_evals_on_b) + (encode_field_vec(v.col_evals_on_b) + (encode_field_vec(v.val_evals_on_b) + (encode_field_vec(v.row_col_evals_on_b)))))));
    lemma_parse_field_vec_of(b, o3, v.row_evals_on_k);
    let o5 = o4 + encode_field_vec(v.col_evals_on_k).len();
    lemma_split(b, o4, encode_field_vec(v.col_evals_on_k), encode_field_vec(v.val_evals_on_k) + (encode_field_vec(v.row_evals_on_b) + (encode_field_vec(v.col_evals_on_b) + (encode_field_vec(v.val_evals_on_b) + (encode_field_vec(v.row_col_evals_on_b))))));
    lemma_parse_field_vec_of(b, o4, v.col_evals_on_k);
    let o6 = o5 + encode_field_vec(v.val_evals_on_k).len();
    lemma_split(b, o5, encode_field_vec(v.val_evals_on_k), encode_field_vec(v.row_evals_on_b) + (encode_field_vec(v.col_evals_on_b) + (encode_field_vec(v.val_evals_on_b) + (encode_field_vec(v.row_col_evals_on_b)))));
    lemma_parse_field_vec_of(b, o5, v.val_evals_on_k);
    let o7 = o6 + encode_field_vec(v.row_evals_on_b).len();
    lemma_split(b, o6, encode_field_vec(v.row_evals_on_b), encode_field_vec(v.col_evals_on_b) + (encode_field_vec(v.val_evals_on_b) + (encode_field_vec(v.row_col_evals_on_b))));
    lemma_parse_field_vec_of(b, o6, v.row_evals_on_b);
    let o8 = o7 + encode_field_vec(v.col_evals_on_b).len();
    lemma_split(b, o7, encode_field_vec(v.col_evals_on_b), encode_field_vec(v.val_evals_on_b) + (encode_field_vec(v.row_col_evals_on_b)));
    lemma_parse_field_vec_of(b, o7, v.col_evals_on_b);
    let o9 = o8 + encode_field_vec(v.val_evals_on_b).len();
    lemma_split(b, o8, encode_field_vec(v.val_evals_on_b), encode_field_vec(v.row_col_evals_on_b));
    lemma_parse_field_vec_of(b, o8, v.val_evals_on_b);
    let o10 = o9 + encode_field_vec(v.row_col_evals_on_b).len();
    lemma_parse_field_vec_of(b, o9, v.row_col_evals_on_b);
}

} // verus!
