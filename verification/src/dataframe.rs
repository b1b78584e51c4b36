use vstd::prelude::*;

use crate::scalar::{rat_fits, Rat, Scalar};

verus! {

/// One table cell: an exactly parsed number, or the raw bytes of a field
/// that is not a number.
#[derive(Debug, PartialEq)]
pub enum DFType {
    Num(Scalar),
    Str(Vec<u8>),
}

/// A parsed table: header names, cells in row-major order, and the shape
/// `(rows, cols)`; the cell buffer always holds exactly `rows * cols`
/// entries.
#[derive(Debug)]
pub struct DataFrame {
    pub headers: Vec<Vec<u8>>,
    pub data: Vec<DFType>,
    pub shape: (usize, usize),
}

/// How a label column is turned into numbers.
pub enum EncodingScheme {
    Label,
    OneHot,
}

/// Declaration of the reader's opaque error type, so the wrapper below can
/// return it.
#[verifier::external_type_specification]
#[verifier::external_body]
pub struct ExCsvError(csv::Error);

/// The header row the reader extracts from the content.
pub uninterp spec fn csv_headers_of(s: Seq<u8>) -> Seq<Seq<u8>>;

/// The data records the reader extracts from the content.
pub uninterp spec fn csv_records_of(s: Seq<u8>) -> Seq<Seq<Seq<u8>>>;

/// Relies on csv::Reader: parses byte content with a header row and one
/// record per line. The reader rejects ragged rows by default, so on success
/// every record has exactly as many fields as the header row.
#[verifier::external_body]
fn parse_csv(content: &Vec<u8>) -> (r: Result<(Vec<Vec<u8>>, Vec<Vec<Vec<u8>>>), csv::Error>)
    ensures
        match r {
            Ok(p) => {
                &&& p.0@.len() == csv_headers_of(content@).len()
                &&& forall|i: int|
                    0 <= i < p.0@.len() ==> (#[trigger] p.0@[i])@ == csv_headers_of(
                        content@,
                    )[i]
                &&& p.1@.len() == csv_records_of(content@).len()
                &&& forall|i: int|
                    0 <= i < p.1@.len() ==> (#[trigger] p.1@[i])@.len() == csv_records_of(
                        content@,
                    )[i].len() && p.1@[i]@.len() == p.0@.len()
                &&& forall|i: int, j: int|
                    0 <= i < p.1@.len() && 0 <= j < p.1@[i]@.len() ==> (#[trigger] p.1@[i]@[j])@
                        == csv_records_of(content@)[i][j]
            },
            Err(_) => true,
        },
{
    let mut rdr = csv::Reader::from_reader(content.as_slice());
    let headers: Vec<Vec<u8>> = match rdr.headers() {
        Ok(h) => h.iter().map(|f| f.as_bytes().to_vec()).collect(),
        Err(e) => {
            return Err(e);
        },
    };
    let mut rows: Vec<Vec<Vec<u8>>> = Vec::new();
    for rec in rdr.records() {
        rows.push(rec?.iter().map(|f| f.as_bytes().to_vec()).collect());
    }
    Ok((headers, rows))
}

pub open spec fn is_ws(b: u8) -> bool {
    b == 32 || b == 9 || b == 10 || b == 13
}

pub open spec fn is_digit(b: u8) -> bool {
    48 <= b <= 57
}

/// Value of the digit run `s[i..j]` read as a decimal integer.
pub open spec fn digits_value(s: Seq<u8>, i: int, j: int) -> int
    decreases j - i,
{
    if j <= i {
        0
    } else {
        digits_value(s, i, j - 1) * 10 + (s[j - 1] - 48)
    }
}

pub open spec fn spec_digits(s: Seq<u8>, i: int, j: int) -> bool {
    forall|k: int| i <= k < j ==> is_digit(#[trigger] s[k])
}

pub open spec fn pow10(k: nat) -> int
    decreases k,
{
    if k == 0 {
        1
    } else {
        10 * pow10((k - 1) as nat)
    }
}

/// Position of the first dot at or after `i`, or the length if none.
pub open spec fn dot_pos(s: Seq<u8>, i: int) -> int
    decreases s.len() - i,
{
    if i < 0 || i >= s.len() {
        s.len() as int
    } else if s[i] == 46 {
        i
    } else {
        dot_pos(s, i + 1)
    }
}

/// The numeric grammar this library accepts: an optional sign, then digits
/// with an optional dot anywhere among them — integer or fraction digits may
/// be missing, but not both.
pub open spec fn num_start(s: Seq<u8>) -> int {
    if s.len() > 0 && (s[0] == 43 || s[0] == 45) {
        1int
    } else {
        0int
    }
}

pub open spec fn valid_number(s: Seq<u8>) -> bool {
    let st = num_start(s);
    let dp = dot_pos(s, st);
    &&& st < s.len()
    &&& spec_digits(s, st, dp)
    &&& (if dp == s.len() {
        dp > st
    } else {
        spec_digits(s, dp + 1, s.len() as int) && (dp > st || dp + 1 < s.len())
    })
}

/// The exact rational a valid number denotes.
pub open spec fn num_value(s: Seq<u8>) -> Rat {
    let st = num_start(s);
    let dp = dot_pos(s, st);
    let fl = if dp < s.len() {
        (s.len() - dp - 1) as nat
    } else {
        0nat
    };
    let mag = digits_value(s, st, dp) * pow10(fl) + (if dp < s.len() {
        digits_value(s, dp + 1, s.len() as int)
    } else {
        0int
    });
    Rat { n: if s.len() > 0 && s[0] == 45 {
        -mag
    } else {
        mag
    }, d: pow10(fl) }
}

pub proof fn lemma_digits_value_nonneg(s: Seq<u8>, i: int, j: int)
    requires
        spec_digits(s, i, j),
    ensures
        digits_value(s, i, j) >= 0,
    decreases j - i,
{
    if j > i {
        lemma_digits_value_nonneg(s, i, j - 1);
        assert(digits_value(s, i, j - 1) * 10 >= 0) by (nonlinear_arith)
            requires
                digits_value(s, i, j - 1) >= 0,
        ;
        if i <= j - 1 < j {
            assert(is_digit(s[j - 1]));
        }
    }
}

/// A longer digit run never denotes a smaller value.
pub proof fn lemma_digits_value_mono(s: Seq<u8>, i: int, j: int, k: int)
    requires
        spec_digits(s, i, k),
        i <= j <= k,
    ensures
        digits_value(s, i, k) >= digits_value(s, i, j),
    decreases k - j,
{
    if k > j {
        lemma_digits_value_mono(s, i, j, k - 1);
        lemma_digits_value_nonneg(s, i, k - 1);
        assert(digits_value(s, i, k - 1) * 10 >= digits_value(s, i, k - 1)) by (
        nonlinear_arith)
            requires
                digits_value(s, i, k - 1) >= 0,
        ;
        assert(is_digit(s[k - 1]));
    }
}

pub proof fn lemma_pow10_pos(k: nat)
    ensures
        pow10(k) >= 1,
    decreases k,
{
    if k > 0 {
        lemma_pow10_pos((k - 1) as nat);
    }
}

pub proof fn lemma_dot_pos_range(s: Seq<u8>, i: int)
    requires
        0 <= i,
    ensures
        i <= dot_pos(s, i) || dot_pos(s, i) == s.len(),
        dot_pos(s, i) <= s.len(),
        dot_pos(s, i) < s.len() ==> s[dot_pos(s, i)] == 46,
    decreases s.len() - i,
{
    if i < s.len() && s[i] != 46 {
        lemma_dot_pos_range(s, i + 1);
    }
}

/// The first dot is where scanning digits stops.
pub proof fn lemma_dot_pos_after_digits(s: Seq<u8>, i: int, j: int)
    requires
        0 <= i <= j <= s.len(),
        spec_digits(s, i, j),
        j < s.len() ==> s[j] == 46,
    ensures
        dot_pos(s, i) == j || (j == s.len() && dot_pos(s, i) == s.len()),
    decreases j - i,
{
    if i < j {
        assert(is_digit(s[i]));
        lemma_dot_pos_after_digits(s, i + 1, j);
    }
}

/// The first dot lies at or beyond any leading digit run.
pub proof fn lemma_dot_pos_lb(s: Seq<u8>, i: int, j: int)
    requires
        0 <= i <= j <= s.len(),
        spec_digits(s, i, j),
    ensures
        dot_pos(s, i) >= j,
    decreases j - i,
{
    if i < j {
        assert(is_digit(s[i]));
        lemma_dot_pos_lb(s, i + 1, j);
    } else {
        lemma_dot_pos_range(s, i);
    }
}

pub proof fn lemma_pow10_mono(a: nat, b: nat)
    requires
        a <= b,
    ensures
        pow10(b) >= pow10(a),
        pow10(a) >= 1,
    decreases b,
{
    lemma_pow10_pos(a);
    if b > a {
        lemma_pow10_mono(a, (b - 1) as nat);
        lemma_pow10_pos((b - 1) as nat);
        assert(10 * pow10((b - 1) as nat) >= pow10((b - 1) as nat)) by (nonlinear_arith)
            requires
                pow10((b - 1) as nat) >= 1,
        ;
    }
}

/// The magnitude of a valid number is at least the value of any prefix of
/// its integer digit run.
pub proof fn lemma_mag_lb(a: int, p: int, b: int)
    by (nonlinear_arith)
    requires
        a >= 0,
        p >= 1,
        b >= 0,
    ensures
        a * p + b >= a,
{
}

/// Exact decimal parser for the numeric grammar above. Returns the value
/// exactly when the bytes form a valid number whose exact value is
/// representable.
pub fn parse_scalar(s: &Vec<u8>) -> (r: Option<Scalar>)
    ensures
        match r {
            Some(q) => valid_number(s@) && q.wf() && q@ == num_value(s@),
            None => !(valid_number(s@) && rat_fits(num_value(s@))),
        },
{
    let n = s.len();
    if n == 0 {
        return None;
    }
    let mut i: usize = 0;
    let neg = s[0] == 45;
    if s[0] == 43 || s[0] == 45 {
        i = 1;
    }
    let st = i;
    let limit: i128 = if neg {
        0x8000_0000_0000_0000
    } else {
        0x7fff_ffff_ffff_ffff
    };
    proof {
        assert(st as int == num_start(s@));
    }
    let mut acc: i128 = 0;
    while i < n && 48 <= s[i] && s[i] <= 57
        invariant
            n == s@.len(),
            st as int == num_start(s@),
            st <= i <= n,
            neg == (s@.len() > 0 && s@[0] == 45),
            limit == (if neg {
                0x8000_0000_0000_0000i128
            } else {
                0x7fff_ffff_ffff_ffffi128
            }),
            spec_digits(s@, st as int, i as int),
            0 <= acc <= limit,
            acc == digits_value(s@, st as int, i as int),
        decreases n - i,
    {
        acc = acc * 10 + ((s[i] - 48) as i128);
        i = i + 1;
        if acc > limit {
            proof {
                if valid_number(s@) {
                    let dp = dot_pos(s@, st as int);
                    lemma_dot_pos_lb(s@, st as int, i as int);
                    lemma_digits_value_mono(s@, st as int, i as int, dp);
                    let fl = if dp < s@.len() {
                        (s@.len() - dp - 1) as nat
                    } else {
                        0nat
                    };
                    lemma_pow10_pos(fl);
                    if dp < s@.len() {
                        lemma_digits_value_nonneg(s@, dp + 1, s@.len() as int);
                    }
                    lemma_mag_lb(
                        digits_value(s@, st as int, dp),
                        pow10(fl),
                        if dp < s@.len() {
                            digits_value(s@, dp + 1, s@.len() as int)
                        } else {
                            0int
                        },
                    );
                    assert(!rat_fits(num_value(s@)));
                }
            }
            return None;
        }
    }
    if i == n {
        if i == st {
            // nothing after an optional sign
            return None;
        }
        proof {
            lemma_dot_pos_after_digits(s@, st as int, n as int);
            assert(valid_number(s@));
            assert(pow10(0) == 1);
            assert(digits_value(s@, st as int, n as int) * 1 == digits_value(
                s@,
                st as int,
                n as int,
            ));
        }
        let mag: i64 = if neg {
            (-acc) as i64
        } else {
            acc as i64
        };
        return Some(Scalar { num: mag, den: 1 });
    }
    if s[i] != 46 {
        proof {
            if valid_number(s@) {
                let dp = dot_pos(s@, st as int);
                lemma_dot_pos_lb(s@, st as int, i as int);
                lemma_dot_pos_range(s@, st as int);
                if dp > i as int {
                    assert(is_digit(s@[i as int]));
                }
                assert(false);
            }
        }
        return None;
    }
    let dp = i;
    proof {
        lemma_dot_pos_after_digits(s@, st as int, dp as int);
    }
    i = i + 1;
    let fs = i;
    if i == n {
        if dp == st {
            // a bare dot with no digits on either side
            return None;
        }
        proof {
            assert(valid_number(s@));
            assert(pow10(0) == 1);
            assert((s@.len() - dp - 1) as nat == 0);
            assert(digits_value(s@, st as int, dp as int) * 1 == digits_value(
                s@,
                st as int,
                dp as int,
            ));
            assert(digits_value(s@, dp as int + 1, s@.len() as int) == 0);
        }
        let mag: i64 = if neg {
            (-acc) as i64
        } else {
            acc as i64
        };
        return Some(Scalar { num: mag, den: 1 });
    }
    let mut den: i128 = 1;
    while i < n && 48 <= s[i] && s[i] <= 57
        invariant
            n == s@.len(),
            st as int == num_start(s@),
            neg == (s@.len() > 0 && s@[0] == 45),
            limit == (if neg {
                0x8000_0000_0000_0000i128
            } else {
                0x7fff_ffff_ffff_ffffi128
            }),
            st <= dp < n,
            fs == dp + 1,
            fs <= i <= n,
            s@[dp as int] == 46,
            spec_digits(s@, st as int, dp as int),
            dot_pos(s@, st as int) == dp as int,
            spec_digits(s@, fs as int, i as int),
            0 <= acc <= limit,
            1 <= den <= 0x7fff_ffff_ffff_ffff,
            den == pow10((i - fs) as nat),
            acc == digits_value(s@, st as int, dp as int) * pow10((i - fs) as nat)
                + digits_value(s@, fs as int, i as int),
        decreases n - i,
    {
        proof {
            let k = (i - fs) as nat;
            let a = digits_value(s@, st as int, dp as int);
            let b = digits_value(s@, fs as int, i as int);
            let d = s@[i as int] - 48;
            assert((a * pow10(k) + b) * 10 + d == a * (10 * pow10(k)) + (b * 10 + d)) by (
            nonlinear_arith);
            assert(pow10((i + 1 - fs) as nat) == 10 * pow10(k));
        }
        acc = acc * 10 + ((s[i] - 48) as i128);
        den = den * 10;
        i = i + 1;
        if acc > limit || den > 0x7fff_ffff_ffff_ffffi128 {
            proof {
                if valid_number(s@) {
                    let fl = (s@.len() - dp - 1) as nat;
                    lemma_pow10_mono((i - fs) as nat, fl);
                    lemma_digits_value_mono(s@, fs as int, i as int, s@.len() as int);
                    lemma_digits_value_nonneg(s@, fs as int, i as int);
                    lemma_digits_value_nonneg(s@, st as int, dp as int);
                    assert(digits_value(s@, st as int, dp as int) * pow10(fl) >= digits_value(
                        s@,
                        st as int,
                        dp as int,
                    ) * pow10((i - fs) as nat)) by (nonlinear_arith)
                        requires
                            pow10(fl) >= pow10((i - fs) as nat),
                            digits_value(s@, st as int, dp as int) >= 0,
                    ;
                    assert(!rat_fits(num_value(s@)));
                }
            }
            return None;
        }
    }
    if i < n {
        proof {
            if valid_number(s@) {
                assert(is_digit(s@[i as int]));
                assert(false);
            }
        }
        return None;
    }
    proof {
        assert(valid_number(s@));
        assert((i - fs) as nat == (s@.len() - dp - 1) as nat);
    }
    let mag: i64 = if neg {
        (-acc) as i64
    } else {
        acc as i64
    };
    Some(Scalar { num: mag, den: den as i64 })
}

/// Index of the first byte that is not whitespace.
pub open spec fn first_non_ws(s: Seq<u8>, i: int) -> int
    decreases s.len() - i,
{
    if i < 0 || i >= s.len() {
        s.len() as int
    } else if is_ws(s[i]) {
        first_non_ws(s, i + 1)
    } else {
        i
    }
}

/// One past the last byte above `a` that is not whitespace.
pub open spec fn trim_end(s: Seq<u8>, a: int, j: int) -> int
    decreases j - a,
{
    if j <= a {
        a
    } else if is_ws(s[j - 1]) {
        trim_end(s, a, j - 1)
    } else {
        j
    }
}

/// The bytes with leading and trailing whitespace removed.
pub open spec fn trim_of(s: Seq<u8>) -> Seq<u8> {
    let a = first_non_ws(s, 0);
    s.subrange(a, trim_end(s, a, s.len() as int))
}

proof fn lemma_first_non_ws_range(s: Seq<u8>, i: int)
    requires
        0 <= i <= s.len(),
    ensures
        i <= first_non_ws(s, i) <= s.len(),
    decreases s.len() - i,
{
    if i < s.len() && is_ws(s[i]) {
        lemma_first_non_ws_range(s, i + 1);
    }
}

proof fn lemma_trim_end_range(s: Seq<u8>, a: int, j: int)
    requires
        a <= j,
    ensures
        a <= trim_end(s, a, j) <= j,
    decreases j - a,
{
    if j > a && is_ws(s[j - 1]) {
        lemma_trim_end_range(s, a, j - 1);
    }
}

/// Strips leading and trailing whitespace.
pub fn trim_bytes(s: &Vec<u8>) -> (r: Vec<u8>)
    ensures
        r@ == trim_of(s@),
{
    let n = s.len();
    let mut a: usize = 0;
    while a < n && (s[a] == 32 || s[a] == 9 || s[a] == 10 || s[a] == 13)
        invariant
            n == s@.len(),
            a <= n,
            first_non_ws(s@, 0) == first_non_ws(s@, a as int),
        decreases n - a,
    {
        a = a + 1;
    }
    let mut b: usize = n;
    while b > a && (s[b - 1] == 32 || s[b - 1] == 9 || s[b - 1] == 10 || s[b - 1] == 13)
        invariant
            n == s@.len(),
            a <= b <= n,
            trim_end(s@, a as int, n as int) == trim_end(s@, a as int, b as int),
        decreases b,
    {
        b = b - 1;
    }
    let mut out: Vec<u8> = Vec::new();
    let mut k: usize = a;
    while k < b
        invariant
            n == s@.len(),
            a <= k <= b <= n,
            out@.len() == k - a,
            forall|j: int| 0 <= j < out@.len() ==> out@[j] == s@[a + j],
        decreases b - k,
    {
        out.push(s[k]);
        k = k + 1;
    }
    proof {
        lemma_first_non_ws_range(s@, 0);
        lemma_trim_end_range(s@, a as int, n as int);
        assert(first_non_ws(s@, a as int) == a) by {
            if (a as int) < s@.len() && is_ws(s@[a as int]) {
                assert(false);
            }
        }
        assert(trim_end(s@, a as int, b as int) == b) by {
            if (b as int) > a && is_ws(s@[b as int - 1]) {
                assert(false);
            }
        }
        assert(out@ =~= trim_of(s@));
    }
    out
}

/// A trimmed field becomes an exactly parsed number where the bytes form a
/// representable number, and stays text otherwise.
pub fn parse_field(raw: &Vec<u8>) -> (r: DFType)
    ensures
        ({
            let t = trim_of(raw@);
            match r {
                DFType::Num(q) => valid_number(t) && rat_fits(num_value(t)) && q.wf() && q@
                    == num_value(t),
                DFType::Str(v) => !(valid_number(t) && rat_fits(num_value(t))) && v@ == t,
            }
        }),
{
    let t = trim_bytes(raw);
    match parse_scalar(&t) {
        Some(q) => {
            proof {
                assert(rat_fits(q@));
            }
            DFType::Num(q)
        },
        None => DFType::Str(t),
    }
}

impl DataFrame {
    /// Parses CSV bytes into a table: trimmed headers, and one classified
    /// cell per field in row-major order. The resulting buffer always holds
    /// exactly `rows * cols` cells.
    pub fn from_csv(content: &Vec<u8>) -> (r: Result<DataFrame, crate::error::UtilityError>)
        ensures
            match r {
                Ok(df) => {
                    &&& df.shape.0 == csv_records_of(content@).len()
                    &&& df.shape.1 == csv_headers_of(content@).len()
                    &&& df.data@.len() == df.shape.0 * df.shape.1
                    &&& df.headers@.len() == df.shape.1
                    &&& forall|c: int|
                        0 <= c < df.headers@.len() ==> (#[trigger] df.headers@[c])@ == trim_of(
                            csv_headers_of(content@)[c],
                        )
                    &&& forall|rr: int, c: int|
                        0 <= rr < df.shape.0 && 0 <= c < df.shape.1 ==> {
                            let t = trim_of(csv_records_of(content@)[rr][c]);
                            match #[trigger] df.data@[rr * df.shape.1 + c] {
                                DFType::Num(q) => valid_number(t) && rat_fits(num_value(t))
                                    && q.wf() && q@ == num_value(t),
                                DFType::Str(v) => !(valid_number(t) && rat_fits(num_value(t)))
                                    && v@ == t,
                            }
                        }
                },
                Err(e) => e is MalformedCsv,
            },
    {
        let parsed = match parse_csv(content) {
            Ok(p) => p,
            Err(_) => {
                return Err(crate::error::UtilityError::MalformedCsv);
            },
        };
        let raw_headers = parsed.0;
        let records = parsed.1;
        let cols = raw_headers.len();
        let rows = records.len();
        let mut headers: Vec<Vec<u8>> = Vec::new();
        let mut c: usize = 0;
        while c < cols
            invariant
                cols == raw_headers@.len(),
                cols == csv_headers_of(content@).len(),
                forall|i: int|
                    0 <= i < raw_headers@.len() ==> (#[trigger] raw_headers@[i])@
                        == csv_headers_of(content@)[i],
                c <= cols,
                headers@.len() == c,
                forall|i: int|
                    0 <= i < headers@.len() ==> (#[trigger] headers@[i])@ == trim_of(
                        csv_headers_of(content@)[i],
                    ),
            decreases cols - c,
        {
            headers.push(trim_bytes(&raw_headers[c]));
            c = c + 1;
        }
        let mut data: Vec<DFType> = Vec::new();
        let mut rr: usize = 0;
        while rr < rows
            invariant
                rows == records@.len(),
                rows == csv_records_of(content@).len(),
                cols == csv_headers_of(content@).len(),
                forall|i: int|
                    0 <= i < records@.len() ==> (#[trigger] records@[i])@.len()
                        == csv_records_of(content@)[i].len() && records@[i]@.len() == cols,
                forall|i: int, j: int|
                    0 <= i < records@.len() && 0 <= j < records@[i]@.len() ==> (
                    #[trigger] records@[i]@[j])@ == csv_records_of(content@)[i][j],
                rr <= rows,
                data@.len() == rr * cols,
                forall|i: int, j: int|
                    0 <= i < rr && 0 <= j < cols ==> {
                        let t = trim_of(csv_records_of(content@)[i][j]);
                        match #[trigger] data@[i * cols + j] {
                            DFType::Num(q) => valid_number(t) && rat_fits(num_value(t))
                                && q.wf() && q@ == num_value(t),
                            DFType::Str(v) => !(valid_number(t) && rat_fits(num_value(t)))
                                && v@ == t,
                        }
                    },
            decreases rows - rr,
        {
            let rec = &records[rr];
            let mut cc: usize = 0;
            while cc < cols
                invariant
                    rows == records@.len(),
                    rows == csv_records_of(content@).len(),
                    cols == csv_headers_of(content@).len(),
                    rr < rows,
                    rec@ == records@[rr as int]@,
                    rec@.len() == cols,
                    forall|i: int, j: int|
                        0 <= i < records@.len() && 0 <= j < records@[i]@.len() ==> (
                        #[trigger] records@[i]@[j])@ == csv_records_of(content@)[i][j],
                    cc <= cols,
                    data@.len() == rr * cols + cc,
                    forall|i: int, j: int|
                        0 <= i < rr && 0 <= j < cols ==> {
                            let t = trim_of(csv_records_of(content@)[i][j]);
                            match #[trigger] data@[i * cols + j] {
                                DFType::Num(q) => valid_number(t) && rat_fits(num_value(t))
                                    && q.wf() && q@ == num_value(t),
                                DFType::Str(v) => !(valid_number(t) && rat_fits(num_value(t)))
                                    && v@ == t,
                            }
                        },
                    forall|j: int|
                        0 <= j < cc ==> {
                            let t = trim_of(csv_records_of(content@)[rr as int][j]);
                            match #[trigger] data@[rr * cols + j] {
                                DFType::Num(q) => valid_number(t) && rat_fits(num_value(t))
                                    && q.wf() && q@ == num_value(t),
                                DFType::Str(v) => !(valid_number(t) && rat_fits(num_value(t)))
                                    && v@ == t,
                            }
                        },
                decreases cols - cc,
            {
                let cell = parse_field(&rec[cc]);
                proof {
                    assert(rec@[cc as int]@ == csv_records_of(content@)[rr as int][cc as int]);
                }
                data.push(cell);
                proof {
                    assert forall|i: int, j: int|
                        0 <= i < rr && 0 <= j < cols implies {
                        let t = trim_of(csv_records_of(content@)[i][j]);
                        match #[trigger] data@[i * cols + j] {
                            DFType::Num(q) => valid_number(t) && rat_fits(num_value(t))
                                && q.wf() && q@ == num_value(t),
                            DFType::Str(v) => !(valid_number(t) && rat_fits(num_value(t)))
                                && v@ == t,
                        }
                    } by {
                        crate::matrix::lemma_index_bound(i, j, rr as int, cols as int);
                        assert(i * cols + j < rr * cols);
                        assert((rr as int) * (cols as int) <= (rr as int) * (cols as int)
                            + cc);
                    }
                }
                cc = cc + 1;
            }
            rr = rr + 1;
            proof {
                assert((rr - 1) * (cols as int) + cols == (rr as int) * (cols as int)) by (
                nonlinear_arith);
            }
        }
        Ok(DataFrame { headers, data, shape: (rows, cols) })
    }

    /// Reserved transformation of label columns; currently leaves the table
    /// untouched.
    pub fn encode(&mut self, encoding: EncodingScheme)
        ensures
            *final(self) == *old(self),
    {
        let _ = encoding;
    }
}

} // verus!
